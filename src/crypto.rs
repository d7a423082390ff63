//! The cryptography that the secure channel relies on: X25519 keys, the
//! XChaCha20-Poly1305 box, and the seeded generators that derive nonces.

use vstd::prelude::*;

verus! {

/// The X25519 public key of a secret key.
pub uninterp spec fn x25519_public(sk: Seq<u8>) -> Seq<u8>;

/// The box of `plain` under the key shared by a peer's public key and our
/// secret key, with `nonce`; `None` where encryption fails.
pub uninterp spec fn box_sealed(peer_pk: Seq<u8>, own_sk: Seq<u8>, nonce: Seq<u8>, plain: Seq<u8>) -> Option<Seq<u8>>;

/// The plaintext of a box under that key and nonce; `None` where it does not authenticate.
pub uninterp spec fn box_opened(peer_pk: Seq<u8>, own_sk: Seq<u8>, nonce: Seq<u8>, sealed: Seq<u8>) -> Option<Seq<u8>>;

/// Relies on crypto_box::SecretKey::generate over rand::thread_rng: a random
/// secret key, of which nothing is known.
#[verifier::external_body]
pub(crate) fn generate_secret_key() -> (r: [u8; 32]) {
    *crypto_box::SecretKey::generate(&mut rand::thread_rng()).as_bytes()
}

/// Relies on crypto_box::SecretKey::public_key: the public key is a function
/// of the secret key.
#[verifier::external_body]
pub(crate) fn public_key_of(sk: &[u8; 32]) -> (r: [u8; 32])
    ensures
        r@ == x25519_public(sk@),
{
    *crypto_box::SecretKey::from(*sk).public_key().as_bytes()
}

/// The 24 bytes that the ChaCha12 generator seeded with `seed` gives from
/// word `word` of its stream on.
pub uninterp spec fn chacha_nonce(seed: Seq<u8>, word: nat) -> Seq<u8>;

/// Relies on rand_chacha::ChaCha12Rng (the generator that rand's StdRng is):
/// from_seed and set_word_pos place it at word `word` of the stream that the
/// seed fixes, and crypto_box::generate_nonce fills 24 bytes, six words, from there.
#[verifier::external_body]
pub(crate) fn nonce_at(seed: &[u8; 32], word: u128) -> (r: [u8; 24])
    ensures
        r@ == chacha_nonce(seed@, word as nat),
{
    let mut rng = <rand_chacha::ChaCha12Rng as rand::SeedableRng>::from_seed(*seed);
    rng.set_word_pos(word);
    crypto_box::generate_nonce(&mut rng).into()
}

/// Relies on crypto_box::ChaChaBox::new and aead::Aead::encrypt: the box is a
/// function of the two keys, the nonce and the plaintext.
#[verifier::external_body]
pub(crate) fn seal(peer_pk: &[u8; 32], own_sk: &[u8; 32], nonce: &[u8; 24], plain: &[u8]) -> (r: Option<Vec<u8>>)
    ensures
        match r {
            Some(c) => box_sealed(peer_pk@, own_sk@, nonce@, plain@) == Some(c@),
            None => box_sealed(peer_pk@, own_sk@, nonce@, plain@) is None,
        },
{
    let pk = crypto_box::PublicKey::from(*peer_pk);
    let sk = crypto_box::SecretKey::from(*own_sk);
    let cipher = crypto_box::ChaChaBox::new(&pk, &sk);
    crypto_box::aead::Aead::encrypt(&cipher, &(*nonce).into(), plain).ok()
}

/// Relies on crypto_box::ChaChaBox::new and aead::Aead::decrypt: the opened
/// box is a function of the two keys, the nonce and the box, and a box that
/// the peer sealed for us, under the key that X25519 gives both sides, with
/// this nonce, opens to its message.
#[verifier::external_body]
pub(crate) fn open(peer_pk: &[u8; 32], own_sk: &[u8; 32], nonce: &[u8; 24], sealed: &[u8]) -> (r: Option<Vec<u8>>)
    ensures
        match r {
            Some(p) => box_opened(peer_pk@, own_sk@, nonce@, sealed@) == Some(p@),
            None => box_opened(peer_pk@, own_sk@, nonce@, sealed@) is None,
        },
        forall|their_sk: Seq<u8>, msg: Seq<u8>|
            peer_pk@ == x25519_public(their_sk) && #[trigger] box_sealed(
                x25519_public(own_sk@),
                their_sk,
                nonce@,
                msg,
            ) == Some(sealed@) ==> r is Some && r->0@ == msg,
{
    let pk = crypto_box::PublicKey::from(*peer_pk);
    let sk = crypto_box::SecretKey::from(*own_sk);
    let cipher = crypto_box::ChaChaBox::new(&pk, &sk);
    crypto_box::aead::Aead::decrypt(&cipher, &(*nonce).into(), sealed).ok()
}

} // verus!
