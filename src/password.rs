//! Salted, memory-hard password hashing for the user directory.

use vstd::prelude::*;

verus! {

/// The encoded Argon2 hash (default parameters) of a password with a salt.
pub uninterp spec fn argon2_encoded(pwd: Seq<u8>, salt: Seq<u8>) -> Seq<char>;

/// Whether an encoded Argon2 hash verifies a password.
pub uninterp spec fn argon2_accepts(encoded: Seq<char>, pwd: Seq<u8>) -> bool;

/// Relies on argon2::hash_encoded with the default configuration: the encoded hash
/// is a function of the password and the salt, and the default parameters with
/// a 32-byte password and a 32-byte salt pass every check of Context::new, so
/// it does not fail; argon2::verify_encoded accepts the password against the
/// hash just made.
#[verifier::external_body]
pub(crate) fn hash_password(pwd: &[u8; 32], salt: &[u8; 32]) -> (r: String)
    ensures
        r@ == argon2_encoded(pwd@, salt@),
        argon2_accepts(r@, pwd@),
{
    argon2::hash_encoded(pwd, salt, &argon2::Config::default()).unwrap_or_default()
}

/// Relies on argon2::verify_encoded: whether the hash accepts the password, an
/// unreadable hash counting as a refusal.
#[verifier::external_body]
pub(crate) fn verify_password(encoded: &String, pwd: &[u8; 32]) -> (r: bool)
    ensures
        r == argon2_accepts(encoded@, pwd@),
{
    argon2::verify_encoded(encoded, pwd).unwrap_or(false)
}

/// Relies on rand::thread_rng and Rng::fill: a fresh random salt, of which nothing is known.
#[verifier::external_body]
pub(crate) fn random_salt() -> (r: [u8; 32]) {
    let mut salt = [0u8; 32];
    rand::Rng::fill(&mut rand::thread_rng(), &mut salt);
    salt
}

} // verus!
