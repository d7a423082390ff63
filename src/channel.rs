//! The secure datagram channel: a key pair, the public key of every known
//! peer, and for each of them a symmetric context with two nonce streams.
//!
//! The encrypt stream toward a peer is seeded by the peer's public key and
//! the decrypt stream from it by our own, so the sender's encrypt stream is
//! the receiver's decrypt stream and no nonce travels on the wire.

use crate::crypto::{
    box_opened, box_sealed, chacha_nonce, generate_secret_key, nonce_at, open, public_key_of,
    seal, x25519_public,
};
use crate::codec::{at, enc_u16};
use crate::data::{PeerAddr, SecureMsg};
use crate::messages::{
    enc_body, enc_secure, enc_secure_msg_bytes, encode_secure, parse_secure, serialize_with_meta,
    Body,
};
use crate::table::Table;
use vstd::prelude::*;

verus! {

broadcast use crate::codec::lemma_be_len;

/// Failures of the channel and of the transport above it.
#[derive(Clone, Copy, Debug, PartialEq, Eq, Structural)]
pub enum Error {
    Network,
    Timeout,
    CorruptedData,
    OneShotReceiveError,
    MpscClosed,
    EncryptionFailed,
    DecryptionFailed,
    NoDestKey,
    NoSrcKey,
}

/// The symmetric state kept for one peer.
pub struct PeerContext {
    pub peer_key: [u8; 32],
    pub own_secret: [u8; 32],
    /// Seed of the encrypt stream: the peer's public key.
    pub en_seed: [u8; 32],
    /// Seed of the decrypt stream: our own public key.
    pub de_seed: [u8; 32],
    /// How many nonces each stream has given.
    pub sent: u64,
    pub received: u64,
}

/// The `n`-th nonce of the stream seeded by `seed`: each nonce takes six words.
pub open spec fn nth_nonce(seed: Seq<u8>, n: nat) -> Seq<u8> {
    chacha_nonce(seed, 6 * n)
}

/// The fresh context for a peer with key `k`, made by a channel with key pair (`sk`, `pk`).
pub open spec fn fresh_ctx(k: [u8; 32], sk: [u8; 32], pk: [u8; 32]) -> PeerContext {
    PeerContext { peer_key: k, own_secret: sk, en_seed: k, de_seed: pk, sent: 0, received: 0 }
}

pub open spec fn bump(n: u64) -> u64 {
    if n < u64::MAX {
        (n + 1) as u64
    } else {
        n
    }
}

/// `c` after its encrypt stream gave one nonce.
pub open spec fn after_seal(c: PeerContext) -> PeerContext {
    PeerContext { sent: bump(c.sent), ..c }
}

/// `c` after its decrypt stream gave one nonce.
pub open spec fn after_open(c: PeerContext) -> PeerContext {
    PeerContext { received: bump(c.received), ..c }
}

/// The box that context `c` makes of `plain` with the next nonce of its encrypt stream.
pub open spec fn next_box(c: PeerContext, plain: Seq<u8>) -> Option<Seq<u8>> {
    box_sealed(c.peer_key@, c.own_secret@, nth_nonce(c.en_seed@, c.sent as nat), plain)
}

/// What context `c` opens box `b` to with the next nonce of its decrypt stream.
pub open spec fn next_open(c: PeerContext, b: Seq<u8>) -> Option<Seq<u8>> {
    box_opened(c.peer_key@, c.own_secret@, nth_nonce(c.de_seed@, c.received as nat), b)
}

/// `d` is the `Msg` datagram that `c`'s context for `addr` makes of `plain`.
pub open spec fn sealed_for(c: SecureConnection, addr: PeerAddr, plain: Seq<u8>, d: Seq<u8>) -> bool {
    let b = next_box(c.contexts@[addr], plain);
    b is Some && d == enc_secure_msg_bytes(b->0)
}

impl PeerContext {
    pub open spec fn wf(&self) -> bool {
        &&& self.en_seed == self.peer_key
        &&& self.de_seed@ == x25519_public(self.own_secret@)
    }
}

/// What a datagram turned out to be.
pub enum Received {
    /// A peer offered its key; it is installed and `reply` answers with ours.
    KeyOffered { key: [u8; 32], reply: Vec<u8> },
    /// A peer answered our offer; its key is installed.
    KeyAnswered { key: [u8; 32] },
    /// A message, decrypted.
    Plain { data: Vec<u8> },
    /// Nothing usable.
    Failed { error: Error },
}

/// The keys of `m` after installing each (key, address) of `keys` in turn.
pub open spec fn with_keys(m: Map<PeerAddr, [u8; 32]>, keys: Seq<([u8; 32], PeerAddr)>) -> Map<PeerAddr, [u8; 32]>
    decreases keys.len(),
{
    if keys.len() == 0 {
        m
    } else {
        with_keys(m, keys.drop_last()).insert(keys.last().1, keys.last().0)
    }
}

/// `a` is among the first `n` addresses of `s`.
pub open spec fn among(s: Seq<PeerAddr>, n: int, a: PeerAddr) -> bool {
    exists|j: int| 0 <= j < n && s[j] == a
}

pub open spec fn listed(keys: Seq<([u8; 32], PeerAddr)>, a: PeerAddr) -> bool {
    exists|i: int| 0 <= i < keys.len() && keys[i].1 == a
}

pub struct SecureConnection {
    pub secret_key: [u8; 32],
    pub public_key: [u8; 32],
    pub pub_keys: Table<PeerAddr, [u8; 32]>,
    pub contexts: Table<PeerAddr, PeerContext>,
}

impl SecureConnection {
    /// Every context belongs to a peer whose key is known, and was made from that key.
    pub open spec fn wf(&self) -> bool {
        &&& self.pub_keys.wf()
        &&& self.contexts.wf()
        &&& self.public_key@ == x25519_public(self.secret_key@)
        &&& forall|a: PeerAddr| #[trigger]
            self.contexts@.contains_key(a) ==> {
                &&& self.pub_keys@.contains_key(a)
                &&& self.contexts@[a].peer_key == self.pub_keys@[a]
                &&& self.contexts@[a].wf()
            }
    }

    /// A fresh context for `k` from this channel.
    pub open spec fn fresh(&self, k: [u8; 32]) -> PeerContext {
        fresh_ctx(k, self.secret_key, self.public_key)
    }

    fn fresh_context(&self, key: &[u8; 32]) -> (c: PeerContext)
        requires
            self.wf(),
        ensures
            c == self.fresh(*key),
            c.wf(),
    {
        PeerContext {
            peer_key: *key,
            own_secret: self.secret_key,
            en_seed: *key,
            de_seed: self.public_key,
            sent: 0,
            received: 0,
        }
    }

    /// A channel with a fresh key pair, holding a fresh context for every key of `pub_keys`.
    pub fn new(pub_keys: Table<PeerAddr, [u8; 32]>) -> (r: Self)
        requires
            pub_keys.wf(),
        ensures
            r.wf(),
            r.pub_keys@ == pub_keys@,
            r.contexts@.dom() == pub_keys@.dom(),
            forall|a: PeerAddr| #[trigger]
                r.contexts@.contains_key(a) ==> r.contexts@[a] == r.fresh(pub_keys@[a]),
    {
        let secret_key = generate_secret_key();
        let public_key = public_key_of(&secret_key);
        let mut ch = SecureConnection { secret_key, public_key, pub_keys, contexts: Table::new() };
        ch.sync_all_pub_keys();
        ch
    }

    pub fn get_public_key(&self) -> (r: [u8; 32])
        ensures
            r == self.public_key,
    {
        self.public_key
    }

    pub fn get_secret_key(&self) -> (r: [u8; 32])
        requires
            self.wf(),
        ensures
            r == self.secret_key,
            self.public_key@ == x25519_public(r@),
    {
        self.secret_key
    }

    /// Draws a new key pair; contexts made before keep the old one.
    pub fn refresh_secret_key(&mut self)
        requires
            old(self).wf(),
        ensures
            final(self).wf(),
            final(self).public_key@ == x25519_public(final(self).secret_key@),
            final(self).pub_keys == old(self).pub_keys,
            final(self).contexts == old(self).contexts,
    {
        let sk = generate_secret_key();
        self.public_key = public_key_of(&sk);
        self.secret_key = sk;
    }

    /// Installs `key` for `addr`: it replaces any earlier key, and a fresh
    /// context replaces any earlier one.
    pub fn install_key(&mut self, addr: PeerAddr, key: [u8; 32])
        requires
            old(self).wf(),
        ensures
            final(self).wf(),
            final(self).pub_keys@ == old(self).pub_keys@.insert(addr, key),
            final(self).contexts@ == old(self).contexts@.insert(addr, old(self).fresh(key)),
            final(self).public_key == old(self).public_key,
            final(self).secret_key == old(self).secret_key,
    {
        let c = self.fresh_context(&key);
        self.pub_keys.insert(addr, key);
        self.contexts.insert(addr, c);
    }

    /// Installs each (key, address) pair in turn: the last key given for an
    /// address wins and gets a fresh context; other addresses keep theirs.
    pub fn update_pub_keys(&mut self, keys: &Vec<([u8; 32], PeerAddr)>)
        requires
            old(self).wf(),
        ensures
            final(self).wf(),
            final(self).pub_keys@ == with_keys(old(self).pub_keys@, keys@),
            forall|a: PeerAddr| #[trigger]
                listed(keys@, a) ==> final(self).contexts@.contains_key(a) && final(self).contexts@[a]
                    == old(self).fresh(final(self).pub_keys@[a]),
            forall|a: PeerAddr| #[trigger]
                final(self).contexts@.contains_key(a) && !listed(keys@, a) ==> old(self).contexts@.contains_key(a)
                    && final(self).contexts@[a] == old(self).contexts@[a],
            forall|a: PeerAddr| #[trigger]
                old(self).contexts@.contains_key(a) ==> final(self).contexts@.contains_key(a),
            final(self).public_key == old(self).public_key,
            final(self).secret_key == old(self).secret_key,
    {
        let mut i: usize = 0;
        while i < keys.len()
            invariant
                self.wf(),
                i <= keys@.len(),
                self.public_key == old(self).public_key,
                self.secret_key == old(self).secret_key,
                self.pub_keys@ == with_keys(old(self).pub_keys@, keys@.take(i as int)),
                forall|a: PeerAddr| #[trigger]
                    listed(keys@.take(i as int), a) ==> self.contexts@.contains_key(a) && self.contexts@[a]
                        == old(self).fresh(self.pub_keys@[a]),
                forall|a: PeerAddr| #[trigger]
                    self.contexts@.contains_key(a) && !listed(keys@.take(i as int), a) ==> old(self).contexts@.contains_key(a)
                        && self.contexts@[a] == old(self).contexts@[a],
                forall|a: PeerAddr| #[trigger]
                    old(self).contexts@.contains_key(a) ==> self.contexts@.contains_key(a),
            decreases keys@.len() - i,
        {
            let (key, addr) = keys[i];
            let ghost pre = keys@.take(i as int);
            let ghost prev = *self;
            self.install_key(addr, key);
            proof {
                let post = keys@.take(i + 1);
                assert(post.drop_last() =~= pre);
                assert(post.last() == (key, addr));
                assert forall|a: PeerAddr| #[trigger] listed(post, a) implies self.contexts@.contains_key(a)
                    && self.contexts@[a] == old(self).fresh(self.pub_keys@[a]) by {
                    if a != addr {
                        let j = choose|j: int| 0 <= j < post.len() && post[j].1 == a;
                        assert(pre[j].1 == a);
                        assert(listed(pre, a));
                        assert(prev.contexts@.contains_key(a));
                    }
                }
                assert forall|a: PeerAddr| #[trigger]
                    self.contexts@.contains_key(a) && !listed(post, a) implies old(self).contexts@.contains_key(a)
                        && self.contexts@[a] == old(self).contexts@[a] by {
                    assert(a != addr) by {
                        assert(post[i as int].1 == addr);
                    }
                    if listed(pre, a) {
                        let j = choose|j: int| 0 <= j < pre.len() && pre[j].1 == a;
                        assert(post[j].1 == a);
                    }
                }
            }
            i = i + 1;
        }
        proof {
            assert(keys@.take(keys@.len() as int) =~= keys@);
        }
    }

    /// Rebuilds a fresh context for each listed address whose key is known.
    pub fn sync_pub_keys(&mut self, addrs: &Vec<PeerAddr>)
        requires
            old(self).wf(),
        ensures
            final(self).wf(),
            final(self).pub_keys == old(self).pub_keys,
            forall|a: PeerAddr|
                addrs@.contains(a) && old(self).pub_keys@.contains_key(a) ==> #[trigger] final(self).contexts@.contains_key(a)
                    && final(self).contexts@[a] == old(self).fresh(old(self).pub_keys@[a]),
            forall|a: PeerAddr|
                !(addrs@.contains(a) && old(self).pub_keys@.contains_key(a)) ==> (#[trigger] final(self).contexts@.contains_key(a)
                    == old(self).contexts@.contains_key(a) && (old(self).contexts@.contains_key(a) ==> final(self).contexts@[a]
                    == old(self).contexts@[a])),
    {
        let mut i: usize = 0;
        while i < addrs.len()
            invariant
                self.wf(),
                i <= addrs@.len(),
                self.pub_keys == old(self).pub_keys,
                self.public_key == old(self).public_key,
                self.secret_key == old(self).secret_key,
                forall|a: PeerAddr| #[trigger]
                    self.contexts@.contains_key(a) == (old(self).contexts@.contains_key(a) || (among(addrs@, i as int, a)
                        && old(self).pub_keys@.contains_key(a))),
                forall|a: PeerAddr| #[trigger]
                    self.contexts@.contains_key(a) ==> self.contexts@[a] == if among(addrs@, i as int, a)
                        && old(self).pub_keys@.contains_key(a) {
                        old(self).fresh(old(self).pub_keys@[a])
                    } else {
                        old(self).contexts@[a]
                    },
            decreases addrs@.len() - i,
        {
            let addr = addrs[i];
            let key = match self.pub_keys.get(&addr) {
                Some(k) => Some(*k),
                None => None,
            };
            if let Some(k) = key {
                let c = self.fresh_context(&k);
                self.contexts.insert(addr, c);
            }
            proof {
                assert forall|a: PeerAddr| #[trigger] among(addrs@, i + 1, a) == (among(addrs@, i as int, a) || a == addr) by {
                    if among(addrs@, i + 1, a) && a != addr {
                        let j = choose|j: int| 0 <= j < i + 1 && addrs@[j] == a;
                        assert(j < i);
                    }
                    if a == addr {
                        assert(addrs@[i as int] == a);
                    }
                }
            }
            i = i + 1;
        }
        proof {
            assert forall|a: PeerAddr| #[trigger] addrs@.contains(a) == among(addrs@, addrs@.len() as int, a) by {
            }
        }
    }

    /// Rebuilds a fresh context for every known key.
    pub fn sync_all_pub_keys(&mut self)
        requires
            old(self).pub_keys.wf(),
            old(self).contexts.wf(),
            old(self).public_key@ == x25519_public(old(self).secret_key@),
            forall|a: PeerAddr| #[trigger]
                old(self).contexts@.contains_key(a) ==> {
                    &&& old(self).pub_keys@.contains_key(a)
                    &&& old(self).contexts@[a].peer_key == old(self).pub_keys@[a]
                    &&& old(self).contexts@[a].wf()
                },
        ensures
            final(self).wf(),
            final(self).pub_keys == old(self).pub_keys,
            final(self).public_key == old(self).public_key,
            final(self).secret_key == old(self).secret_key,
            final(self).contexts@.dom() == old(self).pub_keys@.dom().union(old(self).contexts@.dom()),
            forall|a: PeerAddr| #[trigger]
                old(self).pub_keys@.contains_key(a) ==> final(self).contexts@[a] == old(self).fresh(
                    old(self).pub_keys@[a],
                ),
    {
        let mut i: usize = 0;
        let ghost keys = self.pub_keys.entries@;
        while i < self.pub_keys.entries.len()
            invariant
                self.wf(),
                keys == self.pub_keys.entries@,
                self.pub_keys == old(self).pub_keys,
                self.public_key == old(self).public_key,
                self.secret_key == old(self).secret_key,
                i <= keys.len(),
                self.contexts@.dom() == old(self).contexts@.dom().union(
                    Set::new(|a: PeerAddr| exists|j: int| 0 <= j < i && keys[j].0 == a),
                ),
                forall|j: int| #![trigger keys[j]]
                    0 <= j < i ==> self.contexts@[keys[j].0] == old(self).fresh(keys[j].1),
            decreases keys.len() - i,
        {
            let addr = self.pub_keys.entries[i].0;
            let key = self.pub_keys.entries[i].1;
            let c = self.fresh_context(&key);
            proof {
                crate::table::lemma_pair_in_map(keys, i as int);
            }
            self.contexts.insert(addr, c);
            proof {
                assert forall|j: int| #![trigger keys[j]]
                    0 <= j < i + 1 implies self.contexts@[keys[j].0] == old(self).fresh(keys[j].1) by {
                    if j < i {
                        assert(keys[j].0 != keys[i as int].0);
                    }
                }
                assert(self.contexts@.dom() =~= old(self).contexts@.dom().union(
                    Set::new(|a: PeerAddr| exists|j: int| 0 <= j < i + 1 && keys[j].0 == a),
                ));
            }
            i = i + 1;
        }
        proof {
            crate::table::lemma_pairs_dom(keys);
            assert(self.contexts@.dom() =~= old(self).pub_keys@.dom().union(old(self).contexts@.dom()));
            assert forall|a: PeerAddr| #[trigger] old(self).pub_keys@.contains_key(a) implies self.contexts@[a]
                == old(self).fresh(old(self).pub_keys@[a]) by {
                crate::table::lemma_key_has_pair(keys, a);
                let j = choose|j: int| 0 <= j < keys.len() && keys[j].0@ == a;
                crate::table::lemma_pair_in_map(keys, j);
            }
        }
    }

    /// Forgets a peer: its key and its context go together.
    pub fn release(&mut self, addr: PeerAddr)
        requires
            old(self).wf(),
        ensures
            final(self).wf(),
            final(self).pub_keys@ == old(self).pub_keys@.remove(addr),
            final(self).contexts@ == old(self).contexts@.remove(addr),
            final(self).public_key == old(self).public_key,
            final(self).secret_key == old(self).secret_key,
    {
        let _ = self.pub_keys.remove(&addr);
        let _ = self.contexts.remove(&addr);
    }

    /// Whether a key exchange with `addr` has completed: its key is installed.
    pub fn exchange_complete(&self, addr: PeerAddr) -> (r: bool)
        requires
            self.wf(),
        ensures
            r == self.pub_keys@.contains_key(addr),
    {
        self.pub_keys.contains(&addr)
    }

    /// The datagram that offers our public key to a peer.
    pub fn exchange_key_with(&self) -> (r: Vec<u8>)
        ensures
            r@ == enc_secure(SecureMsg::MyKey(self.public_key)),
    {
        let mut r: Vec<u8> = Vec::new();
        encode_secure(&mut r, &SecureMsg::MyKey(self.public_key));
        proof {
            assert(r@ =~= enc_secure(SecureMsg::MyKey(self.public_key)));
        }
        r
    }

    /// Encrypts `plain` for `addr` with the next nonce of its encrypt stream
    /// and wraps the box in a `Msg` datagram.
    pub fn send_to_raw(&mut self, addr: PeerAddr, plain: &[u8]) -> (r: Result<Vec<u8>, Error>)
        requires
            old(self).wf(),
        ensures
            final(self).wf(),
            final(self).pub_keys == old(self).pub_keys,
            final(self).public_key == old(self).public_key,
            final(self).secret_key == old(self).secret_key,
            final(self).contexts@.dom() == old(self).contexts@.dom(),
            !old(self).contexts@.contains_key(addr) ==> r == Err::<Vec<u8>, Error>(Error::NoDestKey)
                && final(self).contexts@ == old(self).contexts@,
            old(self).contexts@.contains_key(addr) ==> sent_outcome(*old(self), *final(self), addr, plain@, r),
    {
        let mut c = match self.contexts.remove(&addr) {
            Some(c) => c,
            None => {
                proof {
                    assert(self.contexts@ =~= old(self).contexts@);
                }
                return Err(Error::NoDestKey);
            },
        };
        let ghost c0 = c;
        let nonce = nonce_at(&c.en_seed, 6 * (c.sent as u128));
        if c.sent < u64::MAX {
            c.sent = c.sent + 1;
        }
        let sealed = seal(&c.peer_key, &c.own_secret, &nonce, plain);
        self.contexts.insert(addr, c);
        proof {
            assert(c == after_seal(c0));
            assert(self.contexts@ =~= old(self).contexts@.insert(addr, after_seal(c0)));
            assert(self.contexts@.dom() =~= old(self).contexts@.dom());
        }
        match sealed {
            None => Err(Error::EncryptionFailed),
            Some(b) => {
                let mut out: Vec<u8> = Vec::new();
                let ghost bv = b@;
                encode_secure(&mut out, &SecureMsg::Msg(b));
                proof {
                    assert(out@ =~= enc_secure_msg_bytes(bv));
                }
                Ok(out)
            },
        }
    }

    /// Handles one datagram from `addr`. A key offer or answer installs the
    /// peer's key with a fresh context; an offer is answered with ours. A
    /// message is opened with the next nonce of the peer's decrypt stream.
    pub fn recv_from_raw(&mut self, addr: PeerAddr, datagram: &[u8]) -> (r: Received)
        requires
            old(self).wf(),
        ensures
            final(self).wf(),
            final(self).public_key == old(self).public_key,
            final(self).secret_key == old(self).secret_key,
            forall|k: [u8; 32]| #[trigger] at(datagram@, 0, enc_secure(SecureMsg::MyKey(k))) ==> {
                &&& r matches Received::KeyOffered { key, reply } && key == k && reply@ == enc_secure(
                    SecureMsg::PeerKey(old(self).public_key),
                )
                &&& final(self).pub_keys@ == old(self).pub_keys@.insert(addr, k)
                &&& final(self).contexts@ == old(self).contexts@.insert(addr, old(self).fresh(k))
            },
            forall|k: [u8; 32]| #[trigger] at(datagram@, 0, enc_secure(SecureMsg::PeerKey(k))) ==> {
                &&& r matches Received::KeyAnswered { key } && key == k
                &&& final(self).pub_keys@ == old(self).pub_keys@.insert(addr, k)
                &&& final(self).contexts@ == old(self).contexts@.insert(addr, old(self).fresh(k))
            },
            forall|b: Seq<u8>| #[trigger] at(datagram@, 0, enc_secure_msg_bytes(b)) ==> {
                &&& final(self).pub_keys == old(self).pub_keys
                &&& !old(self).contexts@.contains_key(addr) ==> r == (Received::Failed { error: Error::NoSrcKey })
                    && final(self).contexts@ == old(self).contexts@
                &&& old(self).contexts@.contains_key(addr) ==> opened_outcome(*old(self), *final(self), addr, b, r)
            },
            r matches Received::KeyOffered { key, .. } ==> at(datagram@, 0, enc_secure(SecureMsg::MyKey(key))),
            r matches Received::KeyAnswered { key } ==> at(datagram@, 0, enc_secure(SecureMsg::PeerKey(key))),
            r matches Received::Plain { .. } ==> old(self).contexts@.contains_key(addr) && exists|b: Seq<u8>|
                #[trigger] at(datagram@, 0, enc_secure_msg_bytes(b)) && opened_outcome(*old(self), *final(self), addr, b, r),
            r matches Received::Failed { error } ==> final(self).pub_keys == old(self).pub_keys && (error == Error::CorruptedData
                || error == Error::NoSrcKey || error == Error::DecryptionFailed),
            !is_envelope(datagram@) ==> r == (Received::Failed { error: Error::CorruptedData }) && final(self).pub_keys
                == old(self).pub_keys && final(self).contexts == old(self).contexts,
    {
        let parsed = parse_secure(datagram, 0);
        let msg = match parsed {
            Some((m, _)) => m,
            None => {
                proof {
                    assert forall|b: Seq<u8>| !#[trigger] at(datagram@, 0, enc_secure_msg_bytes(b)) by {
                    }
                }
                return Received::Failed { error: Error::CorruptedData };
            },
        };
        proof {
            assert(is_envelope(datagram@));
            assert forall|k: [u8; 32]| #[trigger] at(datagram@, 0, enc_secure(SecureMsg::MyKey(k))) implies msg == SecureMsg::MyKey(k) by {
                crate::messages::lemma_key_envelope(msg, k, false);
            }
            assert forall|k: [u8; 32]| #[trigger] at(datagram@, 0, enc_secure(SecureMsg::PeerKey(k))) implies msg == SecureMsg::PeerKey(k) by {
                crate::messages::lemma_key_envelope(msg, k, true);
            }
        }
        match msg {
            SecureMsg::MyKey(key) => {
                self.install_key(addr, key);
                let mut reply: Vec<u8> = Vec::new();
                encode_secure(&mut reply, &SecureMsg::PeerKey(self.public_key));
                proof {
                    assert(reply@ =~= enc_secure(SecureMsg::PeerKey(old(self).public_key)));
                }
                Received::KeyOffered { key, reply }
            },
            SecureMsg::PeerKey(key) => {
                self.install_key(addr, key);
                Received::KeyAnswered { key }
            },
            SecureMsg::Msg(sealed) => {
                let mut c = match self.contexts.remove(&addr) {
                    Some(c) => c,
                    None => {
                        proof {
                            assert(self.contexts@ =~= old(self).contexts@);
                        }
                        return Received::Failed { error: Error::NoSrcKey };
                    },
                };
                let ghost c0 = c;
                let nonce = nonce_at(&c.de_seed, 6 * (c.received as u128));
                if c.received < u64::MAX {
                    c.received = c.received + 1;
                }
                let opened = open(&c.peer_key, &c.own_secret, &nonce, sealed.as_slice());
                self.contexts.insert(addr, c);
                proof {
                    assert(c == after_open(c0));
                    assert(self.contexts@ =~= old(self).contexts@.insert(addr, after_open(c0)));
                    assert forall|b: Seq<u8>| #[trigger] at(datagram@, 0, enc_secure_msg_bytes(b)) implies sealed@ == b by {
                    }
                    assert(at(datagram@, 0, enc_secure_msg_bytes(sealed@)));
                }
                match opened {
                    None => Received::Failed { error: Error::DecryptionFailed },
                    Some(data) => Received::Plain { data },
                }
            },
        }
    }
    /// Seals `id || data` for `addr`.
    pub fn send_to_with_meta(&mut self, data: &Body, addr: PeerAddr, id: u16) -> (r: Result<Vec<u8>, Error>)
        requires
            old(self).wf(),
        ensures
            final(self).wf(),
            final(self).contexts@.dom() == old(self).contexts@.dom(),
            final(self).pub_keys == old(self).pub_keys,
            !old(self).contexts@.contains_key(addr) ==> r == Err::<Vec<u8>, Error>(Error::NoDestKey)
                && final(self).contexts@ == old(self).contexts@,
            old(self).contexts@.contains_key(addr) ==> sent_outcome(*old(self), *final(self), addr, enc_u16(id) + enc_body(*data), r),
    {
        let payload = serialize_with_meta(data, id);
        self.send_to_raw(addr, payload.as_slice())
    }

    /// Seals `0 || data` for `addr`: a payload that answers nothing.
    pub fn send_to_with_empty_meta(&mut self, data: &Body, addr: PeerAddr) -> (r: Result<Vec<u8>, Error>)
        requires
            old(self).wf(),
        ensures
            final(self).wf(),
            final(self).contexts@.dom() == old(self).contexts@.dom(),
            final(self).pub_keys == old(self).pub_keys,
            !old(self).contexts@.contains_key(addr) ==> r == Err::<Vec<u8>, Error>(Error::NoDestKey)
                && final(self).contexts@ == old(self).contexts@,
            old(self).contexts@.contains_key(addr) ==> sent_outcome(*old(self), *final(self), addr, enc_u16(0) + enc_body(*data), r),
    {
        self.send_to_with_meta(data, addr, 0)
    }

    /// Seals `data`, with no id, for `addr`.
    pub fn send_to(&mut self, data: &Body, addr: PeerAddr) -> (r: Result<Vec<u8>, Error>)
        requires
            old(self).wf(),
        ensures
            final(self).wf(),
            final(self).contexts@.dom() == old(self).contexts@.dom(),
            final(self).pub_keys == old(self).pub_keys,
            !old(self).contexts@.contains_key(addr) ==> r == Err::<Vec<u8>, Error>(Error::NoDestKey)
                && final(self).contexts@ == old(self).contexts@,
            old(self).contexts@.contains_key(addr) ==> sent_outcome(*old(self), *final(self), addr, enc_body(*data), r),
    {
        let payload = serialize_with_meta(data, 0);
        let body = crate::codec::copy_range(payload.as_slice(), 2, payload.len());
        proof {
            assert(body@ =~= enc_body(*data));
        }
        self.send_to_raw(addr, body.as_slice())
    }

    /// Seals `id || data` for each address in turn; the first failure ends it.
    pub fn send_to_multiple_with_meta(&mut self, data: &Body, addrs: &Vec<PeerAddr>, id: u16) -> (r: Result<Vec<Vec<u8>>, Error>)
        requires
            old(self).wf(),
        ensures
            final(self).wf(),
            final(self).pub_keys == old(self).pub_keys,
            r matches Ok(ds) ==> ds@.len() == addrs@.len(),
            (forall|i: int| 0 <= i < addrs@.len() ==> !#[trigger] old(self).contexts@.contains_key(addrs@[i]))
                && addrs@.len() > 0 ==> r == Err::<Vec<Vec<u8>>, Error>(Error::NoDestKey),
            r matches Ok(_) ==> forall|i: int| 0 <= i < addrs@.len() ==> #[trigger] old(self).contexts@.contains_key(addrs@[i]),
            addrs@.no_duplicates() ==> (r matches Ok(ds) ==> forall|i: int|
                0 <= i < addrs@.len() ==> sealed_for(*old(self), addrs@[i], enc_u16(id) + enc_body(*data), #[trigger] ds@[i]@)),
            addrs@.no_duplicates() && (r matches Err(e)) ==> exists|i: int|
                0 <= i < addrs@.len() && !(old(self).contexts@.contains_key(addrs@[i]) && next_box(
                    old(self).contexts@[addrs@[i]],
                    enc_u16(id) + enc_body(*data),
                ) is Some),
    {
        let ghost c0 = *self;
        let ghost plain = enc_u16(id) + enc_body(*data);
        let mut out: Vec<Vec<u8>> = Vec::new();
        let mut i: usize = 0;
        while i < addrs.len()
            invariant
                self.wf(),
                self.pub_keys == old(self).pub_keys,
                self.contexts@.dom() == old(self).contexts@.dom(),
                i <= addrs@.len(),
                out@.len() == i,
                forall|j: int| 0 <= j < i ==> #[trigger] old(self).contexts@.contains_key(addrs@[j]),
                c0 == *old(self),
                plain == enc_u16(id) + enc_body(*data),
                addrs@.no_duplicates() ==> forall|j: int|
                    0 <= j < i ==> sealed_for(c0, addrs@[j], plain, #[trigger] out@[j]@),
                addrs@.no_duplicates() ==> forall|j: int|
                    i <= j < addrs@.len() && c0.contexts@.contains_key(addrs@[j]) ==> self.contexts@[addrs@[j]]
                        == c0.contexts@[addrs@[j]],
            decreases addrs@.len() - i,
        {
            let ghost before = *self;
            let ghost out0 = out@;
            match self.send_to_with_meta(data, addrs[i], id) {
                Ok(d) => out.push(d),
                Err(e) => {
                    proof {
                        if addrs@.no_duplicates() {
                            assert(!(c0.contexts@.contains_key(addrs@[i as int]) && next_box(c0.contexts@[addrs@[i as int]], plain) is Some));
                        }
                    }
                    return Err(e);
                },
            }
            proof {
                if addrs@.no_duplicates() {
                    assert(out@[i as int]@ == out@.last()@);
                    assert forall|j: int| 0 <= j < i + 1 implies sealed_for(c0, addrs@[j], plain, #[trigger] out@[j]@) by {
                        if j < i {
                            assert(out@[j] == out0[j]);
                        } else {
                            assert(before.contexts@[addrs@[i as int]] == c0.contexts@[addrs@[i as int]]);
                        }
                    }
                    assert forall|j: int|
                        i + 1 <= j < addrs@.len() && c0.contexts@.contains_key(addrs@[j]) implies self.contexts@[addrs@[j]]
                            == c0.contexts@[addrs@[j]] by {
                        assert(addrs@[j] != addrs@[i as int]);
                    }
                }
            }
            i = i + 1;
        }
        proof {
            if addrs@.len() > 0 {
                assert(old(self).contexts@.contains_key(addrs@[0]));
            }
        }
        Ok(out)
    }

    /// Seals `0 || data` for each address in turn; the first failure ends it.
    pub fn send_to_multiple_with_empty_meta(&mut self, data: &Body, addrs: &Vec<PeerAddr>) -> (r: Result<Vec<Vec<u8>>, Error>)
        requires
            old(self).wf(),
        ensures
            final(self).wf(),
            final(self).pub_keys == old(self).pub_keys,
            r matches Ok(ds) ==> ds@.len() == addrs@.len(),
            (forall|i: int| 0 <= i < addrs@.len() ==> !#[trigger] old(self).contexts@.contains_key(addrs@[i]))
                && addrs@.len() > 0 ==> r == Err::<Vec<Vec<u8>>, Error>(Error::NoDestKey),
            r matches Ok(_) ==> forall|i: int| 0 <= i < addrs@.len() ==> #[trigger] old(self).contexts@.contains_key(addrs@[i]),
            addrs@.no_duplicates() ==> (r matches Ok(ds) ==> forall|i: int|
                0 <= i < addrs@.len() ==> sealed_for(*old(self), addrs@[i], enc_u16(0) + enc_body(*data), #[trigger] ds@[i]@)),
            addrs@.no_duplicates() && (r matches Err(e)) ==> exists|i: int|
                0 <= i < addrs@.len() && !(old(self).contexts@.contains_key(addrs@[i]) && next_box(
                    old(self).contexts@[addrs@[i]],
                    enc_u16(0) + enc_body(*data),
                ) is Some),
    {
        self.send_to_multiple_with_meta(data, addrs, 0)
    }
}

/// The datagram decodes as an envelope.
pub open spec fn is_envelope(d: Seq<u8>) -> bool {
    exists|v: SecureMsg| #[trigger] at(d, 0, enc_secure(v))
}

/// The effect of sealing `plain` for `addr`, which has a context: its
/// encrypt stream advances by one, and the result is the `Msg` datagram of
/// the box made with the nonce it was at, or `EncryptionFailed` where no box comes.
pub open spec fn sent_outcome(s0: SecureConnection, s1: SecureConnection, addr: PeerAddr, plain: Seq<u8>, r: Result<Vec<u8>, Error>) -> bool {
    let c0 = s0.contexts@[addr];
    &&& s1.contexts@ == s0.contexts@.insert(addr, after_seal(c0))
    &&& match r {
        Ok(d) => sealed_for(s0, addr, plain, d@),
        Err(e) => e == Error::EncryptionFailed && next_box(c0, plain) is None,
    }
}

/// The effect of opening box `b` from `addr`, which has a context: its
/// decrypt stream advances by one, and the result is the opened message, or
/// `DecryptionFailed` where the box does not open with that nonce. A box that
/// the peer sealed for us with that nonce opens to its message.
pub open spec fn opened_outcome(s0: SecureConnection, s1: SecureConnection, addr: PeerAddr, b: Seq<u8>, r: Received) -> bool {
    let c0 = s0.contexts@[addr];
    &&& s1.contexts@ == s0.contexts@.insert(addr, after_open(c0))
    &&& match next_open(c0, b) {
        Some(p) => r matches Received::Plain { data } && data@ == p,
        None => r == Received::Failed { error: Error::DecryptionFailed },
    }
    &&& forall|their_sk: Seq<u8>, msg: Seq<u8>|
        c0.peer_key@ == x25519_public(their_sk) && #[trigger] box_sealed(
            x25519_public(c0.own_secret@),
            their_sk,
            nth_nonce(c0.de_seed@, c0.received as nat),
            msg,
        ) == Some(b) ==> (r matches Received::Plain { data } && data@ == msg)
}

/// However many times a peer's key is installed, and in whatever order two
/// exchanges with it complete, the key table and the context table each end
/// with exactly one entry for the peer: the key installed last, and a fresh
/// context for it.
pub proof fn lemma_key_exchange_idempotent(
    c0: SecureConnection,
    c1: SecureConnection,
    c2: SecureConnection,
    p: PeerAddr,
    k1: [u8; 32],
    k2: [u8; 32],
)
    requires
        c0.wf(),
        c1.wf(),
        c2.wf(),
        c1.pub_keys@ == c0.pub_keys@.insert(p, k1),
        c2.pub_keys@ == c1.pub_keys@.insert(p, k2),
        c1.contexts@ == c0.contexts@.insert(p, c0.fresh(k1)),
        c2.contexts@ == c1.contexts@.insert(p, c1.fresh(k2)),
    ensures
        c2.pub_keys@.contains_key(p),
        c2.pub_keys@[p] == k2,
        c2.contexts@.contains_key(p),
        c2.contexts@[p] == c1.fresh(k2),
        exists|i: int|
            0 <= i < c2.contexts.entries@.len() && c2.contexts.entries@[i].0 == p && forall|j: int|
                0 <= j < c2.contexts.entries@.len() && #[trigger] c2.contexts.entries@[j].0 == p ==> j == i,
        exists|i: int|
            0 <= i < c2.pub_keys.entries@.len() && c2.pub_keys.entries@[i].0 == p && forall|j: int|
                0 <= j < c2.pub_keys.entries@.len() && #[trigger] c2.pub_keys.entries@[j].0 == p ==> j == i,
{
    let s = c2.pub_keys.entries@;
    crate::table::lemma_key_has_pair(s, p);
    let i = choose|i: int| 0 <= i < s.len() && s[i].0@ == p;
    assert forall|j: int| 0 <= j < s.len() && #[trigger] s[j].0 == p implies j == i by {
    }
    let t = c2.contexts.entries@;
    crate::table::lemma_key_has_pair(t, p);
    let i2 = choose|i2: int| 0 <= i2 < t.len() && t[i2].0@ == p;
    assert forall|j: int| 0 <= j < t.len() && #[trigger] t[j].0 == p implies j == i2 by {
    }
}

/// After a mutual key exchange, when A has sealed for B as many boxes as B
/// has opened from A: the next nonce of A's encrypt stream toward B is the
/// next nonce of B's decrypt stream from A, B's context holds the public key
/// of A's secret, so the next box that A seals for B opens, under B's
/// `recv_from_raw` contract, to its message; and one more seal and one more
/// open leave the two counts equal again.
pub proof fn lemma_nonce_symmetry(a: SecureConnection, b: SecureConnection, addr_a: PeerAddr, addr_b: PeerAddr)
    requires
        a.wf(),
        b.wf(),
        a.contexts@.contains_key(addr_b),
        b.contexts@.contains_key(addr_a),
        a.pub_keys@[addr_b] == b.public_key,
        b.pub_keys@[addr_a] == a.public_key,
        a.contexts@[addr_b].own_secret == a.secret_key,
        b.contexts@[addr_a].own_secret == b.secret_key,
        a.contexts@[addr_b].sent == b.contexts@[addr_a].received,
    ensures
        ({
            let ca = a.contexts@[addr_b];
            let cb = b.contexts@[addr_a];
            &&& nth_nonce(ca.en_seed@, ca.sent as nat) == nth_nonce(cb.de_seed@, cb.received as nat)
            &&& after_seal(ca).sent == after_open(cb).received
            &&& forall|msg: Seq<u8>, x: Seq<u8>, b1: SecureConnection, r: Received|
                #[trigger] next_box(ca, msg) == Some(x) && #[trigger] opened_outcome(b, b1, addr_a, x, r) ==> (r matches Received::Plain { data }
                    && data@ == msg)
        }),
{
    let ca = a.contexts@[addr_b];
    let cb = b.contexts@[addr_a];
    assert(ca.en_seed@ == cb.de_seed@);
    assert forall|msg: Seq<u8>, x: Seq<u8>, b1: SecureConnection, r: Received|
        #[trigger] next_box(ca, msg) == Some(x) && #[trigger] opened_outcome(b, b1, addr_a, x, r) implies (r matches Received::Plain { data }
            && data@ == msg) by {
        assert(cb.peer_key@ == x25519_public(ca.own_secret@));
        assert(box_sealed(x25519_public(cb.own_secret@), ca.own_secret@, nth_nonce(cb.de_seed@, cb.received as nat), msg)
            == Some(x));
    }
}

} // verus!
