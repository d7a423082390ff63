//! The request/response transport: a secure channel and a request
//! multiplexer over it.

use crate::channel::{after_open, after_seal, next_box, next_open, opened_outcome, sealed_for, Error, Received, SecureConnection};
use crate::codec::{at, enc_u16};
use crate::data::PeerAddr;
use crate::data::SecureMsg;
use crate::messages::{enc_body, enc_secure, enc_secure_msg_bytes, Body};
use crate::mux::{counter_after, frame_bytes, frame_id, id_from, RequestMux, Retry, Route};
use crate::table::Table;
use vstd::prelude::*;

verus! {

/// What a datagram delivered.
pub enum Delivery {
    /// Send `datagram` back to the source: our answer to its key offer.
    SendBack { key: [u8; 32], datagram: Vec<u8> },
    /// The source answered our key offer.
    KeyInstalled { key: [u8; 32] },
    /// The reply to our pending request `id` to the source.
    Reply { id: u16, body: Vec<u8> },
    /// A payload that answers nothing pending.
    Unsolicited { body: Vec<u8> },
    /// Nothing usable.
    Dropped { error: Option<Error> },
}

pub struct Connection {
    pub inner: SecureConnection,
    pub mux: RequestMux,
    pub timeout_ms: u64,
    pub retry_limits: u32,
}

/// The channel `c0` opened `datagram` from `source` to plaintext `p` with the
/// next nonce of that peer's decrypt stream, becoming `c1`.
pub open spec fn opened_to(c0: SecureConnection, c1: SecureConnection, source: PeerAddr, datagram: Seq<u8>, p: Seq<u8>) -> bool {
    &&& c0.contexts@.contains_key(source)
    &&& c1.contexts@ == c0.contexts@.insert(source, after_open(c0.contexts@[source]))
    &&& c1.pub_keys == c0.pub_keys
    &&& exists|b: Seq<u8>| #[trigger] at(datagram, 0, enc_secure_msg_bytes(b)) && next_open(c0.contexts@[source], b) == Some(p)
}

/// The context that `c` holds for `source` opens `datagram` to payload `p`
/// with the next nonce of its decrypt stream.
pub open spec fn opens_to(c: SecureConnection, source: PeerAddr, datagram: Seq<u8>, p: Seq<u8>) -> bool {
    &&& c.contexts@.contains_key(source)
    &&& exists|b: Seq<u8>| #[trigger] at(datagram, 0, enc_secure_msg_bytes(b)) && next_open(c.contexts@[source], b) == Some(p)
}

/// `c0` opened `datagram` from `source` to a payload with body `body` and an
/// id that answers no pending request of `source`, becoming `c1`.
pub open spec fn unsolicited_from(c0: Connection, c1: Connection, source: PeerAddr, datagram: Seq<u8>, body: Seq<u8>) -> bool {
    exists|id: u16|
        !(id != 0 && c0.mux.pending_set().contains((source, id))) && opened_to(
            c0.inner,
            c1.inner,
            source,
            datagram,
            #[trigger] frame_bytes(id, body),
        )
}

/// The effect of preparing a request with body encoding `body` to `addr`.
pub open spec fn request_outcome(
    s0: Connection,
    s1: Connection,
    addr: PeerAddr,
    body: Seq<u8>,
    r: Result<(u16, Vec<u8>), crate::client::Error>,
) -> bool {
    let id = id_from(s0.mux.counter_of(addr));
    &&& s1.mux.counters@ == s0.mux.counters@.insert(addr, counter_after(s0.mux.counter_of(addr)))
    &&& s0.mux.pending_set().contains((addr, id)) ==> r == Err::<(u16, Vec<u8>), crate::client::Error>(
        crate::client::Error::RequestIdInUse,
    ) && s1.mux.pending_set() == s0.mux.pending_set() && s1.inner == s0.inner
    &&& !s0.mux.pending_set().contains((addr, id)) && !s0.inner.contexts@.contains_key(addr) ==> r == Err::<
        (u16, Vec<u8>),
        crate::client::Error,
    >(crate::client::Error::Connection(Error::NoDestKey)) && s1.mux.pending_set() == s0.mux.pending_set()
        && s1.inner.contexts@ == s0.inner.contexts@
    &&& !s0.mux.pending_set().contains((addr, id)) && s0.inner.contexts@.contains_key(addr) ==> {
        let plain = enc_u16(id) + body;
        &&& s1.inner.contexts@ == s0.inner.contexts@.insert(addr, after_seal(s0.inner.contexts@[addr]))
        &&& match r {
            Ok((i, d)) => i == id && id != 0 && sealed_for(s0.inner, addr, plain, d@) && s1.mux.pending_set()
                == s0.mux.pending_set().insert((addr, id)),
            Err(e) => e == crate::client::Error::Connection(Error::EncryptionFailed) && next_box(
                s0.inner.contexts@[addr],
                plain,
            ) is None && s1.mux.pending_set() == s0.mux.pending_set(),
        }
    }
    &&& s1.inner.pub_keys == s0.inner.pub_keys
}

impl Connection {
    pub open spec fn wf(&self) -> bool {
        self.inner.wf() && self.mux.wf()
    }

    pub fn as_inner(&self) -> (r: &SecureConnection)
        ensures
            r == &self.inner,
    {
        &self.inner
    }

    pub fn new(pub_keys: Table<PeerAddr, [u8; 32]>, timeout_ms: u64, retry_limits: u32) -> (r: Self)
        requires
            pub_keys.wf(),
        ensures
            r.wf(),
            r.inner.pub_keys@ == pub_keys@,
            r.mux.pending_set() == Set::<(PeerAddr, u16)>::empty(),
            r.timeout_ms == timeout_ms,
            r.retry_limits == retry_limits,
    {
        Connection { inner: SecureConnection::new(pub_keys), mux: RequestMux::new(), timeout_ms, retry_limits }
    }

    /// The id of a new request to `addr`, with its slot open; `None` when the
    /// id that the counter gives is still pending, whose slot stays as it was.
    pub fn get_unique_id(&mut self, addr: PeerAddr) -> (r: Option<u16>)
        requires
            old(self).wf(),
        ensures
            final(self).wf(),
            final(self).inner == old(self).inner,
            final(self).mux.counters@ == old(self).mux.counters@.insert(addr, counter_after(old(self).mux.counter_of(addr))),
            old(self).mux.pending_set().contains((addr, id_from(old(self).mux.counter_of(addr)))) ==> r is None
                && final(self).mux.pending_set() == old(self).mux.pending_set(),
            !old(self).mux.pending_set().contains((addr, id_from(old(self).mux.counter_of(addr)))) ==> r == Some(
                id_from(old(self).mux.counter_of(addr)),
            ) && final(self).mux.pending_set() == old(self).mux.pending_set().insert(
                (addr, id_from(old(self).mux.counter_of(addr))),
            ),
    {
        self.mux.begin_request(addr)
    }

    /// Prepares a request to `addr`: a fresh id, its open slot, and the sealed
    /// datagram `id || req`, which the host sends and, on each timeout that
    /// `attempt_timed_out` allows, sends again. On an error no slot is left open.
    pub fn request(&mut self, req: &Body, addr: PeerAddr) -> (r: Result<(u16, Vec<u8>), crate::client::Error>)
        requires
            old(self).wf(),
        ensures
            final(self).wf(),
            request_outcome(*old(self), *final(self), addr, enc_body(*req), r),
    {
        let id = match self.get_unique_id(addr) {
            Some(id) => id,
            None => return Err(crate::client::Error::RequestIdInUse),
        };
        match self.inner.send_to_with_meta(req, addr, id) {
            Ok(d) => Ok((id, d)),
            Err(e) => {
                self.mux.abandon(addr, id);
                proof {
                    assert(self.mux.pending_set() =~= old(self).mux.pending_set());
                }
                Err(crate::client::Error::Connection(e))
            },
        }
    }

    /// The host gave up on request `id` to `addr`: its slot closes.
    pub fn abandon(&mut self, addr: PeerAddr, id: u16)
        requires
            old(self).wf(),
        ensures
            final(self).wf(),
            final(self).inner == old(self).inner,
            final(self).mux.counters == old(self).mux.counters,
            final(self).mux.pending_set() == old(self).mux.pending_set().remove((addr, id)),
    {
        self.mux.abandon(addr, id);
    }

    /// An attempt of request `id` to `addr` timed out: every slot of `addr`
    /// closes, and with budget left the slot of `id` opens again.
    pub fn attempt_timed_out(&mut self, addr: PeerAddr, id: u16, retry: &mut Retry) -> (again: bool)
        requires
            old(self).wf(),
            id != 0,
        ensures
            final(self).wf(),
            final(self).inner == old(self).inner,
            final(self).mux.counters == old(self).mux.counters,
            final(retry).remaining == crate::mux::next_remaining(old(retry).remaining),
            again == (final(retry).remaining > 0),
            again ==> final(self).mux.pending_set() == old(self).mux.pending_set().filter(
                |s: (PeerAddr, u16)| s.0 != addr,
            ).insert((addr, id)),
            !again ==> final(self).mux.pending_set() == old(self).mux.pending_set().filter(
                |s: (PeerAddr, u16)| s.0 != addr,
            ),
    {
        self.mux.attempt_timed_out(addr, id, retry)
    }

    /// Handles one datagram from `source`: key exchange, reply, or unsolicited payload.
    pub fn receive(&mut self, source: PeerAddr, datagram: &[u8]) -> (r: Delivery)
        requires
            old(self).wf(),
        ensures
            final(self).wf(),
            final(self).mux.counters == old(self).mux.counters,
            forall|k: [u8; 32]| #[trigger] at(datagram@, 0, enc_secure(SecureMsg::MyKey(k))) ==> {
                &&& r matches Delivery::SendBack { key, datagram: d } && key == k && d@ == enc_secure(
                    SecureMsg::PeerKey(old(self).inner.public_key),
                )
                &&& final(self).inner.pub_keys@ == old(self).inner.pub_keys@.insert(source, k)
                &&& final(self).inner.contexts@ == old(self).inner.contexts@.insert(source, old(self).inner.fresh(k))
            },
            forall|k: [u8; 32]| #[trigger] at(datagram@, 0, enc_secure(SecureMsg::PeerKey(k))) ==> {
                &&& r matches Delivery::KeyInstalled { key } && key == k
                &&& final(self).inner.pub_keys@ == old(self).inner.pub_keys@.insert(source, k)
                &&& final(self).inner.contexts@ == old(self).inner.contexts@.insert(source, old(self).inner.fresh(k))
            },
            r matches Delivery::KeyInstalled { key } ==> final(self).inner.pub_keys@ == old(self).inner.pub_keys@.insert(source, key),
            r matches Delivery::SendBack { key, .. } ==> final(self).inner.pub_keys@ == old(self).inner.pub_keys@.insert(source, key),
            r is SendBack || r is KeyInstalled || r is Dropped ==> final(self).mux.pending_set() == old(self).mux.pending_set(),
            r matches Delivery::Reply { id, body } ==> (id != 0 && old(self).mux.pending_set().contains((source, id))
                && final(self).mux.pending_set() == old(self).mux.pending_set().remove((source, id))
                && exists|p: Seq<u8>| p == frame_bytes(id, body@) && opened_to(old(self).inner, final(self).inner, source, datagram@, p)),
            r matches Delivery::Unsolicited { body } ==> (final(self).mux.pending_set() == old(self).mux.pending_set()
                && unsolicited_from(*old(self), *final(self), source, datagram@, body@)),
            forall|p: Seq<u8>| #[trigger] opens_to(old(self).inner, source, datagram@, p) ==> {
                let id = frame_id(p);
                &&& p.len() >= 2 && id != 0 && old(self).mux.pending_set().contains((source, id)) ==> (r matches Delivery::Reply {
                    id: i,
                    body,
                } && i == id && body@ == p.skip(2)) && final(self).mux.pending_set() == old(self).mux.pending_set().remove(
                    (source, id),
                )
                &&& p.len() >= 2 && !(id != 0 && old(self).mux.pending_set().contains((source, id))) ==> (r matches Delivery::Unsolicited {
                    body,
                } && body@ == p.skip(2)) && final(self).mux.pending_set() == old(self).mux.pending_set()
                &&& p.len() < 2 ==> r is Dropped
            },
            r is SendBack ==> exists|k: [u8; 32]| #[trigger] at(datagram@, 0, enc_secure(SecureMsg::MyKey(k))),
            r is KeyInstalled ==> exists|k: [u8; 32]| #[trigger] at(datagram@, 0, enc_secure(SecureMsg::PeerKey(k))),
            r is Reply || r is Unsolicited ==> exists|p: Seq<u8>| #[trigger] opens_to(old(self).inner, source, datagram@, p),
    {
        match self.inner.recv_from_raw(source, datagram) {
            Received::KeyOffered { key, reply } => Delivery::SendBack { key, datagram: reply },
            Received::KeyAnswered { key } => Delivery::KeyInstalled { key },
            Received::Failed { error } => {
                proof {
                    assert forall|p: Seq<u8>| !#[trigger] opens_to(old(self).inner, source, datagram@, p) by {
                        if opens_to(old(self).inner, source, datagram@, p) {
                            let b = choose|b: Seq<u8>| #[trigger] at(datagram@, 0, enc_secure_msg_bytes(b)) && next_open(
                                old(self).inner.contexts@[source], b) == Some(p);
                            assert(opened_outcome(old(self).inner, self.inner, source, b, Received::Failed { error }));
                        }
                    }
                }
                Delivery::Dropped { error: Some(error) }
            },
            Received::Plain { data } => {
                proof {
                    let b = choose|b: Seq<u8>| #[trigger] at(datagram@, 0, enc_secure_msg_bytes(b)) && opened_outcome(
                        old(self).inner, self.inner, source, b, Received::Plain { data });
                    assert(next_open(old(self).inner.contexts@[source], b) == Some(data@));
                    assert(opens_to(old(self).inner, source, datagram@, data@));
                    assert forall|p: Seq<u8>| #[trigger] opens_to(old(self).inner, source, datagram@, p) implies p == data@ by {
                        let b2 = choose|b2: Seq<u8>| #[trigger] at(datagram@, 0, enc_secure_msg_bytes(b2)) && next_open(
                            old(self).inner.contexts@[source], b2) == Some(p);
                        assert(opened_outcome(old(self).inner, self.inner, source, b2, Received::Plain { data }));
                    }
                }
                match self.mux.route(source, data.as_slice()) {
                Route::Reply { id, body } => {
                    proof {
                        let b = choose|b: Seq<u8>| #[trigger] at(datagram@, 0, enc_secure_msg_bytes(b)) && opened_outcome(
                            old(self).inner, self.inner, source, b, Received::Plain { data });
                        assert(next_open(old(self).inner.contexts@[source], b) == Some(data@));
                        assert(opened_to(old(self).inner, self.inner, source, datagram@, frame_bytes(id, body@)));
                    }
                    Delivery::Reply { id, body }
                },
                Route::Unsolicited { body } => {
                    proof {
                        let b = choose|b: Seq<u8>| #[trigger] at(datagram@, 0, enc_secure_msg_bytes(b)) && opened_outcome(
                            old(self).inner, self.inner, source, b, Received::Plain { data });
                        assert(next_open(old(self).inner.contexts@[source], b) == Some(data@));
                        let id = frame_id(data@);
                        assert(data@.len() >= 2);
                        assert(!(id != 0 && old(self).mux.pending_set().contains((source, id))));
                        assert(opened_to(old(self).inner, self.inner, source, datagram@, frame_bytes(id, body@)));
                        assert(unsolicited_from(*old(self), *self, source, datagram@, body@));
                    }
                    Delivery::Unsolicited { body }
                },
                Route::Malformed => Delivery::Dropped { error: Some(Error::CorruptedData) },
                }
            },
        }
    }

    /// Forgets a peer: its key, its context, its counter and its slots.
    pub fn release(&mut self, addr: PeerAddr)
        requires
            old(self).wf(),
        ensures
            final(self).wf(),
            final(self).inner.pub_keys@ == old(self).inner.pub_keys@.remove(addr),
            final(self).inner.contexts@ == old(self).inner.contexts@.remove(addr),
            final(self).mux.counters@ == old(self).mux.counters@.remove(addr),
            final(self).mux.pending_set() == old(self).mux.pending_set().filter(|s: (PeerAddr, u16)| s.0 != addr),
    {
        self.inner.release(addr);
        self.mux.release(addr);
    }
}

} // verus!
