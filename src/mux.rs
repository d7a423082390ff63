//! The request multiplexer: per-peer request ids, the table of requests that
//! await a reply, the routing of incoming payloads, and the retry budget.
//!
//! Every payload is `id || body` with `id` a big-endian `u16`. Id 0 marks a
//! payload that answers nothing; a request never uses it.

use crate::codec::{append_bytes, copy_range, enc_u16, encode_u16, parse_u16};
use crate::data::PeerAddr;
use crate::table::Table;
use vstd::prelude::*;

verus! {

broadcast use crate::codec::lemma_be_len;

/// Where an incoming payload goes.
pub enum Route {
    /// It answers the pending request `id`, whose slot is now gone.
    Reply { id: u16, body: Vec<u8> },
    /// It answers nothing that is pending: it joins the unsolicited queue.
    Unsolicited { body: Vec<u8> },
    /// It is too short to hold an id.
    Malformed,
}

pub struct RequestMux {
    /// The next id to hand out for each peer that was ever asked.
    pub counters: Table<PeerAddr, u16>,
    /// The (peer, id) slots of requests that await a reply.
    pub pending: Vec<(PeerAddr, u16)>,
}

/// The id that follows `c`, wrapping.
pub open spec fn next_counter(c: u16) -> u16 {
    if c == u16::MAX {
        0
    } else {
        (c + 1) as u16
    }
}

/// The id that a request takes from counter `c`, skipping the reserved 0.
pub open spec fn id_from(c: u16) -> u16 {
    if c == 0 {
        1
    } else {
        c
    }
}

/// The counter after a request took its id from counter `c`.
pub open spec fn counter_after(c: u16) -> u16 {
    next_counter(id_from(c))
}

/// The id at the head of a payload of two bytes or more.
pub open spec fn frame_id(p: Seq<u8>) -> u16 {
    crate::codec::be_val(p.subrange(0, 2)) as u16
}

/// The payload of request or reply `id` carrying `body`.
pub open spec fn frame_bytes(id: u16, body: Seq<u8>) -> Seq<u8> {
    enc_u16(id) + body
}

impl RequestMux {
    /// The pending slots as a set.
    pub open spec fn pending_set(&self) -> Set<(PeerAddr, u16)> {
        self.pending@.to_set()
    }

    /// At most one slot per (peer, id), and never id 0.
    pub open spec fn wf(&self) -> bool {
        &&& self.counters.wf()
        &&& self.pending@.no_duplicates()
        &&& forall|i: int| 0 <= i < self.pending@.len() ==> (#[trigger] self.pending@[i]).1 != 0
    }

    /// The counter that the next request to `peer` starts from.
    pub open spec fn counter_of(&self, peer: PeerAddr) -> u16 {
        if self.counters@.contains_key(peer) {
            self.counters@[peer]
        } else {
            1
        }
    }

    pub fn new() -> (r: Self)
        ensures
            r.wf(),
            r.counters@ == Map::<PeerAddr, u16>::empty(),
            r.pending_set() == Set::<(PeerAddr, u16)>::empty(),
    {
        let r = RequestMux { counters: Table::new(), pending: Vec::new() };
        proof {
            assert(r.pending@.to_set() =~= Set::<(PeerAddr, u16)>::empty());
        }
        r
    }

    pub fn is_pending(&self, peer: PeerAddr, id: u16) -> (r: bool)
        ensures
            r == self.pending_set().contains((peer, id)),
    {
        let mut i: usize = 0;
        while i < self.pending.len()
            invariant
                i <= self.pending@.len(),
                forall|j: int| 0 <= j < i ==> self.pending@[j] != (peer, id),
            decreases self.pending@.len() - i,
        {
            if self.pending[i].0 == peer && self.pending[i].1 == id {
                proof {
                    assert(self.pending@.contains((peer, id)));
                }
                return true;
            }
            i = i + 1;
        }
        false
    }

    /// Opens the slot (peer, id), if it is not open already.
    pub fn install(&mut self, peer: PeerAddr, id: u16)
        requires
            old(self).wf(),
            id != 0,
        ensures
            final(self).wf(),
            final(self).pending_set() == old(self).pending_set().insert((peer, id)),
            final(self).counters == old(self).counters,
    {
        if !self.is_pending(peer, id) {
            let ghost before = self.pending@;
            self.pending.push((peer, id));
            proof {
                assert forall|t: (PeerAddr, u16)|
                    self.pending@.contains(t) <==> before.contains(t) || t == (peer, id) by {
                    if self.pending@.contains(t) {
                        let k = choose|k: int| 0 <= k < self.pending@.len() && self.pending@[k] == t;
                        if k < before.len() {
                            assert(before[k] == t);
                        }
                    }
                    if before.contains(t) {
                        let k = choose|k: int| 0 <= k < before.len() && before[k] == t;
                        assert(self.pending@[k] == t);
                    }
                    if t == (peer, id) {
                        assert(self.pending@[before.len() as int] == t);
                    }
                }
                assert(self.pending@.to_set() =~= before.to_set().insert((peer, id)));
                assert forall|i: int, j: int|
                    0 <= i < self.pending@.len() && 0 <= j < self.pending@.len() && i != j implies self.pending@[i]
                    != self.pending@[j] by {
                    if i == before.len() {
                        assert(before.contains(self.pending@[j]));
                    } else if j == before.len() {
                        assert(before.contains(self.pending@[i]));
                    }
                }
            }
        } else {
            proof {
                assert(self.pending_set().insert((peer, id)) =~= self.pending_set());
            }
        }
    }

    /// Drops the slots whose pair satisfies `drop_it`; the others keep their order.
    fn retain_slots(&mut self, peer: PeerAddr, id: Option<u16>)
        requires
            old(self).wf(),
        ensures
            final(self).wf(),
            final(self).counters == old(self).counters,
            final(self).pending_set() == old(self).pending_set().filter(
                |s: (PeerAddr, u16)| !slot_matches(s, peer, id),
            ),
    {
        let ghost old_slots = self.pending@;
        let mut kept: Vec<(PeerAddr, u16)> = Vec::new();
        let mut i: usize = 0;
        while i < self.pending.len()
            invariant
                self.pending@ == old_slots,
                old_slots.no_duplicates(),
                forall|k: int| 0 <= k < old_slots.len() ==> (#[trigger] old_slots[k]).1 != 0,
                i <= old_slots.len(),
                kept@.no_duplicates(),
                forall|k: int| 0 <= k < kept@.len() ==> (#[trigger] kept@[k]).1 != 0,
                forall|s: (PeerAddr, u16)|
                    kept@.contains(s) <==> (exists|j: int|
                        0 <= j < i && old_slots[j] == s) && !slot_matches(s, peer, id),
            decreases old_slots.len() - i,
        {
            let s = self.pending[i];
            let hit = s.0 == peer && match id {
                Some(x) => s.1 == x,
                None => true,
            };
            let ghost before = kept@;
            if !hit {
                proof {
                    assert(!kept@.contains(s)) by {
                        if kept@.contains(s) {
                            let j = choose|j: int| 0 <= j < i && old_slots[j] == s;
                            assert(old_slots[j] == old_slots[i as int]);
                        }
                    }
                }
                kept.push(s);
                proof {
                    assert forall|a: int, b: int|
                        0 <= a < kept@.len() && 0 <= b < kept@.len() && a != b implies kept@[a]
                        != kept@[b] by {
                        if a == before.len() {
                            assert(before.contains(kept@[b]));
                        } else if b == before.len() {
                            assert(before.contains(kept@[a]));
                        }
                    }
                }
            }
            proof {
                assert forall|t: (PeerAddr, u16)|
                    kept@.contains(t) <==> (exists|j: int| 0 <= j < i + 1 && old_slots[j] == t)
                        && !slot_matches(t, peer, id) by {
                    if kept@.contains(t) {
                        if before.contains(t) {
                        } else {
                            assert(t == s);
                            assert(old_slots[i as int] == t);
                        }
                    }
                    if (exists|j: int| 0 <= j < i + 1 && old_slots[j] == t) && !slot_matches(t, peer, id) {
                        let j = choose|j: int| 0 <= j < i + 1 && old_slots[j] == t;
                        if j == i {
                            assert(kept@[kept@.len() - 1] == t);
                        } else {
                            assert(before.contains(t));
                            let k = choose|k: int| 0 <= k < before.len() && before[k] == t;
                            assert(kept@[k] == t);
                        }
                    }
                }
            }
            i = i + 1;
        }
        self.pending = kept;
        proof {
            assert forall|t: (PeerAddr, u16)|
                self.pending@.to_set().contains(t) <==> old_slots.to_set().filter(
                    |s: (PeerAddr, u16)| !slot_matches(s, peer, id),
                ).contains(t) by {
                if old_slots.contains(t) {
                    let j = choose|j: int| 0 <= j < old_slots.len() && old_slots[j] == t;
                }
            }
            assert(self.pending@.to_set() =~= old_slots.to_set().filter(
                |s: (PeerAddr, u16)| !slot_matches(s, peer, id),
            ));
        }
    }

    /// Takes an id for a new request to `peer` and opens its slot. The id is
    /// never 0. An id that is still pending is refused.
    pub fn begin_request(&mut self, peer: PeerAddr) -> (r: Option<u16>)
        requires
            old(self).wf(),
        ensures
            final(self).wf(),
            ({
                let id = id_from(old(self).counter_of(peer));
                &&& final(self).counters@ == old(self).counters@.insert(peer, counter_after(old(self).counter_of(peer)))
                &&& old(self).pending_set().contains((peer, id)) ==> r is None && final(self).pending_set()
                    == old(self).pending_set()
                &&& !old(self).pending_set().contains((peer, id)) ==> r == Some(id) && final(self).pending_set()
                    == old(self).pending_set().insert((peer, id))
            }),
    {
        let c: u16 = match self.counters.get(&peer) {
            Some(c) => *c,
            None => 1,
        };
        let id: u16 = if c == 0 { 1 } else { c };
        let next: u16 = if id == u16::MAX { 0 } else { id + 1 };
        self.counters.insert(peer, next);
        if self.is_pending(peer, id) {
            return None;
        }
        self.install(peer, id);
        Some(id)
    }

    /// An attempt of request `id` to `peer` timed out: every slot of that peer
    /// closes. With budget left, the slot of `id` opens again for the next attempt.
    pub fn attempt_timed_out(&mut self, peer: PeerAddr, id: u16, retry: &mut Retry) -> (again: bool)
        requires
            old(self).wf(),
            id != 0,
        ensures
            final(self).wf(),
            final(self).counters == old(self).counters,
            final(retry).remaining == next_remaining(old(retry).remaining),
            again == (final(retry).remaining > 0),
            again ==> final(self).pending_set() == old(self).pending_set().filter(
                |s: (PeerAddr, u16)| s.0 != peer,
            ).insert((peer, id)),
            !again ==> final(self).pending_set() == old(self).pending_set().filter(
                |s: (PeerAddr, u16)| s.0 != peer,
            ),
    {
        self.retain_slots(peer, None);
        proof {
            assert(self.pending_set() =~= old(self).pending_set().filter(
                |s: (PeerAddr, u16)| s.0 != peer,
            ));
        }
        let again = retry.timed_out();
        if again {
            self.install(peer, id);
        }
        again
    }

    /// An incoming payload from `peer`: a reply to a pending request closes
    /// exactly that slot; anything else with an id is unsolicited.
    pub fn route(&mut self, peer: PeerAddr, payload: &[u8]) -> (r: Route)
        requires
            old(self).wf(),
        ensures
            final(self).wf(),
            final(self).counters == old(self).counters,
            payload@.len() < 2 ==> r is Malformed && final(self).pending_set() == old(self).pending_set(),
            payload@.len() >= 2 ==> {
                let id = frame_id(payload@);
                let body = payload@.skip(2);
                &&& frame_bytes(id, body) == payload@
                &&& (id != 0 && old(self).pending_set().contains((peer, id))) ==> (r matches Route::Reply { id: i, body: b }
                    && i == id && b@ == body && final(self).pending_set() == old(self).pending_set().remove((peer, id)))
                &&& !(id != 0 && old(self).pending_set().contains((peer, id))) ==> (r matches Route::Unsolicited { body: b }
                    && b@ == body && final(self).pending_set() == old(self).pending_set())
            },
    {
        let (id, start) = match parse_u16(payload, 0) {
            Some(x) => x,
            None => return Route::Malformed,
        };
        let body = copy_range(payload, start, payload.len());
        proof {
            reveal_with_fuel(crate::codec::pow256, 3);
            let s = payload@.subrange(0, 2);
            assert(s == enc_u16(id));
            assert(payload@ =~= s + payload@.skip(2));
            crate::codec::lemma_be_round(id as nat, 2);
        }
        if id != 0 && self.is_pending(peer, id) {
            self.retain_slots(peer, Some(id));
            proof {
                assert(self.pending_set() =~= old(self).pending_set().remove((peer, id)));
            }
            Route::Reply { id, body }
        } else {
            Route::Unsolicited { body }
        }
    }

    /// Closes the slot of a request that its host gave up on.
    pub fn abandon(&mut self, peer: PeerAddr, id: u16)
        requires
            old(self).wf(),
        ensures
            final(self).wf(),
            final(self).counters == old(self).counters,
            final(self).pending_set() == old(self).pending_set().remove((peer, id)),
    {
        self.retain_slots(peer, Some(id));
        proof {
            assert(self.pending_set() =~= old(self).pending_set().remove((peer, id)));
        }
    }

    /// Forgets a peer: its counter and its slots.
    pub fn release(&mut self, peer: PeerAddr)
        requires
            old(self).wf(),
        ensures
            final(self).wf(),
            final(self).counters@ == old(self).counters@.remove(peer),
            final(self).pending_set() == old(self).pending_set().filter(
                |s: (PeerAddr, u16)| s.0 != peer,
            ),
    {
        let _ = self.counters.remove(&peer);
        self.retain_slots(peer, None);
        proof {
            assert(self.pending_set() =~= old(self).pending_set().filter(
                |s: (PeerAddr, u16)| s.0 != peer,
            ));
        }
    }
}

/// `s` is a slot of `peer`, and of `id` when one is given.
pub open spec fn slot_matches(s: (PeerAddr, u16), peer: PeerAddr, id: Option<u16>) -> bool {
    s.0 == peer && match id {
        Some(x) => s.1 == x,
        None => true,
    }
}

/// The payload of request or reply `id` carrying `body`.
pub fn frame(id: u16, body: &[u8]) -> (r: Vec<u8>)
    ensures
        r@ == frame_bytes(id, body@),
{
    let mut r: Vec<u8> = Vec::new();
    encode_u16(&mut r, id);
    append_bytes(&mut r, body);
    proof {
        assert(r@ =~= frame_bytes(id, body@));
    }
    r
}

/// The budget left after one more timeout.
pub open spec fn next_remaining(r: u32) -> u32 {
    if r == 0 {
        0
    } else {
        (r - 1) as u32
    }
}

/// The budget of a request with `limit` after `k` timeouts.
pub open spec fn remaining_after(limit: u32, k: nat) -> u32
    decreases k,
{
    if k == 0 {
        limit
    } else {
        next_remaining(remaining_after(limit, (k - 1) as nat))
    }
}

/// How many attempts a request may still make after the current one.
pub struct Retry {
    pub remaining: u32,
}

impl Retry {
    pub fn new(retry_limits: u32) -> (r: Self)
        ensures
            r.remaining == retry_limits,
    {
        Retry { remaining: retry_limits }
    }

    /// The current attempt timed out: whether another one follows.
    pub fn timed_out(&mut self) -> (again: bool)
        ensures
            final(self).remaining == next_remaining(old(self).remaining),
            again == (final(self).remaining > 0),
    {
        if self.remaining > 0 {
            self.remaining = self.remaining - 1;
        }
        self.remaining > 0
    }
}

/// A request whose peer drops the first `k` packets is answered when `k` is
/// below the retry limit: none of the first `k` timeouts ends it. When the
/// peer drops every packet, the timeout numbered `retry_limits` ends it, and
/// none before it does.
pub proof fn lemma_retry_budget(limit: u32, k: nat)
    ensures
        k < limit ==> forall|j: nat| 1 <= j <= k ==> #[trigger] remaining_after(limit, j) > 0,
        limit >= 1 ==> remaining_after(limit, limit as nat) == 0,
        forall|j: nat| 1 <= j < limit ==> #[trigger] remaining_after(limit, j) > 0,
{
    assert forall|j: nat| j <= limit implies #[trigger] remaining_after(limit, j) == limit - j by {
        lemma_remaining_after(limit, j);
    }
}

proof fn lemma_remaining_after(limit: u32, j: nat)
    requires
        j <= limit,
    ensures
        remaining_after(limit, j) == limit - j,
    decreases j,
{
    if j > 0 {
        lemma_remaining_after(limit, (j - 1) as nat);
    }
}

/// At most one slot exists for each (peer, id), none has id 0, and a reply
/// closes exactly its own slot.
pub proof fn lemma_request_correlation(before: RequestMux, after: RequestMux, peer: PeerAddr, id: u16)
    requires
        before.wf(),
        after.wf(),
        id != 0,
        before.pending_set().contains((peer, id)),
        after.pending_set() == before.pending_set().remove((peer, id)),
    ensures
        forall|i: int, j: int|
            0 <= i < before.pending@.len() && 0 <= j < before.pending@.len() && before.pending@[i] == before.pending@[j]
                ==> i == j,
        !before.pending_set().contains((peer, 0)),
        !after.pending_set().contains((peer, id)),
        forall|s: (PeerAddr, u16)| s != (peer, id) ==> (after.pending_set().contains(s) == before.pending_set().contains(s)),
{
    if before.pending@.contains((peer, 0u16)) {
        let i = choose|i: int| 0 <= i < before.pending@.len() && before.pending@[i] == (peer, 0u16);
        assert(before.pending@[i].1 != 0);
    }
}

} // verus!
