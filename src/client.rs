//! The client's session coordinator: its view of the user directory, the chat
//! histories, the handling of presence notifications and peer messages, and
//! the requests that it sends to the server.

use crate::channel::{after_seal, next_box, sealed_for, SecureConnection};
use crate::messages::{enc_body, enc_secure};
use crate::codec::enc_u16;
use crate::connection::{opened_to, opens_to, request_outcome, unsolicited_from, Connection, Delivery};
use crate::data::SecureMsg;
use crate::mux::{frame_bytes, frame_id};
use crate::data::{
    ts_le, Command, ErrorCode, Message, Notification, PeerAddr, Response, ResponseData, Timestamp,
    UserInfo, UserOnlineInfo,
};
use crate::messages::{
    at, enc_command, enc_message, enc_notification, notification_wf, parse_message,
    parse_notification, same_message, same_notification, Body,
};
use crate::table::Table;
use vstd::prelude::*;
use vstd::utf8::encode_utf8;

verus! {

/// The SHA-256 digest of a byte string.
pub uninterp spec fn sha256_of(bytes: Seq<u8>) -> Seq<u8>;

/// A string without its leading whitespace.
pub uninterp spec fn trimmed_start(s: Seq<char>) -> Seq<char>;

/// Relies on sha2::Sha256 through digest::Digest::digest: the digest of the bytes.
#[verifier::external_body]
fn sha256(bytes: &[u8]) -> (r: [u8; 32])
    ensures
        r@ == sha256_of(bytes@),
{
    <sha2::Sha256 as sha2::Digest>::digest(bytes).into()
}

/// Relies on str::trim_start: the string without its leading whitespace.
#[verifier::external_body]
fn trim_start(s: &str) -> (r: String)
    ensures
        r@ == trimmed_start(s@),
{
    s.trim_start().to_string()
}

/// What the client sends in place of a password: the SHA-256 digest of its
/// UTF-8 bytes, leading whitespace removed.
pub fn password_digest(pass: &str) -> (r: [u8; 32])
    ensures
        r@ == sha256_of(encode_utf8(trimmed_start(pass@))),
{
    let t = trim_start(pass);
    sha256(t.as_str().as_bytes())
}

/// Failures that a client command reports.
#[derive(Clone, Copy, Debug, PartialEq, Eq, Structural)]
pub enum Error {
    Network,
    Timeout,
    CorruptedData,
    Server(ErrorCode),
    Connection(crate::channel::Error),
    UnsupportedResponse,
    UserOffline,
    UserNotExisted,
    RequestIdInUse,
}

/// An entry of a chat history.
pub enum ChatEntry {
    Online,
    Offline,
    Message(String),
}

/// A history entry with its author.
pub struct OwnedChatEntry {
    pub user: String,
    pub entry: ChatEntry,
}

impl OwnedChatEntry {
    pub fn new(user: String, entry: ChatEntry) -> (r: Self)
        ensures
            r.user == user,
            r.entry == entry,
    {
        OwnedChatEntry { user, entry }
    }
}

/// Who this client is logged in as.
pub struct PersonalInfo {
    pub name: String,
    pub ip_address: PeerAddr,
}

/// A history: entries with their timestamps, in time order.
pub type History = Vec<(Timestamp, OwnedChatEntry)>;

/// Where an entry at `t` goes in `s`: after the last entry not later than `t`
/// that follows every later one.
pub open spec fn slot(s: Seq<(Timestamp, OwnedChatEntry)>, t: Timestamp) -> int
    decreases s.len(),
{
    if s.len() == 0 {
        0
    } else if ts_le(s.last().0, t) {
        s.len() as int
    } else {
        slot(s.drop_last(), t)
    }
}

/// `s` with `e` placed by its timestamp, after entries of equal time.
pub open spec fn by_time(s: Seq<(Timestamp, OwnedChatEntry)>, e: (Timestamp, OwnedChatEntry)) -> Seq<(Timestamp, OwnedChatEntry)> {
    s.insert(slot(s, e.0), e)
}

/// Each entry is not later than the next.
pub open spec fn time_ordered(s: Seq<(Timestamp, OwnedChatEntry)>) -> bool {
    forall|i: int, j: int| 0 <= i < j < s.len() ==> ts_le(#[trigger] s[i].0, #[trigger] s[j].0)
}

proof fn lemma_slot_bounds(s: Seq<(Timestamp, OwnedChatEntry)>, t: Timestamp)
    ensures
        0 <= slot(s, t) <= s.len(),
        forall|i: int| slot(s, t) <= i < s.len() ==> !ts_le(#[trigger] s[i].0, t),
    decreases s.len(),
{
    if s.len() > 0 && !ts_le(s.last().0, t) {
        let d = s.drop_last();
        lemma_slot_bounds(d, t);
        assert forall|i: int| slot(s, t) <= i < s.len() implies !ts_le(#[trigger] s[i].0, t) by {
            if i < d.len() {
                assert(s[i] == d[i]);
            }
        }
    }
}

proof fn lemma_ts_le_facts(a: Timestamp, b: Timestamp, c: Timestamp)
    ensures
        ts_le(a, b) && ts_le(b, c) ==> ts_le(a, c),
        ts_le(a, b) || ts_le(b, a),
{
}

/// Placing an entry by its timestamp keeps a history in time order.
pub proof fn lemma_by_time_ordered(s: Seq<(Timestamp, OwnedChatEntry)>, e: (Timestamp, OwnedChatEntry))
    requires
        time_ordered(s),
    ensures
        time_ordered(by_time(s, e)),
    decreases s.len(),
{
    lemma_slot_bounds(s, e.0);
    let p = slot(s, e.0);
    let r = by_time(s, e);
    if p > 0 {
        lemma_slot_prefix(s, e.0);
    }
    assert forall|i: int, j: int| 0 <= i < j < r.len() implies ts_le(#[trigger] r[i].0, #[trigger] r[j].0) by {
        if i < p && j == p {
            lemma_ts_le_facts(s[i].0, s[p - 1].0, e.0);
        } else if i == p && j > p {
            lemma_ts_le_facts(s[j - 1].0, e.0, e.0);
        } else if i < p && j > p {
            assert(ts_le(s[i].0, s[j - 1].0));
        } else if i > p {
            assert(ts_le(s[i - 1].0, s[j - 1].0));
        }
    }
}

proof fn lemma_slot_prefix(s: Seq<(Timestamp, OwnedChatEntry)>, t: Timestamp)
    requires
        slot(s, t) > 0,
    ensures
        ts_le(s[slot(s, t) - 1].0, t),
    decreases s.len(),
{
    let d = s.drop_last();
    if !ts_le(s.last().0, t) {
        lemma_slot_bounds(d, t);
        lemma_slot_prefix(d, t);
        assert(s[slot(s, t) - 1] == d[slot(d, t) - 1]);
    }
}

/// Places `e` in `h` by its timestamp.
fn insert_by_time(h: &mut History, e: (Timestamp, OwnedChatEntry))
    ensures
        final(h)@ == by_time(old(h)@, e),
{
    let ghost s = h@;
    let mut i: usize = h.len();
    proof {
        assert(s.take(s.len() as int) =~= s);
    }
    while i > 0 && !h[i - 1].0.not_after(&e.0)
        invariant
            h@ == s,
            i <= s.len(),
            slot(s, e.0) == slot(s.take(i as int), e.0),
        decreases i,
    {
        proof {
            assert(s.take(i as int).drop_last() =~= s.take(i - 1));
        }
        i = i - 1;
    }
    proof {
        if i > 0 {
            assert(s.take(i as int).last() == s[i - 1]);
        }
        assert(s.take(s.len() as int) =~= s);
    }
    h.insert(i, e);
}

pub struct ClientState {
    pub addr2user: Table<PeerAddr, String>,
    pub users: Table<String, UserInfo>,
    pub group_history: History,
    pub one2one_history: Table<String, History>,
    pub personal_info: Option<PersonalInfo>,
}

/// The per-peer history of `name` in `t`, empty where there is none.
pub open spec fn history_of(t: Table<String, History>, name: Seq<char>) -> Seq<(Timestamp, OwnedChatEntry)> {
    if t@.contains_key(name) {
        t@[name]@
    } else {
        Seq::empty()
    }
}

/// The entry `(ts, (name, e))`.
pub open spec fn entry_of(ts: Timestamp, name: String, e: ChatEntry) -> (Timestamp, OwnedChatEntry) {
    (ts, OwnedChatEntry { user: name, entry: e })
}

/// What the host is told after an unsolicited payload.
pub enum ClientEvent {
    Online { name: String },
    Offline { name: String },
    NewMessage { from: Option<String> },
    Ignored,
}

/// The directory `s1` and the channel `c1` follow the status snapshot
/// `users`: every user by name, every online user's address bound to a user
/// of the snapshot at it, with that user's key in the channel; the histories
/// and who the client is are those of `s0`.
pub open spec fn status_applied(s0: ClientState, s1: ClientState, c1: SecureConnection, users: Seq<UserInfo>) -> bool {
    &&& forall|i: int| #![trigger users[i]] 0 <= i < users.len() ==> s1.users@.contains_key(users[i].name@)
    &&& forall|n: Seq<char>| #[trigger] s1.users@.contains_key(n) ==> exists|i: int|
        0 <= i < users.len() && users[i].name@ == n && s1.users@[n] == users[i]
    &&& forall|a: PeerAddr| #[trigger] s1.addr2user@.contains_key(a) ==> exists|i: int|
        0 <= i < users.len() && users[i].online_info is Some && users[i].online_info->0.ip_address == a
            && s1.addr2user@[a] == users[i].name && c1.pub_keys@[a] == users[i].online_info->0.pub_key
    &&& forall|i: int| #![trigger users[i]]
        0 <= i < users.len() && users[i].online_info is Some ==> s1.addr2user@.contains_key(
            users[i].online_info->0.ip_address,
        ) && c1.pub_keys@.contains_key(users[i].online_info->0.ip_address)
    &&& s1.group_history == s0.group_history
    &&& s1.one2one_history == s0.one2one_history
    &&& s1.personal_info == s0.personal_info
}

/// What `on_online` does: the directory and the channel learn the user's
/// address and key, and both histories record it.
pub open spec fn online_applied(
    s0: ClientState,
    s1: ClientState,
    c0: SecureConnection,
    c1: SecureConnection,
    timestamp: Timestamp,
    name: String,
    info: UserOnlineInfo,
) -> bool {
    &&& s1.addr2user@ == s0.addr2user@.insert(info.ip_address, name)
    &&& c1.pub_keys@ == c0.pub_keys@.insert(info.ip_address, info.pub_key)
    &&& c1.contexts@ == c0.contexts@.insert(info.ip_address, c0.fresh(info.pub_key))
    &&& s1.users@ == s0.users@.insert(name@, UserInfo { name, online_info: Some(info) })
    &&& s1.group_history@ == by_time(s0.group_history@, entry_of(timestamp, name, ChatEntry::Online))
    &&& history_of(s1.one2one_history, name@) == by_time(
        history_of(s0.one2one_history, name@),
        entry_of(timestamp, name, ChatEntry::Online),
    )
    &&& s1.personal_info == s0.personal_info
}

/// What `on_offline` does: a user the directory has online goes offline, the
/// directory and the channel forget its address, and, when the address was
/// bound, both histories record it.
pub open spec fn offline_applied(
    s0: ClientState,
    s1: ClientState,
    c0: SecureConnection,
    c1: SecureConnection,
    timestamp: Timestamp,
    name: String,
    recorded: bool,
) -> bool {
    &&& s1.personal_info == s0.personal_info
    &&& !(s0.users@.contains_key(name@) && s0.users@[name@].online_info is Some) ==> !recorded && s1.users@ == s0.users@
        && s1.addr2user == s0.addr2user && s1.group_history == s0.group_history && s1.one2one_history == s0.one2one_history
        && c1 == c0
    &&& s0.users@.contains_key(name@) && s0.users@[name@].online_info is Some ==> {
        let u = s0.users@[name@];
        let a = u.online_info->0.ip_address;
        &&& s1.users@ == s0.users@.insert(name@, UserInfo { name: u.name, online_info: None })
        &&& c1.pub_keys@ == c0.pub_keys@.remove(a)
        &&& c1.contexts@ == c0.contexts@.remove(a)
        &&& s1.addr2user@ == s0.addr2user@.remove(a)
        &&& recorded == s0.addr2user@.contains_key(a)
        &&& recorded ==> s1.group_history@ == by_time(s0.group_history@, entry_of(timestamp, name, ChatEntry::Offline))
            && history_of(s1.one2one_history, name@) == by_time(
            history_of(s0.one2one_history, name@),
            entry_of(timestamp, name, ChatEntry::Offline),
        )
        &&& !recorded ==> s1.group_history == s0.group_history && s1.one2one_history == s0.one2one_history
    }
}

/// The addresses of users that `s` has online, other than `me`.
pub open spec fn online_others(s: ClientState, me: PeerAddr) -> Set<PeerAddr> {
    Set::new(
        |a: PeerAddr|
            a != me && exists|i: int|
                0 <= i < s.users.entries@.len() && (#[trigger] s.users.entries@[i]).1.online_info is Some
                    && s.users.entries@[i].1.online_info->0.ip_address == a,
    )
}

pub open spec fn goes_to(o: (PeerAddr, Vec<u8>), a: PeerAddr) -> bool {
    o.0 == a
}

/// `out` holds, for each address in `rs` that has a context in `c` and a box
/// for `plain`, one datagram to it: the box that its context makes; nothing else.
pub open spec fn fanned_out(c: SecureConnection, rs: Seq<PeerAddr>, plain: Seq<u8>, out: Seq<(PeerAddr, Vec<u8>)>) -> bool {
    &&& forall|k: int| 0 <= k < out.len() ==> rs.contains(#[trigger] out[k].0) && c.contexts@.contains_key(out[k].0)
        && sealed_for(c, out[k].0, plain, out[k].1@)
    &&& forall|a: PeerAddr| #[trigger] rs.contains(a) && c.contexts@.contains_key(a) && next_box(c.contexts@[a], plain) is Some
        ==> exists|k: int| 0 <= k < out.len() && goes_to(out[k], a)
}

proof fn lemma_fanned_out_step(
    c0: SecureConnection,
    before: SecureConnection,
    pre: Seq<PeerAddr>,
    a: PeerAddr,
    plain: Seq<u8>,
    out0: Seq<(PeerAddr, Vec<u8>)>,
    out1: Seq<(PeerAddr, Vec<u8>)>,
    sent: Result<Vec<u8>, crate::channel::Error>,
)
    requires
        fanned_out(c0, pre, plain, out0),
        !pre.contains(a),
        c0.contexts@.contains_key(a) ==> before.contexts@[a] == c0.contexts@[a],
        before.contexts@.dom() == c0.contexts@.dom(),
        !before.contexts@.contains_key(a) ==> sent is Err,
        before.contexts@.contains_key(a) ==> crate::channel::sent_outcome(before, before, a, plain, sent)
            || match sent {
            Ok(d) => sealed_for(before, a, plain, d@),
            Err(_) => next_box(before.contexts@[a], plain) is None,
        },
        sent matches Ok(d) ==> out1 == out0.push((a, d)),
        sent is Err ==> out1 == out0,
    ensures
        fanned_out(c0, pre.push(a), plain, out1),
{
    let post = pre.push(a);
    assert forall|k: int| 0 <= k < out1.len() implies post.contains(#[trigger] out1[k].0) && c0.contexts@.contains_key(out1[k].0)
        && sealed_for(c0, out1[k].0, plain, out1[k].1@) by {
        if k < out0.len() {
            assert(out1[k] == out0[k]);
            let j = choose|j: int| 0 <= j < pre.len() && pre[j] == out0[k].0;
            assert(post[j] == out0[k].0);
        } else {
            assert(post[pre.len() as int] == a);
            if before.contexts@.contains_key(a) {
                if let Ok(d) = sent {
                    assert(sealed_for(before, a, plain, d@));
                }
            }
        }
    }
    assert forall|x: PeerAddr| #[trigger] post.contains(x) && c0.contexts@.contains_key(x) && next_box(c0.contexts@[x], plain) is Some
        implies exists|k: int| 0 <= k < out1.len() && goes_to(out1[k], x) by {
        if x == a {
            assert(goes_to(out1[out0.len() as int], x));
        } else {
            let j = choose|j: int| 0 <= j < post.len() && post[j] == x;
            assert(pre[j] == x);
            assert(pre.contains(x));
            let k = choose|k: int| 0 <= k < out0.len() && goes_to(out0[k], x);
            assert(out1[k] == out0[k]);
        }
    }
}

/// Whether `a` is in `v`.
fn has_addr(v: &Vec<PeerAddr>, a: PeerAddr) -> (r: bool)
    ensures
        r == v@.contains(a),
{
    let mut i: usize = 0;
    while i < v.len()
        invariant
            i <= v@.len(),
            forall|j: int| 0 <= j < i ==> v@[j] != a,
        decreases v@.len() - i,
    {
        if v[i] == a {
            proof {
                assert(v@[i as int] == a);
            }
            return true;
        }
        i = i + 1;
    }
    false
}

/// What `on_receive` does with unsolicited payload `body` from `source`: from
/// the server a notification has the effect of `on_online` or `on_offline`;
/// from anyone else a message has the effect of `on_message`; anything that
/// does not decode changes nothing.
pub open spec fn received(
    s0: ClientState,
    s1: ClientState,
    c0: SecureConnection,
    c1: SecureConnection,
    server: PeerAddr,
    source: PeerAddr,
    body: Seq<u8>,
    r: ClientEvent,
) -> bool {
    &&& s1.personal_info == s0.personal_info
    &&& source == server ==> {
        &&& forall|n: Notification| notification_wf(n) && #[trigger] at(body, 0, enc_notification(n)) ==> match n {
            Notification::Online { timestamp, name, info } => r matches ClientEvent::Online { name: m } && m@ == name@
                && online_applied(s0, s1, c0, c1, timestamp, m, info),
            Notification::Offline { timestamp, name } => exists|m: String, rec: bool|
                m@ == name@ && #[trigger] offline_applied(s0, s1, c0, c1, timestamp, m, rec) && (rec ==> r
                    == ClientEvent::Offline { name: m }) && (!rec ==> r is Ignored),
        }
        &&& !(exists|n: Notification| notification_wf(n) && #[trigger] at(body, 0, enc_notification(n))) ==> r is Ignored
            && s1 == s0 && c1 == c0
    }
    &&& source != server ==> {
        &&& c1 == c0
        &&& forall|m: Message| m.timestamp.wf() && #[trigger] at(body, 0, enc_message(m)) ==> exists|w: Message|
            same_message(w, m) && #[trigger] message_applied(s0, s1, source, w, r)
        &&& !(exists|m: Message| m.timestamp.wf() && #[trigger] at(body, 0, enc_message(m))) ==> r is Ignored && s1 == s0
    }
}

/// A datagram opens to one payload only.
proof fn lemma_opened_unique(c0: SecureConnection, c1: SecureConnection, source: PeerAddr, datagram: Seq<u8>, p: Seq<u8>, q: Seq<u8>)
    requires
        datagram.len() < 0x1_0000_0000_0000_0000,
        opens_to(c0, source, datagram, p),
        opened_to(c0, c1, source, datagram, q),
    ensures
        p == q,
        opened_to(c0, c1, source, datagram, p),
{
    let b1 = choose|b: Seq<u8>| #[trigger] at(datagram, 0, crate::messages::enc_secure_msg_bytes(b)) && crate::channel::next_open(c0.contexts@[source], b) == Some(p);
    let b2 = choose|b: Seq<u8>| #[trigger] at(datagram, 0, crate::messages::enc_secure_msg_bytes(b)) && crate::channel::next_open(c0.contexts@[source], b) == Some(q);
    crate::messages::lemma_msg_box_unique(datagram, b1, b2);
}

/// What `on_message` does with message `m` from `source`.
pub open spec fn message_applied(s0: ClientState, s1: ClientState, source: PeerAddr, m: Message, r: ClientEvent) -> bool {
    &&& s1.users == s0.users
    &&& s1.addr2user == s0.addr2user
    &&& s1.personal_info == s0.personal_info
    &&& !s0.addr2user@.contains_key(source) ==> r is Ignored && s1.group_history == s0.group_history
        && s1.one2one_history == s0.one2one_history
    &&& r matches ClientEvent::NewMessage { from } ==> (s0.addr2user@.contains_key(source) && match from {
        Some(n) => !m.to_all && n == s0.addr2user@[source],
        None => m.to_all,
    })
    &&& r is Ignored || r is NewMessage
    &&& s0.addr2user@.contains_key(source) ==> {
        let name = s0.addr2user@[source];
        let e = entry_of(m.timestamp, name, ChatEntry::Message(m.msg));
        &&& m.to_all ==> s1.group_history@ == by_time(s0.group_history@, e) && s1.one2one_history == s0.one2one_history
        &&& !m.to_all ==> s1.group_history == s0.group_history && history_of(s1.one2one_history, name@) == by_time(
            history_of(s0.one2one_history, name@),
            e,
        ) && forall|n: Seq<char>| n != name@ ==> #[trigger] history_of(s1.one2one_history, n) == history_of(
            s0.one2one_history,
            n,
        )
    }
}

impl ClientState {
    /// The tables keep unique keys and every history is in time order.
    pub open spec fn wf(&self) -> bool {
        &&& self.addr2user.wf()
        &&& self.users.wf()
        &&& self.one2one_history.wf()
        &&& time_ordered(self.group_history@)
        &&& forall|n: Seq<char>| #[trigger]
            self.one2one_history@.contains_key(n) ==> time_ordered(self.one2one_history@[n]@)
    }

    pub fn new() -> (r: Self)
        ensures
            r.wf(),
            r.addr2user@ == Map::<PeerAddr, String>::empty(),
            r.users@ == Map::<Seq<char>, UserInfo>::empty(),
            r.group_history@.len() == 0,
            r.one2one_history@ == Map::<Seq<char>, History>::empty(),
            r.personal_info is None,
    {
        ClientState {
            addr2user: Table::new(),
            users: Table::new(),
            group_history: Vec::new(),
            one2one_history: Table::new(),
            personal_info: None,
        }
    }

    /// Appends `(ts, (author, e))` to the per-peer history of `peer`.
    fn push_personal(&mut self, peer: &String, ts: Timestamp, author: String, e: ChatEntry)
        requires
            old(self).wf(),
        ensures
            final(self).wf(),
            final(self).one2one_history@ == old(self).one2one_history@.insert(
                peer@,
                final(self).one2one_history@[peer@],
            ),
            history_of(final(self).one2one_history, peer@) == by_time(history_of(old(self).one2one_history, peer@), 
                entry_of(ts, author, e),
            ),
            final(self).addr2user == old(self).addr2user,
            final(self).users == old(self).users,
            final(self).group_history == old(self).group_history,
            final(self).personal_info == old(self).personal_info,
    {
        let mut h = match self.one2one_history.remove(peer) {
            Some(h) => h,
            None => Vec::new(),
        };
        proof {
            if !old(self).one2one_history@.contains_key(peer@) {
                assert(h@ =~= Seq::<(Timestamp, OwnedChatEntry)>::empty());
            }
        }
        let entry = (ts, OwnedChatEntry::new(author, e));
        proof {
            lemma_by_time_ordered(h@, entry);
        }
        insert_by_time(&mut h, entry);
        self.one2one_history.insert(peer.clone(), h);
        proof {
            assert(self.one2one_history@ =~= old(self).one2one_history@.insert(
                peer@,
                self.one2one_history@[peer@],
            ));
        }
    }

    /// A user came online: the directory and the channel learn its address
    /// and key, and both histories record it.
    pub fn on_online(&mut self, channel: &mut SecureConnection, timestamp: Timestamp, name: String, info: UserOnlineInfo)
        requires
            old(self).wf(),
            old(channel).wf(),
        ensures
            final(self).wf(),
            final(channel).wf(),
            online_applied(*old(self), *final(self), *old(channel), *final(channel), timestamp, name, info),
    {
        self.addr2user.insert(info.ip_address, name.clone());
        channel.install_key(info.ip_address, info.pub_key);
        self.users.insert(name.clone(), UserInfo { name: name.clone(), online_info: Some(info) });
        let entry = (timestamp, OwnedChatEntry::new(name.clone(), ChatEntry::Online));
        proof {
            lemma_by_time_ordered(self.group_history@, entry);
        }
        insert_by_time(&mut self.group_history, entry);
        self.push_personal(&name, timestamp, name.clone(), ChatEntry::Online);
    }

    /// A user went offline: if the directory had it online, its address is
    /// forgotten by the directory and the channel, and both histories record it.
    pub fn on_offline(&mut self, channel: &mut SecureConnection, timestamp: Timestamp, name: String) -> (recorded: bool)
        requires
            old(self).wf(),
            old(channel).wf(),
        ensures
            final(self).wf(),
            final(channel).wf(),
            final(self).personal_info == old(self).personal_info,
            !(old(self).users@.contains_key(name@) && old(self).users@[name@].online_info is Some) ==> !recorded
                && final(self).users@ == old(self).users@ && final(self).addr2user == old(self).addr2user
                && final(self).group_history == old(self).group_history,
            old(self).users@.contains_key(name@) && old(self).users@[name@].online_info is Some ==> {
                let u = old(self).users@[name@];
                let a = u.online_info->0.ip_address;
                &&& final(self).users@ == old(self).users@.insert(name@, UserInfo { name: u.name, online_info: None })
                &&& final(channel).pub_keys@ == old(channel).pub_keys@.remove(a)
                &&& final(self).addr2user@ == old(self).addr2user@.remove(a)
                &&& recorded == old(self).addr2user@.contains_key(a)
                &&& recorded ==> final(self).group_history@ == by_time(old(self).group_history@,
                    entry_of(timestamp, name, ChatEntry::Offline),
                ) && history_of(final(self).one2one_history, name@) == by_time(history_of(old(self).one2one_history, name@), entry_of(timestamp, name, ChatEntry::Offline))
                &&& !recorded ==> final(self).group_history == old(self).group_history
            },
            offline_applied(*old(self), *final(self), *old(channel), *final(channel), timestamp, name, recorded),
    {
        let mut user = match self.users.remove(&name) {
            Some(u) => u,
            None => {
                proof {
                    assert(self.users@ =~= old(self).users@);
                }
                return false;
            },
        };
        let info = match user.online_info {
            Some(i) => i,
            None => {
                let ghost u0 = user;
                self.users.insert(name.clone(), user);
                proof {
                    assert(self.users@ =~= old(self).users@);
                }
                return false;
            },
        };
        let ghost u0 = user;
        user.online_info = None;
        self.users.insert(name.clone(), user);
        channel.release(info.ip_address);
        if self.addr2user.remove(&info.ip_address).is_none() {
            proof {
                assert(!old(self).addr2user@.contains_key(info.ip_address));
                assert(self.group_history == old(self).group_history);
                let s0 = *old(self);
                let s1 = *self;
                let u = s0.users@[name@];
                let a = u.online_info->0.ip_address;
                assert(s1.users@ == s0.users@.insert(name@, UserInfo { name: u.name, online_info: None }));
                assert(channel.pub_keys@ == old(channel).pub_keys@.remove(a));
                assert(s1.addr2user@ == s0.addr2user@.remove(a));
                assert(s1.personal_info == s0.personal_info);
                assert(offline_applied(*old(self), *self, *old(channel), *channel, timestamp, name, false));
            }
            return false;
        }
        let entry = (timestamp, OwnedChatEntry::new(name.clone(), ChatEntry::Offline));
        proof {
            lemma_by_time_ordered(self.group_history@, entry);
        }
        insert_by_time(&mut self.group_history, entry);
        self.push_personal(&name, timestamp, name.clone(), ChatEntry::Offline);
        true
    }

    /// A message from `source`: a peer the directory does not know is
    /// ignored; otherwise it joins the group history or the peer's own.
    pub fn on_message(&mut self, source: PeerAddr, m: Message) -> (r: ClientEvent)
        requires
            old(self).wf(),
        ensures
            final(self).wf(),
            message_applied(*old(self), *final(self), source, m, r),
    {
        let name = match self.addr2user.get(&source) {
            Some(n) => n.clone(),
            None => return ClientEvent::Ignored,
        };
        if m.to_all {
            let entry = (m.timestamp, OwnedChatEntry::new(name, ChatEntry::Message(m.msg)));
            proof {
                lemma_by_time_ordered(self.group_history@, entry);
            }
            insert_by_time(&mut self.group_history, entry);
            ClientEvent::NewMessage { from: None }
        } else {
            let author = name.clone();
            self.push_personal(&name, m.timestamp, author, ChatEntry::Message(m.msg));
            ClientEvent::NewMessage { from: Some(name) }
        }
    }

    /// An unsolicited payload: from the server a notification, from anyone
    /// else a chat message. What does not decode is ignored.
    pub fn on_receive(&mut self, channel: &mut SecureConnection, server: PeerAddr, source: PeerAddr, body: &[u8]) -> (r: ClientEvent)
        requires
            old(self).wf(),
            old(channel).wf(),
        ensures
            final(self).wf(),
            final(channel).wf(),
            received(*old(self), *final(self), *old(channel), *final(channel), server, source, body@, r),
    {
        if source == server {
            let parsed = parse_notification(body, 0);
            match parsed {
                None => ClientEvent::Ignored,
                Some((Notification::Online { timestamp, name, info }, _)) => {
                    let ghost w = Notification::Online { timestamp, name, info };
                    self.on_online(channel, timestamp, name.clone(), info);
                    proof {
                        assert forall|n: Notification| notification_wf(n) && #[trigger] at(body@, 0, enc_notification(n)) implies same_notification(w, n) by {
                        }
                    }
                    ClientEvent::Online { name }
                },
                Some((Notification::Offline { timestamp, name }, _)) => {
                    let ghost w = Notification::Offline { timestamp, name };
                    let ghost nm = name;
                    let recorded = self.on_offline(channel, timestamp, name.clone());
                    let r = if recorded {
                        ClientEvent::Offline { name }
                    } else {
                        ClientEvent::Ignored
                    };
                    proof {
                        assert forall|n: Notification| notification_wf(n) && #[trigger] at(body@, 0, enc_notification(n)) implies same_notification(w, n) by {
                        }
                        assert(offline_applied(*old(self), *self, *old(channel), *channel, timestamp, nm, recorded));
                    }
                    r
                },
            }
        } else {
            match parse_message(body, 0) {
                None => ClientEvent::Ignored,
                Some((m, _)) => {
                    let ghost w = m;
                    let r = self.on_message(source, m);
                    proof {
                        assert forall|v: Message| v.timestamp.wf() && #[trigger] at(body@, 0, enc_message(v)) implies exists|x: Message|
                            same_message(x, v) && #[trigger] message_applied(*old(self), *self, source, x, r) by {
                            assert(same_message(w, v));
                            assert(message_applied(*old(self), *self, source, w, r));
                        }
                    }
                    r
                },
            }
        }
    }

    /// Replaces the directory by a status snapshot: every user by name, every
    /// online user's address, and the channel learns every online user's key.
    pub fn apply_status(&mut self, channel: &mut SecureConnection, users: Vec<UserInfo>)
        requires
            old(self).wf(),
            old(channel).wf(),
        ensures
            final(self).wf(),
            final(channel).wf(),
            status_applied(*old(self), *final(self), *final(channel), users@),
    {
        let mut a2u: Table<PeerAddr, String> = Table::new();
        let mut dir: Table<String, UserInfo> = Table::new();
        let mut i: usize = 0;
        while i < users.len()
            invariant
                old(channel).wf(),
                channel.wf(),
                a2u.wf(),
                dir.wf(),
                i <= users@.len(),
                forall|j: int| #![trigger users@[j]] 0 <= j < i ==> dir@.contains_key(users@[j].name@),
                forall|n: Seq<char>| #[trigger] dir@.contains_key(n) ==> exists|j: int|
                    0 <= j < i && users@[j].name@ == n && dir@[n] == users@[j],
                forall|a: PeerAddr| #[trigger] a2u@.contains_key(a) ==> exists|j: int|
                    0 <= j < i && users@[j].online_info is Some && users@[j].online_info->0.ip_address == a
                    && a2u@[a] == users@[j].name && channel.pub_keys@[a] == users@[j].online_info->0.pub_key,
                forall|j: int| #![trigger users@[j]] 0 <= j < i && users@[j].online_info is Some ==> a2u@.contains_key(
                    users@[j].online_info->0.ip_address,
                ) && channel.pub_keys@.contains_key(users@[j].online_info->0.ip_address),
            decreases users@.len() - i,
        {
            let u = users[i].duplicate();
            if let Some(info) = u.online_info {
                a2u.insert(info.ip_address, u.name.clone());
                channel.install_key(info.ip_address, info.pub_key);
            }
            dir.insert(u.name.clone(), u);
            proof {
                assert forall|n: Seq<char>| #[trigger] dir@.contains_key(n) implies exists|j: int|
                    0 <= j < i + 1 && users@[j].name@ == n && dir@[n] == users@[j] by {
                    if n == users@[i as int].name@ {
                        assert(users@[i as int].name@ == n);
                    }
                }
                assert forall|a: PeerAddr| #[trigger] a2u@.contains_key(a) implies exists|j: int|
                    0 <= j < i + 1 && users@[j].online_info is Some && users@[j].online_info->0.ip_address == a
                    && a2u@[a] == users@[j].name && channel.pub_keys@[a] == users@[j].online_info->0.pub_key by {
                    if users@[i as int].online_info is Some && users@[i as int].online_info->0.ip_address == a {
                        assert(users@[i as int].online_info->0.ip_address == a);
                    }
                }
            }
            i = i + 1;
        }
        self.addr2user = a2u;
        self.users = dir;
    }

    /// A login answered with `users` succeeded: the directory follows the
    /// snapshot and the client records who it is. `false` when the snapshot
    /// does not show the user online.
    pub fn login_succeeded(&mut self, channel: &mut SecureConnection, name: String, users: Vec<UserInfo>) -> (r: bool)
        requires
            old(self).wf(),
            old(channel).wf(),
        ensures
            final(self).wf(),
            final(channel).wf(),
            exists|mid: ClientState| status_applied(*old(self), mid, *final(channel), users@) && mid.users == final(self).users
                && mid.addr2user == final(self).addr2user && mid.group_history == final(self).group_history
                && mid.one2one_history == final(self).one2one_history,
            r == (final(self).users@.contains_key(name@) && final(self).users@[name@].online_info is Some),
            r ==> (final(self).personal_info matches Some(p) && p.name@ == name@
                && p.ip_address == final(self).users@[name@].online_info->0.ip_address),
            !r ==> final(self).personal_info == old(self).personal_info,
    {
        self.apply_status(channel, users);
        let ghost mid = *self;
        let addr = match self.users.get(&name) {
            Some(u) => match u.online_info {
                Some(i) => i.ip_address,
                None => return false,
            },
            None => return false,
        };
        self.personal_info = Some(PersonalInfo { name, ip_address: addr });
        true
    }

    /// A fresh status snapshot: the directory follows it, and the client's own
    /// address follows the snapshot's record of it.
    pub fn refresh_status(&mut self, channel: &mut SecureConnection, users: Vec<UserInfo>)
        requires
            old(self).wf(),
            old(channel).wf(),
        ensures
            final(self).wf(),
            final(channel).wf(),
            exists|mid: ClientState| status_applied(*old(self), mid, *final(channel), users@) && mid.users == final(self).users
                && mid.addr2user == final(self).addr2user && mid.group_history == final(self).group_history
                && mid.one2one_history == final(self).one2one_history,
            old(self).personal_info is None ==> final(self).personal_info is None,
            old(self).personal_info matches Some(p) ==> (final(self).personal_info matches Some(q) && q.name == p.name),
    {
        self.apply_status(channel, users);
        let ghost mid = *self;
        let me = match &self.personal_info {
            Some(p) => p.name.clone(),
            None => return,
        };
        let addr = match self.users.get(&me) {
            Some(u) => match u.online_info {
                Some(i) => i.ip_address,
                None => return,
            },
            None => return,
        };
        self.personal_info = Some(PersonalInfo { name: me, ip_address: addr });
    }

    /// Where a message to `target` goes: the user's address if it is online.
    pub fn direct_target(&self, target: &String) -> (r: Result<PeerAddr, Error>)
        requires
            self.wf(),
        ensures
            self.personal_info is None ==> r == Err::<PeerAddr, Error>(Error::Server(ErrorCode::LoginRequired)),
            self.personal_info is Some && !self.users@.contains_key(target@) ==> r == Err::<PeerAddr, Error>(
                Error::UserNotExisted,
            ),
            self.personal_info is Some && self.users@.contains_key(target@) ==> match self.users@[target@].online_info {
                Some(i) => r == Ok::<PeerAddr, Error>(i.ip_address),
                None => r == Err::<PeerAddr, Error>(Error::UserOffline),
            },
    {
        if self.personal_info.is_none() {
            return Err(Error::Server(ErrorCode::LoginRequired));
        }
        match self.users.get(target) {
            None => Err(Error::UserNotExisted),
            Some(u) => match u.online_info {
                Some(i) => Ok(i.ip_address),
                None => Err(Error::UserOffline),
            },
        }
    }

    /// Records a message this client sent to `target`.
    pub fn record_direct(&mut self, target: &String, msg: String, timestamp: Timestamp)
        requires
            old(self).wf(),
            old(self).personal_info is Some,
        ensures
            final(self).wf(),
            history_of(final(self).one2one_history, target@) == by_time(history_of(old(self).one2one_history, target@), 
                entry_of(timestamp, old(self).personal_info->0.name, ChatEntry::Message(msg)),
            ),
            final(self).group_history == old(self).group_history,
            final(self).users == old(self).users,
            forall|n: Seq<char>| n != target@ ==> #[trigger] history_of(final(self).one2one_history, n) == history_of(
                old(self).one2one_history,
                n,
            ),
    {
        let me = match &self.personal_info {
            Some(p) => p.name.clone(),
            None => return,
        };
        self.push_personal(target, timestamp, me, ChatEntry::Message(msg));
    }

    /// A message to everyone: it joins the group history, and goes to every
    /// online user but this client.
    pub fn say_to_all(&mut self, msg: String, timestamp: Timestamp) -> (r: Result<Vec<PeerAddr>, Error>)
        requires
            old(self).wf(),
        ensures
            final(self).wf(),
            old(self).personal_info is None ==> r == Err::<Vec<PeerAddr>, Error>(Error::Server(ErrorCode::LoginRequired))
                && *final(self) == *old(self),
            old(self).personal_info matches Some(p) ==> {
                &&& final(self).group_history@ == by_time(old(self).group_history@, 
                    entry_of(timestamp, p.name, ChatEntry::Message(msg)),
                )
                &&& (r matches Ok(addrs) && addrs@.no_duplicates() && addrs@.to_set() == online_others(*old(self), p.ip_address))
            },
            final(self).users == old(self).users,
            final(self).one2one_history == old(self).one2one_history,
    {
        let (me, my_addr) = match &self.personal_info {
            Some(p) => (p.name.clone(), p.ip_address),
            None => return Err(Error::Server(ErrorCode::LoginRequired)),
        };
        let entry = (timestamp, OwnedChatEntry::new(me, ChatEntry::Message(msg)));
        proof {
            lemma_by_time_ordered(self.group_history@, entry);
        }
        insert_by_time(&mut self.group_history, entry);
        let mut addrs: Vec<PeerAddr> = Vec::new();
        let mut i: usize = 0;
        let ghost es = self.users.entries@;
        while i < self.users.entries.len()
            invariant
                es == self.users.entries@,
                i <= es.len(),
                addrs@.no_duplicates(),
                forall|a: PeerAddr| addrs@.contains(a) <==> (a != my_addr && exists|j: int|
                    0 <= j < i && (#[trigger] es[j]).1.online_info is Some && es[j].1.online_info->0.ip_address == a),
            decreases es.len() - i,
        {
            let ghost before = addrs@;
            if let Some(info) = self.users.entries[i].1.online_info {
                if info.ip_address != my_addr && !has_addr(&addrs, info.ip_address) {
                    addrs.push(info.ip_address);
                    proof {
                        assert forall|x: int, y: int| 0 <= x < y < addrs@.len() implies addrs@[x] != addrs@[y] by {
                            if y == addrs@.len() - 1 {
                                assert(before.contains(addrs@[x]) || x >= before.len());
                            }
                        }
                    }
                }
            }
            proof {
                assert forall|a: PeerAddr| addrs@.contains(a) <==> (a != my_addr && exists|j: int|
                    0 <= j < i + 1 && (#[trigger] es[j]).1.online_info is Some && es[j].1.online_info->0.ip_address == a) by {
                    if addrs@.contains(a) {
                        let k = choose|k: int| 0 <= k < addrs@.len() && addrs@[k] == a;
                        if k < before.len() {
                            assert(before.contains(a));
                        } else {
                            assert(es[i as int].1.online_info->0.ip_address == a);
                        }
                    }
                    if a != my_addr && exists|j: int|
                        0 <= j < i + 1 && (#[trigger] es[j]).1.online_info is Some && es[j].1.online_info->0.ip_address == a {
                        let j = choose|j: int|
                            0 <= j < i + 1 && (#[trigger] es[j]).1.online_info is Some && es[j].1.online_info->0.ip_address == a;
                        if j < i {
                            assert(before.contains(a));
                            let k = choose|k: int| 0 <= k < before.len() && before[k] == a;
                            assert(addrs@[k] == a);
                        } else if before.contains(a) {
                            let k = choose|k: int| 0 <= k < before.len() && before[k] == a;
                            assert(addrs@[k] == a);
                        } else {
                            assert(addrs@[addrs@.len() - 1] == a);
                        }
                    }
                }
            }
            i = i + 1;
        }
        Ok(addrs)
    }

    /// Logging out forgets who this client is.
    pub fn logout(&mut self)
        ensures
            final(self).personal_info is None,
            final(self).one2one_history == old(self).one2one_history,
            final(self).group_history == old(self).group_history,
            final(self).users == old(self).users,
            final(self).addr2user == old(self).addr2user,
    {
        self.personal_info = None;
    }
}

/// The outcome of a registration reply.
pub fn register_outcome(r: &Response) -> (o: Result<(), Error>)
    ensures
        match r {
            Ok(ResponseData::Success) => o == Ok::<(), Error>(()),
            Err(ErrorCode::UserExisted) => o == Err::<(), Error>(Error::Server(ErrorCode::UserExisted)),
            _ => o == Err::<(), Error>(Error::UnsupportedResponse),
        },
{
    match r {
        Ok(ResponseData::Success) => Ok(()),
        Err(ErrorCode::UserExisted) => Err(Error::Server(ErrorCode::UserExisted)),
        _ => Err(Error::UnsupportedResponse),
    }
}

/// The outcome of a password change reply.
pub fn change_password_outcome(r: &Response) -> (o: Result<(), Error>)
    ensures
        match r {
            Ok(ResponseData::Success) => o == Ok::<(), Error>(()),
            Err(ErrorCode::InvalidUserOrPass) => o == Err::<(), Error>(Error::Server(ErrorCode::InvalidUserOrPass)),
            Err(ErrorCode::LoginRequired) => o == Err::<(), Error>(Error::Server(ErrorCode::LoginRequired)),
            _ => o == Err::<(), Error>(Error::UnsupportedResponse),
        },
{
    match r {
        Ok(ResponseData::Success) => Ok(()),
        Err(ErrorCode::InvalidUserOrPass) => Err(Error::Server(ErrorCode::InvalidUserOrPass)),
        Err(ErrorCode::LoginRequired) => Err(Error::Server(ErrorCode::LoginRequired)),
        _ => Err(Error::UnsupportedResponse),
    }
}

/// What a datagram meant to the client.
pub enum Incoming {
    /// Send `datagram` back to the source: our answer to its key offer.
    SendBack { datagram: Vec<u8> },
    /// The source answered our key offer.
    KeyExchanged,
    /// The reply to our pending request `id`.
    Reply { id: u16, body: Vec<u8> },
    /// An unsolicited payload, already applied to the state.
    Event { event: ClientEvent },
    /// Nothing usable.
    Dropped,
}

/// A client of the chatroom: its connection to the server and its peers,
/// and its session state.
pub struct Client {
    pub client_addr: PeerAddr,
    pub server_addr: PeerAddr,
    pub state: ClientState,
    pub connection: Connection,
    pub heartbeat_interval_ms: u64,
}

impl Client {
    pub open spec fn wf(&self) -> bool {
        &&& self.state.wf()
        &&& self.connection.wf()
    }

    pub fn new(
        client_addr: PeerAddr,
        server_addr: PeerAddr,
        heartbeat_interval_ms: u64,
        request_timeout_ms: u64,
        retry_limits: u32,
    ) -> (r: Self)
        ensures
            r.wf(),
            r.client_addr == client_addr,
            r.server_addr == server_addr,
            r.heartbeat_interval_ms == heartbeat_interval_ms,
            r.connection.timeout_ms == request_timeout_ms,
            r.connection.retry_limits == retry_limits,
            r.state.personal_info is None,
            r.connection.inner.pub_keys@ == Map::<PeerAddr, [u8; 32]>::empty(),
    {
        Client {
            client_addr,
            server_addr,
            state: ClientState::new(),
            connection: Connection::new(Table::new(), request_timeout_ms, retry_limits),
            heartbeat_interval_ms,
        }
    }

    pub fn get_state(&self) -> (r: &ClientState)
        ensures
            r == &self.state,
    {
        &self.state
    }

    /// The datagram that starts a key exchange with the server.
    pub fn key_offer(&self) -> (r: Vec<u8>)
        ensures
            r@ == crate::messages::enc_secure(crate::data::SecureMsg::MyKey(self.connection.inner.public_key)),
    {
        self.connection.inner.exchange_key_with()
    }

    /// Prepares request `cmd` to the server: a fresh id, its slot, and the
    /// sealed datagram `id || cmd`; no slot stays open on an error.
    pub fn request(&mut self, cmd: &Command) -> (r: Result<(u16, Vec<u8>), Error>)
        requires
            old(self).wf(),
        ensures
            final(self).wf(),
            final(self).state == old(self).state,
            final(self).server_addr == old(self).server_addr,
            request_outcome(old(self).connection, final(self).connection, old(self).server_addr, enc_command(*cmd), r),
    {
        self.connection.request(&Body::Command(clone_command(cmd)), self.server_addr)
    }

    /// Registration: the request carries the digest of the password.
    pub fn register(&mut self, name: String, pass: &str) -> (r: Result<(u16, Vec<u8>), Error>)
        requires
            old(self).wf(),
        ensures
            final(self).wf(),
            final(self).state == old(self).state,
            exists|pw: [u8; 32]|
                pw@ == sha256_of(encode_utf8(trimmed_start(pass@))) && request_outcome(
                    old(self).connection,
                    final(self).connection,
                    old(self).server_addr,
                    enc_command(Command::Register { username: name, password: pw }),
                    r,
                ),
    {
        let password = password_digest(pass);
        self.request(&Command::Register { username: name, password })
    }

    pub fn login(&mut self, name: String, pass: &str) -> (r: Result<(u16, Vec<u8>), Error>)
        requires
            old(self).wf(),
        ensures
            final(self).wf(),
            final(self).state == old(self).state,
            exists|pw: [u8; 32]|
                pw@ == sha256_of(encode_utf8(trimmed_start(pass@))) && request_outcome(
                    old(self).connection,
                    final(self).connection,
                    old(self).server_addr,
                    enc_command(Command::Login { username: name, password: pw }),
                    r,
                ),
    {
        let password = password_digest(pass);
        self.request(&Command::Login { username: name, password })
    }

    pub fn change_password(&mut self, old_pass: &str, new_pass: &str) -> (r: Result<(u16, Vec<u8>), Error>)
        requires
            old(self).wf(),
        ensures
            final(self).wf(),
            final(self).state == old(self).state,
            exists|o: [u8; 32], n: [u8; 32]|
                o@ == sha256_of(encode_utf8(trimmed_start(old_pass@))) && n@ == sha256_of(
                    encode_utf8(trimmed_start(new_pass@)),
                ) && request_outcome(
                    old(self).connection,
                    final(self).connection,
                    old(self).server_addr,
                    enc_command(Command::ChangePassword { old: o, new: n }),
                    r,
                ),
    {
        let old_digest = password_digest(old_pass);
        let new_digest = password_digest(new_pass);
        self.request(&Command::ChangePassword { old: old_digest, new: new_digest })
    }

    pub fn fetch_chatroom_status(&mut self) -> (r: Result<(u16, Vec<u8>), Error>)
        requires
            old(self).wf(),
        ensures
            final(self).wf(),
            final(self).state == old(self).state,
            request_outcome(
                old(self).connection,
                final(self).connection,
                old(self).server_addr,
                enc_command(Command::GetChatroomStatus),
                r,
            ),
    {
        self.request(&Command::GetChatroomStatus)
    }

    /// Logging out forgets who the client is; the returned request tells the
    /// server, whose answer does not matter.
    pub fn logout(&mut self) -> (r: Result<(u16, Vec<u8>), Error>)
        requires
            old(self).wf(),
        ensures
            final(self).wf(),
            final(self).state.personal_info is None,
            final(self).state.users == old(self).state.users,
            final(self).state.group_history == old(self).state.group_history,
            request_outcome(old(self).connection, final(self).connection, old(self).server_addr, enc_command(Command::Logout), r),
    {
        self.state.logout();
        self.request(&Command::Logout)
    }

    /// The sealed heartbeat datagram, untagged.
    pub fn heartbeat(&mut self) -> (r: Result<Vec<u8>, Error>)
        requires
            old(self).wf(),
        ensures
            final(self).wf(),
            final(self).state == old(self).state,
            final(self).connection.mux == old(self).connection.mux,
            !old(self).connection.inner.contexts@.contains_key(old(self).server_addr) ==> r == Err::<Vec<u8>, Error>(
                Error::Connection(crate::channel::Error::NoDestKey),
            ),
            old(self).connection.inner.contexts@.contains_key(old(self).server_addr) ==> {
                let plain = enc_u16(0) + enc_command(Command::Heartbeat);
                &&& final(self).connection.inner.contexts@ == old(self).connection.inner.contexts@.insert(
                    old(self).server_addr,
                    after_seal(old(self).connection.inner.contexts@[old(self).server_addr]),
                )
                &&& match r {
                    Ok(d) => sealed_for(old(self).connection.inner, old(self).server_addr, plain, d@),
                    Err(e) => e == Error::Connection(crate::channel::Error::EncryptionFailed) && next_box(
                        old(self).connection.inner.contexts@[old(self).server_addr],
                        plain,
                    ) is None,
                }
            },
    {
        match self.connection.inner.send_to_with_empty_meta(&Body::Command(Command::Heartbeat), self.server_addr) {
            Ok(d) => Ok(d),
            Err(e) => Err(Error::Connection(e)),
        }
    }

    /// A login reply: on a status snapshot the directory follows it and the
    /// client records who it is.
    pub fn login_reply(&mut self, name: String, r: Response) -> (o: Result<(), Error>)
        requires
            old(self).wf(),
        ensures
            final(self).wf(),
            r is Err && r != Err::<ResponseData, ErrorCode>(ErrorCode::InvalidUserOrPass) ==> o == Err::<(), Error>(Error::UnsupportedResponse),
            r == Err::<ResponseData, ErrorCode>(ErrorCode::InvalidUserOrPass) ==> o == Err::<(), Error>(Error::Server(ErrorCode::InvalidUserOrPass)),
            r == Ok::<ResponseData, ErrorCode>(ResponseData::Success) ==> o == Err::<(), Error>(Error::UnsupportedResponse),
            o is Ok ==> (final(self).state.personal_info matches Some(p) && p.name@ == name@ && final(self).state.users@.contains_key(
                name@,
            ) && final(self).state.users@[name@].online_info is Some && p.ip_address == final(self).state.users@[name@].online_info->0.ip_address),
            r matches Ok(ResponseData::ChatroomStatus { users }) ==> {
                &&& exists|mid: ClientState| status_applied(old(self).state, mid, final(self).connection.inner, users@)
                    && mid.users == final(self).state.users && mid.addr2user == final(self).state.addr2user
                &&& (o is Ok <==> (final(self).state.users@.contains_key(name@) && final(self).state.users@[name@].online_info is Some))
            },
            !(r is Ok && !(r == Ok::<ResponseData, ErrorCode>(ResponseData::Success))) ==> final(self).state == old(self).state,
    {
        match r {
            Ok(ResponseData::ChatroomStatus { users }) => {
                if self.state.login_succeeded(&mut self.connection.inner, name, users) {
                    Ok(())
                } else {
                    Err(Error::UnsupportedResponse)
                }
            },
            Err(ErrorCode::InvalidUserOrPass) => Err(Error::Server(ErrorCode::InvalidUserOrPass)),
            _ => Err(Error::UnsupportedResponse),
        }
    }

    /// A status reply: on a snapshot the directory follows it.
    pub fn fetch_reply(&mut self, r: Response) -> (o: Result<(), Error>)
        requires
            old(self).wf(),
        ensures
            final(self).wf(),
            match r {
                Ok(ResponseData::ChatroomStatus { users }) => o == Ok::<(), Error>(()) && exists|mid: ClientState|
                    status_applied(old(self).state, mid, final(self).connection.inner, users@) && mid.users == final(self).state.users
                        && mid.addr2user == final(self).state.addr2user,
                Err(ErrorCode::LoginRequired) => o == Err::<(), Error>(Error::Server(ErrorCode::LoginRequired)),
                _ => o == Err::<(), Error>(Error::UnsupportedResponse),
            },
    {
        match r {
            Ok(ResponseData::ChatroomStatus { users }) => {
                self.state.refresh_status(&mut self.connection.inner, users);
                Ok(())
            },
            Err(ErrorCode::LoginRequired) => Err(Error::Server(ErrorCode::LoginRequired)),
            _ => Err(Error::UnsupportedResponse),
        }
    }

    /// Sends `msg` to one user, or to every online user when `target` is
    /// `None`: the sealed datagrams to send, each with its address.
    pub fn say(&mut self, msg: String, target: Option<String>, timestamp: Timestamp) -> (r: Result<Vec<(PeerAddr, Vec<u8>)>, Error>)
        requires
            old(self).wf(),
        ensures
            final(self).wf(),
            old(self).state.personal_info is None ==> r == Err::<Vec<(PeerAddr, Vec<u8>)>, Error>(Error::Server(ErrorCode::LoginRequired)),
            old(self).state.personal_info is Some ==> match target {
                Some(t) => {
                    &&& !old(self).state.users@.contains_key(t@) ==> r == Err::<Vec<(PeerAddr, Vec<u8>)>, Error>(Error::UserNotExisted)
                    &&& old(self).state.users@.contains_key(t@) && old(self).state.users@[t@].online_info is None
                        ==> r == Err::<Vec<(PeerAddr, Vec<u8>)>, Error>(Error::UserOffline)
                    &&& old(self).state.users@.contains_key(t@) && old(self).state.users@[t@].online_info is Some ==> {
                        let a = old(self).state.users@[t@].online_info->0.ip_address;
                        let plain = enc_u16(0) + enc_message(Message { to_all: false, timestamp, msg });
                        &&& !old(self).connection.inner.contexts@.contains_key(a) ==> r == Err::<Vec<(PeerAddr, Vec<u8>)>, Error>(
                            Error::Connection(crate::channel::Error::NoDestKey),
                        )
                        &&& old(self).connection.inner.contexts@.contains_key(a) ==> match r {
                            Ok(ds) => ds@.len() == 1 && ds@[0].0 == a && sealed_for(old(self).connection.inner, a, plain, ds@[0].1@)
                                && history_of(final(self).state.one2one_history, t@) == by_time(
                                history_of(old(self).state.one2one_history, t@),
                                entry_of(timestamp, old(self).state.personal_info->0.name, ChatEntry::Message(msg)),
                            ) && final(self).state.group_history == old(self).state.group_history && forall|n: Seq<char>|
                                n != t@ ==> #[trigger] history_of(final(self).state.one2one_history, n) == history_of(
                                    old(self).state.one2one_history,
                                    n,
                                ),
                            Err(e) => e == Error::Connection(crate::channel::Error::EncryptionFailed) && next_box(
                                old(self).connection.inner.contexts@[a],
                                plain,
                            ) is None,
                        }
                    }
                },
                None => {
                    let me = old(self).state.personal_info->0;
                    &&& final(self).state.group_history@ == by_time(old(self).state.group_history@,
                        entry_of(timestamp, me.name, ChatEntry::Message(msg)),
                    )
                    &&& final(self).state.one2one_history == old(self).state.one2one_history
                    &&& r matches Ok(ds) && exists|rs: Seq<PeerAddr>|
                        rs.no_duplicates() && rs.to_set() == online_others(old(self).state, me.ip_address) && #[trigger] fanned_out(
                            old(self).connection.inner,
                            rs,
                            enc_u16(0) + enc_message(Message { to_all: true, timestamp, msg }),
                            ds@,
                        )
                },
            },
            r is Err ==> final(self).state == old(self).state,
    {
        match target {
            Some(t) => {
                let addr = self.state.direct_target(&t)?;
                let m = Message { to_all: false, timestamp, msg: msg.clone() };
                let d = match self.connection.inner.send_to_with_empty_meta(&Body::Message(m), addr) {
                    Ok(d) => d,
                    Err(e) => return Err(Error::Connection(e)),
                };
                self.state.record_direct(&t, msg, timestamp);
                let mut out: Vec<(PeerAddr, Vec<u8>)> = Vec::new();
                out.push((addr, d));
                Ok(out)
            },
            None => {
                let addrs = self.state.say_to_all(msg.clone(), timestamp)?;
                let body = Body::Message(Message { to_all: true, timestamp, msg });
                let ghost plain = enc_u16(0) + enc_body(body);
                let ghost c0 = self.connection.inner;
                let mut out: Vec<(PeerAddr, Vec<u8>)> = Vec::new();
                let mut i: usize = 0;
                let ghost st = self.state;
                proof {
                    assert(addrs@.take(0) =~= Seq::<PeerAddr>::empty());
                }
                while i < addrs.len()
                    invariant
                        self.wf(),
                        self.state == st,
                        i <= addrs@.len(),
                        addrs@.no_duplicates(),
                        c0 == old(self).connection.inner,
                        plain == enc_u16(0) + enc_body(body),
                        self.connection.inner.contexts@.dom() == c0.contexts@.dom(),
                        forall|j: int|
                            i <= j < addrs@.len() && c0.contexts@.contains_key(addrs@[j]) ==> self.connection.inner.contexts@[addrs@[j]]
                                == c0.contexts@[addrs@[j]],
                        fanned_out(c0, addrs@.take(i as int), plain, out@),
                    decreases addrs@.len() - i,
                {
                    let a = addrs[i];
                    let ghost before = self.connection.inner;
                    let ghost out0 = out@;
                    let sent = self.connection.inner.send_to_with_empty_meta(&body, a);
                    if let Ok(d) = sent {
                        out.push((a, d));
                    }
                    proof {
                        let pre = addrs@.take(i as int);
                        assert(addrs@.take(i + 1) =~= pre.push(a));
                        assert forall|j: int|
                            i + 1 <= j < addrs@.len() && c0.contexts@.contains_key(addrs@[j]) implies self.connection.inner.contexts@[addrs@[j]]
                                == c0.contexts@[addrs@[j]] by {
                            assert(addrs@[j] != addrs@[i as int]);
                        }
                        assert forall|k: int| 0 <= k < pre.len() implies pre[k] != a by {
                            assert(pre[k] == addrs@[k]);
                        }
                        lemma_fanned_out_step(c0, before, pre, a, plain, out0, out@, sent);
                    }
                    i = i + 1;
                }
                proof {
                    assert(addrs@.take(addrs@.len() as int) =~= addrs@);
                }
                Ok(out)
            },
        }
    }

    /// Handles one datagram from `source`.
    pub fn receive_datagram(&mut self, source: PeerAddr, datagram: &[u8]) -> (r: Incoming)
        requires
            old(self).wf(),
        ensures
            final(self).wf(),
            final(self).server_addr == old(self).server_addr,
            r matches Incoming::Reply { id, body } ==> (old(self).connection.mux.pending_set().contains((source, id))
                && final(self).connection.mux.pending_set() == old(self).connection.mux.pending_set().remove((source, id))
                && final(self).state == old(self).state && opened_to(
                old(self).connection.inner,
                final(self).connection.inner,
                source,
                datagram@,
                frame_bytes(id, body@),
            )),
            r matches Incoming::Event { event } ==> exists|body: Seq<u8>, mid: Connection|
                unsolicited_from(old(self).connection, mid, source, datagram@, body) && mid.mux == final(self).connection.mux
                    && #[trigger] received(
                    old(self).state,
                    final(self).state,
                    mid.inner,
                    final(self).connection.inner,
                    old(self).server_addr,
                    source,
                    body,
                    event,
                ),
            r is SendBack || r is KeyExchanged || r is Dropped ==> final(self).state == old(self).state
                && final(self).connection.mux.pending_set() == old(self).connection.mux.pending_set(),
            forall|p: Seq<u8>| #[trigger] opens_to(old(self).connection.inner, source, datagram@, p) ==> {
                let id = frame_id(p);
                let pending = old(self).connection.mux.pending_set();
                &&& p.len() >= 2 && id != 0 && pending.contains((source, id)) ==> (r matches Incoming::Reply { id: i, body } && i
                    == id && body@ == p.skip(2)) && final(self).state == old(self).state
                    && final(self).connection.mux.pending_set() == pending.remove((source, id))
                &&& p.len() >= 2 && !(id != 0 && pending.contains((source, id))) ==> (r matches Incoming::Event { event } && exists|
                    mid: SecureConnection,
                |
                    opened_to(old(self).connection.inner, mid, source, datagram@, p) && #[trigger] received(
                        old(self).state,
                        final(self).state,
                        mid,
                        final(self).connection.inner,
                        old(self).server_addr,
                        source,
                        p.skip(2),
                        event,
                    )) && final(self).connection.mux.pending_set() == pending
                &&& p.len() < 2 ==> r is Dropped
            },
            forall|k: [u8; 32]| #[trigger] at(datagram@, 0, enc_secure(SecureMsg::MyKey(k))) ==> {
                &&& r matches Incoming::SendBack { datagram: d } && d@ == enc_secure(
                    SecureMsg::PeerKey(old(self).connection.inner.public_key),
                )
                &&& final(self).connection.inner.pub_keys@ == old(self).connection.inner.pub_keys@.insert(source, k)
            },
            forall|k: [u8; 32]| #[trigger] at(datagram@, 0, enc_secure(SecureMsg::PeerKey(k))) ==> {
                &&& r is KeyExchanged
                &&& final(self).connection.inner.pub_keys@ == old(self).connection.inner.pub_keys@.insert(source, k)
            },
    {
        match self.connection.receive(source, datagram) {
            Delivery::SendBack { datagram, .. } => Incoming::SendBack { datagram },
            Delivery::KeyInstalled { .. } => Incoming::KeyExchanged,
            Delivery::Dropped { .. } => Incoming::Dropped,
            Delivery::Reply { id, body } => Incoming::Reply { id, body },
            Delivery::Unsolicited { body } => {
                let ghost mid = self.connection;
                let dlen = datagram.len();
                let event = self.state.on_receive(&mut self.connection.inner, self.server_addr, source, body.as_slice());
                proof {
                    assert(received(old(self).state, self.state, mid.inner, self.connection.inner, old(self).server_addr, source, body@, event));
                    assert forall|p: Seq<u8>| #[trigger] opens_to(old(self).connection.inner, source, datagram@, p) && p.len() >= 2 implies
                        opened_to(old(self).connection.inner, mid.inner, source, datagram@, p) && p.skip(2) == body@ by {
                        let id0 = choose|id0: u16| !(id0 != 0 && old(self).connection.mux.pending_set().contains((source, id0))) && opened_to(
                            old(self).connection.inner, mid.inner, source, datagram@, #[trigger] frame_bytes(id0, body@));
                        lemma_opened_unique(old(self).connection.inner, mid.inner, source, datagram@, p, frame_bytes(id0, body@));
                    }
                }
                Incoming::Event { event }
            },
        }
    }
}

/// A copy of a command.
pub fn clone_command(c: &Command) -> (r: Command)
    ensures
        r == *c,
{
    match c {
        Command::Register { username, password } => Command::Register { username: username.clone(), password: *password },
        Command::Login { username, password } => Command::Login { username: username.clone(), password: *password },
        Command::ChangePassword { old, new } => Command::ChangePassword { old: *old, new: *new },
        Command::GetChatroomStatus => Command::GetChatroomStatus,
        Command::Heartbeat => Command::Heartbeat,
        Command::Logout => Command::Logout,
    }
}

} // verus!
