//! The server's session manager: the user directory, the address bindings of
//! logged-in users, their activity timers, and the presence notifications.
//!
//! The manager is a state machine. The host hands it each decoded request and
//! each timer that fired, and carries out the actions that it returns: replies,
//! timers to start or cancel, and notifications to send.

use crate::data::{
    Command, ErrorCode, Notification, PeerAddr, Response, ResponseData, Timestamp, User,
    UserEssential, UserInfo, UserOnlineInfo,
};
use crate::password::{
    argon2_accepts, argon2_encoded, hash_password, random_salt, verify_password,
};
use crate::channel::{next_box, nth_nonce, sealed_for, Error, PeerContext, Received, SecureConnection};
use crate::crypto::box_sealed;
use crate::codec::{at, enc_u16, parse_u16};
use crate::data::SecureMsg;
use crate::messages::{enc_body, enc_command, enc_notification, enc_response, enc_secure, lemma_command_unique, parse_command, same_command, Body};
use crate::mux::frame_id;
use crate::connection::opened_to;
use crate::table::{keys_unique, lemma_key_has_pair, lemma_pair_in_map, Table};
use vstd::prelude::*;

verus! {

broadcast use crate::codec::lemma_be_len;

/// What the host does on behalf of the session manager.
pub enum ServerAction {
    /// Send `response` to `to`, tagged with the request's `id`.
    Reply { to: PeerAddr, id: u16, response: Response },
    /// Replace the activity timer of `name` by one that reports `token` when it fires.
    StartTimer { name: String, token: u64 },
    /// Drop the activity timer of `name`.
    CancelTimer { name: String },
    /// Send `notification`, untagged, to each of `recipients`.
    Announce { recipients: Vec<PeerAddr>, notification: Notification },
}

pub struct ServerState {
    pub users: Table<String, User>,
    pub addr2user: Table<PeerAddr, String>,
    /// For each logged-in user, the token of its current activity timer.
    pub user_active_timers: Table<String, u64>,
    /// The public key that the channel holds for each peer address.
    pub pub_keys: Table<PeerAddr, [u8; 32]>,
    pub heartbeat_interval_ms: u64,
    /// Every timer token handed out so far is below this one.
    pub next_timer: u64,
}

/// `u` is the record of the last of the first `n` essentials named `name`.
pub open spec fn last_given(es: Seq<(String, UserEssential)>, n: int, name: Seq<char>, u: User) -> bool {
    exists|j: int|
        0 <= j < n && (#[trigger] es[j]).0@ == name && u.password_hash == es[j].1.password_hash && u.name@ == name
            && forall|k: int| j < k < n ==> es[k].0@ != name
}

/// The addresses bound to a user other than `name`.
pub open spec fn others_of(a2u: Map<PeerAddr, String>, name: Seq<char>) -> Set<PeerAddr> {
    Set::new(|a: PeerAddr| a2u.contains_key(a) && a2u[a]@ != name)
}

/// A user record with its online information cleared.
pub open spec fn offline(u: User) -> User {
    User { name: u.name, password_hash: u.password_hash, online_info: None }
}

/// `token` is the live activity timer of `name`.
pub open spec fn timer_is_current(s: ServerState, name: Seq<char>, token: u64) -> bool {
    s.user_active_timers@.contains_key(name) && s.user_active_timers@[name] == token
}

/// A user record marked online at `addr` with `key`.
pub open spec fn online(u: User, addr: PeerAddr, key: [u8; 32]) -> User {
    User {
        name: u.name,
        password_hash: u.password_hash,
        online_info: Some(UserOnlineInfo { ip_address: addr, pub_key: key }),
    }
}

/// The directory knows `name` and its stored hash accepts `pwd`.
pub open spec fn login_accepted(s: ServerState, name: Seq<char>, pwd: Seq<u8>) -> bool {
    s.users@.contains_key(name) && argon2_accepts(s.users@[name].password_hash@, pwd)
}

/// `infos` is the status of each user of `entries`, in order.
pub open spec fn lists_users(infos: Seq<UserInfo>, entries: Seq<(String, User)>) -> bool {
    &&& infos.len() == entries.len()
    &&& forall|i: int| #![trigger infos[i]] 0 <= i < infos.len() ==> {
        &&& infos[i].name == entries[i].1.name
        &&& infos[i].online_info == entries[i].1.online_info
    }
}

/// The payload holds an id and a command.
pub open spec fn decodes_command(p: Seq<u8>) -> bool {
    p.len() >= 2 && exists|c: Command| #[trigger] at(p, 2, enc_command(c))
}

/// The effect of a heartbeat from `source` whose user is logged in: the
/// user's timer is replaced by one with the next token.
pub open spec fn renewed(s0: ServerState, s1: ServerState, source: PeerAddr) -> bool {
    let name = s0.addr2user@[source]@;
    &&& s1.user_active_timers@ == s0.user_active_timers@.insert(name, s0.next_timer)
    &&& s1.next_timer == s0.next_timer + 1
    &&& s1.users == s0.users
    &&& s1.addr2user == s0.addr2user
    &&& s1.pub_keys == s0.pub_keys
}

/// What `register` does, from state `s0` to state `s1`, with result `r`.
pub open spec fn register_post(s0: ServerState, s1: ServerState, username: String, password: [u8; 32], r: Response) -> bool {
    &&& s0.users@.contains_key(username@) ==> r == Err::<ResponseData, ErrorCode>(ErrorCode::UserExisted) && s1 == s0
    &&& !s0.users@.contains_key(username@) ==> {
        &&& r == Ok::<ResponseData, ErrorCode>(ResponseData::Success)
        &&& exists|h: String, salt: Seq<u8>|
            salt.len() == 32 && h@ == argon2_encoded(password@, salt) && argon2_accepts(h@, password@) && s1.users@ == s0.users@.insert(
                username@,
                User { name: username, password_hash: h, online_info: None },
            )
    }
    &&& s1.addr2user == s0.addr2user
    &&& s1.user_active_timers == s0.user_active_timers
    &&& s1.pub_keys == s0.pub_keys
    &&& s1.next_timer == s0.next_timer
    &&& s1.heartbeat_interval_ms == s0.heartbeat_interval_ms
}

/// What `heartbeat` does, from state `s0` to state `s1`, with result `r`.
pub open spec fn heartbeat_post(s0: ServerState, s1: ServerState, source: PeerAddr, r: Option<ServerAction>) -> bool {
    &&& s1.users == s0.users
    &&& s1.addr2user == s0.addr2user
    &&& s1.pub_keys == s0.pub_keys
    &&& s0.logged_in_at(source) ==> {
        &&& renewed(s0, s1, source)
        &&& r matches Some(ServerAction::StartTimer { name: n, token }) && n@ == s0.addr2user@[source]@
            && token == s0.next_timer
    }
    &&& !s0.logged_in_at(source) ==> s1 == s0 && r is None
}

/// What `logout` does, from state `s0` to state `s1`, with result `r`.
pub open spec fn logout_post(s0: ServerState, s1: ServerState, source: PeerAddr, now: Timestamp, r: (Response, Vec<ServerAction>)) -> bool {
    &&& s0.addr2user@.contains_key(source) ==> {
        let name = s0.addr2user@[source]@;
        let u = s0.users@[name];
        &&& s1.users@ == s0.users@.insert(name, offline(u))
        &&& s1.addr2user@ == s0.addr2user@.remove(source)
        &&& s1.user_active_timers@ == s0.user_active_timers@.remove(name)
        &&& s1.pub_keys == s0.pub_keys
        &&& r.0 == Ok::<ResponseData, ErrorCode>(ResponseData::Success)
        &&& r.1@.len() == 2
        &&& r.1@[0] matches ServerAction::CancelTimer { name: n } && n@ == name
        &&& r.1@[1] matches ServerAction::Announce { recipients, notification } && {
            &&& recipients@.to_set() == others_of(s1.addr2user@, name)
            &&& notification matches Notification::Offline { timestamp, name: n } && n@ == name && timestamp == now
        }
    }
    &&& !s0.addr2user@.contains_key(source) ==> s1 == s0 && r.0 == Err::<ResponseData, ErrorCode>(
        ErrorCode::LoginRequired,
    ) && r.1@.len() == 0
}

/// What `login` does, from state `s0` to state `s1`, with result `r`.
pub open spec fn login_post(
    s0: ServerState,
    s1: ServerState,
    source: PeerAddr,
    username: String,
    password: [u8; 32],
    now: Timestamp,
    r: (Response, Vec<ServerAction>),
) -> bool {
    &&& !login_accepted(s0, username@, password@) ==> r.0 == Err::<ResponseData, ErrorCode>(
        ErrorCode::InvalidUserOrPass,
    ) && s1 == s0 && r.1@.len() == 0
    &&& login_accepted(s0, username@, password@) && !s0.pub_keys@.contains_key(source) ==> r.0 == Err::<
        ResponseData,
        ErrorCode,
    >(ErrorCode::ConnectionNotSecure) && s1 == s0 && r.1@.len() == 0
    &&& login_accepted(s0, username@, password@) && s0.pub_keys@.contains_key(source) ==> {
        let info = UserOnlineInfo { ip_address: source, pub_key: s0.pub_keys@[source] };
        &&& s1.addr2user@.contains_key(source)
        &&& s1.addr2user@[source]@ == username@
        &&& s1.users@.contains_key(username@)
        &&& s1.users@[username@].online_info == Some(info)
        &&& s1.user_active_timers@.contains_key(username@)
        &&& s1.pub_keys == s0.pub_keys
        &&& r.0 matches Ok(ResponseData::ChatroomStatus { users }) && lists_users(users@, s1.users.entries@)
        &&& forall|n: Seq<char>|
            n != username@ && !(s0.addr2user@.contains_key(source) && s0.addr2user@[source]@ == n) ==> (
            #[trigger] s1.users@.contains_key(n) == s0.users@.contains_key(n) && (s0.users@.contains_key(n) ==> s1.users@[n]
                == s0.users@[n]))
        &&& s0.addr2user@.contains_key(source) && s0.addr2user@[source]@ != username@ ==> {
            let v = s0.addr2user@[source]@;
            &&& r.1@.len() == 4
            &&& s1.users@[v] == offline(s0.users@[v])
            &&& !s1.user_active_timers@.contains_key(v)
            &&& r.1@[0] matches ServerAction::CancelTimer { name: n } && n@ == v
            &&& r.1@[1] matches ServerAction::Announce { recipients, notification } && recipients@.to_set()
                == others_of(s1.addr2user@, v) && recipients@.no_duplicates() && (
            notification matches Notification::Offline { timestamp, name: n } && n@ == v && timestamp == now)
        }
        &&& !(s0.addr2user@.contains_key(source) && s0.addr2user@[source]@ != username@) ==> r.1@.len() == 2
        &&& r.1@.len() >= 2
        &&& r.1@[r.1@.len() - 2] matches ServerAction::StartTimer { name: n, token } && n@ == username@
            && token == s1.user_active_timers@[username@]
        &&& r.1@.last() matches ServerAction::Announce { recipients, notification } && {
            &&& recipients@.to_set() == others_of(s1.addr2user@, username@)
            &&& notification matches Notification::Online { timestamp, name: n, info: i } && n@ == username@
                && i == info && timestamp == now
        }
    }
}

/// What `change_password` does, from state `s0` to state `s1`, with result `r`.
pub open spec fn change_password_post(
    s0: ServerState,
    s1: ServerState,
    source: PeerAddr,
    old_pwd: [u8; 32],
    new_pwd: [u8; 32],
    r: Response,
) -> bool {
    &&& !s0.logged_in_at(source) ==> r == Err::<ResponseData, ErrorCode>(ErrorCode::LoginRequired) && s1 == s0
    &&& s0.logged_in_at(source) && !login_accepted(s0, s0.addr2user@[source]@, old_pwd@) ==> r == Err::<
        ResponseData,
        ErrorCode,
    >(ErrorCode::InvalidUserOrPass) && s1 == s0
    &&& s0.logged_in_at(source) && login_accepted(s0, s0.addr2user@[source]@, old_pwd@) ==> {
        let name = s0.addr2user@[source]@;
        let u = s0.users@[name];
        &&& r == Ok::<ResponseData, ErrorCode>(ResponseData::Success)
        &&& exists|h: String, salt: Seq<u8>|
            salt.len() == 32 && h@ == argon2_encoded(new_pwd@, salt) && argon2_accepts(h@, new_pwd@) && s1.users@ == s0.users@.insert(
                name,
                User { name: u.name, password_hash: h, online_info: u.online_info },
            )
    }
    &&& s1.addr2user == s0.addr2user
    &&& s1.user_active_timers == s0.user_active_timers
    &&& s1.pub_keys == s0.pub_keys
    &&& s1.next_timer == s0.next_timer
    &&& s1.heartbeat_interval_ms == s0.heartbeat_interval_ms
}

/// What `chatroom_status` answers in state `s` to a caller at `source`.
pub open spec fn status_post(s: ServerState, source: PeerAddr, r: Response) -> bool {
    &&& !s.logged_in_at(source) ==> r == Err::<ResponseData, ErrorCode>(ErrorCode::LoginRequired)
    &&& s.logged_in_at(source) ==> (r matches Ok(ResponseData::ChatroomStatus { users }) && lists_users(
        users@,
        s.users.entries@,
    ))
}

/// The actions of a heartbeat: the renewal, if any.
pub open spec fn heartbeat_actions(o: Option<ServerAction>) -> Seq<ServerAction> {
    match o {
        Some(a) => seq![a],
        None => Seq::empty(),
    }
}

/// What `process` does with command `c` tagged `id` from `source`: the
/// handler's effect, and the handler's actions followed by one reply with
/// its response (none for a heartbeat).
pub open spec fn dispatched(
    s0: ServerState,
    s1: ServerState,
    source: PeerAddr,
    id: u16,
    c: Command,
    now: Timestamp,
    acts: Seq<ServerAction>,
) -> bool {
    match c {
        Command::Register { username, password } => exists|u: String, resp: Response|
            u@ == username@ && #[trigger] register_post(s0, s1, u, password, resp) && acts == seq![
                ServerAction::Reply { to: source, id, response: resp },
            ],
        Command::Login { username, password } => exists|u: String, out: (Response, Vec<ServerAction>)|
            u@ == username@ && #[trigger] login_post(s0, s1, source, u, password, now, out) && acts
                == out.1@.push(ServerAction::Reply { to: source, id, response: out.0 }),
        Command::ChangePassword { old, new } => exists|resp: Response|
            #[trigger] change_password_post(s0, s1, source, old, new, resp) && acts == seq![
                ServerAction::Reply { to: source, id, response: resp },
            ],
        Command::GetChatroomStatus => s1 == s0 && exists|resp: Response|
            #[trigger] status_post(s0, source, resp) && acts == seq![ServerAction::Reply { to: source, id, response: resp }],
        Command::Heartbeat => exists|o: Option<ServerAction>|
            #[trigger] heartbeat_post(s0, s1, source, o) && acts == heartbeat_actions(o),
        Command::Logout => exists|out: (Response, Vec<ServerAction>)|
            #[trigger] logout_post(s0, s1, source, now, out) && acts == out.1@.push(
                ServerAction::Reply { to: source, id, response: out.0 },
            ),
    }
}

impl ServerState {
    pub open spec fn online_consistent(&self) -> bool {
        forall|n: Seq<char>| #[trigger]
            self.users@.contains_key(n) ==> {
                let u = self.users@[n];
                &&& u.name@ == n
                &&& u.online_info is Some ==> {
                    let i = u.online_info->0;
                    &&& self.addr2user@.contains_key(i.ip_address)
                    &&& self.addr2user@[i.ip_address]@ == n
                    &&& self.user_active_timers@.contains_key(n)
                    &&& self.pub_keys@.contains_key(i.ip_address)
                    &&& self.pub_keys@[i.ip_address] == i.pub_key
                }
            }
    }

    pub open spec fn bindings_consistent(&self) -> bool {
        forall|a: PeerAddr| #[trigger]
            self.addr2user@.contains_key(a) ==> {
                let n = self.addr2user@[a]@;
                &&& self.users@.contains_key(n)
                &&& self.users@[n].online_info is Some
                &&& self.users@[n].online_info->0.ip_address == a
            }
    }

    pub open spec fn timers_consistent(&self) -> bool {
        forall|n: Seq<char>| #[trigger]
            self.user_active_timers@.contains_key(n) ==> {
                &&& self.users@.contains_key(n)
                &&& self.users@[n].online_info is Some
                &&& self.user_active_timers@[n] < self.next_timer
            }
    }

    /// A user is online exactly when its address is bound to it, it has a live
    /// timer, and its key is the one the channel holds for that address.
    pub open spec fn wf(&self) -> bool {
        &&& self.users.wf()
        &&& self.addr2user.wf()
        &&& self.user_active_timers.wf()
        &&& self.pub_keys.wf()
        &&& self.online_consistent()
        &&& self.bindings_consistent()
        &&& self.timers_consistent()
    }

    /// Whether `a` is bound to a user that is logged in.
    pub open spec fn logged_in_at(&self, a: PeerAddr) -> bool {
        self.addr2user@.contains_key(a) && self.user_active_timers@.contains_key(
            self.addr2user@[a]@,
        )
    }

    pub fn new(heartbeat_interval_ms: u64) -> (r: Self)
        ensures
            r.wf(),
            r.users@ == Map::<Seq<char>, User>::empty(),
            r.addr2user@ == Map::<PeerAddr, String>::empty(),
            r.user_active_timers@ == Map::<Seq<char>, u64>::empty(),
            r.pub_keys@ == Map::<PeerAddr, [u8; 32]>::empty(),
            r.heartbeat_interval_ms == heartbeat_interval_ms,
    {
        ServerState {
            users: Table::new(),
            addr2user: Table::new(),
            user_active_timers: Table::new(),
            pub_keys: Table::new(),
            heartbeat_interval_ms,
            next_timer: 0,
        }
    }

    /// A server whose directory holds the given users, none of them online; a
    /// later entry for a name replaces an earlier one.
    pub fn from_user_essentials(heartbeat_interval_ms: u64, essentials: Vec<(String, UserEssential)>) -> (r: Self)
        ensures
            r.wf(),
            r.heartbeat_interval_ms == heartbeat_interval_ms,
            r.addr2user@ == Map::<PeerAddr, String>::empty(),
            r.user_active_timers@ == Map::<Seq<char>, u64>::empty(),
            forall|n: Seq<char>|
                r.users@.contains_key(n) <==> exists|i: int|
                    0 <= i < essentials@.len() && (#[trigger] essentials@[i]).0@ == n,
            forall|n: Seq<char>| #[trigger]
                r.users@.contains_key(n) ==> r.users@[n].online_info is None,
            forall|n: Seq<char>| #[trigger]
                r.users@.contains_key(n) ==> last_given(essentials@, essentials@.len() as int, n, r.users@[n]),
    {
        let mut state = ServerState::new(heartbeat_interval_ms);
        let mut i: usize = 0;
        while i < essentials.len()
            invariant
                i <= essentials@.len(),
                state.wf(),
                state.heartbeat_interval_ms == heartbeat_interval_ms,
                state.addr2user@ == Map::<PeerAddr, String>::empty(),
                state.user_active_timers@ == Map::<Seq<char>, u64>::empty(),
                forall|n: Seq<char>|
                    state.users@.contains_key(n) <==> exists|j: int|
                        0 <= j < i && (#[trigger] essentials@[j]).0@ == n,
                forall|n: Seq<char>| #[trigger]
                    state.users@.contains_key(n) ==> state.users@[n].online_info is None,
                forall|n: Seq<char>| #[trigger]
                    state.users@.contains_key(n) ==> last_given(essentials@, i as int, n, state.users@[n]),
            decreases essentials@.len() - i,
        {
            let name = essentials[i].0.clone();
            let data = UserEssential { password_hash: essentials[i].1.password_hash.clone() };
            let user = User::from_essential(name.clone(), data);
            state.users.insert(name, user);
            proof {
                assert forall|n: Seq<char>| #[trigger]
                    state.users@.contains_key(n) implies last_given(essentials@, i + 1, n, state.users@[n]) by {
                    if n == essentials@[i as int].0@ {
                        assert(essentials@[i as int].0@ == n);
                    } else {
                        let j = choose|j: int|
                            0 <= j < i && (#[trigger] essentials@[j]).0@ == n && state.users@[n].password_hash
                                == essentials@[j].1.password_hash && state.users@[n].name@ == n && forall|k: int|
                                j < k < i ==> essentials@[k].0@ != n;
                        assert(0 <= j < i + 1 && essentials@[j].0@ == n);
                    }
                }
                assert forall|n: Seq<char>|
                    state.users@.contains_key(n) implies exists|j: int|
                        0 <= j < i + 1 && (#[trigger] essentials@[j]).0@ == n by {
                    if n == essentials@[i as int].0@ {
                        assert(essentials@[i as int].0@ == n);
                    }
                }
            }
            i = i + 1;
        }
        state
    }

    /// What of each user outlives the server: its name and its password hash.
    pub fn get_user_essentials(&self) -> (r: Vec<(String, UserEssential)>)
        requires
            self.users.wf(),
        ensures
            r@.len() == self.users.entries@.len(),
            forall|i: int| #![trigger r@[i]] 0 <= i < r@.len() ==> {
                &&& r@[i].0 == self.users.entries@[i].0
                &&& r@[i].1.password_hash == self.users.entries@[i].1.password_hash
            },
    {
        let mut r: Vec<(String, UserEssential)> = Vec::new();
        let mut i: usize = 0;
        while i < self.users.entries.len()
            invariant
                i <= self.users.entries@.len(),
                r@.len() == i,
                forall|k: int| #![trigger r@[k]] 0 <= k < i ==> {
                    &&& r@[k].0 == self.users.entries@[k].0
                    &&& r@[k].1.password_hash == self.users.entries@[k].1.password_hash
                },
            decreases self.users.entries@.len() - i,
        {
            let entry = &self.users.entries[i];
            r.push((entry.0.clone(), UserEssential::of_user(&entry.1)));
            i = i + 1;
        }
        r
    }

    /// The addresses to notify of a presence change of `name`: every bound
    /// address whose user is someone else.
    pub fn recipients_except(&self, name: &String) -> (r: Vec<PeerAddr>)
        requires
            self.addr2user.wf(),
        ensures
            r@.to_set() == others_of(self.addr2user@, name@),
            r@.no_duplicates(),
    {
        let mut r: Vec<PeerAddr> = Vec::new();
        let mut i: usize = 0;
        let ghost es = self.addr2user.entries@;
        while i < self.addr2user.entries.len()
            invariant
                es == self.addr2user.entries@,
                keys_unique(es),
                i <= es.len(),
                r@.no_duplicates(),
                forall|a: PeerAddr|
                    r@.contains(a) <==> exists|j: int|
                        0 <= j < i && (#[trigger] es[j]).0 == a && es[j].1@ != name@,
            decreases es.len() - i,
        {
            let entry = &self.addr2user.entries[i];
            let ghost before = r@;
            if entry.1 != *name {
                proof {
                    assert forall|k: int| 0 <= k < r@.len() implies r@[k] != entry.0 by {
                        assert(r@.contains(r@[k]));
                        let j = choose|j: int|
                            0 <= j < i && (#[trigger] es[j]).0 == r@[k] && es[j].1@ != name@;
                        assert(es[j].0@ != es[i as int].0@);
                    }
                }
                r.push(entry.0);
            }
            proof {
                assert forall|a: PeerAddr|
                    r@.contains(a) <==> exists|j: int|
                        0 <= j < i + 1 && (#[trigger] es[j]).0 == a && es[j].1@ != name@ by {
                    if r@.contains(a) {
                        let k = choose|k: int| 0 <= k < r@.len() && r@[k] == a;
                        if k < before.len() {
                            assert(before.contains(a));
                        } else {
                            assert(es[i as int].0 == a);
                        }
                    }
                    if exists|j: int| 0 <= j < i + 1 && (#[trigger] es[j]).0 == a && es[j].1@ != name@ {
                        let j = choose|j: int| 0 <= j < i + 1 && (#[trigger] es[j]).0 == a && es[j].1@ != name@;
                        if j < i {
                            assert(before.contains(a));
                            let k = choose|k: int| 0 <= k < before.len() && before[k] == a;
                            assert(r@[k] == a);
                        } else {
                            assert(r@[r@.len() - 1] == a);
                        }
                    }
                }
            }
            i = i + 1;
        }
        proof {
            let m = self.addr2user@;
            assert forall|a: PeerAddr| r@.to_set().contains(a) <==> others_of(m, name@).contains(a) by {
                if r@.contains(a) {
                    let j = choose|j: int| 0 <= j < es.len() && (#[trigger] es[j]).0 == a && es[j].1@ != name@;
                    lemma_pair_in_map(es, j);
                }
                if others_of(m, name@).contains(a) {
                    lemma_key_has_pair(es, a);
                    let j = choose|j: int| 0 <= j < es.len() && (#[trigger] es[j]).0@ == a;
                    lemma_pair_in_map(es, j);
                }
            }
            assert(r@.to_set() =~= others_of(m, name@));
        }
        r
    }

    /// The status of every user, in directory order.
    pub fn snapshot(&self) -> (r: Vec<UserInfo>)
        requires
            self.users.wf(),
        ensures
            r@.len() == self.users.entries@.len(),
            forall|i: int| #![trigger r@[i]] 0 <= i < r@.len() ==> {
                &&& r@[i].name == self.users.entries@[i].1.name
                &&& r@[i].online_info == self.users.entries@[i].1.online_info
            },
    {
        let mut r: Vec<UserInfo> = Vec::new();
        let mut i: usize = 0;
        while i < self.users.entries.len()
            invariant
                i <= self.users.entries@.len(),
                r@.len() == i,
                forall|k: int| #![trigger r@[k]] 0 <= k < i ==> {
                    &&& r@[k].name == self.users.entries@[k].1.name
                    &&& r@[k].online_info == self.users.entries@[k].1.online_info
                },
            decreases self.users.entries@.len() - i,
        {
            r.push(UserInfo::new(&self.users.entries[i].1));
            i = i + 1;
        }
        r
    }

    fn fresh_token(&mut self) -> (t: u64)
        requires
            old(self).next_timer < u64::MAX,
        ensures
            t == old(self).next_timer,
            final(self).next_timer == t + 1,
            final(self).users == old(self).users,
            final(self).addr2user == old(self).addr2user,
            final(self).user_active_timers == old(self).user_active_timers,
            final(self).pub_keys == old(self).pub_keys,
            final(self).heartbeat_interval_ms == old(self).heartbeat_interval_ms,
    {
        let t = self.next_timer;
        self.next_timer = t + 1;
        t
    }

    /// Adds `username` to the directory, offline, with its password hashed under
    /// a fresh salt; refused when the name is taken.
    pub fn register(&mut self, username: String, password: &[u8; 32]) -> (r: Response)
        requires
            old(self).wf(),
        ensures
            final(self).wf(),
            register_post(*old(self), *final(self), username, *password, r),

    {
        if self.users.contains(&username) {
            return Err(ErrorCode::UserExisted);
        }
        let salt = random_salt();
        let h = hash_password(password, &salt);
        let user = User { name: username.clone(), password_hash: h, online_info: None };
        let ghost u = user;
        self.users.insert(username, user);
        proof {
            assert(salt@.len() == 32);
            assert(self.users@ == old(self).users@.insert(u.name@, u));
        }
        Ok(ResponseData::Success)
    }

    /// Renews the activity timer of the user logged in at `source`; does
    /// nothing for an address that no logged-in user holds.
    pub fn heartbeat(&mut self, source: PeerAddr) -> (r: Option<ServerAction>)
        requires
            old(self).wf(),
            old(self).next_timer < u64::MAX,
        ensures
            final(self).wf(),
            heartbeat_post(*old(self), *final(self), source, r),

    {
        let name = match self.addr2user.get(&source) {
            Some(n) => n.clone(),
            None => return None,
        };
        if !self.user_active_timers.contains(&name) {
            return None;
        }
        let token = self.fresh_token();
        self.user_active_timers.insert(name.clone(), token);
        Some(ServerAction::StartTimer { name, token })
    }

    /// Takes the online user `name` offline: its timer goes, its address is
    /// unbound, and its record loses the online information.
    fn take_offline(&mut self, name: &String)
        requires
            old(self).wf(),
            old(self).users@.contains_key(name@),
            old(self).users@[name@].online_info is Some,
        ensures
            final(self).wf(),
            ({
                let u = old(self).users@[name@];
                &&& final(self).users@ == old(self).users@.insert(name@, offline(u))
                &&& final(self).addr2user@ == old(self).addr2user@.remove(u.online_info->0.ip_address)
                &&& final(self).user_active_timers@ == old(self).user_active_timers@.remove(name@)
            }),
            final(self).pub_keys == old(self).pub_keys,
            final(self).next_timer == old(self).next_timer,
            final(self).heartbeat_interval_ms == old(self).heartbeat_interval_ms,
    {
        let ghost u0 = self.users@[name@];
        let _ = self.user_active_timers.remove(name);
        let mut user = self.users.remove(name).unwrap();
        let addr = user.online_info.unwrap().ip_address;
        user.online_info = None;
        self.users.insert(name.clone(), user);
        let _ = self.addr2user.remove(&addr);
        proof {
            assert(user == offline(u0));
            let s = *self;
            assert forall|a: PeerAddr| #[trigger] s.addr2user@.contains_key(a) implies {
                let n = s.addr2user@[a]@;
                &&& s.users@.contains_key(n)
                &&& s.users@[n].online_info is Some
                &&& s.users@[n].online_info->0.ip_address == a
            } by {
                assert(old(self).addr2user@.contains_key(a));
            }
            assert forall|n: Seq<char>| #[trigger] s.users@.contains_key(n) implies {
                let v = s.users@[n];
                &&& v.name@ == n
                &&& v.online_info is Some ==> {
                    let i = v.online_info->0;
                    &&& s.addr2user@.contains_key(i.ip_address)
                    &&& s.addr2user@[i.ip_address]@ == n
                    &&& s.user_active_timers@.contains_key(n)
                    &&& s.pub_keys@.contains_key(i.ip_address)
                    &&& s.pub_keys@[i.ip_address] == i.pub_key
                }
            } by {
                if n != name@ {
                    assert(old(self).users@.contains_key(n));
                }
            }
        }
    }

    /// The activity timer of `name` with `token` fired. If it is still the
    /// user's current timer, the user goes offline and every other bound
    /// address is told; a timer that was renewed or cancelled since is ignored.
    pub fn expire(&mut self, name: &String, token: u64, now: Timestamp) -> (r: Option<ServerAction>)
        requires
            old(self).wf(),
        ensures
            final(self).wf(),
            timer_is_current(*old(self), name@, token) ==> {
                let u = old(self).users@[name@];
                &&& final(self).users@ == old(self).users@.insert(name@, offline(u))
                &&& final(self).addr2user@ == old(self).addr2user@.remove(u.online_info->0.ip_address)
                &&& final(self).user_active_timers@ == old(self).user_active_timers@.remove(name@)
                &&& final(self).pub_keys == old(self).pub_keys
                &&& final(self).next_timer == old(self).next_timer
                &&& r matches Some(ServerAction::Announce { recipients, notification }) && {
                    &&& recipients@.no_duplicates()
                    &&& recipients@.to_set() == others_of(final(self).addr2user@, name@)
                    &&& notification matches Notification::Offline { timestamp, name: n } && n@
                        == name@ && timestamp == now
                }
            },
            !timer_is_current(*old(self), name@, token) ==> *final(self) == *old(self) && r is None,
    {
        match self.user_active_timers.get(name) {
            Some(t) => {
                if *t != token {
                    return None;
                }
            },
            None => return None,
        }
        self.take_offline(name);
        let recipients = self.recipients_except(name);
        Some(
            ServerAction::Announce {
                recipients,
                notification: Notification::Offline { timestamp: now, name: name.clone() },
            },
        )
    }

    /// The user logged in at `source` logs out: its timer is cancelled, it goes
    /// offline and every other bound address is told.
    pub fn logout(&mut self, source: PeerAddr, now: Timestamp) -> (r: (Response, Vec<ServerAction>))
        requires
            old(self).wf(),
        ensures
            final(self).wf(),
            logout_post(*old(self), *final(self), source, now, r),

    {
        let name = match self.addr2user.get(&source) {
            Some(n) => n.clone(),
            None => return (Err(ErrorCode::LoginRequired), Vec::new()),
        };
        self.take_offline(&name);
        let recipients = self.recipients_except(&name);
        let mut actions: Vec<ServerAction> = Vec::new();
        actions.push(ServerAction::CancelTimer { name: name.clone() });
        actions.push(
            ServerAction::Announce {
                recipients,
                notification: Notification::Offline { timestamp: now, name },
            },
        );
        (Ok(ResponseData::Success), actions)
    }

    /// Puts the offline user `name` online at `source` with a fresh timer.
    fn bring_online(&mut self, name: &String, source: PeerAddr, key: [u8; 32]) -> (token: u64)
        requires
            old(self).wf(),
            old(self).next_timer < u64::MAX,
            old(self).users@.contains_key(name@),
            old(self).users@[name@].online_info is None,
            !old(self).addr2user@.contains_key(source),
            old(self).pub_keys@.contains_key(source),
            old(self).pub_keys@[source] == key,
        ensures
            final(self).wf(),
            token == old(self).next_timer,
            final(self).next_timer == old(self).next_timer + 1,
            final(self).users@ == old(self).users@.insert(
                name@,
                online(old(self).users@[name@], source, key),
            ),
            final(self).addr2user@ == old(self).addr2user@.insert(source, *name),
            final(self).user_active_timers@ == old(self).user_active_timers@.insert(name@, token),
            final(self).pub_keys == old(self).pub_keys,
            final(self).heartbeat_interval_ms == old(self).heartbeat_interval_ms,
    {
        let ghost u0 = self.users@[name@];
        let token = self.fresh_token();
        self.user_active_timers.insert(name.clone(), token);
        let mut user = self.users.remove(name).unwrap();
        user.online_info = Some(UserOnlineInfo { ip_address: source, pub_key: key });
        self.users.insert(name.clone(), user);
        self.addr2user.insert(source, name.clone());
        proof {
            assert(user == online(u0, source, key));
            let s = *self;
            assert forall|n: Seq<char>| #[trigger] s.users@.contains_key(n) implies {
                let v = s.users@[n];
                &&& v.name@ == n
                &&& v.online_info is Some ==> {
                    let i = v.online_info->0;
                    &&& s.addr2user@.contains_key(i.ip_address)
                    &&& s.addr2user@[i.ip_address]@ == n
                    &&& s.user_active_timers@.contains_key(n)
                    &&& s.pub_keys@.contains_key(i.ip_address)
                    &&& s.pub_keys@[i.ip_address] == i.pub_key
                }
            } by {
                if n != name@ {
                    assert(old(self).users@.contains_key(n));
                }
            }
            assert forall|n: Seq<char>| #[trigger] s.user_active_timers@.contains_key(n) implies {
                &&& s.users@.contains_key(n)
                &&& s.users@[n].online_info is Some
                &&& s.user_active_timers@[n] < s.next_timer
            } by {
                if n != name@ {
                    assert(old(self).user_active_timers@.contains_key(n));
                }
            }
        }
        token
    }

    /// Logs `username` in from `source`. Succeeds exactly when the user exists,
    /// the password matches its hash, and the channel holds a key for `source`.
    /// A user already bound to `source` is logged out first, and the user's own
    /// earlier session, from whatever address, is replaced. The reply is the
    /// status of every user, and every other bound address is told.
    pub fn login(&mut self, source: PeerAddr, username: String, password: &[u8; 32], now: Timestamp) -> (r: (Response, Vec<ServerAction>))
        requires
            old(self).wf(),
            old(self).next_timer < u64::MAX,
        ensures
            final(self).wf(),
            login_post(*old(self), *final(self), source, username, *password, now, r),

    {
        match self.users.get(&username) {
            None => return (Err(ErrorCode::InvalidUserOrPass), Vec::new()),
            Some(u) => {
                if !verify_password(&u.password_hash, password) {
                    return (Err(ErrorCode::InvalidUserOrPass), Vec::new());
                }
            },
        }
        let key = match self.pub_keys.get(&source) {
            Some(k) => *k,
            None => return (Err(ErrorCode::ConnectionNotSecure), Vec::new()),
        };
        let mut actions: Vec<ServerAction> = Vec::new();
        let holder = match self.addr2user.get(&source) {
            Some(n) => Some(n.clone()),
            None => None,
        };
        let mut displaced: Option<String> = None;
        if let Some(other) = holder {
            if other != username {
                self.take_offline(&other);
                displaced = Some(other);
            }
        }
        let was_online = match self.users.get(&username) {
            Some(u) => u.online_info.is_some(),
            None => false,
        };
        if was_online {
            self.take_offline(&username);
        }
        proof {
            assert(self.users@.contains_key(username@));
            if self.addr2user@.contains_key(source) {
                assert(self.users@[self.addr2user@[source]@].online_info is Some);
            }
        }
        let token = self.bring_online(&username, source, key);
        if let Some(other) = displaced {
            let recipients = self.recipients_except(&other);
            actions.push(ServerAction::CancelTimer { name: other.clone() });
            actions.push(
                ServerAction::Announce {
                    recipients,
                    notification: Notification::Offline { timestamp: now, name: other },
                },
            );
        }
        actions.push(ServerAction::StartTimer { name: username.clone(), token });
        let info = UserOnlineInfo { ip_address: source, pub_key: key };
        let recipients = self.recipients_except(&username);
        actions.push(
            ServerAction::Announce {
                recipients,
                notification: Notification::Online { timestamp: now, name: username, info },
            },
        );
        let users = self.snapshot();
        (Ok(ResponseData::ChatroomStatus { users }), actions)
    }

    /// Changes the password of the user logged in at `source`, hashing the new
    /// one under a fresh salt.
    pub fn change_password(&mut self, source: PeerAddr, old_pwd: &[u8; 32], new_pwd: &[u8; 32]) -> (r: Response)
        requires
            old(self).wf(),
        ensures
            final(self).wf(),
            change_password_post(*old(self), *final(self), source, *old_pwd, *new_pwd, r),

    {
        let name = match self.addr2user.get(&source) {
            Some(n) => n.clone(),
            None => return Err(ErrorCode::LoginRequired),
        };
        if !self.user_active_timers.contains(&name) {
            return Err(ErrorCode::LoginRequired);
        }
        match self.users.get(&name) {
            Some(u) => {
                if !verify_password(&u.password_hash, old_pwd) {
                    return Err(ErrorCode::InvalidUserOrPass);
                }
            },
            None => return Err(ErrorCode::InvalidUserOrPass),
        }
        let salt = random_salt();
        let h = hash_password(new_pwd, &salt);
        let mut user = self.users.remove(&name).unwrap();
        let ghost u0 = user;
        let ghost hh = h;
        let ghost key = name@;
        user.password_hash = h;
        self.users.insert(name, user);
        proof {
            assert(salt@.len() == 32);
            assert(self.users@ == old(self).users@.insert(
                key,
                User { name: u0.name, password_hash: hh, online_info: u0.online_info },
            ));
            let s = *self;
            assert forall|n: Seq<char>| #[trigger] s.users@.contains_key(n) implies {
                let v = s.users@[n];
                &&& v.name@ == n
                &&& v.online_info is Some ==> {
                    let i = v.online_info->0;
                    &&& s.addr2user@.contains_key(i.ip_address)
                    &&& s.addr2user@[i.ip_address]@ == n
                    &&& s.user_active_timers@.contains_key(n)
                    &&& s.pub_keys@.contains_key(i.ip_address)
                    &&& s.pub_keys@[i.ip_address] == i.pub_key
                }
            } by {
                assert(old(self).users@.contains_key(n));
            }
        }
        Ok(ResponseData::Success)
    }

    /// The status of every user, for a caller logged in at `source`.
    pub fn chatroom_status(&self, source: PeerAddr) -> (r: Response)
        requires
            self.wf(),
        ensures
            status_post(*self, source, r),
            !self.logged_in_at(source) ==> r == Err::<ResponseData, ErrorCode>(
                ErrorCode::LoginRequired,
            ),
            self.logged_in_at(source) ==> (r matches Ok(ResponseData::ChatroomStatus { users })
                && lists_users(users@, self.users.entries@)),
    {
        let name = match self.addr2user.get(&source) {
            Some(n) => n,
            None => return Err(ErrorCode::LoginRequired),
        };
        if !self.user_active_timers.contains(name) {
            return Err(ErrorCode::LoginRequired);
        }
        Ok(ResponseData::ChatroomStatus { users: self.snapshot() })
    }

    /// The channel installed `key` for `addr`: the table follows, and so does
    /// the online information of a user logged in there.
    pub fn key_installed(&mut self, addr: PeerAddr, key: [u8; 32])
        requires
            old(self).wf(),
        ensures
            final(self).wf(),
            final(self).pub_keys@ == old(self).pub_keys@.insert(addr, key),
            final(self).addr2user == old(self).addr2user,
            final(self).user_active_timers == old(self).user_active_timers,
            final(self).next_timer == old(self).next_timer,
            old(self).addr2user@.contains_key(addr) ==> {
                let n = old(self).addr2user@[addr]@;
                final(self).users@ == old(self).users@.insert(n, online(old(self).users@[n], addr, key))
            },
            !old(self).addr2user@.contains_key(addr) ==> final(self).users == old(self).users,
    {
        self.pub_keys.insert(addr, key);
        let holder = match self.addr2user.get(&addr) {
            Some(n) => Some(n.clone()),
            None => None,
        };
        if let Some(name) = holder {
            let mut user = self.users.remove(&name).unwrap();
            let ghost u0 = user;
            user.online_info = Some(UserOnlineInfo { ip_address: addr, pub_key: key });
            self.users.insert(name, user);
            proof {
                assert(user == online(u0, addr, key));
            }
        }
        proof {
            let s = *self;
            assert forall|n: Seq<char>| #[trigger] s.users@.contains_key(n) implies {
                let v = s.users@[n];
                &&& v.name@ == n
                &&& v.online_info is Some ==> {
                    let i = v.online_info->0;
                    &&& s.addr2user@.contains_key(i.ip_address)
                    &&& s.addr2user@[i.ip_address]@ == n
                    &&& s.user_active_timers@.contains_key(n)
                    &&& s.pub_keys@.contains_key(i.ip_address)
                    &&& s.pub_keys@[i.ip_address] == i.pub_key
                }
            } by {
                assert(old(self).users@.contains_key(n));
            }
        }
    }

    /// Handles one decrypted payload `id || command` from `source`. A payload
    /// that does not decode is dropped. Otherwise the command's handler runs,
    /// and every command but `Heartbeat` is answered, after the actions that
    /// the handler asks for, by one reply to `source` with the same id.
    pub fn process(&mut self, source: PeerAddr, payload: &[u8], now: Timestamp) -> (r: Vec<ServerAction>)
        requires
            old(self).wf(),
            old(self).next_timer < u64::MAX,
        ensures
            final(self).wf(),
            !decodes_command(payload@) ==> *final(self) == *old(self) && r@.len() == 0,
            forall|c: Command| #[trigger] at(payload@, 2, enc_command(c)) ==> dispatched(
                *old(self),
                *final(self),
                source,
                frame_id(payload@),
                c,
                now,
                r@,
            ),
    {
        let (id, start) = match parse_u16(payload, 0) {
            Some(x) => x,
            None => {
                proof {
                    assert forall|c: Command| !#[trigger] at(payload@, 2, enc_command(c)) by {
                    }
                }
                return Vec::new();
            },
        };
        proof {
            reveal_with_fuel(crate::codec::pow256, 3);
            crate::codec::lemma_be_round(id as nat, 2);
            assert(payload@.subrange(0, 2) == enc_u16(id));
        }
        let command = match parse_command(payload, start) {
            Some((c, _)) => c,
            None => return Vec::new(),
        };
        let ghost cmd = command;
        proof {
            assert forall|c: Command| #[trigger] at(payload@, 2, enc_command(c)) implies same_command(cmd, c) by {
                lemma_command_unique(cmd, c);
            }
        }
        let mut actions: Vec<ServerAction> = Vec::new();
        match command {
            Command::Register { username, password } => {
                let ghost u = username;
                let response = self.register(username, &password);
                let ghost resp = response;
                actions.push(ServerAction::Reply { to: source, id, response });
                proof {
                    assert(actions@ =~= seq![ServerAction::Reply { to: source, id, response: resp }]);
                    assert forall|c: Command| #[trigger] at(payload@, 2, enc_command(c)) implies dispatched(
                        *old(self), *self, source, id, c, now, actions@) by {
                        assert(register_post(*old(self), *self, u, password, resp));
                    }
                }
            },
            Command::Login { username, password } => {
                let ghost u = username;
                let out = self.login(source, username, &password, now);
                let ghost o = out;
                let (response, acts) = out;
                actions = acts;
                actions.push(ServerAction::Reply { to: source, id, response });
                proof {
                    assert(actions@ =~= o.1@.push(ServerAction::Reply { to: source, id, response: o.0 }));
                    assert forall|c: Command| #[trigger] at(payload@, 2, enc_command(c)) implies dispatched(
                        *old(self), *self, source, id, c, now, actions@) by {
                        assert(login_post(*old(self), *self, source, u, password, now, o));
                    }
                }
            },
            Command::ChangePassword { old: old_pwd, new: new_pwd } => {
                let response = self.change_password(source, &old_pwd, &new_pwd);
                let ghost resp = response;
                actions.push(ServerAction::Reply { to: source, id, response });
                proof {
                    assert(actions@ =~= seq![ServerAction::Reply { to: source, id, response: resp }]);
                    assert forall|c: Command| #[trigger] at(payload@, 2, enc_command(c)) implies dispatched(
                        *old(self), *self, source, id, c, now, actions@) by {
                        assert(change_password_post(*old(self), *self, source, old_pwd, new_pwd, resp));
                    }
                }
            },
            Command::GetChatroomStatus => {
                let response = self.chatroom_status(source);
                let ghost resp = response;
                actions.push(ServerAction::Reply { to: source, id, response });
                proof {
                    assert(actions@ =~= seq![ServerAction::Reply { to: source, id, response: resp }]);
                    assert forall|c: Command| #[trigger] at(payload@, 2, enc_command(c)) implies dispatched(
                        *old(self), *self, source, id, c, now, actions@) by {
                        assert(status_post(*old(self), source, resp));
                    }
                }
            },
            Command::Heartbeat => {
                let renewal = self.heartbeat(source);
                let ghost o = renewal;
                if let Some(a) = renewal {
                    actions.push(a);
                }
                proof {
                    assert(actions@ =~= heartbeat_actions(o));
                    assert forall|c: Command| #[trigger] at(payload@, 2, enc_command(c)) implies dispatched(
                        *old(self), *self, source, id, c, now, actions@) by {
                        assert(heartbeat_post(*old(self), *self, source, o));
                    }
                }
            },
            Command::Logout => {
                let out = self.logout(source, now);
                let ghost o = out;
                let (response, acts) = out;
                actions = acts;
                actions.push(ServerAction::Reply { to: source, id, response });
                proof {
                    assert(actions@ =~= o.1@.push(ServerAction::Reply { to: source, id, response: o.0 }));
                    assert forall|c: Command| #[trigger] at(payload@, 2, enc_command(c)) implies dispatched(
                        *old(self), *self, source, id, c, now, actions@) by {
                        assert(logout_post(*old(self), *self, source, now, o));
                    }
                }
            },
        }
        actions
    }
}

/// What the host does after the server handled an event.
pub enum Outgoing {
    /// Send `datagram` to `to`.
    Send { to: PeerAddr, datagram: Vec<u8> },
    /// Replace the activity timer of `name` by one that reports `token`.
    StartTimer { name: String, token: u64 },
    /// Drop the activity timer of `name`.
    CancelTimer { name: String },
}

pub open spec fn sends_to(o: Outgoing, a: PeerAddr) -> bool {
    o matches Outgoing::Send { to, .. } && to == a
}

/// `out` holds, for each recipient in `rs` that has a context in `c` and a
/// box for `plain`, one datagram to it: the box that its context makes;
/// nothing else.
pub open spec fn announced(c: SecureConnection, rs: Seq<PeerAddr>, plain: Seq<u8>, out: Seq<Outgoing>) -> bool {
    &&& forall|k: int| 0 <= k < out.len() ==> (#[trigger] out[k] matches Outgoing::Send { to, datagram } && rs.contains(to)
        && c.contexts@.contains_key(to) && sealed_for(c, to, plain, datagram@))
    &&& forall|a: PeerAddr| #[trigger] rs.contains(a) && c.contexts@.contains_key(a) && next_box(c.contexts@[a], plain) is Some
        ==> exists|k: int| 0 <= k < out.len() && sends_to(out[k], a)
}

proof fn lemma_announced_step(
    c0: SecureConnection,
    before: SecureConnection,
    pre: Seq<PeerAddr>,
    a: PeerAddr,
    plain: Seq<u8>,
    out0: Seq<Outgoing>,
    out1: Seq<Outgoing>,
    sent: Result<Vec<u8>, Error>,
)
    requires
        announced(c0, pre, plain, out0),
        !pre.contains(a),
        c0.contexts@.contains_key(a) ==> before.contexts@[a] == c0.contexts@[a],
        before.contexts@.dom() == c0.contexts@.dom(),
        !before.contexts@.contains_key(a) ==> sent == Err::<Vec<u8>, Error>(Error::NoDestKey),
        before.contexts@.contains_key(a) ==> match sent {
            Ok(d) => sealed_for(before, a, plain, d@),
            Err(e) => next_box(before.contexts@[a], plain) is None,
        },
        sent matches Ok(d) ==> out1 == out0.push(Outgoing::Send { to: a, datagram: d }),
        sent is Err ==> out1 == out0,
    ensures
        announced(c0, pre.push(a), plain, out1),
{
    let post = pre.push(a);
    assert forall|k: int| 0 <= k < out1.len() implies (#[trigger] out1[k] matches Outgoing::Send { to, datagram } && post.contains(to)
        && c0.contexts@.contains_key(to) && sealed_for(c0, to, plain, datagram@)) by {
        if k < out0.len() {
            assert(out1[k] == out0[k]);
            if let Outgoing::Send { to, .. } = out0[k] {
                let j = choose|j: int| 0 <= j < pre.len() && pre[j] == to;
                assert(post[j] == to);
            }
        } else {
            assert(post[pre.len() as int] == a);
        }
    }
    assert forall|x: PeerAddr| #[trigger] post.contains(x) && c0.contexts@.contains_key(x) && next_box(c0.contexts@[x], plain) is Some
        implies exists|k: int| 0 <= k < out1.len() && sends_to(out1[k], x) by {
        if x == a {
            assert(sends_to(out1[out0.len() as int], x));
        } else {
            let j = choose|j: int| 0 <= j < post.len() && post[j] == x;
            assert(pre[j] == x);
            assert(pre.contains(x));
            let k = choose|k: int| 0 <= k < out0.len() && sends_to(out0[k], x);
            assert(out1[k] == out0[k]);
        }
    }
}

/// The session state after the channel installed key `k` for `addr`.
pub open spec fn key_recorded(s0: ServerState, s1: ServerState, addr: PeerAddr, k: [u8; 32]) -> bool {
    &&& s1.pub_keys@ == s0.pub_keys@.insert(addr, k)
    &&& s1.addr2user == s0.addr2user
    &&& s1.user_active_timers == s0.user_active_timers
    &&& s0.addr2user@.contains_key(addr) ==> s1.users@ == s0.users@.insert(
        s0.addr2user@[addr]@,
        online(s0.users@[s0.addr2user@[addr]@], addr, k),
    )
    &&& !s0.addr2user@.contains_key(addr) ==> s1.users == s0.users
}

/// `o` is a datagram to an address that action `a` names.
pub open spec fn sends_for(a: ServerAction, o: Outgoing) -> bool {
    o matches Outgoing::Send { to, .. } && match a {
        ServerAction::Reply { to: t, .. } => to == t,
        ServerAction::Announce { recipients, .. } => recipients@.contains(to),
        _ => false,
    }
}

/// For a lone reply action: where its address has a context and a box comes,
/// `out` is the one datagram that the context seals the reply into.
pub open spec fn single_reply(c: SecureConnection, a: ServerAction, out: Seq<Outgoing>) -> bool {
    a matches ServerAction::Reply { to, id, response } ==> (c.contexts@.contains_key(to) && next_box(
        c.contexts@[to],
        enc_u16(id) + enc_response(response),
    ) is Some ==> out.len() == 1 && (out[0] matches Outgoing::Send { to: t, datagram } && t == to && sealed_for(
        c,
        to,
        enc_u16(id) + enc_response(response),
        datagram@,
    )))
}

/// `c1` holds a context for the same addresses as `c0`, each with the same
/// keys and the same encrypt stream (maybe at another position).
pub open spec fn same_streams(c1: SecureConnection, c0: SecureConnection) -> bool {
    &&& c1.contexts@.dom() == c0.contexts@.dom()
    &&& forall|a: PeerAddr| #[trigger]
        c1.contexts@.contains_key(a) ==> c1.contexts@[a].peer_key == c0.contexts@[a].peer_key
            && c1.contexts@[a].own_secret == c0.contexts@[a].own_secret && c1.contexts@[a].en_seed
            == c0.contexts@[a].en_seed
}

/// At some position of its encrypt stream, context `c` makes no box of `plain`.
pub open spec fn seal_may_fail(c: PeerContext, plain: Seq<u8>) -> bool {
    exists|n: nat| #[trigger] box_sealed(c.peer_key@, c.own_secret@, nth_nonce(c.en_seed@, n), plain) is None
}

/// A peer with a context in `c0` gets a datagram in `out`, unless its stream
/// can fail to seal `plain`.
pub open spec fn reached(c0: SecureConnection, a: PeerAddr, plain: Seq<u8>, out: Seq<Outgoing>) -> bool {
    c0.contexts@.contains_key(a) ==> (exists|k: int| 0 <= k < out.len() && #[trigger] sends_to(out[k], a))
        || seal_may_fail(c0.contexts@[a], plain)
}

/// The reply of `act`, or each recipient of its notification, is reached.
pub open spec fn action_reached(c0: SecureConnection, act: ServerAction, out: Seq<Outgoing>) -> bool {
    match act {
        ServerAction::Reply { to, id, response } => reached(c0, to, enc_u16(id) + enc_response(response), out),
        ServerAction::Announce { recipients, notification } => forall|a: PeerAddr| #[trigger]
            recipients@.contains(a) ==> reached(c0, a, enc_u16(0) + enc_notification(notification), out),
        _ => true,
    }
}

/// Every reply and every notification of `acts` goes out.
pub open spec fn delivered(c0: SecureConnection, acts: Seq<ServerAction>, out: Seq<Outgoing>) -> bool {
    forall|j: int| 0 <= j < acts.len() ==> action_reached(c0, #[trigger] acts[j], out)
}

proof fn lemma_reached_grows(c0: SecureConnection, a: PeerAddr, plain: Seq<u8>, out0: Seq<Outgoing>, out1: Seq<Outgoing>)
    requires
        reached(c0, a, plain, out0),
        out0.len() <= out1.len(),
        forall|k: int| 0 <= k < out0.len() ==> out1[k] == out0[k],
    ensures
        reached(c0, a, plain, out1),
{
    if c0.contexts@.contains_key(a) && exists|k: int| 0 <= k < out0.len() && #[trigger] sends_to(out0[k], a) {
        let k = choose|k: int| 0 <= k < out0.len() && #[trigger] sends_to(out0[k], a);
        assert(sends_to(out1[k], a));
    }
}

proof fn lemma_action_reached_grows(c0: SecureConnection, act: ServerAction, out0: Seq<Outgoing>, out1: Seq<Outgoing>)
    requires
        action_reached(c0, act, out0),
        out0.len() <= out1.len(),
        forall|k: int| 0 <= k < out0.len() ==> out1[k] == out0[k],
    ensures
        action_reached(c0, act, out1),
{
    match act {
        ServerAction::Reply { to, id, response } => {
            lemma_reached_grows(c0, to, enc_u16(id) + enc_response(response), out0, out1);
        },
        ServerAction::Announce { recipients, notification } => {
            assert forall|a: PeerAddr| #[trigger] recipients@.contains(a) implies reached(
                c0,
                a,
                enc_u16(0) + enc_notification(notification),
                out1,
            ) by {
                lemma_reached_grows(c0, a, enc_u16(0) + enc_notification(notification), out0, out1);
            }
        },
        _ => {},
    }
}

/// One send through a channel whose streams are those of `c0` reaches its peer.
proof fn lemma_send_reaches(
    c0: SecureConnection,
    before: SecureConnection,
    a: PeerAddr,
    plain: Seq<u8>,
    sent: Result<Vec<u8>, Error>,
    out0: Seq<Outgoing>,
    out1: Seq<Outgoing>,
)
    requires
        same_streams(before, c0),
        before.contexts@.contains_key(a) ==> crate::channel::sent_outcome(before, before, a, plain, sent) || match sent {
            Ok(d) => true,
            Err(_) => next_box(before.contexts@[a], plain) is None,
        },
        sent matches Ok(d) ==> out1 == out0.push(Outgoing::Send { to: a, datagram: d }),
        sent is Err ==> out1 == out0,
    ensures
        reached(c0, a, plain, out1),
        out0.len() <= out1.len(),
        forall|k: int| 0 <= k < out0.len() ==> out1[k] == out0[k],
{
    if c0.contexts@.contains_key(a) {
        if let Ok(d) = sent {
            assert(sends_to(out1[out0.len() as int], a));
        } else {
            let c = before.contexts@[a];
            assert(box_sealed(c0.contexts@[a].peer_key@, c0.contexts@[a].own_secret@, nth_nonce(c0.contexts@[a].en_seed@, c.sent as nat), plain) is None);
        }
    }
}

/// `out` carries out `acts`: every timer action in order, and datagrams
/// only to addresses that the actions name.
pub open spec fn performed(acts: Seq<ServerAction>, out: Seq<Outgoing>) -> bool {
    &&& forall|k: int| 0 <= k < out.len() ==> (#[trigger] out[k] is Send ==> exists|j: int|
        0 <= j < acts.len() && sends_for(acts[j], out[k]))
    &&& forall|j: int| 0 <= j < acts.len() ==> (#[trigger] acts[j] matches ServerAction::StartTimer { name, token }
        ==> out.contains(Outgoing::StartTimer { name, token }))
    &&& forall|j: int| 0 <= j < acts.len() ==> (#[trigger] acts[j] matches ServerAction::CancelTimer { name }
        ==> out.contains(Outgoing::CancelTimer { name }))
    &&& forall|k: int| 0 <= k < out.len() ==> (#[trigger] out[k] matches Outgoing::StartTimer { name, token }
        ==> acts.contains(ServerAction::StartTimer { name, token }))
    &&& forall|k: int| 0 <= k < out.len() ==> (#[trigger] out[k] matches Outgoing::CancelTimer { name }
        ==> acts.contains(ServerAction::CancelTimer { name }))
}

proof fn lemma_performed_step(acts: Seq<ServerAction>, a: ServerAction, out0: Seq<Outgoing>, out1: Seq<Outgoing>)
    requires
        performed(acts, out0),
        out1.len() >= out0.len(),
        forall|k: int| 0 <= k < out0.len() ==> out1[k] == out0[k],
        forall|k: int| out0.len() <= k < out1.len() ==> match a {
            ServerAction::StartTimer { name, token } => out1[k] == Outgoing::StartTimer { name, token },
            ServerAction::CancelTimer { name } => out1[k] == Outgoing::CancelTimer { name },
            _ => sends_for(a, out1[k]),
        },
        a is StartTimer ==> out1.len() == out0.len() + 1,
        a is CancelTimer ==> out1.len() == out0.len() + 1,
    ensures
        performed(acts.push(a), out1),
{
    let p = acts.push(a);
    assert forall|k: int| 0 <= k < out1.len() implies (#[trigger] out1[k] is Send ==> exists|j: int|
        0 <= j < p.len() && sends_for(p[j], out1[k])) by {
        if k < out0.len() {
            if out0[k] is Send {
                let j = choose|j: int| 0 <= j < acts.len() && sends_for(acts[j], out0[k]);
                assert(p[j] == acts[j]);
            }
        } else {
            assert(p[acts.len() as int] == a);
        }
    }
    assert forall|j: int| 0 <= j < p.len() implies (#[trigger] p[j] matches ServerAction::StartTimer { name, token }
        ==> out1.contains(Outgoing::StartTimer { name, token })) by {
        if j < acts.len() {
            assert(p[j] == acts[j]);
            if let ServerAction::StartTimer { name, token } = acts[j] {
                let k = choose|k: int| 0 <= k < out0.len() && out0[k] == Outgoing::StartTimer { name, token };
                assert(out1[k] == out0[k]);
            }
        } else if let ServerAction::StartTimer { name, token } = a {
            assert(out1[out0.len() as int] == Outgoing::StartTimer { name, token });
        }
    }
    assert forall|j: int| 0 <= j < p.len() implies (#[trigger] p[j] matches ServerAction::CancelTimer { name }
        ==> out1.contains(Outgoing::CancelTimer { name })) by {
        if j < acts.len() {
            assert(p[j] == acts[j]);
            if let ServerAction::CancelTimer { name } = acts[j] {
                let k = choose|k: int| 0 <= k < out0.len() && out0[k] == Outgoing::CancelTimer { name };
                assert(out1[k] == out0[k]);
            }
        } else if let ServerAction::CancelTimer { name } = a {
            assert(out1[out0.len() as int] == Outgoing::CancelTimer { name });
        }
    }
    assert forall|k: int| 0 <= k < out1.len() implies (#[trigger] out1[k] matches Outgoing::StartTimer { name, token }
        ==> p.contains(ServerAction::StartTimer { name, token })) by {
        if k < out0.len() {
            if let Outgoing::StartTimer { name, token } = out0[k] {
                let j = choose|j: int| 0 <= j < acts.len() && acts[j] == ServerAction::StartTimer { name, token };
                assert(p[j] == acts[j]);
            }
        } else {
            assert(p[acts.len() as int] == a);
        }
    }
    assert forall|k: int| 0 <= k < out1.len() implies (#[trigger] out1[k] matches Outgoing::CancelTimer { name }
        ==> p.contains(ServerAction::CancelTimer { name })) by {
        if k < out0.len() {
            if let Outgoing::CancelTimer { name } = out0[k] {
                let j = choose|j: int| 0 <= j < acts.len() && acts[j] == ServerAction::CancelTimer { name };
                assert(p[j] == acts[j]);
            }
        } else {
            assert(p[acts.len() as int] == a);
        }
    }
}

/// The server: its session manager and its secure channel.
pub struct Server {
    pub state: ServerState,
    pub connection: SecureConnection,
}

impl Server {
    pub open spec fn wf(&self) -> bool {
        self.state.wf() && self.connection.wf()
    }

    /// A server whose directory holds `users`, none online, with a fresh key pair.
    pub fn new(users: Vec<(String, UserEssential)>, heartbeat_interval_ms: u64) -> (r: Self)
        ensures
            r.wf(),
            r.state.heartbeat_interval_ms == heartbeat_interval_ms,
            r.state.addr2user@ == Map::<PeerAddr, String>::empty(),
            forall|n: Seq<char>|
                r.state.users@.contains_key(n) <==> exists|i: int|
                    0 <= i < users@.len() && (#[trigger] users@[i]).0@ == n,
            forall|n: Seq<char>| #[trigger]
                r.state.users@.contains_key(n) ==> r.state.users@[n].online_info is None && last_given(
                    users@,
                    users@.len() as int,
                    n,
                    r.state.users@[n],
                ),
    {
        let state = ServerState::from_user_essentials(heartbeat_interval_ms, users);
        let connection = SecureConnection::new(Table::new());
        Server { state, connection }
    }

    pub fn get_state(&self) -> (r: &ServerState)
        ensures
            r == &self.state,
    {
        &self.state
    }

    /// Seals `body`, untagged, for each recipient that has a context; one
    /// whose box cannot be made is skipped.
    fn announce(&mut self, recipients: &Vec<PeerAddr>, body: &Body) -> (out: Vec<Outgoing>)
        requires
            old(self).wf(),
        ensures
            final(self).wf(),
            final(self).state == old(self).state,
            final(self).connection.pub_keys == old(self).connection.pub_keys,
            recipients@.no_duplicates() ==> announced(old(self).connection, recipients@, enc_u16(0) + enc_body(*body), out@),
            forall|k: int| 0 <= k < out@.len() ==> (#[trigger] out@[k] matches Outgoing::Send { to, .. } && recipients@.contains(to)),
            same_streams(final(self).connection, old(self).connection),
            forall|a: PeerAddr| #[trigger] recipients@.contains(a) ==> reached(old(self).connection, a, enc_u16(0) + enc_body(*body), out@),
    {
        let ghost plain = enc_u16(0) + enc_body(*body);
        let ghost c0 = self.connection;
        let mut out: Vec<Outgoing> = Vec::new();
        let mut i: usize = 0;
        while i < recipients.len()
            invariant
                self.wf(),
                self.state == old(self).state,
                self.connection.pub_keys == c0.pub_keys,
                c0 == old(self).connection,
                plain == enc_u16(0) + enc_body(*body),
                i <= recipients@.len(),
                self.connection.contexts@.dom() == c0.contexts@.dom(),
                recipients@.no_duplicates() ==> forall|j: int|
                    i <= j < recipients@.len() && c0.contexts@.contains_key(recipients@[j]) ==> self.connection.contexts@[recipients@[j]]
                        == c0.contexts@[recipients@[j]],
                recipients@.no_duplicates() ==> announced(c0, recipients@.take(i as int), plain, out@),
                forall|k: int| 0 <= k < out@.len() ==> (#[trigger] out@[k] matches Outgoing::Send { to, .. } && recipients@.contains(to)),
                same_streams(self.connection, c0),
                forall|j: int| 0 <= j < i ==> reached(c0, #[trigger] recipients@[j], plain, out@),
            decreases recipients@.len() - i,
        {
            let a = recipients[i];
            let ghost before = self.connection;
            let ghost out0 = out@;
            let sent = self.connection.send_to_with_empty_meta(body, a);
            if let Ok(d) = sent {
                out.push(Outgoing::Send { to: a, datagram: d });
            }
            proof {
                lemma_send_reaches(c0, before, a, plain, sent, out0, out@);
                assert forall|j: int| 0 <= j < i + 1 implies reached(c0, #[trigger] recipients@[j], plain, out@) by {
                    if j < i {
                        lemma_reached_grows(c0, recipients@[j], plain, out0, out@);
                    }
                }
                assert(same_streams(self.connection, c0));
                assert(recipients@[i as int] == a);
                assert forall|k: int| 0 <= k < out@.len() implies (#[trigger] out@[k] matches Outgoing::Send { to, .. } && recipients@.contains(to)) by {
                    if k < out0.len() {
                        assert(out@[k] == out0[k]);
                    }
                }
                if recipients@.no_duplicates() {
                    let pre = recipients@.take(i as int);
                    let post = recipients@.take(i + 1);
                    assert(post =~= pre.push(a));
                    assert forall|j: int|
                        i + 1 <= j < recipients@.len() && c0.contexts@.contains_key(recipients@[j]) implies self.connection.contexts@[recipients@[j]]
                            == c0.contexts@[recipients@[j]] by {
                        assert(recipients@[j] != recipients@[i as int]);
                    }
                    assert forall|k: int| 0 <= k < pre.len() implies pre[k] != a by {
                        assert(pre[k] == recipients@[k]);
                    }
                    lemma_announced_step(c0, before, pre, a, plain, out0, out@, sent);
                }
            }
            i = i + 1;
        }
        proof {
            assert(recipients@.take(recipients@.len() as int) =~= recipients@);
            assert forall|a: PeerAddr| #[trigger] recipients@.contains(a) implies reached(c0, a, plain, out@) by {
                let j = choose|j: int| 0 <= j < recipients@.len() && recipients@[j] == a;
                assert(reached(c0, recipients@[j], plain, out@));
            }
        }
        out
    }

    /// Seals what the session manager asked for; a notification that cannot
    /// be sealed for one recipient still goes to the others.
    fn perform(&mut self, actions: Vec<ServerAction>) -> (out: Vec<Outgoing>)
        requires
            old(self).wf(),
        ensures
            final(self).wf(),
            final(self).state == old(self).state,
            performed(actions@, out@),
            delivered(old(self).connection, actions@, out@),
            actions@.len() == 1 ==> single_reply(old(self).connection, actions@[0], out@),
    {
        let ghost all = actions@;
        let mut out: Vec<Outgoing> = Vec::new();
        let mut actions = actions;
        let mut done: usize = 0;
        let total = actions.len();
        while actions.len() > 0
            invariant
                all.len() == total,
                self.wf(),
                self.state == old(self).state,
                done <= all.len(),
                done + actions@.len() == all.len(),
                actions@ == all.skip(done as int),
                performed(all.take(done as int), out@),
                all.len() == 1 && done == 0 ==> self.connection == old(self).connection && out@.len() == 0,
                all.len() == 1 && done == 1 ==> single_reply(old(self).connection, all[0], out@),
                same_streams(self.connection, old(self).connection),
                delivered(old(self).connection, all.take(done as int), out@),
            decreases actions@.len(),
        {
            let ghost out0 = out@;
            let ghost act = actions@[0];
            let ghost before = self.connection;
            proof {
                assert(all.take(done + 1) =~= all.take(done as int).push(act));
                assert(all.skip(done + 1) =~= actions@.skip(1));
            }
            match actions.remove(0) {
                ServerAction::Reply { to, id, response } => {
                    let ghost resp = response;
                    let sent = self.connection.send_to_with_meta(&Body::Response(response), to, id);
                    let ghost sent_g = sent;
                    if let Ok(d) = sent {
                        out.push(Outgoing::Send { to, datagram: d });
                    }
                    proof {
                        assert(out@ == out0 || out@ == out0.push(out@.last()));
                        lemma_send_reaches(old(self).connection, before, to, enc_u16(id) + enc_response(resp), sent_g, out0, out@);
                    }
                },
                ServerAction::StartTimer { name, token } => out.push(Outgoing::StartTimer { name, token }),
                ServerAction::CancelTimer { name } => out.push(Outgoing::CancelTimer { name }),
                ServerAction::Announce { recipients, notification } => {
                    let ghost n = notification;
                    let body = Body::Notification(notification);
                    let mut sent = self.announce(&recipients, &body);
                    let ghost sv = sent@;
                    out.append(&mut sent);
                    proof {
                        assert(out@ =~= out0 + sv);
                        assert forall|a: PeerAddr| #[trigger] recipients@.contains(a) implies reached(
                            old(self).connection,
                            a,
                            enc_u16(0) + enc_notification(n),
                            out@,
                        ) by {
                            assert(reached(before, a, enc_u16(0) + enc_body(body), sv));
                            if before.contexts@.contains_key(a) {
                                if exists|k: int| 0 <= k < sv.len() && #[trigger] sends_to(sv[k], a) {
                                    let k = choose|k: int| 0 <= k < sv.len() && #[trigger] sends_to(sv[k], a);
                                    assert(sends_to(out@[out0.len() + k], a));
                                } else {
                                    let m = choose|m: nat| #[trigger] box_sealed(
                                        before.contexts@[a].peer_key@,
                                        before.contexts@[a].own_secret@,
                                        nth_nonce(before.contexts@[a].en_seed@, m),
                                        enc_u16(0) + enc_body(body),
                                    ) is None;
                                    assert(box_sealed(
                                        old(self).connection.contexts@[a].peer_key@,
                                        old(self).connection.contexts@[a].own_secret@,
                                        nth_nonce(old(self).connection.contexts@[a].en_seed@, m),
                                        enc_u16(0) + enc_notification(n),
                                    ) is None);
                                }
                            }
                        }
                    }
                },
            }
            proof {
                lemma_performed_step(all.take(done as int), act, out0, out@);
                assert forall|j: int| 0 <= j < done + 1 implies action_reached(old(self).connection, #[trigger] all.take(done + 1)[j], out@) by {
                    if j < done {
                        assert(all.take(done + 1)[j] == all.take(done as int)[j]);
                        lemma_action_reached_grows(old(self).connection, all.take(done as int)[j], out0, out@);
                    } else {
                        assert(all.take(done + 1)[j] == act);
                    }
                }
            }
            done = done + 1;
        }
        proof {
            assert(all.take(all.len() as int) =~= all);
            if all.len() == 1 {
                assert(single_reply(old(self).connection, all[0], out@));
            }
        }
        out
    }

    /// Handles one datagram from `source`. A key offer is answered and the
    /// key recorded; a message is decrypted and processed as a request.
    pub fn handle_datagram(&mut self, source: PeerAddr, datagram: &[u8], now: Timestamp) -> (out: Vec<Outgoing>)
        requires
            old(self).wf(),
            old(self).state.next_timer < u64::MAX,
        ensures
            final(self).wf(),
            forall|k: [u8; 32]| #[trigger] at(datagram@, 0, enc_secure(SecureMsg::PeerKey(k))) ==> {
                &&& key_recorded(old(self).state, final(self).state, source, k)
                &&& final(self).connection.pub_keys@ == old(self).connection.pub_keys@.insert(source, k)
                &&& out@.len() == 0
            },
            forall|p: Seq<u8>, c: Command|
                (exists|mid: SecureConnection| opened_to(old(self).connection, mid, source, datagram@, p)) && #[trigger] at(
                    p,
                    2,
                    enc_command(c),
                ) ==> exists|acts: Seq<ServerAction>, mid: SecureConnection|
                    #![trigger dispatched(old(self).state, final(self).state, source, frame_id(p), c, now, acts), opened_to(old(self).connection, mid, source, datagram@, p)]
                    dispatched(old(self).state, final(self).state, source, frame_id(p), c, now, acts) && performed(acts, out@)
                        && delivered(mid, acts, out@) && opened_to(old(self).connection, mid, source, datagram@, p) && (acts.len() == 1 ==> single_reply(
                        mid,
                        acts[0],
                        out@,
                    )),
            forall|k: [u8; 32]| #[trigger] at(datagram@, 0, enc_secure(SecureMsg::MyKey(k))) ==> {
                &&& key_recorded(old(self).state, final(self).state, source, k)
                &&& final(self).state.pub_keys@ == old(self).state.pub_keys@.insert(source, k)
                &&& final(self).connection.pub_keys@ == old(self).connection.pub_keys@.insert(source, k)
                &&& out@.len() == 1
                &&& out@[0] matches Outgoing::Send { to, datagram: d } && to == source && d@ == enc_secure(
                    SecureMsg::PeerKey(old(self).connection.public_key),
                )
            },
    {
        match self.connection.recv_from_raw(source, datagram) {
            Received::KeyOffered { key, reply } => {
                self.state.key_installed(source, key);
                let mut out: Vec<Outgoing> = Vec::new();
                out.push(Outgoing::Send { to: source, datagram: reply });
                out
            },
            Received::KeyAnswered { key } => {
                self.state.key_installed(source, key);
                Vec::new()
            },
            Received::Failed { .. } => Vec::new(),
            Received::Plain { data } => {
                let ghost s0 = self.state;
                let actions = self.state.process(source, data.as_slice(), now);
                let ghost acts = actions@;
                let ghost mid_c = self.connection;
                let out = self.perform(actions);
                proof {
                    assert forall|p: Seq<u8>, c: Command|
                        (exists|mid: SecureConnection| opened_to(old(self).connection, mid, source, datagram@, p)) && #[trigger] at(
                            p,
                            2,
                            enc_command(c),
                        ) implies exists|a: Seq<ServerAction>, m: SecureConnection|
                            #![trigger dispatched(s0, self.state, source, frame_id(p), c, now, a), opened_to(old(self).connection, m, source, datagram@, p)]
                            dispatched(s0, self.state, source, frame_id(p), c, now, a)
                            && performed(a, out@) && delivered(m, a, out@) && opened_to(old(self).connection, m, source, datagram@, p) && (a.len() == 1
                            ==> single_reply(m, a[0], out@)) by {
                        let mid = choose|mid: SecureConnection| opened_to(old(self).connection, mid, source, datagram@, p);
                        let b = choose|b: Seq<u8>| #[trigger] at(datagram@, 0, crate::messages::enc_secure_msg_bytes(b)) && crate::channel::next_open(
                            old(self).connection.contexts@[source], b) == Some(p);
                        assert(p == data@);
                        assert(dispatched(s0, self.state, source, frame_id(p), c, now, acts));
                        assert(opened_to(old(self).connection, mid_c, source, datagram@, p));
                        assert(performed(acts, out@));
                        assert(delivered(mid_c, acts, out@));
                        assert(acts.len() == 1 ==> single_reply(mid_c, acts[0], out@));
                    }
                }
                out
            },
        }
    }

    /// The activity timer of `name` with `token` fired.
    pub fn timer_fired(&mut self, name: &String, token: u64, now: Timestamp) -> (out: Vec<Outgoing>)
        requires
            old(self).wf(),
        ensures
            final(self).wf(),
            !timer_is_current(old(self).state, name@, token) ==> final(self).state == old(self).state && out@.len() == 0,
            timer_is_current(old(self).state, name@, token) ==> {
                let u = old(self).state.users@[name@];
                &&& final(self).state.users@ == old(self).state.users@.insert(name@, offline(u))
                &&& final(self).state.addr2user@ == old(self).state.addr2user@.remove(u.online_info->0.ip_address)
                &&& final(self).state.user_active_timers@ == old(self).state.user_active_timers@.remove(name@)
                &&& exists|n: Notification, rs: Seq<PeerAddr>|
                    (n matches Notification::Offline { timestamp, name: m } && m@ == name@ && timestamp == now)
                        && rs.to_set() == others_of(
                        final(self).state.addr2user@,
                        name@,
                    ) && #[trigger] announced(old(self).connection, rs, enc_u16(0) + enc_notification(n), out@)
            },
    {
        match self.state.expire(name, token, now) {
            None => Vec::new(),
            Some(ServerAction::Announce { recipients, notification }) => {
                let ghost n = notification;
                let body = Body::Notification(notification);
                let ghost rs = recipients@;
                let out = self.announce(&recipients, &body);
                proof {
                    assert(enc_body(body) == enc_notification(n));
                    assert(announced(old(self).connection, rs, enc_u16(0) + enc_notification(n), out@));
                }
                out
            },
            Some(_) => Vec::new(),
        }
    }
}

/// A user who registers with a password can log in with it: the stored hash
/// accepts that password.
pub proof fn lemma_register_then_login(s0: ServerState, s1: ServerState, username: String, password: [u8; 32])
    requires
        !s0.users@.contains_key(username@),
        register_post(s0, s1, username, password, Ok(ResponseData::Success)),
    ensures
        login_accepted(s1, username@, password@),
{
}

/// After a password change, the new password is the one that logs in.
pub proof fn lemma_changed_password_logs_in(s0: ServerState, s1: ServerState, source: PeerAddr, old_pwd: [u8; 32], new_pwd: [u8; 32])
    requires
        s0.wf(),
        s0.logged_in_at(source),
        login_accepted(s0, s0.addr2user@[source]@, old_pwd@),
        change_password_post(s0, s1, source, old_pwd, new_pwd, Ok(ResponseData::Success)),
    ensures
        login_accepted(s1, s0.addr2user@[source]@, new_pwd@),
{
}

/// A heartbeat keeps a session alive: after the user logged in at `source`
/// sends one, the timer that was live before is no longer current, so when it
/// fires `expire` changes nothing and sends nothing; the user stays online
/// under a new live timer.
pub proof fn lemma_heartbeat_keeps_session(s0: ServerState, s1: ServerState, source: PeerAddr)
    requires
        s0.wf(),
        s0.logged_in_at(source),
        renewed(s0, s1, source),
    ensures
        ({
            let name = s0.addr2user@[source]@;
            &&& !timer_is_current(s1, name, s0.user_active_timers@[name])
            &&& timer_is_current(s1, name, s0.next_timer)
            &&& s1.users@[name].online_info == s0.users@[name].online_info
            &&& s1.users@[name].online_info is Some
        }),
{
}

/// A presence announcement about `name` reaches every bound address of
/// another user, and never one bound to `name`.
pub proof fn lemma_announcement_recipients(a2u: Map<PeerAddr, String>, name: Seq<char>, a: PeerAddr)
    ensures
        others_of(a2u, name).contains(a) <==> (a2u.contains_key(a) && a2u[a]@ != name),
        a2u.contains_key(a) && a2u[a]@ == name ==> !others_of(a2u, name).contains(a),
{
}

} // verus!
