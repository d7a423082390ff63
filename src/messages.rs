//! Encoding and decoding of the protocol's structured values.

pub use crate::codec::at;
use crate::codec::{
 be, enc_bool, enc_bytes, enc_i32, enc_i8, enc_str, enc_u128, enc_u16,
    enc_u32, enc_u64, enc_u8, encode_bool, encode_bytes, encode_i32, encode_i8, encode_key,
    encode_string, encode_u128, encode_u16, encode_u32, encode_u64, encode_u8, lemma_at_join,
    lemma_at_join3, lemma_at_split, lemma_at_split3, parse_bool, parse_bytes,
    parse_i32, parse_i8, parse_key, parse_string, parse_u128, parse_u16, parse_u32, parse_u64,
    parse_u8,
};
use crate::data::{
    Command, ErrorCode, IpAddress, Message, Notification, PeerAddr, Response, ResponseData,
    SecureMsg, Timestamp, UserInfo, UserOnlineInfo,
};
use vstd::prelude::*;
use vstd::utf8::encode_utf8;

verus! {

broadcast use crate::codec::lemma_be_len;

pub open spec fn enc_addr(a: PeerAddr) -> Seq<u8> {
    match a.ip {
        IpAddress::V4(x) => enc_u32(0) + enc_u32(x) + enc_u16(a.port),
        IpAddress::V6(x) => enc_u32(1) + enc_u128(x) + enc_u16(a.port),
    }
}

pub open spec fn enc_ts(t: Timestamp) -> Seq<u8> {
    enc_i32(t.year) + enc_u16(t.ordinal) + enc_u8(t.hour) + enc_u8(t.minute) + enc_u8(t.second)
        + enc_u32(t.nanosecond) + enc_i8(t.offset_hours) + enc_i8(t.offset_minutes) + enc_i8(
        t.offset_seconds,
    )
}

pub fn encode_addr(out: &mut Vec<u8>, a: &PeerAddr)
    ensures
        final(out)@ == old(out)@ + enc_addr(*a),
{
    match a.ip {
        IpAddress::V4(x) => {
            encode_u32(out, 0);
            encode_u32(out, x);
        },
        IpAddress::V6(x) => {
            encode_u32(out, 1);
            encode_u128(out, x);
        },
    }
    encode_u16(out, a.port);
    proof {
        assert(final(out)@ =~= old(out)@ + enc_addr(*a));
    }
}

pub fn parse_addr(data: &[u8], pos: usize) -> (r: Option<(PeerAddr, usize)>)
    ensures
        r matches Some((v, end)) ==> end == pos + enc_addr(v).len() && at(data@, pos as int, enc_addr(v)),
        forall|v: PeerAddr| #[trigger] at(data@, pos as int, enc_addr(v)) ==> (r matches Some((w, end))
            && w == v),
{
    let (tag, end1) = match parse_u32(data, pos) {
        Some(x) => x,
        None => {
            proof {
                assert forall|v: PeerAddr| !#[trigger] at(data@, pos as int, enc_addr(v)) by {
                    if at(data@, pos as int, enc_addr(v)) {
                        match v.ip {
                            IpAddress::V4(x) => {
                                lemma_at_split3(data@, pos as int, enc_u32(0), enc_u32(x), enc_u16(v.port));
                            },
                            IpAddress::V6(x) => {
                                lemma_at_split3(data@, pos as int, enc_u32(1), enc_u128(x), enc_u16(v.port));
                            },
                        }
                    }
                }
            }
            return None;
        },
    };
    let ip_r = if tag == 0 {
        match parse_u32(data, end1) {
            Some((x, end2)) => Some((IpAddress::V4(x), end2)),
            None => None,
        }
    } else if tag == 1 {
        match parse_u128(data, end1) {
            Some((x, end2)) => Some((IpAddress::V6(x), end2)),
            None => None,
        }
    } else {
        None
    };
    let res = match ip_r {
        Some((ip, end2)) => match parse_u16(data, end2) {
            Some((port, end3)) => Some((PeerAddr { ip, port }, end3)),
            None => None,
        },
        None => None,
    };
    proof {
        assert forall|v: PeerAddr| #[trigger] at(data@, pos as int, enc_addr(v)) implies (res matches Some((w, end))
            && w == v) by {
            match v.ip {
                IpAddress::V4(x) => {
                    lemma_at_split3(data@, pos as int, enc_u32(0), enc_u32(x), enc_u16(v.port));
                },
                IpAddress::V6(x) => {
                    lemma_at_split3(data@, pos as int, enc_u32(1), enc_u128(x), enc_u16(v.port));
                },
            }
        }
        if res is Some {
            let (w, end) = res->0;
            match w.ip {
                IpAddress::V4(x) => {
                    lemma_at_join3(data@, pos as int, enc_u32(0), enc_u32(x), enc_u16(w.port));
                },
                IpAddress::V6(x) => {
                    lemma_at_join3(data@, pos as int, enc_u32(1), enc_u128(x), enc_u16(w.port));
                },
            }
        }
    }
    res
}

proof fn lemma_ts_lens(t: Timestamp)
    ensures
        enc_i32(t.year).len() == 4,
        enc_u8(t.hour).len() == 1,
        enc_i8(t.offset_hours).len() == 1,
        enc_i8(t.offset_minutes).len() == 1,
        enc_i8(t.offset_seconds).len() == 1,
        enc_ts(t).len() == 16,
{
}

/// The fields of a timestamp stand one after another.
proof fn lemma_ts_fields(data: Seq<u8>, pos: int, t: Timestamp)
    ensures
        at(data, pos, enc_ts(t)) <==> {
            &&& at(data, pos, enc_i32(t.year))
            &&& at(data, pos + 4, enc_u16(t.ordinal))
            &&& at(data, pos + 6, enc_u8(t.hour))
            &&& at(data, pos + 7, enc_u8(t.minute))
            &&& at(data, pos + 8, enc_u8(t.second))
            &&& at(data, pos + 9, enc_u32(t.nanosecond))
            &&& at(data, pos + 13, enc_i8(t.offset_hours))
            &&& at(data, pos + 14, enc_i8(t.offset_minutes))
            &&& at(data, pos + 15, enc_i8(t.offset_seconds))
        },
{
    lemma_ts_lens(t);
    let e1 = enc_i32(t.year);
    let e2 = e1 + enc_u16(t.ordinal);
    let e3 = e2 + enc_u8(t.hour);
    let e4 = e3 + enc_u8(t.minute);
    let e5 = e4 + enc_u8(t.second);
    let e6 = e5 + enc_u32(t.nanosecond);
    let e7 = e6 + enc_i8(t.offset_hours);
    let e8 = e7 + enc_i8(t.offset_minutes);
    let e9 = e8 + enc_i8(t.offset_seconds);
    assert(e9 == enc_ts(t));
    if at(data, pos, e9) {
        lemma_at_split(data, pos, e8, enc_i8(t.offset_seconds));
        lemma_at_split(data, pos, e7, enc_i8(t.offset_minutes));
        lemma_at_split(data, pos, e6, enc_i8(t.offset_hours));
        lemma_at_split(data, pos, e5, enc_u32(t.nanosecond));
        lemma_at_split(data, pos, e4, enc_u8(t.second));
        lemma_at_split(data, pos, e3, enc_u8(t.minute));
        lemma_at_split(data, pos, e2, enc_u8(t.hour));
        lemma_at_split(data, pos, e1, enc_u16(t.ordinal));
    }
    if at(data, pos, enc_i32(t.year)) && at(data, pos + 4, enc_u16(t.ordinal)) && at(data, pos + 6, enc_u8(t.hour))
        && at(data, pos + 7, enc_u8(t.minute)) && at(data, pos + 8, enc_u8(t.second)) && at(
        data,
        pos + 9,
        enc_u32(t.nanosecond),
    ) && at(data, pos + 13, enc_i8(t.offset_hours)) && at(data, pos + 14, enc_i8(t.offset_minutes))
        && at(data, pos + 15, enc_i8(t.offset_seconds)) {
        lemma_at_join(data, pos, e1, enc_u16(t.ordinal));
        lemma_at_join(data, pos, e2, enc_u8(t.hour));
        lemma_at_join(data, pos, e3, enc_u8(t.minute));
        lemma_at_join(data, pos, e4, enc_u8(t.second));
        lemma_at_join(data, pos, e5, enc_u32(t.nanosecond));
        lemma_at_join(data, pos, e6, enc_i8(t.offset_hours));
        lemma_at_join(data, pos, e7, enc_i8(t.offset_minutes));
        lemma_at_join(data, pos, e8, enc_i8(t.offset_seconds));
    }
}

pub fn encode_timestamp(out: &mut Vec<u8>, t: &Timestamp)
    ensures
        final(out)@ == old(out)@ + enc_ts(*t),
{
    encode_i32(out, t.year);
    encode_u16(out, t.ordinal);
    encode_u8(out, t.hour);
    encode_u8(out, t.minute);
    encode_u8(out, t.second);
    encode_u32(out, t.nanosecond);
    encode_i8(out, t.offset_hours);
    encode_i8(out, t.offset_minutes);
    encode_i8(out, t.offset_seconds);
    proof {
        assert(final(out)@ =~= old(out)@ + enc_ts(*t));
    }
}

/// Reads a timestamp, refusing one that names no real instant.
pub fn parse_timestamp(data: &[u8], pos: usize) -> (r: Option<(Timestamp, usize)>)
    ensures
        r matches Some((v, end)) ==> end == pos + 16 && at(data@, pos as int, enc_ts(v)) && v.wf(),
        forall|v: Timestamp| v.wf() && #[trigger] at(data@, pos as int, enc_ts(v)) ==> (r matches Some(
            (w, end),
        ) && w == v),
{
    let len = data.len();
    if pos > len || len - pos < 16 {
        proof {
            assert forall|v: Timestamp| !#[trigger] at(data@, pos as int, enc_ts(v)) by {
                lemma_ts_lens(v);
            }
        }
        return None;
    }
    let (year, _) = parse_i32(data, pos).unwrap();
    let (ordinal, _) = parse_u16(data, pos + 4).unwrap();
    let (hour, _) = parse_u8(data, pos + 6).unwrap();
    let (minute, _) = parse_u8(data, pos + 7).unwrap();
    let (second, _) = parse_u8(data, pos + 8).unwrap();
    let (nanosecond, _) = parse_u32(data, pos + 9).unwrap();
    let (offset_hours, _) = parse_i8(data, pos + 13).unwrap();
    let (offset_minutes, _) = parse_i8(data, pos + 14).unwrap();
    let (offset_seconds, _) = parse_i8(data, pos + 15).unwrap();
    let t = Timestamp {
        year,
        ordinal,
        hour,
        minute,
        second,
        nanosecond,
        offset_hours,
        offset_minutes,
        offset_seconds,
    };
    proof {
        lemma_ts_fields(data@, pos as int, t);
        assert forall|v: Timestamp| #[trigger] at(data@, pos as int, enc_ts(v)) implies v == t by {
            lemma_ts_fields(data@, pos as int, v);
        }
    }
    if t.is_valid() {
        Some((t, pos + 16))
    } else {
        None
    }
}

pub open spec fn enc_online(i: UserOnlineInfo) -> Seq<u8> {
    enc_addr(i.ip_address) + i.pub_key@
}

pub fn encode_online(out: &mut Vec<u8>, i: &UserOnlineInfo)
    ensures
        final(out)@ == old(out)@ + enc_online(*i),
{
    encode_addr(out, &i.ip_address);
    encode_key(out, &i.pub_key);
    proof {
        assert(final(out)@ =~= old(out)@ + enc_online(*i));
    }
}

pub fn parse_online(data: &[u8], pos: usize) -> (r: Option<(UserOnlineInfo, usize)>)
    ensures
        r matches Some((v, end)) ==> end == pos + enc_online(v).len() && at(data@, pos as int, enc_online(v)),
        forall|v: UserOnlineInfo| #[trigger] at(data@, pos as int, enc_online(v)) ==> (r matches Some(
            (w, end),
        ) && w == v),
{
    let res = match parse_addr(data, pos) {
        None => None,
        Some((a, end1)) => match parse_key(data, end1) {
            None => None,
            Some((k, end2)) => Some((UserOnlineInfo { ip_address: a, pub_key: k }, end2)),
        },
    };
    proof {
        assert forall|v: UserOnlineInfo| #[trigger] at(data@, pos as int, enc_online(v)) implies (res matches Some(
            (w, end),
        ) && w == v) by {
            lemma_at_split(data@, pos as int, enc_addr(v.ip_address), v.pub_key@);
        }
        if res is Some {
            let (w, end) = res->0;
            lemma_at_join(data@, pos as int, enc_addr(w.ip_address), w.pub_key@);
        }
    }
    res
}

pub open spec fn enc_opt_online(o: Option<UserOnlineInfo>) -> Seq<u8> {
    match o {
        None => seq![0u8],
        Some(i) => seq![1u8] + enc_online(i),
    }
}

pub fn encode_opt_online(out: &mut Vec<u8>, o: &Option<UserOnlineInfo>)
    ensures
        final(out)@ == old(out)@ + enc_opt_online(*o),
{
    match o {
        None => {
            encode_u8(out, 0);
        },
        Some(i) => {
            encode_u8(out, 1);
            encode_online(out, i);
        },
    }
    proof {
        assert(final(out)@ =~= old(out)@ + enc_opt_online(*o));
    }
}

pub fn parse_opt_online(data: &[u8], pos: usize) -> (r: Option<(Option<UserOnlineInfo>, usize)>)
    ensures
        r matches Some((v, end)) ==> end == pos + enc_opt_online(v).len() && at(data@, pos as int, enc_opt_online(v)),
        forall|v: Option<UserOnlineInfo>| #[trigger] at(data@, pos as int, enc_opt_online(v)) ==> (r matches Some(
            (w, end),
        ) && w == v),
{
    let res = match parse_u8(data, pos) {
        Some((0, end1)) => Some((None, end1)),
        Some((1, end1)) => match parse_online(data, end1) {
            Some((i, end2)) => Some((Some(i), end2)),
            None => None,
        },
        _ => None,
    };
    proof {
        assert forall|v: Option<UserOnlineInfo>| #[trigger] at(data@, pos as int, enc_opt_online(v)) implies (res matches Some(
            (w, end),
        ) && w == v) by {
            match v {
                None => {
                    assert(at(data@, pos as int, enc_u8(0)));
                },
                Some(i) => {
                    lemma_at_split(data@, pos as int, enc_u8(1), enc_online(i));
                },
            }
        }
        if res is Some {
            let (w, end) = res->0;
            match w {
                None => {
                    assert(enc_opt_online(w) == enc_u8(0));
                },
                Some(i) => {
                    lemma_at_join(data@, pos as int, enc_u8(1), enc_online(i));
                },
            }
        }
    }
    res
}

pub open spec fn enc_user_info(u: UserInfo) -> Seq<u8> {
    enc_str(u.name@) + enc_opt_online(u.online_info)
}

pub fn encode_user_info(out: &mut Vec<u8>, u: &UserInfo)
    ensures
        final(out)@ == old(out)@ + enc_user_info(*u),
{
    encode_string(out, &u.name);
    encode_opt_online(out, &u.online_info);
    proof {
        assert(final(out)@ =~= old(out)@ + enc_user_info(*u));
    }
}

pub fn parse_user_info(data: &[u8], pos: usize) -> (r: Option<(UserInfo, usize)>)
    ensures
        r matches Some((v, end)) ==> end == pos + enc_user_info(v).len() && at(data@, pos as int, enc_user_info(v)),
        forall|v: UserInfo| #[trigger] at(data@, pos as int, enc_user_info(v)) ==> (r matches Some(
            (w, end),
        ) && enc_user_info(w) == enc_user_info(v)),
{
    let res = match parse_string(data, pos) {
        None => None,
        Some((name, end1)) => match parse_opt_online(data, end1) {
            None => None,
            Some((o, end2)) => Some((UserInfo { name, online_info: o }, end2)),
        },
    };
    proof {
        assert forall|v: UserInfo| #[trigger] at(data@, pos as int, enc_user_info(v)) implies (res matches Some(
            (w, end),
        ) && enc_user_info(w) == enc_user_info(v)) by {
            lemma_at_split(data@, pos as int, enc_str(v.name@), enc_opt_online(v.online_info));
        }
        if res is Some {
            let (w, end) = res->0;
            lemma_at_join(data@, pos as int, enc_str(w.name@), enc_opt_online(w.online_info));
        }
    }
    res
}

/// The users one after another, with no count.
pub open spec fn enc_users(s: Seq<UserInfo>) -> Seq<u8>
    decreases s.len(),
{
    if s.len() == 0 {
        Seq::empty()
    } else {
        enc_users(s.drop_last()) + enc_user_info(s.last())
    }
}

pub open spec fn enc_user_list(s: Seq<UserInfo>) -> Seq<u8> {
    be(s.len(), 8) + enc_users(s)
}

proof fn lemma_enc_users_len(s: Seq<UserInfo>)
    ensures
        enc_users(s).len() >= 8 * s.len(),
    decreases s.len(),
{
    if s.len() > 0 {
        lemma_enc_users_len(s.drop_last());
    }
}

proof fn lemma_enc_users_push(s: Seq<UserInfo>, u: UserInfo)
    ensures
        enc_users(s.push(u)) == enc_users(s) + enc_user_info(u),
{
    assert(s.push(u).drop_last() =~= s);
}

proof fn lemma_enc_users_split(s: Seq<UserInfo>, k: int)
    requires
        0 <= k < s.len(),
    ensures
        exists|rest: Seq<u8>| enc_users(s) == enc_users(s.take(k)) + enc_user_info(s[k]) + rest,
    decreases s.len(),
{
    if k == s.len() - 1 {
        assert(s.drop_last() =~= s.take(k));
        assert(enc_users(s) == enc_users(s.take(k)) + enc_user_info(s[k]) + Seq::<u8>::empty());
    } else {
        lemma_enc_users_split(s.drop_last(), k);
        assert(s.drop_last().take(k) =~= s.take(k));
        let rest = choose|rest: Seq<u8>|
            enc_users(s.drop_last()) == enc_users(s.drop_last().take(k)) + enc_user_info(
                s.drop_last()[k],
            ) + rest;
        assert(enc_users(s) =~= enc_users(s.take(k)) + enc_user_info(s[k]) + (rest + enc_user_info(
            s.last(),
        )));
    }
}

pub fn encode_user_list(out: &mut Vec<u8>, users: &Vec<UserInfo>)
    ensures
        final(out)@ == old(out)@ + enc_user_list(users@),
{
    encode_u64(out, users.len() as u64);
    let ghost start = out@;
    let mut i: usize = 0;
    while i < users.len()
        invariant
            i <= users@.len(),
            out@ == start + enc_users(users@.take(i as int)),
        decreases users@.len() - i,
    {
        encode_user_info(out, &users[i]);
        proof {
            lemma_enc_users_push(users@.take(i as int), users@[i as int]);
            assert(users@.take(i + 1) =~= users@.take(i as int).push(users@[i as int]));
        }
        i = i + 1;
    }
    proof {
        assert(users@.take(users@.len() as int) =~= users@);
        assert(final(out)@ =~= old(out)@ + enc_user_list(users@));
    }
}

pub fn parse_user_list(data: &[u8], pos: usize) -> (r: Option<(Vec<UserInfo>, usize)>)
    ensures
        r matches Some((v, end)) ==> end == pos + enc_user_list(v@).len() && at(data@, pos as int, enc_user_list(v@)),
        forall|v: Seq<UserInfo>| #[trigger] at(data@, pos as int, enc_user_list(v)) ==> (r matches Some(
            (w, end),
        ) && enc_user_list(w@) == enc_user_list(v)),
{
    let len = data.len();
    let (n, start) = match parse_u64(data, pos) {
        Some(x) => x,
        None => {
            proof {
                assert forall|v: Seq<UserInfo>| !#[trigger] at(data@, pos as int, enc_user_list(v)) by {
                }
            }
            return None;
        },
    };
    let mut out: Vec<UserInfo> = Vec::new();
    let mut p: usize = start;
    let mut k: u64 = 0;
    proof {
        assert(enc_users(out@) =~= Seq::<u8>::empty());
        assert(data@.subrange(start as int, start as int) =~= Seq::<u8>::empty());
        assert forall|v: Seq<UserInfo>| #[trigger] at(data@, pos as int, enc_user_list(v)) implies v.len() == n
            && enc_users(out@) == enc_users(v.take(0)) by {
            lemma_at_split(data@, pos as int, be(v.len(), 8), enc_users(v));
            lemma_enc_users_len(v);
            let x = v.len() as u64;
            assert(at(data@, pos as int, enc_u64(x)));
            assert(v.take(0) =~= Seq::<UserInfo>::empty());
        }
    }
    while k < n
        invariant
            len == data@.len(),
            start == pos + 8,
            k <= n,
            out@.len() == k,
            p == start + enc_users(out@).len(),
            at(data@, start as int, enc_users(out@)),
            forall|v: Seq<UserInfo>| #[trigger] at(data@, pos as int, enc_user_list(v)) ==> v.len() == n
                && enc_users(out@) == enc_users(v.take(k as int)),
        decreases n - k,
    {
        let ghost before = out@;
        match parse_user_info(data, p) {
            None => {
                proof {
                    assert forall|v: Seq<UserInfo>| !#[trigger] at(data@, pos as int, enc_user_list(v)) by {
                        if at(data@, pos as int, enc_user_list(v)) {
                            lemma_at_split(data@, pos as int, be(v.len(), 8), enc_users(v));
                            lemma_enc_users_split(v, k as int);
                            let rest = choose|rest: Seq<u8>|
                                enc_users(v) == enc_users(v.take(k as int)) + enc_user_info(v[k as int]) + rest;
                            lemma_at_split3(data@, start as int, enc_users(v.take(k as int)), enc_user_info(v[k as int]), rest);
                        }
                    }
                }
                return None;
            },
            Some((u, end2)) => {
                proof {
                    lemma_at_join(data@, start as int, enc_users(out@), enc_user_info(u));
                    lemma_enc_users_push(out@, u);
                    assert forall|v: Seq<UserInfo>| #[trigger] at(data@, pos as int, enc_user_list(v)) implies v.len() == n
                        && enc_users(out@.push(u)) == enc_users(v.take(k + 1)) by {
                        lemma_at_split(data@, pos as int, be(v.len(), 8), enc_users(v));
                        lemma_enc_users_split(v, k as int);
                        let rest = choose|rest: Seq<u8>|
                            enc_users(v) == enc_users(v.take(k as int)) + enc_user_info(v[k as int]) + rest;
                        lemma_at_split3(data@, start as int, enc_users(v.take(k as int)), enc_user_info(v[k as int]), rest);
                        lemma_enc_users_push(v.take(k as int), v[k as int]);
                        assert(v.take(k + 1) =~= v.take(k as int).push(v[k as int]));
                    }
                }
                out.push(u);
                p = end2;
                k = k + 1;
            },
        }
    }
    proof {
        lemma_at_join(data@, pos as int, be(n as nat, 8), enc_users(out@));
        assert forall|v: Seq<UserInfo>| #[trigger] at(data@, pos as int, enc_user_list(v)) implies enc_user_list(out@)
            == enc_user_list(v) by {
            assert(v.take(n as int) =~= v);
        }
    }
    Some((out, p))
}

pub open spec fn enc_command(c: Command) -> Seq<u8> {
    match c {
        Command::Register { username, password } => enc_u32(0) + enc_str(username@) + password@,
        Command::Login { username, password } => enc_u32(1) + enc_str(username@) + password@,
        Command::ChangePassword { old, new } => enc_u32(2) + old@ + new@,
        Command::GetChatroomStatus => enc_u32(3),
        Command::Heartbeat => enc_u32(4),
        Command::Logout => enc_u32(5),
    }
}

pub open spec fn command_tag(c: Command) -> u32 {
    match c {
        Command::Register { .. } => 0,
        Command::Login { .. } => 1,
        Command::ChangePassword { .. } => 2,
        Command::GetChatroomStatus => 3,
        Command::Heartbeat => 4,
        Command::Logout => 5,
    }
}

/// A command's encoding opens with its variant's index.
pub proof fn lemma_command_tag(c: Command)
    ensures
        enc_command(c).len() >= 4,
        enc_command(c).subrange(0, 4) == enc_u32(command_tag(c)),
{
    let t = enc_u32(command_tag(c));
    assert(enc_command(c).subrange(0, 4) =~= t);
}

/// Two commands with one encoding: the same variant, with names of one view
/// and the same keys.
pub open spec fn same_command(w: Command, c: Command) -> bool {
    match (w, c) {
        (Command::Register { username: u1, password: p1 }, Command::Register { username: u2, password: p2 }) => u1@
            == u2@ && p1 == p2,
        (Command::Login { username: u1, password: p1 }, Command::Login { username: u2, password: p2 }) => u1@
            == u2@ && p1 == p2,
        (Command::ChangePassword { old: o1, new: n1 }, Command::ChangePassword { old: o2, new: n2 }) => o1 == o2
            && n1 == n2,
        (Command::GetChatroomStatus, Command::GetChatroomStatus) => true,
        (Command::Heartbeat, Command::Heartbeat) => true,
        (Command::Logout, Command::Logout) => true,
        _ => false,
    }
}

proof fn lemma_name_and_key(u1: Seq<char>, p1: [u8; 32], u2: Seq<char>, p2: [u8; 32])
    requires
        enc_str(u1) + p1@ == enc_str(u2) + p2@,
    ensures
        u1 == u2,
        p1 == p2,
{
    let e = enc_str(u1) + p1@;
    let l1 = encode_utf8(u1).len() as int;
    let l2 = encode_utf8(u2).len() as int;
    assert(e.len() == 8 + l1 + 32);
    assert((enc_str(u2) + p2@).len() == 8 + l2 + 32);
    assert(encode_utf8(u1) =~= e.subrange(8, 8 + l1));
    assert(encode_utf8(u2) =~= e.subrange(8, 8 + l1));
    vstd::utf8::encode_utf8_decode_utf8(u1);
    vstd::utf8::encode_utf8_decode_utf8(u2);
    assert(p1@ =~= e.skip(8 + l1));
    assert(p2@ =~= e.skip(8 + l1));
    assert(p1 =~= p2);
}

/// A command's encoding determines the command.
pub proof fn lemma_command_unique(w: Command, c: Command)
    requires
        enc_command(w) == enc_command(c),
    ensures
        same_command(w, c),
{
    lemma_command_tag(w);
    lemma_command_tag(c);
    reveal_with_fuel(crate::codec::pow256, 5);
    crate::codec::lemma_be_round(command_tag(w) as nat, 4);
    crate::codec::lemma_be_round(command_tag(c) as nat, 4);
    let e = enc_command(w);
    match (w, c) {
        (Command::Register { username: u1, password: p1 }, Command::Register { username: u2, password: p2 }) => {
            assert(e.skip(4) =~= enc_str(u1@) + p1@);
            assert(e.skip(4) =~= enc_str(u2@) + p2@);
            lemma_name_and_key(u1@, p1, u2@, p2);
        },
        (Command::Login { username: u1, password: p1 }, Command::Login { username: u2, password: p2 }) => {
            assert(e.skip(4) =~= enc_str(u1@) + p1@);
            assert(e.skip(4) =~= enc_str(u2@) + p2@);
            lemma_name_and_key(u1@, p1, u2@, p2);
        },
        (Command::ChangePassword { old: o1, new: n1 }, Command::ChangePassword { old: o2, new: n2 }) => {
            assert(o1@ =~= e.subrange(4, 36));
            assert(o2@ =~= e.subrange(4, 36));
            assert(n1@ =~= e.skip(36));
            assert(n2@ =~= e.skip(36));
            assert(o1 =~= o2);
            assert(n1 =~= n2);
        },
        _ => {},
    }
}

pub fn encode_command(out: &mut Vec<u8>, c: &Command)
    ensures
        final(out)@ == old(out)@ + enc_command(*c),
{
    match c {
        Command::Register { username, password } => {
            encode_u32(out, 0);
            encode_string(out, username);
            encode_key(out, password);
        },
        Command::Login { username, password } => {
            encode_u32(out, 1);
            encode_string(out, username);
            encode_key(out, password);
        },
        Command::ChangePassword { old, new } => {
            encode_u32(out, 2);
            encode_key(out, old);
            encode_key(out, new);
        },
        Command::GetChatroomStatus => {
            encode_u32(out, 3);
        },
        Command::Heartbeat => {
            encode_u32(out, 4);
        },
        Command::Logout => {
            encode_u32(out, 5);
        },
    }
    proof {
        assert(final(out)@ =~= old(out)@ + enc_command(*c));
    }
}

fn parse_name_and_key(data: &[u8], pos: usize) -> (r: Option<(String, [u8; 32], usize)>)
    ensures
        r matches Some((n, k, end)) ==> end == pos + (enc_str(n@) + k@).len() && at(data@, pos as int, enc_str(n@) + k@),
        forall|n: Seq<char>, k: [u8; 32]| #[trigger] at(data@, pos as int, enc_str(n) + k@) ==> (r matches Some(
            (n2, k2, end),
        ) && n2@ == n && k2 == k),
{
    let res = match parse_string(data, pos) {
        None => None,
        Some((name, end1)) => match parse_key(data, end1) {
            None => None,
            Some((k, end2)) => Some((name, k, end2)),
        },
    };
    proof {
        assert forall|n: Seq<char>, k: [u8; 32]| #[trigger] at(data@, pos as int, enc_str(n) + k@) implies (res matches Some(
            (n2, k2, end),
        ) && n2@ == n && k2 == k) by {
            lemma_at_split(data@, pos as int, enc_str(n), k@);
        }
        if res is Some {
            let (n2, k2, end) = res->0;
            lemma_at_join(data@, pos as int, enc_str(n2@), k2@);
        }
    }
    res
}

fn parse_two_keys(data: &[u8], pos: usize) -> (r: Option<([u8; 32], [u8; 32], usize)>)
    ensures
        r matches Some((a, b, end)) ==> end == pos + 64 && at(data@, pos as int, a@ + b@),
        forall|a: [u8; 32], b: [u8; 32]| #[trigger] at(data@, pos as int, a@ + b@) ==> (r matches Some(
            (a2, b2, end),
        ) && a2 == a && b2 == b),
{
    let res = match parse_key(data, pos) {
        None => None,
        Some((a, end1)) => match parse_key(data, end1) {
            None => None,
            Some((b, end2)) => Some((a, b, end2)),
        },
    };
    proof {
        assert forall|a: [u8; 32], b: [u8; 32]| #[trigger] at(data@, pos as int, a@ + b@) implies (res matches Some(
            (a2, b2, end),
        ) && a2 == a && b2 == b) by {
            lemma_at_split(data@, pos as int, a@, b@);
        }
        if res is Some {
            let (a2, b2, end) = res->0;
            lemma_at_join(data@, pos as int, a2@, b2@);
        }
    }
    res
}

pub fn parse_command(data: &[u8], pos: usize) -> (r: Option<(Command, usize)>)
    ensures
        r matches Some((v, end)) ==> end == pos + enc_command(v).len() && at(data@, pos as int, enc_command(v)),
        forall|v: Command| #[trigger] at(data@, pos as int, enc_command(v)) ==> (r matches Some((w, end))
            && enc_command(w) == enc_command(v)),
{
    let res: Option<(Command, usize)> = match parse_u32(data, pos) {
        None => None,
        Some((tag, end1)) => {
            if tag == 0 || tag == 1 {
                match parse_name_and_key(data, end1) {
                    None => None,
                    Some((username, password, end2)) => {
                        if tag == 0 {
                            Some((Command::Register { username, password }, end2))
                        } else {
                            Some((Command::Login { username, password }, end2))
                        }
                    },
                }
            } else if tag == 2 {
                match parse_two_keys(data, end1) {
                    None => None,
                    Some((old, new, end2)) => Some((Command::ChangePassword { old, new }, end2)),
                }
            } else if tag == 3 {
                Some((Command::GetChatroomStatus, end1))
            } else if tag == 4 {
                Some((Command::Heartbeat, end1))
            } else if tag == 5 {
                Some((Command::Logout, end1))
            } else {
                None
            }
        },
    };
    proof {
        assert forall|v: Command| #[trigger] at(data@, pos as int, enc_command(v)) implies (res matches Some((w, end))
            && enc_command(w) == enc_command(v)) by {
            match v {
                Command::Register { username, password } => {
                    lemma_at_split3(data@, pos as int, enc_u32(0), enc_str(username@), password@);
                    lemma_at_join(data@, pos + 4, enc_str(username@), password@);
                },
                Command::Login { username, password } => {
                    lemma_at_split3(data@, pos as int, enc_u32(1), enc_str(username@), password@);
                    lemma_at_join(data@, pos + 4, enc_str(username@), password@);
                },
                Command::ChangePassword { old, new } => {
                    lemma_at_split3(data@, pos as int, enc_u32(2), old@, new@);
                    lemma_at_join(data@, pos + 4, old@, new@);
                },
                _ => {
                },
            }
        }
        if res is Some {
            let (w, end) = res->0;
            match w {
                Command::Register { username, password } => {
                    lemma_at_join(data@, pos as int, enc_u32(0), enc_str(username@) + password@);
                    assert(enc_command(w) =~= enc_u32(0) + (enc_str(username@) + password@));
                },
                Command::Login { username, password } => {
                    lemma_at_join(data@, pos as int, enc_u32(1), enc_str(username@) + password@);
                    assert(enc_command(w) =~= enc_u32(1) + (enc_str(username@) + password@));
                },
                Command::ChangePassword { old, new } => {
                    lemma_at_join(data@, pos as int, enc_u32(2), old@ + new@);
                    assert(enc_command(w) =~= enc_u32(2) + (old@ + new@));
                },
                _ => {
                },
            }
        }
    }
    res
}

pub open spec fn error_index(e: ErrorCode) -> u32 {
    match e {
        ErrorCode::UserExisted => 0,
        ErrorCode::InvalidUserOrPass => 1,
        ErrorCode::LoginRequired => 2,
        ErrorCode::ConnectionNotSecure => 3,
        ErrorCode::Unsupported => 4,
    }
}

pub open spec fn enc_response(r: Response) -> Seq<u8> {
    match r {
        Ok(ResponseData::Success) => enc_u32(0) + enc_u32(0),
        Ok(ResponseData::ChatroomStatus { users }) => enc_u32(0) + enc_u32(1) + enc_user_list(users@),
        Err(e) => enc_u32(1) + enc_u32(error_index(e)),
    }
}

pub fn encode_response(out: &mut Vec<u8>, r: &Response)
    ensures
        final(out)@ == old(out)@ + enc_response(*r),
{
    match r {
        Ok(ResponseData::Success) => {
            encode_u32(out, 0);
            encode_u32(out, 0);
        },
        Ok(ResponseData::ChatroomStatus { users }) => {
            encode_u32(out, 0);
            encode_u32(out, 1);
            encode_user_list(out, users);
        },
        Err(e) => {
            encode_u32(out, 1);
            let i: u32 = match e {
                ErrorCode::UserExisted => 0,
                ErrorCode::InvalidUserOrPass => 1,
                ErrorCode::LoginRequired => 2,
                ErrorCode::ConnectionNotSecure => 3,
                ErrorCode::Unsupported => 4,
            };
            encode_u32(out, i);
        },
    }
    proof {
        assert(final(out)@ =~= old(out)@ + enc_response(*r));
    }
}

pub fn parse_response(data: &[u8], pos: usize) -> (r: Option<(Response, usize)>)
    ensures
        r matches Some((v, end)) ==> end == pos + enc_response(v).len() && at(data@, pos as int, enc_response(v)),
        forall|v: Response| #[trigger] at(data@, pos as int, enc_response(v)) ==> (r matches Some((w, end))
            && enc_response(w) == enc_response(v)),
{
    let res: Option<(Response, usize)> = match parse_u32(data, pos) {
        None => None,
        Some((outer, end1)) => match parse_u32(data, end1) {
            None => None,
            Some((inner, end2)) => {
                if outer == 0 {
                    if inner == 0 {
                        Some((Ok(ResponseData::Success), end2))
                    } else if inner == 1 {
                        match parse_user_list(data, end2) {
                            None => None,
                            Some((users, end3)) => Some((Ok(ResponseData::ChatroomStatus { users }), end3)),
                        }
                    } else {
                        None
                    }
                } else if outer == 1 {
                    if inner == 0 {
                        Some((Err(ErrorCode::UserExisted), end2))
                    } else if inner == 1 {
                        Some((Err(ErrorCode::InvalidUserOrPass), end2))
                    } else if inner == 2 {
                        Some((Err(ErrorCode::LoginRequired), end2))
                    } else if inner == 3 {
                        Some((Err(ErrorCode::ConnectionNotSecure), end2))
                    } else if inner == 4 {
                        Some((Err(ErrorCode::Unsupported), end2))
                    } else {
                        None
                    }
                } else {
                    None
                }
            },
        },
    };
    proof {
        assert forall|v: Response| #[trigger] at(data@, pos as int, enc_response(v)) implies (res matches Some((w, end))
            && enc_response(w) == enc_response(v)) by {
            match v {
                Ok(ResponseData::Success) => {
                    lemma_at_split(data@, pos as int, enc_u32(0), enc_u32(0));
                },
                Ok(ResponseData::ChatroomStatus { users }) => {
                    lemma_at_split3(data@, pos as int, enc_u32(0), enc_u32(1), enc_user_list(users@));
                },
                Err(e) => {
                    lemma_at_split(data@, pos as int, enc_u32(1), enc_u32(error_index(e)));
                },
            }
        }
        if res is Some {
            let (w, end) = res->0;
            match w {
                Ok(ResponseData::Success) => {
                    lemma_at_join(data@, pos as int, enc_u32(0), enc_u32(0));
                },
                Ok(ResponseData::ChatroomStatus { users }) => {
                    lemma_at_join3(data@, pos as int, enc_u32(0), enc_u32(1), enc_user_list(users@));
                },
                Err(e) => {
                    lemma_at_join(data@, pos as int, enc_u32(1), enc_u32(error_index(e)));
                },
            }
        }
    }
    res
}

/// Two notifications with the same variant, timestamp, name (by view) and info.
pub open spec fn same_notification(w: Notification, v: Notification) -> bool {
    match (w, v) {
        (Notification::Online { timestamp: t1, name: n1, info: i1 }, Notification::Online { timestamp: t2, name: n2, info: i2 }) => t1
            == t2 && n1@ == n2@ && i1 == i2,
        (Notification::Offline { timestamp: t1, name: n1 }, Notification::Offline { timestamp: t2, name: n2 }) => t1 == t2
            && n1@ == n2@,
        _ => false,
    }
}

/// Two messages with the same flag, timestamp and text (by view).
pub open spec fn same_message(w: Message, v: Message) -> bool {
    w.to_all == v.to_all && w.timestamp == v.timestamp && w.msg@ == v.msg@
}

pub open spec fn notification_wf(n: Notification) -> bool {
    match n {
        Notification::Online { timestamp, .. } => timestamp.wf(),
        Notification::Offline { timestamp, .. } => timestamp.wf(),
    }
}

pub open spec fn enc_notification(n: Notification) -> Seq<u8> {
    match n {
        Notification::Online { timestamp, name, info } => enc_u32(0) + enc_ts(timestamp) + enc_str(name@)
            + enc_online(info),
        Notification::Offline { timestamp, name } => enc_u32(1) + enc_ts(timestamp) + enc_str(name@),
    }
}

pub fn encode_notification(out: &mut Vec<u8>, n: &Notification)
    ensures
        final(out)@ == old(out)@ + enc_notification(*n),
{
    match n {
        Notification::Online { timestamp, name, info } => {
            encode_u32(out, 0);
            encode_timestamp(out, timestamp);
            encode_string(out, name);
            encode_online(out, info);
        },
        Notification::Offline { timestamp, name } => {
            encode_u32(out, 1);
            encode_timestamp(out, timestamp);
            encode_string(out, name);
        },
    }
    proof {
        assert(final(out)@ =~= old(out)@ + enc_notification(*n));
    }
}

pub fn parse_notification(data: &[u8], pos: usize) -> (r: Option<(Notification, usize)>)
    ensures
        r matches Some((v, end)) ==> end == pos + enc_notification(v).len() && at(data@, pos as int, enc_notification(v))
            && notification_wf(v),
        forall|v: Notification| notification_wf(v) && #[trigger] at(data@, pos as int, enc_notification(v)) ==> (r matches Some(
            (w, end),
        ) && enc_notification(w) == enc_notification(v) && same_notification(w, v)),
{
    let res: Option<(Notification, usize)> = match parse_u32(data, pos) {
        None => None,
        Some((tag, end1)) => match parse_timestamp(data, end1) {
            None => None,
            Some((timestamp, end2)) => match parse_string(data, end2) {
                None => None,
                Some((name, end3)) => {
                    if tag == 0 {
                        match parse_online(data, end3) {
                            None => None,
                            Some((info, end4)) => Some((Notification::Online { timestamp, name, info }, end4)),
                        }
                    } else if tag == 1 {
                        Some((Notification::Offline { timestamp, name }, end3))
                    } else {
                        None
                    }
                },
            },
        },
    };
    proof {
        assert forall|v: Notification| notification_wf(v) && #[trigger] at(data@, pos as int, enc_notification(v)) implies (res matches Some(
            (w, end),
        ) && enc_notification(w) == enc_notification(v) && same_notification(w, v)) by {
            match v {
                Notification::Online { timestamp, name, info } => {
                    lemma_at_split(data@, pos as int, enc_u32(0) + enc_ts(timestamp) + enc_str(name@), enc_online(info));
                    lemma_at_split3(data@, pos as int, enc_u32(0), enc_ts(timestamp), enc_str(name@));
                },
                Notification::Offline { timestamp, name } => {
                    lemma_at_split3(data@, pos as int, enc_u32(1), enc_ts(timestamp), enc_str(name@));
                },
            }
        }
        if res is Some {
            let (w, end) = res->0;
            match w {
                Notification::Online { timestamp, name, info } => {
                    lemma_at_join3(data@, pos as int, enc_u32(0), enc_ts(timestamp), enc_str(name@));
                    lemma_at_join(data@, pos as int, enc_u32(0) + enc_ts(timestamp) + enc_str(name@), enc_online(info));
                },
                Notification::Offline { timestamp, name } => {
                    lemma_at_join3(data@, pos as int, enc_u32(1), enc_ts(timestamp), enc_str(name@));
                },
            }
        }
    }
    res
}

pub open spec fn enc_message(m: Message) -> Seq<u8> {
    enc_bool(m.to_all) + enc_ts(m.timestamp) + enc_str(m.msg@)
}

pub fn encode_message(out: &mut Vec<u8>, m: &Message)
    ensures
        final(out)@ == old(out)@ + enc_message(*m),
{
    encode_bool(out, m.to_all);
    encode_timestamp(out, &m.timestamp);
    encode_string(out, &m.msg);
    proof {
        assert(final(out)@ =~= old(out)@ + enc_message(*m));
    }
}

pub fn parse_message(data: &[u8], pos: usize) -> (r: Option<(Message, usize)>)
    ensures
        r matches Some((v, end)) ==> end == pos + enc_message(v).len() && at(data@, pos as int, enc_message(v))
            && v.timestamp.wf(),
        forall|v: Message| v.timestamp.wf() && #[trigger] at(data@, pos as int, enc_message(v)) ==> (r matches Some(
            (w, end),
        ) && enc_message(w) == enc_message(v) && same_message(w, v)),
{
    let res = match parse_bool(data, pos) {
        None => None,
        Some((to_all, end1)) => match parse_timestamp(data, end1) {
            None => None,
            Some((timestamp, end2)) => match parse_string(data, end2) {
                None => None,
                Some((msg, end3)) => Some((Message { to_all, timestamp, msg }, end3)),
            },
        },
    };
    proof {
        assert forall|v: Message| v.timestamp.wf() && #[trigger] at(data@, pos as int, enc_message(v)) implies (res matches Some(
            (w, end),
        ) && enc_message(w) == enc_message(v) && same_message(w, v)) by {
            lemma_at_split3(data@, pos as int, enc_bool(v.to_all), enc_ts(v.timestamp), enc_str(v.msg@));
        }
        if res is Some {
            let (w, end) = res->0;
            lemma_at_join3(data@, pos as int, enc_bool(w.to_all), enc_ts(w.timestamp), enc_str(w.msg@));
        }
    }
    res
}

pub open spec fn enc_secure(m: SecureMsg) -> Seq<u8> {
    match m {
        SecureMsg::MyKey(k) => enc_u32(0) + k@,
        SecureMsg::PeerKey(k) => enc_u32(1) + k@,
        SecureMsg::Msg(b) => enc_u32(2) + enc_bytes(b@),
    }
}

pub fn encode_secure(out: &mut Vec<u8>, m: &SecureMsg)
    ensures
        final(out)@ == old(out)@ + enc_secure(*m),
{
    match m {
        SecureMsg::MyKey(k) => {
            encode_u32(out, 0);
            encode_key(out, k);
        },
        SecureMsg::PeerKey(k) => {
            encode_u32(out, 1);
            encode_key(out, k);
        },
        SecureMsg::Msg(b) => {
            encode_u32(out, 2);
            encode_bytes(out, b.as_slice());
        },
    }
    proof {
        assert(final(out)@ =~= old(out)@ + enc_secure(*m));
    }
}

pub open spec fn secure_tag(w: SecureMsg) -> u32 {
    match w {
        SecureMsg::MyKey(_) => 0,
        SecureMsg::PeerKey(_) => 1,
        SecureMsg::Msg(_) => 2,
    }
}

/// An envelope's encoding opens with its variant's index and then holds its content.
pub proof fn lemma_envelope_tag(w: SecureMsg, t: u32, rest: Seq<u8>)
    requires
        enc_secure(w) == enc_u32(t) + rest,
    ensures
        secure_tag(w) == t,
        w matches SecureMsg::MyKey(x) ==> x@ == rest,
        w matches SecureMsg::PeerKey(x) ==> x@ == rest,
        w matches SecureMsg::Msg(x) ==> enc_bytes(x@) == rest,
{
    let e = enc_secure(w);
    reveal_with_fuel(crate::codec::pow256, 5);
    let wt = secure_tag(w);
    assert(e.subrange(0, 4) =~= enc_u32(wt));
    assert(e.subrange(0, 4) =~= enc_u32(t));
    crate::codec::lemma_be_round(wt as nat, 4);
    crate::codec::lemma_be_round(t as nat, 4);
    assert(e.skip(4) =~= rest);
    match w {
        SecureMsg::MyKey(x) => {
            assert(e.skip(4) =~= x@);
        },
        SecureMsg::PeerKey(x) => {
            assert(e.skip(4) =~= x@);
        },
        SecureMsg::Msg(x) => {
            assert(e.skip(4) =~= enc_bytes(x@));
        },
    }
}

/// A key datagram decodes to that key alone.
pub proof fn lemma_key_envelope(w: SecureMsg, k: [u8; 32], answer: bool)
    requires
        enc_secure(w) == enc_secure(if answer { SecureMsg::PeerKey(k) } else { SecureMsg::MyKey(k) }),
    ensures
        answer ==> w == SecureMsg::PeerKey(k),
        !answer ==> w == SecureMsg::MyKey(k),
{
    let t: u32 = if answer { 1 } else { 0 };
    lemma_envelope_tag(w, t, k@);
    match w {
        SecureMsg::MyKey(x) => {
            assert(x =~= k);
        },
        SecureMsg::PeerKey(x) => {
            assert(x =~= k);
        },
        SecureMsg::Msg(_) => {},
    }
}

/// A datagram holds at most one `Msg` box at its head.
pub proof fn lemma_msg_box_unique(d: Seq<u8>, b1: Seq<u8>, b2: Seq<u8>)
    requires
        d.len() < 0x1_0000_0000_0000_0000,
        at(d, 0, enc_secure_msg_bytes(b1)),
        at(d, 0, enc_secure_msg_bytes(b2)),
    ensures
        b1 == b2,
{
    let e1 = enc_secure_msg_bytes(b1);
    let e2 = enc_secure_msg_bytes(b2);
    assert(e1.subrange(4, 12) =~= d.subrange(4, 12));
    assert(e2.subrange(4, 12) =~= d.subrange(4, 12));
    assert(e1.subrange(4, 12) =~= be(b1.len(), 8));
    assert(e2.subrange(4, 12) =~= be(b2.len(), 8));
    reveal_with_fuel(crate::codec::pow256, 9);
    crate::codec::lemma_be_round(b1.len(), 8);
    crate::codec::lemma_be_round(b2.len(), 8);
    let l = b1.len() as int;
    assert(e1.len() == 12 + l);
    let w1 = d.subrange(0, 12 + l);
    assert(w1 == e1);
    assert(e1 =~= enc_u32(2) + be(b1.len(), 8) + b1);
    assert(e1.subrange(12, 12 + l) =~= b1);
    assert(e2 =~= enc_u32(2) + be(b2.len(), 8) + b2);
    assert(e2.subrange(12, 12 + l) =~= b2);
    assert(d.subrange(12, 12 + l) =~= e1.subrange(12, 12 + l));
    assert(d.subrange(12, 12 + l) =~= e2.subrange(12, 12 + l));
}

/// The bytes of a `Msg` datagram carrying box `b`.
pub open spec fn enc_secure_msg_bytes(b: Seq<u8>) -> Seq<u8> {
    enc_u32(2) + enc_bytes(b)
}

pub fn parse_secure(data: &[u8], pos: usize) -> (r: Option<(SecureMsg, usize)>)
    ensures
        r matches Some((v, end)) ==> end == pos + enc_secure(v).len() && at(data@, pos as int, enc_secure(v)),
        forall|v: SecureMsg| #[trigger] at(data@, pos as int, enc_secure(v)) ==> (r matches Some((w, end))
            && enc_secure(w) == enc_secure(v)),
        forall|b: Seq<u8>| #[trigger] at(data@, pos as int, enc_secure_msg_bytes(b)) ==> (r matches Some((SecureMsg::Msg(x), end))
            && x@ == b),
{
    let res: Option<(SecureMsg, usize)> = match parse_u32(data, pos) {
        None => None,
        Some((tag, end1)) => {
            if tag == 0 || tag == 1 {
                match parse_key(data, end1) {
                    None => None,
                    Some((k, end2)) => {
                        if tag == 0 {
                            Some((SecureMsg::MyKey(k), end2))
                        } else {
                            Some((SecureMsg::PeerKey(k), end2))
                        }
                    },
                }
            } else if tag == 2 {
                match parse_bytes(data, end1) {
                    None => None,
                    Some((b, end2)) => Some((SecureMsg::Msg(b), end2)),
                }
            } else {
                None
            }
        },
    };
    proof {
        assert forall|v: SecureMsg| #[trigger] at(data@, pos as int, enc_secure(v)) implies (res matches Some((w, end))
            && enc_secure(w) == enc_secure(v)) by {
            match v {
                SecureMsg::MyKey(k) => {
                    lemma_at_split(data@, pos as int, enc_u32(0), k@);
                },
                SecureMsg::PeerKey(k) => {
                    lemma_at_split(data@, pos as int, enc_u32(1), k@);
                },
                SecureMsg::Msg(b) => {
                    lemma_at_split(data@, pos as int, enc_u32(2), enc_bytes(b@));
                },
            }
        }
        assert forall|b: Seq<u8>| #[trigger] at(data@, pos as int, enc_secure_msg_bytes(b)) implies (res matches Some((SecureMsg::Msg(x), end))
            && x@ == b) by {
            lemma_at_split(data@, pos as int, enc_u32(2), enc_bytes(b));
        }
        if res is Some {
            let (w, end) = res->0;
            match w {
                SecureMsg::MyKey(k) => {
                    lemma_at_join(data@, pos as int, enc_u32(0), k@);
                },
                SecureMsg::PeerKey(k) => {
                    lemma_at_join(data@, pos as int, enc_u32(1), k@);
                },
                SecureMsg::Msg(b) => {
                    lemma_at_join(data@, pos as int, enc_u32(2), enc_bytes(b@));
                },
            }
        }
    }
    res
}

/// A value that travels behind a request id.
pub enum Body {
    Command(Command),
    Response(Response),
    Notification(Notification),
    Message(Message),
}

pub open spec fn enc_body(b: Body) -> Seq<u8> {
    match b {
        Body::Command(c) => enc_command(c),
        Body::Response(r) => enc_response(r),
        Body::Notification(n) => enc_notification(n),
        Body::Message(m) => enc_message(m),
    }
}

/// The payload `id || body`, with the id big-endian.
pub fn serialize_with_meta(data: &Body, id: u16) -> (r: Vec<u8>)
    ensures
        r@ == enc_u16(id) + enc_body(*data),
{
    let mut r: Vec<u8> = Vec::new();
    encode_u16(&mut r, id);
    match data {
        Body::Command(c) => encode_command(&mut r, c),
        Body::Response(x) => encode_response(&mut r, x),
        Body::Notification(n) => encode_notification(&mut r, n),
        Body::Message(m) => encode_message(&mut r, m),
    }
    proof {
        assert(r@ =~= enc_u16(id) + enc_body(*data));
    }
    r
}

} // verus!
