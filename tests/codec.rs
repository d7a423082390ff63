use bincode::Options;
use chatroom::codec::{encode_bytes, encode_i32, encode_string, encode_u16, encode_u64, parse_bytes, parse_i32, parse_string, parse_u16, parse_u64};
use chatroom::data::{
    Command, ErrorCode, IpAddress, Message, Notification, PeerAddr, ResponseData, SecureMsg, Timestamp,
    UserInfo, UserOnlineInfo,
};
use chatroom::messages::{
    encode_addr, encode_command, encode_message, encode_notification, encode_response, encode_secure,
    encode_timestamp, parse_addr, parse_command, parse_message, parse_notification, parse_response,
    parse_secure, parse_timestamp, serialize_with_meta, Body,
};

fn coder() -> impl Options {
    bincode::DefaultOptions::new().with_fixint_encoding().allow_trailing_bytes().with_big_endian()
}

fn ts() -> Timestamp {
    Timestamp {
        year: 2024,
        ordinal: 100,
        hour: 12,
        minute: 34,
        second: 56,
        nanosecond: 789,
        offset_hours: 0,
        offset_minutes: 0,
        offset_seconds: 0,
    }
}

fn v4(a: u32, port: u16) -> PeerAddr {
    PeerAddr { ip: IpAddress::V4(a), port }
}

#[test]
fn integers_are_big_endian() {
    let mut out = Vec::new();
    encode_u16(&mut out, 0x1234);
    encode_u64(&mut out, 5);
    encode_i32(&mut out, -2);
    assert_eq!(out, vec![0x12, 0x34, 0, 0, 0, 0, 0, 0, 0, 5, 0xff, 0xff, 0xff, 0xfe]);
    assert_eq!(parse_u16(&out, 0), Some((0x1234, 2)));
    assert_eq!(parse_u64(&out, 2), Some((5, 10)));
    assert_eq!(parse_i32(&out, 10), Some((-2, 14)));
    assert_eq!(parse_u16(&out, 13), None);
}

#[test]
fn strings_and_bytes_carry_a_64_bit_length() {
    let mut out = Vec::new();
    encode_string(&mut out, &"héllo".to_string());
    assert_eq!(out, coder().serialize("héllo").unwrap());
    let (s, end) = parse_string(&out, 0).unwrap();
    assert_eq!(s, "héllo");
    assert_eq!(end, out.len());
    let mut b = Vec::new();
    encode_bytes(&mut b, &[1, 2, 3]);
    assert_eq!(b, vec![0, 0, 0, 0, 0, 0, 0, 3, 1, 2, 3]);
    assert_eq!(parse_bytes(&b, 0).unwrap().0, vec![1, 2, 3]);
}

#[test]
fn invalid_utf8_and_short_input_are_refused() {
    let bad = vec![0, 0, 0, 0, 0, 0, 0, 2, 0xc3, 0x28];
    assert!(parse_string(&bad, 0).is_none());
    let short = vec![0, 0, 0, 0, 0, 0, 0, 9, 1];
    assert!(parse_string(&short, 0).is_none());
    assert!(parse_command(&[0, 0, 0], 0).is_none());
}

#[test]
fn addresses_match_the_standard_encoding() {
    let a = v4(0x7f000001, 4000);
    let mut out = Vec::new();
    encode_addr(&mut out, &a);
    assert_eq!(out, coder().serialize(&(0u32, [127u8, 0, 0, 1], 4000u16)).unwrap());
    assert_eq!(parse_addr(&out, 0), Some((a, out.len())));
    let b = PeerAddr { ip: IpAddress::V6(1), port: 9 };
    let mut out6 = Vec::new();
    encode_addr(&mut out6, &b);
    let mut octets = [0u8; 16];
    octets[15] = 1;
    assert_eq!(out6, coder().serialize(&(1u32, octets, 9u16)).unwrap());
    assert_eq!(parse_addr(&out6, 0), Some((b, out6.len())));
}

#[test]
fn timestamps_match_the_time_crate() {
    let t = ts();
    let mut out = Vec::new();
    encode_timestamp(&mut out, &t);
    let date = time::Date::from_ordinal_date(2024, 100).unwrap();
    let odt = date.with_hms_nano(12, 34, 56, 789).unwrap().assume_utc();
    assert_eq!(out, coder().serialize(&odt).unwrap());
    assert_eq!(parse_timestamp(&out, 0), Some((t, 16)));
}

#[test]
fn impossible_timestamps_are_refused() {
    let mut t = ts();
    t.year = 2023;
    t.ordinal = 366;
    let mut out = Vec::new();
    encode_timestamp(&mut out, &t);
    assert!(parse_timestamp(&out, 0).is_none());
    let mut t2 = ts();
    t2.hour = 24;
    let mut out2 = Vec::new();
    encode_timestamp(&mut out2, &t2);
    assert!(parse_timestamp(&out2, 0).is_none());
}

#[test]
fn commands_match_the_standard_encoding() {
    let c = Command::Register { username: "alice".to_string(), password: [7u8; 32] };
    let mut out = Vec::new();
    encode_command(&mut out, &c);
    assert_eq!(out, coder().serialize(&(0u32, "alice", [7u8; 32])).unwrap());
    match parse_command(&out, 0) {
        Some((Command::Register { username, password }, end)) => {
            assert_eq!(username, "alice");
            assert_eq!(password, [7u8; 32]);
            assert_eq!(end, out.len());
        },
        _ => panic!("register did not decode"),
    }
    let mut hb = Vec::new();
    encode_command(&mut hb, &Command::Heartbeat);
    assert_eq!(hb, vec![0, 0, 0, 4]);
    assert!(matches!(parse_command(&hb, 0), Some((Command::Heartbeat, 4))));
    let mut cp = Vec::new();
    encode_command(&mut cp, &Command::ChangePassword { old: [1; 32], new: [2; 32] });
    assert!(matches!(parse_command(&cp, 0), Some((Command::ChangePassword { old, new }, 68)) if old == [1; 32] && new == [2; 32]));
}

#[test]
fn responses_round_trip() {
    let users = vec![
        UserInfo { name: "alice".to_string(), online_info: Some(UserOnlineInfo { ip_address: v4(1, 2), pub_key: [3; 32] }) },
        UserInfo { name: "bob".to_string(), online_info: None },
    ];
    let r: Result<ResponseData, ErrorCode> = Ok(ResponseData::ChatroomStatus { users });
    let mut out = Vec::new();
    encode_response(&mut out, &r);
    match parse_response(&out, 0) {
        Some((Ok(ResponseData::ChatroomStatus { users }), end)) => {
            assert_eq!(end, out.len());
            assert_eq!(users.len(), 2);
            assert_eq!(users[0].name, "alice");
            assert_eq!(users[0].online_info.unwrap().ip_address, v4(1, 2));
            assert_eq!(users[1].name, "bob");
            assert!(users[1].online_info.is_none());
        },
        _ => panic!("status did not decode"),
    }
    let e: Result<ResponseData, ErrorCode> = Err(ErrorCode::LoginRequired);
    let mut eo = Vec::new();
    encode_response(&mut eo, &e);
    assert_eq!(eo, vec![0, 0, 0, 1, 0, 0, 0, 2]);
    assert!(matches!(parse_response(&eo, 0), Some((Err(ErrorCode::LoginRequired), 8))));
}

#[test]
fn notifications_and_messages_round_trip() {
    let n = Notification::Online {
        timestamp: ts(),
        name: "bob".to_string(),
        info: UserOnlineInfo { ip_address: v4(9, 9), pub_key: [4; 32] },
    };
    let mut out = Vec::new();
    encode_notification(&mut out, &n);
    match parse_notification(&out, 0) {
        Some((Notification::Online { timestamp, name, info }, _)) => {
            assert_eq!(timestamp, ts());
            assert_eq!(name, "bob");
            assert_eq!(info.pub_key, [4; 32]);
        },
        _ => panic!("notification did not decode"),
    }
    let m = Message { to_all: true, timestamp: ts(), msg: "hi".to_string() };
    let mut mo = Vec::new();
    encode_message(&mut mo, &m);
    let (back, _) = parse_message(&mo, 0).unwrap();
    assert!(back.to_all);
    assert_eq!(back.msg, "hi");
    mo.push(0xaa);
    assert!(parse_message(&mo, 0).is_some());
}

#[test]
fn envelopes_round_trip() {
    let mut out = Vec::new();
    encode_secure(&mut out, &SecureMsg::Msg(vec![5, 6]));
    assert_eq!(out, vec![0, 0, 0, 2, 0, 0, 0, 0, 0, 0, 0, 2, 5, 6]);
    assert!(matches!(parse_secure(&out, 0), Some((SecureMsg::Msg(b), 14)) if b == vec![5, 6]));
    let mut k = Vec::new();
    encode_secure(&mut k, &SecureMsg::PeerKey([8; 32]));
    assert!(matches!(parse_secure(&k, 0), Some((SecureMsg::PeerKey(x), 36)) if x == [8; 32]));
    assert!(parse_secure(&[0, 0, 0, 3], 0).is_none());
}

#[test]
fn framed_payload_starts_with_the_id() {
    let f = serialize_with_meta(&Body::Command(Command::Logout), 0x0102);
    assert_eq!(f, vec![1, 2, 0, 0, 0, 5]);
}
