use chatroom::channel::SecureConnection;
use chatroom::client::{
    change_password_outcome, password_digest, register_outcome, ChatEntry, ClientState, Error, OwnedChatEntry,
    PersonalInfo,
};
use chatroom::data::{ErrorCode, IpAddress, Message, PeerAddr, ResponseData, Timestamp, UserInfo, UserOnlineInfo};
use chatroom::table::Table;
use sha2::Digest;

fn ts(second: u8) -> Timestamp {
    Timestamp {
        year: 2024,
        ordinal: 5,
        hour: 1,
        minute: 2,
        second,
        nanosecond: 0,
        offset_hours: 0,
        offset_minutes: 0,
        offset_seconds: 0,
    }
}

fn addr(port: u16) -> PeerAddr {
    PeerAddr { ip: IpAddress::V4(0x0a000002), port }
}

fn online(port: u16) -> UserOnlineInfo {
    UserOnlineInfo { ip_address: addr(port), pub_key: [port as u8; 32] }
}

#[test]
fn digest_is_sha256_of_the_trimmed_password() {
    let expected: [u8; 32] = sha2::Sha256::digest(b"secret").into();
    assert_eq!(password_digest("  secret"), expected);
    assert_eq!(password_digest("secret"), expected);
    assert_ne!(password_digest("secret "), expected);
}

#[test]
fn owned_entry_keeps_its_parts() {
    let e = OwnedChatEntry::new("bob".to_string(), ChatEntry::Message("x".to_string()));
    assert_eq!(e.user, "bob");
    assert!(matches!(e.entry, ChatEntry::Message(m) if m == "x"));
}

#[test]
fn online_then_offline_updates_directory_channel_and_history() {
    let mut st = ClientState::new();
    let mut ch = SecureConnection::new(Table::new());
    st.on_online(&mut ch, ts(1), "bob".to_string(), online(7));
    assert!(ch.pub_keys.contains(&addr(7)));
    assert_eq!(st.addr2user.get(&addr(7)), Some(&"bob".to_string()));
    assert_eq!(st.group_history.len(), 1);
    assert_eq!(st.one2one_history.get(&"bob".to_string()).unwrap().len(), 1);
    assert!(st.on_offline(&mut ch, ts(2), "bob".to_string()));
    assert!(!ch.pub_keys.contains(&addr(7)));
    assert!(!st.addr2user.contains(&addr(7)));
    assert!(st.users.get(&"bob".to_string()).unwrap().online_info.is_none());
    assert!(matches!(st.group_history[1].1.entry, ChatEntry::Offline));
    assert!(!st.on_offline(&mut ch, ts(3), "bob".to_string()));
    assert_eq!(st.group_history.len(), 2);
}

#[test]
fn messages_from_unknown_peers_are_ignored() {
    let mut st = ClientState::new();
    let m = Message { to_all: true, timestamp: ts(1), msg: "x".to_string() };
    assert!(matches!(st.on_message(addr(9), m), chatroom::client::ClientEvent::Ignored));
    assert_eq!(st.group_history.len(), 0);
}

#[test]
fn group_message_goes_to_group_history() {
    let mut st = ClientState::new();
    let mut ch = SecureConnection::new(Table::new());
    st.on_online(&mut ch, ts(1), "bob".to_string(), online(7));
    let m = Message { to_all: true, timestamp: ts(2), msg: "all".to_string() };
    st.on_message(addr(7), m);
    assert_eq!(st.group_history.len(), 2);
    assert_eq!(st.one2one_history.get(&"bob".to_string()).unwrap().len(), 1);
}

#[test]
fn say_checks_login_and_target() {
    let mut st = ClientState::new();
    assert_eq!(st.direct_target(&"bob".to_string()), Err(Error::Server(ErrorCode::LoginRequired)));
    let mut ch = SecureConnection::new(Table::new());
    let users = vec![
        UserInfo { name: "me".to_string(), online_info: Some(online(1)) },
        UserInfo { name: "bob".to_string(), online_info: Some(online(2)) },
        UserInfo { name: "carol".to_string(), online_info: None },
    ];
    assert!(st.login_succeeded(&mut ch, "me".to_string(), users));
    assert!(matches!(&st.personal_info, Some(PersonalInfo { name, ip_address }) if name == "me" && *ip_address == addr(1)));
    assert_eq!(st.direct_target(&"bob".to_string()), Ok(addr(2)));
    assert_eq!(st.direct_target(&"carol".to_string()), Err(Error::UserOffline));
    assert_eq!(st.direct_target(&"dave".to_string()), Err(Error::UserNotExisted));
    let to_all = st.say_to_all("hello".to_string(), ts(3)).unwrap();
    assert_eq!(to_all, vec![addr(2)]);
    assert_eq!(st.group_history.len(), 1);
    st.logout();
    assert!(st.personal_info.is_none());
    assert!(st.say_to_all("x".to_string(), ts(4)).is_err());
}

#[test]
fn replies_map_to_outcomes() {
    assert_eq!(register_outcome(&Ok(ResponseData::Success)), Ok(()));
    assert_eq!(register_outcome(&Err(ErrorCode::UserExisted)), Err(Error::Server(ErrorCode::UserExisted)));
    assert_eq!(register_outcome(&Err(ErrorCode::LoginRequired)), Err(Error::UnsupportedResponse));
    assert_eq!(change_password_outcome(&Err(ErrorCode::LoginRequired)), Err(Error::Server(ErrorCode::LoginRequired)));
    assert_eq!(
        change_password_outcome(&Ok(ResponseData::ChatroomStatus { users: Vec::new() })),
        Err(Error::UnsupportedResponse)
    );
}

#[test]
fn histories_stay_in_time_order() {
    let mut st = ClientState::new();
    let mut ch = SecureConnection::new(Table::new());
    st.on_online(&mut ch, ts(5), "bob".to_string(), online(7));
    st.on_message(addr(7), Message { to_all: true, timestamp: ts(3), msg: "early".to_string() });
    st.on_message(addr(7), Message { to_all: true, timestamp: ts(9), msg: "late".to_string() });
    st.on_message(addr(7), Message { to_all: false, timestamp: ts(1), msg: "first".to_string() });
    let seconds: Vec<u8> = st.group_history.iter().map(|(t, _)| t.second).collect();
    assert_eq!(seconds, vec![3, 5, 9]);
    let personal: Vec<u8> = st.one2one_history.get(&"bob".to_string()).unwrap().iter().map(|(t, _)| t.second).collect();
    assert_eq!(personal, vec![1, 5]);
}
