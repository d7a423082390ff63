use chatroom::data::{ErrorCode, IpAddress, Notification, PeerAddr, ResponseData, Timestamp, UserEssential};
use chatroom::server::{ServerAction, ServerState};

fn now() -> Timestamp {
    Timestamp {
        year: 2024,
        ordinal: 1,
        hour: 0,
        minute: 0,
        second: 0,
        nanosecond: 0,
        offset_hours: 0,
        offset_minutes: 0,
        offset_seconds: 0,
    }
}

fn addr(port: u16) -> PeerAddr {
    PeerAddr { ip: IpAddress::V4(0x7f000001), port }
}

fn pw(b: u8) -> [u8; 32] {
    [b; 32]
}

fn server_with_keys(ports: &[u16]) -> ServerState {
    let mut s = ServerState::new(60_000);
    for p in ports {
        s.key_installed(addr(*p), [*p as u8; 32]);
    }
    s
}

fn start_token(actions: &[ServerAction], who: &str) -> Option<u64> {
    actions.iter().find_map(|a| match a {
        ServerAction::StartTimer { name, token } if name == who => Some(*token),
        _ => None,
    })
}

#[test]
fn register_then_duplicate_is_refused() {
    let mut s = ServerState::new(1000);
    assert!(matches!(s.register("alice".to_string(), &pw(1)), Ok(ResponseData::Success)));
    assert!(matches!(s.register("alice".to_string(), &pw(2)), Err(ErrorCode::UserExisted)));
    assert_eq!(s.users.len(), 1);
}

#[test]
fn wrong_password_twice_then_correct_login() {
    let mut s = server_with_keys(&[5000]);
    s.register("alice".to_string(), &pw(1)).unwrap();
    let (r1, a1) = s.login(addr(5000), "alice".to_string(), &pw(9), now());
    let (r2, a2) = s.login(addr(5000), "alice".to_string(), &pw(9), now());
    assert!(matches!(r1, Err(ErrorCode::InvalidUserOrPass)));
    assert!(matches!(r2, Err(ErrorCode::InvalidUserOrPass)));
    assert!(a1.is_empty() && a2.is_empty());
    let (r3, _) = s.login(addr(5000), "alice".to_string(), &pw(1), now());
    assert!(matches!(r3, Ok(ResponseData::ChatroomStatus { .. })));
    assert_eq!(s.user_active_timers.len(), 1);
    assert_eq!(s.addr2user.len(), 1);
}

#[test]
fn unknown_user_cannot_log_in() {
    let mut s = server_with_keys(&[5000]);
    let (r, _) = s.login(addr(5000), "nobody".to_string(), &pw(1), now());
    assert!(matches!(r, Err(ErrorCode::InvalidUserOrPass)));
}

#[test]
fn login_without_a_key_is_not_secure() {
    let mut s = ServerState::new(1000);
    s.register("alice".to_string(), &pw(1)).unwrap();
    let (r, _) = s.login(addr(5000), "alice".to_string(), &pw(1), now());
    assert!(matches!(r, Err(ErrorCode::ConnectionNotSecure)));
    assert_eq!(s.addr2user.len(), 0);
}

#[test]
fn login_binds_address_key_and_timer() {
    let mut s = server_with_keys(&[5000]);
    s.register("alice".to_string(), &pw(1)).unwrap();
    let (r, actions) = s.login(addr(5000), "alice".to_string(), &pw(1), now());
    match r {
        Ok(ResponseData::ChatroomStatus { users }) => {
            assert_eq!(users.len(), 1);
            assert_eq!(users[0].name, "alice");
            let info = users[0].online_info.unwrap();
            assert_eq!(info.ip_address, addr(5000));
            assert_eq!(info.pub_key, [136u8; 32]);
        },
        _ => panic!("login failed"),
    }
    assert_eq!(s.addr2user.get(&addr(5000)), Some(&"alice".to_string()));
    assert!(s.user_active_timers.contains(&"alice".to_string()));
    assert!(start_token(&actions, "alice").is_some());
    match s.chatroom_status(addr(5000)) {
        Ok(ResponseData::ChatroomStatus { users }) => {
            assert_eq!(users.len(), 1);
            assert!(users[0].online_info.is_some());
        },
        _ => panic!("status refused"),
    }
}

#[test]
fn status_requires_login() {
    let s = server_with_keys(&[5000]);
    assert!(matches!(s.chatroom_status(addr(5000)), Err(ErrorCode::LoginRequired)));
}

#[test]
fn second_login_is_announced_to_the_first_only() {
    let mut s = server_with_keys(&[5000, 5001]);
    s.register("alice".to_string(), &pw(1)).unwrap();
    s.register("bob".to_string(), &pw(2)).unwrap();
    s.login(addr(5000), "alice".to_string(), &pw(1), now());
    let (r, actions) = s.login(addr(5001), "bob".to_string(), &pw(2), now());
    match r {
        Ok(ResponseData::ChatroomStatus { users }) => {
            assert!(users.iter().any(|u| u.name == "alice" && u.online_info.is_some()));
        },
        _ => panic!("bob's login failed"),
    }
    match actions.last() {
        Some(ServerAction::Announce { recipients, notification: Notification::Online { name, info, .. } }) => {
            assert_eq!(recipients, &vec![addr(5000)]);
            assert_eq!(name, "bob");
            assert_eq!(info.ip_address, addr(5001));
            assert_eq!(info.pub_key, [137u8; 32]);
        },
        _ => panic!("no online announcement"),
    }
}

#[test]
fn heartbeat_makes_the_old_timer_stale() {
    let mut s = server_with_keys(&[5000, 5001]);
    s.register("alice".to_string(), &pw(1)).unwrap();
    let (_, actions) = s.login(addr(5000), "alice".to_string(), &pw(1), now());
    let first = start_token(&actions, "alice").unwrap();
    let renewed = s.heartbeat(addr(5000));
    let second = match renewed {
        Some(ServerAction::StartTimer { token, .. }) => token,
        _ => panic!("heartbeat did not renew"),
    };
    assert_ne!(first, second);
    assert!(s.expire(&"alice".to_string(), first, now()).is_none());
    assert!(s.addr2user.contains(&addr(5000)));
    assert!(s.heartbeat(addr(5001)).is_none());
}

#[test]
fn expiry_takes_the_user_offline_and_tells_the_others() {
    let mut s = server_with_keys(&[5000, 5001]);
    s.register("alice".to_string(), &pw(1)).unwrap();
    s.register("bob".to_string(), &pw(2)).unwrap();
    let (_, a) = s.login(addr(5000), "alice".to_string(), &pw(1), now());
    s.login(addr(5001), "bob".to_string(), &pw(2), now());
    let token = start_token(&a, "alice").unwrap();
    match s.expire(&"alice".to_string(), token, now()) {
        Some(ServerAction::Announce { recipients, notification: Notification::Offline { name, .. } }) => {
            assert_eq!(recipients, vec![addr(5001)]);
            assert_eq!(name, "alice");
        },
        _ => panic!("expiry did not announce"),
    }
    assert!(!s.addr2user.contains(&addr(5000)));
    match s.chatroom_status(addr(5001)) {
        Ok(ResponseData::ChatroomStatus { users }) => {
            let alice = users.iter().find(|u| u.name == "alice").unwrap();
            assert!(alice.online_info.is_none());
        },
        _ => panic!("status refused"),
    }
}

#[test]
fn logout_clears_the_session() {
    let mut s = server_with_keys(&[5000]);
    s.register("alice".to_string(), &pw(1)).unwrap();
    s.login(addr(5000), "alice".to_string(), &pw(1), now());
    let (r, actions) = s.logout(addr(5000), now());
    assert!(matches!(r, Ok(ResponseData::Success)));
    assert!(matches!(actions[0], ServerAction::CancelTimer { .. }));
    assert_eq!(s.addr2user.len(), 0);
    assert_eq!(s.user_active_timers.len(), 0);
    let (again, _) = s.logout(addr(5000), now());
    assert!(matches!(again, Err(ErrorCode::LoginRequired)));
}

#[test]
fn change_password_needs_the_old_one() {
    let mut s = server_with_keys(&[5000]);
    assert!(matches!(s.change_password(addr(5000), &pw(1), &pw(2)), Err(ErrorCode::LoginRequired)));
    s.register("alice".to_string(), &pw(1)).unwrap();
    s.login(addr(5000), "alice".to_string(), &pw(1), now());
    assert!(matches!(s.change_password(addr(5000), &pw(9), &pw(2)), Err(ErrorCode::InvalidUserOrPass)));
    assert!(matches!(s.change_password(addr(5000), &pw(1), &pw(2)), Ok(ResponseData::Success)));
    let (r, _) = s.login(addr(5000), "alice".to_string(), &pw(2), now());
    assert!(matches!(r, Ok(ResponseData::ChatroomStatus { .. })));
}

#[test]
fn login_from_an_address_held_by_another_user_evicts_it() {
    let mut s = server_with_keys(&[5000]);
    s.register("alice".to_string(), &pw(1)).unwrap();
    s.register("bob".to_string(), &pw(2)).unwrap();
    s.login(addr(5000), "alice".to_string(), &pw(1), now());
    let (_, actions) = s.login(addr(5000), "bob".to_string(), &pw(2), now());
    assert!(matches!(&actions[0], ServerAction::CancelTimer { name } if name == "alice"));
    assert_eq!(s.addr2user.get(&addr(5000)), Some(&"bob".to_string()));
    assert_eq!(s.user_active_timers.len(), 1);
}

#[test]
fn restored_users_start_offline() {
    let s = ServerState::from_user_essentials(
        1000,
        vec![("carol".to_string(), UserEssential { password_hash: "h".to_string() })],
    );
    assert!(s.users.contains(&"carol".to_string()));
    assert!(s.users.get(&"carol".to_string()).unwrap().online_info.is_none());
}

#[test]
fn displaced_user_is_announced_to_everyone_bound_after_the_login() {
    let mut s = server_with_keys(&[5000, 5001]);
    s.register("alice".to_string(), &pw(1)).unwrap();
    s.register("bob".to_string(), &pw(2)).unwrap();
    s.register("carol".to_string(), &pw(3)).unwrap();
    s.login(addr(5000), "alice".to_string(), &pw(1), now());
    s.login(addr(5001), "bob".to_string(), &pw(2), now());
    let (_, actions) = s.login(addr(5000), "carol".to_string(), &pw(3), now());
    assert_eq!(actions.len(), 4);
    match &actions[1] {
        ServerAction::Announce { recipients, notification: Notification::Offline { name, .. } } => {
            assert_eq!(name, "alice");
            let mut r = recipients.clone();
            r.sort_by_key(|a| a.port);
            assert_eq!(r, vec![addr(5000), addr(5001)]);
        },
        _ => panic!("no offline announcement for alice"),
    }
}
