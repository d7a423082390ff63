use chatroom::client::{register_outcome, ChatEntry, Client, ClientEvent, Incoming};
use chatroom::data::{ErrorCode, IpAddress, PeerAddr, Response, ResponseData, Timestamp};
use chatroom::messages::parse_response;
use chatroom::mux::Retry;
use chatroom::server::{Outgoing, Server};

fn now() -> Timestamp {
    Timestamp {
        year: 2024,
        ordinal: 2,
        hour: 3,
        minute: 4,
        second: 5,
        nanosecond: 6,
        offset_hours: 0,
        offset_minutes: 0,
        offset_seconds: 0,
    }
}

fn addr(port: u16) -> PeerAddr {
    PeerAddr { ip: IpAddress::V4(0x7f000001), port }
}

const SERVER: u16 = 4000;

fn new_client(port: u16, server: &mut Server) -> Client {
    let mut c = Client::new(addr(port), addr(SERVER), 10_000, 200, 5);
    let offer = c.key_offer();
    let out = server.handle_datagram(addr(port), &offer, now());
    let reply = match &out[0] {
        Outgoing::Send { datagram, .. } => datagram.clone(),
        _ => panic!("no key answer"),
    };
    assert!(matches!(c.receive_datagram(addr(SERVER), &reply), Incoming::KeyExchanged));
    c
}

/// Sends a request datagram to the server, delivers the server's datagrams,
/// and returns the decoded reply to `c` with the timer actions.
fn call(server: &mut Server, c: &mut Client, others: &mut [&mut Client], datagram: &[u8]) -> (Option<Response>, Vec<(String, u64)>) {
    let me = c.client_addr;
    let out = server.handle_datagram(me, datagram, now());
    let mut reply = None;
    let mut timers = Vec::new();
    for o in out {
        match o {
            Outgoing::Send { to, datagram } => {
                if to == me {
                    if let Incoming::Reply { body, .. } = c.receive_datagram(addr(SERVER), &datagram) {
                        reply = parse_response(&body, 0).map(|(r, _)| r);
                    }
                } else if let Some(other) = others.iter_mut().find(|x| x.client_addr == to) {
                    other.receive_datagram(addr(SERVER), &datagram);
                }
            },
            Outgoing::StartTimer { name, token } => timers.push((name, token)),
            Outgoing::CancelTimer { .. } => {},
        }
    }
    (reply, timers)
}

fn register(server: &mut Server, c: &mut Client, name: &str, pass: &str) -> Option<Response> {
    let (_, d) = c.register(name.to_string(), pass).unwrap();
    call(server, c, &mut [], &d).0
}

fn login(server: &mut Server, c: &mut Client, others: &mut [&mut Client], name: &str, pass: &str) -> (Option<Response>, Vec<(String, u64)>) {
    let (_, d) = c.login(name.to_string(), pass).unwrap();
    let (r, timers) = call(server, c, others, &d);
    if let Some(resp) = &r {
        let copy = match resp {
            Ok(ResponseData::ChatroomStatus { users }) => Ok(ResponseData::ChatroomStatus { users: users.clone() }),
            Ok(ResponseData::Success) => Ok(ResponseData::Success),
            Err(e) => Err(*e),
        };
        let _ = c.login_reply(name.to_string(), copy);
    }
    (r, timers)
}

#[test]
fn register_login_and_status() {
    let mut server = Server::new(Vec::new(), 60_000);
    let mut c1 = new_client(5001, &mut server);
    let r = register(&mut server, &mut c1, "alice", "pw1").unwrap();
    assert!(register_outcome(&r).is_ok());
    let (r, _) = login(&mut server, &mut c1, &mut [], "alice", "pw1");
    match r {
        Some(Ok(ResponseData::ChatroomStatus { users })) => {
            assert_eq!(users.len(), 1);
            assert_eq!(users[0].name, "alice");
            assert_eq!(users[0].online_info.unwrap().ip_address, addr(5001));
        },
        _ => panic!("login failed"),
    }
    let (_, d) = c1.fetch_chatroom_status().unwrap();
    match call(&mut server, &mut c1, &mut [], &d).0 {
        Some(Ok(ResponseData::ChatroomStatus { users })) => {
            assert_eq!(users.len(), 1);
            assert_eq!(users[0].name, "alice");
            assert!(users[0].online_info.is_some());
        },
        _ => panic!("status failed"),
    }
    assert_eq!(c1.get_state().personal_info.as_ref().unwrap().name, "alice");
}

#[test]
fn presence_is_broadcast_to_earlier_users() {
    let mut server = Server::new(Vec::new(), 60_000);
    let mut c1 = new_client(5001, &mut server);
    let mut c2 = new_client(5002, &mut server);
    register(&mut server, &mut c1, "alice", "pw1");
    register(&mut server, &mut c2, "bob", "pw2");
    login(&mut server, &mut c1, &mut [], "alice", "pw1");
    let (r, _) = login(&mut server, &mut c2, &mut [&mut c1], "bob", "pw2");
    match r {
        Some(Ok(ResponseData::ChatroomStatus { users })) => {
            assert!(users.iter().any(|u| u.name == "alice" && u.online_info.is_some()));
        },
        _ => panic!("bob's login failed"),
    }
    let bob = c1.get_state().users.get(&"bob".to_string()).unwrap();
    let info = bob.online_info.unwrap();
    assert_eq!(info.ip_address, addr(5002));
    assert_eq!(info.pub_key, c2.connection.inner.get_public_key());
    assert_eq!(c1.get_state().addr2user.get(&addr(5002)), Some(&"bob".to_string()));
    assert!(matches!(c1.get_state().group_history.last(), Some((_, e)) if e.user == "bob" && matches!(e.entry, ChatEntry::Online)));
}

#[test]
fn silent_user_expires() {
    let mut server = Server::new(Vec::new(), 60_000);
    let mut c1 = new_client(5001, &mut server);
    let mut c2 = new_client(5002, &mut server);
    register(&mut server, &mut c1, "alice", "pw1");
    register(&mut server, &mut c2, "bob", "pw2");
    let (_, timers) = login(&mut server, &mut c1, &mut [], "alice", "pw1");
    login(&mut server, &mut c2, &mut [&mut c1], "bob", "pw2");
    let (name, token) = timers.into_iter().find(|(n, _)| n == "alice").unwrap();
    let out = server.timer_fired(&name, token, now());
    let mut notified = 0;
    for o in out {
        if let Outgoing::Send { to, datagram } = o {
            assert_eq!(to, addr(5002));
            match c2.receive_datagram(addr(SERVER), &datagram) {
                Incoming::Event { event: ClientEvent::Offline { name } } => {
                    assert_eq!(name, "alice");
                    notified += 1;
                },
                _ => panic!("bob did not see alice leave"),
            }
        }
    }
    assert_eq!(notified, 1);
    let (_, d) = c2.fetch_chatroom_status().unwrap();
    match call(&mut server, &mut c2, &mut [], &d).0 {
        Some(Ok(ResponseData::ChatroomStatus { users })) => {
            let alice = users.iter().find(|u| u.name == "alice").unwrap();
            assert!(alice.online_info.is_none());
        },
        _ => panic!("status failed"),
    }
}

#[test]
fn direct_message_reaches_only_the_peer_history() {
    let mut server = Server::new(Vec::new(), 60_000);
    let mut c1 = new_client(5001, &mut server);
    let mut c2 = new_client(5002, &mut server);
    register(&mut server, &mut c1, "alice", "pw1");
    register(&mut server, &mut c2, "bob", "pw2");
    login(&mut server, &mut c1, &mut [], "alice", "pw1");
    login(&mut server, &mut c2, &mut [&mut c1], "bob", "pw2");
    let group_before = c2.get_state().group_history.len();
    let sends = c1.say("hi".to_string(), Some("bob".to_string()), now()).unwrap();
    assert_eq!(sends.len(), 1);
    assert_eq!(sends[0].0, addr(5002));
    match c2.receive_datagram(addr(5001), &sends[0].1) {
        Incoming::Event { event: ClientEvent::NewMessage { from: Some(n) } } => assert_eq!(n, "alice"),
        _ => panic!("bob did not get the message"),
    }
    let h = c2.get_state().one2one_history.get(&"alice".to_string()).unwrap();
    let msgs: Vec<_> = h.iter().filter(|(_, e)| matches!(&e.entry, ChatEntry::Message(m) if m == "hi")).collect();
    assert_eq!(msgs.len(), 1);
    assert_eq!(msgs[0].1.user, "alice");
    assert_eq!(c2.get_state().group_history.len(), group_before);
    let mine = c1.get_state().one2one_history.get(&"bob".to_string()).unwrap();
    assert!(matches!(&mine.last().unwrap().1.entry, ChatEntry::Message(m) if m == "hi"));
}

#[test]
fn request_survives_dropped_packets() {
    let mut server = Server::new(Vec::new(), 60_000);
    let mut c1 = new_client(5001, &mut server);
    let (id, d) = c1.register("alice".to_string(), "pw1").unwrap();
    let mut retry = Retry::new(5);
    assert!(c1.connection.attempt_timed_out(addr(SERVER), id, &mut retry));
    assert!(c1.connection.attempt_timed_out(addr(SERVER), id, &mut retry));
    let r = call(&mut server, &mut c1, &mut [], &d).0.unwrap();
    assert!(register_outcome(&r).is_ok());
    assert_eq!(server.get_state().users.len(), 1);
}

#[test]
fn wrong_password_then_right_one() {
    let mut server = Server::new(Vec::new(), 60_000);
    let mut c1 = new_client(5001, &mut server);
    register(&mut server, &mut c1, "alice", "pw1");
    let (r1, _) = login(&mut server, &mut c1, &mut [], "alice", "wrong");
    let (r2, _) = login(&mut server, &mut c1, &mut [], "alice", "wrong");
    assert!(matches!(r1, Some(Err(ErrorCode::InvalidUserOrPass))));
    assert!(matches!(r2, Some(Err(ErrorCode::InvalidUserOrPass))));
    let (r3, _) = login(&mut server, &mut c1, &mut [], "alice", "pw1");
    assert!(matches!(r3, Some(Ok(ResponseData::ChatroomStatus { .. }))));
    assert_eq!(server.get_state().user_active_timers.len(), 1);
    assert_eq!(server.get_state().addr2user.len(), 1);
}

#[test]
fn leading_whitespace_of_a_password_does_not_count() {
    let mut server = Server::new(Vec::new(), 60_000);
    let mut c1 = new_client(5001, &mut server);
    register(&mut server, &mut c1, "alice", "  pw1");
    let (r, _) = login(&mut server, &mut c1, &mut [], "alice", "pw1");
    assert!(matches!(r, Some(Ok(ResponseData::ChatroomStatus { .. }))));
}
