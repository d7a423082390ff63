use chatroom::channel::{Error, Received, SecureConnection};
use chatroom::connection::{Connection, Delivery};
use chatroom::data::{Command, IpAddress, PeerAddr};
use chatroom::messages::{serialize_with_meta, Body};
use chatroom::mux::{frame, RequestMux, Retry, Route};
use chatroom::table::Table;

fn addr(port: u16) -> PeerAddr {
    PeerAddr { ip: IpAddress::V4(0x0a000001), port }
}

/// Runs the two-message exchange between `a` (at `aa`) and `b` (at `ba`).
fn exchange(a: &mut SecureConnection, aa: PeerAddr, b: &mut SecureConnection, ba: PeerAddr) {
    let offer = a.exchange_key_with();
    let reply = match b.recv_from_raw(aa, &offer) {
        Received::KeyOffered { reply, .. } => reply,
        _ => panic!("offer not understood"),
    };
    assert!(matches!(a.recv_from_raw(ba, &reply), Received::KeyAnswered { .. }));
}

#[test]
fn ids_start_at_one_and_skip_zero() {
    let mut m = RequestMux::new();
    assert_eq!(m.begin_request(addr(1)), Some(1));
    assert_eq!(m.begin_request(addr(1)), Some(2));
    assert_eq!(m.begin_request(addr(2)), Some(1));
    m.counters.insert(addr(3), 0);
    assert_eq!(m.begin_request(addr(3)), Some(1));
    m.counters.insert(addr(4), u16::MAX);
    assert_eq!(m.begin_request(addr(4)), Some(u16::MAX));
    assert_eq!(m.counters.get(&addr(4)), Some(&0));
}

#[test]
fn a_pending_id_is_not_reused() {
    let mut m = RequestMux::new();
    assert_eq!(m.begin_request(addr(1)), Some(1));
    m.counters.insert(addr(1), 1);
    assert_eq!(m.begin_request(addr(1)), None);
}

#[test]
fn a_reply_closes_exactly_its_slot() {
    let mut m = RequestMux::new();
    let a = m.begin_request(addr(1)).unwrap();
    let b = m.begin_request(addr(1)).unwrap();
    match m.route(addr(1), &frame(a, &[9, 9])) {
        Route::Reply { id, body } => {
            assert_eq!(id, a);
            assert_eq!(body, vec![9, 9]);
        },
        _ => panic!("reply not matched"),
    }
    assert!(!m.is_pending(addr(1), a));
    assert!(m.is_pending(addr(1), b));
    assert!(matches!(m.route(addr(1), &frame(a, &[1])), Route::Unsolicited { .. }));
    assert!(matches!(m.route(addr(2), &frame(b, &[1])), Route::Unsolicited { .. }));
    assert!(matches!(m.route(addr(1), &frame(0, &[1])), Route::Unsolicited { .. }));
    assert!(matches!(m.route(addr(1), &[7]), Route::Malformed));
}

#[test]
fn retry_budget_of_five_survives_two_drops() {
    let mut m = RequestMux::new();
    let id = m.begin_request(addr(1)).unwrap();
    let mut retry = Retry::new(5);
    assert!(m.attempt_timed_out(addr(1), id, &mut retry));
    assert!(m.attempt_timed_out(addr(1), id, &mut retry));
    assert!(m.is_pending(addr(1), id));
    assert!(matches!(m.route(addr(1), &frame(id, &[])), Route::Reply { .. }));
}

#[test]
fn retry_budget_runs_out_at_the_limit() {
    let mut m = RequestMux::new();
    let id = m.begin_request(addr(1)).unwrap();
    let mut retry = Retry::new(3);
    assert!(m.attempt_timed_out(addr(1), id, &mut retry));
    assert!(m.attempt_timed_out(addr(1), id, &mut retry));
    assert!(!m.attempt_timed_out(addr(1), id, &mut retry));
    assert!(!m.is_pending(addr(1), id));
    let mut none = Retry::new(0);
    assert!(!none.timed_out());
}

#[test]
fn timeout_closes_every_slot_of_the_peer() {
    let mut m = RequestMux::new();
    let a = m.begin_request(addr(1)).unwrap();
    let b = m.begin_request(addr(1)).unwrap();
    let c = m.begin_request(addr(2)).unwrap();
    let mut retry = Retry::new(1);
    assert!(!m.attempt_timed_out(addr(1), a, &mut retry));
    assert!(!m.is_pending(addr(1), b));
    assert!(m.is_pending(addr(2), c));
    m.release(addr(2));
    assert!(!m.is_pending(addr(2), c));
}

#[test]
fn nonce_streams_stay_in_step() {
    let mut a = SecureConnection::new(Table::new());
    let mut b = SecureConnection::new(Table::new());
    exchange(&mut a, addr(1), &mut b, addr(2));
    for n in 0u8..5 {
        let d = a.send_to_raw(addr(2), &[n, n, n]).unwrap();
        match b.recv_from_raw(addr(1), &d) {
            Received::Plain { data } => assert_eq!(data, vec![n, n, n]),
            _ => panic!("message {} did not open", n),
        }
    }
    let back = b.send_to_raw(addr(1), b"pong").unwrap();
    assert!(matches!(a.recv_from_raw(addr(2), &back), Received::Plain { data } if data == b"pong".to_vec()));
}

#[test]
fn a_skipped_message_breaks_the_stream() {
    let mut a = SecureConnection::new(Table::new());
    let mut b = SecureConnection::new(Table::new());
    exchange(&mut a, addr(1), &mut b, addr(2));
    let _lost = a.send_to_raw(addr(2), b"one").unwrap();
    let second = a.send_to_raw(addr(2), b"two").unwrap();
    assert!(matches!(b.recv_from_raw(addr(1), &second), Received::Failed { error: Error::DecryptionFailed }));
}

#[test]
fn exchanging_twice_leaves_one_key() {
    let mut a = SecureConnection::new(Table::new());
    let mut b = SecureConnection::new(Table::new());
    exchange(&mut a, addr(1), &mut b, addr(2));
    exchange(&mut a, addr(1), &mut b, addr(2));
    assert_eq!(a.pub_keys.len(), 1);
    assert!(a.exchange_complete(addr(2)));
    assert_eq!(a.pub_keys.get(&addr(2)), Some(&b.get_public_key()));
    let d = a.send_to_raw(addr(2), b"x").unwrap();
    assert!(matches!(b.recv_from_raw(addr(1), &d), Received::Plain { .. }));
}

#[test]
fn unknown_peers_have_no_key() {
    let mut a = SecureConnection::new(Table::new());
    assert!(matches!(a.send_to_raw(addr(9), b"x"), Err(Error::NoDestKey)));
    let mut b = SecureConnection::new(Table::new());
    b.install_key(addr(1), a.get_public_key());
    let d = b.send_to_raw(addr(1), b"x").unwrap();
    assert!(matches!(a.recv_from_raw(addr(2), &d), Received::Failed { error: Error::NoSrcKey }));
    assert!(matches!(a.recv_from_raw(addr(2), &[1, 2]), Received::Failed { error: Error::CorruptedData }));
}

#[test]
fn release_forgets_key_and_context() {
    let mut a = SecureConnection::new(Table::new());
    a.install_key(addr(1), [3; 32]);
    assert!(a.contexts.contains(&addr(1)));
    a.release(addr(1));
    assert!(!a.pub_keys.contains(&addr(1)));
    assert!(!a.contexts.contains(&addr(1)));
}

#[test]
fn connections_correlate_request_and_reply() {
    let mut client = Connection::new(Table::new(), 200, 5);
    let mut server = SecureConnection::new(Table::new());
    exchange(&mut client.inner, addr(1), &mut server, addr(2));
    let (id, datagram) = client.request(&Body::Command(Command::GetChatroomStatus), addr(2)).unwrap();
    assert_eq!(id, 1);
    let plain = match server.recv_from_raw(addr(1), &datagram) {
        Received::Plain { data } => data,
        _ => panic!("request did not open"),
    };
    assert_eq!(plain, serialize_with_meta(&Body::Command(Command::GetChatroomStatus), 1));
    let reply = server.send_to_raw(addr(1), &frame(id, &[4, 2])).unwrap();
    assert!(matches!(client.receive(addr(2), &reply), Delivery::Reply { id: 1, body } if body == vec![4, 2]));
    let push = server.send_to_raw(addr(1), &frame(0, &[1])).unwrap();
    assert!(matches!(client.receive(addr(2), &push), Delivery::Unsolicited { body } if body == vec![1]));
}

#[test]
fn sealed_datagrams_hide_the_plaintext() {
    let mut a = SecureConnection::new(Table::new());
    let mut b = SecureConnection::new(Table::new());
    exchange(&mut a, addr(1), &mut b, addr(2));
    let plain = [0xabu8; 32];
    let d = a.send_to_raw(addr(2), &plain).unwrap();
    // envelope tag, 64-bit length, then the box: the plaintext plus a 16-byte tag
    assert_eq!(d.len(), 4 + 8 + 32 + 16);
    assert!(d.windows(32).all(|w| w != plain));
    let again = a.send_to_raw(addr(2), &plain).unwrap();
    assert_ne!(d, again);
}

#[test]
fn public_key_differs_from_secret_and_is_stable() {
    let mut a = SecureConnection::new(Table::new());
    let pk = a.get_public_key();
    assert_ne!(pk, a.get_secret_key());
    assert_ne!(pk, [0u8; 32]);
    let offer = a.exchange_key_with();
    assert_eq!(&offer[4..], &pk[..]);
    a.refresh_secret_key();
    assert_ne!(a.get_public_key(), pk);
}

#[test]
fn a_tampered_box_does_not_open() {
    let mut a = SecureConnection::new(Table::new());
    let mut b = SecureConnection::new(Table::new());
    exchange(&mut a, addr(1), &mut b, addr(2));
    let mut d = a.send_to_raw(addr(2), b"hello").unwrap();
    let last = d.len() - 1;
    d[last] ^= 1;
    assert!(matches!(b.recv_from_raw(addr(1), &d), Received::Failed { error: Error::DecryptionFailed }));
}

#[test]
fn a_failed_request_leaves_no_slot() {
    let mut client = Connection::new(Table::new(), 200, 5);
    let r = client.request(&Body::Command(Command::Logout), addr(2));
    assert!(matches!(r, Err(chatroom::client::Error::Connection(Error::NoDestKey))));
    assert!(!client.mux.is_pending(addr(2), 1));
    assert_eq!(client.get_unique_id(addr(2)), Some(2));
}

#[test]
fn an_abandoned_request_closes_its_slot() {
    let mut client = Connection::new(Table::new(), 200, 5);
    let id = client.get_unique_id(addr(2)).unwrap();
    let other = client.get_unique_id(addr(2)).unwrap();
    client.abandon(addr(2), id);
    assert!(!client.mux.is_pending(addr(2), id));
    assert!(client.mux.is_pending(addr(2), other));
}

#[test]
fn a_new_exchange_restarts_both_streams() {
    let mut a = SecureConnection::new(Table::new());
    let mut b = SecureConnection::new(Table::new());
    exchange(&mut a, addr(1), &mut b, addr(2));
    let _lost = a.send_to_raw(addr(2), b"lost").unwrap();
    let a_key = a.get_public_key();
    let b_key = b.get_public_key();
    a.update_pub_keys(&vec![(b_key, addr(2))]);
    b.update_pub_keys(&vec![(a_key, addr(1))]);
    let d = a.send_to_raw(addr(2), b"again").unwrap();
    assert!(matches!(b.recv_from_raw(addr(1), &d), Received::Plain { data } if data == b"again".to_vec()));
}
