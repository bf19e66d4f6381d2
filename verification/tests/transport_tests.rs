use engineio::decode_payload;
use engineio::Packet;
use engineio::Polling;
use engineio::ID;

#[test]
fn name_is_polling() {
    let t = Polling::new(None, false, false);
    assert_eq!(t.name(), "polling");
}

#[test]
fn two_sends_then_get_delivers_both_in_order() {
    let mut t = Polling::new(None, false, false);
    t.send(Packet { id: ID::Message, data: b"first".to_vec() });
    t.send(Packet { id: ID::Message, data: b"second".to_vec() });
    let body = t.poll_flush();
    let ps = decode_payload(body, false, false).unwrap();
    assert_eq!(ps.len(), 2);
    assert_eq!(ps[0].data, b"first".to_vec());
    assert_eq!(ps[1].data, b"second".to_vec());
    let again = t.poll_flush();
    assert!(again.is_empty());
}

#[test]
fn flush_uses_configured_mode() {
    let mut t = Polling::new(Some(0), false, false);
    t.send(Packet { id: ID::Message, data: b"hi".to_vec() });
    let body = t.poll_flush();
    assert_eq!(body, b"__eio[0](2:\x04hi)".to_vec());
}

#[test]
fn post_then_receive_is_fifo() {
    let mut t = Polling::new(None, false, false);
    assert!(t.handle_post(b"1:\x04a1:\x04b".to_vec()));
    let first = t.receive().unwrap();
    assert_eq!(first.data, b"a".to_vec());
    let second = t.receive().unwrap();
    assert_eq!(second.data, b"b".to_vec());
    assert!(t.receive().is_none());
}

#[test]
fn bad_post_body_is_rejected_whole() {
    let mut t = Polling::new(None, false, false);
    assert!(!t.handle_post(b"1:\x04a9".to_vec()));
    assert!(t.receive().is_none());
}

#[test]
fn receive_all_drains() {
    let mut t = Polling::new(None, false, false);
    assert!(t.handle_post(b"1:\x04a1:\x04b".to_vec()));
    let all = t.receive_all();
    assert_eq!(all.len(), 2);
    assert_eq!(all[0].data, b"a".to_vec());
    assert_eq!(all[1].data, b"b".to_vec());
    assert!(t.receive_all().is_empty());
}

#[test]
fn close_makes_operations_noops() {
    let mut t = Polling::new(None, false, false);
    t.send(Packet { id: ID::Message, data: b"hi".to_vec() });
    t.close();
    t.send(Packet { id: ID::Message, data: b"late".to_vec() });
    assert!(t.poll_flush().is_empty());
    assert!(!t.handle_post(b"1:\x04a".to_vec()));
    assert!(t.receive().is_none());
    assert!(t.receive_all().is_empty());
}
