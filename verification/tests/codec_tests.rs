use engineio::decode_payload;
use engineio::encode_payload;
use engineio::Error;
use engineio::Packet;
use engineio::ID;

#[test]
fn it_works() {
}

#[test]
fn tag_seven_is_invalid() {
    let stream: Vec<u8> = vec![7, 104, 105];
    let r = Packet::from_bytes(&stream, 2);
    assert!(matches!(r, Err(Error::InvalidPacketID(7))));
}

#[test]
fn empty_stream_is_incomplete() {
    let stream: Vec<u8> = vec![];
    let r = Packet::from_bytes(&stream, 0);
    assert!(matches!(r, Err(Error::IncompletePacket)));
}

#[test]
fn short_payload_is_incomplete() {
    let stream: Vec<u8> = vec![4, 104];
    let r = Packet::from_bytes(&stream, 5);
    assert!(matches!(r, Err(Error::IncompletePacket)));
}

#[test]
fn decode_one_reads_exactly_declared_length() {
    let stream: Vec<u8> = vec![4, 104, 105, 33, 33];
    let p = Packet::from_bytes(&stream, 2).ok().unwrap();
    assert_eq!(p.id, ID::Message);
    assert_eq!(p.data, vec![104, 105]);
}

#[test]
fn encode_message_hi_plain() {
    let packets = vec![Packet { id: ID::Message, data: b"hi".to_vec() }];
    let out = encode_payload(&packets, None, false, false);
    assert_eq!(out, b"2:\x04hi".to_vec());
}

#[test]
fn decode_message_hi_plain() {
    let ps = decode_payload(b"2:\x04hi".to_vec(), false, false).unwrap();
    assert_eq!(ps.len(), 1);
    assert_eq!(ps[0].id, ID::Message);
    assert_eq!(ps[0].data, b"hi".to_vec());
}

#[test]
fn jsonp_wrap_index_zero() {
    let packets = vec![Packet { id: ID::Message, data: b"hi".to_vec() }];
    let out = encode_payload(&packets, Some(0), false, false);
    assert_eq!(out, b"__eio[0](2:\x04hi)".to_vec());
}

#[test]
fn jsonp_wrap_larger_index() {
    let packets = vec![Packet { id: ID::Ping, data: vec![] }];
    let out = encode_payload(&packets, Some(42), false, false);
    assert_eq!(out, b"__eio[42](0:\x02)".to_vec());
}

#[test]
fn empty_input_fails_every_mode() {
    assert!(decode_payload(vec![], false, false).is_none());
    assert!(decode_payload(vec![], true, false).is_none());
    assert!(decode_payload(vec![], false, true).is_none());
}

#[test]
fn nondigit_length_prefix_fails() {
    assert!(decode_payload(b"a:\x04hi".to_vec(), false, false).is_none());
    assert!(decode_payload(b"2x:\x04hi".to_vec(), false, false).is_none());
    assert!(decode_payload(b"1:\x04a2x:\x04hi".to_vec(), false, false).is_none());
}

#[test]
fn truncated_record_fails() {
    assert!(decode_payload(b"5:\x04hi".to_vec(), false, false).is_none());
    assert!(decode_payload(b"1:\x04a9:\x04hi".to_vec(), false, false).is_none());
}

#[test]
fn multi_digit_length_decodes() {
    let ps = decode_payload(b"12:\x04abcdefghijkl".to_vec(), false, false).unwrap();
    assert_eq!(ps.len(), 1);
    assert_eq!(ps[0].data, b"abcdefghijkl".to_vec());
}

#[test]
fn leading_zero_length_accepted() {
    let ps = decode_payload(b"02:\x04hi".to_vec(), false, false).unwrap();
    assert_eq!(ps.len(), 1);
    assert_eq!(ps[0].data, b"hi".to_vec());
}

#[test]
fn declared_length_without_tag_fails() {
    assert!(decode_payload(b"2:".to_vec(), false, false).is_none());
    assert!(decode_payload(b"0:".to_vec(), false, false).is_none());
}

#[test]
fn dangling_length_prefix_fails() {
    assert!(decode_payload(b"123".to_vec(), false, false).is_none());
    assert!(decode_payload(b"2:\x04hi3".to_vec(), false, false).is_none());
}

#[test]
fn plain_round_trip_multiple_packets() {
    let packets = vec![
        Packet { id: ID::Ping, data: vec![] },
        Packet { id: ID::Message, data: b"a:b:9".to_vec() },
        Packet { id: ID::Noop, data: vec![0, 255, 58, 48] },
    ];
    let out = encode_payload(&packets, None, false, false);
    let back = decode_payload(out, false, false).unwrap();
    assert_eq!(back.len(), 3);
    for (p, q) in packets.iter().zip(back.iter()) {
        assert_eq!(p.id, q.id);
        assert_eq!(p.data, q.data);
    }
}

#[test]
fn base64_encode_message_hi() {
    let packets = vec![Packet { id: ID::Message, data: b"hi".to_vec() }];
    let out = encode_payload(&packets, None, true, false);
    assert_eq!(out, b"5:b\x04aGk=".to_vec());
}

#[test]
fn base64_round_trip() {
    let packets = vec![
        Packet { id: ID::Message, data: b"hi".to_vec() },
        Packet { id: ID::Upgrade, data: vec![0, 255, 1, 2, 251] },
        Packet { id: ID::Close, data: vec![] },
    ];
    let out = encode_payload(&packets, None, true, false);
    let back = decode_payload(out, true, false).unwrap();
    assert_eq!(back.len(), 3);
    for (p, q) in packets.iter().zip(back.iter()) {
        assert_eq!(p.id, q.id);
        assert_eq!(p.data, q.data);
    }
}

#[test]
fn base64_garbage_text_fails() {
    assert!(decode_payload(b"5:b\x04a~k=".to_vec(), true, false).is_none());
}

#[test]
fn xhr2_encode_message_hi() {
    let packets = vec![Packet { id: ID::Message, data: b"hi".to_vec() }];
    let out = encode_payload(&packets, None, false, true);
    assert_eq!(out, vec![0, 0, 255, 50, 58, 4, 104, 105]);
}

#[test]
fn xhr2_binary_flag_set() {
    let packets = vec![Packet { id: ID::Message, data: b"Hi".to_vec() }];
    let out = encode_payload(&packets, None, false, true);
    assert_eq!(out[0], 1);
    assert_eq!(&out[1..3], &[0, 255]);
}

#[test]
fn xhr2_round_trip() {
    let packets = vec![
        Packet { id: ID::Message, data: b"hi".to_vec() },
        Packet { id: ID::Pong, data: vec![9, 58, 200] },
    ];
    let out = encode_payload(&packets, None, false, true);
    let back = decode_payload(out, false, true).unwrap();
    assert_eq!(back.len(), 2);
    for (p, q) in packets.iter().zip(back.iter()) {
        assert_eq!(p.id, q.id);
        assert_eq!(p.data, q.data);
    }
}

#[test]
fn xhr2_bad_marker_fails() {
    assert!(decode_payload(vec![2, 0, 255, 50, 58, 4, 104, 105], false, true).is_none());
    assert!(decode_payload(vec![0, 0, 254, 50, 58, 4, 104, 105], false, true).is_none());
}

#[test]
fn is_binary_ranges() {
    let lower = Packet { id: ID::Message, data: b"hi".to_vec() };
    assert!(!lower.is_binary());
    let upper = Packet { id: ID::Message, data: b"Hi".to_vec() };
    assert!(upper.is_binary());
    let empty = Packet { id: ID::Message, data: vec![] };
    assert!(!empty.is_binary());
}

#[test]
fn encode_is_tag_then_payload() {
    let p = Packet { id: ID::Upgrade, data: vec![1, 2, 3] };
    assert_eq!(p.encode(), vec![5, 1, 2, 3]);
    let mut out: Vec<u8> = vec![9];
    p.encode_to(&mut out);
    assert_eq!(out, vec![9, 5, 1, 2, 3]);
}

#[test]
fn open_json_payload() {
    let p = Packet::open_json("abc123", 60000);
    assert_eq!(p.id, ID::Open);
    assert_eq!(
        p.data,
        b"{\"sid\": \"abc123\", \"upgrades\": \"websocket\", \"pingTimeout\": 60000}".to_vec()
    );
}

#[test]
fn generate_id_is_32_hex_chars() {
    let a = Packet::generate_id();
    let b = Packet::generate_id();
    assert_eq!(a.len(), 32);
    assert!(a.chars().all(|c| c.is_ascii_hexdigit() && !c.is_ascii_uppercase()));
    assert_ne!(a, b);
}
