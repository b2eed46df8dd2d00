use gd_transport::addr::Addr;
use gd_transport::protocol::{packetize, reassemble, AckMessage, Header, Message, Packet};

fn pattern(n: usize) -> Vec<u8> {
    let mut v = Vec::new();
    let mut i: usize = 0;
    while i < n {
        v.push((i % 251) as u8);
        i += 1;
    }
    v
}

#[test]
fn packetize_empty_yields_one_empty_fragment() {
    let packets = packetize(Vec::new(), 7, 1);
    assert_eq!(packets.len(), 1);
    assert_eq!(packets[0].transmission_id, 7);
    assert_eq!(packets[0].fragment_index, 0);
    assert_eq!(packets[0].reliability_flag, 1);
    assert!(packets[0].payload.is_empty());
}

#[test]
fn packetize_reassemble_round_trip() {
    let bytes = pattern(3000);
    let packets = packetize(bytes.clone(), 99, 1);
    assert_eq!(packets.len(), 3);
    assert_eq!(packets[0].payload.len(), 1024);
    assert_eq!(packets[1].payload.len(), 1024);
    assert_eq!(packets[2].payload.len(), 952);
    for (i, p) in packets.iter().enumerate() {
        assert_eq!(p.transmission_id, 99);
        assert_eq!(p.fragment_index, i as u32);
        assert_eq!(p.reliability_flag, 1);
    }
    assert_eq!(reassemble(&packets), bytes);
}

#[test]
fn packetize_reassemble_round_trip_empty() {
    let packets = packetize(Vec::new(), 5, 0);
    assert_eq!(reassemble(&packets), Vec::<u8>::new());
}

#[test]
fn packetize_chunk_boundaries() {
    assert_eq!(packetize(pattern(1), 1, 1).len(), 1);
    assert_eq!(packetize(pattern(1024), 1, 1).len(), 1);
    assert_eq!(packetize(pattern(1025), 1, 1).len(), 2);
    assert_eq!(packetize(pattern(2048), 1, 1).len(), 2);
    let two = packetize(pattern(1025), 1, 1);
    assert_eq!(two[0].payload.len(), 1024);
    assert_eq!(two[1].payload.len(), 1);
    assert_eq!(reassemble(&two), pattern(1025));
}

#[test]
fn packet_wire_round_trip() {
    let p = Packet {
        transmission_id: 0xDEAD_BEEF_1234_5678,
        fragment_index: 0xABCD_0123,
        reliability_flag: 1,
        payload: vec![0, 1, 2, 255, 128],
    };
    let bytes = p.as_bytes();
    let q = Packet::from_bytes(&bytes).expect("a packet's own encoding decodes");
    assert_eq!(q.transmission_id, p.transmission_id);
    assert_eq!(q.fragment_index, p.fragment_index);
    assert_eq!(q.reliability_flag, p.reliability_flag);
    assert_eq!(q.payload, p.payload);
}

#[test]
fn packet_wire_round_trip_empty_payload() {
    let p = Packet { transmission_id: 0, fragment_index: 0, reliability_flag: 0, payload: vec![] };
    let bytes = p.as_bytes();
    let q = Packet::from_bytes(&bytes).expect("a packet's own encoding decodes");
    assert_eq!(q.transmission_id, 0);
    assert_eq!(q.fragment_index, 0);
    assert_eq!(q.reliability_flag, 0);
    assert!(q.payload.is_empty());
}

#[test]
fn ack_wire_round_trip() {
    let a = AckMessage {
        packet_id: 0x0102_0304_0506_0708,
        packet_number: 42,
        src: Addr { host: 0xC0A8_0001, port: 9000 },
    };
    let bytes = a.as_bytes();
    assert_eq!(bytes.len(), 19);
    let b = AckMessage::from_bytes(&bytes).expect("an ack's own encoding decodes");
    assert_eq!(b, a);
}

#[test]
fn message_wire_round_trip() {
    let m = Message { head: Header::Data, payload: vec![9, 8, 7] };
    let bytes = m.as_bytes();
    let n = Message::from_bytes(&bytes).expect("a message's own encoding decodes");
    assert_eq!(n.head, Header::Data);
    assert_eq!(n.payload, vec![9, 8, 7]);

    let m2 = Message { head: Header::Ack, payload: vec![] };
    let n2 = Message::from_bytes(&m2.as_bytes()).expect("a message's own encoding decodes");
    assert_eq!(n2.head, Header::Ack);
    assert!(n2.payload.is_empty());
}

#[test]
fn packet_decode_rejects_malformed() {
    // Too short for a packet header.
    assert!(Packet::from_bytes(&vec![1, 2, 3]).is_none());
    // Wrong leading tag.
    let p = Packet { transmission_id: 1, fragment_index: 2, reliability_flag: 1, payload: vec![] };
    let mut bytes = p.as_bytes();
    bytes[0] = 0x77;
    assert!(Packet::from_bytes(&bytes).is_none());
}

#[test]
fn ack_decode_rejects_malformed() {
    // Wrong length.
    assert!(AckMessage::from_bytes(&vec![2; 18]).is_none());
    assert!(AckMessage::from_bytes(&vec![2; 20]).is_none());
    // Wrong leading tag.
    let a = AckMessage { packet_id: 1, packet_number: 2, src: Addr { host: 3, port: 4 } };
    let mut bytes = a.as_bytes();
    bytes[0] = 0x55;
    assert!(AckMessage::from_bytes(&bytes).is_none());
}

#[test]
fn message_decode_rejects_unknown_header() {
    assert!(Message::from_bytes(&Vec::new()).is_none());
    assert!(Message::from_bytes(&vec![9, 1, 2]).is_none());
}

#[test]
fn wire_tags_distinguish_packet_from_ack() {
    let p = Packet { transmission_id: 6, fragment_index: 0, reliability_flag: 1, payload: vec![1] };
    assert!(AckMessage::from_bytes(&p.as_bytes()).is_none());
    let a = AckMessage { packet_id: 6, packet_number: 0, src: Addr { host: 1, port: 2 } };
    assert!(Packet::from_bytes(&a.as_bytes()).is_none());
}
