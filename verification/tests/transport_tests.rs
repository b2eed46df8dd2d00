use gd_transport::addr::{rewrite_dest, Addr, LOOPBACK_HOST};
use gd_transport::protocol::{AckMessage, Header, Message, Packet};
use gd_transport::transport::Transport;

fn local() -> Addr {
    Addr { host: 0x0A00_0001, port: 4000 }
}

fn peer() -> Addr {
    Addr { host: 0x0A00_0002, port: 5000 }
}

fn data_message(n: usize) -> Message {
    let mut payload = Vec::new();
    let mut i: usize = 0;
    while i < n {
        payload.push((i % 239) as u8);
        i += 1;
    }
    Message { head: Header::Data, payload }
}

#[test]
fn none_items_are_noops() {
    let mut t = Transport::new(local(), 100, 3);
    t.incoming_ack(None);
    let out = t.outgoing_msg(None, 1, 0);
    assert!(out.is_empty());
    assert_eq!(t.gd_udp.outbox_len(), 0);
}

#[test]
fn data_message_fragments_are_tracked() {
    let mut t = Transport::new(local(), 100, 3);
    // 2500 payload bytes plus one header byte: three fragments.
    let out = t.outgoing_msg(Some((peer(), data_message(2500))), 42, 0);
    assert_eq!(out.len(), 3);
    for (i, d) in out.iter().enumerate() {
        assert_eq!(d.dest, peer());
        let p = Packet::from_bytes(&d.bytes).expect("sent bytes are packets");
        assert_eq!(p.transmission_id, 42);
        assert_eq!(p.fragment_index, i as u32);
        assert_eq!(p.reliability_flag, 1);
    }
    assert!(t.gd_udp.outbox_contains(42));
    assert!(t.gd_udp.unacked_contains(42, 0));
    assert!(t.gd_udp.unacked_contains(42, 1));
    assert!(t.gd_udp.unacked_contains(42, 2));
}

#[test]
fn partial_acks_then_sweep_resends_only_the_rest() {
    let mut t = Transport::new(local(), 100, 5);
    t.outgoing_msg(Some((peer(), data_message(2500))), 42, 0);

    // The peer acknowledges fragments 0 and 2.
    t.incoming_ack(Some(AckMessage { packet_id: 42, packet_number: 0, src: peer() }));
    t.incoming_ack(Some(AckMessage { packet_id: 42, packet_number: 2, src: peer() }));

    // One sweep past the retry interval: only fragment 1 goes out again.
    let outcome = t.check_time_elapsed(100);
    assert_eq!(outcome.resends.len(), 1);
    let resent = Packet::from_bytes(&outcome.resends[0].bytes).expect("resent bytes are a packet");
    assert_eq!(resent.transmission_id, 42);
    assert_eq!(resent.fragment_index, 1);
    assert!(outcome.failures.is_empty());

    assert!(t.gd_udp.outbox_contains(42));
    assert!(!t.gd_udp.unacked_contains(42, 0));
    assert!(t.gd_udp.unacked_contains(42, 1));
    assert!(!t.gd_udp.unacked_contains(42, 2));
}

#[test]
fn full_acknowledgment_clears_the_transmission() {
    let mut t = Transport::new(local(), 100, 5);
    t.outgoing_msg(Some((peer(), data_message(10))), 42, 0);
    t.incoming_ack(Some(AckMessage { packet_id: 42, packet_number: 0, src: peer() }));
    assert!(!t.gd_udp.outbox_contains(42));
    assert_eq!(t.gd_udp.outbox_len(), 0);
}

#[test]
fn unknown_ack_leaves_outbox_unchanged() {
    let mut t = Transport::new(local(), 100, 5);
    t.outgoing_msg(Some((peer(), data_message(10))), 42, 0);
    t.incoming_ack(Some(AckMessage { packet_id: 999, packet_number: 0, src: peer() }));
    assert!(t.gd_udp.outbox_contains(42));
    assert!(t.gd_udp.unacked_contains(42, 0));
    assert_eq!(t.gd_udp.outbox_len(), 1);
}

#[test]
fn ack_headed_messages_are_never_tracked() {
    let mut t = Transport::new(local(), 100, 5);
    let msg = Message { head: Header::Ack, payload: vec![1, 2, 3] };
    let out = t.outgoing_msg(Some((peer(), msg)), 43, 0);
    assert_eq!(out.len(), 1);
    assert_eq!(out[0].dest, peer());
    let p = Packet::from_bytes(&out[0].bytes).expect("sent bytes are packets");
    assert_eq!(p.transmission_id, 43);
    assert_eq!(p.reliability_flag, 0);
    assert_eq!(t.gd_udp.outbox_len(), 0);

    // Maintenance sweeps never resend a fire-and-forget message.
    let outcome = t.check_time_elapsed(1_000_000);
    assert!(outcome.resends.is_empty());
    assert!(outcome.failures.is_empty());
    assert_eq!(t.gd_udp.outbox_len(), 0);
}

#[test]
fn same_host_destination_rewritten_to_loopback() {
    let mut t = Transport::new(local(), 100, 5);
    let same_host_peer = Addr { host: local().host, port: 9999 };
    let out = t.outgoing_msg(Some((same_host_peer, data_message(10))), 44, 0);
    let expected = Addr { host: LOOPBACK_HOST, port: 9999 };
    assert_eq!(out.len(), 1);
    assert_eq!(out[0].dest, expected);
    // The outbox entry reflects the rewritten destination too.
    assert_eq!(t.gd_udp.entry_dest(44), Some(expected));
}

#[test]
fn other_host_destination_kept() {
    let mut t = Transport::new(local(), 100, 5);
    let out = t.outgoing_msg(Some((peer(), data_message(10))), 45, 0);
    assert_eq!(out[0].dest, peer());
    assert_eq!(t.gd_udp.entry_dest(45), Some(peer()));
}

#[test]
fn rewrite_dest_preserves_port() {
    let a = Addr { host: 7, port: 1 };
    let same = Addr { host: 7, port: 2 };
    let other = Addr { host: 8, port: 3 };
    assert_eq!(rewrite_dest(a, same), Addr { host: LOOPBACK_HOST, port: 2 });
    assert_eq!(rewrite_dest(a, other), other);
}

#[test]
fn fragments_reassemble_into_the_message() {
    let mut t = Transport::new(local(), 100, 5);
    let msg = data_message(2500);
    let expected = msg.as_bytes();
    let out = t.outgoing_msg(Some((peer(), msg)), 46, 0);
    let mut packets: Vec<Packet> = Vec::new();
    for d in &out {
        packets.push(Packet::from_bytes(&d.bytes).expect("sent bytes are packets"));
    }
    let rebuilt = gd_transport::protocol::reassemble(&packets);
    assert_eq!(rebuilt, expected);
    let m = Message::from_bytes(&rebuilt).expect("reassembled bytes are the message");
    assert_eq!(m.head, Header::Data);
    assert_eq!(m.payload.len(), 2500);
}
