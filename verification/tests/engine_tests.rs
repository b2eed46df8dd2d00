use gd_transport::addr::Addr;
use gd_transport::engine::GdUdp;
use gd_transport::protocol::{Packet, AckMessage};

fn local() -> Addr {
    Addr { host: 0x0A00_0001, port: 4000 }
}

fn peer() -> Addr {
    Addr { host: 0x0A00_0002, port: 5000 }
}

fn packet(tid: u64, idx: u32, flag: u8) -> Packet {
    Packet { transmission_id: tid, fragment_index: idx, reliability_flag: flag, payload: vec![idx as u8] }
}

#[test]
fn send_reliable_registers_fragment() {
    let mut engine = GdUdp::new(local(), 100, 3);
    let p = packet(42, 0, 1);
    let d = engine.send_reliable(peer(), &p, 10);
    assert_eq!(d.dest, peer());
    assert_eq!(d.bytes, p.as_bytes());
    assert!(engine.outbox_contains(42));
    assert!(engine.unacked_contains(42, 0));
    assert_eq!(engine.frag_retries(42, 0), Some(0));
    assert_eq!(engine.frag_last_send(42, 0), Some(10));
    assert_eq!(engine.entry_dest(42), Some(peer()));
    assert_eq!(engine.outbox_len(), 1);
}

#[test]
fn send_reliable_same_fragment_twice_left_as_is() {
    let mut engine = GdUdp::new(local(), 100, 3);
    let p = packet(42, 0, 1);
    engine.send_reliable(peer(), &p, 10);
    engine.send_reliable(peer(), &p, 20);
    // The fragment was already tracked: its record is unchanged.
    assert_eq!(engine.frag_last_send(42, 0), Some(10));
    assert_eq!(engine.frag_retries(42, 0), Some(0));
    assert_eq!(engine.outbox_len(), 1);
}

#[test]
fn send_unreliable_not_registered() {
    let mut engine = GdUdp::new(local(), 100, 3);
    let p = packet(42, 0, 0);
    let d = engine.send_reliable(peer(), &p, 10);
    assert_eq!(d.bytes, p.as_bytes());
    assert!(!engine.outbox_contains(42));
    assert_eq!(engine.outbox_len(), 0);
}

#[test]
fn process_ack_removes_fragment_then_entry() {
    let mut engine = GdUdp::new(local(), 100, 3);
    engine.send_reliable(peer(), &packet(42, 0, 1), 10);
    engine.send_reliable(peer(), &packet(42, 1, 1), 10);
    assert!(engine.unacked_contains(42, 0));
    assert!(engine.unacked_contains(42, 1));

    engine.process_ack(42, 0, peer());
    assert!(!engine.unacked_contains(42, 0));
    assert!(engine.unacked_contains(42, 1));
    assert!(engine.outbox_contains(42));

    engine.process_ack(42, 1, peer());
    assert!(!engine.unacked_contains(42, 1));
    assert!(!engine.outbox_contains(42));
    assert_eq!(engine.outbox_len(), 0);
}

#[test]
fn process_ack_unknown_transmission_is_noop() {
    let mut engine = GdUdp::new(local(), 100, 3);
    engine.send_reliable(peer(), &packet(42, 0, 1), 10);
    engine.process_ack(777, 0, peer());
    assert_eq!(engine.outbox_len(), 1);
    assert!(engine.unacked_contains(42, 0));
    assert_eq!(engine.frag_retries(42, 0), Some(0));
}

#[test]
fn process_ack_unknown_fragment_is_noop() {
    let mut engine = GdUdp::new(local(), 100, 3);
    engine.send_reliable(peer(), &packet(42, 0, 1), 10);
    engine.process_ack(42, 9, peer());
    assert_eq!(engine.outbox_len(), 1);
    assert!(engine.unacked_contains(42, 0));
}

#[test]
fn sweep_before_interval_resends_nothing() {
    let mut engine = GdUdp::new(local(), 100, 3);
    engine.send_reliable(peer(), &packet(42, 0, 1), 0);
    let outcome = engine.check_time_elapsed(99);
    assert!(outcome.resends.is_empty());
    assert!(outcome.failures.is_empty());
    assert_eq!(engine.frag_retries(42, 0), Some(0));
    assert_eq!(engine.frag_last_send(42, 0), Some(0));
}

#[test]
fn sweep_resends_overdue_fragment_once() {
    let mut engine = GdUdp::new(local(), 100, 3);
    let p = packet(42, 0, 1);
    engine.send_reliable(peer(), &p, 0);

    let outcome = engine.check_time_elapsed(100);
    assert_eq!(outcome.resends.len(), 1);
    assert_eq!(outcome.resends[0].dest, peer());
    assert_eq!(outcome.resends[0].bytes, p.as_bytes());
    assert!(outcome.failures.is_empty());
    assert_eq!(engine.frag_retries(42, 0), Some(1));
    assert_eq!(engine.frag_last_send(42, 0), Some(100));

    // Not yet overdue again: the retry counter holds.
    let outcome2 = engine.check_time_elapsed(150);
    assert!(outcome2.resends.is_empty());
    assert_eq!(engine.frag_retries(42, 0), Some(1));

    // Overdue again: the counter increments monotonically.
    let outcome3 = engine.check_time_elapsed(200);
    assert_eq!(outcome3.resends.len(), 1);
    assert_eq!(engine.frag_retries(42, 0), Some(2));
}

#[test]
fn sweep_drops_fragment_after_retry_budget() {
    let mut engine = GdUdp::new(local(), 100, 2);
    let p = packet(42, 0, 1);
    engine.send_reliable(peer(), &p, 0);
    assert_eq!(engine.check_time_elapsed(100).resends.len(), 1);
    assert_eq!(engine.check_time_elapsed(200).resends.len(), 1);
    assert_eq!(engine.frag_retries(42, 0), Some(2));

    // The counter stands at the budget: the next overdue sweep gives the
    // fragment its final resend, then drops it as failed — one resend per
    // sweep until the counter would exceed the maximum.
    let outcome = engine.check_time_elapsed(300);
    assert_eq!(outcome.resends.len(), 1);
    assert_eq!(outcome.resends[0].dest, peer());
    assert_eq!(outcome.resends[0].bytes, p.as_bytes());
    assert_eq!(outcome.failures.len(), 1);
    assert_eq!(outcome.failures[0].transmission_id, 42);
    assert_eq!(outcome.failures[0].fragment_index, 0);
    assert_eq!(outcome.failures[0].dest, peer());
    assert!(!engine.outbox_contains(42));
    assert_eq!(engine.outbox_len(), 0);

    // No further sweep touches it: the failing resend was the last.
    let after = engine.check_time_elapsed(400);
    assert!(after.resends.is_empty());
    assert!(after.failures.is_empty());

    // The engine stays usable after a delivery failure.
    engine.send_reliable(peer(), &packet(43, 0, 1), 400);
    assert!(engine.outbox_contains(43));
}

#[test]
fn sweep_touches_only_overdue_fragments() {
    let mut engine = GdUdp::new(local(), 100, 3);
    engine.send_reliable(peer(), &packet(42, 0, 1), 0);
    engine.send_reliable(peer(), &packet(42, 1, 1), 80);
    let outcome = engine.check_time_elapsed(100);
    assert_eq!(outcome.resends.len(), 1);
    let resent = Packet::from_bytes(&outcome.resends[0].bytes).expect("resent bytes are a packet");
    assert_eq!(resent.fragment_index, 0);
    assert_eq!(engine.frag_retries(42, 0), Some(1));
    assert_eq!(engine.frag_retries(42, 1), Some(0));
}

#[test]
fn acks_carry_their_source() {
    let a = AckMessage { packet_id: 42, packet_number: 1, src: peer() };
    let b = AckMessage::from_bytes(&a.as_bytes()).expect("an ack's own encoding decodes");
    assert_eq!(b.src, peer());
}
