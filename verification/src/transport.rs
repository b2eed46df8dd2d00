//! The transport orchestrator: one reliability engine driven by queue
//! items a caller drains.
//!
//! A driving loop drains at most one acknowledgment and one outbound
//! message per cycle from its queues and hands them here.  Outbound
//! messages are classified by header: acknowledgment/control messages go
//! out fire-and-forget (so that losing one never starts an
//! ack-for-an-ack cycle), while data messages are fragmented reliably and
//! every fragment registered for tracked delivery.  A data destination
//! sharing the local host component is rewritten to loopback with the
//! port preserved, so same-host peers stay routable.

use crate::addr::{rewrite_dest, spec_rewrite_dest, Addr};
use crate::codec::{spec_encode_message, spec_encode_packet};
use crate::engine::{
    spec_ack, spec_frag_unacked, spec_outbox_failures, spec_outbox_resends, spec_register,
    spec_sweep_outbox, views_of_datagrams, Datagram, DatagramV, EntryV, GdUdp, SweepOutcome,
};
use crate::protocol::{
    packetize, spec_packetize, views_of_packets, AckMessage, Header, Message, PacketV,
    MAX_FRAGMENT_PAYLOAD,
};
use vstd::prelude::*;

verus! {

/// The datagrams that carry packets `ps`, in order, to `dst`.
pub open spec fn spec_datagrams_to(ps: Seq<PacketV>, dst: Addr) -> Seq<DatagramV> {
    Seq::new(ps.len(), |i: int| DatagramV { dest: dst, bytes: spec_encode_packet(ps[i]) })
}

/// The outbox after registering every packet of `ps`, in order, bound for
/// `dst` at time `now`.
pub open spec fn spec_register_all(ob: Seq<EntryV>, dst: Addr, ps: Seq<PacketV>, now: u64) -> Seq<
    EntryV,
>
    decreases ps.len(),
{
    if ps.len() == 0 {
        ob
    } else {
        spec_register(spec_register_all(ob, dst, ps.drop_last(), now), dst, ps.last(), now)
    }
}

/// Registration law for a whole message: after registering a run of
/// packets, every packet's fragment is unacknowledged in the outbox under
/// its transmission identifier.  Together with `outgoing_msg`'s ensures
/// this shows each of a reliable message's fragments tracked after the
/// call, with no fragment lost along the fold.
pub proof fn lemma_register_all_tracks(ob: Seq<EntryV>, dst: Addr, ps: Seq<PacketV>, now: u64)
    ensures
        forall|i: int|
            0 <= i < ps.len() ==> #[trigger] spec_frag_unacked(
                spec_register_all(ob, dst, ps, now),
                ps[i].transmission_id,
                ps[i].fragment_index,
            ),
    decreases ps.len(),
{
    if ps.len() == 0 {
    } else {
        let pre = ps.drop_last();
        lemma_register_all_tracks(ob, dst, pre, now);
        let r0 = spec_register_all(ob, dst, pre, now);
        let r = spec_register_all(ob, dst, ps, now);
        assert(r == spec_register(r0, dst, ps.last(), now));
        assert forall|i: int| 0 <= i < ps.len() implies #[trigger] spec_frag_unacked(
            r,
            ps[i].transmission_id,
            ps[i].fragment_index,
        ) by {
            crate::engine::lemma_register_tracks(
                r0,
                dst,
                ps.last(),
                now,
                ps[i].transmission_id,
                ps[i].fragment_index,
            );
            if i < ps.len() - 1 {
                assert(pre[i] == ps[i]);
                assert(spec_frag_unacked(r0, ps[i].transmission_id, ps[i].fragment_index));
            } else {
                assert(ps[i] == ps.last());
            }
        }
    }
}

/// The transport layer of a peer-to-peer node: a reliability engine for
/// sending tracked messages over an unreliable datagram network.  The
/// caller owns the queues and the socket; each poll cycle it drains at
/// most one item per queue and passes it in, then transmits the datagrams
/// handed back.
#[derive(Debug)]
pub struct Transport {
    pub gd_udp: GdUdp,
}

impl Transport {
    /// The transport's invariant: its engine is well-formed.
    pub open spec fn wf(&self) -> bool {
        self.gd_udp.wf()
    }

    /// A fresh transport bound to `addr` with an idle engine and the
    /// given retry configuration.
    pub fn new(addr: Addr, retry_interval: u64, max_retries: u32) -> (t: Transport)
        ensures
            t.wf(),
            t.gd_udp.addr == addr,
            t.gd_udp.retry_interval == retry_interval,
            t.gd_udp.max_retries == max_retries,
            t.gd_udp.outbox_view() == Seq::<EntryV>::empty(),
    {
        Transport { gd_udp: GdUdp::new(addr, retry_interval, max_retries) }
    }

    /// Handles one drained incoming acknowledgment, if the queue held
    /// one: a tracked fragment stops being tracked, and an acknowledgment
    /// for an untracked transmission changes nothing.  The outbox lookup
    /// here spares the engine's own on a miss.
    pub fn incoming_ack(&mut self, ack: Option<AckMessage>)
        requires
            old(self).wf(),
        ensures
            final(self).wf(),
            final(self).gd_udp.addr == old(self).gd_udp.addr,
            final(self).gd_udp.retry_interval == old(self).gd_udp.retry_interval,
            final(self).gd_udp.max_retries == old(self).gd_udp.max_retries,
            ack is None ==> final(self).gd_udp.outbox_view() == old(self).gd_udp.outbox_view(),
            ack matches Some(a) ==> final(self).gd_udp.outbox_view() == spec_ack(
                old(self).gd_udp.outbox_view(),
                a.packet_id,
                a.packet_number,
            ) && !spec_frag_unacked(final(self).gd_udp.outbox_view(), a.packet_id, a.packet_number),
    {
        match ack {
            None => {},
            Some(a) => {
                if self.gd_udp.outbox_contains(a.packet_id) {
                    self.gd_udp.process_ack(a.packet_id, a.packet_number, a.src);
                } else {
                    proof {
                        let ob = self.gd_udp.outbox_view();
                        assert(spec_ack(ob, a.packet_id, a.packet_number) == ob);
                        assert(!spec_frag_unacked(ob, a.packet_id, a.packet_number));
                    }
                }
            },
        }
    }

    /// Handles one drained outbound message, if the queue held one, and
    /// returns the datagrams for the caller to transmit.  A message with
    /// the acknowledgment/control header is fragmented unreliably and not
    /// tracked; any other message is fragmented reliably, its destination
    /// rewritten to loopback when it shares the local host, and every
    /// fragment registered with the engine under `transmission_id`.  The
    /// message's bytes must fragment into indices that fit 32 bits, which
    /// the caller checks before queueing.
    pub fn outgoing_msg(&mut self, item: Option<(Addr, Message)>, transmission_id: u64, now: u64) -> (out: Vec<
        Datagram,
    >)
        requires
            old(self).wf(),
            item matches Some((dst, msg)) ==> msg.payload@.len() + 1 <= (
            MAX_FRAGMENT_PAYLOAD as int) * 0x1_0000_0000,
        ensures
            final(self).wf(),
            final(self).gd_udp.addr == old(self).gd_udp.addr,
            final(self).gd_udp.retry_interval == old(self).gd_udp.retry_interval,
            final(self).gd_udp.max_retries == old(self).gd_udp.max_retries,
            item is None ==> final(self).gd_udp.outbox_view() == old(self).gd_udp.outbox_view()
                && out@.len() == 0,
            item matches Some((dst, msg)) ==> ((msg.head is Ack ==> final(self).gd_udp.outbox_view()
                == old(self).gd_udp.outbox_view() && views_of_datagrams(out@)
                == spec_datagrams_to(
                spec_packetize(spec_encode_message(msg@), transmission_id, 0),
                dst,
            )) && (msg.head is Data ==> final(self).gd_udp.outbox_view() == spec_register_all(
                old(self).gd_udp.outbox_view(),
                spec_rewrite_dest(old(self).gd_udp.addr, dst),
                spec_packetize(spec_encode_message(msg@), transmission_id, 1),
                now,
            ) && views_of_datagrams(out@) == spec_datagrams_to(
                spec_packetize(spec_encode_message(msg@), transmission_id, 1),
                spec_rewrite_dest(old(self).gd_udp.addr, dst),
            ))),
    {
        let mut out: Vec<Datagram> = Vec::new();
        match item {
            None => {},
            Some((dst, msg)) => {
                let bytes = msg.as_bytes();
                match msg.head {
                    Header::Ack => {
                        // Fire-and-forget: acknowledgments are never tracked,
                        // or an ack-for-an-ack cycle could arise.
                        let packets = packetize(bytes, transmission_id, 0);
                        let ghost ps = spec_packetize(
                            spec_encode_message(msg@),
                            transmission_id,
                            0,
                        );
                        let n = packets.len();
                        let mut i: usize = 0;
                        proof {
                            assert(views_of_datagrams(out@) =~= spec_datagrams_to(
                                ps.subrange(0, 0),
                                dst,
                            ));
                        }
                        while i < n
                            invariant
                                n == packets@.len(),
                                i <= n,
                                ps == spec_packetize(spec_encode_message(msg@), transmission_id, 0),
                                views_of_packets(packets@) == ps,
                                self.gd_udp == old(self).gd_udp,
                                views_of_datagrams(out@) == spec_datagrams_to(
                                    ps.subrange(0, i as int),
                                    dst,
                                ),
                            decreases n - i,
                        {
                            let ghost out_pre = out@;
                            let dbytes = packets[i].as_bytes();
                            let d = Datagram { dest: dst, bytes: dbytes };
                            let ghost dv = d@;
                            out.push(d);
                            proof {
                                assert(packets@[i as int]@ == ps[i as int]);
                                assert(dv =~= DatagramV {
                                    dest: dst,
                                    bytes: spec_encode_packet(ps[i as int]),
                                });
                                assert(out_pre.len() == i as int) by {
                                    assert(views_of_datagrams(out_pre).len() == spec_datagrams_to(
                                        ps.subrange(0, i as int),
                                        dst,
                                    ).len());
                                }
                                let goal = spec_datagrams_to(ps.subrange(0, i as int + 1), dst);
                                assert forall|t: int| 0 <= t < out@.len() implies views_of_datagrams(
                                    out@,
                                )[t] == goal[t] by {
                                    if t < out_pre.len() {
                                        assert(out@[t] == out_pre[t]);
                                        assert(views_of_datagrams(out_pre)[t] == spec_datagrams_to(
                                            ps.subrange(0, i as int),
                                            dst,
                                        )[t]);
                                    } else {
                                        assert(out@[t]@ == dv);
                                        assert(goal[t] == DatagramV {
                                            dest: dst,
                                            bytes: spec_encode_packet(ps[i as int]),
                                        });
                                    }
                                }
                                assert(views_of_datagrams(out@) =~= goal);
                            }
                            i = i + 1;
                        }
                        proof {
                            assert(ps.subrange(0, ps.len() as int) =~= ps);
                        }
                    },
                    Header::Data => {
                        // Reliable delivery: rewrite a same-host destination
                        // to loopback, then register every fragment.
                        let dest = rewrite_dest(self.gd_udp.addr, dst);
                        let packets = packetize(bytes, transmission_id, 1);
                        let ghost ps = spec_packetize(
                            spec_encode_message(msg@),
                            transmission_id,
                            1,
                        );
                        let ghost ob0 = old(self).gd_udp.outbox_view();
                        let n = packets.len();
                        let mut i: usize = 0;
                        proof {
                            assert(views_of_datagrams(out@) =~= spec_datagrams_to(
                                ps.subrange(0, 0),
                                dest,
                            ));
                            assert(spec_register_all(ob0, dest, ps.subrange(0, 0), now) == ob0);
                        }
                        while i < n
                            invariant
                                n == packets@.len(),
                                i <= n,
                                ps == spec_packetize(spec_encode_message(msg@), transmission_id, 1),
                                views_of_packets(packets@) == ps,
                                self.gd_udp.wf(),
                                self.gd_udp.addr == old(self).gd_udp.addr,
                                self.gd_udp.retry_interval == old(self).gd_udp.retry_interval,
                                self.gd_udp.max_retries == old(self).gd_udp.max_retries,
                                ob0 == old(self).gd_udp.outbox_view(),
                                self.gd_udp.outbox_view() == spec_register_all(
                                    ob0,
                                    dest,
                                    ps.subrange(0, i as int),
                                    now,
                                ),
                                views_of_datagrams(out@) == spec_datagrams_to(
                                    ps.subrange(0, i as int),
                                    dest,
                                ),
                            decreases n - i,
                        {
                            let ghost out_pre = out@;
                            proof {
                                assert(ps.len() == n as int) by {
                                    assert(views_of_packets(packets@).len() == ps.len());
                                }
                                assert(packets@[i as int]@ == ps[i as int]);
                                assert(ps[i as int].reliability_flag == 1);
                                assert(ps.subrange(0, i as int + 1).drop_last() =~= ps.subrange(
                                    0,
                                    i as int,
                                ));
                                assert(ps.subrange(0, i as int + 1).last() == ps[i as int]);
                            }
                            let d = self.gd_udp.send_reliable(dest, &packets[i], now);
                            let ghost dv = d@;
                            out.push(d);
                            proof {
                                assert(dv =~= DatagramV {
                                    dest,
                                    bytes: spec_encode_packet(ps[i as int]),
                                });
                                assert(out_pre.len() == i as int) by {
                                    assert(views_of_datagrams(out_pre).len() == spec_datagrams_to(
                                        ps.subrange(0, i as int),
                                        dest,
                                    ).len());
                                }
                                let goal = spec_datagrams_to(ps.subrange(0, i as int + 1), dest);
                                assert forall|t: int| 0 <= t < out@.len() implies views_of_datagrams(
                                    out@,
                                )[t] == goal[t] by {
                                    if t < out_pre.len() {
                                        assert(out@[t] == out_pre[t]);
                                        assert(views_of_datagrams(out_pre)[t] == spec_datagrams_to(
                                            ps.subrange(0, i as int),
                                            dest,
                                        )[t]);
                                    } else {
                                        assert(out@[t]@ == dv);
                                        assert(goal[t] == DatagramV {
                                            dest,
                                            bytes: spec_encode_packet(ps[i as int]),
                                        });
                                    }
                                }
                                assert(views_of_datagrams(out@) =~= goal);
                                assert(ps.subrange(0, i as int + 1).drop_last() =~= ps.subrange(
                                    0,
                                    i as int,
                                ));
                                assert(ps.subrange(0, i as int + 1).last() == ps[i as int]);
                                assert(self.gd_udp.outbox_view() == spec_register_all(
                                    ob0,
                                    dest,
                                    ps.subrange(0, i as int + 1),
                                    now,
                                ));
                            }
                            i = i + 1;
                        }
                        proof {
                            assert(ps.subrange(0, ps.len() as int) =~= ps);
                        }
                    },
                }
            },
        }
        out
    }

    /// Runs the engine's maintenance sweep: every overdue fragment is
    /// returned for retransmission, and one whose stepped retry counter
    /// would exceed the budget is dropped after that final resend and
    /// reported as a failure.
    pub fn check_time_elapsed(&mut self, now: u64) -> (r: SweepOutcome)
        requires
            old(self).wf(),
        ensures
            final(self).wf(),
            final(self).gd_udp.addr == old(self).gd_udp.addr,
            final(self).gd_udp.retry_interval == old(self).gd_udp.retry_interval,
            final(self).gd_udp.max_retries == old(self).gd_udp.max_retries,
            final(self).gd_udp.outbox_view() == spec_sweep_outbox(
                old(self).gd_udp.outbox_view(),
                now,
                old(self).gd_udp.retry_interval,
                old(self).gd_udp.max_retries,
            ),
            views_of_datagrams(r.resends@) == spec_outbox_resends(
                old(self).gd_udp.outbox_view(),
                now,
                old(self).gd_udp.retry_interval,
                old(self).gd_udp.max_retries,
            ),
            r.failures@ == spec_outbox_failures(
                old(self).gd_udp.outbox_view(),
                now,
                old(self).gd_udp.retry_interval,
                old(self).gd_udp.max_retries,
            ),
    {
        self.gd_udp.check_time_elapsed(now)
    }
}

} // verus!
