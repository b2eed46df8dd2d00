//! The reliability engine: outbox bookkeeping, acknowledgment handling,
//! and the timed retransmission sweep.
//!
//! The engine owns the local bound address and an outbox: one record per
//! in-flight transmission, holding the destination and every fragment not
//! yet acknowledged, each with its retained packet, last-send time and
//! retry count.  A transmission identifier is present exactly while at
//! least one of its fragments is unacknowledged and within the retry
//! budget.  The engine never touches a socket or a clock: send operations
//! return the datagrams to transmit, and the caller passes the current
//! time in.

use crate::addr::Addr;
use crate::codec::{lemma_packet_encode_injective, spec_encode_packet};
use crate::protocol::{Packet, PacketV};
use vstd::prelude::*;

verus! {

/// The position of the first element of `s` satisfying `pred`, or -1 if
/// none does.
pub open spec fn find_first<A>(s: Seq<A>, pred: spec_fn(A) -> bool) -> int
    decreases s.len(),
{
    if s.len() == 0 {
        -1
    } else if pred(s[0]) {
        0
    } else {
        let r = find_first(s.subrange(1, s.len() as int), pred);
        if r == -1 {
            -1
        } else {
            r + 1
        }
    }
}

/// `find_first` finds the first match: -1 means no element matches, and a
/// non-negative result points at a match that no earlier element shares.
pub proof fn lemma_find_first<A>(s: Seq<A>, pred: spec_fn(A) -> bool)
    ensures
        find_first(s, pred) == -1 ==> forall|i: int| 0 <= i < s.len() ==> !pred(s[i]),
        find_first(s, pred) != -1 ==> 0 <= find_first(s, pred) < s.len() && pred(
            s[find_first(s, pred)],
        ) && (forall|i: int| 0 <= i < find_first(s, pred) ==> !pred(s[i])),
    decreases s.len(),
{
    if s.len() == 0 {
    } else if pred(s[0]) {
    } else {
        let t = s.subrange(1, s.len() as int);
        lemma_find_first(t, pred);
        assert(forall|i: int| 0 <= i < t.len() ==> t[i] == s[i + 1]);
        let r = find_first(t, pred);
        if r == -1 {
            assert forall|i: int| 0 <= i < s.len() implies !pred(s[i]) by {
                if i > 0 {
                    assert(s[i] == t[i - 1]);
                }
            }
        } else {
            assert(pred(s[r + 1])) by {
                assert(t[r] == s[r + 1]);
            }
            assert forall|i: int| 0 <= i < r + 1 implies !pred(s[i]) by {
                if i > 0 {
                    assert(s[i] == t[i - 1]);
                }
            }
        }
    }
}

/// One tracked fragment: the retained packet, when it was last sent, and
/// how often it has been retried.
#[derive(Debug)]
pub struct FragmentRecord {
    pub packet: Packet,
    pub last_send: u64,
    pub retries: u32,
}

/// The mathematical image of a `FragmentRecord`.
#[verifier::ext_equal]
pub struct FragV {
    pub packet: PacketV,
    pub last_send: u64,
    pub retries: u32,
}

impl View for FragmentRecord {
    type V = FragV;

    open spec fn view(&self) -> FragV {
        FragV { packet: self.packet@, last_send: self.last_send, retries: self.retries }
    }
}

/// One in-flight transmission: its destination and its unacknowledged
/// fragments.
#[derive(Debug)]
pub struct OutboxEntry {
    pub transmission_id: u64,
    pub dest: Addr,
    pub frags: Vec<FragmentRecord>,
}

/// The mathematical image of an `OutboxEntry`.
#[verifier::ext_equal]
pub struct EntryV {
    pub transmission_id: u64,
    pub dest: Addr,
    pub frags: Seq<FragV>,
}

/// The views of a run of fragment records.
pub open spec fn views_of_frags(s: Seq<FragmentRecord>) -> Seq<FragV> {
    Seq::new(s.len(), |i: int| s[i]@)
}

impl View for OutboxEntry {
    type V = EntryV;

    open spec fn view(&self) -> EntryV {
        EntryV {
            transmission_id: self.transmission_id,
            dest: self.dest,
            frags: views_of_frags(self.frags@),
        }
    }
}

/// One datagram for the caller to transmit: a destination and the bytes.
#[derive(Debug)]
pub struct Datagram {
    pub dest: Addr,
    pub bytes: Vec<u8>,
}

/// The mathematical image of a `Datagram`.
#[verifier::ext_equal]
pub struct DatagramV {
    pub dest: Addr,
    pub bytes: Seq<u8>,
}

impl View for Datagram {
    type V = DatagramV;

    open spec fn view(&self) -> DatagramV {
        DatagramV { dest: self.dest, bytes: self.bytes@ }
    }
}

/// The views of a run of datagrams.
pub open spec fn views_of_datagrams(s: Seq<Datagram>) -> Seq<DatagramV> {
    Seq::new(s.len(), |i: int| s[i]@)
}

/// A delivery failure: a fragment dropped after exhausting its retry
/// budget, reported to the caller rather than retried forever.
#[derive(Clone, Copy, PartialEq, Eq, Structural, Debug)]
pub struct DeliveryFailure {
    pub transmission_id: u64,
    pub fragment_index: u32,
    pub dest: Addr,
}

/// The reliability engine (see the module description).
#[derive(Debug)]
pub struct GdUdp {
    /// The local bound address, used to spot same-host destinations.
    pub addr: Addr,
    /// One record per in-flight transmission.
    pub outbox: Vec<OutboxEntry>,
    /// How long a fragment may rest before it is resent.
    pub retry_interval: u64,
    /// The ceiling of a fragment's retry counter: an overdue fragment is
    /// resent and its counter stepped while the counter stays at or below
    /// this; the resend that would push it past is its last, and the
    /// fragment is then dropped as failed.
    pub max_retries: u32,
}

/// A fragment record belongs to its entry: its retained packet carries the
/// entry's transmission identifier and the reliable flag.
pub open spec fn frag_wf(tid: u64, f: FragV) -> bool {
    &&& f.packet.transmission_id == tid
    &&& f.packet.reliability_flag == 1
}

/// An outbox entry is well-formed: at least one fragment, every fragment
/// belongs to it, and no two fragments share an index.
pub open spec fn entry_wf(e: EntryV) -> bool {
    &&& e.frags.len() >= 1
    &&& forall|i: int| 0 <= i < e.frags.len() ==> frag_wf(e.transmission_id, #[trigger] e.frags[i])
    &&& forall|i: int, j: int|
        0 <= i < j < e.frags.len() ==> #[trigger] e.frags[i].packet.fragment_index
            != #[trigger] e.frags[j].packet.fragment_index
}

/// An outbox is well-formed: every entry is, and no two entries share a
/// transmission identifier.
pub open spec fn outbox_wf(ob: Seq<EntryV>) -> bool {
    &&& forall|i: int| 0 <= i < ob.len() ==> entry_wf(#[trigger] ob[i])
    &&& forall|i: int, j: int|
        0 <= i < j < ob.len() ==> #[trigger] ob[i].transmission_id != #[trigger] ob[j].transmission_id
}

/// Every tracked fragment's retry counter stays within the budget, so
/// each fragment sees at most `maxr + 1` resends before it is either
/// acknowledged or reported failed.
pub open spec fn retries_bounded(ob: Seq<EntryV>, maxr: u32) -> bool {
    forall|i: int, j: int|
        0 <= i < ob.len() && 0 <= j < ob[i].frags.len() ==> #[trigger] ob[i].frags[j].retries
            <= maxr
}

/// The position of transmission `tid` in the outbox, or -1 if untracked.
pub open spec fn entry_index(ob: Seq<EntryV>, tid: u64) -> int {
    find_first(ob, |e: EntryV| e.transmission_id == tid)
}

/// The position of fragment `idx` in an entry's fragments, or -1.
pub open spec fn frag_index(fs: Seq<FragV>, idx: u32) -> int {
    find_first(fs, |f: FragV| f.packet.fragment_index == idx)
}

/// Whether the outbox tracks transmission `tid` at all.
pub open spec fn spec_has_tid(ob: Seq<EntryV>, tid: u64) -> bool {
    entry_index(ob, tid) >= 0
}

/// Whether fragment `idx` of transmission `tid` is still unacknowledged.
pub open spec fn spec_frag_unacked(ob: Seq<EntryV>, tid: u64, idx: u32) -> bool {
    let k = entry_index(ob, tid);
    k >= 0 && frag_index(ob[k].frags, idx) >= 0
}

/// The tracked state of fragment `idx` of transmission `tid`, if any.
pub open spec fn spec_frag_lookup(ob: Seq<EntryV>, tid: u64, idx: u32) -> Option<FragV> {
    let k = entry_index(ob, tid);
    if k >= 0 {
        let j = frag_index(ob[k].frags, idx);
        if j >= 0 {
            Some(ob[k].frags[j])
        } else {
            None
        }
    } else {
        None
    }
}

/// A freshly registered fragment: sent now, never retried.
pub open spec fn new_frag(p: PacketV, now: u64) -> FragV {
    FragV { packet: p, last_send: now, retries: 0 }
}

/// The outbox after registering reliable packet `p` bound for `dst` at
/// time `now`: a new entry if the transmission is untracked, a new
/// fragment if the fragment is, and no change if both are present.
pub open spec fn spec_register(ob: Seq<EntryV>, dst: Addr, p: PacketV, now: u64) -> Seq<EntryV> {
    let k = entry_index(ob, p.transmission_id);
    if k < 0 {
        ob.push(
            EntryV {
                transmission_id: p.transmission_id,
                dest: dst,
                frags: seq![new_frag(p, now)],
            },
        )
    } else {
        let e = ob[k];
        let j = frag_index(e.frags, p.fragment_index);
        if j < 0 {
            ob.update(k, EntryV { frags: e.frags.push(new_frag(p, now)), ..e })
        } else {
            ob
        }
    }
}

/// The outbox after acknowledging fragment `idx` of transmission `tid`:
/// the fragment leaves its entry, the entry leaves the outbox when that
/// was its last fragment, and an unknown `tid` or `idx` changes nothing.
pub open spec fn spec_ack(ob: Seq<EntryV>, tid: u64, idx: u32) -> Seq<EntryV> {
    let k = entry_index(ob, tid);
    if k < 0 {
        ob
    } else {
        let e = ob[k];
        let j = frag_index(e.frags, idx);
        if j < 0 {
            ob
        } else if e.frags.len() == 1 {
            ob.remove(k)
        } else {
            ob.update(k, EntryV { frags: e.frags.remove(j), ..e })
        }
    }
}

/// `find_first` is determined by a witness: a position whose element
/// matches while no earlier one does, or the absence of any match.
proof fn lemma_find_first_determined<A>(s: Seq<A>, pred: spec_fn(A) -> bool, k: int)
    requires
        -1 <= k < s.len(),
        k == -1 ==> forall|i: int| 0 <= i < s.len() ==> !pred(s[i]),
        k >= 0 ==> pred(s[k]) && (forall|i: int| 0 <= i < k ==> !pred(s[i])),
    ensures
        find_first(s, pred) == k,
{
    lemma_find_first(s, pred);
    let r = find_first(s, pred);
    if k == -1 {
        if r != -1 {
            assert(!pred(s[r]));
        }
    } else {
        if r == -1 {
            assert(!pred(s[k]));
        } else if r < k {
            assert(!pred(s[r]));
        } else if r > k {
            assert(!pred(s[k]));
        }
    }
}

/// Registration only adds: a fragment tracked before `spec_register` is
/// still tracked after it, and the registered packet's own fragment is
/// tracked in the result.
pub proof fn lemma_register_tracks(
    ob: Seq<EntryV>,
    dst: Addr,
    p: PacketV,
    now: u64,
    tid: u64,
    idx: u32,
)
    ensures
        spec_frag_unacked(ob, tid, idx) ==> spec_frag_unacked(
            spec_register(ob, dst, p, now),
            tid,
            idx,
        ),
        spec_frag_unacked(spec_register(ob, dst, p, now), p.transmission_id, p.fragment_index),
{
    let r = spec_register(ob, dst, p, now);
    let ppred = |e: EntryV| e.transmission_id == p.transmission_id;
    let tpred = |e: EntryV| e.transmission_id == tid;
    let pfpred = |f: FragV| f.packet.fragment_index == p.fragment_index;
    let tfpred = |f: FragV| f.packet.fragment_index == idx;
    lemma_find_first(ob, ppred);
    lemma_find_first(ob, tpred);
    let k = entry_index(ob, p.transmission_id);
    if k < 0 {
        // A fresh entry was pushed at the end; earlier entries are as
        // they were.
        let ev = EntryV {
            transmission_id: p.transmission_id,
            dest: dst,
            frags: seq![new_frag(p, now)],
        };
        assert(r == ob.push(ev));
        assert(forall|i: int| 0 <= i < ob.len() ==> r[i] == ob[i]);
        lemma_find_first_determined(r, ppred, ob.len() as int);
        lemma_find_first(ev.frags, pfpred);
        assert(frag_index(ev.frags, p.fragment_index) >= 0) by {
            if frag_index(ev.frags, p.fragment_index) == -1 {
                assert(!pfpred(ev.frags[0]));
            }
        }
        if spec_frag_unacked(ob, tid, idx) {
            let k0 = entry_index(ob, tid);
            lemma_find_first_determined(r, tpred, k0);
            assert(r[k0] == ob[k0]);
        }
    } else {
        let e = ob[k];
        lemma_find_first(e.frags, pfpred);
        let j = frag_index(e.frags, p.fragment_index);
        if j >= 0 {
            assert(r == ob);
        } else {
            // One fragment was appended to the entry's list; everything
            // else is as it was.
            let ev = EntryV { frags: e.frags.push(new_frag(p, now)), ..e };
            assert(r == ob.update(k, ev));
            assert(forall|i: int| 0 <= i < ob.len() ==> r[i].transmission_id
                == ob[i].transmission_id);
            lemma_find_first_determined(r, ppred, k);
            lemma_find_first(ev.frags, pfpred);
            assert(frag_index(ev.frags, p.fragment_index) >= 0) by {
                if frag_index(ev.frags, p.fragment_index) == -1 {
                    assert(!pfpred(ev.frags.last()));
                }
            }
            if spec_frag_unacked(ob, tid, idx) {
                let k0 = entry_index(ob, tid);
                lemma_find_first_determined(r, tpred, k0);
                if k0 != k {
                    assert(r[k0] == ob[k0]);
                } else {
                    // Same transmission: its old fragments sit unmoved in
                    // front of the appended one.
                    let j0 = frag_index(ob[k0].frags, idx);
                    lemma_find_first(ob[k0].frags, tfpred);
                    assert(forall|i: int| 0 <= i < e.frags.len() ==> ev.frags[i] == e.frags[i]);
                    lemma_find_first_determined(ev.frags, tfpred, j0);
                }
            }
        }
    }
}

/// Whether a fragment has rested long enough to be resent: its last send
/// lies a full retry interval or more in the past.
pub open spec fn spec_overdue(f: FragV, now: u64, interval: u64) -> bool {
    f.last_send + interval <= now
}

/// An overdue fragment after its resend: sent now, one more retry.
pub open spec fn spec_resent_frag(f: FragV, now: u64) -> FragV {
    FragV { last_send: now, retries: (f.retries + 1) as u32, ..f }
}

/// The fragments kept by one maintenance sweep: fragments not yet overdue
/// stay as they are, and an overdue fragment is kept, resent with its
/// counter stepped and its send time stamped, as long as the stepped
/// counter stays within the retry budget; once the counter would exceed
/// the budget the fragment leaves, right after its final resend.
pub open spec fn spec_sweep_frags(fs: Seq<FragV>, now: u64, interval: u64, maxr: u32) -> Seq<FragV>
    decreases fs.len(),
{
    if fs.len() == 0 {
        Seq::empty()
    } else {
        let rest = spec_sweep_frags(fs.drop_last(), now, interval, maxr);
        let f = fs.last();
        if !spec_overdue(f, now, interval) {
            rest.push(f)
        } else if f.retries < maxr {
            rest.push(spec_resent_frag(f, now))
        } else {
            rest
        }
    }
}

/// The datagrams one sweep resends out of one entry's fragments, in
/// fragment order: one per overdue fragment whose counter has not yet
/// exceeded the budget — the sweep that drops a fragment still gives it
/// its final resend.
pub open spec fn spec_frag_resends(
    fs: Seq<FragV>,
    now: u64,
    interval: u64,
    maxr: u32,
    dest: Addr,
) -> Seq<DatagramV>
    decreases fs.len(),
{
    if fs.len() == 0 {
        Seq::empty()
    } else {
        let rest = spec_frag_resends(fs.drop_last(), now, interval, maxr, dest);
        let f = fs.last();
        if spec_overdue(f, now, interval) && f.retries <= maxr {
            rest.push(DatagramV { dest, bytes: spec_encode_packet(f.packet) })
        } else {
            rest
        }
    }
}

/// The failures one sweep reports out of one entry's fragments: one per
/// overdue fragment whose stepped counter would exceed the retry budget.
pub open spec fn spec_frag_failures(
    fs: Seq<FragV>,
    now: u64,
    interval: u64,
    maxr: u32,
    tid: u64,
    dest: Addr,
) -> Seq<DeliveryFailure>
    decreases fs.len(),
{
    if fs.len() == 0 {
        Seq::empty()
    } else {
        let rest = spec_frag_failures(fs.drop_last(), now, interval, maxr, tid, dest);
        let f = fs.last();
        if spec_overdue(f, now, interval) && f.retries >= maxr {
            rest.push(
                DeliveryFailure {
                    transmission_id: tid,
                    fragment_index: f.packet.fragment_index,
                    dest,
                },
            )
        } else {
            rest
        }
    }
}

/// The outbox after one maintenance sweep: each entry keeps its swept
/// fragments, and an entry whose fragments all leave leaves itself.
pub open spec fn spec_sweep_outbox(ob: Seq<EntryV>, now: u64, interval: u64, maxr: u32) -> Seq<
    EntryV,
>
    decreases ob.len(),
{
    if ob.len() == 0 {
        Seq::empty()
    } else {
        let rest = spec_sweep_outbox(ob.drop_last(), now, interval, maxr);
        let e = ob.last();
        let fs = spec_sweep_frags(e.frags, now, interval, maxr);
        if fs.len() == 0 {
            rest
        } else {
            rest.push(EntryV { frags: fs, ..e })
        }
    }
}

/// All datagrams one sweep resends, in outbox order.
pub open spec fn spec_outbox_resends(ob: Seq<EntryV>, now: u64, interval: u64, maxr: u32) -> Seq<
    DatagramV,
>
    decreases ob.len(),
{
    if ob.len() == 0 {
        Seq::empty()
    } else {
        spec_outbox_resends(ob.drop_last(), now, interval, maxr) + spec_frag_resends(
            ob.last().frags,
            now,
            interval,
            maxr,
            ob.last().dest,
        )
    }
}

/// All failures one sweep reports, in outbox order.
pub open spec fn spec_outbox_failures(ob: Seq<EntryV>, now: u64, interval: u64, maxr: u32) -> Seq<
    DeliveryFailure,
>
    decreases ob.len(),
{
    if ob.len() == 0 {
        Seq::empty()
    } else {
        spec_outbox_failures(ob.drop_last(), now, interval, maxr) + spec_frag_failures(
            ob.last().frags,
            now,
            interval,
            maxr,
            ob.last().transmission_id,
            ob.last().dest,
        )
    }
}

/// What one maintenance sweep hands back to the caller: the datagrams to
/// retransmit and the fragments given up on.
#[derive(Debug)]
pub struct SweepOutcome {
    pub resends: Vec<Datagram>,
    pub failures: Vec<DeliveryFailure>,
}

/// Sweeping an entry's well-formed fragments keeps them well-formed:
/// every kept fragment still belongs to the entry, indices stay distinct,
/// retry counters stay within the budget, and every kept index stems from
/// an original fragment.
proof fn lemma_sweep_frags_wf(tid: u64, fs: Seq<FragV>, now: u64, interval: u64, maxr: u32)
    requires
        forall|i: int| 0 <= i < fs.len() ==> frag_wf(tid, #[trigger] fs[i]),
        forall|i: int, j: int|
            0 <= i < j < fs.len() ==> #[trigger] fs[i].packet.fragment_index
                != #[trigger] fs[j].packet.fragment_index,
        forall|i: int| 0 <= i < fs.len() ==> #[trigger] fs[i].retries <= maxr,
    ensures
        forall|i: int|
            0 <= i < spec_sweep_frags(fs, now, interval, maxr).len() ==> #[trigger] spec_sweep_frags(
                fs,
                now,
                interval,
                maxr,
            )[i].retries <= maxr,
        forall|i: int|
            0 <= i < spec_sweep_frags(fs, now, interval, maxr).len() ==> frag_wf(
                tid,
                #[trigger] spec_sweep_frags(fs, now, interval, maxr)[i],
            ),
        forall|i: int, j: int|
            0 <= i < j < spec_sweep_frags(fs, now, interval, maxr).len()
                ==> #[trigger] spec_sweep_frags(fs, now, interval, maxr)[i].packet.fragment_index
                != #[trigger] spec_sweep_frags(fs, now, interval, maxr)[j].packet.fragment_index,
        forall|i: int|
            0 <= i < spec_sweep_frags(fs, now, interval, maxr).len() ==> exists|i0: int|
                0 <= i0 < fs.len() && #[trigger] spec_sweep_frags(
                    fs,
                    now,
                    interval,
                    maxr,
                )[i].packet.fragment_index == fs[i0].packet.fragment_index,
    decreases fs.len(),
{
    if fs.len() == 0 {
    } else {
        let pre = fs.drop_last();
        lemma_sweep_frags_wf(tid, pre, now, interval, maxr);
        let rest = spec_sweep_frags(pre, now, interval, maxr);
        let r = spec_sweep_frags(fs, now, interval, maxr);
        let f = fs.last();
        assert(forall|i: int| 0 <= i < pre.len() ==> pre[i] == fs[i]);
        if !spec_overdue(f, now, interval) || f.retries < maxr {
            let g: FragV = if !spec_overdue(f, now, interval) {
                f
            } else {
                spec_resent_frag(f, now)
            };
            assert(r == rest.push(g));
            assert(frag_wf(tid, g));
            assert(g.retries <= maxr);
            assert forall|i: int, j: int| 0 <= i < j < r.len() implies #[trigger] r[i].packet.fragment_index
                != #[trigger] r[j].packet.fragment_index by {
                if j == r.len() - 1 {
                    assert(r[i] == rest[i]);
                    let i0 = choose|i0: int|
                        0 <= i0 < pre.len() && rest[i].packet.fragment_index
                            == pre[i0].packet.fragment_index;
                    assert(fs[i0].packet.fragment_index != fs[fs.len() - 1].packet.fragment_index);
                } else {
                    assert(r[i] == rest[i] && r[j] == rest[j]);
                }
            }
            assert forall|i: int| 0 <= i < r.len() implies exists|i0: int|
                0 <= i0 < fs.len() && #[trigger] r[i].packet.fragment_index
                    == fs[i0].packet.fragment_index by {
                if i == r.len() - 1 {
                    assert(r[i].packet.fragment_index == fs[fs.len() - 1].packet.fragment_index);
                } else {
                    assert(r[i] == rest[i]);
                    let i0 = choose|i0: int|
                        0 <= i0 < pre.len() && rest[i].packet.fragment_index
                            == pre[i0].packet.fragment_index;
                    assert(r[i].packet.fragment_index == fs[i0].packet.fragment_index);
                }
            }
        } else {
            assert(r == rest);
            assert forall|i: int| 0 <= i < r.len() implies exists|i0: int|
                0 <= i0 < fs.len() && #[trigger] r[i].packet.fragment_index
                    == fs[i0].packet.fragment_index by {
                let i0 = choose|i0: int|
                    0 <= i0 < pre.len() && rest[i].packet.fragment_index
                        == pre[i0].packet.fragment_index;
                assert(r[i].packet.fragment_index == fs[i0].packet.fragment_index);
            }
        }
    }
}

/// Sweeping a well-formed outbox keeps it well-formed, keeps every retry
/// counter within the budget, and every kept transmission identifier
/// stems from an original entry.
proof fn lemma_sweep_outbox_wf(ob: Seq<EntryV>, now: u64, interval: u64, maxr: u32)
    requires
        outbox_wf(ob),
        retries_bounded(ob, maxr),
    ensures
        outbox_wf(spec_sweep_outbox(ob, now, interval, maxr)),
        retries_bounded(spec_sweep_outbox(ob, now, interval, maxr), maxr),
        forall|i: int|
            0 <= i < spec_sweep_outbox(ob, now, interval, maxr).len() ==> exists|i0: int|
                0 <= i0 < ob.len() && #[trigger] spec_sweep_outbox(
                    ob,
                    now,
                    interval,
                    maxr,
                )[i].transmission_id == ob[i0].transmission_id,
    decreases ob.len(),
{
    if ob.len() == 0 {
    } else {
        let pre = ob.drop_last();
        assert(outbox_wf(pre) && retries_bounded(pre, maxr)) by {
            assert(forall|i: int| 0 <= i < pre.len() ==> pre[i] == ob[i]);
        }
        lemma_sweep_outbox_wf(pre, now, interval, maxr);
        let rest = spec_sweep_outbox(pre, now, interval, maxr);
        let r = spec_sweep_outbox(ob, now, interval, maxr);
        let e = ob.last();
        assert(entry_wf(e));
        let fs = spec_sweep_frags(e.frags, now, interval, maxr);
        assert(forall|i: int| 0 <= i < e.frags.len() ==> #[trigger] e.frags[i].retries <= maxr) by {
            assert(forall|i: int| 0 <= i < e.frags.len() ==> ob[ob.len() - 1].frags[i] == e.frags[i]);
        }
        lemma_sweep_frags_wf(e.transmission_id, e.frags, now, interval, maxr);
        assert(forall|i: int| 0 <= i < pre.len() ==> pre[i] == ob[i]);
        if fs.len() == 0 {
            assert(r == rest);
            assert forall|i: int| 0 <= i < r.len() implies exists|i0: int|
                0 <= i0 < ob.len() && #[trigger] r[i].transmission_id == ob[i0].transmission_id by {
                let i0 = choose|i0: int|
                    0 <= i0 < pre.len() && rest[i].transmission_id == pre[i0].transmission_id;
                assert(r[i].transmission_id == ob[i0].transmission_id);
            }
        } else {
            let ev = EntryV { frags: fs, ..e };
            assert(r == rest.push(ev));
            assert(entry_wf(ev));
            assert forall|i: int, j: int|
                0 <= i < r.len() && 0 <= j < r[i].frags.len() implies #[trigger] r[i].frags[j].retries
                <= maxr by {
                if i < rest.len() {
                    assert(r[i] == rest[i]);
                } else {
                    assert(r[i] == ev);
                }
            }
            assert forall|i: int, j: int| 0 <= i < j < r.len() implies #[trigger] r[i].transmission_id
                != #[trigger] r[j].transmission_id by {
                if j == r.len() - 1 {
                    assert(r[i] == rest[i]);
                    let i0 = choose|i0: int|
                        0 <= i0 < pre.len() && rest[i].transmission_id == pre[i0].transmission_id;
                    assert(ob[i0].transmission_id != ob[ob.len() - 1].transmission_id);
                } else {
                    assert(r[i] == rest[i] && r[j] == rest[j]);
                }
            }
            assert forall|i: int| 0 <= i < r.len() implies exists|i0: int|
                0 <= i0 < ob.len() && #[trigger] r[i].transmission_id == ob[i0].transmission_id by {
                if i == r.len() - 1 {
                    assert(r[i].transmission_id == ob[ob.len() - 1].transmission_id);
                } else {
                    assert(r[i] == rest[i]);
                    let i0 = choose|i0: int|
                        0 <= i0 < pre.len() && rest[i].transmission_id == pre[i0].transmission_id;
                    assert(r[i].transmission_id == ob[i0].transmission_id);
                }
            }
        }
    }
}

/// How often `x` occurs in `s`.
pub open spec fn occurrences<A>(s: Seq<A>, x: A) -> int
    decreases s.len(),
{
    if s.len() == 0 {
        0
    } else {
        occurrences(s.drop_last(), x) + if s.last() == x {
            1int
        } else {
            0int
        }
    }
}

/// Occurrences add up over concatenation.
pub proof fn lemma_occurrences_concat<A>(a: Seq<A>, b: Seq<A>, x: A)
    ensures
        occurrences(a + b, x) == occurrences(a, x) + occurrences(b, x),
    decreases b.len(),
{
    if b.len() == 0 {
        assert(a + b =~= a);
    } else {
        lemma_occurrences_concat(a, b.drop_last(), x);
        assert((a + b).drop_last() =~= a + b.drop_last());
        assert((a + b).last() == b.last());
    }
}

/// How many fragments of `fs` carry fragment index `idx`.
pub open spec fn frags_with_index(fs: Seq<FragV>, idx: u32) -> int
    decreases fs.len(),
{
    if fs.len() == 0 {
        0
    } else {
        frags_with_index(fs.drop_last(), idx) + if fs.last().packet.fragment_index == idx {
            1int
        } else {
            0int
        }
    }
}

/// A fragment index foreign to a fragment list is untouched by its sweep:
/// nothing with that index is kept, resent or failed.
proof fn lemma_frag_sweep_zero_idx(
    fs: Seq<FragV>,
    now: u64,
    interval: u64,
    maxr: u32,
    tid: u64,
    dest: Addr,
    p: PacketV,
    d: DatagramV,
    fail: DeliveryFailure,
)
    requires
        forall|i: int| 0 <= i < fs.len() ==> #[trigger] fs[i].packet.fragment_index
            != p.fragment_index,
        d.bytes == spec_encode_packet(p),
        fail.fragment_index == p.fragment_index,
    ensures
        frags_with_index(spec_sweep_frags(fs, now, interval, maxr), p.fragment_index) == 0,
        occurrences(spec_frag_resends(fs, now, interval, maxr, dest), d) == 0,
        occurrences(spec_frag_failures(fs, now, interval, maxr, tid, dest), fail) == 0,
    decreases fs.len(),
{
    if fs.len() == 0 {
    } else {
        let pre = fs.drop_last();
        assert(forall|i: int| 0 <= i < pre.len() ==> pre[i] == fs[i]);
        lemma_frag_sweep_zero_idx(pre, now, interval, maxr, tid, dest, p, d, fail);
        let f = fs.last();
        assert(f.packet.fragment_index != p.fragment_index);
        let swp_pre = spec_sweep_frags(pre, now, interval, maxr);
        let res_pre = spec_frag_resends(pre, now, interval, maxr, dest);
        let fls_pre = spec_frag_failures(pre, now, interval, maxr, tid, dest);
        if !spec_overdue(f, now, interval) {
            assert(spec_sweep_frags(fs, now, interval, maxr) == swp_pre.push(f));
            assert(swp_pre.push(f).drop_last() =~= swp_pre);
            assert(swp_pre.push(f).last() == f);
        } else {
            if f.retries <= maxr {
                let dd = DatagramV { dest, bytes: spec_encode_packet(f.packet) };
                assert(dd != d) by {
                    if dd == d {
                        lemma_packet_encode_injective(f.packet, p);
                    }
                }
                assert(spec_frag_resends(fs, now, interval, maxr, dest) == res_pre.push(dd));
                assert(res_pre.push(dd).drop_last() =~= res_pre);
                assert(res_pre.push(dd).last() == dd);
            }
            if f.retries < maxr {
                let g = spec_resent_frag(f, now);
                assert(spec_sweep_frags(fs, now, interval, maxr) == swp_pre.push(g));
                assert(swp_pre.push(g).drop_last() =~= swp_pre);
                assert(swp_pre.push(g).last() == g);
                assert(g.packet.fragment_index != p.fragment_index);
            } else {
                let ffail = DeliveryFailure {
                    transmission_id: tid,
                    fragment_index: f.packet.fragment_index,
                    dest,
                };
                assert(ffail != fail);
                assert(spec_frag_failures(fs, now, interval, maxr, tid, dest) == fls_pre.push(
                    ffail,
                ));
                assert(fls_pre.push(ffail).drop_last() =~= fls_pre);
                assert(fls_pre.push(ffail).last() == ffail);
            }
        }
    }
}

/// A sweep of fragments all carrying one transmission identifier never
/// resends or fails a packet of another transmission.
proof fn lemma_frag_sweep_zero_tid(
    fs: Seq<FragV>,
    now: u64,
    interval: u64,
    maxr: u32,
    tid: u64,
    dest: Addr,
    p: PacketV,
    d: DatagramV,
    fail: DeliveryFailure,
)
    requires
        forall|i: int| 0 <= i < fs.len() ==> #[trigger] fs[i].packet.transmission_id == tid,
        tid != p.transmission_id,
        d.bytes == spec_encode_packet(p),
        fail.transmission_id == p.transmission_id,
    ensures
        occurrences(spec_frag_resends(fs, now, interval, maxr, dest), d) == 0,
        occurrences(spec_frag_failures(fs, now, interval, maxr, tid, dest), fail) == 0,
    decreases fs.len(),
{
    if fs.len() == 0 {
    } else {
        let pre = fs.drop_last();
        assert(forall|i: int| 0 <= i < pre.len() ==> pre[i] == fs[i]);
        lemma_frag_sweep_zero_tid(pre, now, interval, maxr, tid, dest, p, d, fail);
        let f = fs.last();
        assert(f.packet.transmission_id == tid);
        let res_pre = spec_frag_resends(pre, now, interval, maxr, dest);
        let fls_pre = spec_frag_failures(pre, now, interval, maxr, tid, dest);
        if spec_overdue(f, now, interval) {
            if f.retries <= maxr {
                let dd = DatagramV { dest, bytes: spec_encode_packet(f.packet) };
                assert(dd != d) by {
                    if dd == d {
                        lemma_packet_encode_injective(f.packet, p);
                    }
                }
                assert(spec_frag_resends(fs, now, interval, maxr, dest) == res_pre.push(dd));
                assert(res_pre.push(dd).drop_last() =~= res_pre);
                assert(res_pre.push(dd).last() == dd);
            }
            if f.retries >= maxr {
                let ffail = DeliveryFailure {
                    transmission_id: tid,
                    fragment_index: f.packet.fragment_index,
                    dest,
                };
                assert(ffail != fail);
                assert(spec_frag_failures(fs, now, interval, maxr, tid, dest) == fls_pre.push(
                    ffail,
                ));
                assert(fls_pre.push(ffail).drop_last() =~= fls_pre);
                assert(fls_pre.push(ffail).last() == ffail);
            }
        }
    }
}

/// A sweep of an outbox that does not track `p`'s transmission never
/// resends or fails `p`.
proof fn lemma_outbox_sweep_zero(
    ob: Seq<EntryV>,
    now: u64,
    interval: u64,
    maxr: u32,
    p: PacketV,
    d: DatagramV,
    fail: DeliveryFailure,
)
    requires
        outbox_wf(ob),
        forall|i: int| 0 <= i < ob.len() ==> #[trigger] ob[i].transmission_id
            != p.transmission_id,
        d.bytes == spec_encode_packet(p),
        fail.transmission_id == p.transmission_id,
    ensures
        occurrences(spec_outbox_resends(ob, now, interval, maxr), d) == 0,
        occurrences(spec_outbox_failures(ob, now, interval, maxr), fail) == 0,
    decreases ob.len(),
{
    if ob.len() == 0 {
    } else {
        let pre = ob.drop_last();
        assert(forall|i: int| 0 <= i < pre.len() ==> pre[i] == ob[i]);
        lemma_outbox_sweep_zero(pre, now, interval, maxr, p, d, fail);
        let e = ob.last();
        assert(entry_wf(e));
        assert(e.transmission_id != p.transmission_id);
        lemma_frag_sweep_zero_tid(
            e.frags,
            now,
            interval,
            maxr,
            e.transmission_id,
            e.dest,
            p,
            d,
            fail,
        );
        lemma_occurrences_concat(
            spec_outbox_resends(pre, now, interval, maxr),
            spec_frag_resends(e.frags, now, interval, maxr, e.dest),
            d,
        );
        lemma_occurrences_concat(
            spec_outbox_failures(pre, now, interval, maxr),
            spec_frag_failures(e.frags, now, interval, maxr, e.transmission_id, e.dest),
            fail,
        );
    }
}

/// The fate of one fragment under the sweep of its own fragment list:
/// not yet overdue, it is kept untouched and neither resent nor failed;
/// overdue with budget to spare, it is kept with its counter stepped and
/// its send time stamped, and resent exactly once; overdue with its
/// counter at the budget, it takes its final resend and leaves the list,
/// failed exactly once.
proof fn lemma_frags_sweep_once(
    fs: Seq<FragV>,
    now: u64,
    interval: u64,
    maxr: u32,
    tid: u64,
    dest: Addr,
    j: int,
)
    requires
        forall|i: int| 0 <= i < fs.len() ==> frag_wf(tid, #[trigger] fs[i]),
        forall|i1: int, i2: int|
            0 <= i1 < i2 < fs.len() ==> #[trigger] fs[i1].packet.fragment_index
                != #[trigger] fs[i2].packet.fragment_index,
        forall|i: int| 0 <= i < fs.len() ==> #[trigger] fs[i].retries <= maxr,
        0 <= j < fs.len(),
    ensures
        ({
            let f = fs[j];
            let idx = f.packet.fragment_index;
            let d = DatagramV { dest, bytes: spec_encode_packet(f.packet) };
            let fail = DeliveryFailure { transmission_id: tid, fragment_index: idx, dest };
            let kept = spec_sweep_frags(fs, now, interval, maxr);
            let res = spec_frag_resends(fs, now, interval, maxr, dest);
            let fls = spec_frag_failures(fs, now, interval, maxr, tid, dest);
            &&& (!spec_overdue(f, now, interval) ==> occurrences(kept, f) == 1
                && frags_with_index(kept, idx) == 1 && occurrences(res, d) == 0 && occurrences(
                fls,
                fail,
            ) == 0)
            &&& (spec_overdue(f, now, interval) && f.retries < maxr ==> occurrences(
                kept,
                spec_resent_frag(f, now),
            ) == 1 && frags_with_index(kept, idx) == 1 && occurrences(res, d) == 1 && occurrences(
                fls,
                fail,
            ) == 0)
            &&& (spec_overdue(f, now, interval) && f.retries >= maxr ==> frags_with_index(
                kept,
                idx,
            ) == 0 && occurrences(res, d) == 1 && occurrences(fls, fail) == 1)
        }),
    decreases fs.len(),
{
    let f = fs[j];
    let idx = f.packet.fragment_index;
    let d = DatagramV { dest, bytes: spec_encode_packet(f.packet) };
    let fail = DeliveryFailure { transmission_id: tid, fragment_index: idx, dest };
    let pre = fs.drop_last();
    assert(forall|i: int| 0 <= i < pre.len() ==> pre[i] == fs[i]);
    let last = fs.last();
    if j == fs.len() - 1 {
        // The fragment in question is the last one; no earlier fragment
        // shares its index, nor does anything its sweep keeps or emits.
        assert(fs.last() == f);
        assert(forall|i0: int| 0 <= i0 < pre.len() ==> #[trigger] pre[i0].packet.fragment_index
            != idx);
        lemma_frag_sweep_zero_idx(pre, now, interval, maxr, tid, dest, f.packet, d, fail);
        lemma_sweep_frags_wf(tid, pre, now, interval, maxr);
        let swp_pre = spec_sweep_frags(pre, now, interval, maxr);
        let res_pre = spec_frag_resends(pre, now, interval, maxr, dest);
        let fls_pre = spec_frag_failures(pre, now, interval, maxr, tid, dest);
        assert forall|i: int| 0 <= i < swp_pre.len() implies #[trigger] swp_pre[i].packet.fragment_index
            != idx by {
            let i0 = choose|i0: int|
                0 <= i0 < pre.len() && swp_pre[i].packet.fragment_index
                    == pre[i0].packet.fragment_index;
        }
        if spec_overdue(f, now, interval) && f.retries < maxr {
            let g = spec_resent_frag(f, now);
            assert(spec_sweep_frags(fs, now, interval, maxr) == swp_pre.push(g));
            assert(swp_pre.push(g).drop_last() =~= swp_pre);
            assert(swp_pre.push(g).last() == g);
            lemma_occurrences_bounded_by_index(swp_pre, g, idx);
            assert(spec_frag_resends(fs, now, interval, maxr, dest) == res_pre.push(d));
            assert(res_pre.push(d).drop_last() =~= res_pre);
            assert(res_pre.push(d).last() == d);
        } else if !spec_overdue(f, now, interval) {
            assert(spec_sweep_frags(fs, now, interval, maxr) == swp_pre.push(f));
            assert(swp_pre.push(f).drop_last() =~= swp_pre);
            assert(swp_pre.push(f).last() == f);
            lemma_occurrences_bounded_by_index(swp_pre, f, idx);
        } else {
            assert(spec_sweep_frags(fs, now, interval, maxr) == swp_pre);
            assert(spec_frag_failures(fs, now, interval, maxr, tid, dest) == fls_pre.push(fail));
            assert(fls_pre.push(fail).drop_last() =~= fls_pre);
            assert(fls_pre.push(fail).last() == fail);
            assert(f.retries == maxr);
            assert(spec_frag_resends(fs, now, interval, maxr, dest) == res_pre.push(d));
            assert(res_pre.push(d).drop_last() =~= res_pre);
            assert(res_pre.push(d).last() == d);
        }
    } else {
        // The fragment in question sits in the prefix; the last fragment
        // has a different index and cannot affect its counts.
        lemma_frags_sweep_once(pre, now, interval, maxr, tid, dest, j);
        assert(last.packet.fragment_index != idx);
        let swp_pre = spec_sweep_frags(pre, now, interval, maxr);
        let res_pre = spec_frag_resends(pre, now, interval, maxr, dest);
        let fls_pre = spec_frag_failures(pre, now, interval, maxr, tid, dest);
        if !spec_overdue(last, now, interval) {
            assert(last != f && last != spec_resent_frag(f, now));
            assert(spec_sweep_frags(fs, now, interval, maxr) == swp_pre.push(last));
            assert(swp_pre.push(last).drop_last() =~= swp_pre);
            assert(swp_pre.push(last).last() == last);
        } else {
            if last.retries <= maxr {
                let dd = DatagramV { dest, bytes: spec_encode_packet(last.packet) };
                assert(dd != d) by {
                    if dd == d {
                        lemma_packet_encode_injective(last.packet, f.packet);
                    }
                }
                assert(spec_frag_resends(fs, now, interval, maxr, dest) == res_pre.push(dd));
                assert(res_pre.push(dd).drop_last() =~= res_pre);
                assert(res_pre.push(dd).last() == dd);
            }
            if last.retries < maxr {
                let g = spec_resent_frag(last, now);
                assert(g.packet.fragment_index != idx);
                assert(g != f && g != spec_resent_frag(f, now));
                assert(spec_sweep_frags(fs, now, interval, maxr) == swp_pre.push(g));
                assert(swp_pre.push(g).drop_last() =~= swp_pre);
                assert(swp_pre.push(g).last() == g);
            } else {
                let ffail = DeliveryFailure {
                    transmission_id: tid,
                    fragment_index: last.packet.fragment_index,
                    dest,
                };
                assert(ffail != fail);
                assert(spec_frag_failures(fs, now, interval, maxr, tid, dest) == fls_pre.push(
                    ffail,
                ));
                assert(fls_pre.push(ffail).drop_last() =~= fls_pre);
                assert(fls_pre.push(ffail).last() == ffail);
            }
        }
    }
}

/// Occurrences of a fragment whose index is foreign to a list are zero.
proof fn lemma_occurrences_bounded_by_index(fs: Seq<FragV>, g: FragV, idx: u32)
    requires
        g.packet.fragment_index == idx,
        forall|i: int| 0 <= i < fs.len() ==> #[trigger] fs[i].packet.fragment_index != idx,
    ensures
        occurrences(fs, g) == 0,
    decreases fs.len(),
{
    if fs.len() == 0 {
    } else {
        let pre = fs.drop_last();
        assert(forall|i: int| 0 <= i < pre.len() ==> pre[i] == fs[i]);
        lemma_occurrences_bounded_by_index(pre, g, idx);
        assert(fs.last().packet.fragment_index != idx);
    }
}

/// Retry law, per fragment and per sweep.  An unacknowledged fragment
/// untouched past the retry interval is resent exactly once by one
/// maintenance sweep; while its counter stays below the budget it is kept
/// with the counter stepped by one and its last-send time set to the
/// sweep time, and once the counter stands at the budget, so that the
/// step would exceed it, the fragment takes that final resend, leaves its
/// entry, and is reported as a delivery failure exactly once.  One within
/// the interval is kept exactly as it was and neither resent nor failed.
#[verifier::rlimit(60)]
pub proof fn lemma_sweep_resend_once(
    ob: Seq<EntryV>,
    now: u64,
    interval: u64,
    maxr: u32,
    tid: u64,
    idx: u32,
)
    requires
        outbox_wf(ob),
        retries_bounded(ob, maxr),
        spec_frag_unacked(ob, tid, idx),
    ensures
        ({
            let k = entry_index(ob, tid);
            let e = ob[k];
            let f = e.frags[frag_index(e.frags, idx)];
            let d = DatagramV { dest: e.dest, bytes: spec_encode_packet(f.packet) };
            let fail = DeliveryFailure { transmission_id: tid, fragment_index: idx, dest: e.dest };
            let kept = spec_sweep_frags(e.frags, now, interval, maxr);
            let res = spec_outbox_resends(ob, now, interval, maxr);
            let fls = spec_outbox_failures(ob, now, interval, maxr);
            &&& (!spec_overdue(f, now, interval) ==> occurrences(kept, f) == 1 && occurrences(
                res,
                d,
            ) == 0 && occurrences(fls, fail) == 0)
            &&& (spec_overdue(f, now, interval) && f.retries < maxr ==> occurrences(
                kept,
                spec_resent_frag(f, now),
            ) == 1 && occurrences(res, d) == 1 && occurrences(fls, fail) == 0)
            &&& (spec_overdue(f, now, interval) && f.retries >= maxr ==> frags_with_index(
                kept,
                idx,
            ) == 0 && occurrences(res, d) == 1 && occurrences(fls, fail) == 1)
        }),
    decreases ob.len(),
{
    let epred = |e: EntryV| e.transmission_id == tid;
    lemma_find_first(ob, epred);
    let k = entry_index(ob, tid);
    let e = ob[k];
    assert(entry_wf(e));
    let j = frag_index(e.frags, idx);
    lemma_find_first(e.frags, |f: FragV| f.packet.fragment_index == idx);
    let f = e.frags[j];
    assert(f.packet.fragment_index == idx);
    assert(f.packet.transmission_id == tid);
    let d = DatagramV { dest: e.dest, bytes: spec_encode_packet(f.packet) };
    let fail = DeliveryFailure { transmission_id: tid, fragment_index: idx, dest: e.dest };
    let pre = ob.drop_last();
    assert(forall|i: int| 0 <= i < pre.len() ==> pre[i] == ob[i]);
    assert(forall|i: int| 0 <= i < e.frags.len() ==> #[trigger] e.frags[i].retries <= maxr) by {
        assert(forall|i: int| 0 <= i < e.frags.len() ==> ob[k].frags[i] == e.frags[i]);
    }
    if k == ob.len() - 1 {
        // The tracked entry is the last one; earlier entries carry other
        // transmissions.
        lemma_frags_sweep_once(e.frags, now, interval, maxr, tid, e.dest, j);
        assert(forall|i: int| 0 <= i < pre.len() ==> #[trigger] pre[i].transmission_id != tid);
        assert(outbox_wf(pre));
        lemma_outbox_sweep_zero(pre, now, interval, maxr, f.packet, d, fail);
        lemma_occurrences_concat(
            spec_outbox_resends(pre, now, interval, maxr),
            spec_frag_resends(e.frags, now, interval, maxr, e.dest),
            d,
        );
        lemma_occurrences_concat(
            spec_outbox_failures(pre, now, interval, maxr),
            spec_frag_failures(e.frags, now, interval, maxr, tid, e.dest),
            fail,
        );
    } else {
        // The tracked entry sits in the prefix; the last entry carries
        // another transmission and affects no count.
        assert(entry_index(pre, tid) == k) by {
            lemma_find_first(pre, epred);
            let k2 = entry_index(pre, tid);
            if k2 == -1 {
                assert(!epred(pre[k]));
            } else if k2 < k {
                assert(!epred(ob[k2]));
            } else if k2 > k {
                assert(!epred(pre[k]));
            }
        }
        assert(outbox_wf(pre));
        assert(retries_bounded(pre, maxr));
        assert(spec_frag_unacked(pre, tid, idx));
        lemma_sweep_resend_once(pre, now, interval, maxr, tid, idx);
        let le = ob.last();
        assert(le.transmission_id != tid) by {
            if le.transmission_id == tid {
                assert(ob[k].transmission_id == ob[ob.len() - 1].transmission_id);
            }
        }
        assert(entry_wf(le));
        lemma_frag_sweep_zero_tid(
            le.frags,
            now,
            interval,
            maxr,
            le.transmission_id,
            le.dest,
            f.packet,
            d,
            fail,
        );
        lemma_occurrences_concat(
            spec_outbox_resends(pre, now, interval, maxr),
            spec_frag_resends(le.frags, now, interval, maxr, le.dest),
            d,
        );
        lemma_occurrences_concat(
            spec_outbox_failures(pre, now, interval, maxr),
            spec_frag_failures(le.frags, now, interval, maxr, le.transmission_id, le.dest),
            fail,
        );
    }
}

/// A maintenance sweep resends only what the outbox tracks: no datagram
/// carrying the encoding of a packet whose fragment is unknown to the
/// outbox ever appears among the resends.  With `process_ack`'s contract
/// this shows that an acknowledged fragment is never retransmitted by a
/// later sweep.
pub proof fn lemma_sweep_spares_untracked(
    ob: Seq<EntryV>,
    now: u64,
    interval: u64,
    maxr: u32,
    p: PacketV,
    d: DatagramV,
)
    requires
        outbox_wf(ob),
        !spec_frag_unacked(ob, p.transmission_id, p.fragment_index),
        d.bytes == spec_encode_packet(p),
    ensures
        occurrences(spec_outbox_resends(ob, now, interval, maxr), d) == 0,
    decreases ob.len(),
{
    let epred = |e: EntryV| e.transmission_id == p.transmission_id;
    lemma_find_first(ob, epred);
    let k = entry_index(ob, p.transmission_id);
    let fail = DeliveryFailure {
        transmission_id: p.transmission_id,
        fragment_index: p.fragment_index,
        dest: d.dest,
    };
    if k < 0 {
        lemma_outbox_sweep_zero(ob, now, interval, maxr, p, d, fail);
    } else {
        // The transmission is tracked, but not this fragment.
        let e = ob[k];
        assert(entry_wf(e));
        lemma_find_first(e.frags, |f: FragV| f.packet.fragment_index == p.fragment_index);
        assert(frag_index(e.frags, p.fragment_index) == -1);
        assert(forall|i: int| 0 <= i < e.frags.len() ==> #[trigger] e.frags[i].packet.fragment_index
            != p.fragment_index);
        let pre = ob.drop_last();
        assert(forall|i: int| 0 <= i < pre.len() ==> pre[i] == ob[i]);
        if k == ob.len() - 1 {
            assert(forall|i: int| 0 <= i < pre.len() ==> #[trigger] pre[i].transmission_id
                != p.transmission_id);
            assert(outbox_wf(pre));
            lemma_outbox_sweep_zero(pre, now, interval, maxr, p, d, fail);
            lemma_frag_sweep_zero_idx(
                e.frags,
                now,
                interval,
                maxr,
                e.transmission_id,
                e.dest,
                p,
                d,
                fail,
            );
            lemma_occurrences_concat(
                spec_outbox_resends(pre, now, interval, maxr),
                spec_frag_resends(e.frags, now, interval, maxr, e.dest),
                d,
            );
        } else {
            assert(outbox_wf(pre));
            lemma_find_first_determined(pre, epred, k);
            assert(!spec_frag_unacked(pre, p.transmission_id, p.fragment_index));
            lemma_sweep_spares_untracked(pre, now, interval, maxr, p, d);
            let le = ob.last();
            assert(le.transmission_id != p.transmission_id) by {
                if le.transmission_id == p.transmission_id {
                    assert(ob[k].transmission_id == ob[ob.len() - 1].transmission_id);
                }
            }
            assert(entry_wf(le));
            lemma_frag_sweep_zero_tid(
                le.frags,
                now,
                interval,
                maxr,
                le.transmission_id,
                le.dest,
                p,
                d,
                fail,
            );
            lemma_occurrences_concat(
                spec_outbox_resends(pre, now, interval, maxr),
                spec_frag_resends(le.frags, now, interval, maxr, le.dest),
                d,
            );
        }
    }
}

/// Finds the outbox entry of transmission `tid`, if any.
fn find_entry(outbox: &Vec<OutboxEntry>, tid: u64) -> (r: Option<usize>)
    ensures
        match r {
            Some(k) => entry_index(views_of_entries(outbox@), tid) == k as int && (k as int)
                < outbox@.len() && views_of_entries(outbox@)[k as int].transmission_id == tid,
            None => entry_index(views_of_entries(outbox@), tid) == -1,
        },
{
    let ghost ob = views_of_entries(outbox@);
    let ghost pred = |e: EntryV| e.transmission_id == tid;
    proof {
        lemma_find_first(ob, pred);
    }
    let n = outbox.len();
    let mut i: usize = 0;
    while i < n
        invariant
            n == outbox@.len(),
            i <= n,
            ob == views_of_entries(outbox@),
            pred == (|e: EntryV| e.transmission_id == tid),
            forall|j: int| 0 <= j < i ==> !pred(ob[j]),
            find_first(ob, pred) == -1 ==> forall|j: int| 0 <= j < ob.len() ==> !pred(ob[j]),
            find_first(ob, pred) != -1 ==> 0 <= find_first(ob, pred) < ob.len() && pred(
                ob[find_first(ob, pred)],
            ) && (forall|j: int| 0 <= j < find_first(ob, pred) ==> !pred(ob[j])),
        decreases n - i,
    {
        if outbox[i].transmission_id == tid {
            proof {
                assert(pred(ob[i as int]));
                assert(find_first(ob, pred) == i as int) by {
                    if find_first(ob, pred) == -1 {
                    } else if find_first(ob, pred) < i as int {
                        assert(!pred(ob[find_first(ob, pred)]));
                    } else if find_first(ob, pred) > i as int {
                        assert(!pred(ob[i as int]));
                    }
                }
            }
            return Some(i);
        }
        proof {
            assert(!pred(ob[i as int]));
        }
        i = i + 1;
    }
    proof {
        assert(find_first(ob, pred) == -1) by {
            if find_first(ob, pred) != -1 {
                assert(!pred(ob[find_first(ob, pred)]));
            }
        }
    }
    None
}

/// Finds the record of fragment `idx` among `frags`, if any.
fn find_frag(frags: &Vec<FragmentRecord>, idx: u32) -> (r: Option<usize>)
    ensures
        match r {
            Some(j) => frag_index(views_of_frags(frags@), idx) == j as int && (j as int)
                < frags@.len() && views_of_frags(frags@)[j as int].packet.fragment_index == idx,
            None => frag_index(views_of_frags(frags@), idx) == -1,
        },
{
    let ghost fs = views_of_frags(frags@);
    let ghost pred = |f: FragV| f.packet.fragment_index == idx;
    proof {
        lemma_find_first(fs, pred);
    }
    let n = frags.len();
    let mut i: usize = 0;
    while i < n
        invariant
            n == frags@.len(),
            i <= n,
            fs == views_of_frags(frags@),
            pred == (|f: FragV| f.packet.fragment_index == idx),
            forall|j: int| 0 <= j < i ==> !pred(fs[j]),
            find_first(fs, pred) == -1 ==> forall|j: int| 0 <= j < fs.len() ==> !pred(fs[j]),
            find_first(fs, pred) != -1 ==> 0 <= find_first(fs, pred) < fs.len() && pred(
                fs[find_first(fs, pred)],
            ) && (forall|j: int| 0 <= j < find_first(fs, pred) ==> !pred(fs[j])),
        decreases n - i,
    {
        if frags[i].packet.fragment_index == idx {
            proof {
                assert(pred(fs[i as int]));
                assert(frag_index(fs, idx) == i as int) by {
                    if find_first(fs, pred) == -1 {
                    } else if find_first(fs, pred) < i as int {
                        assert(!pred(fs[find_first(fs, pred)]));
                    } else if find_first(fs, pred) > i as int {
                        assert(!pred(fs[i as int]));
                    }
                }
            }
            return Some(i);
        }
        proof {
            assert(!pred(fs[i as int]));
        }
        i = i + 1;
    }
    proof {
        assert(frag_index(fs, idx) == -1) by {
            if find_first(fs, pred) != -1 {
                assert(!pred(fs[find_first(fs, pred)]));
            }
        }
    }
    None
}

/// The views of a run of outbox entries.
pub open spec fn views_of_entries(s: Seq<OutboxEntry>) -> Seq<EntryV> {
    Seq::new(s.len(), |i: int| s[i]@)
}

impl GdUdp {
    /// The mathematical image of the outbox.
    pub open spec fn outbox_view(&self) -> Seq<EntryV> {
        views_of_entries(self.outbox@)
    }

    /// The engine's invariant: a well-formed outbox whose retry counters
    /// all stay within the configured budget.
    pub open spec fn wf(&self) -> bool {
        &&& outbox_wf(self.outbox_view())
        &&& retries_bounded(self.outbox_view(), self.max_retries)
    }

    /// A fresh engine bound to `addr`, with an empty outbox and the given
    /// retry configuration.
    pub fn new(addr: Addr, retry_interval: u64, max_retries: u32) -> (r: GdUdp)
        ensures
            r.wf(),
            r.addr == addr,
            r.retry_interval == retry_interval,
            r.max_retries == max_retries,
            r.outbox_view() == Seq::<EntryV>::empty(),
    {
        let r = GdUdp { addr, outbox: Vec::new(), retry_interval, max_retries };
        proof {
            assert(r.outbox_view() =~= Seq::<EntryV>::empty());
        }
        r
    }

    /// Whether the outbox currently tracks transmission `tid`.
    pub fn outbox_contains(&self, tid: u64) -> (r: bool)
        ensures
            r == spec_has_tid(self.outbox_view(), tid),
    {
        match find_entry(&self.outbox, tid) {
            Some(_) => true,
            None => false,
        }
    }

    /// How many transmissions are currently in flight.
    pub fn outbox_len(&self) -> (r: usize)
        ensures
            r == self.outbox_view().len(),
    {
        self.outbox.len()
    }

    /// Whether fragment `idx` of transmission `tid` is still
    /// unacknowledged.
    pub fn unacked_contains(&self, tid: u64, idx: u32) -> (r: bool)
        ensures
            r == spec_frag_unacked(self.outbox_view(), tid, idx),
    {
        match find_entry(&self.outbox, tid) {
            None => false,
            Some(k) => {
                let e = &self.outbox[k];
                proof {
                    assert(views_of_frags(e.frags@) == self.outbox_view()[k as int].frags);
                }
                match find_frag(&e.frags, idx) {
                    None => false,
                    Some(_) => true,
                }
            },
        }
    }

    /// The retry count of a tracked fragment, if it is tracked.
    pub fn frag_retries(&self, tid: u64, idx: u32) -> (r: Option<u32>)
        ensures
            match spec_frag_lookup(self.outbox_view(), tid, idx) {
                Some(f) => r == Some(f.retries),
                None => r is None,
            },
    {
        match find_entry(&self.outbox, tid) {
            None => None,
            Some(k) => {
                let e = &self.outbox[k];
                proof {
                    assert(views_of_frags(e.frags@) == self.outbox_view()[k as int].frags);
                }
                match find_frag(&e.frags, idx) {
                    None => None,
                    Some(j) => Some(e.frags[j].retries),
                }
            },
        }
    }

    /// The last-send time of a tracked fragment, if it is tracked.
    pub fn frag_last_send(&self, tid: u64, idx: u32) -> (r: Option<u64>)
        ensures
            match spec_frag_lookup(self.outbox_view(), tid, idx) {
                Some(f) => r == Some(f.last_send),
                None => r is None,
            },
    {
        match find_entry(&self.outbox, tid) {
            None => None,
            Some(k) => {
                let e = &self.outbox[k];
                proof {
                    assert(views_of_frags(e.frags@) == self.outbox_view()[k as int].frags);
                }
                match find_frag(&e.frags, idx) {
                    None => None,
                    Some(j) => Some(e.frags[j].last_send),
                }
            },
        }
    }

    /// The destination a tracked transmission is bound for, if tracked.
    pub fn entry_dest(&self, tid: u64) -> (r: Option<Addr>)
        ensures
            entry_index(self.outbox_view(), tid) >= 0 ==> r == Some(
                self.outbox_view()[entry_index(self.outbox_view(), tid)].dest,
            ),
            entry_index(self.outbox_view(), tid) < 0 ==> r is None,
    {
        match find_entry(&self.outbox, tid) {
            None => None,
            Some(k) => Some(self.outbox[k].dest),
        }
    }

    /// Serializes `packet` into a datagram bound for `dst` and, when the
    /// packet is reliable, registers the fragment in the outbox with the
    /// current time and no retries (an already-present fragment is left
    /// as it is).  The datagram is returned for the caller to transmit;
    /// registration does not depend on the transmission succeeding, so a
    /// failed send is retried by a later maintenance sweep.
    pub fn send_reliable(&mut self, dst: Addr, packet: &Packet, now: u64) -> (d: Datagram)
        requires
            old(self).wf(),
        ensures
            final(self).wf(),
            final(self).addr == old(self).addr,
            final(self).retry_interval == old(self).retry_interval,
            final(self).max_retries == old(self).max_retries,
            d.dest == dst,
            d.bytes@ == spec_encode_packet(packet@),
            packet.reliability_flag != 1 ==> final(self).outbox_view() == old(self).outbox_view(),
            packet.reliability_flag == 1 ==> final(self).outbox_view() == spec_register(
                old(self).outbox_view(),
                dst,
                packet@,
                now,
            ),
            packet.reliability_flag == 1 ==> spec_frag_unacked(
                final(self).outbox_view(),
                packet.transmission_id,
                packet.fragment_index,
            ),
    {
        let bytes = packet.as_bytes();
        if packet.reliability_flag == 1 {
            let ghost ob = old(self).outbox_view();
            let ghost pv = packet@;
            match find_entry(&self.outbox, packet.transmission_id) {
                None => {
                    let frag = FragmentRecord {
                        packet: packet.duplicate(),
                        last_send: now,
                        retries: 0,
                    };
                    let mut frags: Vec<FragmentRecord> = Vec::new();
                    frags.push(frag);
                    let entry = OutboxEntry {
                        transmission_id: packet.transmission_id,
                        dest: dst,
                        frags,
                    };
                    self.outbox.push(entry);
                    proof {
                        let ev = EntryV {
                            transmission_id: pv.transmission_id,
                            dest: dst,
                            frags: seq![new_frag(pv, now)],
                        };
                        assert(entry@ =~= ev);
                        assert(self.outbox_view() =~= ob.push(ev));
                        assert(self.outbox_view() == spec_register(ob, dst, pv, now));
                        lemma_find_first(ob, |e: EntryV| e.transmission_id == pv.transmission_id);
                        self.lemma_registered_new(ob, ev, pv);
                    }
                },
                Some(k) => {
                    let mut e = self.outbox.remove(k);
                    let ghost ev_old = e@;
                    proof {
                        lemma_find_first(ob, |e: EntryV| e.transmission_id == pv.transmission_id);
                        assert(ev_old == ob[k as int]);
                    }
                    match find_frag(&e.frags, packet.fragment_index) {
                        None => {
                            let frag = FragmentRecord {
                                packet: packet.duplicate(),
                                last_send: now,
                                retries: 0,
                            };
                            e.frags.push(frag);
                            proof {
                                assert(e@.frags =~= ev_old.frags.push(new_frag(pv, now)));
                                assert(e@ =~= EntryV {
                                    frags: ev_old.frags.push(new_frag(pv, now)),
                                    ..ev_old
                                });
                            }
                        },
                        Some(_) => {
                            proof {
                                assert(e@ == ev_old);
                            }
                        },
                    }
                    self.outbox.insert(k, e);
                    proof {
                        assert(self.outbox_view() =~= ob.update(k as int, e@));
                        if frag_index(ev_old.frags, pv.fragment_index) >= 0 {
                            assert(ob.update(k as int, e@) =~= ob);
                        }
                        assert(self.outbox_view() == spec_register(ob, dst, pv, now));
                        self.lemma_registered_existing(ob, k as int, e@, pv);
                    }
                },
            }
        }
        Datagram { dest: dst, bytes }
    }

    /// After a new entry is pushed for an untracked transmission, the
    /// outbox is well-formed and tracks the registered fragment.
    proof fn lemma_registered_new(&self, ob: Seq<EntryV>, ev: EntryV, pv: PacketV)
        requires
            outbox_wf(ob),
            retries_bounded(ob, self.max_retries),
            entry_index(ob, pv.transmission_id) == -1,
            ev == (EntryV {
                transmission_id: pv.transmission_id,
                dest: ev.dest,
                frags: seq![new_frag(pv, ev.frags[0].last_send)],
            }),
            pv.reliability_flag == 1,
            self.outbox_view() == ob.push(ev),
        ensures
            self.wf(),
            spec_frag_unacked(self.outbox_view(), pv.transmission_id, pv.fragment_index),
    {
        let tid = pv.transmission_id;
        let nb = self.outbox_view();
        lemma_find_first(ob, |e: EntryV| e.transmission_id == tid);
        assert(entry_wf(ev));
        assert forall|i: int| 0 <= i < nb.len() implies entry_wf(#[trigger] nb[i]) by {
            if i < ob.len() {
                assert(nb[i] == ob[i]);
            }
        }
        assert forall|i: int, j: int| 0 <= i < j < nb.len() implies #[trigger] nb[i].transmission_id
            != #[trigger] nb[j].transmission_id by {
            if j < ob.len() {
                assert(nb[i] == ob[i] && nb[j] == ob[j]);
            } else {
                assert(nb[i] == ob[i] && nb[j] == ev);
            }
        }
        assert forall|i: int, j: int|
            0 <= i < nb.len() && 0 <= j < nb[i].frags.len() implies #[trigger] nb[i].frags[j].retries
            <= self.max_retries by {
            if i < ob.len() {
                assert(nb[i] == ob[i]);
            } else {
                assert(nb[i] == ev);
                assert(nb[i].frags[j] == new_frag(pv, ev.frags[0].last_send));
            }
        }
        lemma_find_first(nb, |e: EntryV| e.transmission_id == tid);
        let k = entry_index(nb, tid);
        assert(k != -1) by {
            if k == -1 {
                assert(!((|e: EntryV| e.transmission_id == tid)(nb[ob.len() as int])));
            }
        }
        assert(nb[k].transmission_id == tid);
        assert(k == ob.len()) by {
            if k < ob.len() {
                assert(nb[k] == ob[k]);
                assert(!((|e: EntryV| e.transmission_id == tid)(ob[k])));
            }
        }
        lemma_find_first(nb[k].frags, |f: FragV| f.packet.fragment_index == pv.fragment_index);
        assert(frag_index(nb[k].frags, pv.fragment_index) != -1) by {
            if frag_index(nb[k].frags, pv.fragment_index) == -1 {
                assert(!((|f: FragV| f.packet.fragment_index == pv.fragment_index)(nb[k].frags[0])));
            }
        }
    }

    /// After the entry of a tracked transmission gains (at most) one new
    /// fragment, the outbox is well-formed and tracks that fragment.
    proof fn lemma_registered_existing(&self, ob: Seq<EntryV>, k: int, ev: EntryV, pv: PacketV)
        requires
            outbox_wf(ob),
            retries_bounded(ob, self.max_retries),
            entry_index(ob, pv.transmission_id) == k,
            0 <= k < ob.len(),
            frag_index(ob[k].frags, pv.fragment_index) >= 0 ==> ev == ob[k],
            frag_index(ob[k].frags, pv.fragment_index) < 0 ==> ev == (EntryV {
                frags: ob[k].frags.push(new_frag(pv, ev.frags.last().last_send)),
                ..ob[k]
            }),
            pv.reliability_flag == 1,
            self.outbox_view() == ob.update(k, ev),
        ensures
            self.wf(),
            spec_frag_unacked(self.outbox_view(), pv.transmission_id, pv.fragment_index),
    {
        let tid = pv.transmission_id;
        let nb = self.outbox_view();
        let fpred = |f: FragV| f.packet.fragment_index == pv.fragment_index;
        lemma_find_first(ob, |e: EntryV| e.transmission_id == tid);
        lemma_find_first(ob[k].frags, fpred);
        assert(ob[k].transmission_id == tid);
        assert(entry_wf(ob[k]));
        assert(entry_wf(ev)) by {
            if frag_index(ob[k].frags, pv.fragment_index) < 0 {
                let fs = ev.frags;
                let ofs = ob[k].frags;
                assert forall|i: int| 0 <= i < fs.len() implies frag_wf(
                    ev.transmission_id,
                    #[trigger] fs[i],
                ) by {
                    if i < ofs.len() {
                        assert(fs[i] == ofs[i]);
                    }
                }
                assert forall|i: int, j: int| 0 <= i < j < fs.len() implies #[trigger] fs[i].packet.fragment_index
                    != #[trigger] fs[j].packet.fragment_index by {
                    if j < ofs.len() {
                        assert(fs[i] == ofs[i] && fs[j] == ofs[j]);
                    } else {
                        assert(fs[i] == ofs[i]);
                        assert(!fpred(ofs[i]));
                    }
                }
            }
        }
        assert forall|i: int| 0 <= i < nb.len() implies entry_wf(#[trigger] nb[i]) by {
            if i != k {
                assert(nb[i] == ob[i]);
            }
        }
        assert forall|i: int, j: int| 0 <= i < j < nb.len() implies #[trigger] nb[i].transmission_id
            != #[trigger] nb[j].transmission_id by {
            assert(nb[i].transmission_id == ob[i].transmission_id);
            assert(nb[j].transmission_id == ob[j].transmission_id);
        }
        assert forall|i: int, j: int|
            0 <= i < nb.len() && 0 <= j < nb[i].frags.len() implies #[trigger] nb[i].frags[j].retries
            <= self.max_retries by {
            if i != k {
                assert(nb[i] == ob[i]);
            } else {
                assert(nb[i] == ev);
                if j < ob[k].frags.len() {
                    assert(ev.frags[j] == ob[k].frags[j]);
                } else {
                    assert(ev.frags[j] == new_frag(pv, ev.frags.last().last_send));
                }
            }
        }
        lemma_find_first(nb, |e: EntryV| e.transmission_id == tid);
        let k2 = entry_index(nb, tid);
        assert(k2 != -1) by {
            if k2 == -1 {
                assert(!((|e: EntryV| e.transmission_id == tid)(nb[k])));
            }
        }
        assert(k2 == k) by {
            if k2 < k {
                assert(nb[k2] == ob[k2]);
                assert(!((|e: EntryV| e.transmission_id == tid)(ob[k2])));
            } else if k2 > k {
                assert(!((|e: EntryV| e.transmission_id == tid)(nb[k])));
            }
        }
        lemma_find_first(ev.frags, fpred);
        assert(frag_index(ev.frags, pv.fragment_index) != -1) by {
            if frag_index(ev.frags, pv.fragment_index) == -1 {
                if frag_index(ob[k].frags, pv.fragment_index) >= 0 {
                    assert(!fpred(ev.frags[frag_index(ob[k].frags, pv.fragment_index)]));
                } else {
                    assert(!fpred(ev.frags.last()));
                }
            }
        }
    }

    /// Acknowledges fragment `packet_number` of transmission `packet_id`:
    /// the fragment stops being tracked, the whole entry is dropped once
    /// its last fragment is acknowledged, and an acknowledgment for an
    /// untracked transmission or fragment changes nothing.
    pub fn process_ack(&mut self, packet_id: u64, packet_number: u32, src: Addr)
        requires
            old(self).wf(),
        ensures
            final(self).wf(),
            final(self).addr == old(self).addr,
            final(self).retry_interval == old(self).retry_interval,
            final(self).max_retries == old(self).max_retries,
            final(self).outbox_view() == spec_ack(old(self).outbox_view(), packet_id, packet_number),
            !spec_frag_unacked(final(self).outbox_view(), packet_id, packet_number),
            !spec_has_tid(old(self).outbox_view(), packet_id) ==> final(self).outbox_view() == old(
                self,
            ).outbox_view(),
            ({
                let ob = old(self).outbox_view();
                let k = entry_index(ob, packet_id);
                k >= 0 && frag_index(ob[k].frags, packet_number) >= 0 && ob[k].frags.len() == 1
                    ==> !spec_has_tid(final(self).outbox_view(), packet_id)
            }),
    {
        // The acknowledger's address is informational: any source may
        // retire a fragment, since identifiers are private to a peer pair.
        let _ = src;
        let ghost ob = old(self).outbox_view();
        let ghost epred = |e: EntryV| e.transmission_id == packet_id;
        let ghost fpred = |f: FragV| f.packet.fragment_index == packet_number;
        proof {
            lemma_find_first(ob, epred);
        }
        match find_entry(&self.outbox, packet_id) {
            None => {
                proof {
                    assert(spec_ack(ob, packet_id, packet_number) == ob);
                }
            },
            Some(k) => {
                let mut e = self.outbox.remove(k);
                let ghost ev_old = e@;
                proof {
                    assert(ev_old == ob[k as int]);
                    lemma_find_first(ev_old.frags, fpred);
                }
                match find_frag(&e.frags, packet_number) {
                    None => {
                        self.outbox.insert(k, e);
                        proof {
                            assert(self.outbox_view() =~= ob);
                            self.lemma_acked(ob, k as int, packet_id, packet_number);
                        }
                    },
                    Some(j) => {
                        if e.frags.len() > 1 {
                            e.frags.remove(j);
                            self.outbox.insert(k, e);
                            proof {
                                assert(e@.frags =~= ev_old.frags.remove(j as int));
                                assert(e@ =~= EntryV {
                                    frags: ev_old.frags.remove(j as int),
                                    ..ev_old
                                });
                                assert(self.outbox_view() =~= ob.update(k as int, e@));
                                self.lemma_acked(ob, k as int, packet_id, packet_number);
                            }
                        } else {
                            proof {
                                assert(self.outbox_view() =~= ob.remove(k as int));
                                self.lemma_acked(ob, k as int, packet_id, packet_number);
                            }
                        }
                    },
                }
            },
        }
    }

    /// After an acknowledgment is applied, the outbox is well-formed, the
    /// acknowledged fragment is no longer tracked, and a fully
    /// acknowledged transmission is absent.
    proof fn lemma_acked(&self, ob: Seq<EntryV>, k: int, tid: u64, idx: u32)
        requires
            outbox_wf(ob),
            retries_bounded(ob, self.max_retries),
            entry_index(ob, tid) == k,
            0 <= k < ob.len(),
            self.outbox_view() == spec_ack(ob, tid, idx),
        ensures
            self.wf(),
            !spec_frag_unacked(self.outbox_view(), tid, idx),
            frag_index(ob[k].frags, idx) >= 0 && ob[k].frags.len() == 1 ==> !spec_has_tid(
                self.outbox_view(),
                tid,
            ),
    {
        let epred = |e: EntryV| e.transmission_id == tid;
        let fpred = |f: FragV| f.packet.fragment_index == idx;
        let nb = self.outbox_view();
        lemma_find_first(ob, epred);
        assert(ob[k].transmission_id == tid);
        let e = ob[k];
        lemma_find_first(e.frags, fpred);
        let j = frag_index(e.frags, idx);
        if j < 0 {
            // Nothing changed; the fragment was never tracked.
            assert(nb == ob);
            lemma_find_first(nb[k].frags, fpred);
        } else if e.frags.len() == 1 {
            // The whole entry left with its last fragment.
            assert(nb == ob.remove(k));
            assert forall|i: int| 0 <= i < nb.len() implies entry_wf(#[trigger] nb[i]) by {
                if i < k {
                    assert(nb[i] == ob[i]);
                } else {
                    assert(nb[i] == ob[i + 1]);
                }
            }
            assert forall|i: int, i2: int| 0 <= i < i2 < nb.len() implies #[trigger] nb[i].transmission_id
                != #[trigger] nb[i2].transmission_id by {
                let s1: int = if i < k { i } else { i + 1 };
                let s2: int = if i2 < k { i2 } else { i2 + 1 };
                assert(nb[i] == ob[s1] && nb[i2] == ob[s2]);
            }
            assert forall|i: int, i2: int|
                0 <= i < nb.len() && 0 <= i2 < nb[i].frags.len() implies #[trigger] nb[i].frags[i2].retries
                <= self.max_retries by {
                let s: int = if i < k { i } else { i + 1 };
                assert(nb[i] == ob[s]);
            }
            lemma_find_first(nb, epred);
            let k2 = entry_index(nb, tid);
            if k2 >= 0 {
                let s: int = if k2 < k { k2 } else { k2 + 1 };
                assert(nb[k2] == ob[s]);
                assert(ob[s].transmission_id == tid);
                if s < k {
                    assert(!epred(ob[s]));
                } else {
                    assert(ob[k].transmission_id != ob[s].transmission_id);
                }
            }
        } else {
            // One fragment left its entry.
            let ev = EntryV { frags: e.frags.remove(j), ..e };
            assert(nb == ob.update(k, ev));
            assert(entry_wf(ev)) by {
                let fs = ev.frags;
                let ofs = e.frags;
                assert forall|i: int| 0 <= i < fs.len() implies frag_wf(
                    ev.transmission_id,
                    #[trigger] fs[i],
                ) by {
                    let s: int = if i < j { i } else { i + 1 };
                    assert(fs[i] == ofs[s]);
                }
                assert forall|i: int, i2: int| 0 <= i < i2 < fs.len() implies #[trigger] fs[i].packet.fragment_index
                    != #[trigger] fs[i2].packet.fragment_index by {
                    let s1: int = if i < j { i } else { i + 1 };
                    let s2: int = if i2 < j { i2 } else { i2 + 1 };
                    assert(fs[i] == ofs[s1] && fs[i2] == ofs[s2]);
                }
            }
            assert forall|i: int| 0 <= i < nb.len() implies entry_wf(#[trigger] nb[i]) by {
                if i != k {
                    assert(nb[i] == ob[i]);
                }
            }
            assert forall|i: int, i2: int| 0 <= i < i2 < nb.len() implies #[trigger] nb[i].transmission_id
                != #[trigger] nb[i2].transmission_id by {
                assert(nb[i].transmission_id == ob[i].transmission_id);
                assert(nb[i2].transmission_id == ob[i2].transmission_id);
            }
            assert forall|i: int, i2: int|
                0 <= i < nb.len() && 0 <= i2 < nb[i].frags.len() implies #[trigger] nb[i].frags[i2].retries
                <= self.max_retries by {
                if i != k {
                    assert(nb[i] == ob[i]);
                } else {
                    assert(nb[i] == ev);
                    let s: int = if i2 < j { i2 } else { i2 + 1 };
                    assert(ev.frags[i2] == e.frags[s]);
                }
            }
            lemma_find_first(nb, epred);
            let k2 = entry_index(nb, tid);
            assert(k2 == k) by {
                if k2 == -1 {
                    assert(!epred(nb[k]));
                } else if k2 < k {
                    assert(nb[k2] == ob[k2]);
                    assert(!epred(ob[k2]));
                } else if k2 > k {
                    assert(!epred(nb[k]));
                }
            }
            lemma_find_first(ev.frags, fpred);
            let j2 = frag_index(ev.frags, idx);
            if j2 >= 0 {
                let s: int = if j2 < j { j2 } else { j2 + 1 };
                assert(ev.frags[j2] == e.frags[s]);
                assert(e.frags[s].packet.fragment_index == idx);
                assert(e.frags[j].packet.fragment_index == idx);
                if s < j {
                    assert(!fpred(e.frags[s]));
                }
            }
        }
    }

    /// The maintenance sweep: every unacknowledged fragment whose last
    /// send lies a retry interval or more in the past is resent once; as
    /// long as its counter stays below `max_retries` it is kept with the
    /// counter stepped and its last-send time set to `now`, and once the
    /// counter stands at `max_retries`, so that the step would exceed the
    /// budget, the fragment takes that final resend, leaves its entry,
    /// and is reported as a delivery failure.  Entries left without
    /// fragments leave the outbox.  The datagrams to retransmit are
    /// returned for the caller to put on the wire.
    pub fn check_time_elapsed(&mut self, now: u64) -> (r: SweepOutcome)
        requires
            old(self).wf(),
        ensures
            final(self).wf(),
            final(self).addr == old(self).addr,
            final(self).retry_interval == old(self).retry_interval,
            final(self).max_retries == old(self).max_retries,
            final(self).outbox_view() == spec_sweep_outbox(
                old(self).outbox_view(),
                now,
                old(self).retry_interval,
                old(self).max_retries,
            ),
            views_of_datagrams(r.resends@) == spec_outbox_resends(
                old(self).outbox_view(),
                now,
                old(self).retry_interval,
                old(self).max_retries,
            ),
            r.failures@ == spec_outbox_failures(
                old(self).outbox_view(),
                now,
                old(self).retry_interval,
                old(self).max_retries,
            ),
    {
        let ghost ob = old(self).outbox_view();
        let ghost n = ob.len() as int;
        let ghost interval = self.retry_interval;
        let ghost maxr = self.max_retries;
        let ghost addr0 = self.addr;
        let mut new_outbox: Vec<OutboxEntry> = Vec::new();
        let mut resends: Vec<Datagram> = Vec::new();
        let mut failures: Vec<DeliveryFailure> = Vec::new();
        proof {
            assert(ob.subrange(0, 0) =~= Seq::<EntryV>::empty());
            assert(views_of_entries(self.outbox@) =~= ob.subrange(0, n));
        }
        while self.outbox.len() > 0
            invariant
                self.retry_interval == interval,
                self.max_retries == maxr,
                self.addr == addr0,
                n == ob.len() as int,
                self.outbox@.len() <= n,
                views_of_entries(self.outbox@) == ob.subrange(n - self.outbox@.len(), n),
                views_of_entries(new_outbox@) == spec_sweep_outbox(
                    ob.subrange(0, n - self.outbox@.len()),
                    now,
                    interval,
                    maxr,
                ),
                views_of_datagrams(resends@) == spec_outbox_resends(
                    ob.subrange(0, n - self.outbox@.len()),
                    now,
                    interval,
                    maxr,
                ),
                failures@ == spec_outbox_failures(
                    ob.subrange(0, n - self.outbox@.len()),
                    now,
                    interval,
                    maxr,
                ),
            decreases self.outbox@.len(),
        {
            let ghost i = n - self.outbox@.len();
            let ghost obox_pre = self.outbox@;
            let mut e = self.outbox.remove(0);
            proof {
                assert(e@ == views_of_entries(obox_pre)[0]);
                assert(e@ == ob.subrange(i, n)[0]);
                assert(e@ == ob[i]);
                assert forall|t: int| 0 <= t < self.outbox@.len() implies views_of_entries(
                    self.outbox@,
                )[t] == ob.subrange(i + 1, n)[t] by {
                    assert(self.outbox@[t] == obox_pre[t + 1]);
                    assert(views_of_entries(obox_pre)[t + 1] == ob.subrange(i, n)[t + 1]);
                }
                assert(views_of_entries(self.outbox@) =~= ob.subrange(i + 1, n));
            }
            let ghost fs = ob[i].frags;
            let ghost m0 = fs.len() as int;
            let ghost tid = e.transmission_id;
            let ghost dest = e.dest;
            let mut kept: Vec<FragmentRecord> = Vec::new();
            proof {
                assert(views_of_frags(e.frags@) =~= fs.subrange(0, m0));
                assert(fs.subrange(0, 0) =~= Seq::<FragV>::empty());
                assert(views_of_frags(kept@) =~= spec_sweep_frags(
                    fs.subrange(0, 0),
                    now,
                    interval,
                    maxr,
                ));
                assert(views_of_datagrams(resends@) =~= spec_outbox_resends(
                    ob.subrange(0, i),
                    now,
                    interval,
                    maxr,
                ) + spec_frag_resends(fs.subrange(0, 0), now, interval, maxr, dest));
                assert(failures@ =~= spec_outbox_failures(ob.subrange(0, i), now, interval, maxr)
                    + spec_frag_failures(fs.subrange(0, 0), now, interval, maxr, tid, dest));
            }
            while e.frags.len() > 0
                invariant
                    self.retry_interval == interval,
                    self.max_retries == maxr,
                    self.addr == addr0,
                    n == ob.len() as int,
                    0 <= i < n,
                    views_of_entries(self.outbox@) == ob.subrange(i + 1, n),
                    views_of_entries(new_outbox@) == spec_sweep_outbox(
                        ob.subrange(0, i),
                        now,
                        interval,
                        maxr,
                    ),
                    m0 == fs.len() as int,
                    e.frags@.len() <= m0,
                    e.transmission_id == tid,
                    e.dest == dest,
                    views_of_frags(e.frags@) == fs.subrange(m0 - e.frags@.len(), m0),
                    views_of_frags(kept@) == spec_sweep_frags(
                        fs.subrange(0, m0 - e.frags@.len()),
                        now,
                        interval,
                        maxr,
                    ),
                    views_of_datagrams(resends@) == spec_outbox_resends(
                        ob.subrange(0, i),
                        now,
                        interval,
                        maxr,
                    ) + spec_frag_resends(
                        fs.subrange(0, m0 - e.frags@.len()),
                        now,
                        interval,
                        maxr,
                        dest,
                    ),
                    failures@ == spec_outbox_failures(ob.subrange(0, i), now, interval, maxr)
                        + spec_frag_failures(
                        fs.subrange(0, m0 - e.frags@.len()),
                        now,
                        interval,
                        maxr,
                        tid,
                        dest,
                    ),
                decreases e.frags@.len(),
            {
                let ghost j = m0 - e.frags@.len();
                let ghost frags_pre = e.frags@;
                let f = e.frags.remove(0);
                proof {
                    assert(f@ == views_of_frags(frags_pre)[0]);
                    assert(f@ == fs.subrange(j, m0)[0]);
                    assert(f@ == fs[j]);
                    assert forall|t: int| 0 <= t < e.frags@.len() implies views_of_frags(
                        e.frags@,
                    )[t] == fs.subrange(j + 1, m0)[t] by {
                        assert(e.frags@[t] == frags_pre[t + 1]);
                        assert(views_of_frags(frags_pre)[t + 1] == fs.subrange(j, m0)[t + 1]);
                    }
                    assert(views_of_frags(e.frags@) =~= fs.subrange(j + 1, m0));
                    assert(fs.subrange(0, j + 1).drop_last() =~= fs.subrange(0, j));
                    assert(fs.subrange(0, j + 1).last() == fs[j]);
                }
                let overdue = now >= f.last_send && now - f.last_send >= self.retry_interval;
                proof {
                    assert(overdue == spec_overdue(fs[j], now, interval));
                }
                let ghost kept_pre = kept@;
                let ghost res_pre = resends@;
                if !overdue {
                    kept.push(f);
                    proof {
                        let goal = spec_sweep_frags(fs.subrange(0, j + 1), now, interval, maxr);
                        assert forall|t: int| 0 <= t < kept@.len() implies views_of_frags(
                            kept@,
                        )[t] == goal[t] by {
                            if t < kept_pre.len() {
                                assert(kept@[t] == kept_pre[t]);
                                assert(views_of_frags(kept_pre)[t] == spec_sweep_frags(
                                    fs.subrange(0, j),
                                    now,
                                    interval,
                                    maxr,
                                )[t]);
                            } else {
                                assert(kept@[t] == f);
                            }
                        }
                        assert(views_of_frags(kept@) =~= goal);
                    }
                } else if f.retries < self.max_retries {
                    let bytes = f.packet.as_bytes();
                    resends.push(Datagram { dest: e.dest, bytes });
                    kept.push(
                        FragmentRecord { packet: f.packet, last_send: now, retries: f.retries + 1 },
                    );
                    proof {
                        assert(spec_overdue(fs[j], now, interval));
                        assert(fs[j].retries < maxr);
                        assert(spec_sweep_frags(fs.subrange(0, j + 1), now, interval, maxr)
                            == spec_sweep_frags(fs.subrange(0, j), now, interval, maxr).push(
                            spec_resent_frag(fs[j], now),
                        ));
                        assert(spec_frag_resends(fs.subrange(0, j + 1), now, interval, maxr, dest)
                            == spec_frag_resends(fs.subrange(0, j), now, interval, maxr, dest).push(
                            DatagramV { dest, bytes: spec_encode_packet(fs[j].packet) },
                        ));
                        let goal = spec_sweep_frags(fs.subrange(0, j + 1), now, interval, maxr);
                        assert forall|t: int| 0 <= t < kept@.len() implies views_of_frags(
                            kept@,
                        )[t] == goal[t] by {
                            if t < kept_pre.len() {
                                assert(kept@[t] == kept_pre[t]);
                                assert(views_of_frags(kept_pre)[t] == spec_sweep_frags(
                                    fs.subrange(0, j),
                                    now,
                                    interval,
                                    maxr,
                                )[t]);
                            } else {
                                assert(kept@[t]@ =~= spec_resent_frag(fs[j], now));
                            }
                        }
                        assert(views_of_frags(kept@) =~= goal);
                        let dv = DatagramV { dest, bytes: spec_encode_packet(fs[j].packet) };
                        let pre_goal = spec_outbox_resends(ob.subrange(0, i), now, interval, maxr)
                            + spec_frag_resends(fs.subrange(0, j), now, interval, maxr, dest);
                        let rgoal = spec_outbox_resends(ob.subrange(0, i), now, interval, maxr)
                            + spec_frag_resends(fs.subrange(0, j + 1), now, interval, maxr, dest);
                        assert(views_of_datagrams(res_pre) == pre_goal);
                        assert(views_of_datagrams(resends@) =~= views_of_datagrams(res_pre).push(
                            dv,
                        ));
                        assert(rgoal =~= pre_goal.push(dv));
                        assert(views_of_datagrams(resends@) == rgoal);
                    }
                } else {
                    // The counter stands at the budget: the step would
                    // exceed it, so the fragment takes its final resend
                    // and is then dropped and reported failed.
                    if f.retries == self.max_retries {
                        let bytes = f.packet.as_bytes();
                        resends.push(Datagram { dest: e.dest, bytes });
                        proof {
                            assert(spec_overdue(fs[j], now, interval));
                            assert(fs[j].retries <= maxr);
                            assert(spec_frag_resends(
                                fs.subrange(0, j + 1),
                                now,
                                interval,
                                maxr,
                                dest,
                            ) == spec_frag_resends(
                                fs.subrange(0, j),
                                now,
                                interval,
                                maxr,
                                dest,
                            ).push(DatagramV { dest, bytes: spec_encode_packet(fs[j].packet) }));
                            let dv = DatagramV { dest, bytes: spec_encode_packet(fs[j].packet) };
                            let pre_goal = spec_outbox_resends(
                                ob.subrange(0, i),
                                now,
                                interval,
                                maxr,
                            ) + spec_frag_resends(fs.subrange(0, j), now, interval, maxr, dest);
                            let rgoal = spec_outbox_resends(ob.subrange(0, i), now, interval, maxr)
                                + spec_frag_resends(
                                fs.subrange(0, j + 1),
                                now,
                                interval,
                                maxr,
                                dest,
                            );
                            assert(views_of_datagrams(res_pre) == pre_goal);
                            assert(views_of_datagrams(resends@) =~= views_of_datagrams(
                                res_pre,
                            ).push(dv));
                            assert(rgoal =~= pre_goal.push(dv));
                            assert(views_of_datagrams(resends@) == rgoal);
                        }
                    }
                    failures.push(
                        DeliveryFailure {
                            transmission_id: e.transmission_id,
                            fragment_index: f.packet.fragment_index,
                            dest: e.dest,
                        },
                    );
                    proof {
                        assert(failures@ =~= spec_outbox_failures(
                            ob.subrange(0, i),
                            now,
                            interval,
                            maxr,
                        ) + spec_frag_failures(
                            fs.subrange(0, j + 1),
                            now,
                            interval,
                            maxr,
                            tid,
                            dest,
                        ));
                    }
                }
            }
            proof {
                assert(fs.subrange(0, m0) =~= fs);
                assert(ob.subrange(0, i + 1).drop_last() =~= ob.subrange(0, i));
                assert(ob.subrange(0, i + 1).last() == ob[i]);
            }
            if kept.len() > 0 {
                let ghost nob_pre = new_outbox@;
                let entry = OutboxEntry {
                    transmission_id: e.transmission_id,
                    dest: e.dest,
                    frags: kept,
                };
                new_outbox.push(entry);
                proof {
                    assert(entry@ =~= EntryV {
                        frags: spec_sweep_frags(fs, now, interval, maxr),
                        ..ob[i]
                    });
                    let goal = spec_sweep_outbox(ob.subrange(0, i + 1), now, interval, maxr);
                    assert forall|t: int| 0 <= t < new_outbox@.len() implies views_of_entries(
                        new_outbox@,
                    )[t] == goal[t] by {
                        if t < nob_pre.len() {
                            assert(new_outbox@[t] == nob_pre[t]);
                            assert(views_of_entries(nob_pre)[t] == spec_sweep_outbox(
                                ob.subrange(0, i),
                                now,
                                interval,
                                maxr,
                            )[t]);
                        } else {
                            assert(new_outbox@[t] == entry);
                        }
                    }
                    assert(views_of_entries(new_outbox@) =~= goal);
                }
            } else {
                proof {
                    assert(spec_sweep_frags(fs, now, interval, maxr).len() == 0);
                    assert(views_of_entries(new_outbox@) =~= spec_sweep_outbox(
                        ob.subrange(0, i + 1),
                        now,
                        interval,
                        maxr,
                    ));
                }
            }
        }
        self.outbox = new_outbox;
        proof {
            assert(ob.subrange(0, n) =~= ob);
            lemma_sweep_outbox_wf(ob, now, interval, maxr);
        }
        SweepOutcome { resends, failures }
    }
}

} // verus!
