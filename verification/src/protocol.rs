//! Messages, packets, acknowledgments, and fragmentation.
//!
//! A `Message` is a header tag plus opaque payload bytes.  `packetize`
//! splits a message's bytes into an ordered run of `Packet` fragments of at
//! most `MAX_FRAGMENT_PAYLOAD` bytes each, all stamped with one transmission
//! identifier and one reliability flag; `reassemble` concatenates fragment
//! payloads back into the original bytes.  An empty byte sequence still
//! yields one zero-length fragment, so a receiver observes the message.

use crate::addr::Addr;
use vstd::arithmetic::div_mod::{
    lemma_div_is_ordered, lemma_div_multiples_vanish_fancy, lemma_fundamental_div_mod,
    lemma_mod_bound,
};
use vstd::math::min;
use vstd::prelude::*;

verus! {

/// The most bytes one fragment's payload may carry, kept under the
/// practical datagram size limit of the network.
pub const MAX_FRAGMENT_PAYLOAD: usize = 1024;

/// The header tag of a message: an acknowledgment/control message, sent
/// fire-and-forget, or an ordinary data message, sent reliably.
#[derive(Clone, Copy, PartialEq, Eq, Structural, Debug)]
pub enum Header {
    Ack,
    Data,
}

/// An application message: a header tag plus opaque payload bytes.
#[derive(Debug)]
pub struct Message {
    pub head: Header,
    pub payload: Vec<u8>,
}

/// The mathematical image of a `Message`.
#[verifier::ext_equal]
pub struct MessageV {
    pub head: Header,
    pub payload: Seq<u8>,
}

impl View for Message {
    type V = MessageV;

    open spec fn view(&self) -> MessageV {
        MessageV { head: self.head, payload: self.payload@ }
    }
}

/// One fragment of a message transmission.
#[derive(Debug)]
pub struct Packet {
    /// Identifier shared by every fragment of one message transmission.
    pub transmission_id: u64,
    /// 0-based position of this fragment within its transmission.
    pub fragment_index: u32,
    /// 1 for reliable (tracked and retried) delivery, 0 for fire-and-forget.
    pub reliability_flag: u8,
    /// The fragment's slice of the message bytes.
    pub payload: Vec<u8>,
}

/// The mathematical image of a `Packet`.
#[verifier::ext_equal]
pub struct PacketV {
    pub transmission_id: u64,
    pub fragment_index: u32,
    pub reliability_flag: u8,
    pub payload: Seq<u8>,
}

impl View for Packet {
    type V = PacketV;

    open spec fn view(&self) -> PacketV {
        PacketV {
            transmission_id: self.transmission_id,
            fragment_index: self.fragment_index,
            reliability_flag: self.reliability_flag,
            payload: self.payload@,
        }
    }
}

impl Packet {
    /// An owned copy of this packet, equal to it.
    pub fn duplicate(&self) -> (r: Packet)
        ensures
            r@ == self@,
    {
        let payload = self.payload.clone();
        proof {
            assert(payload@ =~= self.payload@);
        }
        Packet {
            transmission_id: self.transmission_id,
            fragment_index: self.fragment_index,
            reliability_flag: self.reliability_flag,
            payload,
        }
    }
}

/// A peer's receipt for one fragment: the transmission it belongs to, the
/// fragment index being acknowledged, and the acknowledger's address.
#[derive(Clone, Copy, PartialEq, Eq, Structural, Debug)]
pub struct AckMessage {
    pub packet_id: u64,
    pub packet_number: u32,
    pub src: Addr,
}

/// The views of a run of packets.
pub open spec fn views_of_packets(s: Seq<Packet>) -> Seq<PacketV> {
    Seq::new(s.len(), |i: int| s[i]@)
}

/// How many fragments a message of `len` bytes splits into: one per full or
/// partial `MAX_FRAGMENT_PAYLOAD` chunk, and one for an empty message.
pub open spec fn spec_num_frags(len: int) -> int {
    if len == 0 {
        1
    } else {
        (len + MAX_FRAGMENT_PAYLOAD - 1) / (MAX_FRAGMENT_PAYLOAD as int)
    }
}

/// The fragments of byte sequence `b` under identifier `tid` and
/// reliability flag `flag`: consecutive indices from 0, payloads the
/// consecutive `MAX_FRAGMENT_PAYLOAD`-sized chunks of `b`.
pub open spec fn spec_packetize(b: Seq<u8>, tid: u64, flag: u8) -> Seq<PacketV> {
    Seq::new(
        spec_num_frags(b.len() as int) as nat,
        |i: int|
            PacketV {
                transmission_id: tid,
                fragment_index: i as u32,
                reliability_flag: flag,
                payload: b.subrange(
                    i * (MAX_FRAGMENT_PAYLOAD as int),
                    min(b.len() as int, (i + 1) * (MAX_FRAGMENT_PAYLOAD as int)),
                ),
            },
    )
}

/// The concatenation of the packets' payloads, in sequence order.
pub open spec fn spec_payload_concat(ps: Seq<PacketV>) -> Seq<u8>
    decreases ps.len(),
{
    if ps.len() == 0 {
        Seq::empty()
    } else {
        spec_payload_concat(ps.drop_last()) + ps.last().payload
    }
}

/// The fragment count covers the whole byte sequence and nothing more:
/// it is the least count whose chunks reach `len`.
proof fn lemma_num_frags_bounds(len: int)
    requires
        0 <= len,
    ensures
        1 <= spec_num_frags(len),
        len <= spec_num_frags(len) * (MAX_FRAGMENT_PAYLOAD as int),
        len > 0 ==> (spec_num_frags(len) - 1) * (MAX_FRAGMENT_PAYLOAD as int) < len,
{
    let m = MAX_FRAGMENT_PAYLOAD as int;
    if len > 0 {
        let x = len + m - 1;
        lemma_fundamental_div_mod(x, m);
        lemma_mod_bound(x, m);
        let q = x / m;
        assert(x == m * q + x % m);
        assert(m * q >= len - 1 - (m - 1) + m - 1) by {
            assert(x % m <= m - 1);
        }
        assert(q >= 1) by {
            assert(m * q >= len > 0);
            if q <= 0 {
                assert(m * q <= 0);
            }
        }
    }
}

/// Payload chunks of consecutive fragments tile the byte sequence: the
/// first `k` fragments together carry exactly the first
/// `min(k * MAX_FRAGMENT_PAYLOAD, len)` bytes.
proof fn lemma_packetize_prefix(b: Seq<u8>, tid: u64, flag: u8, k: int)
    requires
        0 <= k <= spec_num_frags(b.len() as int),
    ensures
        spec_payload_concat(spec_packetize(b, tid, flag).subrange(0, k)) == b.subrange(
            0,
            min(k * (MAX_FRAGMENT_PAYLOAD as int), b.len() as int),
        ),
    decreases k,
{
    let m = MAX_FRAGMENT_PAYLOAD as int;
    let len = b.len() as int;
    let ps = spec_packetize(b, tid, flag);
    if k == 0 {
        assert(ps.subrange(0, 0) =~= Seq::<PacketV>::empty());
        assert(b.subrange(0, 0) =~= Seq::<u8>::empty());
    } else {
        lemma_packetize_prefix(b, tid, flag, k - 1);
        lemma_num_frags_bounds(len);
        let pre = ps.subrange(0, k);
        assert(pre.drop_last() =~= ps.subrange(0, k - 1));
        assert(pre.last() == ps[k - 1]);
        // Earlier chunks end strictly inside the byte sequence.
        assert((k - 1) * m <= len) by {
            if len > 0 {
                assert((k - 1) * m <= (spec_num_frags(len) - 1) * m);
            }
        }
        assert(min((k - 1) * m, len) == (k - 1) * m);
        assert(spec_payload_concat(pre) == b.subrange(0, (k - 1) * m) + b.subrange(
            (k - 1) * m,
            min(len, k * m),
        ));
        assert(b.subrange(0, (k - 1) * m) + b.subrange((k - 1) * m, min(len, k * m)) =~= b.subrange(
            0,
            min(k * m, len),
        ));
    }
}

/// Fragmentation round-trip: concatenating the payloads of
/// `spec_packetize(b, tid, flag)` in index order reproduces `b` exactly.
pub proof fn lemma_packetize_round_trip(b: Seq<u8>, tid: u64, flag: u8)
    ensures
        spec_payload_concat(spec_packetize(b, tid, flag)) == b,
{
    let m = MAX_FRAGMENT_PAYLOAD as int;
    let len = b.len() as int;
    let n = spec_num_frags(len);
    lemma_num_frags_bounds(len);
    lemma_packetize_prefix(b, tid, flag, n);
    let ps = spec_packetize(b, tid, flag);
    assert(ps.subrange(0, n) =~= ps);
    assert(min(n * m, len) == len);
    assert(b.subrange(0, len) =~= b);
}

/// A fresh `Vec` holding `bytes[start .. start + count]`.
pub(crate) fn subvec(bytes: &Vec<u8>, start: usize, count: usize) -> (r: Vec<u8>)
    requires
        start + count <= bytes@.len(),
    ensures
        r@ == bytes@.subrange(start as int, start as int + count as int),
{
    let n = bytes.len();
    let mut r: Vec<u8> = Vec::new();
    let mut j: usize = 0;
    while j < count
        invariant
            j <= count,
            start + count <= n,
            n == bytes@.len(),
            r@ == bytes@.subrange(start as int, start as int + j as int),
        decreases count - j,
    {
        r.push(bytes[start + j]);
        proof {
            assert(r@ =~= bytes@.subrange(start as int, start as int + j as int + 1));
        }
        j = j + 1;
    }
    r
}

/// Splits `bytes` into its ordered fragments under `transmission_id` and
/// `reliability_flag`, exactly as `spec_packetize` describes.  An empty
/// `bytes` yields one fragment with an empty payload.
pub fn packetize(bytes: Vec<u8>, transmission_id: u64, reliability_flag: u8) -> (r: Vec<Packet>)
    requires
        bytes@.len() <= (MAX_FRAGMENT_PAYLOAD as int) * 0x1_0000_0000,
    ensures
        views_of_packets(r@) == spec_packetize(bytes@, transmission_id, reliability_flag),
        r@.len() >= 1,
        bytes@.len() == 0 ==> r@.len() == 1 && r@[0]@.payload.len() == 0,
{
    let len = bytes.len();
    let ghost n = spec_num_frags(len as int);
    proof {
        lemma_num_frags_bounds(len as int);
    }
    let mut r: Vec<Packet> = Vec::new();
    if len == 0 {
        let p = Packet {
            transmission_id,
            fragment_index: 0,
            reliability_flag,
            payload: Vec::new(),
        };
        r.push(p);
        proof {
            assert(views_of_packets(r@) =~~= spec_packetize(
                bytes@,
                transmission_id,
                reliability_flag,
            ));
        }
        return r;
    }
    // The fragment count fits the 32-bit index space.
    proof {
        let m_int = MAX_FRAGMENT_PAYLOAD as int;
        let big = m_int * 0x1_0000_0000;
        lemma_div_is_ordered(len as int + m_int - 1, big + m_int - 1, m_int);
        lemma_div_multiples_vanish_fancy(0x1_0000_0000, m_int - 1, m_int);
        assert(big + m_int - 1 == m_int * 0x1_0000_0000 + (m_int - 1));
        assert(n <= 0x1_0000_0000);
    }
    let mut start: usize = 0;
    let mut idx: usize = 0;
    while start < len
        invariant
            len == bytes@.len(),
            0 < len,
            n == spec_num_frags(len as int),
            n <= 0x1_0000_0000,
            n * (MAX_FRAGMENT_PAYLOAD as int) >= len,
            idx <= n,
            start == min(idx * (MAX_FRAGMENT_PAYLOAD as int), len as int),
            r@.len() == idx,
            forall|j: int|
                0 <= j < idx ==> r@[j]@ == spec_packetize(
                    bytes@,
                    transmission_id,
                    reliability_flag,
                )[j],
        decreases len - start,
    {
        let remaining = len - start;
        let clen = if remaining > MAX_FRAGMENT_PAYLOAD {
            MAX_FRAGMENT_PAYLOAD
        } else {
            remaining
        };
        let chunk = subvec(&bytes, start, clen);
        proof {
            // At the head of an iteration the cursor sits on a chunk boundary.
            assert(idx * (MAX_FRAGMENT_PAYLOAD as int) == start);
            assert(idx < n) by {
                if idx == n {
                    assert(start == min(n * (MAX_FRAGMENT_PAYLOAD as int), len as int) == len);
                }
            }
        }
        let p = Packet {
            transmission_id,
            fragment_index: idx as u32,
            reliability_flag,
            payload: chunk,
        };
        r.push(p);
        proof {
            let m_int = MAX_FRAGMENT_PAYLOAD as int;
            let ps = spec_packetize(bytes@, transmission_id, reliability_flag);
            assert((idx + 1) * m_int == idx * m_int + m_int) by (nonlinear_arith);
            assert(start + clen == min(len as int, (idx + 1) * m_int));
            assert(idx < 0x1_0000_0000);
            assert(ps[idx as int].fragment_index == idx as u32);
            assert(ps[idx as int].payload == bytes@.subrange(
                idx * m_int,
                min(len as int, (idx + 1) * m_int),
            ));
            assert(r@[idx as int]@ =~= ps[idx as int]);
        }
        start = start + clen;
        idx = idx + 1;
        proof {
            let m_int = MAX_FRAGMENT_PAYLOAD as int;
            assert(idx * m_int == (idx - 1) * m_int + m_int) by (nonlinear_arith);
            assert(start == min(idx * m_int, len as int));
        }
    }
    proof {
        // The cursor reached the end exactly when every fragment was cut.
        assert(idx == n) by {
            if idx < n {
                assert(idx * (MAX_FRAGMENT_PAYLOAD as int) <= (n - 1) * (
                MAX_FRAGMENT_PAYLOAD as int));
                assert((n - 1) * (MAX_FRAGMENT_PAYLOAD as int) < len);
            }
        }
        assert(views_of_packets(r@) =~~= spec_packetize(bytes@, transmission_id, reliability_flag));
    }
    r
}

/// Concatenates the packets' payloads in sequence order, reproducing the
/// original message bytes when given the fragments `packetize` returned.
pub fn reassemble(packets: &Vec<Packet>) -> (r: Vec<u8>)
    ensures
        r@ == spec_payload_concat(views_of_packets(packets@)),
{
    let mut r: Vec<u8> = Vec::new();
    let mut i: usize = 0;
    while i < packets.len()
        invariant
            i <= packets@.len(),
            r@ == spec_payload_concat(views_of_packets(packets@).subrange(0, i as int)),
        decreases packets@.len() - i,
    {
        let p = &packets[i];
        let mut j: usize = 0;
        while j < p.payload.len()
            invariant
                i < packets@.len(),
                p == &packets[i as int],
                j <= p.payload@.len(),
                r@ == spec_payload_concat(views_of_packets(packets@).subrange(0, i as int))
                    + p.payload@.subrange(0, j as int),
            decreases p.payload@.len() - j,
        {
            r.push(p.payload[j]);
            proof {
                assert(r@ =~= spec_payload_concat(views_of_packets(packets@).subrange(0, i as int))
                    + p.payload@.subrange(0, j as int + 1));
            }
            j = j + 1;
        }
        proof {
            let vs = views_of_packets(packets@);
            assert(p.payload@.subrange(0, p.payload@.len() as int) =~= p.payload@);
            assert(vs.subrange(0, i as int + 1).drop_last() =~= vs.subrange(0, i as int));
            assert(vs.subrange(0, i as int + 1).last() == vs[i as int]);
            assert(r@ == spec_payload_concat(vs.subrange(0, i as int + 1)));
        }
        i = i + 1;
    }
    proof {
        let vs = views_of_packets(packets@);
        assert(vs.subrange(0, vs.len() as int) =~= vs);
    }
    r
}

} // verus!
