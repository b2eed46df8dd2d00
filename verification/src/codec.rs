//! The wire format: byte encodings of packets, acknowledgments and
//! messages, and the decoders that read them back.
//!
//! Every multi-byte field is written big-endian.  A leading tag byte tells
//! a packet datagram from an acknowledgment datagram, so a receiver can
//! classify raw bytes alone.  Encoding is total; decoding returns `None`
//! on malformed bytes, which a receiver handles by discarding the
//! datagram.  The round-trip lemmas state that decoding an encoding gives
//! back exactly the value encoded.

use crate::addr::Addr;
use crate::protocol::{subvec, AckMessage, Header, Message, MessageV, Packet, PacketV};
use vstd::prelude::*;

verus! {

/// First byte of every encoded `Packet`.
pub const TAG_PACKET: u8 = 1;

/// First byte of every encoded `AckMessage`.
pub const TAG_ACK: u8 = 2;

/// Bytes of an encoded `Packet` before the payload: tag, transmission
/// identifier, fragment index, reliability flag.
pub const PACKET_HEADER_LEN: usize = 14;

/// Exact length of an encoded `AckMessage`: tag, transmission identifier,
/// fragment index, source host, source port.
pub const ACK_LEN: usize = 19;

/// The eight big-endian bytes of a `u64`.
pub open spec fn spec_u64_bytes(x: u64) -> Seq<u8> {
    seq![
        (x >> 56) as u8,
        (x >> 48) as u8,
        (x >> 40) as u8,
        (x >> 32) as u8,
        (x >> 24) as u8,
        (x >> 16) as u8,
        (x >> 8) as u8,
        x as u8,
    ]
}

/// The `u64` read back from eight big-endian bytes.
pub open spec fn spec_u64_of(b: Seq<u8>) -> u64
    recommends
        b.len() == 8,
{
    ((b[0] as u64) << 56) | ((b[1] as u64) << 48) | ((b[2] as u64) << 40) | ((b[3] as u64) << 32)
        | ((b[4] as u64) << 24) | ((b[5] as u64) << 16) | ((b[6] as u64) << 8) | (b[7] as u64)
}

/// The four big-endian bytes of a `u32`.
pub open spec fn spec_u32_bytes(x: u32) -> Seq<u8> {
    seq![(x >> 24) as u8, (x >> 16) as u8, (x >> 8) as u8, x as u8]
}

/// The `u32` read back from four big-endian bytes.
pub open spec fn spec_u32_of(b: Seq<u8>) -> u32
    recommends
        b.len() == 4,
{
    ((b[0] as u32) << 24) | ((b[1] as u32) << 16) | ((b[2] as u32) << 8) | (b[3] as u32)
}

/// The two big-endian bytes of a `u16`.
pub open spec fn spec_u16_bytes(x: u16) -> Seq<u8> {
    seq![(x >> 8) as u8, x as u8]
}

/// The `u16` read back from two big-endian bytes.
pub open spec fn spec_u16_of(b: Seq<u8>) -> u16
    recommends
        b.len() == 2,
{
    ((b[0] as u16) << 8) | (b[1] as u16)
}

/// Reading back the byte image of a `u64` yields the `u64` itself.
pub proof fn lemma_u64_bytes_round_trip(x: u64)
    ensures
        spec_u64_of(spec_u64_bytes(x)) == x,
{
    assert(((((x >> 56) as u8) as u64) << 56) | ((((x >> 48) as u8) as u64) << 48)
        | ((((x >> 40) as u8) as u64) << 40) | ((((x >> 32) as u8) as u64) << 32)
        | ((((x >> 24) as u8) as u64) << 24) | ((((x >> 16) as u8) as u64) << 16)
        | ((((x >> 8) as u8) as u64) << 8) | ((x as u8) as u64) == x) by (bit_vector);
}

/// Reading back the byte image of a `u32` yields the `u32` itself.
pub proof fn lemma_u32_bytes_round_trip(x: u32)
    ensures
        spec_u32_of(spec_u32_bytes(x)) == x,
{
    assert(((((x >> 24) as u8) as u32) << 24) | ((((x >> 16) as u8) as u32) << 16)
        | ((((x >> 8) as u8) as u32) << 8) | ((x as u8) as u32) == x) by (bit_vector);
}

/// Reading back the byte image of a `u16` yields the `u16` itself.
pub proof fn lemma_u16_bytes_round_trip(x: u16)
    ensures
        spec_u16_of(spec_u16_bytes(x)) == x,
{
    assert(((((x >> 8) as u8) as u16) << 8) | ((x as u8) as u16) == x) by (bit_vector);
}

/// Appends the eight big-endian bytes of `x` to `out`.
pub fn push_u64(out: &mut Vec<u8>, x: u64)
    ensures
        final(out)@ == old(out)@ + spec_u64_bytes(x),
{
    out.push(#[verifier::truncate] ((x >> 56) as u8));
    out.push(#[verifier::truncate] ((x >> 48) as u8));
    out.push(#[verifier::truncate] ((x >> 40) as u8));
    out.push(#[verifier::truncate] ((x >> 32) as u8));
    out.push(#[verifier::truncate] ((x >> 24) as u8));
    out.push(#[verifier::truncate] ((x >> 16) as u8));
    out.push(#[verifier::truncate] ((x >> 8) as u8));
    out.push(#[verifier::truncate] (x as u8));
    proof {
        assert(out@ =~= old(out)@ + spec_u64_bytes(x));
    }
}

/// Appends the four big-endian bytes of `x` to `out`.
pub fn push_u32(out: &mut Vec<u8>, x: u32)
    ensures
        final(out)@ == old(out)@ + spec_u32_bytes(x),
{
    out.push(#[verifier::truncate] ((x >> 24) as u8));
    out.push(#[verifier::truncate] ((x >> 16) as u8));
    out.push(#[verifier::truncate] ((x >> 8) as u8));
    out.push(#[verifier::truncate] (x as u8));
    proof {
        assert(out@ =~= old(out)@ + spec_u32_bytes(x));
    }
}

/// Appends the two big-endian bytes of `x` to `out`.
pub fn push_u16(out: &mut Vec<u8>, x: u16)
    ensures
        final(out)@ == old(out)@ + spec_u16_bytes(x),
{
    out.push(#[verifier::truncate] ((x >> 8) as u8));
    out.push(#[verifier::truncate] (x as u8));
    proof {
        assert(out@ =~= old(out)@ + spec_u16_bytes(x));
    }
}

/// Reads the big-endian `u64` at offset `off` of `b`.
pub fn read_u64(b: &Vec<u8>, off: usize) -> (r: u64)
    requires
        off + 8 <= b@.len(),
    ensures
        r == spec_u64_of(b@.subrange(off as int, off as int + 8)),
{
    let n = b.len();
    assert(off + 8 <= n);
    let r = ((b[off] as u64) << 56) | ((b[off + 1] as u64) << 48) | ((b[off + 2] as u64) << 40)
        | ((b[off + 3] as u64) << 32) | ((b[off + 4] as u64) << 24) | ((b[off + 5] as u64) << 16)
        | ((b[off + 6] as u64) << 8) | (b[off + 7] as u64);
    proof {
        let s = b@.subrange(off as int, off as int + 8);
        assert(forall|i: int| 0 <= i < 8 ==> s[i] == b@[off + i]);
    }
    r
}

/// Reads the big-endian `u32` at offset `off` of `b`.
pub fn read_u32(b: &Vec<u8>, off: usize) -> (r: u32)
    requires
        off + 4 <= b@.len(),
    ensures
        r == spec_u32_of(b@.subrange(off as int, off as int + 4)),
{
    let n = b.len();
    assert(off + 4 <= n);
    let r = ((b[off] as u32) << 24) | ((b[off + 1] as u32) << 16) | ((b[off + 2] as u32) << 8)
        | (b[off + 3] as u32);
    proof {
        let s = b@.subrange(off as int, off as int + 4);
        assert(forall|i: int| 0 <= i < 4 ==> s[i] == b@[off + i]);
    }
    r
}

/// Reads the big-endian `u16` at offset `off` of `b`.
pub fn read_u16(b: &Vec<u8>, off: usize) -> (r: u16)
    requires
        off + 2 <= b@.len(),
    ensures
        r == spec_u16_of(b@.subrange(off as int, off as int + 2)),
{
    let n = b.len();
    assert(off + 2 <= n);
    let r = ((b[off] as u16) << 8) | (b[off + 1] as u16);
    proof {
        let s = b@.subrange(off as int, off as int + 2);
        assert(forall|i: int| 0 <= i < 2 ==> s[i] == b@[off + i]);
    }
    r
}

/// The byte image of a packet: tag, transmission identifier, fragment
/// index, reliability flag, then the payload to the end of the datagram.
pub open spec fn spec_encode_packet(p: PacketV) -> Seq<u8> {
    seq![TAG_PACKET] + spec_u64_bytes(p.transmission_id) + spec_u32_bytes(p.fragment_index)
        + seq![p.reliability_flag] + p.payload
}

/// The packet read back from a datagram, or `None` if the bytes are not a
/// well-formed packet image.
pub open spec fn spec_decode_packet(b: Seq<u8>) -> Option<PacketV> {
    if b.len() >= PACKET_HEADER_LEN && b[0] == TAG_PACKET {
        Some(
            PacketV {
                transmission_id: spec_u64_of(b.subrange(1, 9)),
                fragment_index: spec_u32_of(b.subrange(9, 13)),
                reliability_flag: b[13],
                payload: b.subrange(PACKET_HEADER_LEN as int, b.len() as int),
            },
        )
    } else {
        None
    }
}

/// The byte image of an acknowledgment: tag, transmission identifier,
/// fragment index, source host, source port.
pub open spec fn spec_encode_ack(a: AckMessage) -> Seq<u8> {
    seq![TAG_ACK] + spec_u64_bytes(a.packet_id) + spec_u32_bytes(a.packet_number)
        + spec_u32_bytes(a.src.host) + spec_u16_bytes(a.src.port)
}

/// The acknowledgment read back from a datagram, or `None` if the bytes
/// are not a well-formed acknowledgment image.
pub open spec fn spec_decode_ack(b: Seq<u8>) -> Option<AckMessage> {
    if b.len() == ACK_LEN && b[0] == TAG_ACK {
        Some(
            AckMessage {
                packet_id: spec_u64_of(b.subrange(1, 9)),
                packet_number: spec_u32_of(b.subrange(9, 13)),
                src: Addr { host: spec_u32_of(b.subrange(13, 17)), port: spec_u16_of(b.subrange(17, 19)) },
            },
        )
    } else {
        None
    }
}

/// The wire byte standing for a message header tag.
pub open spec fn spec_header_byte(h: Header) -> u8 {
    match h {
        Header::Ack => 0,
        Header::Data => 1,
    }
}

/// The header tag read back from its wire byte.
pub open spec fn spec_header_of(x: u8) -> Option<Header> {
    if x == 0 {
        Some(Header::Ack)
    } else if x == 1 {
        Some(Header::Data)
    } else {
        None
    }
}

/// The byte image of a message: its header byte, then its payload.
pub open spec fn spec_encode_message(m: MessageV) -> Seq<u8> {
    seq![spec_header_byte(m.head)] + m.payload
}

/// The message read back from reassembled bytes, or `None` if the header
/// byte is unknown or the bytes are empty.
pub open spec fn spec_decode_message(b: Seq<u8>) -> Option<MessageV> {
    if b.len() >= 1 && spec_header_of(b[0]) is Some {
        Some(MessageV { head: spec_header_of(b[0])->Some_0, payload: b.subrange(1, b.len() as int) })
    } else {
        None
    }
}

/// Wire round-trip for packets: decoding the encoding of any packet gives
/// back exactly that packet.
pub proof fn lemma_packet_wire_round_trip(p: PacketV)
    ensures
        spec_decode_packet(spec_encode_packet(p)) == Some(p),
{
    let e = spec_encode_packet(p);
    assert(e.len() == PACKET_HEADER_LEN + p.payload.len());
    assert(e[0] == TAG_PACKET);
    assert(e.subrange(1, 9) =~= spec_u64_bytes(p.transmission_id));
    assert(e.subrange(9, 13) =~= spec_u32_bytes(p.fragment_index));
    assert(e[13] == p.reliability_flag);
    assert(e.subrange(PACKET_HEADER_LEN as int, e.len() as int) =~= p.payload);
    lemma_u64_bytes_round_trip(p.transmission_id);
    lemma_u32_bytes_round_trip(p.fragment_index);
    assert(spec_decode_packet(e)->Some_0 =~= p);
}

/// Packet encoding is injective: distinct packets have distinct byte
/// images.
pub proof fn lemma_packet_encode_injective(p1: PacketV, p2: PacketV)
    requires
        spec_encode_packet(p1) == spec_encode_packet(p2),
    ensures
        p1 == p2,
{
    lemma_packet_wire_round_trip(p1);
    lemma_packet_wire_round_trip(p2);
}

/// Wire round-trip for acknowledgments: decoding the encoding of any
/// acknowledgment gives back exactly that acknowledgment.
pub proof fn lemma_ack_wire_round_trip(a: AckMessage)
    ensures
        spec_decode_ack(spec_encode_ack(a)) == Some(a),
{
    let e = spec_encode_ack(a);
    assert(e.len() == ACK_LEN);
    assert(e[0] == TAG_ACK);
    assert(e.subrange(1, 9) =~= spec_u64_bytes(a.packet_id));
    assert(e.subrange(9, 13) =~= spec_u32_bytes(a.packet_number));
    assert(e.subrange(13, 17) =~= spec_u32_bytes(a.src.host));
    assert(e.subrange(17, 19) =~= spec_u16_bytes(a.src.port));
    lemma_u64_bytes_round_trip(a.packet_id);
    lemma_u32_bytes_round_trip(a.packet_number);
    lemma_u32_bytes_round_trip(a.src.host);
    lemma_u16_bytes_round_trip(a.src.port);
}

/// Wire round-trip for messages: decoding the encoding of any message
/// gives back exactly that message.
pub proof fn lemma_message_wire_round_trip(m: MessageV)
    ensures
        spec_decode_message(spec_encode_message(m)) == Some(m),
{
    let e = spec_encode_message(m);
    assert(e[0] == spec_header_byte(m.head));
    assert(e.subrange(1, e.len() as int) =~= m.payload);
    assert(spec_decode_message(e)->Some_0 =~= m);
}

impl Packet {
    /// Serializes this packet for the wire, as `spec_encode_packet`
    /// describes.
    pub fn as_bytes(&self) -> (r: Vec<u8>)
        ensures
            r@ == spec_encode_packet(self@),
    {
        let mut out: Vec<u8> = Vec::new();
        out.push(TAG_PACKET);
        push_u64(&mut out, self.transmission_id);
        push_u32(&mut out, self.fragment_index);
        out.push(self.reliability_flag);
        let mut j: usize = 0;
        let ghost head = out@;
        while j < self.payload.len()
            invariant
                j <= self.payload@.len(),
                out@ == head + self.payload@.subrange(0, j as int),
            decreases self.payload@.len() - j,
        {
            out.push(self.payload[j]);
            proof {
                assert(out@ =~= head + self.payload@.subrange(0, j as int + 1));
            }
            j = j + 1;
        }
        proof {
            assert(self.payload@.subrange(0, self.payload@.len() as int) =~= self.payload@);
            assert(out@ =~= spec_encode_packet(self@));
        }
        out
    }

    /// Parses a packet from datagram bytes, as `spec_decode_packet`
    /// describes; malformed bytes give `None`.
    pub fn from_bytes(b: &Vec<u8>) -> (r: Option<Packet>)
        ensures
            r is Some <==> spec_decode_packet(b@) is Some,
            r matches Some(p) ==> Some(p@) == spec_decode_packet(b@),
    {
        let len = b.len();
        if len < PACKET_HEADER_LEN || b[0] != TAG_PACKET {
            return None;
        }
        let transmission_id = read_u64(b, 1);
        let fragment_index = read_u32(b, 9);
        let reliability_flag = b[13];
        let payload = subvec(b, PACKET_HEADER_LEN, len - PACKET_HEADER_LEN);
        let p = Packet { transmission_id, fragment_index, reliability_flag, payload };
        proof {
            assert(p@ =~= spec_decode_packet(b@)->Some_0);
        }
        Some(p)
    }
}

impl AckMessage {
    /// Serializes this acknowledgment for the wire, as `spec_encode_ack`
    /// describes.
    pub fn as_bytes(&self) -> (r: Vec<u8>)
        ensures
            r@ == spec_encode_ack(*self),
    {
        let mut out: Vec<u8> = Vec::new();
        out.push(TAG_ACK);
        push_u64(&mut out, self.packet_id);
        push_u32(&mut out, self.packet_number);
        push_u32(&mut out, self.src.host);
        push_u16(&mut out, self.src.port);
        proof {
            assert(out@ =~= spec_encode_ack(*self));
        }
        out
    }

    /// Parses an acknowledgment from datagram bytes, as `spec_decode_ack`
    /// describes; malformed bytes give `None`.
    pub fn from_bytes(b: &Vec<u8>) -> (r: Option<AckMessage>)
        ensures
            r == spec_decode_ack(b@),
    {
        let len = b.len();
        if len != ACK_LEN || b[0] != TAG_ACK {
            return None;
        }
        let packet_id = read_u64(b, 1);
        let packet_number = read_u32(b, 9);
        let host = read_u32(b, 13);
        let port = read_u16(b, 17);
        Some(AckMessage { packet_id, packet_number, src: Addr { host, port } })
    }
}

impl Message {
    /// Serializes this message for fragmentation, as `spec_encode_message`
    /// describes.
    pub fn as_bytes(&self) -> (r: Vec<u8>)
        ensures
            r@ == spec_encode_message(self@),
    {
        let mut out: Vec<u8> = Vec::new();
        let head_byte: u8 = match self.head {
            Header::Ack => 0,
            Header::Data => 1,
        };
        out.push(head_byte);
        let mut j: usize = 0;
        let ghost head = out@;
        while j < self.payload.len()
            invariant
                j <= self.payload@.len(),
                out@ == head + self.payload@.subrange(0, j as int),
            decreases self.payload@.len() - j,
        {
            out.push(self.payload[j]);
            proof {
                assert(out@ =~= head + self.payload@.subrange(0, j as int + 1));
            }
            j = j + 1;
        }
        proof {
            assert(self.payload@.subrange(0, self.payload@.len() as int) =~= self.payload@);
            assert(out@ =~= spec_encode_message(self@));
        }
        out
    }

    /// Parses a message from reassembled bytes, as `spec_decode_message`
    /// describes; an unknown header byte gives `None`.
    pub fn from_bytes(b: &Vec<u8>) -> (r: Option<Message>)
        ensures
            r is Some <==> spec_decode_message(b@) is Some,
            r matches Some(m) ==> Some(m@) == spec_decode_message(b@),
    {
        let len = b.len();
        if len < 1 {
            return None;
        }
        let head = if b[0] == 0 {
            Header::Ack
        } else if b[0] == 1 {
            Header::Data
        } else {
            return None;
        };
        let payload = subvec(b, 1, len - 1);
        let m = Message { head, payload };
        proof {
            assert(m@ =~= spec_decode_message(b@)->Some_0);
        }
        Some(m)
    }
}

} // verus!
