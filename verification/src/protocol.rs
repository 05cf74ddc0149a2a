//! The length-prefixed binary packet format: a 16-bit little-endian
//! total size, a one-byte type tag, and a payload; and the typed
//! message carried in it, a 128-bit timestamp followed by UTF-8 text.

use vstd::prelude::*;
use vstd::bytes::{spec_u16_from_le_bytes, spec_u16_to_le_bytes, u16_from_le_bytes, u16_to_le_bytes};
use vstd::slice::slice_to_vec;
use vstd::utf8::{decode_utf8, encode_utf8, valid_utf8};

use crate::text::{lossy_chars, lossy_string};

verus! {

/// Why a frame or message failed to decode.
#[derive(Clone, Copy, Debug, PartialEq, Eq, Structural)]
pub enum DecodeError {
    /// The declared size reaches past the bytes actually present, or
    /// cannot even cover the header itself.
    TruncatedFrame,
}

/// The one-byte packet type tag.
#[derive(Clone, Copy, Debug, PartialEq, Eq, Structural)]
pub struct PacketType(pub u8);

impl PacketType {
    /// The tag of an untyped packet.
    pub fn raw() -> (r: Self)
        ensures
            r == PacketType(0u8),
    {
        PacketType(0)
    }

    /// The tag of a timestamped text message.
    pub fn message() -> (r: Self)
        ensures
            r == PacketType(1u8),
    {
        PacketType(1)
    }
}

/// The packet header: total size including the header, then the tag.
#[derive(Clone, Copy, Debug, PartialEq, Eq, Structural)]
pub struct PacketHeader {
    pub size: u16,
    pub packet_type: PacketType,
}

/// The number of bytes the header occupies on the wire.
pub open spec fn header_size() -> int {
    3
}

/// Little-endian bytes of a nonnegative value, lowest byte first.
pub open spec fn le_bytes(v: int, n: nat) -> Seq<u8>
    decreases n,
{
    if n == 0 {
        Seq::empty()
    } else {
        seq![(v % 256) as u8] + le_bytes(v / 256, (n - 1) as nat)
    }
}

/// The value little-endian bytes denote.
pub open spec fn le_val(b: Seq<u8>) -> int
    decreases b.len(),
{
    if b.len() == 0 {
        0
    } else {
        b[0] + 256 * le_val(b.drop_first())
    }
}

/// Powers of 256.
pub open spec fn pow256(n: nat) -> int
    decreases n,
{
    if n == 0 {
        1
    } else {
        256 * pow256((n - 1) as nat)
    }
}

/// Little-endian bytes denote a value below the base raised to their
/// count.
pub proof fn lemma_le_val_bound(b: Seq<u8>)
    ensures
        0 <= le_val(b) < pow256(b.len()),
    decreases b.len(),
{
    if b.len() == 0 {
    } else {
        lemma_le_val_bound(b.drop_first());
    }
}

/// Encoding a value in range and decoding it again returns it exactly.
pub proof fn lemma_le_round_trip(v: int, n: nat)
    requires
        0 <= v < pow256(n),
    ensures
        le_bytes(v, n).len() == n,
        le_val(le_bytes(v, n)) == v,
    decreases n,
{
    if n == 0 {
    } else {
        assert(0 <= v / 256 < pow256((n - 1) as nat)) by (nonlinear_arith)
            requires
                0 <= v < 256 * pow256((n - 1) as nat),
        ;
        lemma_le_round_trip(v / 256, (n - 1) as nat);
        let b = le_bytes(v, n);
        assert(b.drop_first() =~= le_bytes(v / 256, (n - 1) as nat));
        assert(b[0] == (v % 256) as u8);
    }
}

/// Renders the low `n` bytes of `v`, lowest first.
fn u128_to_le(v: u128, n: usize) -> (r: Vec<u8>)
    ensures
        r@ == le_bytes(v as int, n as nat),
    decreases n,
{
    if n == 0 {
        let v: Vec<u8> = Vec::new();
        proof {
            assert(v@ =~= le_bytes(0, 0));
        }
        v
    } else {
        let mut rest = u128_to_le(v / 256, n - 1);
        let mut out: Vec<u8> = Vec::new();
        out.push((v % 256) as u8);
        out.append(&mut rest);
        proof {
            assert(out@ =~= le_bytes(v as int, n as nat));
        }
        out
    }
}

/// Reads a 128-bit value from 16 little-endian bytes.
fn u128_from_le(b: &[u8]) -> (r: u128)
    requires
        b@.len() == 16,
    ensures
        r as int == le_val(b@),
{
    proof {
        assert(pow256(16) == 0x1_0000_0000_0000_0000_0000_0000_0000_0000) by {
            reveal_with_fuel(pow256, 17);
        }
    }
    let mut acc: u128 = 0;
    let mut j: usize = 16;
    while j > 0
        invariant
            0 <= j <= 16,
            b@.len() == 16,
            acc as int == le_val(b@.skip(j as int)),
            pow256(16) == 0x1_0000_0000_0000_0000_0000_0000_0000_0000,
        decreases j,
    {
        proof {
            lemma_le_val_bound(b@.skip(j as int));
            assert(pow256((16 - j) as nat) <= pow256(15)) by {
                lemma_pow256_increases((16 - j) as nat, 15);
            }
            assert(pow256(15) * 256 == pow256(16)) by {
                reveal_with_fuel(pow256, 17);
            }
            assert(b@.skip(j - 1).drop_first() =~= b@.skip(j as int));
            assert(b@.skip(j - 1)[0] == b@[j - 1]);
        }
        j = j - 1;
        acc = b[j] as u128 + 256 * acc;
    }
    proof {
        assert(b@.skip(0) =~= b@);
    }
    acc
}

/// Powers of 256 do not decrease with the exponent.
pub proof fn lemma_pow256_increases(m: nat, n: nat)
    requires
        m <= n,
    ensures
        pow256(m) <= pow256(n),
    decreases n,
{
    if m < n {
        lemma_pow256_increases(m, (n - 1) as nat);
        assert(pow256((n - 1) as nat) >= 1) by {
            lemma_pow256_positive((n - 1) as nat);
        }
    }
}

/// Powers of 256 are positive.
pub proof fn lemma_pow256_positive(n: nat)
    ensures
        pow256(n) >= 1,
    decreases n,
{
    if n > 0 {
        lemma_pow256_positive((n - 1) as nat);
    }
}

/// A self-describing binary unit: header plus payload.
#[derive(Debug)]
pub struct RawPacket {
    header: PacketHeader,
    data: Vec<u8>,
}

/// The wire bytes of a packet.
pub open spec fn packet_bytes(size: u16, tag: u8, payload: Seq<u8>) -> Seq<u8> {
    spec_u16_to_le_bytes(size) + seq![tag] + payload
}

/// Whether a byte run begins with a whole, well-formed packet.
pub open spec fn packet_decodes(b: Seq<u8>) -> bool {
    &&& b.len() >= header_size()
    &&& header_size() <= spec_u16_from_le_bytes(b.take(2)) <= b.len()
}

impl RawPacket {
    /// The declared total size, header included.
    pub closed spec fn spec_size(&self) -> u16 {
        self.header.size
    }

    /// The type tag byte.
    pub closed spec fn spec_tag(&self) -> u8 {
        self.header.packet_type.0
    }

    /// The payload bytes.
    pub closed spec fn payload(&self) -> Seq<u8> {
        self.data@
    }

    /// The declared size covers the header and exactly the payload.
    pub open spec fn wf(&self) -> bool {
        self.spec_size() == header_size() + self.payload().len()
    }

    pub fn new(packet_type: PacketType, data: &[u8]) -> (r: Self)
        requires
            data@.len() + header_size() <= u16::MAX,
        ensures
            r.wf(),
            r.spec_tag() == packet_type.0,
            r.spec_size() == header_size() + data@.len(),
            r.payload() == data@,
    {
        let size = (3 + data.len()) as u16;
        RawPacket { header: PacketHeader { size, packet_type }, data: slice_to_vec(data) }
    }

    pub fn data(&self) -> (r: &[u8])
        ensures
            r@ == self.payload(),
    {
        self.data.as_slice()
    }

    /// Serializes the packet: size, tag, payload.
    pub fn as_bytes(&self) -> (r: Vec<u8>)
        ensures
            r@ == packet_bytes(self.spec_size(), self.spec_tag(), self.payload()),
    {
        let mut out = u16_to_le_bytes(self.header.size);
        out.push(self.header.packet_type.0);
        let mut i: usize = 0;
        proof {
            assert(out@ =~= spec_u16_to_le_bytes(self.spec_size()) + seq![self.spec_tag()]
                + self.payload().take(0));
        }
        while i < self.data.len()
            invariant
                i <= self.payload().len(),
                out@ == spec_u16_to_le_bytes(self.spec_size()) + seq![self.spec_tag()]
                    + self.payload().take(i as int),
            decreases self.payload().len() - i,
        {
            out.push(self.data[i]);
            proof {
                assert(self.payload().take(i + 1) =~= self.payload().take(i as int).push(
                    self.payload()[i as int],
                ));
                assert(out@ =~= spec_u16_to_le_bytes(self.spec_size()) + seq![self.spec_tag()]
                    + self.payload().take(i + 1));
            }
            i = i + 1;
        }
        proof {
            assert(self.payload().take(self.payload().len() as int) =~= self.payload());
        }
        out
    }

    /// Reads one packet from the front of a byte run.  Fails with
    /// [`DecodeError::TruncatedFrame`] when the run is shorter than a
    /// header, or the declared size reaches past the run or cannot
    /// cover the header itself.
    pub fn from_bytes(data: &[u8]) -> (r: Result<Self, DecodeError>)
        ensures
            r is Ok <==> packet_decodes(data@),
            r matches Ok(p) ==> {
                let size = spec_u16_from_le_bytes(data@.take(2));
                &&& p.wf()
                &&& p.spec_size() == size
                &&& p.spec_tag() == data@[2]
                &&& p.payload() == data@.subrange(header_size(), size as int)
            },
            r matches Err(e) ==> e == DecodeError::TruncatedFrame,
    {
        if data.len() < 3 {
            return Err(DecodeError::TruncatedFrame);
        }
        let size_bytes = vstd::slice::slice_subrange(data, 0, 2);
        let size = u16_from_le_bytes(size_bytes);
        proof {
            assert(size_bytes@ =~= data@.take(2));
        }
        if size < 3 {
            return Err(DecodeError::TruncatedFrame);
        }
        if (size as usize) > data.len() {
            return Err(DecodeError::TruncatedFrame);
        }
        let payload = vstd::slice::slice_subrange(data, 3, size as usize);
        let tag = *vstd::slice::slice_index_get(data, 2);
        Ok(
            RawPacket {
                header: PacketHeader { size, packet_type: PacketType(tag) },
                data: slice_to_vec(payload),
            },
        )
    }
}

/// The typed application message: a client timestamp, echoed back for
/// latency measurement, and a UTF-8 command text.
#[derive(Debug)]
pub struct MessagePacket {
    pub time: u128,
    pub msg: String,
}

/// The payload a message serializes to: sixteen timestamp bytes, then
/// the UTF-8 bytes of the text.
pub open spec fn message_payload(time: u128, text: Seq<char>) -> Seq<u8> {
    le_bytes(time as int, 16) + encode_utf8(text)
}

impl MessagePacket {
    pub fn new(time: u128, msg: &str) -> (r: Self)
        ensures
            r.time == time,
            r.msg@ == msg@,
    {
        MessagePacket { time, msg: msg.to_owned() }
    }

    /// Serializes the message into a packet with the message tag.
    pub fn as_raw(&self) -> (r: RawPacket)
        requires
            19 + encode_utf8(self.msg@).len() <= u16::MAX,
        ensures
            r.wf(),
            r.spec_tag() == 1,
            r.payload() == message_payload(self.time, self.msg@),
    {
        let mut out = u128_to_le(self.time, 16);
        let text = self.msg.as_str().as_bytes();
        let mut i: usize = 0;
        proof {
            assert(out@ + text@.take(0) =~= out@);
            assert(le_bytes(self.time as int, 16).len() == 16) by {
                assert(pow256(16) == 0x1_0000_0000_0000_0000_0000_0000_0000_0000) by {
                    reveal_with_fuel(pow256, 17);
                }
                lemma_le_round_trip(self.time as int, 16);
            }
        }
        let ghost time_bytes = out@;
        while i < text.len()
            invariant
                i <= text@.len(),
                out@ == time_bytes + text@.take(i as int),
            decreases text@.len() - i,
        {
            out.push(text[i]);
            proof {
                assert(text@.take(i + 1) =~= text@.take(i as int).push(text@[i as int]));
                assert(out@ =~= time_bytes + text@.take(i + 1));
            }
            i = i + 1;
        }
        proof {
            assert(text@.take(text@.len() as int) =~= text@);
            assert(out@ == message_payload(self.time, self.msg@));
        }
        RawPacket::new(PacketType::message(), out.as_slice())
    }

    /// Decodes a message from a packet payload.  Fails with
    /// [`DecodeError::TruncatedFrame`] when the payload cannot cover
    /// the timestamp; the remaining bytes are taken as text, with
    /// invalid UTF-8 tolerated rather than rejected.
    pub fn from_raw(raw: RawPacket) -> (r: Result<Self, DecodeError>)
        ensures
            r is Ok <==> raw.payload().len() >= 16,
            r matches Ok(m) ==> {
                &&& m.time as int == le_val(raw.payload().take(16))
                &&& m.msg@ == lossy_chars(raw.payload().skip(16))
                &&& (valid_utf8(raw.payload().skip(16)) ==> m.msg@ == decode_utf8(
                    raw.payload().skip(16),
                ))
            },
            r matches Err(e) ==> e == DecodeError::TruncatedFrame,
    {
        let payload = raw.data();
        if payload.len() < 16 {
            return Err(DecodeError::TruncatedFrame);
        }
        let time_bytes = vstd::slice::slice_subrange(payload, 0, 16);
        proof {
            assert(time_bytes@ =~= raw.payload().take(16));
        }
        let time = u128_from_le(time_bytes);
        let text_bytes = vstd::slice::slice_subrange(payload, 16, payload.len());
        proof {
            assert(text_bytes@ =~= raw.payload().skip(16));
        }
        let msg = lossy_string(text_bytes);
        Ok(MessagePacket { time, msg })
    }
}

/// Round-trip law, wire level: the bytes of a well-formed packet
/// decode again, and declare, carry and tag exactly what was encoded.
pub proof fn lemma_packet_round_trip(tag: u8, payload: Seq<u8>)
    requires
        payload.len() + header_size() <= u16::MAX,
    ensures
        ({
            let size = (header_size() + payload.len()) as u16;
            let b = packet_bytes(size, tag, payload);
            &&& packet_decodes(b)
            &&& spec_u16_from_le_bytes(b.take(2)) == size
            &&& b[2] == tag
            &&& b.subrange(header_size(), size as int) == payload
        }),
{
    let size = (header_size() + payload.len()) as u16;
    let b = packet_bytes(size, tag, payload);
    vstd::bytes::lemma_auto_spec_u16_to_from_le_bytes();
    assert(b.take(2) =~= spec_u16_to_le_bytes(size));
    assert(b[2] == tag);
    assert(b.subrange(header_size(), size as int) =~= payload);
}

/// Round-trip law: serializing a message and decoding the resulting
/// payload yields the original timestamp and text, and the text bytes
/// of an encoded message are always valid UTF-8.
pub proof fn lemma_message_round_trip(time: u128, text: Seq<char>)
    ensures
        le_val(message_payload(time, text).take(16)) == time,
        valid_utf8(message_payload(time, text).skip(16)),
        decode_utf8(message_payload(time, text).skip(16)) == text,
{
    assert(pow256(16) == 0x1_0000_0000_0000_0000_0000_0000_0000_0000) by {
        reveal_with_fuel(pow256, 17);
    }
    lemma_le_round_trip(time as int, 16);
    let payload = message_payload(time, text);
    assert(payload.take(16) =~= le_bytes(time as int, 16));
    assert(payload.skip(16) =~= encode_utf8(text));
    vstd::utf8::encode_utf8_valid_utf8(text);
    vstd::utf8::encode_utf8_decode_utf8(text);
}

} // verus!
