use vstd::prelude::*;

use crate::error::DnsError;
use crate::wire::{be16_bytes, lemma_be16_round_trip, read16, read_u16};

verus! {

/// The fixed twelve-byte header that opens every DNS message.
#[derive(Debug, Clone, Copy, PartialEq, Eq, Structural)]
pub struct DnsHeader {
    pub id: u16,
    pub flags: u16,
    pub question_count: u16,
    pub answer_count: u16,
    pub authority_count: u16,
    pub additional_count: u16,
}

/// The control and status bits of a header, one field each.
#[derive(Debug, Clone, Copy, PartialEq, Eq, Structural)]
pub struct DnsFlags {
    /// false for a query, true for a response
    pub qr: bool,
    /// operation code, 4 bits (0 = standard query)
    pub opcode: u8,
    /// authoritative answer
    pub aa: bool,
    /// truncation
    pub tc: bool,
    /// recursion desired
    pub rd: bool,
    /// recursion available
    pub ra: bool,
    /// reserved, 3 bits
    pub z: u8,
    /// response code, 4 bits (0 = no error, 4 = not implemented)
    pub rcode: u8,
}

/// The fields that the bits of `x` hold, from the most significant bit down:
/// QR(1) OPCODE(4) AA(1) TC(1) RD(1) RA(1) Z(3) RCODE(4).
pub open spec fn flags_of(x: u16) -> DnsFlags {
    DnsFlags {
        qr: x & 0x8000 != 0,
        opcode: ((x >> 11) & 0xF) as u8,
        aa: x & 0x0400 != 0,
        tc: x & 0x0200 != 0,
        rd: x & 0x0100 != 0,
        ra: x & 0x0080 != 0,
        z: ((x >> 4) & 0x7) as u8,
        rcode: (x & 0xF) as u8,
    }
}

/// The flags word that packs `f`, each field cut to its width.
pub open spec fn flags_word(f: DnsFlags) -> u16 {
    ((if f.qr { 1u16 } else { 0u16 }) << 15u16) | (((f.opcode as u16) & 0xFu16) << 11u16) | ((
    if f.aa { 1u16 } else { 0u16 }) << 10u16) | ((if f.tc { 1u16 } else { 0u16 }) << 9u16) | ((
    if f.rd { 1u16 } else { 0u16 }) << 8u16) | ((if f.ra { 1u16 } else { 0u16 }) << 7u16) | (((
    f.z as u16) & 0x7u16) << 4u16) | ((f.rcode as u16) & 0xFu16)
}

impl DnsFlags {
    /// Each field fits the width that the header gives it.
    pub open spec fn valid(self) -> bool {
        self.opcode < 16 && self.z < 8 && self.rcode < 16
    }

    /// The fields cut to the widths that the header gives them.
    pub open spec fn truncated(self) -> DnsFlags {
        DnsFlags {
            opcode: (self.opcode & 0xF) as u8,
            z: (self.z & 0x7) as u8,
            rcode: (self.rcode & 0xF) as u8,
            ..self
        }
    }

    /// Packs the fields into the header's flags word.
    pub fn to_u16(&self) -> (r: u16)
        ensures
            r == flags_word(*self),
            flags_of(r) == self.truncated(),
    {
        let qr: u16 = if self.qr { 1 } else { 0 };
        let aa: u16 = if self.aa { 1 } else { 0 };
        let tc: u16 = if self.tc { 1 } else { 0 };
        let rd: u16 = if self.rd { 1 } else { 0 };
        let ra: u16 = if self.ra { 1 } else { 0 };
        let r: u16 = (qr << 15) | (((self.opcode as u16) & 0xF) << 11) | (aa << 10) | (tc << 9)
            | (rd << 8) | (ra << 7) | (((self.z as u16) & 0x7) << 4) | ((self.rcode as u16) & 0xF);
        proof {
            lemma_flags_word_fields(*self);
        }
        r
    }

    /// Unpacks the header's flags word into its fields.
    pub fn from_u16(flags: u16) -> (r: Self)
        ensures
            r == flags_of(flags),
    {
        DnsFlags {
            qr: (flags & 0x8000) != 0,
            opcode: ((flags >> 11) & 0xF) as u8,
            aa: (flags & 0x0400) != 0,
            tc: (flags & 0x0200) != 0,
            rd: (flags & 0x0100) != 0,
            ra: (flags & 0x0080) != 0,
            z: ((flags >> 4) & 0x7) as u8,
            rcode: (flags & 0xF) as u8,
        }
    }
}

/// The header that the first twelve bytes of `b` encode.
pub open spec fn header_at(b: Seq<u8>) -> DnsHeader {
    DnsHeader {
        id: read16(b, 0),
        flags: read16(b, 2),
        question_count: read16(b, 4),
        answer_count: read16(b, 6),
        authority_count: read16(b, 8),
        additional_count: read16(b, 10),
    }
}

/// The twelve bytes that encode `h`: its six fields in order, each in network order.
pub open spec fn header_bytes(h: DnsHeader) -> Seq<u8> {
    be16_bytes(h.id) + be16_bytes(h.flags) + be16_bytes(h.question_count) + be16_bytes(
        h.answer_count,
    ) + be16_bytes(h.authority_count) + be16_bytes(h.additional_count)
}

impl DnsHeader {
    /// Decodes the header at the start of `bytes`.
    pub fn from_bytes(bytes: &[u8]) -> (r: Result<Self, DnsError>)
        ensures
            bytes@.len() < 12 <==> r == Err::<Self, DnsError>(DnsError::TruncatedBuffer),
            bytes@.len() >= 12 ==> r == Ok::<Self, DnsError>(header_at(bytes@)),
    {
        if bytes.len() < 12 {
            return Err(DnsError::TruncatedBuffer);
        }
        Ok(DnsHeader {
            id: read_u16(bytes, 0),
            flags: read_u16(bytes, 2),
            question_count: read_u16(bytes, 4),
            answer_count: read_u16(bytes, 6),
            authority_count: read_u16(bytes, 8),
            additional_count: read_u16(bytes, 10),
        })
    }

    /// Encodes the header as twelve bytes.
    pub fn to_bytes(&self) -> (r: [u8; 12])
        ensures
            r@ == header_bytes(*self),
    {
        let r = [
            (self.id / 256) as u8,
            (self.id % 256) as u8,
            (self.flags / 256) as u8,
            (self.flags % 256) as u8,
            (self.question_count / 256) as u8,
            (self.question_count % 256) as u8,
            (self.answer_count / 256) as u8,
            (self.answer_count % 256) as u8,
            (self.authority_count / 256) as u8,
            (self.authority_count % 256) as u8,
            (self.additional_count / 256) as u8,
            (self.additional_count % 256) as u8,
        ];
        assert(r@ =~= header_bytes(*self));
        r
    }
}

/// Decoding the encoding of a header gives the header back.
pub proof fn lemma_header_round_trip(h: DnsHeader)
    ensures
        header_bytes(h).len() == 12,
        header_at(header_bytes(h)) == h,
{
    lemma_be16_round_trip(h.id);
    lemma_be16_round_trip(h.flags);
    lemma_be16_round_trip(h.question_count);
    lemma_be16_round_trip(h.answer_count);
    lemma_be16_round_trip(h.authority_count);
    lemma_be16_round_trip(h.additional_count);
    let b = header_bytes(h);
    assert(b.subrange(0, 2) =~= be16_bytes(h.id));
    assert(read16(b, 0) == read16(be16_bytes(h.id), 0));
    assert(read16(b, 2) == read16(be16_bytes(h.flags), 0));
    assert(read16(b, 4) == read16(be16_bytes(h.question_count), 0));
    assert(read16(b, 6) == read16(be16_bytes(h.answer_count), 0));
    assert(read16(b, 8) == read16(be16_bytes(h.authority_count), 0));
    assert(read16(b, 10) == read16(be16_bytes(h.additional_count), 0));
}

/// Unpacking the packed fields gives them back, cut to their widths.
proof fn lemma_flags_word_fields(f: DnsFlags)
    ensures
        flags_of(flags_word(f)) == f.truncated(),
{
    let qr: u16 = if f.qr { 1 } else { 0 };
    let aa: u16 = if f.aa { 1 } else { 0 };
    let tc: u16 = if f.tc { 1 } else { 0 };
    let rd: u16 = if f.rd { 1 } else { 0 };
    let ra: u16 = if f.ra { 1 } else { 0 };
    let (so, sz, sr) = (f.opcode, f.z, f.rcode);
    let opcode = so as u16;
    let z = sz as u16;
    let rcode = sr as u16;
    let r = flags_word(f);
    assert(r == (qr << 15) | ((opcode & 0xF) << 11) | (aa << 10) | (tc << 9) | (rd << 8) | (ra
        << 7) | ((z & 0x7) << 4) | (rcode & 0xF));
    assert(
        (r & 0x8000 != 0) == (qr == 1)
        && (r >> 11) & 0xF == opcode & 0xF
        && (r & 0x0400 != 0) == (aa == 1)
        && (r & 0x0200 != 0) == (tc == 1)
        && (r & 0x0100 != 0) == (rd == 1)
        && (r & 0x0080 != 0) == (ra == 1)
        && (r >> 4) & 0x7 == z & 0x7
        && r & 0xF == rcode & 0xF
    ) by (bit_vector)
        requires
            qr <= 1 && aa <= 1 && tc <= 1 && rd <= 1 && ra <= 1,
            r == (qr << 15) | ((opcode & 0xF) << 11) | (aa << 10) | (tc << 9) | (rd << 8)
                | (ra << 7) | ((z & 0x7) << 4) | (rcode & 0xF),
    ;
    assert(opcode & 0xF == (so & 0xF) as u16) by (bit_vector)
        requires opcode == so as u16;
    assert(z & 0x7 == (sz & 0x7) as u16) by (bit_vector)
        requires z == sz as u16;
    assert(rcode & 0xF == (sr & 0xF) as u16) by (bit_vector)
        requires rcode == sr as u16;
}

proof fn lemma_fields_fit(f: DnsFlags)
    requires
        f.valid(),
    ensures
        f.truncated() == f,
{
    let (o, z, r) = (f.opcode, f.z, f.rcode);
    assert(o & 0xF == o) by (bit_vector) requires o < 16;
    assert(z & 0x7 == z) by (bit_vector) requires z < 8;
    assert(r & 0xF == r) by (bit_vector) requires r < 16;
}

/// Unpacking a flags word and packing it again gives the same word; packing valid
/// fields and unpacking them gives the same fields, reserved bits included.
pub proof fn lemma_flags_round_trip(x: u16, f: DnsFlags)
    ensures
        flags_of(x).valid(),
        flags_word(flags_of(x)) == x,
        f.valid() ==> flags_of(flags_word(f)) == f,
{
    lemma_flags_of_injective(x);
    lemma_flags_word_fields(flags_of(x));
    lemma_flags_word_fields(f);
    if f.valid() {
        lemma_fields_fit(f);
    }
}

/// The fields of a flags word are valid, and they determine the word.
proof fn lemma_flags_of_injective(x: u16)
    ensures
        flags_of(x).valid(),
        flags_of(x).truncated() == flags_of(x),
        forall|y: u16| #[trigger] flags_of(y) == flags_of(x) ==> y == x,
{
    assert(((x >> 11) & 0xF) < 16 && ((x >> 4) & 0x7) < 8 && (x & 0xF) < 16) by (bit_vector);
    let fx = flags_of(x);
    lemma_fields_fit(fx);
    assert forall|y: u16| #[trigger] flags_of(y) == flags_of(x) implies y == x by {
        let fy = flags_of(y);
        assert(fy.opcode == fx.opcode && fy.z == fx.z && fy.rcode == fx.rcode);
        assert(((y >> 11) & 0xF) == ((x >> 11) & 0xF)) by {
            assert(((y >> 11) & 0xF) < 16 && ((x >> 11) & 0xF) < 16) by (bit_vector);
        }
        assert(((y >> 4) & 0x7) == ((x >> 4) & 0x7)) by {
            assert(((y >> 4) & 0x7) < 8 && ((x >> 4) & 0x7) < 8) by (bit_vector);
        }
        assert((y & 0xF) == (x & 0xF)) by {
            assert((y & 0xF) < 16 && (x & 0xF) < 16) by (bit_vector);
        }
        assert(y == x) by (bit_vector)
            requires
                (y & 0x8000 != 0) == (x & 0x8000 != 0),
                ((y >> 11) & 0xF) == ((x >> 11) & 0xF),
                (y & 0x0400 != 0) == (x & 0x0400 != 0),
                (y & 0x0200 != 0) == (x & 0x0200 != 0),
                (y & 0x0100 != 0) == (x & 0x0100 != 0),
                (y & 0x0080 != 0) == (x & 0x0080 != 0),
                ((y >> 4) & 0x7) == ((x >> 4) & 0x7),
                (y & 0xF) == (x & 0xF),
        ;
    }
}

} // verus!
