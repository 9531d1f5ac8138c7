use vstd::prelude::*;

use crate::domain_name::{
    decoded_name, encodable, is_domain_name, lemma_name_prefix, lemma_truncated_name, name_wire,
};
use crate::error::DnsError;
use crate::wire::{
    be16_bytes, be32_bytes, lemma_be16_round_trip, lemma_be32_round_trip, push_bytes, push_u16,
    push_u32, read16, read32, read_u16, read_u32,
};

pub use crate::domain_name::{encode_domain_name, parse_domain_name};

verus! {

/// A question: the name asked about, the record type and the class.
#[derive(Debug, Clone)]
pub struct DnsQuestion {
    pub name: String,
    pub qtype: u16,
    pub qclass: u16,
}

/// A resource record: name, type, class, time to live and opaque data.
#[derive(Debug, Clone)]
pub struct DnsAnswer {
    pub name: String,
    pub rtype: u16,
    pub rclass: u16,
    pub ttl: u32,
    pub rdlength: u16,
    pub rdata: Vec<u8>,
}

/// A question as plain values.
pub struct QuestionModel {
    pub name: Seq<char>,
    pub qtype: u16,
    pub qclass: u16,
}

/// A resource record as plain values.
pub struct AnswerModel {
    pub name: Seq<char>,
    pub rtype: u16,
    pub rclass: u16,
    pub ttl: u32,
    pub rdlength: u16,
    pub rdata: Seq<u8>,
}

impl View for DnsQuestion {
    type V = QuestionModel;

    open spec fn view(&self) -> QuestionModel {
        QuestionModel { name: self.name@, qtype: self.qtype, qclass: self.qclass }
    }
}

impl View for DnsAnswer {
    type V = AnswerModel;

    open spec fn view(&self) -> AnswerModel {
        AnswerModel {
            name: self.name@,
            rtype: self.rtype,
            rclass: self.rclass,
            ttl: self.ttl,
            rdlength: self.rdlength,
            rdata: self.rdata@,
        }
    }
}

/// The record types in common use.
#[derive(Debug, Clone, Copy, PartialEq, Eq, Structural)]
pub enum RecordType {
    A,
    NS,
    CNAME,
    SOA,
    PTR,
    MX,
    TXT,
    AAAA,
    OPT,
}

/// The record classes.
#[derive(Debug, Clone, Copy, PartialEq, Eq, Structural)]
pub enum RecordClass {
    IN,
    CS,
    CH,
    HS,
}

impl RecordType {
    /// The code of the type on the wire.
    pub open spec fn code(self) -> u16 {
        match self {
            RecordType::A => 1,
            RecordType::NS => 2,
            RecordType::CNAME => 5,
            RecordType::SOA => 6,
            RecordType::PTR => 12,
            RecordType::MX => 15,
            RecordType::TXT => 16,
            RecordType::AAAA => 28,
            RecordType::OPT => 41,
        }
    }

    /// The type with wire code `value`, if it has a name here.
    pub fn from_u16(value: u16) -> (r: Option<Self>)
        ensures
            r matches Some(t) ==> t.code() == value,
            r is None <==> !(value == 1 || value == 2 || value == 5 || value == 6 || value == 12
                || value == 15 || value == 16 || value == 28 || value == 41),
    {
        match value {
            1 => Some(RecordType::A),
            2 => Some(RecordType::NS),
            5 => Some(RecordType::CNAME),
            6 => Some(RecordType::SOA),
            12 => Some(RecordType::PTR),
            15 => Some(RecordType::MX),
            16 => Some(RecordType::TXT),
            28 => Some(RecordType::AAAA),
            41 => Some(RecordType::OPT),
            _ => None,
        }
    }

    /// The wire code of the type.
    pub fn to_u16(self) -> (r: u16)
        ensures
            r == self.code(),
    {
        match self {
            RecordType::A => 1,
            RecordType::NS => 2,
            RecordType::CNAME => 5,
            RecordType::SOA => 6,
            RecordType::PTR => 12,
            RecordType::MX => 15,
            RecordType::TXT => 16,
            RecordType::AAAA => 28,
            RecordType::OPT => 41,
        }
    }
}

impl RecordClass {
    /// The code of the class on the wire.
    pub open spec fn code(self) -> u16 {
        match self {
            RecordClass::IN => 1,
            RecordClass::CS => 2,
            RecordClass::CH => 3,
            RecordClass::HS => 4,
        }
    }

    /// The class with wire code `value`, if it has a name here.
    pub fn from_u16(value: u16) -> (r: Option<Self>)
        ensures
            r matches Some(c) ==> c.code() == value,
            r is None <==> !(1 <= value <= 4),
    {
        match value {
            1 => Some(RecordClass::IN),
            2 => Some(RecordClass::CS),
            3 => Some(RecordClass::CH),
            4 => Some(RecordClass::HS),
            _ => None,
        }
    }

    /// The wire code of the class.
    pub fn to_u16(self) -> (r: u16)
        ensures
            r == self.code(),
    {
        match self {
            RecordClass::IN => 1,
            RecordClass::CS => 2,
            RecordClass::CH => 3,
            RecordClass::HS => 4,
        }
    }
}

/// The question at `pos` of `b`, and the offset just past it.
pub open spec fn question_at(b: Seq<u8>, pos: int) -> Result<(QuestionModel, int), DnsError> {
    match decoded_name(b, pos) {
        Err(e) => Err(e),
        Ok((name, next)) => if next + 4 > b.len() {
            Err(DnsError::TruncatedQuestion)
        } else {
            Ok((QuestionModel { name, qtype: read16(b, next), qclass: read16(b, next + 2) }, next + 4))
        },
    }
}

/// The resource record at `pos` of `b`, and the offset just past it.
pub open spec fn answer_at(b: Seq<u8>, pos: int) -> Result<(AnswerModel, int), DnsError> {
    match decoded_name(b, pos) {
        Err(e) => Err(e),
        Ok((name, next)) => if next + 10 > b.len() {
            Err(DnsError::TruncatedAnswerFields)
        } else if next + 10 + read16(b, next + 8) > b.len() {
            Err(DnsError::TruncatedRdata)
        } else {
            let len = read16(b, next + 8);
            Ok(
                (
                    AnswerModel {
                        name,
                        rtype: read16(b, next),
                        rclass: read16(b, next + 2),
                        ttl: read32(b, next + 4),
                        rdlength: len,
                        rdata: b.subrange(next + 10, next + 10 + len),
                    },
                    next + 10 + len,
                ),
            )
        },
    }
}

/// The wire form of a question.
pub open spec fn question_wire(q: QuestionModel) -> Seq<u8> {
    name_wire(q.name) + be16_bytes(q.qtype) + be16_bytes(q.qclass)
}

/// The wire form of a resource record, with the length it declares for its data.
pub open spec fn answer_wire(a: AnswerModel) -> Seq<u8> {
    name_wire(a.name) + be16_bytes(a.rtype) + be16_bytes(a.rclass) + be32_bytes(a.ttl)
        + be16_bytes(a.rdlength) + a.rdata
}

impl DnsQuestion {
    /// Decodes the question at `offset` of `bytes`; gives it with the offset just past it.
    pub fn from_bytes(bytes: &[u8], offset: usize) -> (r: Result<(Self, usize), DnsError>)
        ensures
            question_at(bytes@, offset as int) is Err ==> r == Err::<(Self, usize), DnsError>(
                question_at(bytes@, offset as int)->Err_0,
            ),
            question_at(bytes@, offset as int) is Ok ==> r is Ok && r->Ok_0.0@ == question_at(
                bytes@,
                offset as int,
            )->Ok_0.0 && r->Ok_0.1 == question_at(bytes@, offset as int)->Ok_0.1,
    {
        let (name, new_offset) = parse_domain_name(bytes, offset)?;
        if bytes.len() < 4 || new_offset > bytes.len() - 4 {
            return Err(DnsError::TruncatedQuestion);
        }
        let qtype = read_u16(bytes, new_offset);
        let qclass = read_u16(bytes, new_offset + 2);
        Ok((DnsQuestion { name, qtype, qclass }, new_offset + 4))
    }

    /// Encodes the question.
    pub fn to_bytes(&self) -> (r: Vec<u8>)
        requires
            encodable(self.name@),
        ensures
            r@ == question_wire(self@),
    {
        let mut bytes = encode_domain_name(self.name.as_str());
        push_u16(&mut bytes, self.qtype);
        push_u16(&mut bytes, self.qclass);
        bytes
    }
}

impl DnsAnswer {
    /// Decodes the resource record at `offset` of `bytes`; gives it with the offset just
    /// past it.
    pub fn from_bytes(bytes: &[u8], offset: usize) -> (r: Result<(Self, usize), DnsError>)
        ensures
            answer_at(bytes@, offset as int) is Err ==> r == Err::<(Self, usize), DnsError>(
                answer_at(bytes@, offset as int)->Err_0,
            ),
            answer_at(bytes@, offset as int) is Ok ==> r is Ok && r->Ok_0.0@ == answer_at(
                bytes@,
                offset as int,
            )->Ok_0.0 && r->Ok_0.1 == answer_at(bytes@, offset as int)->Ok_0.1,
            r matches Ok((a, _)) ==> a.rdlength == a.rdata@.len(),
    {
        let (name, new_offset) = parse_domain_name(bytes, offset)?;
        if bytes.len() < 10 || new_offset > bytes.len() - 10 {
            return Err(DnsError::TruncatedAnswerFields);
        }
        let rtype = read_u16(bytes, new_offset);
        let rclass = read_u16(bytes, new_offset + 2);
        let ttl = read_u32(bytes, new_offset + 4);
        let rdlength = read_u16(bytes, new_offset + 8);
        let data_offset = new_offset + 10;
        if rdlength as usize > bytes.len() - data_offset {
            return Err(DnsError::TruncatedRdata);
        }
        let end = data_offset + rdlength as usize;
        let mut rdata: Vec<u8> = Vec::new();
        push_bytes(&mut rdata, &bytes[data_offset..end]);
        assert(rdata@ =~= bytes@.subrange(data_offset as int, end as int));
        Ok((DnsAnswer { name, rtype, rclass, ttl, rdlength, rdata }, end))
    }

    /// Encodes the resource record, declaring its stored data length.
    pub fn to_bytes(&self) -> (r: Vec<u8>)
        requires
            encodable(self.name@),
        ensures
            r@ == answer_wire(self@),
    {
        let mut bytes = encode_domain_name(self.name.as_str());
        push_u16(&mut bytes, self.rtype);
        push_u16(&mut bytes, self.rclass);
        push_u32(&mut bytes, self.ttl);
        push_u16(&mut bytes, self.rdlength);
        push_bytes(&mut bytes, self.rdata.as_slice());
        bytes
    }

    /// A record whose data length is that of `rdata`.
    pub fn new(name: String, rtype: u16, rclass: u16, ttl: u32, rdata: Vec<u8>) -> (r: Self)
        requires
            rdata@.len() <= u16::MAX,
        ensures
            r@ == (AnswerModel {
                name: name@,
                rtype,
                rclass,
                ttl,
                rdlength: rdata@.len() as u16,
                rdata: rdata@,
            }),
    {
        let rdlength = rdata.len() as u16;
        DnsAnswer { name, rtype, rclass, ttl, rdlength, rdata }
    }

    /// An IPv4 address record of class IN.
    pub fn new_a_record(name: String, ttl: u32, ip: [u8; 4]) -> (r: Self)
        ensures
            r@ == (AnswerModel {
                name: name@,
                rtype: RecordType::A.code(),
                rclass: RecordClass::IN.code(),
                ttl,
                rdlength: 4,
                rdata: ip@,
            }),
    {
        let rdata = vec![ip[0], ip[1], ip[2], ip[3]];
        assert(rdata@ =~= ip@);
        Self::new(name, RecordType::A.to_u16(), RecordClass::IN.to_u16(), ttl, rdata)
    }

    /// An IPv6 address record of class IN.
    pub fn new_aaaa_record(name: String, ttl: u32, ip: [u8; 16]) -> (r: Self)
        ensures
            r@ == (AnswerModel {
                name: name@,
                rtype: RecordType::AAAA.code(),
                rclass: RecordClass::IN.code(),
                ttl,
                rdlength: 16,
                rdata: ip@,
            }),
    {
        let mut rdata: Vec<u8> = Vec::new();
        push_bytes(&mut rdata, ip.as_slice());
        Self::new(name, RecordType::AAAA.to_u16(), RecordClass::IN.to_u16(), ttl, rdata)
    }
}

/// The error kinds that say the buffer ended too early.
pub open spec fn is_truncation(e: DnsError) -> bool {
    ||| e == DnsError::TruncatedBuffer
    ||| e == DnsError::OffsetOutOfBounds
    ||| e == DnsError::TruncatedName
    ||| e == DnsError::TruncatedQuestion
    ||| e == DnsError::TruncatedAnswerFields
    ||| e == DnsError::TruncatedRdata
}

/// A record whose name is a domain name and whose declared length is that of its data.
pub open spec fn answer_valid(a: AnswerModel) -> bool {
    is_domain_name(a.name) && a.rdlength == a.rdata.len()
}

proof fn lemma_answer_layout(a: AnswerModel, b: Seq<u8>)
    requires
        answer_valid(a),
        name_wire(a.name).len() as int + 10 <= b.len(),
        b.subrange(0, name_wire(a.name).len() as int + 10) == answer_wire(a).subrange(
            0,
            name_wire(a.name).len() as int + 10,
        ),
    ensures
        decoded_name(b, 0) == Ok::<(Seq<char>, int), DnsError>(
            (a.name, name_wire(a.name).len() as int),
        ),
        read16(b, name_wire(a.name).len() as int) == a.rtype,
        read16(b, name_wire(a.name).len() as int + 2) == a.rclass,
        read32(b, name_wire(a.name).len() as int + 4) == a.ttl,
        read16(b, name_wire(a.name).len() as int + 8) == a.rdlength,
{
    let nw = name_wire(a.name);
    let n = nw.len() as int;
    let w = answer_wire(a);
    let f = be16_bytes(a.rtype) + be16_bytes(a.rclass) + be32_bytes(a.ttl) + be16_bytes(a.rdlength);
    lemma_be16_round_trip(a.rtype);
    lemma_be16_round_trip(a.rclass);
    lemma_be32_round_trip(a.ttl);
    lemma_be16_round_trip(a.rdlength);
    assert(w =~= nw + f + a.rdata);
    assert forall|k: int| 0 <= k < n + 10 implies b[k] == w[k] by {
        assert(b[k] == b.subrange(0, n + 10)[k]);
    }
    assert(b.subrange(0, n) =~= nw);
    lemma_name_prefix(a.name, b);
    assert(read16(b, n) == read16(be16_bytes(a.rtype), 0));
    assert(read16(b, n + 2) == read16(be16_bytes(a.rclass), 0));
    assert(read32(b, n + 4) == read32(be32_bytes(a.ttl), 0));
    assert(read16(b, n + 8) == read16(be16_bytes(a.rdlength), 0));
}

/// Decoding the wire form of a valid record gives the record back, and the offset just
/// past its encoding.
pub proof fn lemma_answer_round_trip(a: AnswerModel)
    requires
        answer_valid(a),
    ensures
        answer_at(answer_wire(a), 0) == Ok::<(AnswerModel, int), DnsError>(
            (a, answer_wire(a).len() as int),
        ),
{
    let w = answer_wire(a);
    let n = name_wire(a.name).len() as int;
    assert(w.subrange(0, n + 10) =~= w.subrange(0, n + 10));
    lemma_answer_layout(a, w);
    let r = answer_at(w, 0)->Ok_0.0;
    assert(w.subrange(n + 10, n + 10 + a.rdlength) =~= a.rdata);
    assert(r == a);
}

/// A valid record cut short anywhere fails to decode with a truncation error: within the
/// name, within the fixed fields, or within the data.
pub proof fn lemma_truncated_answer(a: AnswerModel, t: int)
    requires
        answer_valid(a),
        0 <= t < answer_wire(a).len(),
    ensures
        answer_at(answer_wire(a).subrange(0, t), 0) is Err,
        is_truncation(answer_at(answer_wire(a).subrange(0, t), 0)->Err_0),
        name_wire(a.name).len() <= t < name_wire(a.name).len() + 10 ==> answer_at(
            answer_wire(a).subrange(0, t),
            0,
        ) == Err::<(AnswerModel, int), DnsError>(DnsError::TruncatedAnswerFields),
        name_wire(a.name).len() + 10 <= t ==> answer_at(answer_wire(a).subrange(0, t), 0) == Err::<
            (AnswerModel, int),
            DnsError,
        >(DnsError::TruncatedRdata),
{
    let w = answer_wire(a);
    let nw = name_wire(a.name);
    let n = nw.len() as int;
    let b = w.subrange(0, t);
    assert(w =~= nw + (be16_bytes(a.rtype) + be16_bytes(a.rclass) + be32_bytes(a.ttl)
        + be16_bytes(a.rdlength) + a.rdata));
    if t < n {
        assert(b =~= nw.subrange(0, t));
        lemma_truncated_name(a.name, b);
    } else if t < n + 10 {
        assert(b.subrange(0, n) =~= nw);
        lemma_name_prefix(a.name, b);
    } else {
        assert(b.subrange(0, n + 10) =~= w.subrange(0, n + 10));
        lemma_answer_layout(a, b);
    }
}

/// Decoding the wire form of a question whose name is a domain name gives the question
/// back, and the offset just past its encoding.
pub proof fn lemma_question_round_trip(q: QuestionModel)
    requires
        is_domain_name(q.name),
    ensures
        question_at(question_wire(q), 0) == Ok::<(QuestionModel, int), DnsError>(
            (q, question_wire(q).len() as int),
        ),
{
    let w = question_wire(q);
    let nw = name_wire(q.name);
    let n = nw.len() as int;
    lemma_be16_round_trip(q.qtype);
    lemma_be16_round_trip(q.qclass);
    assert(w.subrange(0, n) =~= nw);
    lemma_name_prefix(q.name, w);
    assert(read16(w, n) == read16(be16_bytes(q.qtype), 0));
    assert(read16(w, n + 2) == read16(be16_bytes(q.qclass), 0));
}

/// A question cut short anywhere fails to decode with a truncation error.
pub proof fn lemma_truncated_question(q: QuestionModel, t: int)
    requires
        is_domain_name(q.name),
        0 <= t < question_wire(q).len(),
    ensures
        question_at(question_wire(q).subrange(0, t), 0) is Err,
        is_truncation(question_at(question_wire(q).subrange(0, t), 0)->Err_0),
        name_wire(q.name).len() <= t ==> question_at(question_wire(q).subrange(0, t), 0) == Err::<
            (QuestionModel, int),
            DnsError,
        >(DnsError::TruncatedQuestion),
{
    let w = question_wire(q);
    let nw = name_wire(q.name);
    let n = nw.len() as int;
    let b = w.subrange(0, t);
    if t < n {
        assert(b =~= nw.subrange(0, t));
        lemma_truncated_name(q.name, b);
    } else {
        assert(b.subrange(0, n) =~= nw);
        lemma_name_prefix(q.name, b);
    }
}

} // verus!
