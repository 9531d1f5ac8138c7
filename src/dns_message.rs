use vstd::prelude::*;

use crate::dns_header::{flags_of, flags_word, header_at, header_bytes, DnsFlags, DnsHeader};
use crate::dns_question_and_answer::{
    answer_wire, question_at, question_wire, AnswerModel, DnsAnswer, DnsQuestion, QuestionModel,
};
use crate::domain_name::{encodable, try_encode_domain_name};
use crate::error::DnsError;
use crate::wire::push_bytes;

verus! {

/// The questions of a sequence as plain values.
pub open spec fn question_models(qs: Seq<DnsQuestion>) -> Seq<QuestionModel> {
    qs.map_values(|q: DnsQuestion| q@)
}

/// The resource records of a sequence as plain values.
pub open spec fn answer_models(rs: Seq<DnsAnswer>) -> Seq<AnswerModel> {
    rs.map_values(|a: DnsAnswer| a@)
}

/// `n` questions read one after another from `pos` of `b`, and the offset past the last.
pub open spec fn questions_from(b: Seq<u8>, pos: int, n: nat) -> Result<
    (Seq<QuestionModel>, int),
    DnsError,
>
    decreases n,
{
    if n == 0 {
        Ok((seq![], pos))
    } else {
        match question_at(b, pos) {
            Err(e) => Err(e),
            Ok((q, next)) => match questions_from(b, next, (n - 1) as nat) {
                Err(e) => Err(e),
                Ok((qs, end)) => Ok((seq![q] + qs, end)),
            },
        }
    }
}

/// The header of the request in `b` and the questions that it declares.
pub open spec fn request_at(b: Seq<u8>) -> Result<(DnsHeader, Seq<QuestionModel>), DnsError> {
    if b.len() < 12 {
        Err(DnsError::TruncatedBuffer)
    } else {
        match questions_from(b, 12, header_at(b).question_count as nat) {
            Err(e) => Err(e),
            Ok((qs, _)) => Ok((header_at(b), qs)),
        }
    }
}

/// The flags of the response to a request with flags `req`: a response that echoes the
/// opcode and the recursion-desired bit, with "no error" for a standard query and "not
/// implemented" for any other opcode.
pub open spec fn response_flags(req: DnsFlags) -> DnsFlags {
    DnsFlags {
        qr: true,
        opcode: req.opcode,
        aa: false,
        tc: false,
        rd: req.rd,
        ra: false,
        z: 0,
        rcode: if req.opcode == 0 { 0 } else { 4 },
    }
}

/// The header of the response to `req` that carries `n` records.
pub open spec fn response_header(req: DnsHeader, n: u16) -> DnsHeader {
    DnsHeader {
        id: req.id,
        flags: flags_word(response_flags(flags_of(req.flags))),
        question_count: req.question_count,
        answer_count: n,
        authority_count: 0,
        additional_count: 0,
    }
}

/// Questions one after another on the wire.
pub open spec fn questions_wire(qs: Seq<QuestionModel>) -> Seq<u8>
    decreases qs.len(),
{
    if qs.len() == 0 {
        seq![]
    } else {
        questions_wire(qs.drop_last()) + question_wire(qs.last())
    }
}

/// Resource records one after another on the wire.
pub open spec fn answers_wire(rs: Seq<AnswerModel>) -> Seq<u8>
    decreases rs.len(),
{
    if rs.len() == 0 {
        seq![]
    } else {
        answers_wire(rs.drop_last()) + answer_wire(rs.last())
    }
}

/// Every question's name can be encoded.
pub open spec fn questions_encodable(qs: Seq<DnsQuestion>) -> bool {
    forall|i: int| 0 <= i < qs.len() ==> encodable(#[trigger] qs[i].name@)
}

/// Every record's name can be encoded.
pub open spec fn answers_encodable(rs: Seq<DnsAnswer>) -> bool {
    forall|i: int| 0 <= i < rs.len() ==> encodable(#[trigger] rs[i].name@)
}

proof fn lemma_questions_from_len(b: Seq<u8>, pos: int, n: nat)
    ensures
        questions_from(b, pos, n) is Ok ==> questions_from(b, pos, n)->Ok_0.0.len() == n,
    decreases n,
{
    if n > 0 {
        match question_at(b, pos) {
            Err(e) => {},
            Ok((q, next)) => {
                lemma_questions_from_len(b, next, (n - 1) as nat);
            },
        }
    }
}

/// A request holds as many questions as its header declares, so they fit a 16-bit count.
pub proof fn lemma_request_questions_fit(b: Seq<u8>)
    ensures
        request_at(b) is Ok ==> request_at(b)->Ok_0.1.len() == request_at(b)->Ok_0.0.question_count,
{
    if b.len() >= 12 {
        lemma_questions_from_len(b, 12, header_at(b).question_count as nat);
    }
}

/// Decodes a request: its header, then the questions that the header declares, in order.
pub fn parse_request(buf: &[u8]) -> (r: Result<(DnsHeader, Vec<DnsQuestion>), DnsError>)
    ensures
        request_at(buf@) is Err ==> r == Err::<(DnsHeader, Vec<DnsQuestion>), DnsError>(
            request_at(buf@)->Err_0,
        ),
        request_at(buf@) is Ok ==> r is Ok && r->Ok_0.0 == request_at(buf@)->Ok_0.0
            && question_models(r->Ok_0.1@) == request_at(buf@)->Ok_0.1,
{
    let header = DnsHeader::from_bytes(buf)?;
    let ghost b = buf@;
    let ghost n = header.question_count as nat;
    let mut questions: Vec<DnsQuestion> = Vec::new();
    let mut offset: usize = 12;
    let mut i: u16 = 0;
    proof {
        assert(question_models(questions@) =~= Seq::<QuestionModel>::empty());
    }
    while i < header.question_count
        invariant
            b == buf@,
            b.len() >= 12,
            header == header_at(b),
            n == header.question_count,
            i <= header.question_count,
            questions_from(b, 12, n) == match questions_from(b, offset as int, (n - i) as nat) {
                Err(e) => Err(e),
                Ok((qs, end)) => Ok((question_models(questions@) + qs, end)),
            },
        decreases header.question_count - i,
    {
        let ghost rest = questions_from(b, offset as int, (n - i) as nat);
        let (question, new_offset) = match DnsQuestion::from_bytes(buf, offset) {
            Ok(v) => v,
            Err(e) => {
                assert(rest == Err::<(Seq<QuestionModel>, int), DnsError>(e));
                assert(request_at(b) == Err::<(DnsHeader, Seq<QuestionModel>), DnsError>(e));
                return Err(e);
            },
        };
        let ghost qm = question@;
        proof {
            let rest2 = questions_from(b, new_offset as int, (n - i - 1) as nat);
            match rest2 {
                Err(e) => {},
                Ok((qs, end)) => {
                    assert(question_models(questions@.push(question)) =~= question_models(
                        questions@,
                    ).push(qm));
                    assert(question_models(questions@) + (seq![qm] + qs) =~= question_models(
                        questions@,
                    ).push(qm) + qs);
                },
            }
        }
        questions.push(question);
        offset = new_offset;
        i += 1;
    }
    proof {
        assert(question_models(questions@) + seq![] =~= question_models(questions@));
    }
    Ok((header, questions))
}

/// The header of the response to `request_header` that carries `answer_count` records.
pub fn create_response_header(request_header: &DnsHeader, answer_count: u16) -> (r: DnsHeader)
    ensures
        r == response_header(*request_header, answer_count),
        r.id == request_header.id,
        flags_of(r.flags) == response_flags(flags_of(request_header.flags)),
        r.question_count == request_header.question_count,
        r.answer_count == answer_count,
        r.authority_count == 0,
        r.additional_count == 0,
{
    let request_flags = DnsFlags::from_u16(request_header.flags);
    let response_flags = DnsFlags {
        qr: true,
        opcode: request_flags.opcode,
        aa: false,
        tc: false,
        rd: request_flags.rd,
        ra: false,
        z: 0,
        rcode: if request_flags.opcode == 0 { 0 } else { 4 },
    };
    let flags = response_flags.to_u16();
    proof {
        crate::dns_header::lemma_flags_round_trip(request_header.flags, response_flags);
        crate::dns_header::lemma_flags_round_trip(flags, response_flags);
        assert(response_flags.valid());
    }
    DnsHeader {
        id: request_header.id,
        flags,
        question_count: request_header.question_count,
        answer_count,
        authority_count: 0,
        additional_count: 0,
    }
}

/// The bytes of a response: the header, each question, then each record, in order and
/// with every name written in full.
pub fn build_response(header: &DnsHeader, questions: &[DnsQuestion], answers: &[DnsAnswer]) -> (r:
    Vec<u8>)
    requires
        questions_encodable(questions@),
        answers_encodable(answers@),
    ensures
        r@ == header_bytes(*header) + questions_wire(question_models(questions@)) + answers_wire(
            answer_models(answers@),
        ),
{
    let mut response: Vec<u8> = Vec::new();
    let hb = header.to_bytes();
    push_bytes(&mut response, hb.as_slice());
    let ghost head = response@;
    let mut i: usize = 0;
    while i < questions.len()
        invariant
            i <= questions@.len(),
            questions_encodable(questions@),
            head == header_bytes(*header),
            response@ == head + questions_wire(question_models(questions@.subrange(0, i as int))),
        decreases questions@.len() - i,
    {
        let qb = questions[i].to_bytes();
        push_bytes(&mut response, qb.as_slice());
        proof {
            let qs = question_models(questions@.subrange(0, i + 1));
            assert(qs.drop_last() =~= question_models(questions@.subrange(0, i as int)));
            assert(qs.last() == questions@[i as int]@);
            assert(response@ =~= head + questions_wire(qs));
        }
        i += 1;
    }
    assert(questions@.subrange(0, i as int) =~= questions@);
    let ghost mid = response@;
    let mut j: usize = 0;
    proof {
        assert(answer_models(answers@.subrange(0, 0)) =~= Seq::<AnswerModel>::empty());
        assert(mid + answers_wire(Seq::<AnswerModel>::empty()) =~= mid);
    }
    while j < answers.len()
        invariant
            j <= answers@.len(),
            answers_encodable(answers@),
            response@ == mid + answers_wire(answer_models(answers@.subrange(0, j as int))),
        decreases answers@.len() - j,
    {
        let ab = answers[j].to_bytes();
        push_bytes(&mut response, ab.as_slice());
        proof {
            let rs = answer_models(answers@.subrange(0, j + 1));
            assert(rs.drop_last() =~= answer_models(answers@.subrange(0, j as int)));
            assert(rs.last() == answers@[j as int]@);
            assert(response@ =~= mid + answers_wire(rs));
        }
        j += 1;
    }
    assert(answers@.subrange(0, j as int) =~= answers@);
    response
}

/// Whether `name` can be encoded.
fn name_fits(name: &String) -> (r: bool)
    ensures
        r == encodable(name@),
{
    try_encode_domain_name(name.as_str()).is_ok()
}

/// The response to a request with header `request_header` and `questions`, carrying
/// `answers`. Fails where the answers are too many for the header to count, or a name
/// holds a label longer than 63 bytes.
pub fn assemble_response(
    request_header: &DnsHeader,
    questions: &[DnsQuestion],
    answers: &[DnsAnswer],
) -> (r: Result<Vec<u8>, DnsError>)
    ensures
        answers@.len() > u16::MAX ==> r == Err::<Vec<u8>, DnsError>(DnsError::TooManyRecords),
        answers@.len() <= u16::MAX && !(questions_encodable(questions@) && answers_encodable(
            answers@,
        )) ==> r == Err::<Vec<u8>, DnsError>(DnsError::LabelTooLong),
        answers@.len() <= u16::MAX && questions_encodable(questions@) && answers_encodable(
            answers@,
        ) ==> (r matches Ok(v) && v@ == header_bytes(
            response_header(*request_header, answers@.len() as u16),
        ) + questions_wire(question_models(questions@)) + answers_wire(answer_models(answers@))),
{
    if answers.len() > 65535 {
        return Err(DnsError::TooManyRecords);
    }
    let mut i: usize = 0;
    while i < questions.len()
        invariant
            i <= questions@.len(),
            answers@.len() <= u16::MAX,
            forall|k: int| 0 <= k < i ==> encodable(#[trigger] questions@[k].name@),
        decreases questions@.len() - i,
    {
        if !name_fits(&questions[i].name) {
            return Err(DnsError::LabelTooLong);
        }
        i += 1;
    }
    let mut j: usize = 0;
    while j < answers.len()
        invariant
            j <= answers@.len(),
            answers@.len() <= u16::MAX,
            questions_encodable(questions@),
            forall|k: int| 0 <= k < j ==> encodable(#[trigger] answers@[k].name@),
        decreases answers@.len() - j,
    {
        if !name_fits(&answers[j].name) {
            return Err(DnsError::LabelTooLong);
        }
        j += 1;
    }
    let header = create_response_header(request_header, answers.len() as u16);
    Ok(build_response(&header, questions, answers))
}

} // verus!
