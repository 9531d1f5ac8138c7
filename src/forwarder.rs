use vstd::prelude::*;

use crate::dns_header::{header_at, header_bytes, DnsHeader};
use crate::dns_message::{answer_models, questions_encodable, questions_from};
use crate::dns_question_and_answer::{
    answer_at, question_wire, AnswerModel, DnsAnswer, DnsQuestion, QuestionModel,
};
use crate::domain_name::{encodable, try_encode_domain_name};
use crate::error::DnsError;
use crate::wire::push_bytes;

verus! {

/// The flags word of an upstream query: recursion desired, every other bit clear.
pub const QUERY_FLAGS: u16 = 0x0100;

/// `n` resource records read one after another from `pos` of `b`, and the offset past
/// the last.
pub open spec fn answers_from(b: Seq<u8>, pos: int, n: nat) -> Result<
    (Seq<AnswerModel>, int),
    DnsError,
>
    decreases n,
{
    if n == 0 {
        Ok((seq![], pos))
    } else {
        match answer_at(b, pos) {
            Err(e) => Err(e),
            Ok((a, next)) => match answers_from(b, next, (n - 1) as nat) {
                Err(e) => Err(e),
                Ok((rs, end)) => Ok((seq![a] + rs, end)),
            },
        }
    }
}

/// The records of the answer section of the response in `b`, read past its questions.
pub open spec fn response_answers(b: Seq<u8>) -> Result<Seq<AnswerModel>, DnsError> {
    if b.len() < 12 {
        Err(DnsError::TruncatedBuffer)
    } else {
        match questions_from(b, 12, header_at(b).question_count as nat) {
            Err(e) => Err(e),
            Ok((_, end)) => match answers_from(b, end, header_at(b).answer_count as nat) {
                Err(e) => Err(e),
                Ok((rs, _)) => Ok(rs),
            },
        }
    }
}

/// The header of an upstream query that asks one question under transaction `id`.
pub open spec fn query_header(id: u16) -> DnsHeader {
    DnsHeader {
        id,
        flags: QUERY_FLAGS,
        question_count: 1,
        answer_count: 0,
        authority_count: 0,
        additional_count: 0,
    }
}

/// The bytes of an upstream query for `q` under transaction `id`.
pub open spec fn query_wire(id: u16, q: QuestionModel) -> Seq<u8> {
    header_bytes(query_header(id)) + question_wire(q)
}

/// Reads the records of an upstream response's answer section, skipping its questions.
pub fn parse_answers_from_response(buf: &[u8]) -> (r: Result<Vec<DnsAnswer>, DnsError>)
    ensures
        response_answers(buf@) is Err ==> r == Err::<Vec<DnsAnswer>, DnsError>(
            response_answers(buf@)->Err_0,
        ),
        response_answers(buf@) is Ok ==> r is Ok && answer_models(r->Ok_0@) == response_answers(
            buf@,
        )->Ok_0,
{
    let header = DnsHeader::from_bytes(buf)?;
    let ghost b = buf@;
    let ghost nq = header.question_count as nat;
    let mut offset: usize = 12;
    let mut i: u16 = 0;
    let ghost mut seen: Seq<QuestionModel> = seq![];
    while i < header.question_count
        invariant
            b == buf@,
            b.len() >= 12,
            header == header_at(b),
            nq == header.question_count,
            i <= header.question_count,
            questions_from(b, 12, nq) == match questions_from(b, offset as int, (nq - i) as nat) {
                Err(e) => Err(e),
                Ok((qs, end)) => Ok((seen + qs, end)),
            },
        decreases header.question_count - i,
    {
        let ghost rest = questions_from(b, offset as int, (nq - i) as nat);
        let (question, new_offset) = match DnsQuestion::from_bytes(buf, offset) {
            Ok(v) => v,
            Err(e) => {
                assert(rest == Err::<(Seq<QuestionModel>, int), DnsError>(e));
                assert(response_answers(b) == Err::<Seq<AnswerModel>, DnsError>(e));
                return Err(e);
            },
        };
        proof {
            let qm = question@;
            match questions_from(b, new_offset as int, (nq - i - 1) as nat) {
                Err(e) => {},
                Ok((qs, end)) => {
                    assert(seen + (seq![qm] + qs) =~= seen.push(qm) + qs);
                },
            }
            seen = seen.push(qm);
        }
        offset = new_offset;
        i += 1;
    }
    let ghost start = offset as int;
    let ghost na = header.answer_count as nat;
    proof {
        assert(questions_from(b, 12, nq) == Ok::<(Seq<QuestionModel>, int), DnsError>(
            (seen + seq![], start),
        ));
        assert(answer_models(Seq::<DnsAnswer>::empty()) + seq![] =~= Seq::<AnswerModel>::empty());
    }
    let mut answers: Vec<DnsAnswer> = Vec::new();
    let mut j: u16 = 0;
    while j < header.answer_count
        invariant
            b == buf@,
            b.len() >= 12,
            header == header_at(b),
            na == header.answer_count,
            questions_from(b, 12, nq) == Ok::<(Seq<QuestionModel>, int), DnsError>(
                (seen + seq![], start),
            ),
            nq == header.question_count,
            j <= header.answer_count,
            answers_from(b, start, na) == match answers_from(b, offset as int, (na - j) as nat) {
                Err(e) => Err(e),
                Ok((rs, end)) => Ok((answer_models(answers@) + rs, end)),
            },
        decreases header.answer_count - j,
    {
        let ghost rest = answers_from(b, offset as int, (na - j) as nat);
        let (answer, new_offset) = match DnsAnswer::from_bytes(buf, offset) {
            Ok(v) => v,
            Err(e) => {
                assert(rest == Err::<(Seq<AnswerModel>, int), DnsError>(e));
                assert(response_answers(b) == Err::<Seq<AnswerModel>, DnsError>(e));
                return Err(e);
            },
        };
        proof {
            let am = answer@;
            match answers_from(b, new_offset as int, (na - j - 1) as nat) {
                Err(e) => {},
                Ok((rs, end)) => {
                    assert(answer_models(answers@.push(answer)) =~= answer_models(answers@).push(
                        am,
                    ));
                    assert(answer_models(answers@) + (seq![am] + rs) =~= answer_models(
                        answers@,
                    ).push(am) + rs);
                },
            }
        }
        answers.push(answer);
        offset = new_offset;
        j += 1;
    }
    proof {
        assert(answer_models(answers@) + seq![] =~= answer_models(answers@));
    }
    Ok(answers)
}

/// The upstream query that asks `question` alone under transaction `original_id`.
pub fn build_single_question_query(original_id: u16, question: &DnsQuestion) -> (r: Vec<u8>)
    requires
        encodable(question.name@),
    ensures
        r@ == query_wire(original_id, question@),
{
    let header = DnsHeader {
        id: original_id,
        flags: QUERY_FLAGS,
        question_count: 1,
        answer_count: 0,
        authority_count: 0,
        additional_count: 0,
    };
    let mut query: Vec<u8> = Vec::new();
    let hb = header.to_bytes();
    push_bytes(&mut query, hb.as_slice());
    let qb = question.to_bytes();
    push_bytes(&mut query, qb.as_slice());
    assert(query@ =~= query_wire(original_id, question@));
    query
}

/// Where the forwarding of one request stands: each question goes upstream alone, in
/// order, and the records of each reply are gathered in that order.
pub struct Forwarding {
    pub request_id: u16,
    pub questions: Vec<DnsQuestion>,
    /// how many questions have had their reply
    pub answered: usize,
    pub answers: Vec<DnsAnswer>,
}

impl Forwarding {
    /// Every question can be sent and the count of answered ones is in range.
    pub open spec fn wf(&self) -> bool {
        self.answered <= self.questions@.len() && questions_encodable(self.questions@)
    }

    /// Starts forwarding `questions` under transaction `request_id`; fails where a
    /// question's name holds a label longer than 63 bytes.
    pub fn new(request_id: u16, questions: Vec<DnsQuestion>) -> (r: Result<Self, DnsError>)
        ensures
            questions_encodable(questions@) <==> r is Ok,
            r matches Err(e) ==> e == DnsError::LabelTooLong,
            r matches Ok(f) ==> f.wf() && f.request_id == request_id && f.questions@
                == questions@ && f.answered == 0 && f.answers@.len() == 0,
    {
        let mut i: usize = 0;
        while i < questions.len()
            invariant
                i <= questions@.len(),
                forall|k: int| 0 <= k < i ==> encodable(#[trigger] questions@[k].name@),
            decreases questions@.len() - i,
        {
            if try_encode_domain_name(questions[i].name.as_str()).is_err() {
                return Err(DnsError::LabelTooLong);
            }
            i += 1;
        }
        Ok(Forwarding { request_id, questions, answered: 0, answers: Vec::new() })
    }

    /// The query to send next, or `None` once every question has had its reply.
    pub fn next_query(&self) -> (r: Option<Vec<u8>>)
        requires
            self.wf(),
        ensures
            r is None <==> self.answered == self.questions@.len(),
            r matches Some(q) ==> q@ == query_wire(
                self.request_id,
                self.questions@[self.answered as int]@,
            ),
    {
        if self.answered < self.questions.len() {
            Some(build_single_question_query(self.request_id, &self.questions[self.answered]))
        } else {
            None
        }
    }

    /// Takes the upstream reply to the pending question: its records join the gathered
    /// ones and the next question becomes pending. A reply that does not decode is
    /// refused with the decoding error, and nothing changes.
    pub fn accept_reply(&mut self, reply: &[u8]) -> (r: Result<(), DnsError>)
        requires
            old(self).wf(),
            old(self).answered < old(self).questions@.len(),
        ensures
            final(self).wf(),
            final(self).request_id == old(self).request_id,
            final(self).questions@ == old(self).questions@,
            response_answers(reply@) is Err ==> r == Err::<(), DnsError>(
                response_answers(reply@)->Err_0,
            ) && *final(self) == *old(self),
            response_answers(reply@) is Ok ==> r is Ok && final(self).answered == old(
                self,
            ).answered + 1 && answer_models(final(self).answers@) == answer_models(
                old(self).answers@,
            ) + response_answers(reply@)->Ok_0,
    {
        let pending = self.questions.len();
        let mut parsed = parse_answers_from_response(reply)?;
        let ghost before = self.answers@;
        let ghost got = parsed@;
        self.answers.append(&mut parsed);
        assert(self.answered < pending);
        self.answered = self.answered + 1;
        assert(answer_models(self.answers@) =~= answer_models(before) + answer_models(got));
        Ok(())
    }
}

} // verus!
