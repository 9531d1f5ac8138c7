use vstd::prelude::*;

use crate::dns_header::header_bytes;
use crate::dns_message::{
    answer_models, answers_wire, assemble_response, parse_request, question_models,
    questions_wire, request_at, response_header,
};
use crate::dns_question_and_answer::{
    AnswerModel, DnsAnswer, DnsQuestion, QuestionModel, RecordClass, RecordType,
};
use crate::domain_name::encodable;
use crate::error::DnsError;

verus! {

/// The time to live of every locally made record, in seconds.
pub const LOCAL_TTL: u32 = 60;

/// The record that answers a question about `name` locally: an IPv4 address record for
/// 8.8.8.8 with a time to live of 60 seconds.
pub open spec fn local_answer(name: Seq<char>) -> AnswerModel {
    AnswerModel {
        name,
        rtype: RecordType::A.code(),
        rclass: RecordClass::IN.code(),
        ttl: LOCAL_TTL,
        rdlength: 4,
        rdata: seq![8u8, 8u8, 8u8, 8u8],
    }
}

/// One locally made record for each question, in the questions' order.
pub fn create_response_answers(questions: &[DnsQuestion]) -> (r: Vec<DnsAnswer>)
    ensures
        r@.len() == questions@.len(),
        forall|i: int| 0 <= i < r@.len() ==> #[trigger] r@[i]@ == local_answer(questions@[i].name@),
{
    let mut answers: Vec<DnsAnswer> = Vec::new();
    let mut i: usize = 0;
    while i < questions.len()
        invariant
            i <= questions@.len(),
            answers@.len() == i,
            forall|k: int| 0 <= k < i ==> #[trigger] answers@[k]@ == local_answer(questions@[k].name@),
        decreases questions@.len() - i,
    {
        let answer = DnsAnswer::new_a_record(questions[i].name.clone(), LOCAL_TTL, [8, 8, 8, 8]);
        assert(answer@.rdata =~= seq![8u8, 8u8, 8u8, 8u8]);
        answers.push(answer);
        i += 1;
    }
    answers
}

/// The locally made records that answer `qs`, one for each, in order.
pub open spec fn local_answers(qs: Seq<QuestionModel>) -> Seq<AnswerModel> {
    qs.map_values(|q: QuestionModel| local_answer(q.name))
}

/// Every question's name can be encoded.
pub open spec fn question_names_encodable(qs: Seq<QuestionModel>) -> bool {
    forall|i: int| 0 <= i < qs.len() ==> encodable(#[trigger] qs[i].name)
}

/// Answers the request in `buf` without an upstream resolver: the response echoes the
/// questions and carries one locally made record for each. Fails where the request does
/// not decode, or where a name holds a label longer than 63 bytes.
pub fn answer_locally(buf: &[u8]) -> (r: Result<Vec<u8>, DnsError>)
    ensures
        request_at(buf@) is Err ==> r == Err::<Vec<u8>, DnsError>(request_at(buf@)->Err_0),
        request_at(buf@) is Ok && !question_names_encodable(request_at(buf@)->Ok_0.1) ==> r == Err::<
            Vec<u8>,
            DnsError,
        >(DnsError::LabelTooLong),
        request_at(buf@) is Ok && question_names_encodable(request_at(buf@)->Ok_0.1) ==> (r matches Ok(
            v,
        ) && v@ == header_bytes(
            response_header(request_at(buf@)->Ok_0.0, request_at(buf@)->Ok_0.1.len() as u16),
        ) + questions_wire(request_at(buf@)->Ok_0.1) + answers_wire(
            local_answers(request_at(buf@)->Ok_0.1),
        )),
{
    let (request_header, questions) = parse_request(buf)?;
    let answers = create_response_answers(questions.as_slice());
    let ghost qs = question_models(questions@);
    proof {
        assert(answer_models(answers@) =~= local_answers(qs));
        assert(questions@.len() <= u16::MAX) by {
            crate::dns_message::lemma_request_questions_fit(buf@);
        }
        assert(question_names_encodable(qs) <==> crate::dns_message::questions_encodable(
            questions@,
        )) by {
            if question_names_encodable(qs) {
                assert forall|i: int| 0 <= i < questions@.len() implies encodable(
                    #[trigger] questions@[i].name@,
                ) by {
                    assert(qs[i].name == questions@[i].name@);
                }
            }
            if crate::dns_message::questions_encodable(questions@) {
                assert forall|i: int| 0 <= i < qs.len() implies encodable(#[trigger] qs[i].name) by {
                    assert(qs[i].name == questions@[i].name@);
                }
            }
        }
        if question_names_encodable(qs) {
            assert forall|i: int| 0 <= i < answers@.len() implies encodable(
                #[trigger] answers@[i].name@,
            ) by {
                assert(answers@[i]@ == local_answer(questions@[i].name@));
                assert(encodable(questions@[i].name@));
            }
        }
    }
    assemble_response(&request_header, questions.as_slice(), answers.as_slice())
}

} // verus!
