use dns_server::dns_header::{DnsFlags, DnsHeader};
use dns_server::dns_message::{
    assemble_response, build_response, create_response_header, parse_request,
};
use dns_server::dns_question_and_answer::{DnsAnswer, DnsQuestion};
use dns_server::error::DnsError;
use dns_server::forwarder::{build_single_question_query, parse_answers_from_response, Forwarding};
use dns_server::local::{answer_locally, create_response_answers};

fn header(id: u16, flags: u16, qd: u16, an: u16) -> DnsHeader {
    DnsHeader {
        id,
        flags,
        question_count: qd,
        answer_count: an,
        authority_count: 0,
        additional_count: 0,
    }
}

fn request(id: u16, flags: u16, names: &[&str], qtype: u16) -> Vec<u8> {
    let questions: Vec<DnsQuestion> = names
        .iter()
        .map(|n| DnsQuestion { name: n.to_string(), qtype, qclass: 1 })
        .collect();
    build_response(&header(id, flags, names.len() as u16, 0), &questions, &[])
}

#[test]
fn header_round_trip() {
    let h = DnsHeader {
        id: 0xBEEF,
        flags: 0x8180,
        question_count: 1,
        answer_count: 2,
        authority_count: 3,
        additional_count: 0xFFFF,
    };
    let bytes = h.to_bytes();
    assert_eq!(bytes, [0xBE, 0xEF, 0x81, 0x80, 0, 1, 0, 2, 0, 3, 0xFF, 0xFF]);
    assert_eq!(DnsHeader::from_bytes(&bytes), Ok(h));
}

#[test]
fn short_header_is_truncated_buffer() {
    for len in 0..12 {
        let buf = vec![0u8; len];
        assert_eq!(DnsHeader::from_bytes(&buf), Err(DnsError::TruncatedBuffer));
        assert_eq!(parse_request(&buf).unwrap_err(), DnsError::TruncatedBuffer);
    }
}

#[test]
fn flags_layout_and_round_trip() {
    let f = DnsFlags::from_u16(0x8180);
    assert!(f.qr && f.rd && f.ra && !f.aa && !f.tc);
    assert_eq!((f.opcode, f.z, f.rcode), (0, 0, 0));
    let g = DnsFlags {
        qr: false,
        opcode: 0xA,
        aa: true,
        tc: false,
        rd: true,
        ra: false,
        z: 0x5,
        rcode: 0x3,
    };
    let word = g.to_u16();
    assert_eq!(word, 0b0_1010_1_0_1_0_101_0011);
    assert_eq!(DnsFlags::from_u16(word), g);
    for x in [0u16, 1, 0x0070, 0x7800, 0xFFFF, 0x1234] {
        assert_eq!(DnsFlags::from_u16(x).to_u16(), x);
    }
}

#[test]
fn response_header_echoes_request() {
    let req = header(0x1234, 0x0100, 3, 0);
    let resp = create_response_header(&req, 7);
    assert_eq!(resp.id, 0x1234);
    assert_eq!(resp.question_count, 3);
    assert_eq!(resp.answer_count, 7);
    assert_eq!(resp.authority_count, 0);
    assert_eq!(resp.additional_count, 0);
    let f = DnsFlags::from_u16(resp.flags);
    assert!(f.qr && f.rd && !f.aa && !f.tc && !f.ra);
    assert_eq!((f.opcode, f.z, f.rcode), (0, 0, 0));
    assert_eq!(resp.flags, 0x8100);
}

#[test]
fn non_standard_opcode_gets_not_implemented() {
    let req = header(9, 0x1000 | 0x0070, 0, 0);
    let resp = create_response_header(&req, 0);
    let f = DnsFlags::from_u16(resp.flags);
    assert_eq!(f.opcode, 2);
    assert_eq!(f.rcode, 4);
    assert_eq!(f.z, 0);
    assert!(!f.rd);
    assert_eq!(resp.flags, 0x9004);
}

#[test]
fn request_parses_all_questions_in_order() {
    let buf = request(77, 0x0100, &["example.com", "example.org"], 1);
    let (h, questions) = parse_request(&buf).unwrap();
    assert_eq!(h.id, 77);
    assert_eq!(h.question_count, 2);
    assert_eq!(questions.len(), 2);
    assert_eq!(questions[0].name, "example.com");
    assert_eq!(questions[1].name, "example.org");
}

#[test]
fn request_truncated_mid_question_fails() {
    let buf = request(1, 0, &["example.com"], 1);
    assert_eq!(buf.len(), 12 + 13 + 4);
    assert_eq!(parse_request(&buf[..12]).unwrap_err(), DnsError::OffsetOutOfBounds);
    assert_eq!(parse_request(&buf[..19]).unwrap_err(), DnsError::TruncatedName);
    assert_eq!(parse_request(&buf[..27]).unwrap_err(), DnsError::TruncatedQuestion);
}

#[test]
fn local_answers_scenario() {
    let buf = request(0x4242, 0x0100, &["example.com"], 1);
    let (req, questions) = parse_request(&buf).unwrap();
    let answers = create_response_answers(&questions);
    assert_eq!(answers.len(), 1);
    let response = assemble_response(&req, &questions, &answers).unwrap();

    let (resp_header, _) = parse_request(&response).unwrap();
    assert_eq!(resp_header.id, 0x4242);
    assert_eq!(resp_header.answer_count, 1);
    assert_eq!(resp_header.question_count, 1);
    let parsed = parse_answers_from_response(&response).unwrap();
    assert_eq!(parsed.len(), 1);
    assert_eq!(parsed[0].name, "example.com");
    assert_eq!(parsed[0].rtype, 1);
    assert_eq!(parsed[0].rclass, 1);
    assert_eq!(parsed[0].ttl, 60);
    assert_eq!(parsed[0].rdata, vec![8, 8, 8, 8]);
}

#[test]
fn response_bytes_are_header_questions_answers() {
    let req = header(5, 0x0100, 1, 0);
    let q = DnsQuestion { name: "a".to_string(), qtype: 1, qclass: 1 };
    let a = DnsAnswer::new_a_record("a".to_string(), 60, [1, 2, 3, 4]);
    let bytes = assemble_response(&req, &[q], &[a]).unwrap();
    assert_eq!(
        bytes,
        vec![
            0, 5, 0x81, 0x00, 0, 1, 0, 1, 0, 0, 0, 0, // header
            1, b'a', 0, 0, 1, 0, 1, // question
            1, b'a', 0, 0, 1, 0, 1, 0, 0, 0, 60, 0, 4, 1, 2, 3, 4, // answer
        ]
    );
}

#[test]
fn long_label_refuses_response() {
    let req = header(5, 0, 1, 0);
    let q = DnsQuestion { name: "z".repeat(70), qtype: 1, qclass: 1 };
    assert_eq!(assemble_response(&req, &[q], &[]), Err(DnsError::LabelTooLong));
}

#[test]
fn too_many_answers_refused() {
    let req = header(5, 0, 0, 0);
    let a = DnsAnswer::new_a_record("a".to_string(), 1, [0, 0, 0, 0]);
    let answers = vec![a; 65536];
    assert_eq!(assemble_response(&req, &[], &answers), Err(DnsError::TooManyRecords));
}

#[test]
fn single_question_query_layout() {
    let q = DnsQuestion { name: "example.com".to_string(), qtype: 28, qclass: 1 };
    let query = build_single_question_query(0xABCD, &q);
    let mut expected = vec![0xAB, 0xCD, 0x01, 0x00, 0, 1, 0, 0, 0, 0, 0, 0];
    expected.extend(q.to_bytes());
    assert_eq!(query, expected);
}

fn upstream_reply(id: u16, name: &str, addresses: &[[u8; 4]]) -> Vec<u8> {
    let q = DnsQuestion { name: name.to_string(), qtype: 1, qclass: 1 };
    let answers: Vec<DnsAnswer> = addresses
        .iter()
        .map(|ip| DnsAnswer::new_a_record(name.to_string(), 30, *ip))
        .collect();
    build_response(&header(id, 0x8180, 1, answers.len() as u16), &[q], &answers)
}

#[test]
fn forwarding_splits_questions_and_joins_answers() {
    let buf = request(0x0F0F, 0x0100, &["one.test", "two.test"], 1);
    let (req, questions) = parse_request(&buf).unwrap();
    let mut fwd = Forwarding::new(req.id, questions.clone()).unwrap();

    let first = fwd.next_query().unwrap();
    assert_eq!(first, build_single_question_query(0x0F0F, &questions[0]));
    let (h1, q1) = parse_request(&first).unwrap();
    assert_eq!((h1.id, h1.flags, h1.question_count), (0x0F0F, 0x0100, 1));
    assert_eq!(q1[0].name, "one.test");
    fwd.accept_reply(&upstream_reply(0x0F0F, "one.test", &[[1, 1, 1, 1], [1, 0, 0, 1]]))
        .unwrap();

    let second = fwd.next_query().unwrap();
    let (h2, q2) = parse_request(&second).unwrap();
    assert_eq!((h2.id, h2.question_count), (0x0F0F, 1));
    assert_eq!(q2[0].name, "two.test");
    fwd.accept_reply(&upstream_reply(0x0F0F, "two.test", &[[2, 2, 2, 2]])).unwrap();

    assert!(fwd.next_query().is_none());
    let names: Vec<&str> = fwd.answers.iter().map(|a| a.name.as_str()).collect();
    assert_eq!(names, vec!["one.test", "one.test", "two.test"]);
    assert_eq!(fwd.answers[1].rdata, vec![1, 0, 0, 1]);

    let response = assemble_response(&req, &questions, &fwd.answers).unwrap();
    let back = parse_answers_from_response(&response).unwrap();
    assert_eq!(back.len(), 3);
    assert_eq!(back[2].rdata, vec![2, 2, 2, 2]);
}

#[test]
fn bad_upstream_reply_is_refused_without_change() {
    let buf = request(3, 0x0100, &["one.test"], 1);
    let (req, questions) = parse_request(&buf).unwrap();
    let mut fwd = Forwarding::new(req.id, questions).unwrap();
    let mut reply = upstream_reply(3, "one.test", &[[1, 2, 3, 4]]);
    reply.truncate(reply.len() - 2);
    assert_eq!(fwd.accept_reply(&reply), Err(DnsError::TruncatedRdata));
    assert_eq!(fwd.answered, 0);
    assert!(fwd.answers.is_empty());
    assert!(fwd.next_query().is_some());
}

#[test]
fn forwarding_refuses_unencodable_question() {
    let q = DnsQuestion { name: "q".repeat(64), qtype: 1, qclass: 1 };
    assert!(matches!(Forwarding::new(1, vec![q]), Err(DnsError::LabelTooLong)));
}

#[test]
fn answer_locally_gives_one_a_record_per_question() {
    let buf = request(0x0101, 0x0100, &["example.com"], 1);
    let response = answer_locally(&buf).unwrap();
    let (h, questions) = parse_request(&response).unwrap();
    assert_eq!(h.id, 0x0101);
    assert_eq!(h.flags, 0x8100);
    assert_eq!(h.answer_count, 1);
    assert_eq!(questions[0].name, "example.com");
    let answers = parse_answers_from_response(&response).unwrap();
    assert_eq!(answers.len(), 1);
    assert_eq!(answers[0].name, "example.com");
    assert_eq!((answers[0].rtype, answers[0].rclass, answers[0].ttl), (1, 1, 60));
    assert_eq!(answers[0].rdata, vec![8, 8, 8, 8]);
    assert_eq!(response.len(), 12 + 17 + 27);
}

#[test]
fn answer_locally_refuses_bad_requests() {
    assert_eq!(answer_locally(&[0, 1, 2]), Err(DnsError::TruncatedBuffer));
    let mut buf = header(1, 0, 1, 0).to_bytes().to_vec();
    buf.push(64);
    buf.extend(std::iter::repeat(b'a').take(64));
    buf.extend_from_slice(&[0, 0, 1, 0, 1]);
    assert_eq!(answer_locally(&buf), Err(DnsError::LabelTooLong));
}
