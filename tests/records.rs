use dns_server::dns_question_and_answer::{
    encode_domain_name, parse_domain_name, DnsAnswer, DnsQuestion, RecordClass, RecordType,
};
use dns_server::domain_name::try_encode_domain_name;
use dns_server::error::DnsError;

#[test]
fn test_encode_domain_name() {
    let encoded = encode_domain_name("example.com");
    assert_eq!(
        encoded,
        vec![7, b'e', b'x', b'a', b'm', b'p', b'l', b'e', 3, b'c', b'o', b'm', 0]
    );
}

#[test]
fn test_encode_root_domain() {
    let encoded = encode_domain_name(".");
    assert_eq!(encoded, vec![0]);
}

#[test]
fn test_parse_domain_name() {
    let bytes = vec![
        7, b'e', b'x', b'a', b'm', b'p', b'l', b'e', 3, b'c', b'o', b'm', 0,
    ];
    let (name, offset) = parse_domain_name(&bytes, 0).unwrap();
    assert_eq!(name, "example.com");
    assert_eq!(offset, 13);
}

#[test]
fn test_dns_question_roundtrip() {
    let question = DnsQuestion {
        name: "example.com".to_string(),
        qtype: RecordType::A.to_u16(),
        qclass: RecordClass::IN.to_u16(),
    };

    let bytes = question.to_bytes();
    let (parsed, _) = DnsQuestion::from_bytes(&bytes, 0).unwrap();

    assert_eq!(parsed.name, question.name);
    assert_eq!(parsed.qtype, question.qtype);
    assert_eq!(parsed.qclass, question.qclass);
}

#[test]
fn test_dns_answer_a_record() {
    let answer = DnsAnswer::new_a_record("example.com".to_string(), 60, [8, 8, 8, 8]);

    assert_eq!(answer.rtype, RecordType::A.to_u16());
    assert_eq!(answer.rclass, RecordClass::IN.to_u16());
    assert_eq!(answer.ttl, 60);
    assert_eq!(answer.rdata, vec![8, 8, 8, 8]);
    assert_eq!(answer.rdlength, 4);
}

#[test]
fn test_dns_answer_roundtrip() {
    let answer = DnsAnswer::new_a_record("example.com".to_string(), 60, [192, 168, 1, 1]);

    let bytes = answer.to_bytes();
    let (parsed, _) = DnsAnswer::from_bytes(&bytes, 0).unwrap();

    assert_eq!(parsed.name, answer.name);
    assert_eq!(parsed.rtype, answer.rtype);
    assert_eq!(parsed.rclass, answer.rclass);
    assert_eq!(parsed.ttl, answer.ttl);
    assert_eq!(parsed.rdata, answer.rdata);
}

#[test]
fn name_round_trip_keeps_name_and_length() {
    for name in ["example.com", "a.b.c.d", "www.example.org", "."] {
        let encoded = encode_domain_name(name);
        let (decoded, next) = parse_domain_name(&encoded, 0).unwrap();
        assert_eq!(decoded, name);
        assert_eq!(next, encoded.len());
    }
}

#[test]
fn non_ascii_label_round_trips() {
    let encoded = encode_domain_name("caf\u{e9}.com");
    assert_eq!(encoded, vec![5, b'c', b'a', b'f', 0xC3, 0xA9, 3, b'c', b'o', b'm', 0]);
    let (decoded, next) = parse_domain_name(&encoded, 0).unwrap();
    assert_eq!(decoded, "caf\u{e9}.com");
    assert_eq!(next, 11);
}

#[test]
fn empty_labels_are_skipped_on_encode() {
    assert_eq!(encode_domain_name("a..b."), vec![1, b'a', 1, b'b', 0]);
    assert_eq!(encode_domain_name(""), vec![0]);
}

#[test]
fn root_name_decodes_to_dot() {
    let (name, next) = parse_domain_name(&[0], 0).unwrap();
    assert_eq!(name, ".");
    assert_eq!(next, 1);
}

#[test]
fn compression_pointer_resolves_to_earlier_labels() {
    let mut buf = encode_domain_name("example.com");
    buf.extend_from_slice(&[0xC0, 0x00]);
    let (at_k, next_k) = parse_domain_name(&buf, 0).unwrap();
    let (at_m, next_m) = parse_domain_name(&buf, 13).unwrap();
    assert_eq!(at_m, at_k);
    assert_eq!(at_m, "example.com");
    assert_eq!(next_k, 13);
    assert_eq!(next_m, 15);
}

#[test]
fn labels_before_pointer_are_kept() {
    let mut buf = encode_domain_name("example.com");
    buf.extend_from_slice(&[3, b'w', b'w', b'w', 0xC0, 0x00, 0xFF]);
    let (name, next) = parse_domain_name(&buf, 13).unwrap();
    assert_eq!(name, "www.example.com");
    assert_eq!(next, 19);
}

#[test]
fn self_pointer_is_a_compression_loop() {
    let buf = vec![0, 0xC0, 0x01];
    assert_eq!(parse_domain_name(&buf, 1), Err(DnsError::CompressionLoop));
}

#[test]
fn six_pointer_chain_is_a_compression_loop() {
    // each pointer leads to the one after it; the last leads to the root label
    let buf = vec![0xC0, 2, 0xC0, 4, 0xC0, 6, 0xC0, 8, 0xC0, 10, 0xC0, 12, 0];
    assert_eq!(parse_domain_name(&buf, 0), Err(DnsError::CompressionLoop));
    // five pointers are still followed
    let (name, next) = parse_domain_name(&buf, 2).unwrap();
    assert_eq!(name, ".");
    assert_eq!(next, 4);
}

#[test]
fn truncated_names_fail() {
    let full = encode_domain_name("example.com");
    for cut in 0..full.len() {
        let err = parse_domain_name(&full[..cut], 0).unwrap_err();
        assert!(matches!(err, DnsError::OffsetOutOfBounds | DnsError::TruncatedName));
    }
    assert_eq!(parse_domain_name(&[0xC0], 0), Err(DnsError::TruncatedName));
    assert_eq!(parse_domain_name(&[0xC0, 0x09], 0), Err(DnsError::OffsetOutOfBounds));
}

#[test]
fn invalid_utf8_label_is_refused() {
    let buf = vec![2, 0xFF, 0xFE, 0];
    assert_eq!(parse_domain_name(&buf, 0), Err(DnsError::InvalidLabelEncoding));
}

#[test]
fn label_over_63_bytes_is_refused_on_encode() {
    let long = "x".repeat(64);
    assert_eq!(try_encode_domain_name(&long), Err(DnsError::LabelTooLong));
    let max = "y".repeat(63);
    let encoded = try_encode_domain_name(&format!("{}.com", max)).unwrap();
    assert_eq!(encoded.len(), 1 + 63 + 1 + 3 + 1);
    assert_eq!(encoded[0], 63);
}

#[test]
fn truncated_question_fields_fail() {
    let question = DnsQuestion { name: "a.io".to_string(), qtype: 28, qclass: 1 };
    let bytes = question.to_bytes();
    assert_eq!(bytes, vec![1, b'a', 2, b'i', b'o', 0, 0, 28, 0, 1]);
    for cut in 6..bytes.len() {
        assert_eq!(
            DnsQuestion::from_bytes(&bytes[..cut], 0).unwrap_err(),
            DnsError::TruncatedQuestion
        );
    }
}

#[test]
fn truncated_answer_fields_and_rdata_fail() {
    let answer = DnsAnswer::new("a.io".to_string(), 1, 1, 300, vec![10, 0, 0, 1]);
    let bytes = answer.to_bytes();
    assert_eq!(bytes.len(), 6 + 10 + 4);
    for cut in 6..16 {
        assert_eq!(
            DnsAnswer::from_bytes(&bytes[..cut], 0).unwrap_err(),
            DnsError::TruncatedAnswerFields
        );
    }
    for cut in 16..20 {
        assert_eq!(
            DnsAnswer::from_bytes(&bytes[..cut], 0).unwrap_err(),
            DnsError::TruncatedRdata
        );
    }
    let (parsed, next) = DnsAnswer::from_bytes(&bytes, 0).unwrap();
    assert_eq!(next, 20);
    assert_eq!(parsed.ttl, 300);
    assert_eq!(parsed.rdlength, 4);
}

#[test]
fn answer_wire_layout_is_exact() {
    let answer = DnsAnswer::new("a".to_string(), 0x1234, 0x0001, 0x01020304, vec![9, 8]);
    assert_eq!(
        answer.to_bytes(),
        vec![1, b'a', 0, 0x12, 0x34, 0x00, 0x01, 1, 2, 3, 4, 0, 2, 9, 8]
    );
}

#[test]
fn aaaa_record_holds_sixteen_bytes() {
    let ip = [0x20, 0x01, 0x0d, 0xb8, 0, 0, 0, 0, 0, 0, 0, 0, 0, 0, 0, 1];
    let answer = DnsAnswer::new_aaaa_record("v6.example".to_string(), 120, ip);
    assert_eq!(answer.rtype, 28);
    assert_eq!(answer.rclass, 1);
    assert_eq!(answer.rdlength, 16);
    assert_eq!(answer.rdata, ip.to_vec());
}

#[test]
fn record_type_and_class_codes() {
    assert_eq!(RecordType::from_u16(28), Some(RecordType::AAAA));
    assert_eq!(RecordType::from_u16(41), Some(RecordType::OPT));
    assert_eq!(RecordType::from_u16(3), None);
    assert_eq!(RecordType::MX.to_u16(), 15);
    assert_eq!(RecordClass::from_u16(3), Some(RecordClass::CH));
    assert_eq!(RecordClass::from_u16(255), None);
    assert_eq!(RecordClass::HS.to_u16(), 4);
}

#[test]
fn unknown_type_codes_pass_through() {
    let question = DnsQuestion { name: "x.y".to_string(), qtype: 65000, qclass: 4000 };
    let (parsed, _) = DnsQuestion::from_bytes(&question.to_bytes(), 0).unwrap();
    assert_eq!(parsed.qtype, 65000);
    assert_eq!(parsed.qclass, 4000);
}

#[test]
fn forward_pointer_is_followed() {
    let buf = vec![0xC0, 0x03, 0xAA, 2, b'h', b'i', 0];
    let (name, next) = parse_domain_name(&buf, 0).unwrap();
    assert_eq!(name, "hi");
    assert_eq!(next, 2);
}
