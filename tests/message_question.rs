use dns_starter_rust::{
    AnswerSection, DnsError, Header, HeaderFlags, Message, OpCode, QrFlag, QuestionSection, ResourceRecordClass,
    ResourceRecordType, ResponseCode,
};

#[test]
fn test_parse_empty() {
    let input = b"\x00\x00\x01\x00\x01";

    // Test parse
    let (_, (q, _)) = QuestionSection::parse(input).unwrap();
    assert_eq!(
        q,
        QuestionSection {
            labels: vec![],
            rr_type: ResourceRecordType::A,
            rr_class: ResourceRecordClass::IN,
        }
    );

    // Test encode
    let mut buf = Vec::with_capacity(input.len());
    q.encode(&mut buf).unwrap();
    assert_eq!(buf, input);
}

#[test]
fn test_parse_full() {
    let input = b"\x06google\x03com\x00\x00\x09\x00\x02";

    // Test parse
    let (_, (q, _)) = QuestionSection::parse(input).unwrap();
    assert_eq!(
        q,
        QuestionSection {
            labels: vec!["google".to_string(), "com".to_string()],
            rr_type: ResourceRecordType::MR,
            rr_class: ResourceRecordClass::CS,
        }
    );

    // Test encode
    let mut buf = Vec::with_capacity(input.len());
    q.encode(&mut buf).unwrap();
    assert_eq!(buf, input);
}

#[test]
fn test_new() {
    let q = QuestionSection::new_a("hello.world.com");
    assert_eq!(
        q,
        QuestionSection {
            labels: vec!["hello".to_string(), "world".to_string(), "com".to_string(),],
            rr_type: ResourceRecordType::A,
            rr_class: ResourceRecordClass::IN,
        }
    );
}

#[test]
fn new_a_keeps_empty_pieces() {
    let q = QuestionSection::new_a("a..b.");
    assert_eq!(q.labels, vec!["a", "", "b", ""]);
    let q = QuestionSection::new_a("");
    assert_eq!(q.labels, vec![""]);
    let q = QuestionSection::new_a("bücher.de");
    assert_eq!(q.labels, vec!["bücher", "de"]);
}

#[test]
fn question_parse_reports_consumed_bytes_and_pointer() {
    let input = b"\x03www\xC0\x0C\x00\x01\x00\x01\xAA";
    let (rest, (q, offset)) = QuestionSection::parse(input).unwrap();
    assert_eq!(rest, &[0xAA]);
    assert_eq!(offset, Some(12));
    assert_eq!(q.labels, vec!["www"]);
    assert_eq!(q.rr_type, ResourceRecordType::A);
    assert_eq!(q.rr_class, ResourceRecordClass::IN);
}

#[test]
fn unknown_type_and_class_decode_to_invalid() {
    let input = b"\x00\x00\x63\x00\x07";
    let (_, (q, _)) = QuestionSection::parse(input).unwrap();
    assert_eq!(q.rr_type, ResourceRecordType::Invalid);
    assert_eq!(q.rr_class, ResourceRecordClass::Invalid);
    let input = b"\x00\x00\x10\x00\x04";
    let (_, (q, _)) = QuestionSection::parse(input).unwrap();
    assert_eq!(q.rr_type, ResourceRecordType::TXT);
    assert_eq!(q.rr_class, ResourceRecordClass::HS);
}

#[test]
fn type_and_class_codes() {
    assert_eq!(ResourceRecordType::from(15u16), ResourceRecordType::MX);
    assert_eq!(ResourceRecordType::from(17u16), ResourceRecordType::Invalid);
    assert_eq!(ResourceRecordType::CNAME.code(), 5);
    assert_eq!(ResourceRecordClass::from(3u16), ResourceRecordClass::CH);
    assert_eq!(ResourceRecordClass::from(0u16), ResourceRecordClass::Invalid);
    assert_eq!(ResourceRecordClass::HS.code(), 4);
}

#[test]
fn question_missing_type_is_short_buffer() {
    let input = b"\x03com\x00\x00\x01\x00";
    assert_eq!(QuestionSection::parse(input), Err(DnsError::ShortBuffer));
}

#[test]
fn question_name_running_off_is_malformed_label() {
    let input = b"\x05ab";
    assert_eq!(QuestionSection::parse(input), Err(DnsError::MalformedLabel));
    assert_eq!(QuestionSection::parse(b""), Err(DnsError::ShortBuffer));
}

#[test]
fn label_of_255_bytes_decodes_on_its_own() {
    let mut input = vec![255u8];
    input.extend_from_slice("a".repeat(255).as_bytes());
    input.extend_from_slice(&[0, 0, 1, 0, 1]);
    let (rest, (q, offset)) = QuestionSection::parse(&input).unwrap();
    assert!(rest.is_empty());
    assert_eq!(offset, None);
    assert_eq!(q.labels, vec!["a".repeat(255)]);
    assert_eq!(q.rr_type, ResourceRecordType::A);
    assert_eq!(q.rr_class, ResourceRecordClass::IN);
}

#[test]
fn long_labels_round_trip_in_records_on_their_own() {
    for len in [191usize, 192, 200, 255] {
        let q = QuestionSection {
            labels: vec!["q".repeat(len), "org".to_string()],
            rr_type: ResourceRecordType::MX,
            rr_class: ResourceRecordClass::IN,
        };
        let mut buf = Vec::new();
        q.encode(&mut buf).unwrap();
        buf.extend_from_slice(&[9, 9]);
        let (rest, (back, offset)) = QuestionSection::parse(&buf).unwrap();
        assert_eq!(rest, &[9, 9]);
        assert_eq!(offset, None);
        assert_eq!(back, q);

        let a = AnswerSection {
            labels: vec!["a".repeat(len)],
            rr_type: ResourceRecordType::TXT,
            rr_class: ResourceRecordClass::IN,
            ttl: 7,
            data: vec![1, 2, 3],
        };
        let mut buf = Vec::new();
        a.encode(&mut buf).unwrap();
        let (rest, (back, offset)) = AnswerSection::parse(&buf).unwrap();
        assert!(rest.is_empty());
        assert_eq!(offset, None);
        assert_eq!(back, a);
    }
}

#[test]
fn chained_target_leaves_question_unchanged() {
    let mut message = vec![0xC0u8, 0x00];
    message.extend_from_slice("a".repeat(191).as_bytes());
    message.push(0);
    let mut q = QuestionSection::new_a("x");
    let before = q.clone();
    assert_eq!(
        q.resolve_offsets(&message, Some(0), message.len()),
        Err(DnsError::InvalidCompressionPointer)
    );
    assert_eq!(q, before);
}

#[test]
fn label_of_255_bytes_round_trips() {
    let label = "x".repeat(255);
    let q = QuestionSection {
        labels: vec![label.clone(), "com".to_string()],
        rr_type: ResourceRecordType::NS,
        rr_class: ResourceRecordClass::IN,
    };
    let mut buf = Vec::new();
    q.encode(&mut buf).unwrap();
    assert_eq!(buf.len(), 1 + 255 + 1 + 3 + 1 + 4);
    assert_eq!(buf[0], 255);
    // In a message the bytes 0xFF 'x' would point far past the record's
    // start, so they are a label length, not a pointer.
    let m = Message {
        header: Header {
            id: 1,
            flags: HeaderFlags {
                qr: QrFlag::Query,
                opcode: OpCode::Query,
                is_authoritative_answer: false,
                is_truncation: false,
                is_recursion_desired: true,
                is_recursion_available: false,
                response_code: ResponseCode::NoError,
            },
            question_count: 1,
            answer_count: 0,
            authority_resource_record_count: 0,
            additional_resource_record_count: 0,
        },
        questions: vec![q],
        answers: vec![],
    };
    let mut bytes = Vec::new();
    m.encode(&mut bytes).unwrap();
    let (rest, back) = Message::parse(&bytes).unwrap();
    assert!(rest.is_empty());
    assert_eq!(back, m);
}

#[test]
fn label_of_256_bytes_is_rejected() {
    let q = QuestionSection {
        labels: vec!["y".repeat(256)],
        rr_type: ResourceRecordType::A,
        rr_class: ResourceRecordClass::IN,
    };
    let mut buf = vec![7u8];
    assert_eq!(q.encode(&mut buf), Err(DnsError::EncodingSizeExceeded));
    assert_eq!(buf, vec![7u8]);
}

#[test]
fn invalid_utf8_label_is_decoded_lossily() {
    let input = b"\x02\xFF\x41\x00\x00\x01\x00\x01";
    let (_, (q, _)) = QuestionSection::parse(input).unwrap();
    assert_eq!(q.labels, vec!["\u{FFFD}A"]);
}

#[test]
fn utf8_label_is_decoded_as_is() {
    let input = "\u{6}caf\u{e9}s\u{0}\u{0}\u{1}\u{0}\u{1}".as_bytes();
    let (_, (q, _)) = QuestionSection::parse(input).unwrap();
    assert_eq!(q.labels, vec!["cafés"]);
    let mut buf = Vec::new();
    q.encode(&mut buf).unwrap();
    assert_eq!(buf, input);
}

#[test]
fn resolve_offsets_appends_labels() {
    let message = b"\x07example\x03com\x00";
    let mut q = QuestionSection {
        labels: vec!["mail".to_string()],
        rr_type: ResourceRecordType::MX,
        rr_class: ResourceRecordClass::IN,
    };
    q.resolve_offsets(message, Some(8), 13).unwrap();
    assert_eq!(q.labels, vec!["mail", "com"]);
    q.resolve_offsets(message, None, 13).unwrap();
    assert_eq!(q.labels, vec!["mail", "com"]);
    assert_eq!(
        q.resolve_offsets(message, Some(13), 14),
        Err(DnsError::InvalidCompressionPointer)
    );
    assert_eq!(
        q.resolve_offsets(message, Some(8), 8),
        Err(DnsError::InvalidCompressionPointer)
    );
    assert_eq!(q.labels, vec!["mail", "com"]);
}
