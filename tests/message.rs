use dns_starter_rust::{
    AnswerSection, DnsError, Header, HeaderFlags, Message, OpCode, QrFlag, QuestionSection,
    ResourceRecordClass, ResourceRecordType, ResponseCode,
};

fn header(question_count: u16, answer_count: u16) -> Header {
    Header {
        id: 0x0A0B,
        flags: HeaderFlags {
            qr: QrFlag::Reply,
            opcode: OpCode::Query,
            is_authoritative_answer: true,
            is_truncation: false,
            is_recursion_desired: true,
            is_recursion_available: true,
            response_code: ResponseCode::NoError,
        },
        question_count,
        answer_count,
        authority_resource_record_count: 0,
        additional_resource_record_count: 0,
    }
}

fn sample() -> Message {
    Message {
        header: header(1, 2),
        questions: vec![QuestionSection {
            labels: vec!["example".to_string(), "com".to_string()],
            rr_type: ResourceRecordType::A,
            rr_class: ResourceRecordClass::IN,
        }],
        answers: vec![
            AnswerSection {
                labels: vec!["example".to_string(), "com".to_string()],
                rr_type: ResourceRecordType::A,
                rr_class: ResourceRecordClass::IN,
                ttl: 3600,
                data: vec![93, 184, 216, 34],
            },
            AnswerSection {
                labels: vec!["example".to_string(), "com".to_string()],
                rr_type: ResourceRecordType::TXT,
                rr_class: ResourceRecordClass::CH,
                ttl: 0x01020304,
                data: vec![],
            },
        ],
    }
}

#[test]
fn message_round_trip() {
    let m = sample();
    let mut buf = Vec::new();
    m.encode(&mut buf).unwrap();
    let (rest, back) = Message::parse(&buf).unwrap();
    assert!(rest.is_empty());
    assert_eq!(back, m);
}

#[test]
fn message_encoding_bytes() {
    let m = sample();
    let mut buf = Vec::new();
    m.encode(&mut buf).unwrap();
    let mut expected = vec![0x0A, 0x0B, 0b1000_0101, 0b1000_0000, 0, 1, 0, 2, 0, 0, 0, 0];
    expected.extend_from_slice(b"\x07example\x03com\x00\x00\x01\x00\x01");
    expected.extend_from_slice(b"\x07example\x03com\x00\x00\x01\x00\x01\x00\x00\x0E\x10\x00\x04");
    expected.extend_from_slice(&[93, 184, 216, 34]);
    expected.extend_from_slice(b"\x07example\x03com\x00\x00\x10\x00\x03\x01\x02\x03\x04\x00\x00");
    assert_eq!(buf, expected);
}

#[test]
fn message_ignores_trailing_bytes() {
    let m = sample();
    let mut buf = Vec::new();
    m.encode(&mut buf).unwrap();
    buf.extend_from_slice(&[1, 2, 3]);
    let (rest, back) = Message::parse(&buf).unwrap();
    assert_eq!(rest, &[1, 2, 3]);
    assert_eq!(back, m);
}

#[test]
fn ten_byte_message_is_short_buffer() {
    let input = [0u8; 10];
    assert_eq!(Message::parse(&input), Err(DnsError::ShortBuffer));
}

#[test]
fn missing_declared_record_is_short_buffer() {
    let input = [0u8, 1, 0, 0, 0, 1, 0, 0, 0, 0, 0, 0];
    assert_eq!(Message::parse(&input), Err(DnsError::ShortBuffer));
}

#[test]
fn truncated_answer_data_is_short_buffer() {
    let m = sample();
    let mut buf = Vec::new();
    m.encode(&mut buf).unwrap();
    // Header, question, then the first answer's name and fixed fields; its
    // four data bytes are cut to two.
    let cut = 12 + 17 + 13 + 10 + 2;
    assert_eq!(Message::parse(&buf[..cut]), Err(DnsError::ShortBuffer));
    // Cut inside the first answer's name instead.
    assert_eq!(Message::parse(&buf[..12 + 17 + 12]), Err(DnsError::MalformedLabel));
}

#[test]
fn oversized_data_is_rejected_before_writing() {
    let mut m = sample();
    m.answers[1].data = vec![0u8; 65536];
    let mut buf = Vec::new();
    assert_eq!(m.encode(&mut buf), Err(DnsError::EncodingSizeExceeded));
    assert!(buf.is_empty());
    m.answers[1].data = vec![0u8; 65535];
    m.encode(&mut buf).unwrap();
    let (_, back) = Message::parse(&buf).unwrap();
    assert_eq!(back.answers[1].data.len(), 65535);
}

#[test]
fn oversized_label_in_message_is_rejected() {
    let mut m = sample();
    m.questions[0].labels[0] = "z".repeat(256);
    let mut buf = Vec::new();
    assert_eq!(m.encode(&mut buf), Err(DnsError::EncodingSizeExceeded));
    assert!(buf.is_empty());
}

#[test]
fn answer_parse_and_encode() {
    let input = b"\x03one\x00\x00\x01\x00\x01\x00\x00\x00\x3C\x00\x02\x7F\x01tail";
    let (rest, (a, offset)) = AnswerSection::parse(input).unwrap();
    assert_eq!(rest, b"tail");
    let n = input.len() - 4;
    assert_eq!(offset, None);
    assert_eq!(
        a,
        AnswerSection {
            labels: vec!["one".to_string()],
            rr_type: ResourceRecordType::A,
            rr_class: ResourceRecordClass::IN,
            ttl: 60,
            data: vec![0x7F, 0x01],
        }
    );
    let mut buf = Vec::new();
    a.encode(&mut buf).unwrap();
    assert_eq!(buf, &input[..n]);
    assert_eq!(AnswerSection::parse(&input[..n - 1]), Err(DnsError::ShortBuffer));
}
