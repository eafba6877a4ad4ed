use dns_starter_rust::labels::{parse, resolve_offsets};
use dns_starter_rust::{
    AnswerSection, DnsError, Header, HeaderFlags, Message, OpCode, QrFlag, QuestionSection, ResourceRecordClass,
    ResourceRecordType, ResponseCode,
};

fn query_header(question_count: u16) -> Header {
    Header {
        id: 14394,
        flags: HeaderFlags {
            qr: QrFlag::Query,
            opcode: OpCode::Query,
            is_authoritative_answer: false,
            is_truncation: false,
            is_recursion_desired: true,
            is_recursion_available: false,
            response_code: ResponseCode::NoError,
        },
        question_count,
        answer_count: 0,
        authority_resource_record_count: 0,
        additional_resource_record_count: 0,
    }
}

#[test]
fn test_parse() {
    // Query to:
    // ;abc.longassdomainname.com.        IN       A
    // ;def.longassdomainname.com.        IN       A
    let input = [
        56, 58, 1, 0, 0, 2, 0, 0, 0, 0, 0, 0, 3, 97, 98, 99, 17, 108, 111, 110, 103, 97, 115, 115,
        100, 111, 109, 97, 105, 110, 110, 97, 109, 101, 3, 99, 111, 109, 0, 0, 1, 0, 1, 3, 100,
        101, 102, 192, 16, 0, 1, 0, 1,
    ];

    let (_, msg) = Message::parse(&input).unwrap();
    assert_eq!(
        msg,
        Message {
            header: Header {
                id: 14394,
                flags: HeaderFlags {
                    qr: QrFlag::Query,
                    opcode: OpCode::Query,
                    is_authoritative_answer: false,
                    is_truncation: false,
                    is_recursion_desired: true,
                    is_recursion_available: false,
                    response_code: ResponseCode::NoError,
                },
                question_count: 2,
                answer_count: 0,
                authority_resource_record_count: 0,
                additional_resource_record_count: 0,
            },
            questions: vec![
                QuestionSection {
                    labels: vec![
                        "abc".to_string(),
                        "longassdomainname".to_string(),
                        "com".to_string()
                    ],
                    rr_type: ResourceRecordType::A,
                    rr_class: ResourceRecordClass::IN
                },
                QuestionSection {
                    labels: vec![
                        "def".to_string(),
                        "longassdomainname".to_string(),
                        "com".to_string()
                    ],
                    rr_type: ResourceRecordType::A,
                    rr_class: ResourceRecordClass::IN
                }
            ],
            answers: vec![],
        }
    )
}

#[test]
fn compressed_and_expanded_decode_alike() {
    let expanded = Message {
        header: query_header(2),
        questions: vec![
            QuestionSection {
                labels: vec!["www".to_string(), "example".to_string(), "org".to_string()],
                rr_type: ResourceRecordType::A,
                rr_class: ResourceRecordClass::IN,
            },
            QuestionSection {
                labels: vec!["example".to_string(), "org".to_string()],
                rr_type: ResourceRecordType::MX,
                rr_class: ResourceRecordClass::IN,
            },
        ],
        answers: vec![],
    };
    let mut full = Vec::new();
    expanded.encode(&mut full).unwrap();
    // Second name: a bare pointer to "example.org" inside the first name.
    let mut compressed = full[..12 + 4 + 8 + 4 + 1 + 4].to_vec();
    compressed.extend_from_slice(&[0xC0, 16, 0, 15, 0, 1]);
    let (rest_compressed, from_compressed) = Message::parse(&compressed).unwrap();
    let (rest_full, from_full) = Message::parse(&full).unwrap();
    assert!(rest_compressed.is_empty());
    assert!(rest_full.is_empty());
    assert_eq!(from_compressed, from_full);
    assert_eq!(from_full, expanded);
    assert!(compressed.len() < full.len());
}

#[test]
fn later_question_compressed_with_records_after() {
    let q = |name: &str, t: ResourceRecordType| {
        let mut q = QuestionSection::new_a(name);
        q.rr_type = t;
        q
    };
    let mut header = query_header(3);
    header.answer_count = 1;
    let expanded = Message {
        header,
        questions: vec![
            q("www.example.org", ResourceRecordType::A),
            q("b.test", ResourceRecordType::MX),
            q("mail.example.org", ResourceRecordType::A),
        ],
        answers: vec![AnswerSection {
            labels: vec!["b".to_string(), "test".to_string()],
            rr_type: ResourceRecordType::TXT,
            rr_class: ResourceRecordClass::IN,
            ttl: 30,
            data: vec![0u8; 250],
        }],
    };
    let mut full = Vec::new();
    expanded.encode(&mut full).unwrap();
    // Third name: "mail" then a pointer to "example.org" in the first name.
    let mut compressed = full[..45].to_vec();
    compressed.extend_from_slice(&[4, b'm', b'a', b'i', b'l', 0xC0, 16, 0, 1, 0, 1]);
    compressed.extend_from_slice(&full[67..]);
    let (rest, from_compressed) = Message::parse(&compressed).unwrap();
    assert!(rest.is_empty());
    assert_eq!(from_compressed, expanded);
    assert!(compressed.len() < full.len());
}

#[test]
fn forward_pointer_is_rejected() {
    // The second name points at itself.
    let mut input = vec![0, 1, 0, 0, 0, 2, 0, 0, 0, 0, 0, 0];
    input.extend_from_slice(b"\x01a\x00\x00\x01\x00\x01");
    input.extend_from_slice(&[0xC0, 19, 0, 1, 0, 1]);
    assert_eq!(Message::parse(&input), Err(DnsError::InvalidCompressionPointer));
}

#[test]
fn self_pointer_is_rejected_whatever_follows() {
    let mut input = vec![0, 1, 0, 0, 0, 1, 0, 0, 0, 0, 0, 0];
    input.extend_from_slice(&[0xC0, 12, 0, 1, 0, 1]);
    assert_eq!(Message::parse(&input), Err(DnsError::InvalidCompressionPointer));
    // Even with 192 more bytes and a zero in reach.
    input.extend_from_slice(&[0u8; 200]);
    assert_eq!(Message::parse(&input), Err(DnsError::InvalidCompressionPointer));
}

#[test]
fn pointer_to_a_self_pointer_is_rejected() {
    let mut input = vec![0, 1, 0, 0, 0, 2, 0, 0, 0, 0, 0, 0];
    // First name: a pointer to itself; second name: a pointer to the first.
    input.extend_from_slice(&[0xC0, 12, 0, 1, 0, 1]);
    input.extend_from_slice(&[0xC0, 12, 0, 1, 0, 1]);
    assert_eq!(Message::parse(&input), Err(DnsError::InvalidCompressionPointer));
}

#[test]
fn pointer_beyond_the_message_is_rejected() {
    let mut input = vec![0, 1, 0, 0, 0, 1, 0, 0, 0, 0, 0, 0];
    input.extend_from_slice(&[1, b'a', 0xC0, 0xFF, 0, 1, 0, 1]);
    // 0xC0 0xFF would point to 255, beyond these 20 bytes: a label length,
    // and the name runs off the end.
    assert_eq!(Message::parse(&input), Err(DnsError::MalformedLabel));
}

#[test]
fn pointer_byte_ends_name_whatever_follows() {
    let mut input = vec![0xC0, 0x00];
    input.extend_from_slice(&[0u8; 192]);
    let (rest, (labels, offset)) = parse(&input).unwrap();
    assert!(labels.is_empty());
    assert_eq!(offset, Some(0));
    assert_eq!(rest.len(), 192);
}

#[test]
fn compressed_answer_followed_by_long_data() {
    let mut input = vec![0, 9, 0x81, 0x80, 0, 1, 0, 1, 0, 0, 0, 0];
    input.extend_from_slice(b"\x07example\x03com\x00\x00\x10\x00\x01");
    // Answer: pointer to the question's name, TXT IN, ttl 5, 200 data bytes.
    input.extend_from_slice(&[0xC0, 12, 0, 16, 0, 1, 0, 0, 0, 5, 0, 200]);
    let mut data = vec![0u8; 200];
    data[3] = 7;
    input.extend_from_slice(&data);
    let (rest, msg) = Message::parse(&input).unwrap();
    assert!(rest.is_empty());
    assert_eq!(msg.answers.len(), 1);
    assert_eq!(msg.answers[0].labels, vec!["example", "com"]);
    assert_eq!(msg.answers[0].data, data);
}

#[test]
fn chained_pointer_is_rejected() {
    let mut input = vec![0, 1, 0, 0, 0, 3, 0, 0, 0, 0, 0, 0];
    input.extend_from_slice(b"\x01a\x00\x00\x01\x00\x01");
    // Second name: "b" then a pointer to the first name.
    input.extend_from_slice(&[1, b'b', 0xC0, 12, 0, 1, 0, 1]);
    // Third name: a pointer to the second, which ends in a pointer itself.
    input.extend_from_slice(&[0xC0, 19, 0, 1, 0, 1]);
    assert_eq!(Message::parse(&input), Err(DnsError::InvalidCompressionPointer));
}

#[test]
fn labels_parse_and_resolve() {
    let input = b"\x03abc\x03com\x00rest";
    let (rest, (labels, offset)) = parse(input).unwrap();
    assert_eq!(rest, b"rest");
    assert_eq!(labels, vec!["abc", "com"]);
    assert_eq!(offset, None);

    let input = b"\x03def\xC0\x04";
    let (rest, (labels, offset)) = parse(input).unwrap();
    assert!(rest.is_empty());
    assert_eq!(labels, vec!["def"]);
    assert_eq!(offset, Some(4));

    let message = b"\x03abc\x03com\x00";
    assert_eq!(resolve_offsets(message, Some(4), 9).unwrap(), vec!["com"]);
    assert_eq!(resolve_offsets(message, None, 9).unwrap(), Vec::<String>::new());
    assert_eq!(resolve_offsets(message, Some(9), 10), Err(DnsError::InvalidCompressionPointer));
    // A pointer must point before its own record.
    assert_eq!(resolve_offsets(message, Some(4), 4), Err(DnsError::InvalidCompressionPointer));
    assert_eq!(resolve_offsets(b"\x03ab", Some(0), 3), Err(DnsError::MalformedLabel));
    // The target ends in a pointer of its own: a second hop.
    let chained = b"\x01a\x00\x01b\xC0\x00";
    assert_eq!(resolve_offsets(chained, Some(3), 7), Err(DnsError::InvalidCompressionPointer));
    let chained = [0xC0u8, 0x05, 0, 0, 0, 0];
    assert_eq!(resolve_offsets(&chained, Some(0), 6), Err(DnsError::InvalidCompressionPointer));
    assert_eq!(parse(b"\x03ab"), Err(DnsError::MalformedLabel));
}
