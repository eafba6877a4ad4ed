use dns_starter_rust::forward::{
    accept_query, build_reply, check_response, new_query_id, query_id, query_message,
};
use dns_starter_rust::{
    AnswerSection, DnsError, Header, HeaderFlags, Message, OpCode, QrFlag, QuestionSection,
    ResourceRecordClass, ResourceRecordType, ResponseCode,
};

fn response(id: u16, answers: Vec<AnswerSection>) -> Vec<u8> {
    let m = Message {
        header: Header {
            id,
            flags: HeaderFlags {
                qr: QrFlag::Reply,
                opcode: OpCode::Query,
                is_authoritative_answer: false,
                is_truncation: false,
                is_recursion_desired: true,
                is_recursion_available: true,
                response_code: ResponseCode::NoError,
            },
            question_count: 0,
            answer_count: answers.len() as u16,
            authority_resource_record_count: 0,
            additional_resource_record_count: 0,
        },
        questions: vec![],
        answers,
    };
    let mut buf = Vec::new();
    m.encode(&mut buf).unwrap();
    buf
}

fn answer() -> AnswerSection {
    AnswerSection {
        labels: vec!["example".to_string(), "com".to_string()],
        rr_type: ResourceRecordType::A,
        rr_class: ResourceRecordClass::IN,
        ttl: 300,
        data: vec![93, 184, 216, 34],
    }
}

#[test]
fn ids_cover_sixteen_bits() {
    assert_eq!(query_id(0), 0);
    assert_eq!(query_id(65535), 65535);
    assert_eq!(query_id(65536), 0);
    assert_eq!(query_id(70000), 4464);
    assert_eq!(query_id(u32::MAX), 0xFFFF);
    let ids: Vec<u16> = (0..64).map(|_| new_query_id()).collect();
    assert!(ids.iter().any(|&id| id != ids[0]));
}

#[test]
fn datagrams_that_do_not_decode_are_dropped() {
    assert!(accept_query(&[0u8; 5]).is_none());
    let bytes = response(3, vec![answer()]);
    let m = accept_query(&bytes).unwrap();
    assert_eq!(m.header.id, 3);
    assert_eq!(m.answers, vec![answer()]);
}

#[test]
fn query_asks_for_recursion() {
    let q = QuestionSection::new_a("example.com");
    let m = query_message(q.clone(), 0x4242);
    assert_eq!(m.header.id, 0x4242);
    assert_eq!(m.header.flags.qr, QrFlag::Query);
    assert_eq!(m.header.flags.opcode, OpCode::Query);
    assert!(m.header.flags.is_recursion_desired);
    assert!(!m.header.flags.is_recursion_available);
    assert_eq!(m.header.question_count, 1);
    assert_eq!(m.header.answer_count, 0);
    assert_eq!(m.questions, vec![q]);
    assert!(m.answers.is_empty());
    let mut buf = Vec::new();
    m.encode(&mut buf).unwrap();
    assert_eq!(&buf[..4], &[0x42, 0x42, 0x01, 0x00]);
}

#[test]
fn response_with_one_answer_is_accepted() {
    let bytes = response(7, vec![answer()]);
    assert_eq!(check_response(&bytes, 7), Ok(answer()));
}

#[test]
fn empty_response_is_rejected() {
    assert_eq!(check_response(&[], 7), Err(DnsError::EmptyResponse));
}

#[test]
fn response_with_other_id_is_rejected() {
    let bytes = response(8, vec![answer()]);
    assert_eq!(check_response(&bytes, 7), Err(DnsError::IdMismatch));
}

#[test]
fn response_without_exactly_one_answer_is_rejected() {
    let bytes = response(7, vec![]);
    assert_eq!(check_response(&bytes, 7), Err(DnsError::UnexpectedAnswerCount));
    let bytes = response(7, vec![answer(), answer()]);
    assert_eq!(check_response(&bytes, 7), Err(DnsError::UnexpectedAnswerCount));
}

#[test]
fn malformed_response_is_rejected() {
    assert_eq!(check_response(&[0, 7, 0x80], 7), Err(DnsError::ShortBuffer));
}

#[test]
fn reply_echoes_questions_and_answers_each() {
    let query = Message {
        header: Header {
            id: 99,
            flags: HeaderFlags {
                qr: QrFlag::Query,
                opcode: OpCode::Query,
                is_authoritative_answer: false,
                is_truncation: false,
                is_recursion_desired: true,
                is_recursion_available: false,
                response_code: ResponseCode::NoError,
            },
            question_count: 2,
            answer_count: 0,
            authority_resource_record_count: 0,
            additional_resource_record_count: 0,
        },
        questions: vec![
            QuestionSection {
                labels: vec!["a".to_string(), "org".to_string()],
                rr_type: ResourceRecordType::MX,
                rr_class: ResourceRecordClass::CH,
            },
            QuestionSection::new_a("b.net"),
        ],
        answers: vec![],
    };
    let data = vec![vec![1, 2, 3, 4], vec![5, 6, 7, 8]];
    let reply = build_reply(&query, &data);
    assert_eq!(reply.header.id, 99);
    assert_eq!(reply.header.flags.qr, QrFlag::Reply);
    assert_eq!(reply.header.flags.response_code, ResponseCode::NoError);
    assert!(reply.header.flags.is_recursion_desired);
    assert_eq!(reply.header.question_count, 2);
    assert_eq!(reply.header.answer_count, 2);
    assert_eq!(reply.questions[0].labels, vec!["a", "org"]);
    assert_eq!(reply.questions[0].rr_type, ResourceRecordType::A);
    assert_eq!(reply.questions[0].rr_class, ResourceRecordClass::IN);
    assert_eq!(
        reply.answers[1],
        AnswerSection {
            labels: vec!["b".to_string(), "net".to_string()],
            rr_type: ResourceRecordType::A,
            rr_class: ResourceRecordClass::IN,
            ttl: 60,
            data: vec![5, 6, 7, 8],
        }
    );
}

#[test]
fn reply_to_other_opcode_is_not_implemented() {
    let mut query = query_message(QuestionSection::new_a("x.y"), 5);
    query.header.flags.opcode = OpCode::Status;
    query.header.flags.is_recursion_desired = false;
    let reply = build_reply(&query, &vec![vec![]]);
    assert_eq!(reply.header.flags.opcode, OpCode::Status);
    assert_eq!(reply.header.flags.response_code, ResponseCode::NotImplemented);
    assert!(!reply.header.flags.is_recursion_desired);
}
