use vstd::prelude::*;

use crate::answer::{AnswerSection, AnswerView};
use crate::error::DnsError;
use crate::header::{Header, HeaderFlags, OpCode, QrFlag, ResponseCode};
use crate::message::{spec_parse_message, Message, MessageView};
use crate::question::{QuestionSection, QuestionView};
use crate::record_class::ResourceRecordClass;
use crate::record_type::ResourceRecordType;
use crate::text::copy_labels;

verus! {

/// Time to live, in seconds, of the answers in a reply.
pub const REPLY_TTL: u32 = 60;

/// Relies on `rand::random`, which draws a value from the thread-local
/// generator; nothing is known of the value drawn.
pub assume_specification<T>[ rand::random::<T> ]() -> (r: T)
    where
        rand::distributions::Standard: rand::distributions::Distribution<T>,
;

/// The header of a query for one question: recursion desired, every other
/// flag clear.
pub open spec fn query_header(id: u16) -> Header {
    Header {
        id,
        flags: HeaderFlags {
            qr: QrFlag::Query,
            opcode: OpCode::Query,
            is_authoritative_answer: false,
            is_truncation: false,
            is_recursion_desired: true,
            is_recursion_available: false,
            response_code: ResponseCode::NoError,
        },
        question_count: 1,
        answer_count: 0,
        authority_resource_record_count: 0,
        additional_resource_record_count: 0,
    }
}

/// The 16-bit transaction id that the random draw `random` gives: its low
/// 16 bits, so that every id can be drawn.
pub fn query_id(random: u32) -> (id: u16)
    ensures
        id == random % 0x1_0000,
{
    (random % 0x1_0000) as u16
}

/// A fresh random 16-bit transaction id.
pub fn new_query_id() -> (id: u16) {
    let r: u32 = rand::random();
    query_id(r)
}

/// The query that a datagram holds, or `None` when it does not decode: the
/// server drops such a datagram and serves the next one.
pub fn accept_query(datagram: &[u8]) -> (r: Option<Message>)
    ensures
        match spec_parse_message(datagram@) {
            Ok((_, m)) => r matches Some(msg) && msg@ == m,
            Err(_) => r is None,
        },
{
    match Message::parse(datagram) {
        Ok((_, m)) => Some(m),
        Err(_) => None,
    }
}

/// The query that asks the upstream resolver `question` under `id`.
pub fn query_message(question: QuestionSection, id: u16) -> (m: Message)
    ensures
        m@ == (MessageView {
            header: query_header(id),
            questions: seq![question@],
            answers: Seq::empty(),
        }),
{
    let mut questions: Vec<QuestionSection> = Vec::new();
    questions.push(question);
    let m = Message {
        header: Header {
            id,
            flags: HeaderFlags {
                qr: QrFlag::Query,
                opcode: OpCode::Query,
                is_authoritative_answer: false,
                is_truncation: false,
                is_recursion_desired: true,
                is_recursion_available: false,
                response_code: ResponseCode::NoError,
            },
            question_count: 1,
            answer_count: 0,
            authority_resource_record_count: 0,
            additional_resource_record_count: 0,
        },
        questions,
        answers: Vec::new(),
    };
    proof {
        assert(m@.questions =~= seq![question@]);
        assert(m@.answers =~= Seq::<AnswerView>::empty());
    }
    m
}

/// What the upstream datagram `response` gives for a query sent under
/// `id`: its one answer record, or why it is refused.
pub open spec fn spec_check_response(response: Seq<u8>, id: u16) -> Result<AnswerView, DnsError> {
    if response.len() == 0 {
        Err(DnsError::EmptyResponse)
    } else {
        match spec_parse_message(response) {
            Err(e) => Err(e),
            Ok((_, m)) => if m.header.id != id {
                Err(DnsError::IdMismatch)
            } else if m.answers.len() != 1 {
                Err(DnsError::UnexpectedAnswerCount)
            } else {
                Ok(m.answers[0])
            },
        }
    }
}

/// Accepts the upstream datagram `response` to a query sent under `id`
/// only when it decodes, carries the same id and holds exactly one answer
/// record, which is returned.
pub fn check_response(response: &[u8], id: u16) -> (r: Result<AnswerSection, DnsError>)
    ensures
        match spec_check_response(response@, id) {
            Ok(a) => r matches Ok(x) && x@ == a,
            Err(e) => r == Err::<AnswerSection, DnsError>(e),
        },
{
    if response.len() == 0 {
        return Err(DnsError::EmptyResponse);
    }
    let msg = match Message::parse(response) {
        Ok((_, m)) => m,
        Err(e) => {
            return Err(e);
        },
    };
    if msg.header.id != id {
        return Err(DnsError::IdMismatch);
    }
    if msg.answers.len() != 1 {
        return Err(DnsError::UnexpectedAnswerCount);
    }
    let mut answers = msg.answers;
    let answer = answers.remove(0);
    Ok(answer)
}

/// The header of the reply to `query` with `n` questions and as many
/// answers: same id and opcode, recursion desired as asked, and `NoError`
/// for a standard query, `NotImplemented` for any other opcode.
pub open spec fn reply_header(query: Header, n: u16) -> Header {
    Header {
        id: query.id,
        flags: HeaderFlags {
            qr: QrFlag::Reply,
            opcode: query.flags.opcode,
            is_authoritative_answer: false,
            is_truncation: false,
            is_recursion_desired: query.flags.is_recursion_desired,
            is_recursion_available: false,
            response_code: if query.flags.opcode == OpCode::Query {
                ResponseCode::NoError
            } else {
                ResponseCode::NotImplemented
            },
        },
        question_count: n,
        answer_count: n,
        authority_resource_record_count: 0,
        additional_resource_record_count: 0,
    }
}

/// The reply to `query` whose i-th question the upstream resolver answered
/// with `data[i]`: every question echoed as A/IN, and one A/IN answer for
/// each, with the same name, `REPLY_TTL` and that data.
pub fn build_reply(query: &Message, data: &Vec<Vec<u8>>) -> (m: Message)
    requires
        data@.len() == query.questions@.len(),
        query.questions@.len() <= u16::MAX,
    ensures
        m@.header == reply_header(query.header, query.questions@.len() as u16),
        m@.questions.len() == query.questions@.len(),
        m@.answers.len() == query.questions@.len(),
        forall|i: int|
            0 <= i < m@.questions.len() ==> #[trigger] m@.questions[i] == (QuestionView {
                labels: query@.questions[i].labels,
                rr_type: ResourceRecordType::A,
                rr_class: ResourceRecordClass::IN,
            }),
        forall|i: int|
            0 <= i < m@.answers.len() ==> #[trigger] m@.answers[i] == (AnswerView {
                labels: query@.questions[i].labels,
                rr_type: ResourceRecordType::A,
                rr_class: ResourceRecordClass::IN,
                ttl: REPLY_TTL,
                data: data@[i]@,
            }),
{
    let n = query.questions.len();
    let mut questions: Vec<QuestionSection> = Vec::new();
    let mut answers: Vec<AnswerSection> = Vec::new();
    let mut i: usize = 0;
    while i < n
        invariant
            n == query.questions@.len(),
            n == data@.len(),
            i <= n,
            questions@.len() == i,
            answers@.len() == i,
            forall|j: int|
                0 <= j < i ==> #[trigger] questions@[j]@ == (QuestionView {
                    labels: query@.questions[j].labels,
                    rr_type: ResourceRecordType::A,
                    rr_class: ResourceRecordClass::IN,
                }),
            forall|j: int|
                0 <= j < i ==> #[trigger] answers@[j]@ == (AnswerView {
                    labels: query@.questions[j].labels,
                    rr_type: ResourceRecordType::A,
                    rr_class: ResourceRecordClass::IN,
                    ttl: REPLY_TTL,
                    data: data@[j]@,
                }),
        decreases n - i,
    {
        proof {
            assert(query@.questions[i as int] == query.questions@[i as int]@);
        }
        questions.push(
            QuestionSection {
                labels: copy_labels(&query.questions[i].labels),
                rr_type: ResourceRecordType::A,
                rr_class: ResourceRecordClass::IN,
            },
        );
        answers.push(
            AnswerSection {
                labels: copy_labels(&query.questions[i].labels),
                rr_type: ResourceRecordType::A,
                rr_class: ResourceRecordClass::IN,
                ttl: REPLY_TTL,
                data: vstd::slice::slice_to_vec(data[i].as_slice()),
            },
        );
        i = i + 1;
    }
    let opcode = query.header.flags.opcode;
    let response_code = if opcode == OpCode::Query {
        ResponseCode::NoError
    } else {
        ResponseCode::NotImplemented
    };
    Message {
        header: Header {
            id: query.header.id,
            flags: HeaderFlags {
                qr: QrFlag::Reply,
                opcode,
                is_authoritative_answer: false,
                is_truncation: false,
                is_recursion_desired: query.header.flags.is_recursion_desired,
                is_recursion_available: false,
                response_code,
            },
            question_count: n as u16,
            answer_count: n as u16,
            authority_resource_record_count: 0,
            additional_resource_record_count: 0,
        },
        questions,
        answers,
    }
}

} // verus!
