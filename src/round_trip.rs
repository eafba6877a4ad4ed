//! Proofs that decoding inverts encoding, with and without compression.

use vstd::prelude::*;
use vstd::utf8::{encode_utf8, encode_utf8_decode_utf8, encode_utf8_valid_utf8};

use crate::answer::{
    answer_after, answer_bytes, spec_parse_answer, spec_parse_answer_alone, AnswerView,
};
use crate::error::DnsError;
use crate::header::{
    flags_bytes, header_bytes, header_from_bytes, lemma_flags_round_trip, spec_parse_header,
    Header, HEADER_LEN,
};
use crate::labels::{
    label_bytes, labels_bytes, labels_fit, name_bytes, pointer_at, pointer_offset,
    prepend_segments, read_name, segment, spec_parse_name, spec_resolve, POINTER_LIMIT,
};
use crate::message::{
    answers_bytes, message_bytes, message_fits, questions_bytes, resolve_answers,
    resolve_questions, spec_parse_answers, spec_parse_message, spec_parse_questions, MessageView,
    Pending,
};
use crate::question::{
    question_after, question_bytes, spec_parse_question, spec_parse_question_alone, QuestionView,
};
use crate::text::{label_text, label_texts};
use crate::wire::{lemma_u16_round_trip, lemma_u32_round_trip, read_be_u16, read_be_u32, u16_bytes, u32_bytes};

verus! {

/// Every label is non-empty and at most 255 bytes long in UTF-8, so that
/// it is written as one length-prefixed segment that no reader takes for a
/// terminator; and no length byte of 192 or more can, with any byte after
/// it, point below `limit`, so that no reader takes it for a pointer.
pub open spec fn labels_ok(ls: Seq<Seq<char>>, limit: int) -> bool {
    forall|i: int|
        0 <= i < ls.len() ==> 1 <= #[trigger] encode_utf8(ls[i]).len() <= 255 && (encode_utf8(
            ls[i],
        ).len() < 192 || (encode_utf8(ls[i]).len() - 192) * 256 >= limit)
}

/// Labels readable below one limit are readable below any lower one.
pub proof fn lemma_labels_ok_lower(ls: Seq<Seq<char>>, limit: int, lower: int)
    requires
        labels_ok(ls, limit),
        lower <= limit,
    ensures
        labels_ok(ls, lower),
{
}

/// `bytes` stands in `buf` from position `p` on.
pub open spec fn bytes_at(buf: Seq<u8>, p: int, bytes: Seq<u8>) -> bool {
    0 <= p && p + bytes.len() <= buf.len() && buf.subrange(p, p + bytes.len()) == bytes
}

/// The UTF-8 encodings of a list of labels.
pub open spec fn encodings(ls: Seq<Seq<char>>) -> Seq<Seq<u8>> {
    ls.map_values(|t: Seq<char>| encode_utf8(t))
}

pub proof fn lemma_bytes_at_split(buf: Seq<u8>, p: int, a: Seq<u8>, b: Seq<u8>)
    requires
        bytes_at(buf, p, a + b),
    ensures
        bytes_at(buf, p, a),
        bytes_at(buf, p + a.len(), b),
{
    let w = buf.subrange(p, p + a.len() + b.len());
    assert(w =~= a + b);
    assert(buf.subrange(p, p + a.len()) =~= a) by {
        assert forall|i: int| 0 <= i < a.len() implies buf.subrange(p, p + a.len())[i] == a[i] by {
            assert(w[i] == buf[p + i]);
            assert(w[i] == (a + b)[i]);
        }
    }
    assert(buf.subrange(p + a.len(), p + a.len() + b.len()) =~= b) by {
        assert forall|i: int| 0 <= i < b.len() implies buf.subrange(
            p + a.len(),
            p + a.len() + b.len(),
        )[i] == b[i] by {
            assert(w[a.len() + i] == buf[p + a.len() + i]);
            assert(w[a.len() + i] == (a + b)[a.len() + i]);
        }
    }
}

/// `labels_bytes`, taken apart from the front.
pub proof fn lemma_labels_bytes_front(ls: Seq<Seq<char>>)
    requires
        ls.len() > 0,
    ensures
        labels_bytes(ls) == label_bytes(ls[0]) + labels_bytes(ls.drop_first()),
    decreases ls.len(),
{
    if ls.len() == 1 {
        assert(ls.drop_last() =~= Seq::<Seq<char>>::empty());
        assert(ls.drop_first() =~= Seq::<Seq<char>>::empty());
        assert(labels_bytes(ls) =~= label_bytes(ls[0]) + labels_bytes(ls.drop_first()));
    } else {
        lemma_labels_bytes_front(ls.drop_last());
        assert(ls.drop_last().drop_first() =~= ls.drop_first().drop_last());
        assert(ls.drop_first().last() == ls.last());
        assert(labels_bytes(ls) =~= label_bytes(ls[0]) + labels_bytes(ls.drop_first()));
    }
}

/// Reading a fully expanded name gives back the encodings of its labels,
/// no pointer, and stops just after its terminator.
pub proof fn lemma_read_name_of(buf: Seq<u8>, p: int, ls: Seq<Seq<char>>, limit: int)
    requires
        labels_ok(ls, limit),
        bytes_at(buf, p, name_bytes(ls)),
    ensures
        read_name(buf, p, limit) == Some::<(Seq<Seq<u8>>, Option<u16>, int)>(
            (encodings(ls), None, p + name_bytes(ls).len()),
        ),
    decreases ls.len(),
{
    if ls.len() == 0 {
        assert(name_bytes(ls) =~= seq![0u8]);
        assert(buf[p] == buf.subrange(p, p + 1)[0]);
        assert(encodings(ls) =~= Seq::<Seq<u8>>::empty());
    } else {
        let t = ls[0];
        let b = encode_utf8(t);
        let rest = ls.drop_first();
        lemma_labels_bytes_front(ls);
        assert(name_bytes(ls) =~= seq![b.len() as u8] + b + name_bytes(rest));
        lemma_bytes_at_split(buf, p, seq![b.len() as u8] + b, name_bytes(rest));
        lemma_bytes_at_split(buf, p, seq![b.len() as u8], b);
        assert(buf[p] == buf.subrange(p, p + 1)[0]);
        assert(buf[p] == b.len());
        assert(segment(buf, p) =~= b);
        lemma_not_pointer(buf, p, limit);
        assert(labels_ok(rest, limit)) by {
            assert forall|i: int| 0 <= i < rest.len() implies 1 <= #[trigger] encode_utf8(
                rest[i],
            ).len() <= 255 && (encode_utf8(rest[i]).len() < 192 || (encode_utf8(rest[i]).len()
                - 192) * 256 >= limit) by {
                assert(rest[i] == ls[i + 1]);
            }
        }
        lemma_read_name_of(buf, p + 1 + b.len(), rest, limit);
        assert(encodings(ls) =~= seq![b] + encodings(rest));
    }
}

/// A length byte below 192, or one whose pointer reading cannot reach below
/// `limit`, is not read as a pointer.
pub proof fn lemma_not_pointer(buf: Seq<u8>, p: int, limit: int)
    requires
        0 <= p < buf.len(),
        buf[p] < 192 || (buf[p] - 192) * 256 >= limit,
    ensures
        !pointer_at(buf, p, limit),
{
    if p + 2 <= buf.len() && buf[p] >= 192 {
        assert(pointer_offset(buf[p], buf[p + 1]) >= (buf[p] - 192) * 256);
    }
}

/// The texts of the encodings of labels are the labels.
pub proof fn lemma_texts_of_encodings(ls: Seq<Seq<char>>)
    ensures
        label_texts(encodings(ls)) == ls,
{
    broadcast use encode_utf8_valid_utf8, encode_utf8_decode_utf8;

    assert forall|i: int| 0 <= i < ls.len() implies #[trigger] label_texts(encodings(ls))[i]
        == ls[i] by {
        assert(encodings(ls)[i] == encode_utf8(ls[i]));
        assert(label_text(encode_utf8(ls[i])) == ls[i]);
    }
    assert(label_texts(encodings(ls)) =~= ls);
}

/// Decoding a fully expanded name gives back its labels, with no pointer.
pub proof fn lemma_parse_name_of(buf: Seq<u8>, p: int, ls: Seq<Seq<char>>, limit: int)
    requires
        labels_ok(ls, limit),
        bytes_at(buf, p, name_bytes(ls)),
    ensures
        spec_parse_name(buf, p, limit) matches Ok((segs, None, end)) && label_texts(segs) == ls
            && end == p + name_bytes(ls).len(),
{
    lemma_read_name_of(buf, p, ls, limit);
    lemma_texts_of_encodings(ls);
}

/// A message that encoding writes without compression and that decoding
/// reads back: its counts match its records, all record data is at most
/// 65535 bytes, and every label is non-empty, at most 255 bytes, and, if
/// 192 bytes or longer, so long that its length byte cannot point back
/// into the message (a 255-byte label, in a message under 16128 bytes).
pub open spec fn well_formed(m: MessageView) -> bool {
    let n = message_bytes(m).len() as int;
    &&& m.header.question_count == m.questions.len()
    &&& m.header.answer_count == m.answers.len()
    &&& forall|i: int| 0 <= i < m.questions.len() ==> labels_ok(#[trigger] m.questions[i].labels, n)
    &&& forall|i: int|
        0 <= i < m.answers.len() ==> labels_ok(#[trigger] m.answers[i].labels, n)
            && m.answers[i].data.len() <= 65535
}

pub proof fn lemma_read_u16_at(buf: Seq<u8>, p: int, x: u16)
    requires
        bytes_at(buf, p, u16_bytes(x)),
    ensures
        read_be_u16(buf, p) == x,
{
    assert(buf[p] == buf.subrange(p, p + 2)[0]);
    assert(buf[p + 1] == buf.subrange(p, p + 2)[1]);
    lemma_u16_round_trip(x);
}

pub proof fn lemma_read_u32_at(buf: Seq<u8>, p: int, x: u32)
    requires
        bytes_at(buf, p, u32_bytes(x)),
    ensures
        read_be_u32(buf, p) == x,
{
    let w = buf.subrange(p, p + 4);
    assert(buf[p] == w[0]);
    assert(buf[p + 1] == w[1]);
    assert(buf[p + 2] == w[2]);
    assert(buf[p + 3] == w[3]);
    lemma_u32_round_trip(x);
}

/// Decoding the bytes of a header at the start of a buffer gives it back.
pub proof fn lemma_parse_header_of(buf: Seq<u8>, h: Header)
    requires
        bytes_at(buf, 0, header_bytes(h)),
    ensures
        spec_parse_header(buf) == Ok::<(usize, Header), DnsError>((HEADER_LEN, h)),
{
    lemma_flags_round_trip(h.flags);
    let a = u16_bytes(h.id);
    let f = flags_bytes(h.flags);
    let b = u16_bytes(h.question_count);
    let c = u16_bytes(h.answer_count);
    let d = u16_bytes(h.authority_resource_record_count);
    let e = u16_bytes(h.additional_resource_record_count);
    reveal(header_bytes);
    assert(header_bytes(h) == a + f + b + c + d + e);
    lemma_bytes_at_split(buf, 0, a + f + b + c + d, e);
    lemma_bytes_at_split(buf, 0, a + f + b + c, d);
    lemma_bytes_at_split(buf, 0, a + f + b, c);
    lemma_bytes_at_split(buf, 0, a + f, b);
    lemma_bytes_at_split(buf, 0, a, f);
    lemma_read_u16_at(buf, 0, h.id);
    lemma_read_u16_at(buf, 4, h.question_count);
    lemma_read_u16_at(buf, 6, h.answer_count);
    lemma_read_u16_at(buf, 8, h.authority_resource_record_count);
    lemma_read_u16_at(buf, 10, h.additional_resource_record_count);
    assert(buf[2] == buf.subrange(2, 4)[0]);
    assert(buf[3] == buf.subrange(2, 4)[1]);
    lemma_flags_round_trip(h.flags);
    assert(header_from_bytes(buf) == h);
}

/// Decoding the bytes of a question record gives it back, with no pointer.
pub proof fn lemma_parse_question_of(buf: Seq<u8>, p: int, q: QuestionView, limit: int)
    requires
        labels_ok(q.labels, limit),
        bytes_at(buf, p, question_bytes(q)),
    ensures
        question_after(buf, spec_parse_name(buf, p, limit)) == Ok::<(QuestionView, Option<u16>, int), DnsError>(
            (q, None, p + question_bytes(q).len()),
        ),
{
    let nb = name_bytes(q.labels);
    let tb = u16_bytes(q.rr_type.spec_code());
    let cb = u16_bytes(q.rr_class.spec_code());
    lemma_bytes_at_split(buf, p, nb + tb, cb);
    lemma_bytes_at_split(buf, p, nb, tb);
    lemma_parse_name_of(buf, p, q.labels, limit);
    lemma_read_u16_at(buf, p + nb.len(), q.rr_type.spec_code());
    lemma_read_u16_at(buf, p + nb.len() + 2, q.rr_class.spec_code());
    q.rr_type.lemma_code_round_trip();
    q.rr_class.lemma_code_round_trip();
}

/// Decoding the bytes of an answer record gives it back, with no pointer.
pub proof fn lemma_parse_answer_of(buf: Seq<u8>, p: int, a: AnswerView, limit: int)
    requires
        labels_ok(a.labels, limit),
        a.data.len() <= 65535,
        bytes_at(buf, p, answer_bytes(a)),
    ensures
        answer_after(buf, spec_parse_name(buf, p, limit)) == Ok::<(AnswerView, Option<u16>, int), DnsError>(
            (a, None, p + answer_bytes(a).len()),
        ),
{
    let nb = name_bytes(a.labels);
    let tb = u16_bytes(a.rr_type.spec_code());
    let cb = u16_bytes(a.rr_class.spec_code());
    let lb = u32_bytes(a.ttl);
    let db = u16_bytes(a.data.len() as u16);
    assert(answer_bytes(a) == nb + tb + cb + lb + db + a.data);
    lemma_bytes_at_split(buf, p, nb + tb + cb + lb + db, a.data);
    lemma_bytes_at_split(buf, p, nb + tb + cb + lb, db);
    lemma_bytes_at_split(buf, p, nb + tb + cb, lb);
    lemma_bytes_at_split(buf, p, nb + tb, cb);
    lemma_bytes_at_split(buf, p, nb, tb);
    lemma_parse_name_of(buf, p, a.labels, limit);
    let e = p + nb.len();
    lemma_read_u16_at(buf, e, a.rr_type.spec_code());
    lemma_read_u16_at(buf, e + 2, a.rr_class.spec_code());
    lemma_read_u32_at(buf, e + 4, a.ttl);
    lemma_read_u16_at(buf, e + 8, a.data.len() as u16);
    a.rr_type.lemma_code_round_trip();
    a.rr_class.lemma_code_round_trip();
    assert(buf.subrange(e + 10, e + 10 + a.data.len()) == a.data);
}

/// `questions_bytes`, taken apart from the front.
pub proof fn lemma_questions_bytes_front(qs: Seq<QuestionView>)
    requires
        qs.len() > 0,
    ensures
        questions_bytes(qs) == question_bytes(qs[0]) + questions_bytes(qs.drop_first()),
    decreases qs.len(),
{
    if qs.len() == 1 {
        assert(qs.drop_last() =~= Seq::<QuestionView>::empty());
        assert(qs.drop_first() =~= Seq::<QuestionView>::empty());
        assert(questions_bytes(qs) =~= question_bytes(qs[0]) + questions_bytes(qs.drop_first()));
    } else {
        lemma_questions_bytes_front(qs.drop_last());
        assert(qs.drop_last().drop_first() =~= qs.drop_first().drop_last());
        assert(qs.drop_first().last() == qs.last());
        assert(questions_bytes(qs) =~= question_bytes(qs[0]) + questions_bytes(qs.drop_first()));
    }
}

/// `answers_bytes`, taken apart from the front.
pub proof fn lemma_answers_bytes_front(ans: Seq<AnswerView>)
    requires
        ans.len() > 0,
    ensures
        answers_bytes(ans) == answer_bytes(ans[0]) + answers_bytes(ans.drop_first()),
    decreases ans.len(),
{
    if ans.len() == 1 {
        assert(ans.drop_last() =~= Seq::<AnswerView>::empty());
        assert(ans.drop_first() =~= Seq::<AnswerView>::empty());
        assert(answers_bytes(ans) =~= answer_bytes(ans[0]) + answers_bytes(ans.drop_first()));
    } else {
        lemma_answers_bytes_front(ans.drop_last());
        assert(ans.drop_last().drop_first() =~= ans.drop_first().drop_last());
        assert(ans.drop_first().last() == ans.last());
        assert(answers_bytes(ans) =~= answer_bytes(ans[0]) + answers_bytes(ans.drop_first()));
    }
}

/// `xs` holds the records `vs` in order, none with a pending pointer.
pub open spec fn plain_records<V>(xs: Seq<Pending<V>>, vs: Seq<V>) -> bool {
    &&& xs.len() == vs.len()
    &&& forall|i: int| 0 <= i < vs.len() ==> (#[trigger] xs[i]).record == vs[i] && xs[i].offset is None
}

/// Decoding the bytes of a list of question records gives them back, all
/// without pointers.
pub proof fn lemma_parse_questions_of(buf: Seq<u8>, p: int, qs: Seq<QuestionView>)
    requires
        forall|i: int| 0 <= i < qs.len() ==> labels_ok(#[trigger] qs[i].labels, buf.len() as int),
        bytes_at(buf, p, questions_bytes(qs)),
    ensures
        spec_parse_questions(buf, p, qs.len()) is Ok,
        spec_parse_questions(buf, p, qs.len())->Ok_0.1 == p + questions_bytes(qs).len(),
        plain_records(spec_parse_questions(buf, p, qs.len())->Ok_0.0, qs),
    decreases qs.len(),
{
    if qs.len() > 0 {
        let rest = qs.drop_first();
        lemma_questions_bytes_front(qs);
        lemma_bytes_at_split(buf, p, question_bytes(qs[0]), questions_bytes(rest));
        lemma_parse_question_of(buf, p, qs[0], buf.len() as int);
        assert forall|i: int| 0 <= i < rest.len() implies labels_ok(
            #[trigger] rest[i].labels,
            buf.len() as int,
        ) by {
            assert(rest[i] == qs[i + 1]);
        }
        lemma_parse_questions_of(buf, p + question_bytes(qs[0]).len(), rest);
        let e0 = p + question_bytes(qs[0]).len();
        assert((qs.len() - 1) as nat == rest.len());
        let (pr, end) = spec_parse_questions(buf, e0, rest.len())->Ok_0;
        assert(spec_parse_questions(buf, p, qs.len()) == Ok::<(Seq<Pending<_>>, int), DnsError>(
            (seq![Pending { record: qs[0], offset: None, start: p }] + pr, end),
        ));
        let pq = seq![Pending { record: qs[0], offset: None, start: p }] + pr;
        assert forall|i: int| 0 <= i < qs.len() implies #[trigger] pq[i].record == qs[i]
            && pq[i].offset is None by {
            if i > 0 {
                assert(pq[i] == pr[i - 1]);
                assert(rest[i - 1] == qs[i]);
            }
        }
        assert(plain_records(pq, qs));
        assert(spec_parse_questions(buf, p, qs.len())->Ok_0.0 == pq);
    }
}

/// Decoding the bytes of a list of answer records gives them back, all
/// without pointers.
pub proof fn lemma_parse_answers_of(buf: Seq<u8>, p: int, ans: Seq<AnswerView>)
    requires
        forall|i: int|
            0 <= i < ans.len() ==> labels_ok(#[trigger] ans[i].labels, buf.len() as int)
                && ans[i].data.len() <= 65535,
        bytes_at(buf, p, answers_bytes(ans)),
    ensures
        spec_parse_answers(buf, p, ans.len()) is Ok,
        spec_parse_answers(buf, p, ans.len())->Ok_0.1 == p + answers_bytes(ans).len(),
        plain_records(spec_parse_answers(buf, p, ans.len())->Ok_0.0, ans),
    decreases ans.len(),
{
    if ans.len() > 0 {
        let rest = ans.drop_first();
        lemma_answers_bytes_front(ans);
        lemma_bytes_at_split(buf, p, answer_bytes(ans[0]), answers_bytes(rest));
        lemma_parse_answer_of(buf, p, ans[0], buf.len() as int);
        assert forall|i: int| 0 <= i < rest.len() implies labels_ok(
            #[trigger] rest[i].labels,
            buf.len() as int,
        ) && rest[i].data.len() <= 65535 by {
            assert(rest[i] == ans[i + 1]);
        }
        lemma_parse_answers_of(buf, p + answer_bytes(ans[0]).len(), rest);
        let e0 = p + answer_bytes(ans[0]).len();
        assert((ans.len() - 1) as nat == rest.len());
        let (pr, end) = spec_parse_answers(buf, e0, rest.len())->Ok_0;
        assert(spec_parse_answers(buf, p, ans.len()) == Ok::<(Seq<Pending<_>>, int), DnsError>(
            (seq![Pending { record: ans[0], offset: None, start: p }] + pr, end),
        ));
        let pa = seq![Pending { record: ans[0], offset: None, start: p }] + pr;
        assert forall|i: int| 0 <= i < ans.len() implies #[trigger] pa[i].record == ans[i]
            && pa[i].offset is None by {
            if i > 0 {
                assert(pa[i] == pr[i - 1]);
                assert(rest[i - 1] == ans[i]);
            }
        }
    }
}

/// Pending question records without pointers resolve to themselves.
pub proof fn lemma_resolve_questions_plain(buf: Seq<u8>, xs: Seq<Pending<QuestionView>>)
    requires
        forall|i: int| 0 <= i < xs.len() ==> (#[trigger] xs[i]).offset is None,
    ensures
        resolve_questions(buf, xs) matches Ok(qs) && plain_records(xs, qs),
    decreases xs.len(),
{
    if xs.len() > 0 {
        let init = xs.drop_last();
        assert forall|i: int| 0 <= i < init.len() implies (#[trigger] init[i]).offset is None by {
            assert(init[i] == xs[i]);
        }
        lemma_resolve_questions_plain(buf, init);
        let r = xs.last().record;
        assert(r.labels + Seq::<Seq<char>>::empty() =~= r.labels);
        let qs = resolve_questions(buf, init)->Ok_0;
        assert forall|i: int| 0 <= i < xs.len() implies #[trigger] qs.push(
            QuestionView { labels: r.labels + Seq::<Seq<char>>::empty(), ..r },
        )[i] == xs[i].record by {
            if i < init.len() {
                assert(init[i] == xs[i]);
            }
        }
    }
}

/// Pending answer records without pointers resolve to themselves.
pub proof fn lemma_resolve_answers_plain(buf: Seq<u8>, xs: Seq<Pending<AnswerView>>)
    requires
        forall|i: int| 0 <= i < xs.len() ==> (#[trigger] xs[i]).offset is None,
    ensures
        resolve_answers(buf, xs) matches Ok(ans) && plain_records(xs, ans),
    decreases xs.len(),
{
    if xs.len() > 0 {
        let init = xs.drop_last();
        assert forall|i: int| 0 <= i < init.len() implies (#[trigger] init[i]).offset is None by {
            assert(init[i] == xs[i]);
        }
        lemma_resolve_answers_plain(buf, init);
        let r = xs.last().record;
        assert(r.labels + Seq::<Seq<char>>::empty() =~= r.labels);
        let ans = resolve_answers(buf, init)->Ok_0;
        assert forall|i: int| 0 <= i < xs.len() implies #[trigger] ans.push(
            AnswerView { labels: r.labels + Seq::<Seq<char>>::empty(), ..r },
        )[i] == xs[i].record by {
            if i < init.len() {
                assert(init[i] == xs[i]);
            }
        }
    }
}

/// A message decodes to the parts that its steps give.
proof fn lemma_parse_message_parts(
    buf: Seq<u8>,
    h: Header,
    pq: Seq<Pending<QuestionView>>,
    e1: int,
    pa: Seq<Pending<AnswerView>>,
    e2: int,
    qs: Seq<QuestionView>,
    ans: Seq<AnswerView>,
)
    requires
        spec_parse_header(buf) == Ok::<(usize, Header), DnsError>((HEADER_LEN, h)),
        spec_parse_questions(buf, HEADER_LEN as int, h.question_count as nat) == Ok::<
            (Seq<Pending<QuestionView>>, int),
            DnsError,
        >((pq, e1)),
        spec_parse_answers(buf, e1, h.answer_count as nat) == Ok::<
            (Seq<Pending<AnswerView>>, int),
            DnsError,
        >((pa, e2)),
        resolve_questions(buf, pq) == Ok::<Seq<QuestionView>, DnsError>(qs),
        resolve_answers(buf, pa) == Ok::<Seq<AnswerView>, DnsError>(ans),
    ensures
        spec_parse_message(buf) == Ok::<(int, MessageView), DnsError>(
            (e2, MessageView { header: h, questions: qs, answers: ans }),
        ),
{
    reveal(spec_parse_message);
}

/// Decoding a buffer that holds the encoding of a well-formed message
/// gives back the message, having read its encoding.
proof fn lemma_parse_encoded_message(buf: Seq<u8>, m: MessageView)
    requires
        well_formed(m),
        buf == header_bytes(m.header) + questions_bytes(m.questions) + answers_bytes(m.answers),
    ensures
        spec_parse_message(buf) == Ok::<(int, MessageView), DnsError>((buf.len() as int, m)),
{
    let hb = header_bytes(m.header);
    let qb = questions_bytes(m.questions);
    let ab = answers_bytes(m.answers);
    let n = buf.len() as int;
    assert(n == message_bytes(m).len());
    assert forall|i: int| 0 <= i < m.questions.len() implies labels_ok(
        #[trigger] m.questions[i].labels,
        n,
    ) by {
        assert(labels_ok(m.questions[i].labels, message_bytes(m).len() as int));
    }
    assert forall|i: int| 0 <= i < m.answers.len() implies labels_ok(
        #[trigger] m.answers[i].labels,
        n,
    ) && m.answers[i].data.len() <= 65535 by {
        assert(labels_ok(m.answers[i].labels, message_bytes(m).len() as int));
    }
    assert(buf.subrange(0, buf.len() as int) =~= buf);
    lemma_bytes_at_split(buf, 0, hb + qb, ab);
    lemma_bytes_at_split(buf, 0, hb, qb);
    lemma_parse_header_of(buf, m.header);
    crate::header::lemma_header_round_trip(m.header);
    lemma_parse_questions_of(buf, HEADER_LEN as int, m.questions);
    let (pq, e1) = spec_parse_questions(buf, HEADER_LEN as int, m.questions.len())->Ok_0;
    lemma_parse_answers_of(buf, e1, m.answers);
    let (pa, e2) = spec_parse_answers(buf, e1, m.answers.len())->Ok_0;
    assert forall|i: int| 0 <= i < pq.len() implies (#[trigger] pq[i]).offset is None by {
        assert(pq[i].offset is None);
    }
    assert forall|i: int| 0 <= i < pa.len() implies (#[trigger] pa[i]).offset is None by {
        assert(pa[i].offset is None);
    }
    lemma_resolve_questions_plain(buf, pq);
    lemma_resolve_answers_plain(buf, pa);
    let qs = resolve_questions(buf, pq)->Ok_0;
    let ans = resolve_answers(buf, pa)->Ok_0;
    assert forall|i: int| 0 <= i < qs.len() implies #[trigger] qs[i] == m.questions[i] by {
        assert(pq[i].record == qs[i]);
    }
    assert forall|i: int| 0 <= i < ans.len() implies #[trigger] ans[i] == m.answers[i] by {
        assert(pa[i].record == ans[i]);
    }
    assert(qs =~= m.questions);
    assert(ans =~= m.answers);
    lemma_parse_message_parts(buf, m.header, pq, e1, pa, e2, qs, ans);
}

/// Round trip: a well-formed message can be encoded, and decoding its
/// encoding gives back the same message, having read every byte.
pub proof fn lemma_message_round_trip(m: MessageView)
    requires
        well_formed(m),
    ensures
        message_fits(m),
        spec_parse_message(message_bytes(m)) == Ok::<(int, MessageView), DnsError>(
            (message_bytes(m).len() as int, m),
        ),
{
    lemma_parse_encoded_message(message_bytes(m), m);
    lemma_well_formed_fits(m);
}

/// A well-formed message can be encoded.
pub proof fn lemma_well_formed_fits(m: MessageView)
    requires
        well_formed(m),
    ensures
        message_fits(m),
{
    assert forall|i: int| 0 <= i < m.questions.len() implies labels_fit(
        #[trigger] m.questions[i].labels,
    ) by {
        assert(labels_ok(m.questions[i].labels, message_bytes(m).len() as int));
    }
    assert forall|i: int| 0 <= i < m.answers.len() implies crate::answer::answer_fits(
        #[trigger] m.answers[i],
    ) by {
        assert(labels_ok(m.answers[i].labels, message_bytes(m).len() as int));
    }
}

/// `labels_bytes` of two lists one after the other.
pub proof fn lemma_labels_bytes_concat(a: Seq<Seq<char>>, b: Seq<Seq<char>>)
    ensures
        labels_bytes(a + b) == labels_bytes(a) + labels_bytes(b),
    decreases b.len(),
{
    if b.len() == 0 {
        assert(a + b =~= a);
        assert(labels_bytes(a) + labels_bytes(b) =~= labels_bytes(a));
    } else {
        lemma_labels_bytes_concat(a, b.drop_last());
        assert((a + b).drop_last() =~= a + b.drop_last());
        assert((a + b).last() == b.last());
        assert(labels_bytes(a + b) =~= labels_bytes(a) + labels_bytes(b));
    }
}

/// Reading walks over labels that it cannot take for pointers in the same
/// way, whatever follows them.
pub proof fn lemma_walk_labels(buf: Seq<u8>, p: int, ls: Seq<Seq<char>>, limit: int)
    requires
        labels_ok(ls, limit),
        bytes_at(buf, p, labels_bytes(ls)),
    ensures
        read_name(buf, p, limit) == prepend_segments(
            encodings(ls),
            read_name(buf, p + labels_bytes(ls).len(), limit),
        ),
    decreases ls.len(),
{
    if ls.len() == 0 {
        match read_name(buf, p, limit) {
            Some((r, o, e)) => {
                assert(Seq::<Seq<u8>>::empty() + r =~= r);
            },
            None => {},
        }
        assert(encodings(ls) =~= Seq::<Seq<u8>>::empty());
    } else {
        let t = ls[0];
        let b = encode_utf8(t);
        let rest = ls.drop_first();
        lemma_labels_bytes_front(ls);
        assert(labels_bytes(ls) =~= seq![b.len() as u8] + b + labels_bytes(rest));
        lemma_bytes_at_split(buf, p, seq![b.len() as u8] + b, labels_bytes(rest));
        lemma_bytes_at_split(buf, p, seq![b.len() as u8], b);
        assert(buf[p] == buf.subrange(p, p + 1)[0]);
        assert(buf[p] == b.len());
        assert(segment(buf, p) =~= b);
        lemma_not_pointer(buf, p, limit);
        assert(labels_ok(rest, limit)) by {
            assert forall|i: int| 0 <= i < rest.len() implies 1 <= #[trigger] encode_utf8(
                rest[i],
            ).len() <= 255 && (encode_utf8(rest[i]).len() < 192 || (encode_utf8(rest[i]).len()
                - 192) * 256 >= limit) by {
                assert(rest[i] == ls[i + 1]);
            }
        }
        lemma_walk_labels(buf, p + 1 + b.len(), rest, limit);
        assert(encodings(ls) =~= seq![b] + encodings(rest));
        let q = p + labels_bytes(ls).len();
        match read_name(buf, q, limit) {
            Some((r, o, e)) => {
                assert(seq![b] + (encodings(rest) + r) =~= encodings(ls) + r);
            },
            None => {},
        }
    }
}

/// The two bytes of a compression pointer to `offset`.
pub open spec fn pointer_bytes(offset: int) -> Seq<u8> {
    seq![(0xC0 + offset / 256) as u8, (offset % 256) as u8]
}

/// The bytes of a question whose name is `prefix` followed by a pointer to
/// `o`.
pub open spec fn compressed_question_bytes(prefix: Seq<Seq<char>>, o: int, q: QuestionView) -> Seq<
    u8,
> {
    labels_bytes(prefix) + pointer_bytes(o) + u16_bytes(q.rr_type.spec_code()) + u16_bytes(
        q.rr_class.spec_code(),
    )
}

/// Decoding a question whose name is `prefix` followed by a pointer to an
/// offset below the limit: the labels of `prefix`, with the offset pending.
proof fn lemma_parse_compressed_question(
    buf: Seq<u8>,
    p: int,
    prefix: Seq<Seq<char>>,
    o: int,
    q: QuestionView,
    limit: int,
)
    requires
        labels_ok(prefix, limit),
        0 <= o < limit,
        o < 0x4000,
        bytes_at(buf, p, compressed_question_bytes(prefix, o, q)),
    ensures
        question_after(buf, spec_parse_name(buf, p, limit)) == Ok::<
            (QuestionView, Option<u16>, int),
            DnsError,
        >(
            (
                QuestionView { labels: prefix, ..q },
                Some(o as u16),
                p + compressed_question_bytes(prefix, o, q).len(),
            ),
        ),
{
    let lb = labels_bytes(prefix);
    let pb = pointer_bytes(o);
    let tb = u16_bytes(q.rr_type.spec_code());
    let cb = u16_bytes(q.rr_class.spec_code());
    lemma_bytes_at_split(buf, p, lb + pb + tb, cb);
    lemma_bytes_at_split(buf, p, lb + pb, tb);
    lemma_bytes_at_split(buf, p, lb, pb);
    lemma_walk_labels(buf, p, prefix, limit);
    let pp = p + lb.len();
    assert(buf[pp] == buf.subrange(pp, pp + 2)[0]);
    assert(buf[pp + 1] == buf.subrange(pp, pp + 2)[1]);
    assert(buf[pp] == pb[0]);
    assert(buf[pp + 1] == pb[1]);
    assert(buf[pp] >= 0xC0);
    assert(pointer_offset(buf[pp], buf[pp + 1]) == o);
    assert(pointer_at(buf, pp, limit));
    assert(read_name(buf, pp, limit) == Some::<(Seq<Seq<u8>>, Option<u16>, int)>(
        (Seq::empty(), Some(o as u16), pp + 2),
    ));
    assert(encodings(prefix) + Seq::<Seq<u8>>::empty() =~= encodings(prefix));
    lemma_texts_of_encodings(prefix);
    lemma_read_u16_at(buf, pp + 2, q.rr_type.spec_code());
    lemma_read_u16_at(buf, pp + 4, q.rr_class.spec_code());
    q.rr_type.lemma_code_round_trip();
    q.rr_class.lemma_code_round_trip();
}

/// The pointer to the labels of a written question's name from index `k`
/// on resolves to those labels, for any record after that question.
proof fn lemma_pointer_target(buf: Seq<u8>, base: int, q: QuestionView, k: int, start: int)
    requires
        labels_ok(q.labels, buf.len() as int),
        bytes_at(buf, base, question_bytes(q)),
        0 <= k <= q.labels.len(),
        base + question_bytes(q).len() <= start,
        base + labels_bytes(q.labels.subrange(0, k)).len() < 0x1_0000,
    ensures
        base + labels_bytes(q.labels.subrange(0, k)).len() < base + question_bytes(q).len(),
        spec_resolve(
            buf,
            Some((base + labels_bytes(q.labels.subrange(0, k)).len()) as u16),
            start,
        ) == Ok::<Seq<Seq<char>>, DnsError>(q.labels.subrange(k, q.labels.len() as int)),
{
    let head = q.labels.subrange(0, k);
    let tail = q.labels.subrange(k, q.labels.len() as int);
    let o = base + labels_bytes(head).len();
    let tc = u16_bytes(q.rr_type.spec_code()) + u16_bytes(q.rr_class.spec_code());
    assert(q.labels =~= head + tail);
    lemma_labels_bytes_concat(head, tail);
    assert(question_bytes(q) =~= labels_bytes(head) + (name_bytes(tail) + tc));
    lemma_bytes_at_split(buf, base, labels_bytes(head), name_bytes(tail) + tc);
    lemma_bytes_at_split(buf, o, name_bytes(tail), tc);
    assert(labels_ok(tail, buf.len() as int)) by {
        assert forall|i: int| 0 <= i < tail.len() implies 1 <= #[trigger] encode_utf8(
            tail[i],
        ).len() <= 255 && (encode_utf8(tail[i]).len() < 192 || (encode_utf8(tail[i]).len() - 192)
            * 256 >= buf.len()) by {
            assert(tail[i] == q.labels[k + i]);
        }
    }
    lemma_parse_name_of(buf, o, tail, buf.len() as int);
}

/// Resolving pending question records whose pointers each resolve.
proof fn lemma_resolve_questions_each(
    buf: Seq<u8>,
    xs: Seq<Pending<QuestionView>>,
    ts: Seq<Seq<Seq<char>>>,
)
    requires
        xs.len() == ts.len(),
        forall|i: int|
            0 <= i < xs.len() ==> spec_resolve(buf, (#[trigger] xs[i]).offset, xs[i].start) == Ok::<
                Seq<Seq<char>>,
                DnsError,
            >(ts[i]),
    ensures
        resolve_questions(buf, xs) == Ok::<Seq<QuestionView>, DnsError>(
            Seq::new(
                xs.len(),
                |i: int| QuestionView { labels: xs[i].record.labels + ts[i], ..xs[i].record },
            ),
        ),
    decreases xs.len(),
{
    let f = |i: int| QuestionView { labels: xs[i].record.labels + ts[i], ..xs[i].record };
    if xs.len() == 0 {
        assert(Seq::new(0, f) =~= Seq::<QuestionView>::empty());
    } else {
        let n = xs.len() - 1;
        let init = xs.drop_last();
        assert forall|i: int| 0 <= i < init.len() implies spec_resolve(
            buf,
            (#[trigger] init[i]).offset,
            init[i].start,
        ) == Ok::<Seq<Seq<char>>, DnsError>(ts.drop_last()[i]) by {
            assert(init[i] == xs[i]);
        }
        lemma_resolve_questions_each(buf, init, ts.drop_last());
        assert(xs.last() == xs[n]);
        assert(spec_resolve(buf, xs[n].offset, xs[n].start) == Ok::<Seq<Seq<char>>, DnsError>(
            ts[n],
        ));
        let g = |i: int|
            QuestionView { labels: init[i].record.labels + ts.drop_last()[i], ..init[i].record };
        assert(Seq::new(init.len(), g).push(f(n)) =~= Seq::new(xs.len(), f));
    }
}

/// Where each of five consecutive parts stands in their concatenation.
proof fn lemma_five_parts(
    buf: Seq<u8>,
    a: Seq<u8>,
    b: Seq<u8>,
    c: Seq<u8>,
    d: Seq<u8>,
    e: Seq<u8>,
)
    requires
        buf == a + b + c + d + e,
    ensures
        bytes_at(buf, 0, a),
        bytes_at(buf, a.len() as int, b),
        bytes_at(buf, (a.len() + b.len()) as int, c),
        bytes_at(buf, (a.len() + b.len() + c.len()) as int, d),
        bytes_at(buf, (a.len() + b.len() + c.len() + d.len()) as int, e),
        buf.len() == a.len() + b.len() + c.len() + d.len() + e.len(),
{
    assert(buf.subrange(0, buf.len() as int) =~= buf);
    lemma_bytes_at_split(buf, 0, a + b + c + d, e);
    lemma_bytes_at_split(buf, 0, a + b + c, d);
    lemma_bytes_at_split(buf, 0, a + b, c);
    lemma_bytes_at_split(buf, 0, a, b);
}

/// A non-empty list of readable labels takes at least two bytes.
proof fn lemma_labels_bytes_nonempty(ls: Seq<Seq<char>>, limit: int)
    requires
        ls.len() > 0,
        labels_ok(ls, limit),
    ensures
        labels_bytes(ls).len() >= 2,
{
    lemma_labels_bytes_front(ls);
    assert(1 <= encode_utf8(ls[0]).len());
}

/// How a name is read without knowing where it stands in a message: the
/// labels before a zero byte or a pointer (two bytes, top bits `11`),
/// whatever bytes follow, and just the name's bytes consumed. Labels under
/// 192 bytes are the ones readable below `POINTER_LIMIT`.
pub proof fn lemma_parse_name_layout(
    ls: Seq<Seq<char>>,
    offset: Option<u16>,
    rest: Seq<u8>,
)
    requires
        labels_ok(ls, POINTER_LIMIT as int),
        offset matches Some(o) ==> o < POINTER_LIMIT,
    ensures
        ({
            let t = match offset {
                Some(o) => pointer_bytes(o as int),
                None => seq![0u8],
            };
            let buf = labels_bytes(ls) + t + rest;
            spec_parse_name(buf, 0, POINTER_LIMIT as int) matches Ok((segs, o2, end))
                && label_texts(segs) == ls && o2 == offset && end == labels_bytes(ls).len()
                + t.len()
        }),
{
    let t = match offset {
        Some(o) => pointer_bytes(o as int),
        None => seq![0u8],
    };
    let lb = labels_bytes(ls);
    let buf = lb + t + rest;
    assert(bytes_at(buf, 0, lb + t)) by {
        assert(buf.subrange(0, (lb + t).len() as int) =~= lb + t);
    }
    lemma_bytes_at_split(buf, 0, lb, t);
    lemma_walk_labels(buf, 0, ls, POINTER_LIMIT as int);
    let pp = lb.len() as int;
    assert(buf[pp] == buf.subrange(pp, pp + t.len())[0]);
    match offset {
        Some(o) => {
            assert(buf[pp + 1] == buf.subrange(pp, pp + 2)[1]);
            assert(buf[pp] >= 0xC0);
            assert(pointer_offset(buf[pp], buf[pp + 1]) == o);
            assert(read_name(buf, pp, POINTER_LIMIT as int) == Some::<
                (Seq<Seq<u8>>, Option<u16>, int),
            >((Seq::empty(), Some(o), pp + 2)));
        },
        None => {
            assert(read_name(buf, pp, POINTER_LIMIT as int) == Some::<
                (Seq<Seq<u8>>, Option<u16>, int),
            >((Seq::empty(), None, pp + 1)));
        },
    }
    assert(encodings(ls) + Seq::<Seq<u8>>::empty() =~= encodings(ls));
    lemma_texts_of_encodings(ls);
}

/// A question record on its own, whose labels are 1 to 255 bytes long,
/// decodes back to itself from its encoding, whatever bytes follow it: its
/// name is read as labels up to the zero byte, long labels included.
pub proof fn lemma_question_alone_round_trip(q: QuestionView, rest: Seq<u8>)
    requires
        labels_ok(q.labels, 0),
    ensures
        spec_parse_question_alone(question_bytes(q) + rest) == Ok::<
            (QuestionView, Option<u16>, int),
            DnsError,
        >((q, None, question_bytes(q).len() as int)),
{
    let qb = question_bytes(q);
    let buf = qb + rest;
    let tb = u16_bytes(q.rr_type.spec_code());
    let cb = u16_bytes(q.rr_class.spec_code());
    assert(bytes_at(buf, 0, qb)) by {
        assert(buf.subrange(0, qb.len() as int) =~= qb);
    }
    lemma_bytes_at_split(buf, 0, name_bytes(q.labels) + tb, cb);
    lemma_bytes_at_split(buf, 0, name_bytes(q.labels), tb);
    lemma_read_name_of(buf, 0, q.labels, 0);
    lemma_parse_question_of(buf, 0, q, 0);
}

/// An answer record on its own, whose labels are 1 to 255 bytes long and
/// whose data fits, decodes back to itself from its encoding, whatever
/// bytes follow it.
pub proof fn lemma_answer_alone_round_trip(a: AnswerView, rest: Seq<u8>)
    requires
        labels_ok(a.labels, 0),
        a.data.len() <= 65535,
    ensures
        spec_parse_answer_alone(answer_bytes(a) + rest) == Ok::<
            (AnswerView, Option<u16>, int),
            DnsError,
        >((a, None, answer_bytes(a).len() as int)),
{
    let ab = answer_bytes(a);
    let buf = ab + rest;
    let nb = name_bytes(a.labels);
    let others = u16_bytes(a.rr_type.spec_code()) + u16_bytes(a.rr_class.spec_code()) + u32_bytes(
        a.ttl,
    ) + u16_bytes(a.data.len() as u16) + a.data;
    assert(ab =~= nb + others);
    assert(bytes_at(buf, 0, ab)) by {
        assert(buf.subrange(0, ab.len() as int) =~= ab);
    }
    lemma_bytes_at_split(buf, 0, nb, others);
    lemma_read_name_of(buf, 0, a.labels, 0);
    lemma_parse_answer_of(buf, 0, a, 0);
}

/// `questions_bytes` of two lists one after the other.
pub proof fn lemma_questions_bytes_concat(a: Seq<QuestionView>, b: Seq<QuestionView>)
    ensures
        questions_bytes(a + b) == questions_bytes(a) + questions_bytes(b),
    decreases b.len(),
{
    if b.len() == 0 {
        assert(a + b =~= a);
        assert(questions_bytes(a) + questions_bytes(b) =~= questions_bytes(a));
    } else {
        lemma_questions_bytes_concat(a, b.drop_last());
        assert((a + b).drop_last() =~= a + b.drop_last());
        assert((a + b).last() == b.last());
        assert(questions_bytes(a + b) =~= questions_bytes(a) + questions_bytes(b));
    }
}

/// Decoding `a` question records and then `b` more decodes `a + b`.
proof fn lemma_parse_questions_concat(
    buf: Seq<u8>,
    p: int,
    a: nat,
    xs: Seq<Pending<QuestionView>>,
    e: int,
    b: nat,
    ys: Seq<Pending<QuestionView>>,
    f: int,
)
    requires
        spec_parse_questions(buf, p, a) == Ok::<(Seq<Pending<QuestionView>>, int), DnsError>(
            (xs, e),
        ),
        spec_parse_questions(buf, e, b) == Ok::<(Seq<Pending<QuestionView>>, int), DnsError>(
            (ys, f),
        ),
    ensures
        spec_parse_questions(buf, p, a + b) == Ok::<(Seq<Pending<QuestionView>>, int), DnsError>(
            (xs + ys, f),
        ),
    decreases a,
{
    if a == 0 {
        assert(xs + ys =~= ys);
    } else {
        let (q, o, e1) = spec_parse_question(buf, p)->Ok_0;
        let (rest, e2) = spec_parse_questions(buf, e1, (a - 1) as nat)->Ok_0;
        assert(e2 == e);
        lemma_parse_questions_concat(buf, e1, (a - 1) as nat, rest, e, b, ys, f);
        assert(((a + b) - 1) as nat == (a - 1) as nat + b);
        assert(seq![Pending { record: q, offset: None::<u16>, start: p }].len() == 1);
        let x = Pending { record: q, offset: o, start: p };
        assert(xs == seq![x] + rest);
        assert(seq![x] + (rest + ys) =~= xs + ys);
    }
}

/// Where question `i` starts in the encoding of a message, and where the
/// labels of its name from index `k` on start.
pub open spec fn question_start(m: MessageView, i: int) -> int {
    HEADER_LEN + questions_bytes(m.questions.subrange(0, i)).len()
}

pub open spec fn target_offset(m: MessageView, i: int, k: int) -> int {
    question_start(m, i) + labels_bytes(m.questions[i].labels.subrange(0, k)).len()
}

/// The encoding of `m` with the name of question `j` written as the labels
/// `prefix` followed by a pointer to the labels of the name of an earlier
/// question `i` from index `k` on; every other record is written in full.
pub open spec fn compressed_encoding(
    m: MessageView,
    j: int,
    i: int,
    prefix: Seq<Seq<char>>,
    k: int,
) -> Seq<u8> {
    header_bytes(m.header) + questions_bytes(m.questions.subrange(0, j))
        + compressed_question_bytes(prefix, target_offset(m, i, k), m.questions[j])
        + questions_bytes(m.questions.subrange(j + 1, m.questions.len() as int)) + answers_bytes(
        m.answers,
    )
}

/// Resolving question records of which one alone, between plain ones,
/// has a pointer, to `tail`.
proof fn lemma_resolve_one_pointer(
    buf: Seq<u8>,
    pb: Seq<Pending<QuestionView>>,
    before: Seq<QuestionView>,
    xj: Pending<QuestionView>,
    qj: QuestionView,
    prefix: Seq<Seq<char>>,
    tail: Seq<Seq<char>>,
    pa: Seq<Pending<QuestionView>>,
    after: Seq<QuestionView>,
)
    requires
        plain_records(pb, before),
        plain_records(pa, after),
        xj.record == (QuestionView { labels: prefix, ..qj }),
        spec_resolve(buf, xj.offset, xj.start) == Ok::<Seq<Seq<char>>, DnsError>(tail),
        qj.labels == prefix + tail,
    ensures
        resolve_questions(buf, pb + (seq![xj] + pa)) == Ok::<Seq<QuestionView>, DnsError>(
            before + (seq![qj] + after),
        ),
{
    let pq = pb + (seq![xj] + pa);
    let nb = pb.len() as int;
    let ts = Seq::new(
        pq.len(),
        |x: int|
            if x == nb {
                tail
            } else {
                Seq::<Seq<char>>::empty()
            },
    );
    assert forall|x: int| 0 <= x < pq.len() implies spec_resolve(
        buf,
        (#[trigger] pq[x]).offset,
        pq[x].start,
    ) == Ok::<Seq<Seq<char>>, DnsError>(ts[x]) by {
        if x < nb {
            assert(pq[x] == pb[x]);
        } else if x > nb {
            assert(pq[x] == pa[x - nb - 1]);
        }
    }
    lemma_resolve_questions_each(buf, pq, ts);
    let qs = resolve_questions(buf, pq)->Ok_0;
    let want = before + (seq![qj] + after);
    assert forall|x: int| 0 <= x < want.len() implies #[trigger] qs[x] == want[x] by {
        if x < nb {
            assert(pq[x] == pb[x]);
            assert(pb[x].record == before[x]);
            assert(before[x].labels + Seq::<Seq<char>>::empty() =~= before[x].labels);
        } else if x > nb {
            assert(pq[x] == pa[x - nb - 1]);
            assert(pa[x - nb - 1].record == after[x - nb - 1]);
            assert(after[x - nb - 1].labels + Seq::<Seq<char>>::empty() =~= after[
                x - nb - 1
            ].labels);
        }
    }
    assert(qs =~= want);
}

/// Where question `i` of a list stands in the list's bytes.
proof fn lemma_question_in_list(buf: Seq<u8>, p: int, qs: Seq<QuestionView>, i: int)
    requires
        0 <= i < qs.len(),
        bytes_at(buf, p, questions_bytes(qs)),
    ensures
        bytes_at(buf, p + questions_bytes(qs.subrange(0, i)).len(), question_bytes(qs[i])),
        questions_bytes(qs.subrange(0, i)).len() + question_bytes(qs[i]).len()
            <= questions_bytes(qs).len(),
{
    let b0 = qs.subrange(0, i);
    let b1 = qs.subrange(i + 1, qs.len() as int);
    let tailq = seq![qs[i]] + b1;
    assert(qs =~= b0 + tailq);
    lemma_questions_bytes_concat(b0, tailq);
    lemma_questions_bytes_front(tailq);
    assert(tailq[0] == qs[i]);
    assert(tailq.drop_first() =~= b1);
    lemma_bytes_at_split(buf, p, questions_bytes(b0), questions_bytes(tailq));
    lemma_bytes_at_split(
        buf,
        p + questions_bytes(b0).len(),
        question_bytes(qs[i]),
        questions_bytes(b1),
    );
}

/// Bytes laid out as a header, written questions `before`, a question whose
/// name is `prefix` followed by a pointer to the labels of `before[i]` from
/// index `k` on, then written questions `after` and answers `ans`, decode
/// to those records with the pointer resolved.
proof fn lemma_decode_one_pointer(
    buf: Seq<u8>,
    h: Header,
    before: Seq<QuestionView>,
    i: int,
    qj: QuestionView,
    prefix: Seq<Seq<char>>,
    k: int,
    after: Seq<QuestionView>,
    ans: Seq<AnswerView>,
)
    requires
        h.question_count == before.len() + 1 + after.len(),
        h.answer_count == ans.len(),
        0 <= i < before.len(),
        0 <= k <= before[i].labels.len(),
        forall|x: int|
            0 <= x < before.len() ==> labels_ok(#[trigger] before[x].labels, buf.len() as int),
        labels_ok(prefix, buf.len() as int),
        forall|x: int|
            0 <= x < after.len() ==> labels_ok(#[trigger] after[x].labels, buf.len() as int),
        forall|x: int|
            0 <= x < ans.len() ==> labels_ok(#[trigger] ans[x].labels, buf.len() as int)
                && ans[x].data.len() <= 65535,
        qj.labels == prefix + before[i].labels.subrange(k, before[i].labels.len() as int),
        HEADER_LEN + questions_bytes(before.subrange(0, i)).len() + labels_bytes(
            before[i].labels.subrange(0, k),
        ).len() < 0x4000,
        buf == header_bytes(h) + questions_bytes(before) + compressed_question_bytes(
            prefix,
            HEADER_LEN + questions_bytes(before.subrange(0, i)).len() + labels_bytes(
                before[i].labels.subrange(0, k),
            ).len(),
            qj,
        ) + questions_bytes(after) + answers_bytes(ans),
    ensures
        spec_parse_message(buf) == Ok::<(int, MessageView), DnsError>(
            (
                buf.len() as int,
                MessageView { header: h, questions: before + (seq![qj] + after), answers: ans },
            ),
        ),
{
    let bi = before[i];
    let si = HEADER_LEN + questions_bytes(before.subrange(0, i)).len();
    let o = si + labels_bytes(bi.labels.subrange(0, k)).len();
    let tail = bi.labels.subrange(k, bi.labels.len() as int);
    let qbb = questions_bytes(before);
    let cq = compressed_question_bytes(prefix, o, qj);
    let qba = questions_bytes(after);
    let ab = answers_bytes(ans);
    lemma_five_parts(buf, header_bytes(h), qbb, cq, qba, ab);
    crate::header::lemma_header_round_trip(h);
    lemma_parse_header_of(buf, h);
    let pj = HEADER_LEN + qbb.len();
    let p3 = pj + cq.len();
    // The questions before, as written.
    lemma_parse_questions_of(buf, HEADER_LEN as int, before);
    let (pb, e1) = spec_parse_questions(buf, HEADER_LEN as int, before.len())->Ok_0;
    // Where the pointer leads.
    lemma_question_in_list(buf, HEADER_LEN as int, before, i);
    assert(labels_ok(bi.labels, buf.len() as int));
    lemma_pointer_target(buf, si, bi, k, pj);
    // The compressed question.
    lemma_parse_compressed_question(buf, pj, prefix, o, qj, buf.len() as int);
    let xj = Pending { record: QuestionView { labels: prefix, ..qj }, offset: Some(o as u16), start: pj };
    // The questions after it, then the answers.
    lemma_parse_questions_of(buf, p3, after);
    let (pa, e3) = spec_parse_questions(buf, p3, after.len())->Ok_0;
    assert(((1 + after.len()) - 1) as nat == after.len());
    assert(spec_parse_questions(buf, pj, 1 + after.len()) == Ok::<
        (Seq<Pending<QuestionView>>, int),
        DnsError,
    >((seq![xj] + pa, e3)));
    lemma_parse_questions_concat(
        buf,
        HEADER_LEN as int,
        before.len(),
        pb,
        pj,
        1 + after.len(),
        seq![xj] + pa,
        e3,
    );
    assert(h.question_count as nat == before.len() + (1 + after.len()));
    lemma_parse_answers_of(buf, e3, ans);
    let (pans, e4) = spec_parse_answers(buf, e3, ans.len())->Ok_0;
    // Resolution: only the compressed question has a pointer.
    lemma_resolve_one_pointer(buf, pb, before, xj, qj, prefix, tail, pa, after);
    lemma_resolve_answers_plain(buf, pans);
    let ar = resolve_answers(buf, pans)->Ok_0;
    assert forall|x: int| 0 <= x < ans.len() implies #[trigger] ar[x] == ans[x] by {
        assert(pans[x].record == ar[x]);
    }
    assert(ar =~= ans);
    lemma_parse_message_parts(
        buf,
        h,
        pb + (seq![xj] + pa),
        e3,
        pans,
        e4,
        before + (seq![qj] + after),
        ar,
    );
}

/// The full encoding of `m` is longer than its encoding with question `j`
/// compressed, so that re-encoding a decoded compressed message never makes
/// it shorter; and `m`'s questions are those before `j`, question `j`, and
/// those after it.
pub proof fn lemma_compressed_encoding_shorter(
    m: MessageView,
    j: int,
    i: int,
    prefix: Seq<Seq<char>>,
    k: int,
)
    requires
        well_formed(m),
        0 <= i < j < m.questions.len(),
        0 <= k < m.questions[i].labels.len(),
        m.questions[j].labels == prefix + m.questions[i].labels.subrange(
            k,
            m.questions[i].labels.len() as int,
        ),
    ensures
        compressed_encoding(m, j, i, prefix, k).len() < message_bytes(m).len(),
        m.questions =~= m.questions.subrange(0, j) + (seq![m.questions[j]]
            + m.questions.subrange(j + 1, m.questions.len() as int)),
{
    let n = message_bytes(m).len() as int;
    let qs = m.questions;
    let qj = qs[j];
    let qi = qs[i];
    let before = qs.subrange(0, j);
    let after = qs.subrange(j + 1, qs.len() as int);
    let tailq = seq![qj] + after;
    assert(qs =~= before + tailq);
    lemma_questions_bytes_concat(before, tailq);
    lemma_questions_bytes_front(tailq);
    assert(tailq[0] == qj);
    assert(tailq.drop_first() =~= after);
    let tail = qi.labels.subrange(k, qi.labels.len() as int);
    lemma_labels_bytes_concat(prefix, tail);
    assert(labels_ok(qi.labels, n));
    assert(labels_ok(tail, n)) by {
        assert forall|x: int| 0 <= x < tail.len() implies 1 <= #[trigger] encode_utf8(
            tail[x],
        ).len() <= 255 && (encode_utf8(tail[x]).len() < 192 || (encode_utf8(tail[x]).len() - 192)
            * 256 >= n) by {
            assert(tail[x] == qi.labels[k + x]);
        }
    }
    lemma_labels_bytes_nonempty(tail, n);
    let tc = u16_bytes(qj.rr_type.spec_code()) + u16_bytes(qj.rr_class.spec_code());
    assert(question_bytes(qj).len() == labels_bytes(prefix).len() + labels_bytes(tail).len() + 1
        + tc.len());
    assert(message_bytes(m).len() == header_bytes(m.header).len() + questions_bytes(qs).len()
        + answers_bytes(m.answers).len());
}

/// Compression: in a well-formed message, writing the name of a question
/// `j` as its own leading labels followed by a pointer to the identical
/// trailing labels of an earlier question `i` decodes to the same message
/// as the fully expanded encoding does, whatever records come before, in
/// between and after, and the full encoding is the longer. The trailing
/// labels are not empty, and the pointer's offset fits its 14 bits.
pub proof fn lemma_compression_equivalence(
    m: MessageView,
    j: int,
    i: int,
    prefix: Seq<Seq<char>>,
    k: int,
)
    requires
        well_formed(m),
        0 <= i < j < m.questions.len(),
        0 <= k < m.questions[i].labels.len(),
        m.questions[j].labels == prefix + m.questions[i].labels.subrange(
            k,
            m.questions[i].labels.len() as int,
        ),
        target_offset(m, i, k) < 0x4000,
    ensures
        spec_parse_message(compressed_encoding(m, j, i, prefix, k)) == Ok::<
            (int, MessageView),
            DnsError,
        >((compressed_encoding(m, j, i, prefix, k).len() as int, m)),
        spec_parse_message(message_bytes(m)) == Ok::<(int, MessageView), DnsError>(
            (message_bytes(m).len() as int, m),
        ),
        compressed_encoding(m, j, i, prefix, k).len() < message_bytes(m).len(),
{
    lemma_message_round_trip(m);
    lemma_compressed_encoding_shorter(m, j, i, prefix, k);
    let n = message_bytes(m).len() as int;
    let buf = compressed_encoding(m, j, i, prefix, k);
    let c = buf.len() as int;
    let qs = m.questions;
    let before = qs.subrange(0, j);
    let after = qs.subrange(j + 1, qs.len() as int);
    assert(before.subrange(0, i) =~= qs.subrange(0, i));
    assert(before[i] == qs[i]);
    assert forall|x: int| 0 <= x < before.len() implies labels_ok(
        #[trigger] before[x].labels,
        c,
    ) by {
        assert(before[x] == qs[x]);
        assert(labels_ok(qs[x].labels, n));
        lemma_labels_ok_lower(before[x].labels, n, c);
    }
    assert forall|x: int| 0 <= x < after.len() implies labels_ok(#[trigger] after[x].labels, c) by {
        assert(after[x] == qs[j + 1 + x]);
        assert(labels_ok(qs[j + 1 + x].labels, n));
        lemma_labels_ok_lower(after[x].labels, n, c);
    }
    assert forall|x: int| 0 <= x < m.answers.len() implies labels_ok(
        #[trigger] m.answers[x].labels,
        c,
    ) && m.answers[x].data.len() <= 65535 by {
        assert(labels_ok(m.answers[x].labels, n));
        lemma_labels_ok_lower(m.answers[x].labels, n, c);
    }
    assert(labels_ok(qs[j].labels, n));
    assert(labels_ok(prefix, c)) by {
        assert forall|x: int| 0 <= x < prefix.len() implies 1 <= #[trigger] encode_utf8(
            prefix[x],
        ).len() <= 255 && (encode_utf8(prefix[x]).len() < 192 || (encode_utf8(prefix[x]).len()
            - 192) * 256 >= c) by {
            assert(qs[j].labels[x] == prefix[x]);
        }
    }
    lemma_decode_one_pointer(buf, m.header, before, i, qs[j], prefix, k, after, m.answers);
}

/// The bytes that follow an answer's name: type, class, ttl, data length
/// and data.
pub open spec fn answer_fields_bytes(a: AnswerView) -> Seq<u8> {
    u16_bytes(a.rr_type.spec_code()) + u16_bytes(a.rr_class.spec_code()) + u32_bytes(a.ttl)
        + u16_bytes(a.data.len() as u16) + a.data
}

/// The bytes of an answer whose name is `prefix` followed by a pointer to
/// `o`.
pub open spec fn compressed_answer_bytes(prefix: Seq<Seq<char>>, o: int, a: AnswerView) -> Seq<
    u8,
> {
    labels_bytes(prefix) + pointer_bytes(o) + answer_fields_bytes(a)
}

/// The answer fields that follow a name ending at `e` are read back.
proof fn lemma_answer_fields_at(
    buf: Seq<u8>,
    e: int,
    a: AnswerView,
    segs: Seq<Seq<u8>>,
    o: Option<u16>,
    name_labels: Seq<Seq<char>>,
)
    requires
        a.data.len() <= 65535,
        bytes_at(buf, e, answer_fields_bytes(a)),
        label_texts(segs) == name_labels,
    ensures
        answer_after(buf, Ok::<(Seq<Seq<u8>>, Option<u16>, int), DnsError>((segs, o, e)))
            == Ok::<(AnswerView, Option<u16>, int), DnsError>(
            (
                AnswerView { labels: name_labels, ..a },
                o,
                e + answer_fields_bytes(a).len(),
            ),
        ),
{
    let tb = u16_bytes(a.rr_type.spec_code());
    let cb = u16_bytes(a.rr_class.spec_code());
    let lb = u32_bytes(a.ttl);
    let db = u16_bytes(a.data.len() as u16);
    lemma_bytes_at_split(buf, e, tb + cb + lb + db, a.data);
    lemma_bytes_at_split(buf, e, tb + cb + lb, db);
    lemma_bytes_at_split(buf, e, tb + cb, lb);
    lemma_bytes_at_split(buf, e, tb, cb);
    lemma_read_u16_at(buf, e, a.rr_type.spec_code());
    lemma_read_u16_at(buf, e + 2, a.rr_class.spec_code());
    lemma_read_u32_at(buf, e + 4, a.ttl);
    lemma_read_u16_at(buf, e + 8, a.data.len() as u16);
    a.rr_type.lemma_code_round_trip();
    a.rr_class.lemma_code_round_trip();
    assert(buf.subrange(e + 10, e + 10 + a.data.len()) == a.data);
}

/// Decoding an answer whose name is `prefix` followed by a pointer to an
/// offset below the limit: the labels of `prefix`, with the offset pending.
proof fn lemma_parse_compressed_answer(
    buf: Seq<u8>,
    p: int,
    prefix: Seq<Seq<char>>,
    o: int,
    a: AnswerView,
    limit: int,
)
    requires
        labels_ok(prefix, limit),
        0 <= o < limit,
        o < 0x4000,
        a.data.len() <= 65535,
        bytes_at(buf, p, compressed_answer_bytes(prefix, o, a)),
    ensures
        answer_after(buf, spec_parse_name(buf, p, limit)) == Ok::<
            (AnswerView, Option<u16>, int),
            DnsError,
        >(
            (
                AnswerView { labels: prefix, ..a },
                Some(o as u16),
                p + compressed_answer_bytes(prefix, o, a).len(),
            ),
        ),
{
    let lb = labels_bytes(prefix);
    let pb = pointer_bytes(o);
    let fb = answer_fields_bytes(a);
    lemma_bytes_at_split(buf, p, lb + pb, fb);
    lemma_bytes_at_split(buf, p, lb, pb);
    lemma_walk_labels(buf, p, prefix, limit);
    let pp = p + lb.len();
    assert(buf[pp] == buf.subrange(pp, pp + 2)[0]);
    assert(buf[pp + 1] == buf.subrange(pp, pp + 2)[1]);
    assert(buf[pp] == pb[0]);
    assert(buf[pp + 1] == pb[1]);
    assert(pointer_offset(buf[pp], buf[pp + 1]) == o);
    assert(pointer_at(buf, pp, limit));
    assert(read_name(buf, pp, limit) == Some::<(Seq<Seq<u8>>, Option<u16>, int)>(
        (Seq::empty(), Some(o as u16), pp + 2),
    ));
    assert(encodings(prefix) + Seq::<Seq<u8>>::empty() =~= encodings(prefix));
    lemma_texts_of_encodings(prefix);
    lemma_answer_fields_at(buf, pp + 2, a, encodings(prefix), Some(o as u16), prefix);
}

/// `answers_bytes` of two lists one after the other.
pub proof fn lemma_answers_bytes_concat(a: Seq<AnswerView>, b: Seq<AnswerView>)
    ensures
        answers_bytes(a + b) == answers_bytes(a) + answers_bytes(b),
    decreases b.len(),
{
    if b.len() == 0 {
        assert(a + b =~= a);
        assert(answers_bytes(a) + answers_bytes(b) =~= answers_bytes(a));
    } else {
        lemma_answers_bytes_concat(a, b.drop_last());
        assert((a + b).drop_last() =~= a + b.drop_last());
        assert((a + b).last() == b.last());
        assert(answers_bytes(a + b) =~= answers_bytes(a) + answers_bytes(b));
    }
}

/// Decoding `a` answer records and then `b` more decodes `a + b`.
proof fn lemma_parse_answers_concat(
    buf: Seq<u8>,
    p: int,
    a: nat,
    xs: Seq<Pending<AnswerView>>,
    e: int,
    b: nat,
    ys: Seq<Pending<AnswerView>>,
    f: int,
)
    requires
        spec_parse_answers(buf, p, a) == Ok::<(Seq<Pending<AnswerView>>, int), DnsError>((xs, e)),
        spec_parse_answers(buf, e, b) == Ok::<(Seq<Pending<AnswerView>>, int), DnsError>((ys, f)),
    ensures
        spec_parse_answers(buf, p, a + b) == Ok::<(Seq<Pending<AnswerView>>, int), DnsError>(
            (xs + ys, f),
        ),
    decreases a,
{
    if a == 0 {
        assert(xs + ys =~= ys);
    } else {
        let (r, o, e1) = spec_parse_answer(buf, p)->Ok_0;
        let (rest, e2) = spec_parse_answers(buf, e1, (a - 1) as nat)->Ok_0;
        assert(e2 == e);
        lemma_parse_answers_concat(buf, e1, (a - 1) as nat, rest, e, b, ys, f);
        assert(((a + b) - 1) as nat == (a - 1) as nat + b);
        let x = Pending { record: r, offset: o, start: p };
        assert(xs == seq![x] + rest);
        assert(seq![x] + (rest + ys) =~= xs + ys);
    }
}

/// Resolving pending answer records whose pointers each resolve.
proof fn lemma_resolve_answers_each(
    buf: Seq<u8>,
    xs: Seq<Pending<AnswerView>>,
    ts: Seq<Seq<Seq<char>>>,
)
    requires
        xs.len() == ts.len(),
        forall|i: int|
            0 <= i < xs.len() ==> spec_resolve(buf, (#[trigger] xs[i]).offset, xs[i].start) == Ok::<
                Seq<Seq<char>>,
                DnsError,
            >(ts[i]),
    ensures
        resolve_answers(buf, xs) == Ok::<Seq<AnswerView>, DnsError>(
            Seq::new(
                xs.len(),
                |i: int| AnswerView { labels: xs[i].record.labels + ts[i], ..xs[i].record },
            ),
        ),
    decreases xs.len(),
{
    let f = |i: int| AnswerView { labels: xs[i].record.labels + ts[i], ..xs[i].record };
    if xs.len() == 0 {
        assert(Seq::new(0, f) =~= Seq::<AnswerView>::empty());
    } else {
        let n = xs.len() - 1;
        let init = xs.drop_last();
        assert forall|i: int| 0 <= i < init.len() implies spec_resolve(
            buf,
            (#[trigger] init[i]).offset,
            init[i].start,
        ) == Ok::<Seq<Seq<char>>, DnsError>(ts.drop_last()[i]) by {
            assert(init[i] == xs[i]);
        }
        lemma_resolve_answers_each(buf, init, ts.drop_last());
        assert(xs.last() == xs[n]);
        let g = |i: int|
            AnswerView { labels: init[i].record.labels + ts.drop_last()[i], ..init[i].record };
        assert(Seq::new(init.len(), g).push(f(n)) =~= Seq::new(xs.len(), f));
    }
}

/// Resolving answer records of which one alone, between plain ones, has a
/// pointer, to `tail`.
proof fn lemma_resolve_one_answer_pointer(
    buf: Seq<u8>,
    pb: Seq<Pending<AnswerView>>,
    before: Seq<AnswerView>,
    xj: Pending<AnswerView>,
    aj: AnswerView,
    prefix: Seq<Seq<char>>,
    tail: Seq<Seq<char>>,
    pa: Seq<Pending<AnswerView>>,
    after: Seq<AnswerView>,
)
    requires
        plain_records(pb, before),
        plain_records(pa, after),
        xj.record == (AnswerView { labels: prefix, ..aj }),
        spec_resolve(buf, xj.offset, xj.start) == Ok::<Seq<Seq<char>>, DnsError>(tail),
        aj.labels == prefix + tail,
    ensures
        resolve_answers(buf, pb + (seq![xj] + pa)) == Ok::<Seq<AnswerView>, DnsError>(
            before + (seq![aj] + after),
        ),
{
    let pq = pb + (seq![xj] + pa);
    let nb = pb.len() as int;
    let ts = Seq::new(
        pq.len(),
        |x: int|
            if x == nb {
                tail
            } else {
                Seq::<Seq<char>>::empty()
            },
    );
    assert forall|x: int| 0 <= x < pq.len() implies spec_resolve(
        buf,
        (#[trigger] pq[x]).offset,
        pq[x].start,
    ) == Ok::<Seq<Seq<char>>, DnsError>(ts[x]) by {
        if x < nb {
            assert(pq[x] == pb[x]);
        } else if x > nb {
            assert(pq[x] == pa[x - nb - 1]);
        }
    }
    lemma_resolve_answers_each(buf, pq, ts);
    let rs = resolve_answers(buf, pq)->Ok_0;
    let want = before + (seq![aj] + after);
    assert forall|x: int| 0 <= x < want.len() implies #[trigger] rs[x] == want[x] by {
        if x < nb {
            assert(pq[x] == pb[x]);
            assert(pb[x].record == before[x]);
            assert(before[x].labels + Seq::<Seq<char>>::empty() =~= before[x].labels);
        } else if x > nb {
            assert(pq[x] == pa[x - nb - 1]);
            assert(pa[x - nb - 1].record == after[x - nb - 1]);
            assert(after[x - nb - 1].labels + Seq::<Seq<char>>::empty() =~= after[
                x - nb - 1
            ].labels);
        }
    }
    assert(rs =~= want);
}

/// Bytes laid out as a header, written questions `qs`, written answers
/// `before`, an answer whose name is `prefix` followed by a pointer to the
/// labels of `qs[i]` from index `k` on, then written answers `after`,
/// decode to those records with the pointer resolved.
proof fn lemma_decode_answer_pointer(
    buf: Seq<u8>,
    h: Header,
    qs: Seq<QuestionView>,
    i: int,
    before: Seq<AnswerView>,
    aj: AnswerView,
    prefix: Seq<Seq<char>>,
    k: int,
    after: Seq<AnswerView>,
)
    requires
        h.question_count == qs.len(),
        h.answer_count == before.len() + 1 + after.len(),
        0 <= i < qs.len(),
        0 <= k <= qs[i].labels.len(),
        forall|x: int| 0 <= x < qs.len() ==> labels_ok(#[trigger] qs[x].labels, buf.len() as int),
        labels_ok(prefix, buf.len() as int),
        aj.data.len() <= 65535,
        forall|x: int|
            0 <= x < before.len() ==> labels_ok(#[trigger] before[x].labels, buf.len() as int)
                && before[x].data.len() <= 65535,
        forall|x: int|
            0 <= x < after.len() ==> labels_ok(#[trigger] after[x].labels, buf.len() as int)
                && after[x].data.len() <= 65535,
        aj.labels == prefix + qs[i].labels.subrange(k, qs[i].labels.len() as int),
        HEADER_LEN + questions_bytes(qs.subrange(0, i)).len() + labels_bytes(
            qs[i].labels.subrange(0, k),
        ).len() < 0x4000,
        buf == header_bytes(h) + questions_bytes(qs) + answers_bytes(before)
            + compressed_answer_bytes(
            prefix,
            HEADER_LEN + questions_bytes(qs.subrange(0, i)).len() + labels_bytes(
                qs[i].labels.subrange(0, k),
            ).len(),
            aj,
        ) + answers_bytes(after),
    ensures
        spec_parse_message(buf) == Ok::<(int, MessageView), DnsError>(
            (
                buf.len() as int,
                MessageView { header: h, questions: qs, answers: before + (seq![aj] + after) },
            ),
        ),
{
    let qi = qs[i];
    let si = HEADER_LEN + questions_bytes(qs.subrange(0, i)).len();
    let o = si + labels_bytes(qi.labels.subrange(0, k)).len();
    let tail = qi.labels.subrange(k, qi.labels.len() as int);
    let qb = questions_bytes(qs);
    let abb = answers_bytes(before);
    let cab = compressed_answer_bytes(prefix, o, aj);
    let aba = answers_bytes(after);
    lemma_five_parts(buf, header_bytes(h), qb, abb, cab, aba);
    crate::header::lemma_header_round_trip(h);
    lemma_parse_header_of(buf, h);
    let e1 = HEADER_LEN + qb.len();
    let pj = e1 + abb.len();
    let p3 = pj + cab.len();
    // The questions, as written.
    lemma_parse_questions_of(buf, HEADER_LEN as int, qs);
    let (pq, e1x) = spec_parse_questions(buf, HEADER_LEN as int, qs.len())->Ok_0;
    assert forall|x: int| 0 <= x < pq.len() implies (#[trigger] pq[x]).offset is None by {
        assert(pq[x].offset is None);
    }
    lemma_resolve_questions_plain(buf, pq);
    let qr = resolve_questions(buf, pq)->Ok_0;
    assert forall|x: int| 0 <= x < qs.len() implies #[trigger] qr[x] == qs[x] by {
        assert(pq[x].record == qr[x]);
    }
    assert(qr =~= qs);
    // Where the pointer leads.
    lemma_question_in_list(buf, HEADER_LEN as int, qs, i);
    assert(labels_ok(qi.labels, buf.len() as int));
    lemma_pointer_target(buf, si, qi, k, pj);
    // The answers before, the compressed one, and those after.
    lemma_parse_answers_of(buf, e1, before);
    let (pb, e2) = spec_parse_answers(buf, e1, before.len())->Ok_0;
    lemma_parse_compressed_answer(buf, pj, prefix, o, aj, buf.len() as int);
    let xj = Pending { record: AnswerView { labels: prefix, ..aj }, offset: Some(o as u16), start: pj };
    lemma_parse_answers_of(buf, p3, after);
    let (pa, e4) = spec_parse_answers(buf, p3, after.len())->Ok_0;
    assert(((1 + after.len()) - 1) as nat == after.len());
    assert(spec_parse_answers(buf, pj, 1 + after.len()) == Ok::<
        (Seq<Pending<AnswerView>>, int),
        DnsError,
    >((seq![xj] + pa, e4)));
    lemma_parse_answers_concat(buf, e1, before.len(), pb, pj, 1 + after.len(), seq![xj] + pa, e4);
    assert(h.answer_count as nat == before.len() + (1 + after.len()));
    lemma_resolve_one_answer_pointer(buf, pb, before, xj, aj, prefix, tail, pa, after);
    lemma_parse_message_parts(
        buf,
        h,
        pq,
        e1,
        pb + (seq![xj] + pa),
        e4,
        qs,
        before + (seq![aj] + after),
    );
}

/// The encoding of `m` with the name of answer `j` written as the labels
/// `prefix` followed by a pointer to the labels of the name of question `i`
/// from index `k` on; every other record is written in full.
pub open spec fn compressed_answer_encoding(
    m: MessageView,
    j: int,
    i: int,
    prefix: Seq<Seq<char>>,
    k: int,
) -> Seq<u8> {
    header_bytes(m.header) + questions_bytes(m.questions) + answers_bytes(m.answers.subrange(0, j))
        + compressed_answer_bytes(prefix, target_offset(m, i, k), m.answers[j]) + answers_bytes(
        m.answers.subrange(j + 1, m.answers.len() as int),
    )
}

/// The full encoding of `m` is longer than its encoding with answer `j`
/// compressed; and `m`'s answers are those before `j`, answer `j`, and
/// those after it.
pub proof fn lemma_compressed_answer_shorter(
    m: MessageView,
    j: int,
    i: int,
    prefix: Seq<Seq<char>>,
    k: int,
)
    requires
        well_formed(m),
        0 <= i < m.questions.len(),
        0 <= j < m.answers.len(),
        0 <= k < m.questions[i].labels.len(),
        m.answers[j].labels == prefix + m.questions[i].labels.subrange(
            k,
            m.questions[i].labels.len() as int,
        ),
    ensures
        compressed_answer_encoding(m, j, i, prefix, k).len() < message_bytes(m).len(),
        m.answers =~= m.answers.subrange(0, j) + (seq![m.answers[j]] + m.answers.subrange(
            j + 1,
            m.answers.len() as int,
        )),
{
    let n = message_bytes(m).len() as int;
    let ans = m.answers;
    let aj = ans[j];
    let qi = m.questions[i];
    let before = ans.subrange(0, j);
    let after = ans.subrange(j + 1, ans.len() as int);
    let taila = seq![aj] + after;
    assert(ans =~= before + taila);
    lemma_answers_bytes_concat(before, taila);
    lemma_answers_bytes_front(taila);
    assert(taila[0] == aj);
    assert(taila.drop_first() =~= after);
    let tail = qi.labels.subrange(k, qi.labels.len() as int);
    lemma_labels_bytes_concat(prefix, tail);
    assert(labels_ok(qi.labels, n));
    assert(labels_ok(tail, n)) by {
        assert forall|x: int| 0 <= x < tail.len() implies 1 <= #[trigger] encode_utf8(
            tail[x],
        ).len() <= 255 && (encode_utf8(tail[x]).len() < 192 || (encode_utf8(tail[x]).len() - 192)
            * 256 >= n) by {
            assert(tail[x] == qi.labels[k + x]);
        }
    }
    lemma_labels_bytes_nonempty(tail, n);
    assert(answer_bytes(aj) =~= name_bytes(aj.labels) + answer_fields_bytes(aj));
    assert(message_bytes(m).len() == header_bytes(m.header).len() + questions_bytes(
        m.questions,
    ).len() + answers_bytes(ans).len());
}

/// Compression in an answer: in a well-formed message, writing the name of
/// an answer `j` as its own leading labels followed by a pointer to the
/// identical trailing labels of a question `i` decodes to the same message
/// as the fully expanded encoding does, whatever records come before and
/// after, and the full encoding is the longer. The trailing labels are not
/// empty, and the pointer's offset fits its 14 bits.
pub proof fn lemma_answer_compression_equivalence(
    m: MessageView,
    j: int,
    i: int,
    prefix: Seq<Seq<char>>,
    k: int,
)
    requires
        well_formed(m),
        0 <= i < m.questions.len(),
        0 <= j < m.answers.len(),
        0 <= k < m.questions[i].labels.len(),
        m.answers[j].labels == prefix + m.questions[i].labels.subrange(
            k,
            m.questions[i].labels.len() as int,
        ),
        target_offset(m, i, k) < 0x4000,
    ensures
        spec_parse_message(compressed_answer_encoding(m, j, i, prefix, k)) == Ok::<
            (int, MessageView),
            DnsError,
        >((compressed_answer_encoding(m, j, i, prefix, k).len() as int, m)),
        spec_parse_message(message_bytes(m)) == Ok::<(int, MessageView), DnsError>(
            (message_bytes(m).len() as int, m),
        ),
        compressed_answer_encoding(m, j, i, prefix, k).len() < message_bytes(m).len(),
{
    lemma_message_round_trip(m);
    lemma_compressed_answer_shorter(m, j, i, prefix, k);
    let n = message_bytes(m).len() as int;
    let buf = compressed_answer_encoding(m, j, i, prefix, k);
    let c = buf.len() as int;
    let qs = m.questions;
    let ans = m.answers;
    let before = ans.subrange(0, j);
    let after = ans.subrange(j + 1, ans.len() as int);
    assert forall|x: int| 0 <= x < qs.len() implies labels_ok(#[trigger] qs[x].labels, c) by {
        assert(labels_ok(qs[x].labels, n));
        lemma_labels_ok_lower(qs[x].labels, n, c);
    }
    assert forall|x: int| 0 <= x < before.len() implies labels_ok(
        #[trigger] before[x].labels,
        c,
    ) && before[x].data.len() <= 65535 by {
        assert(before[x] == ans[x]);
        assert(labels_ok(ans[x].labels, n));
        lemma_labels_ok_lower(before[x].labels, n, c);
    }
    assert forall|x: int| 0 <= x < after.len() implies labels_ok(#[trigger] after[x].labels, c)
        && after[x].data.len() <= 65535 by {
        assert(after[x] == ans[j + 1 + x]);
        assert(labels_ok(ans[j + 1 + x].labels, n));
        lemma_labels_ok_lower(after[x].labels, n, c);
    }
    assert(labels_ok(ans[j].labels, n));
    assert(labels_ok(prefix, c)) by {
        assert forall|x: int| 0 <= x < prefix.len() implies 1 <= #[trigger] encode_utf8(
            prefix[x],
        ).len() <= 255 && (encode_utf8(prefix[x]).len() < 192 || (encode_utf8(prefix[x]).len()
            - 192) * 256 >= c) by {
            assert(ans[j].labels[x] == prefix[x]);
        }
    }
    lemma_decode_answer_pointer(buf, m.header, qs, i, before, ans[j], prefix, k, after);
}

} // verus!
