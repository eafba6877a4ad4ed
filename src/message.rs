use vstd::prelude::*;

use crate::answer::{answer_bytes, answer_fits, spec_parse_answer, AnswerSection, AnswerView};
use crate::error::DnsError;
use crate::header::{header_bytes, spec_parse_header, Header, HEADER_LEN};
use crate::labels::{labels_fit, labels_within_limit, resolve_offsets, spec_resolve};
use crate::question::{question_bytes, spec_parse_question, QuestionSection, QuestionView};
use crate::text::{copy_labels, labels_view};

verus! {

/// A whole message: header, then questions and answers in wire order.
#[derive(Debug, PartialEq, Eq, Clone)]
pub struct Message {
    pub header: Header,
    pub questions: Vec<QuestionSection>,
    pub answers: Vec<AnswerSection>,
}

/// What a message holds.
pub struct MessageView {
    pub header: Header,
    pub questions: Seq<QuestionView>,
    pub answers: Seq<AnswerView>,
}

impl View for Message {
    type V = MessageView;

    open spec fn view(&self) -> MessageView {
        MessageView {
            header: self.header,
            questions: self.questions@.map_values(|q: QuestionSection| q@),
            answers: self.answers@.map_values(|a: AnswerSection| a@),
        }
    }
}

/// A decoded record whose compression pointer, if any, is not resolved
/// yet, with the position at which the record starts.
pub struct Pending<V> {
    pub record: V,
    pub offset: Option<u16>,
    pub start: int,
}

/// Decoding of `n` consecutive question records from `p`: the pending
/// records and the position after the last one.
pub open spec fn spec_parse_questions(buf: Seq<u8>, p: int, n: nat) -> Result<
    (Seq<Pending<QuestionView>>, int),
    DnsError,
>
    decreases n,
{
    if n == 0 {
        Ok((Seq::empty(), p))
    } else {
        match spec_parse_question(buf, p) {
            Err(e) => Err(e),
            Ok((q, o, e)) => match spec_parse_questions(buf, e, (n - 1) as nat) {
                Err(x) => Err(x),
                Ok((rest, end)) => Ok((seq![Pending { record: q, offset: o, start: p }] + rest, end)),
            },
        }
    }
}

/// Decoding of `n` consecutive answer records from `p`.
pub open spec fn spec_parse_answers(buf: Seq<u8>, p: int, n: nat) -> Result<
    (Seq<Pending<AnswerView>>, int),
    DnsError,
>
    decreases n,
{
    if n == 0 {
        Ok((Seq::empty(), p))
    } else {
        match spec_parse_answer(buf, p) {
            Err(e) => Err(e),
            Ok((a, o, e)) => match spec_parse_answers(buf, e, (n - 1) as nat) {
                Err(x) => Err(x),
                Ok((rest, end)) => Ok((seq![Pending { record: a, offset: o, start: p }] + rest, end)),
            },
        }
    }
}

/// Resolution of pending question records, in order; the first error wins.
pub open spec fn resolve_questions(buf: Seq<u8>, xs: Seq<Pending<QuestionView>>) -> Result<
    Seq<QuestionView>,
    DnsError,
>
    decreases xs.len(),
{
    if xs.len() == 0 {
        Ok(Seq::empty())
    } else {
        match resolve_questions(buf, xs.drop_last()) {
            Err(e) => Err(e),
            Ok(qs) => match spec_resolve(buf, xs.last().offset, xs.last().start) {
                Err(e) => Err(e),
                Ok(t) => Ok(qs.push(QuestionView { labels: xs.last().record.labels + t, ..xs.last().record })),
            },
        }
    }
}

/// Resolution of pending answer records, in order; the first error wins.
pub open spec fn resolve_answers(buf: Seq<u8>, xs: Seq<Pending<AnswerView>>) -> Result<
    Seq<AnswerView>,
    DnsError,
>
    decreases xs.len(),
{
    if xs.len() == 0 {
        Ok(Seq::empty())
    } else {
        match resolve_answers(buf, xs.drop_last()) {
            Err(e) => Err(e),
            Ok(r) => match spec_resolve(buf, xs.last().offset, xs.last().start) {
                Err(e) => Err(e),
                Ok(t) => Ok(r.push(AnswerView { labels: xs.last().record.labels + t, ..xs.last().record })),
            },
        }
    }
}

/// Decoding of a whole message: the header, exactly as many questions and
/// answers as it declares, then every pending pointer resolved against the
/// whole of `buf`. Gives the message and the number of bytes it took.
///
/// A byte with top bits `11` whose pointer reading lands inside the message
/// is a pointer (see `spec_parse_message_name`), and resolving it fails
/// with `InvalidCompressionPointer` unless it points before its record.
#[verifier::opaque]
pub open spec fn spec_parse_message(buf: Seq<u8>) -> Result<(int, MessageView), DnsError> {
    match spec_parse_header(buf) {
        Err(e) => Err(e),
        Ok((_, h)) => match spec_parse_questions(buf, HEADER_LEN as int, h.question_count as nat) {
            Err(e) => Err(e),
            Ok((pq, e1)) => match spec_parse_answers(buf, e1, h.answer_count as nat) {
                Err(e) => Err(e),
                Ok((pa, e2)) => match resolve_questions(buf, pq) {
                    Err(e) => Err(e),
                    Ok(qs) => match resolve_answers(buf, pa) {
                        Err(e) => Err(e),
                        Ok(ans) => Ok((e2, MessageView { header: h, questions: qs, answers: ans })),
                    },
                },
            },
        },
    }
}

/// Truncation: input shorter than the 12-byte header decodes to
/// `ShortBuffer`, whatever it holds.
pub proof fn lemma_short_message(buf: Seq<u8>)
    requires
        buf.len() < HEADER_LEN,
    ensures
        spec_parse_message(buf) == Err::<(int, MessageView), DnsError>(DnsError::ShortBuffer),
{
    reveal(spec_parse_message);
}

/// The wire bytes of a list of questions.
pub open spec fn questions_bytes(qs: Seq<QuestionView>) -> Seq<u8>
    decreases qs.len(),
{
    if qs.len() == 0 {
        Seq::empty()
    } else {
        questions_bytes(qs.drop_last()) + question_bytes(qs.last())
    }
}

/// The wire bytes of a list of answers.
pub open spec fn answers_bytes(ans: Seq<AnswerView>) -> Seq<u8>
    decreases ans.len(),
{
    if ans.len() == 0 {
        Seq::empty()
    } else {
        answers_bytes(ans.drop_last()) + answer_bytes(ans.last())
    }
}

/// The wire bytes of a message, every name fully expanded.
pub open spec fn message_bytes(m: MessageView) -> Seq<u8> {
    header_bytes(m.header) + questions_bytes(m.questions) + answers_bytes(m.answers)
}

/// Every record of `m` can be encoded.
pub open spec fn message_fits(m: MessageView) -> bool {
    &&& forall|i: int| 0 <= i < m.questions.len() ==> labels_fit(#[trigger] m.questions[i].labels)
    &&& forall|i: int| 0 <= i < m.answers.len() ==> answer_fits(#[trigger] m.answers[i])
}

/// `pre` put in front of the records of a successful decoding.
pub open spec fn prepend_pending<V>(
    pre: Seq<Pending<V>>,
    r: Result<(Seq<Pending<V>>, int), DnsError>,
) -> Result<(Seq<Pending<V>>, int), DnsError> {
    match r {
        Ok((rest, end)) => Ok((pre + rest, end)),
        Err(e) => Err(e),
    }
}

/// The pending question records that three parallel lists hold.
pub open spec fn pending_questions(
    qs: Seq<QuestionSection>,
    offsets: Seq<Option<u16>>,
    starts: Seq<usize>,
) -> Seq<Pending<QuestionView>> {
    Seq::new(
        qs.len(),
        |j: int| Pending { record: qs[j]@, offset: offsets[j], start: starts[j] as int },
    )
}

/// The pending answer records that three parallel lists hold.
pub open spec fn pending_answers(
    ans: Seq<AnswerSection>,
    offsets: Seq<Option<u16>>,
    starts: Seq<usize>,
) -> Seq<Pending<AnswerView>> {
    Seq::new(
        ans.len(),
        |j: int| Pending { record: ans[j]@, offset: offsets[j], start: starts[j] as int },
    )
}

proof fn lemma_resolve_questions_prefix_err(buf: Seq<u8>, xs: Seq<Pending<QuestionView>>, k: int)
    requires
        0 <= k <= xs.len(),
        resolve_questions(buf, xs.subrange(0, k)) is Err,
    ensures
        resolve_questions(buf, xs) == resolve_questions(buf, xs.subrange(0, k)),
    decreases xs.len(),
{
    if k == xs.len() {
        assert(xs.subrange(0, k) =~= xs);
    } else {
        assert(xs.drop_last().subrange(0, k) =~= xs.subrange(0, k));
        lemma_resolve_questions_prefix_err(buf, xs.drop_last(), k);
    }
}

proof fn lemma_resolve_answers_prefix_err(buf: Seq<u8>, xs: Seq<Pending<AnswerView>>, k: int)
    requires
        0 <= k <= xs.len(),
        resolve_answers(buf, xs.subrange(0, k)) is Err,
    ensures
        resolve_answers(buf, xs) == resolve_answers(buf, xs.subrange(0, k)),
    decreases xs.len(),
{
    if k == xs.len() {
        assert(xs.subrange(0, k) =~= xs);
    } else {
        assert(xs.drop_last().subrange(0, k) =~= xs.subrange(0, k));
        lemma_resolve_answers_prefix_err(buf, xs.drop_last(), k);
    }
}

/// Decodes `n` question records from `p`, leaving pointers pending.
fn parse_questions(buf: &[u8], p: usize, n: u16) -> (r: Result<
    (usize, Vec<QuestionSection>, Vec<Option<u16>>, Vec<usize>),
    DnsError,
>)
    requires
        p <= buf@.len(),
    ensures
        match spec_parse_questions(buf@, p as int, n as nat) {
            Ok((pq, end)) => r matches Ok((e, qs, offs, starts)) && e == end && e <= buf@.len()
                && qs@.len() == offs@.len() && qs@.len() == starts@.len() && pending_questions(
                qs@,
                offs@,
                starts@,
            ) == pq,
            Err(x) => r == Err::<
                (usize, Vec<QuestionSection>, Vec<Option<u16>>, Vec<usize>),
                DnsError,
            >(x),
        },
{
    let mut qs: Vec<QuestionSection> = Vec::new();
    let mut offs: Vec<Option<u16>> = Vec::new();
    let mut starts: Vec<usize> = Vec::new();
    let mut pos: usize = p;
    let mut i: u16 = 0;
    proof {
        assert(pending_questions(qs@, offs@, starts@) =~= Seq::<Pending<QuestionView>>::empty());
    }
    while i < n
        invariant
            i <= n,
            pos <= buf@.len(),
            qs@.len() == offs@.len(),
            qs@.len() == starts@.len(),
            spec_parse_questions(buf@, p as int, n as nat) == prepend_pending(
                pending_questions(qs@, offs@, starts@),
                spec_parse_questions(buf@, pos as int, (n - i) as nat),
            ),
        decreases n - i,
    {
        let ghost pre = pending_questions(qs@, offs@, starts@);
        match QuestionSection::parse_at(buf, pos) {
            Err(e) => {
                return Err(e);
            },
            Ok((e, (q, off))) => {
                let ghost item = Pending { record: q@, offset: off, start: pos as int };
                proof {
                    match spec_parse_questions(buf@, e as int, (n - i - 1) as nat) {
                        Ok((rest, end)) => {
                            assert(pre + (seq![item] + rest) =~= pre.push(item) + rest);
                        },
                        Err(_) => {},
                    }
                }
                qs.push(q);
                offs.push(off);
                starts.push(pos);
                proof {
                    assert(pending_questions(qs@, offs@, starts@) =~= pre.push(item));
                }
                pos = e;
                i = i + 1;
            },
        }
    }
    proof {
        let pq = pending_questions(qs@, offs@, starts@);
        assert(pq + Seq::<Pending<QuestionView>>::empty() =~= pq);
    }
    Ok((pos, qs, offs, starts))
}

/// Decodes `n` answer records from `p`, leaving pointers pending.
fn parse_answers(buf: &[u8], p: usize, n: u16) -> (r: Result<
    (usize, Vec<AnswerSection>, Vec<Option<u16>>, Vec<usize>),
    DnsError,
>)
    requires
        p <= buf@.len(),
    ensures
        match spec_parse_answers(buf@, p as int, n as nat) {
            Ok((pa, end)) => r matches Ok((e, ans, offs, starts)) && e == end && e <= buf@.len()
                && ans@.len() == offs@.len() && ans@.len() == starts@.len() && pending_answers(
                ans@,
                offs@,
                starts@,
            ) == pa,
            Err(x) => r == Err::<
                (usize, Vec<AnswerSection>, Vec<Option<u16>>, Vec<usize>),
                DnsError,
            >(x),
        },
{
    let mut ans: Vec<AnswerSection> = Vec::new();
    let mut offs: Vec<Option<u16>> = Vec::new();
    let mut starts: Vec<usize> = Vec::new();
    let mut pos: usize = p;
    let mut i: u16 = 0;
    proof {
        assert(pending_answers(ans@, offs@, starts@) =~= Seq::<Pending<AnswerView>>::empty());
    }
    while i < n
        invariant
            i <= n,
            pos <= buf@.len(),
            ans@.len() == offs@.len(),
            ans@.len() == starts@.len(),
            spec_parse_answers(buf@, p as int, n as nat) == prepend_pending(
                pending_answers(ans@, offs@, starts@),
                spec_parse_answers(buf@, pos as int, (n - i) as nat),
            ),
        decreases n - i,
    {
        let ghost pre = pending_answers(ans@, offs@, starts@);
        match AnswerSection::parse_at(buf, pos) {
            Err(e) => {
                return Err(e);
            },
            Ok((e, (a, off))) => {
                let ghost item = Pending { record: a@, offset: off, start: pos as int };
                proof {
                    match spec_parse_answers(buf@, e as int, (n - i - 1) as nat) {
                        Ok((rest, end)) => {
                            assert(pre + (seq![item] + rest) =~= pre.push(item) + rest);
                        },
                        Err(_) => {},
                    }
                }
                ans.push(a);
                offs.push(off);
                starts.push(pos);
                proof {
                    assert(pending_answers(ans@, offs@, starts@) =~= pre.push(item));
                }
                pos = e;
                i = i + 1;
            },
        }
    }
    proof {
        let pa = pending_answers(ans@, offs@, starts@);
        assert(pa + Seq::<Pending<AnswerView>>::empty() =~= pa);
    }
    Ok((pos, ans, offs, starts))
}

/// Resolves the pending pointers of decoded question records against the
/// whole message `buf`, in order.
fn resolve_question_list(
    buf: &[u8],
    qs: &Vec<QuestionSection>,
    offs: &Vec<Option<u16>>,
    starts: &Vec<usize>,
) -> (r: Result<Vec<QuestionSection>, DnsError>)
    requires
        qs@.len() == offs@.len(),
        qs@.len() == starts@.len(),
    ensures
        match resolve_questions(buf@, pending_questions(qs@, offs@, starts@)) {
            Ok(v) => r matches Ok(out) && out@.map_values(|q: QuestionSection| q@) == v,
            Err(x) => r == Err::<Vec<QuestionSection>, DnsError>(x),
        },
{
    let ghost xs = pending_questions(qs@, offs@, starts@);
    let mut out: Vec<QuestionSection> = Vec::new();
    let mut i: usize = 0;
    proof {
        assert(xs.subrange(0, 0) =~= Seq::<Pending<QuestionView>>::empty());
        assert(out@.map_values(|q: QuestionSection| q@) =~= Seq::<QuestionView>::empty());
    }
    while i < qs.len()
        invariant
            i <= qs@.len(),
            qs@.len() == offs@.len(),
            qs@.len() == starts@.len(),
            xs == pending_questions(qs@, offs@, starts@),
            resolve_questions(buf@, xs.subrange(0, i as int)) == Ok::<Seq<QuestionView>, DnsError>(
                out@.map_values(|q: QuestionSection| q@),
            ),
        decreases qs@.len() - i,
    {
        let off = offs[i];
        let start = starts[i];
        proof {
            assert(xs.subrange(0, i + 1).drop_last() =~= xs.subrange(0, i as int));
            assert(xs.subrange(0, i + 1).last() == xs[i as int]);
        }
        let mut q = QuestionSection {
            labels: copy_labels(&qs[i].labels),
            rr_type: qs[i].rr_type,
            rr_class: qs[i].rr_class,
        };
        match q.resolve_offsets(buf, off, start) {
            Err(e) => {
                proof {
                    lemma_resolve_questions_prefix_err(buf@, xs, i + 1);
                }
                return Err(e);
            },
            Ok(()) => {},
        }
        let ghost before = out@;
        out.push(q);
        proof {
            assert(out@.map_values(|q: QuestionSection| q@) =~= before.map_values(
                |q: QuestionSection| q@,
            ).push(q@));
        }
        i = i + 1;
    }
    proof {
        assert(xs.subrange(0, qs@.len() as int) =~= xs);
    }
    Ok(out)
}

/// Resolves the pending pointers of decoded answer records against the
/// whole message `buf`, in order.
fn resolve_answer_list(
    buf: &[u8],
    ans: &Vec<AnswerSection>,
    offs: &Vec<Option<u16>>,
    starts: &Vec<usize>,
) -> (r: Result<Vec<AnswerSection>, DnsError>)
    requires
        ans@.len() == offs@.len(),
        ans@.len() == starts@.len(),
    ensures
        match resolve_answers(buf@, pending_answers(ans@, offs@, starts@)) {
            Ok(v) => r matches Ok(out) && out@.map_values(|a: AnswerSection| a@) == v,
            Err(x) => r == Err::<Vec<AnswerSection>, DnsError>(x),
        },
{
    let ghost xs = pending_answers(ans@, offs@, starts@);
    let mut out: Vec<AnswerSection> = Vec::new();
    let mut i: usize = 0;
    proof {
        assert(xs.subrange(0, 0) =~= Seq::<Pending<AnswerView>>::empty());
        assert(out@.map_values(|a: AnswerSection| a@) =~= Seq::<AnswerView>::empty());
    }
    while i < ans.len()
        invariant
            i <= ans@.len(),
            ans@.len() == offs@.len(),
            ans@.len() == starts@.len(),
            xs == pending_answers(ans@, offs@, starts@),
            resolve_answers(buf@, xs.subrange(0, i as int)) == Ok::<Seq<AnswerView>, DnsError>(
                out@.map_values(|a: AnswerSection| a@),
            ),
        decreases ans@.len() - i,
    {
        let off = offs[i];
        let start = starts[i];
        proof {
            assert(xs.subrange(0, i + 1).drop_last() =~= xs.subrange(0, i as int));
            assert(xs.subrange(0, i + 1).last() == xs[i as int]);
        }
        let mut next = match resolve_offsets(buf, off, start) {
            Ok(v) => v,
            Err(e) => {
                proof {
                    lemma_resolve_answers_prefix_err(buf@, xs, i + 1);
                }
                return Err(e);
            },
        };
        let mut labels = copy_labels(&ans[i].labels);
        let ghost first = labels@;
        let ghost added = next@;
        labels.append(&mut next);
        proof {
            assert(labels_view(first + added) =~= labels_view(first) + labels_view(added));
        }
        let a = AnswerSection {
            labels,
            rr_type: ans[i].rr_type,
            rr_class: ans[i].rr_class,
            ttl: ans[i].ttl,
            data: vstd::slice::slice_to_vec(ans[i].data.as_slice()),
        };
        let ghost before = out@;
        out.push(a);
        proof {
            assert(out@.map_values(|a: AnswerSection| a@) =~= before.map_values(
                |a: AnswerSection| a@,
            ).push(a@));
        }
        i = i + 1;
    }
    proof {
        assert(xs.subrange(0, ans@.len() as int) =~= xs);
    }
    Ok(out)
}

impl Message {
    /// Decodes a whole message; see `spec_parse_message`.
    ///
    /// Returns the input that follows the header and the declared records,
    /// with the message, every name fully expanded.
    pub fn parse(msg_input: &[u8]) -> (r: Result<(&[u8], Message), DnsError>)
        ensures
            match spec_parse_message(msg_input@) {
                Ok((n, m)) => r matches Ok((rest, msg)) && rest@ == msg_input@.subrange(
                    n,
                    msg_input@.len() as int,
                ) && msg@ == m,
                Err(x) => r matches Err(e) && e == x,
            },
    {
        proof {
            reveal(spec_parse_message);
        }
        let header = match Header::parse(msg_input) {
            Ok((_, h)) => h,
            Err(e) => {
                return Err(e);
            },
        };
        let (pos, qs, q_offs, q_starts) = match parse_questions(
            msg_input,
            HEADER_LEN,
            header.question_count,
        ) {
            Ok(t) => t,
            Err(e) => {
                return Err(e);
            },
        };
        let (end, ans, a_offs, a_starts) = match parse_answers(msg_input, pos, header.answer_count) {
            Ok(t) => t,
            Err(e) => {
                return Err(e);
            },
        };
        let questions = match resolve_question_list(msg_input, &qs, &q_offs, &q_starts) {
            Ok(v) => v,
            Err(e) => {
                return Err(e);
            },
        };
        let answers = match resolve_answer_list(msg_input, &ans, &a_offs, &a_starts) {
            Ok(v) => v,
            Err(e) => {
                return Err(e);
            },
        };
        Ok(
            (
                vstd::slice::slice_subrange(msg_input, end, msg_input.len()),
                Message { header, questions, answers },
            ),
        )
    }

    /// Appends the message to `buf`: header, questions, then answers, every
    /// name fully expanded.
    ///
    /// Fails with `EncodingSizeExceeded`, writing nothing, when a label is
    /// longer than 255 bytes or record data longer than 65535 bytes.
    pub fn encode(&self, buf: &mut Vec<u8>) -> (r: Result<(), DnsError>)
        ensures
            r is Ok <==> message_fits(self@),
            r is Ok ==> final(buf)@ == old(buf)@ + message_bytes(self@),
            r is Err ==> r == Err::<(), DnsError>(DnsError::EncodingSizeExceeded) && final(buf)@
                == old(buf)@,
    {
        let ghost m = self@;
        let mut i: usize = 0;
        while i < self.questions.len()
            invariant
                i <= self.questions@.len(),
                m == self@,
                forall|j: int| 0 <= j < i ==> labels_fit(#[trigger] m.questions[j].labels),
            decreases self.questions@.len() - i,
        {
            proof {
                assert(m.questions[i as int] == self.questions@[i as int]@);
            }
            if !labels_within_limit(&self.questions[i].labels) {
                proof {
                    assert(!labels_fit(m.questions[i as int].labels));
                }
                return Err(DnsError::EncodingSizeExceeded);
            }
            i = i + 1;
        }
        let mut i: usize = 0;
        while i < self.answers.len()
            invariant
                i <= self.answers@.len(),
                m == self@,
                forall|j: int| 0 <= j < i ==> answer_fits(#[trigger] m.answers[j]),
            decreases self.answers@.len() - i,
        {
            proof {
                assert(m.answers[i as int] == self.answers@[i as int]@);
            }
            if !labels_within_limit(&self.answers[i].labels) || self.answers[i].data.len()
                > crate::answer::MAX_DATA_LEN {
                return Err(DnsError::EncodingSizeExceeded);
            }
            i = i + 1;
        }
        self.header.encode(buf);
        let mut i: usize = 0;
        while i < self.questions.len()
            invariant
                i <= self.questions@.len(),
                m == self@,
                message_fits(m),
                buf@ == old(buf)@ + header_bytes(m.header) + questions_bytes(
                    m.questions.subrange(0, i as int),
                ),
            decreases self.questions@.len() - i,
        {
            let ghost before = buf@;
            let _ = self.questions[i].encode(buf);
            proof {
                let next = m.questions.subrange(0, i + 1);
                assert(next.drop_last() =~= m.questions.subrange(0, i as int));
                assert(next.last() == m.questions[i as int]);
                assert(labels_fit(m.questions[i as int].labels));
                assert(buf@ =~= old(buf)@ + header_bytes(m.header) + questions_bytes(next));
            }
            i = i + 1;
        }
        proof {
            assert(m.questions.subrange(0, m.questions.len() as int) =~= m.questions);
            assert(m.answers.subrange(0, 0) =~= Seq::<AnswerView>::empty());
            assert(buf@ =~= old(buf)@ + header_bytes(m.header) + questions_bytes(m.questions)
                + answers_bytes(m.answers.subrange(0, 0)));
        }
        let mut i: usize = 0;
        while i < self.answers.len()
            invariant
                i <= self.answers@.len(),
                m == self@,
                message_fits(m),
                buf@ == old(buf)@ + header_bytes(m.header) + questions_bytes(m.questions)
                    + answers_bytes(m.answers.subrange(0, i as int)),
            decreases self.answers@.len() - i,
        {
            let _ = self.answers[i].encode(buf);
            proof {
                let next = m.answers.subrange(0, i + 1);
                assert(next.drop_last() =~= m.answers.subrange(0, i as int));
                assert(next.last() == m.answers[i as int]);
                assert(answer_fits(m.answers[i as int]));
                assert(buf@ =~= old(buf)@ + header_bytes(m.header) + questions_bytes(m.questions)
                    + answers_bytes(next));
            }
            i = i + 1;
        }
        proof {
            assert(m.answers.subrange(0, m.answers.len() as int) =~= m.answers);
            assert(buf@ =~= old(buf)@ + message_bytes(m));
        }
        Ok(())
    }
}

} // verus!
