use vstd::prelude::*;
use vstd::string::StrSliceExecFns;

use crate::error::DnsError;
use crate::labels::{
    encode_name, labels_fit, labels_within_limit, name_bytes, name_result_agrees, parse_name_alone,
    parse_name_at, spec_parse_message_name, spec_parse_name_alone, spec_resolve,
};
use crate::record_class::ResourceRecordClass;
use crate::record_type::ResourceRecordType;
use crate::text::{label_texts, labels_view};
use crate::wire::{get_u16, put_u16, read_be_u16, u16_bytes};

verus! {

/// A question record: a domain name with the type and class asked for.
#[derive(Debug, PartialEq, Eq, Clone)]
pub struct QuestionSection {
    pub labels: Vec<String>,
    pub rr_type: ResourceRecordType,
    pub rr_class: ResourceRecordClass,
}

/// What a question record holds: the texts of its labels, type and class.
pub struct QuestionView {
    pub labels: Seq<Seq<char>>,
    pub rr_type: ResourceRecordType,
    pub rr_class: ResourceRecordClass,
}

impl View for QuestionSection {
    type V = QuestionView;

    open spec fn view(&self) -> QuestionView {
        QuestionView {
            labels: labels_view(self.labels@),
            rr_type: self.rr_type,
            rr_class: self.rr_class,
        }
    }
}

/// The question record whose name decoded to `name`: the record, its
/// pending pointer offset and the position just after it.
pub open spec fn question_after(
    buf: Seq<u8>,
    name: Result<(Seq<Seq<u8>>, Option<u16>, int), DnsError>,
) -> Result<(QuestionView, Option<u16>, int), DnsError> {
    match name {
        Err(e) => Err(e),
        Ok((segs, o, e)) => if e + 4 > buf.len() {
            Err(DnsError::ShortBuffer)
        } else {
            Ok(
                (
                    QuestionView {
                        labels: label_texts(segs),
                        rr_type: ResourceRecordType::spec_from_code(read_be_u16(buf, e)),
                        rr_class: ResourceRecordClass::spec_from_code(read_be_u16(buf, e + 2)),
                    },
                    o,
                    e + 4,
                ),
            )
        },
    }
}

/// Decoding of the question record at `p` inside the whole message `buf`;
/// see `spec_parse_message_name`.
pub open spec fn spec_parse_question(buf: Seq<u8>, p: int) -> Result<
    (QuestionView, Option<u16>, int),
    DnsError,
> {
    question_after(buf, spec_parse_message_name(buf, p))
}

/// Decoding of a question record at the start of `buf` on its own; see
/// `spec_parse_name_alone`.
pub open spec fn spec_parse_question_alone(buf: Seq<u8>) -> Result<
    (QuestionView, Option<u16>, int),
    DnsError,
> {
    question_after(buf, spec_parse_name_alone(buf, 0))
}

/// The wire bytes of a question record, its name fully expanded.
pub open spec fn question_bytes(q: QuestionView) -> Seq<u8> {
    name_bytes(q.labels) + u16_bytes(q.rr_type.spec_code()) + u16_bytes(q.rr_class.spec_code())
}

/// The labels of a dotted name: the pieces between the dots, empty pieces
/// included, as `str::split('.')` gives them.
pub open spec fn split_dots(s: Seq<char>) -> Seq<Seq<char>>
    decreases s.len(),
{
    if s.len() == 0 {
        seq![Seq::empty()]
    } else if s.last() == '.' {
        split_dots(s.drop_last()).push(Seq::empty())
    } else {
        let r = split_dots(s.drop_last());
        r.update(r.len() - 1, r.last().push(s.last()))
    }
}

impl QuestionSection {
    /// An A/IN question for the dotted name `name`, split on `.`.
    pub fn new_a(name: &str) -> (r: QuestionSection)
        ensures
            r@ == (QuestionView {
                labels: split_dots(name@),
                rr_type: ResourceRecordType::A,
                rr_class: ResourceRecordClass::IN,
            }),
    {
        let n = name.unicode_len();
        let mut labels: Vec<String> = Vec::new();
        let mut start: usize = 0;
        let mut i: usize = 0;
        proof {
            assert(name@.subrange(0, 0) =~= Seq::<char>::empty());
            assert(labels_view(labels@) =~= Seq::<Seq<char>>::empty());
        }
        while i < n
            invariant
                n == name@.len(),
                start <= i <= n,
                split_dots(name@.subrange(0, i as int)) == labels_view(labels@).push(
                    name@.subrange(start as int, i as int),
                ),
            decreases n - i,
        {
            let c = name.get_char(i);
            proof {
                let pre = name@.subrange(0, i as int);
                let next = name@.subrange(0, i + 1);
                assert(next.drop_last() =~= pre);
                assert(next.last() == c);
            }
            if c == '.' {
                let piece = name.substring_char(start, i).to_owned();
                proof {
                    assert(labels_view(labels@.push(piece)) =~= labels_view(labels@).push(piece@));
                }
                labels.push(piece);
                start = i + 1;
                proof {
                    assert(name@.subrange(start as int, i + 1) =~= Seq::<char>::empty());
                }
            } else {
                proof {
                    assert(name@.subrange(start as int, i + 1) =~= name@.subrange(
                        start as int,
                        i as int,
                    ).push(c));
                }
            }
            i = i + 1;
        }
        let piece = name.substring_char(start, n).to_owned();
        proof {
            assert(name@.subrange(0, n as int) =~= name@);
            assert(labels_view(labels@.push(piece)) =~= labels_view(labels@).push(piece@));
        }
        labels.push(piece);
        QuestionSection {
            labels,
            rr_type: ResourceRecordType::A,
            rr_class: ResourceRecordClass::IN,
        }
    }

    /// Reads the type and class that follow a decoded name.
    fn after_name(
        buf: &[u8],
        name: Result<(usize, Vec<String>, Option<u16>), DnsError>,
        Ghost(s): Ghost<Result<(Seq<Seq<u8>>, Option<u16>, int), DnsError>>,
    ) -> (r: Result<(usize, (QuestionSection, Option<u16>)), DnsError>)
        requires
            name_result_agrees(name, s),
            name matches Ok((e, _, _)) ==> e <= buf@.len(),
        ensures
            match question_after(buf@, s) {
                Ok((v, o, end)) => r matches Ok((n, (q, o2))) && n == end && o2 == o && q@ == v,
                Err(x) => r == Err::<(usize, (QuestionSection, Option<u16>)), DnsError>(x),
            },
            r matches Ok((n, _)) ==> n <= buf@.len(),
    {
        let (e, labels, offset) = match name {
            Ok(t) => t,
            Err(x) => {
                return Err(x);
            },
        };
        if buf.len() - e < 4 {
            return Err(DnsError::ShortBuffer);
        }
        let rr_type = ResourceRecordType::from_code(get_u16(buf, e));
        let rr_class = ResourceRecordClass::from_code(get_u16(buf, e + 2));
        Ok((e + 4, (QuestionSection { labels, rr_type, rr_class }, offset)))
    }

    /// Decodes the question record at `p` inside the whole message `buf`.
    pub(crate) fn parse_at(buf: &[u8], p: usize) -> (r: Result<
        (usize, (QuestionSection, Option<u16>)),
        DnsError,
    >)
        ensures
            match spec_parse_question(buf@, p as int) {
                Ok((v, o, end)) => r matches Ok((n, (q, o2))) && n == end && o2 == o && q@ == v,
                Err(x) => r == Err::<(usize, (QuestionSection, Option<u16>)), DnsError>(x),
            },
            r matches Ok((n, _)) ==> p < n <= buf@.len(),
    {
        let name = parse_name_at(buf, p, buf.len());
        Self::after_name(buf, name, Ghost(spec_parse_message_name(buf@, p as int)))
    }

    /// Decodes the question record at the start of `input` on its own: its
    /// name is read as labels up to a zero byte if it can be, and otherwise
    /// as labels ending in a compression pointer.
    ///
    /// Returns the input that follows the record, with the record and, when
    /// its name ends in a compression pointer, the pending offset, to be
    /// resolved with `resolve_offsets` against the whole message.
    pub fn parse(input: &[u8]) -> (r: Result<(&[u8], (QuestionSection, Option<u16>)), DnsError>)
        ensures
            match spec_parse_question_alone(input@) {
                Ok((v, o, end)) => r matches Ok((rest, (q, o2))) && rest@ == input@.subrange(
                    end,
                    input@.len() as int,
                ) && o2 == o && q@ == v,
                Err(x) => r matches Err(e) && e == x,
            },
    {
        let name = parse_name_alone(input, 0);
        match Self::after_name(input, name, Ghost(spec_parse_name_alone(input@, 0))) {
            Ok((n, rec)) => Ok((vstd::slice::slice_subrange(input, n, input.len()), rec)),
            Err(e) => Err(e),
        }
    }

    /// Appends the labels that a pending pointer `offset` stands for in the
    /// whole message `input`, the record starting at `record_start` there;
    /// leaves the record unchanged on error.
    pub fn resolve_offsets(
        &mut self,
        input: &[u8],
        offset: Option<u16>,
        record_start: usize,
    ) -> (r: Result<(), DnsError>)
        ensures
            match spec_resolve(input@, offset, record_start as int) {
                Ok(t) => r is Ok && final(self)@ == (QuestionView {
                    labels: old(self)@.labels + t,
                    ..old(self)@
                }),
                Err(x) => r == Err::<(), DnsError>(x) && *final(self) == *old(self),
            },
    {
        let mut next = match crate::labels::resolve_offsets(input, offset, record_start) {
            Ok(v) => v,
            Err(x) => {
                return Err(x);
            },
        };
        let ghost before = self.labels@;
        let ghost added = next@;
        self.labels.append(&mut next);
        proof {
            assert(labels_view(before + added) =~= labels_view(before) + labels_view(added));
        }
        Ok(())
    }

    /// Appends the record to `buf`, its name fully expanded.
    ///
    /// Fails with `EncodingSizeExceeded`, writing nothing, when a label is
    /// longer than 255 bytes.
    pub fn encode(&self, buf: &mut Vec<u8>) -> (r: Result<(), DnsError>)
        ensures
            r is Ok <==> labels_fit(self@.labels),
            r is Ok ==> final(buf)@ == old(buf)@ + question_bytes(self@),
            r is Err ==> r == Err::<(), DnsError>(DnsError::EncodingSizeExceeded) && final(buf)@
                == old(buf)@,
    {
        if !labels_within_limit(&self.labels) {
            return Err(DnsError::EncodingSizeExceeded);
        }
        encode_name(&self.labels, buf);
        put_u16(buf, self.rr_type.code());
        put_u16(buf, self.rr_class.code());
        proof {
            assert(final(buf)@ =~= old(buf)@ + question_bytes(self@));
        }
        Ok(())
    }
}

} // verus!
