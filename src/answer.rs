use vstd::prelude::*;

use crate::error::DnsError;
use crate::labels::{
    encode_name, labels_fit, labels_within_limit, name_bytes, name_result_agrees, parse_name_alone,
    parse_name_at, spec_parse_message_name, spec_parse_name_alone,
};
use crate::record_class::ResourceRecordClass;
use crate::record_type::ResourceRecordType;
use crate::text::{label_texts, labels_view};
use crate::wire::{get_u16, get_u32, put_u16, put_u32, read_be_u16, read_be_u32, u16_bytes, u32_bytes};

verus! {

/// Longest record data that a two-byte length can announce.
pub const MAX_DATA_LEN: usize = 65535;

/// An answer record: name, type, class, time to live in seconds and data
/// that the codec does not interpret.
#[derive(Debug, PartialEq, Eq, Clone)]
pub struct AnswerSection {
    pub labels: Vec<String>,
    pub rr_type: ResourceRecordType,
    pub rr_class: ResourceRecordClass,
    pub ttl: u32,
    pub data: Vec<u8>,
}

/// What an answer record holds.
pub struct AnswerView {
    pub labels: Seq<Seq<char>>,
    pub rr_type: ResourceRecordType,
    pub rr_class: ResourceRecordClass,
    pub ttl: u32,
    pub data: Seq<u8>,
}

impl View for AnswerSection {
    type V = AnswerView;

    open spec fn view(&self) -> AnswerView {
        AnswerView {
            labels: labels_view(self.labels@),
            rr_type: self.rr_type,
            rr_class: self.rr_class,
            ttl: self.ttl,
            data: self.data@,
        }
    }
}

/// The answer record whose name decoded to `name`: the record, its
/// pending pointer offset and the position just after its data.
pub open spec fn answer_after(
    buf: Seq<u8>,
    name: Result<(Seq<Seq<u8>>, Option<u16>, int), DnsError>,
) -> Result<(AnswerView, Option<u16>, int), DnsError> {
    match name {
        Err(e) => Err(e),
        Ok((segs, o, e)) => if e + 10 > buf.len() {
            Err(DnsError::ShortBuffer)
        } else if e + 10 + read_be_u16(buf, e + 8) > buf.len() {
            Err(DnsError::ShortBuffer)
        } else {
            let end = e + 10 + read_be_u16(buf, e + 8);
            Ok(
                (
                    AnswerView {
                        labels: label_texts(segs),
                        rr_type: ResourceRecordType::spec_from_code(read_be_u16(buf, e)),
                        rr_class: ResourceRecordClass::spec_from_code(read_be_u16(buf, e + 2)),
                        ttl: read_be_u32(buf, e + 4),
                        data: buf.subrange(e + 10, end),
                    },
                    o,
                    end,
                ),
            )
        },
    }
}

/// Decoding of the answer record at `p` inside the whole message `buf`;
/// see `spec_parse_message_name`.
pub open spec fn spec_parse_answer(buf: Seq<u8>, p: int) -> Result<
    (AnswerView, Option<u16>, int),
    DnsError,
> {
    answer_after(buf, spec_parse_message_name(buf, p))
}

/// Decoding of an answer record at the start of `buf` on its own; see
/// `spec_parse_name_alone`.
pub open spec fn spec_parse_answer_alone(buf: Seq<u8>) -> Result<
    (AnswerView, Option<u16>, int),
    DnsError,
> {
    answer_after(buf, spec_parse_name_alone(buf, 0))
}

/// Every label fits a one-byte length and the data a two-byte length.
pub open spec fn answer_fits(a: AnswerView) -> bool {
    labels_fit(a.labels) && a.data.len() <= MAX_DATA_LEN
}

/// The wire bytes of an answer record, its name fully expanded.
pub open spec fn answer_bytes(a: AnswerView) -> Seq<u8> {
    name_bytes(a.labels) + u16_bytes(a.rr_type.spec_code()) + u16_bytes(a.rr_class.spec_code())
        + u32_bytes(a.ttl) + u16_bytes(a.data.len() as u16) + a.data
}

impl AnswerSection {
    /// Reads the fields and data that follow a decoded name.
    fn after_name(
        buf: &[u8],
        name: Result<(usize, Vec<String>, Option<u16>), DnsError>,
        Ghost(s): Ghost<Result<(Seq<Seq<u8>>, Option<u16>, int), DnsError>>,
    ) -> (r: Result<(usize, (AnswerSection, Option<u16>)), DnsError>)
        requires
            name_result_agrees(name, s),
            name matches Ok((e, _, _)) ==> e <= buf@.len(),
        ensures
            match answer_after(buf@, s) {
                Ok((v, o, end)) => r matches Ok((n, (a, o2))) && n == end && o2 == o && a@ == v,
                Err(x) => r == Err::<(usize, (AnswerSection, Option<u16>)), DnsError>(x),
            },
            r matches Ok((n, _)) ==> n <= buf@.len(),
    {
        let (e, labels, offset) = match name {
            Ok(t) => t,
            Err(x) => {
                return Err(x);
            },
        };
        if buf.len() - e < 10 {
            return Err(DnsError::ShortBuffer);
        }
        let len = get_u16(buf, e + 8) as usize;
        if buf.len() - e - 10 < len {
            return Err(DnsError::ShortBuffer);
        }
        let rr_type = ResourceRecordType::from_code(get_u16(buf, e));
        let rr_class = ResourceRecordClass::from_code(get_u16(buf, e + 2));
        let ttl = get_u32(buf, e + 4);
        let data = vstd::slice::slice_to_vec(vstd::slice::slice_subrange(buf, e + 10, e + 10 + len));
        Ok((e + 10 + len, (AnswerSection { labels, rr_type, rr_class, ttl, data }, offset)))
    }

    /// Decodes the answer record at `p` inside the whole message `buf`.
    pub(crate) fn parse_at(buf: &[u8], p: usize) -> (r: Result<
        (usize, (AnswerSection, Option<u16>)),
        DnsError,
    >)
        ensures
            match spec_parse_answer(buf@, p as int) {
                Ok((v, o, end)) => r matches Ok((n, (a, o2))) && n == end && o2 == o && a@ == v,
                Err(x) => r == Err::<(usize, (AnswerSection, Option<u16>)), DnsError>(x),
            },
            r matches Ok((n, _)) ==> p < n <= buf@.len(),
    {
        let name = parse_name_at(buf, p, buf.len());
        Self::after_name(buf, name, Ghost(spec_parse_message_name(buf@, p as int)))
    }

    /// Decodes the answer record at the start of `input` on its own: its
    /// name is read as labels up to a zero byte if it can be, and otherwise
    /// as labels ending in a compression pointer.
    ///
    /// Returns the input that follows the record, with the record and, when
    /// its name ends in a compression pointer, the pending offset, to be
    /// resolved against the whole message.
    pub fn parse(input: &[u8]) -> (r: Result<(&[u8], (AnswerSection, Option<u16>)), DnsError>)
        ensures
            match spec_parse_answer_alone(input@) {
                Ok((v, o, end)) => r matches Ok((rest, (a, o2))) && rest@ == input@.subrange(
                    end,
                    input@.len() as int,
                ) && o2 == o && a@ == v,
                Err(x) => r matches Err(e) && e == x,
            },
    {
        let name = parse_name_alone(input, 0);
        match Self::after_name(input, name, Ghost(spec_parse_name_alone(input@, 0))) {
            Ok((n, rec)) => Ok((vstd::slice::slice_subrange(input, n, input.len()), rec)),
            Err(e) => Err(e),
        }
    }

    /// Appends the record to `buf`, its name fully expanded.
    ///
    /// Fails with `EncodingSizeExceeded`, writing nothing, when a label is
    /// longer than 255 bytes or the data longer than 65535 bytes.
    pub fn encode(&self, buf: &mut Vec<u8>) -> (r: Result<(), DnsError>)
        ensures
            r is Ok <==> answer_fits(self@),
            r is Ok ==> final(buf)@ == old(buf)@ + answer_bytes(self@),
            r is Err ==> r == Err::<(), DnsError>(DnsError::EncodingSizeExceeded) && final(buf)@
                == old(buf)@,
    {
        if !labels_within_limit(&self.labels) || self.data.len() > MAX_DATA_LEN {
            return Err(DnsError::EncodingSizeExceeded);
        }
        encode_name(&self.labels, buf);
        put_u16(buf, self.rr_type.code());
        put_u16(buf, self.rr_class.code());
        put_u32(buf, self.ttl);
        put_u16(buf, self.data.len() as u16);
        let mut data = vstd::slice::slice_to_vec(self.data.as_slice());
        buf.append(&mut data);
        proof {
            assert(final(buf)@ =~= old(buf)@ + answer_bytes(self@));
        }
        Ok(())
    }
}

} // verus!
