use vstd::prelude::*;
use vstd::utf8::encode_utf8;

use crate::error::DnsError;
use crate::text::{data_to_string, label_text, label_texts, labels_view};

verus! {

/// Wire byte values from this one up have their top two bits set: with the
/// byte after them they can form a compression pointer.
pub const POINTER_TAG: u8 = 0xC0;

/// Every 14-bit pointer offset is below this bound; as a limit it makes
/// every byte with top bits `11` a pointer.
pub const POINTER_LIMIT: usize = 0x4000;

/// The 14-bit offset held by a pointer whose two bytes are `b0`, `b1`.
pub open spec fn pointer_offset(b0: u8, b1: u8) -> u16 {
    ((b0 - 0xC0) * 256 + b1) as u16
}

/// The byte at `p` and the one after it form a compression pointer to an
/// offset below `limit`. Nothing beyond those two bytes is looked at.
pub open spec fn pointer_at(buf: Seq<u8>, p: int, limit: int) -> bool {
    &&& p + 2 <= buf.len()
    &&& buf[p] >= POINTER_TAG
    &&& pointer_offset(buf[p], buf[p + 1]) < limit
}

/// The segment whose length byte sits at `p`.
pub open spec fn segment(buf: Seq<u8>, p: int) -> Seq<u8> {
    buf.subrange(p + 1, p + 1 + buf[p])
}

/// Reading of the name at `p`, whose pointers must point below `limit`.
///
/// At each length position a zero byte ends the name; a pointer to an
/// offset below `limit` (see `pointer_at`) ends it too, its offset left
/// pending; any other byte is the length of a segment that follows. Gives
/// the raw segments, the pending offset and the position after the name,
/// or `None` when the input ends first.
pub open spec fn read_name(buf: Seq<u8>, p: int, limit: int) -> Option<
    (Seq<Seq<u8>>, Option<u16>, int),
>
    decreases buf.len() - p,
{
    if p < 0 || p >= buf.len() {
        None
    } else if buf[p] == 0 {
        Some((Seq::empty(), None, p + 1))
    } else if pointer_at(buf, p, limit) {
        Some((Seq::empty(), Some(pointer_offset(buf[p], buf[p + 1])), p + 2))
    } else if p + 1 + buf[p] > buf.len() {
        None
    } else {
        match read_name(buf, p + 1 + buf[p], limit) {
            Some((rest, o, end)) => Some((seq![segment(buf, p)] + rest, o, end)),
            None => None,
        }
    }
}

/// Decoding of the name at `p`; see `read_name`. A name that starts at the
/// end of the input is `ShortBuffer`; one that runs off the end is
/// `MalformedLabel`.
pub open spec fn spec_parse_name(buf: Seq<u8>, p: int, limit: int) -> Result<
    (Seq<Seq<u8>>, Option<u16>, int),
    DnsError,
> {
    match read_name(buf, p, limit) {
        Some(t) => Ok(t),
        None => Err(
            if p >= buf.len() {
                DnsError::ShortBuffer
            } else {
                DnsError::MalformedLabel
            },
        ),
    }
}

/// Resolution of a pending pointer of the record that starts at `start`,
/// against the whole message `buf`: the labels of the name at the offset.
///
/// The offset must lie before `start` and inside `buf`, and the name there,
/// read as a message reads its names (see `spec_parse_message_name`), must
/// end in a zero byte: a pointer in it would be a second hop. Each of these
/// failures is `InvalidCompressionPointer`.
pub open spec fn spec_resolve(buf: Seq<u8>, offset: Option<u16>, start: int) -> Result<
    Seq<Seq<char>>,
    DnsError,
> {
    match offset {
        None => Ok(Seq::empty()),
        Some(o) => if o >= start || o >= buf.len() {
            Err(DnsError::InvalidCompressionPointer)
        } else {
            match spec_parse_message_name(buf, o as int) {
                Ok((segs, None, _)) => Ok(label_texts(segs)),
                Ok((_, Some(_), _)) => Err(DnsError::InvalidCompressionPointer),
                Err(e) => Err(e),
            }
        },
    }
}

/// Decoding of a name at `p` inside a whole message `buf`: a byte with top
/// bits `11` followed by another byte is a pointer whenever its offset lies
/// inside the message; only a length byte whose pointer reading would land
/// beyond the message is the length of a label (a 255-byte label, in any
/// message under 16128 bytes).
pub open spec fn spec_parse_message_name(buf: Seq<u8>, p: int) -> Result<
    (Seq<Seq<u8>>, Option<u16>, int),
    DnsError,
> {
    spec_parse_name(buf, p, buf.len() as int)
}

/// Decoding of a name at `p` on its own, where nothing tells a pointer from
/// a long label: read as labels up to a zero byte if that succeeds, and
/// otherwise with every byte with top bits `11` a pointer.
pub open spec fn spec_parse_name_alone(buf: Seq<u8>, p: int) -> Result<
    (Seq<Seq<u8>>, Option<u16>, int),
    DnsError,
> {
    match read_name(buf, p, 0) {
        Some(t) => Ok(t),
        None => spec_parse_name(buf, p, POINTER_LIMIT as int),
    }
}

/// Without knowing where its input stands in a message, a name is read as
/// RFC 1035 writes it: a byte with top bits `11` followed by another byte
/// is a pointer, whatever comes after.
pub proof fn lemma_top_bits_end_name(buf: Seq<u8>, p: int)
    requires
        0 <= p,
        p + 2 <= buf.len(),
        buf[p] >= POINTER_TAG,
    ensures
        spec_parse_name(buf, p, POINTER_LIMIT as int) == Ok::<
            (Seq<Seq<u8>>, Option<u16>, int),
            DnsError,
        >((Seq::empty(), Some(pointer_offset(buf[p], buf[p + 1])), p + 2)),
{
}

/// `r`, the result of an executable name decoding, agrees with `s`.
pub open spec fn name_result_agrees(
    r: Result<(usize, Vec<String>, Option<u16>), DnsError>,
    s: Result<(Seq<Seq<u8>>, Option<u16>, int), DnsError>,
) -> bool {
    match s {
        Ok((segs, o, end)) => match r {
            Ok((e, ls, o2)) => e == end && o2 == o && labels_view(ls@) == label_texts(segs),
            Err(_) => false,
        },
        Err(x) => r == Err::<(usize, Vec<String>, Option<u16>), DnsError>(x),
    }
}

/// `segs` put in front of the segments of a successful reading.
pub open spec fn prepend_segments(
    segs: Seq<Seq<u8>>,
    o: Option<(Seq<Seq<u8>>, Option<u16>, int)>,
) -> Option<(Seq<Seq<u8>>, Option<u16>, int)> {
    match o {
        Some((rest, off, end)) => Some((segs + rest, off, end)),
        None => None,
    }
}

proof fn lemma_texts_push(segs: Seq<Seq<u8>>, seg: Seq<u8>, ls: Seq<String>, s: String)
    requires
        labels_view(ls) == label_texts(segs),
        s@ == label_text(seg),
    ensures
        labels_view(ls.push(s)) == label_texts(segs.push(seg)),
{
    assert(ls.len() == segs.len()) by {
        assert(labels_view(ls).len() == ls.len());
        assert(label_texts(segs).len() == segs.len());
    }
    assert forall|i: int| 0 <= i < ls.len() + 1 implies #[trigger] labels_view(ls.push(s))[i]
        == label_texts(segs.push(seg))[i] by {
        if i < ls.len() {
            assert(labels_view(ls)[i] == label_texts(segs)[i]);
            assert(labels_view(ls)[i] == ls[i]@);
            assert(label_texts(segs)[i] == label_text(segs[i]));
        }
    }
    assert(labels_view(ls.push(s)) =~= label_texts(segs.push(seg)));
}

/// Decodes the name at `p` in `buf`, whose pointers must point below
/// `limit`; see `spec_parse_name`.
pub(crate) fn parse_name_at(buf: &[u8], p: usize, limit: usize) -> (r: Result<
    (usize, Vec<String>, Option<u16>),
    DnsError,
>)
    ensures
        name_result_agrees(r, spec_parse_name(buf@, p as int, limit as int)),
        r matches Ok((e, _, _)) ==> p < e <= buf@.len(),
{
    let mut labels: Vec<String> = Vec::new();
    let ghost mut segs: Seq<Seq<u8>> = Seq::empty();
    let mut q: usize = p;
    while q < buf.len()
        invariant
            p <= q,
            read_name(buf@, p as int, limit as int) == prepend_segments(
                segs,
                read_name(buf@, q as int, limit as int),
            ),
            labels_view(labels@) == label_texts(segs),
        ensures
            read_name(buf@, q as int, limit as int) is None,
            read_name(buf@, p as int, limit as int) == prepend_segments(
                segs,
                read_name(buf@, q as int, limit as int),
            ),
        decreases buf@.len() - q,
    {
        let n = buf[q];
        if n == 0 {
            proof {
                assert(segs + Seq::<Seq<u8>>::empty() =~= segs);
            }
            return Ok((q + 1, labels, None));
        }
        if buf.len() - q >= 2 && n >= POINTER_TAG {
            let offset: u16 = (n - POINTER_TAG) as u16 * 256 + buf[q + 1] as u16;
            if (offset as usize) < limit {
                proof {
                    assert(segs + Seq::<Seq<u8>>::empty() =~= segs);
                }
                return Ok((q + 2, labels, Some(offset)));
            }
        }
        if n as usize > buf.len() - q - 1 {
            break;
        }
        let e = q + 1 + n as usize;
        let s = data_to_string(vstd::slice::slice_subrange(buf, q + 1, e));
        proof {
            let seg = segment(buf@, q as int);
            assert(buf@.subrange(q + 1, e as int) == seg);
            lemma_texts_push(segs, seg, labels@, s);
            match read_name(buf@, e as int, limit as int) {
                Some((rest, off, end)) => {
                    assert(segs + (seq![seg] + rest) =~= segs.push(seg) + rest);
                },
                None => {},
            }
            segs = segs.push(seg);
        }
        labels.push(s);
        q = e;
    }
    if p >= buf.len() {
        Err(DnsError::ShortBuffer)
    } else {
        Err(DnsError::MalformedLabel)
    }
}

/// Decodes the name at `p` on its own; see `spec_parse_name_alone`.
pub(crate) fn parse_name_alone(buf: &[u8], p: usize) -> (r: Result<
    (usize, Vec<String>, Option<u16>),
    DnsError,
>)
    ensures
        name_result_agrees(r, spec_parse_name_alone(buf@, p as int)),
        r matches Ok((e, _, _)) ==> p < e <= buf@.len(),
{
    match parse_name_at(buf, p, 0) {
        Ok(t) => Ok(t),
        Err(_) => parse_name_at(buf, p, POINTER_LIMIT),
    }
}

/// Decodes the name at the start of `input`: a zero byte ends it, and so
/// does every byte whose top two bits are `11`, read with the byte after it
/// as a pointer, whatever follows (see `lemma_top_bits_end_name` and
/// `round_trip::lemma_parse_name_layout`).
///
/// Returns the input that follows the name, with the labels read and,
/// when the name ends in a compression pointer, the pointer's offset into
/// the original message, which the caller resolves with `resolve_offsets`.
pub fn parse(input: &[u8]) -> (r: Result<(&[u8], (Vec<String>, Option<u16>)), DnsError>)
    ensures
        match spec_parse_name(input@, 0, POINTER_LIMIT as int) {
            Ok((segs, o, end)) => match r {
                Ok((rest, (ls, o2))) => rest@ == input@.subrange(end, input@.len() as int) && o2
                    == o && labels_view(ls@) == label_texts(segs),
                Err(_) => false,
            },
            Err(x) => r matches Err(e) && e == x,
        },
{
    match parse_name_at(input, 0, POINTER_LIMIT) {
        Ok((n, labels, offset)) => Ok(
            (vstd::slice::slice_subrange(input, n, input.len()), (labels, offset)),
        ),
        Err(e) => Err(e),
    }
}

/// Resolves a pending compression pointer of the record that starts at
/// `record_start` against the whole original message `input`, giving the
/// labels to append; see `spec_resolve`.
pub fn resolve_offsets(input: &[u8], offset: Option<u16>, record_start: usize) -> (r: Result<
    Vec<String>,
    DnsError,
>)
    ensures
        match spec_resolve(input@, offset, record_start as int) {
            Ok(t) => r matches Ok(ls) && labels_view(ls@) == t,
            Err(x) => r == Err::<Vec<String>, DnsError>(x),
        },
{
    match offset {
        None => {
            let v: Vec<String> = Vec::new();
            proof {
                assert(labels_view(v@) =~= Seq::<Seq<char>>::empty());
            }
            Ok(v)
        },
        Some(o) => {
            if o as usize >= record_start || o as usize >= input.len() {
                return Err(DnsError::InvalidCompressionPointer);
            }
            match parse_name_at(input, o as usize, input.len()) {
                Ok((_, labels, None)) => Ok(labels),
                Ok((_, _, Some(_))) => Err(DnsError::InvalidCompressionPointer),
                Err(e) => Err(e),
            }
        },
    }
}

/// Longest label that a one-byte length can announce.
pub const MAX_LABEL_LEN: usize = 255;

/// The wire bytes of one label: its UTF-8 length, then its UTF-8 bytes.
pub open spec fn label_bytes(t: Seq<char>) -> Seq<u8> {
    seq![encode_utf8(t).len() as u8] + encode_utf8(t)
}

/// The wire bytes of a list of labels, without a terminator.
pub open spec fn labels_bytes(ls: Seq<Seq<char>>) -> Seq<u8>
    decreases ls.len(),
{
    if ls.len() == 0 {
        Seq::empty()
    } else {
        labels_bytes(ls.drop_last()) + label_bytes(ls.last())
    }
}

/// The wire bytes of a fully expanded name: its labels, then a zero byte.
pub open spec fn name_bytes(ls: Seq<Seq<char>>) -> Seq<u8> {
    labels_bytes(ls) + seq![0u8]
}

/// Every label is at most 255 bytes long in UTF-8.
pub open spec fn labels_fit(ls: Seq<Seq<char>>) -> bool {
    forall|i: int| 0 <= i < ls.len() ==> #[trigger] encode_utf8(ls[i]).len() <= MAX_LABEL_LEN
}

/// Whether every label of `labels` fits a one-byte length.
pub(crate) fn labels_within_limit(labels: &Vec<String>) -> (r: bool)
    ensures
        r == labels_fit(labels_view(labels@)),
{
    let mut i: usize = 0;
    while i < labels.len()
        invariant
            i <= labels@.len(),
            forall|j: int|
                0 <= j < i ==> #[trigger] encode_utf8(labels_view(labels@)[j]).len()
                    <= MAX_LABEL_LEN,
        decreases labels@.len() - i,
    {
        let n = labels[i].as_str().as_bytes().len();
        proof {
            assert(labels_view(labels@)[i as int] == labels@[i as int]@);
        }
        if n > MAX_LABEL_LEN {
            return false;
        }
        i = i + 1;
    }
    true
}

/// Appends the fully expanded name made of `labels` to `buf`.
pub(crate) fn encode_name(labels: &Vec<String>, buf: &mut Vec<u8>)
    requires
        labels_fit(labels_view(labels@)),
    ensures
        final(buf)@ == old(buf)@ + name_bytes(labels_view(labels@)),
{
    let ghost ls = labels_view(labels@);
    let mut i: usize = 0;
    while i < labels.len()
        invariant
            i <= labels@.len(),
            ls == labels_view(labels@),
            labels_fit(ls),
            buf@ == old(buf)@ + labels_bytes(ls.subrange(0, i as int)),
        decreases labels@.len() - i,
    {
        let bytes = labels[i].as_str().as_bytes();
        proof {
            assert(ls[i as int] == labels@[i as int]@);
            assert(encode_utf8(ls[i as int]).len() <= MAX_LABEL_LEN);
        }
        buf.push(bytes.len() as u8);
        let mut v = vstd::slice::slice_to_vec(bytes);
        buf.append(&mut v);
        proof {
            let pre = ls.subrange(0, i as int);
            let next = ls.subrange(0, i + 1);
            assert(next.drop_last() =~= pre);
            assert(next.last() == ls[i as int]);
            assert(buf@ =~= old(buf)@ + labels_bytes(next));
        }
        i = i + 1;
    }
    buf.push(0);
    proof {
        assert(ls.subrange(0, ls.len() as int) =~= ls);
        assert(buf@ =~= old(buf)@ + name_bytes(ls));
    }
}

} // verus!
