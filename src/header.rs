use vstd::prelude::*;

use crate::error::DnsError;
use crate::wire::{get_u16, put_u16, read_be_u16, u16_bytes};

verus! {

/// Length in bytes of the fixed message header.
pub const HEADER_LEN: usize = 12;

/// The fixed 12-byte header that opens every message.
#[derive(Debug, PartialEq, Eq, Clone, Copy, Structural)]
pub struct Header {
    pub id: u16,
    pub flags: HeaderFlags,
    pub question_count: u16,
    pub answer_count: u16,
    pub authority_resource_record_count: u16,
    pub additional_resource_record_count: u16,
}

/// The 16-bit flags word of the header, unpacked.
///
/// Wire layout, most significant bit first:
/// QR(1) OPCODE(4) AA(1) TC(1) RD(1) RA(1) reserved(3) RCODE(4).
#[derive(Debug, PartialEq, Eq, Clone, Copy, Structural)]
pub struct HeaderFlags {
    pub qr: QrFlag,
    pub opcode: OpCode,
    pub is_authoritative_answer: bool,
    pub is_truncation: bool,
    pub is_recursion_desired: bool,
    pub is_recursion_available: bool,
    pub response_code: ResponseCode,
}

#[derive(Debug, PartialEq, Eq, Clone, Copy, Structural)]
pub enum QrFlag {
    Query,
    Reply,
}

/// Kind of query. Unknown 4-bit values decode to `Invalid`, written as 0x0F.
#[derive(Debug, Default, PartialEq, Eq, Clone, Copy, Structural)]
pub enum OpCode {
    Query,
    InverseQuery,
    Status,
    #[default]
    Invalid,
}

/// Response status. Unknown 4-bit values decode to `Invalid`, written as 0x0F.
#[derive(Debug, PartialEq, Eq, Clone, Copy, Default, Structural)]
pub enum ResponseCode {
    #[default]
    NoError,
    FormatError,
    ServerFail,
    NonExistentDomain,
    NotImplemented,
    Invalid,
}

impl QrFlag {
    pub open spec fn spec_from_bit(v: u8) -> Self {
        if v == 0 {
            QrFlag::Query
        } else {
            QrFlag::Reply
        }
    }

    pub open spec fn spec_bit(self) -> u8 {
        match self {
            QrFlag::Query => 0,
            QrFlag::Reply => 1,
        }
    }
}

impl OpCode {
    pub open spec fn spec_from_code(v: u8) -> Self {
        match v {
            0 => OpCode::Query,
            1 => OpCode::InverseQuery,
            2 => OpCode::Status,
            _ => OpCode::Invalid,
        }
    }

    pub open spec fn spec_code(self) -> u8 {
        match self {
            OpCode::Query => 0,
            OpCode::InverseQuery => 1,
            OpCode::Status => 2,
            OpCode::Invalid => 0x0F,
        }
    }
}

impl ResponseCode {
    pub open spec fn spec_from_code(v: u8) -> Self {
        match v {
            0 => ResponseCode::NoError,
            1 => ResponseCode::FormatError,
            2 => ResponseCode::ServerFail,
            3 => ResponseCode::NonExistentDomain,
            4 => ResponseCode::NotImplemented,
            _ => ResponseCode::Invalid,
        }
    }

    pub open spec fn spec_code(self) -> u8 {
        match self {
            ResponseCode::NoError => 0,
            ResponseCode::FormatError => 1,
            ResponseCode::ServerFail => 2,
            ResponseCode::NonExistentDomain => 3,
            ResponseCode::NotImplemented => 4,
            ResponseCode::Invalid => 0x0F,
        }
    }
}

pub open spec fn bit(b: bool) -> int {
    if b {
        1
    } else {
        0
    }
}

/// The flags that the two bytes `b0`, `b1` of a flags word stand for; the
/// three reserved bits are ignored.
#[verifier::opaque]
pub open spec fn flags_from_bytes(b0: u8, b1: u8) -> HeaderFlags {
    HeaderFlags {
        qr: QrFlag::spec_from_bit(b0 / 128),
        opcode: OpCode::spec_from_code((b0 / 8) % 16),
        is_authoritative_answer: (b0 / 4) % 2 == 1,
        is_truncation: (b0 / 2) % 2 == 1,
        is_recursion_desired: b0 % 2 == 1,
        is_recursion_available: b1 / 128 == 1,
        response_code: ResponseCode::spec_from_code(b1 % 16),
    }
}

/// The two bytes of the flags word of `f`, reserved bits zero.
#[verifier::opaque]
pub open spec fn flags_bytes(f: HeaderFlags) -> Seq<u8> {
    seq![
        (f.qr.spec_bit() * 128 + f.opcode.spec_code() * 8 + bit(f.is_authoritative_answer) * 4
            + bit(f.is_truncation) * 2 + bit(f.is_recursion_desired)) as u8,
        (bit(f.is_recursion_available) * 128 + f.response_code.spec_code()) as u8,
    ]
}

/// The header held by the first 12 bytes of `buf`.
pub open spec fn header_from_bytes(buf: Seq<u8>) -> Header {
    Header {
        id: read_be_u16(buf, 0),
        flags: flags_from_bytes(buf[2], buf[3]),
        question_count: read_be_u16(buf, 4),
        answer_count: read_be_u16(buf, 6),
        authority_resource_record_count: read_be_u16(buf, 8),
        additional_resource_record_count: read_be_u16(buf, 10),
    }
}

/// The 12 bytes that encode `h`.
#[verifier::opaque]
pub open spec fn header_bytes(h: Header) -> Seq<u8> {
    u16_bytes(h.id) + flags_bytes(h.flags) + u16_bytes(h.question_count) + u16_bytes(
        h.answer_count,
    ) + u16_bytes(h.authority_resource_record_count) + u16_bytes(
        h.additional_resource_record_count,
    )
}

/// Decoding of a header at the start of `buf`: 12 bytes, or `ShortBuffer`.
pub open spec fn spec_parse_header(buf: Seq<u8>) -> Result<(usize, Header), DnsError> {
    if buf.len() >= HEADER_LEN {
        Ok((HEADER_LEN, header_from_bytes(buf)))
    } else {
        Err(DnsError::ShortBuffer)
    }
}

impl From<u8> for QrFlag {
    fn from(value: u8) -> (r: Self) {
        if value == 0 {
            QrFlag::Query
        } else {
            QrFlag::Reply
        }
    }
}

impl vstd::std_specs::convert::FromSpecImpl<u8> for QrFlag {
    open spec fn obeys_from_spec() -> bool {
        true
    }

    open spec fn from_spec(v: u8) -> Self {
        QrFlag::spec_from_bit(v)
    }
}

impl From<u8> for OpCode {
    fn from(value: u8) -> (r: Self) {
        match value {
            0 => OpCode::Query,
            1 => OpCode::InverseQuery,
            2 => OpCode::Status,
            _ => OpCode::Invalid,
        }
    }
}

impl vstd::std_specs::convert::FromSpecImpl<u8> for OpCode {
    open spec fn obeys_from_spec() -> bool {
        true
    }

    open spec fn from_spec(v: u8) -> Self {
        OpCode::spec_from_code(v)
    }
}

impl From<u8> for ResponseCode {
    fn from(value: u8) -> (r: Self) {
        match value {
            0 => ResponseCode::NoError,
            1 => ResponseCode::FormatError,
            2 => ResponseCode::ServerFail,
            3 => ResponseCode::NonExistentDomain,
            4 => ResponseCode::NotImplemented,
            _ => ResponseCode::Invalid,
        }
    }
}

impl vstd::std_specs::convert::FromSpecImpl<u8> for ResponseCode {
    open spec fn obeys_from_spec() -> bool {
        true
    }

    open spec fn from_spec(v: u8) -> Self {
        ResponseCode::spec_from_code(v)
    }
}

impl QrFlag {
    pub fn bit(self) -> (r: u8)
        ensures
            r == self.spec_bit(),
    {
        match self {
            QrFlag::Query => 0,
            QrFlag::Reply => 1,
        }
    }
}

impl OpCode {
    pub fn code(self) -> (r: u8)
        ensures
            r == self.spec_code(),
    {
        match self {
            OpCode::Query => 0,
            OpCode::InverseQuery => 1,
            OpCode::Status => 2,
            OpCode::Invalid => 0x0F,
        }
    }
}

impl ResponseCode {
    pub fn code(self) -> (r: u8)
        ensures
            r == self.spec_code(),
    {
        match self {
            ResponseCode::NoError => 0,
            ResponseCode::FormatError => 1,
            ResponseCode::ServerFail => 2,
            ResponseCode::NonExistentDomain => 3,
            ResponseCode::NotImplemented => 4,
            ResponseCode::Invalid => 0x0F,
        }
    }
}

fn bool_bit(b: bool) -> (r: u8)
    ensures
        r == bit(b),
{
    if b {
        1
    } else {
        0
    }
}

impl HeaderFlags {
    /// Decodes the two-byte flags word at the start of `input`.
    ///
    /// Returns the input that follows the two bytes with the flags, or
    /// `ShortBuffer` when fewer than two bytes are given.
    pub fn parse(input: &[u8]) -> (r: Result<(&[u8], HeaderFlags), DnsError>)
        ensures
            match r {
                Ok((rest, f)) => input@.len() >= 2 && rest@ == input@.subrange(
                    2,
                    input@.len() as int,
                ) && f == flags_from_bytes(input@[0], input@[1]),
                Err(e) => input@.len() < 2 && e == DnsError::ShortBuffer,
            },
    {
        if input.len() < 2 {
            return Err(DnsError::ShortBuffer);
        }
        proof {
            reveal(flags_from_bytes);
        }
        let b0 = input[0];
        let b1 = input[1];
        let flags = HeaderFlags {
            qr: QrFlag::from(b0 / 128),
            opcode: OpCode::from((b0 / 8) % 16),
            is_authoritative_answer: (b0 / 4) % 2 == 1,
            is_truncation: (b0 / 2) % 2 == 1,
            is_recursion_desired: b0 % 2 == 1,
            is_recursion_available: b1 / 128 == 1,
            response_code: ResponseCode::from(b1 % 16),
        };
        Ok((vstd::slice::slice_subrange(input, 2, input.len()), flags))
    }

    /// Appends the two bytes of the flags word to `buf`.
    pub fn encode(&self, buf: &mut Vec<u8>)
        ensures
            final(buf)@ == old(buf)@ + flags_bytes(*self),
    {
        let b0: u8 = self.qr.bit() * 128 + self.opcode.code() * 8 + bool_bit(
            self.is_authoritative_answer,
        ) * 4 + bool_bit(self.is_truncation) * 2 + bool_bit(self.is_recursion_desired);
        let b1: u8 = bool_bit(self.is_recursion_available) * 128 + self.response_code.code();
        buf.push(b0);
        buf.push(b1);
        proof {
            reveal(flags_bytes);
            assert(final(buf)@ =~= old(buf)@ + flags_bytes(*self));
        }
    }
}

impl Header {
    /// Decodes the 12-byte header at the start of `input`.
    ///
    /// Returns the input that follows the 12 bytes with the header, or
    /// `ShortBuffer` when fewer than 12 bytes are given.
    pub fn parse(input: &[u8]) -> (r: Result<(&[u8], Header), DnsError>)
        ensures
            match spec_parse_header(input@) {
                Ok((n, h)) => r matches Ok((rest, h2)) && h2 == h && rest@ == input@.subrange(
                    n as int,
                    input@.len() as int,
                ),
                Err(e) => r matches Err(e2) && e2 == e,
            },
    {
        if input.len() < HEADER_LEN {
            return Err(DnsError::ShortBuffer);
        }
        let id = get_u16(input, 0);
        let flags = match HeaderFlags::parse(vstd::slice::slice_subrange(input, 2, 4)) {
            Ok((_, f)) => f,
            Err(e) => {
                return Err(e);
            },
        };
        let question_count = get_u16(input, 4);
        let answer_count = get_u16(input, 6);
        let authority_resource_record_count = get_u16(input, 8);
        let additional_resource_record_count = get_u16(input, 10);
        Ok(
            (
                vstd::slice::slice_subrange(input, HEADER_LEN, input.len()),
                Header {
                    id,
                    flags,
                    question_count,
                    answer_count,
                    authority_resource_record_count,
                    additional_resource_record_count,
                },
            ),
        )
    }

    /// Appends the 12 bytes of the header to `buf`.
    pub fn encode(&self, buf: &mut Vec<u8>)
        ensures
            final(buf)@ == old(buf)@ + header_bytes(*self),
    {
        put_u16(buf, self.id);
        self.flags.encode(buf);
        put_u16(buf, self.question_count);
        put_u16(buf, self.answer_count);
        put_u16(buf, self.authority_resource_record_count);
        put_u16(buf, self.additional_resource_record_count);
        proof {
            reveal(header_bytes);
            assert(final(buf)@ =~= old(buf)@ + header_bytes(*self));
        }
    }
}

/// Encoding the flags and decoding the two bytes again gives back the same
/// flags, for every combination of the four booleans, the query/reply bit
/// and the two 4-bit codes, `Invalid` included.
pub proof fn lemma_flags_round_trip(f: HeaderFlags)
    ensures
        flags_bytes(f).len() == 2,
        flags_from_bytes(flags_bytes(f)[0], flags_bytes(f)[1]) == f,
{
    reveal(flags_bytes);
    reveal(flags_from_bytes);
    let b0 = flags_bytes(f)[0];
    let b1 = flags_bytes(f)[1];
    assert(b0 / 128 == f.qr.spec_bit());
    assert((b0 / 8) % 16 == f.opcode.spec_code());
    assert((b0 / 4) % 2 == bit(f.is_authoritative_answer));
    assert((b0 / 2) % 2 == bit(f.is_truncation));
    assert(b0 % 2 == bit(f.is_recursion_desired));
    assert(b1 / 128 == bit(f.is_recursion_available));
    assert(b1 % 16 == f.response_code.spec_code());
}

/// The first flags byte is the sum of its fields.
proof fn lemma_first_byte_fields(b: u8)
    ensures
        b == (b / 128) * 128 + ((b / 8) % 16) * 8 + ((b / 4) % 2) * 4 + ((b / 2) % 2) * 2 + b % 2,
{
    assert(b == (b / 128) * 128 + ((b / 8) % 16) * 8 + ((b / 4) % 2) * 4 + ((b / 2) % 2) * 2 + b
        % 2) by (nonlinear_arith)
        requires
            0 <= b < 256,
    ;
}

/// The second flags byte is the sum of its fields.
proof fn lemma_second_byte_fields(b: u8)
    ensures
        b == (b / 128) * 128 + ((b / 16) % 8) * 16 + b % 16,
{
    assert(b == (b / 128) * 128 + ((b / 16) % 8) * 16 + b % 16) by (nonlinear_arith)
        requires
            0 <= b < 256,
    ;
}

/// Decoding a flags word and encoding it again reproduces the exact two
/// bytes whenever the reserved bits are zero and both 4-bit codes are ones
/// that the enumerations name (0x0F included).
pub proof fn lemma_flags_bits_round_trip(b0: u8, b1: u8)
    requires
        (b1 / 16) % 8 == 0,
        OpCode::spec_from_code((b0 / 8) % 16).spec_code() == (b0 / 8) % 16,
        ResponseCode::spec_from_code(b1 % 16).spec_code() == b1 % 16,
    ensures
        flags_bytes(flags_from_bytes(b0, b1)) == seq![b0, b1],
{
    reveal(flags_bytes);
    reveal(flags_from_bytes);
    lemma_first_byte_fields(b0);
    lemma_second_byte_fields(b1);
    let f = flags_from_bytes(b0, b1);
    assert(f.qr.spec_bit() == b0 / 128);
    assert(bit(f.is_authoritative_answer) == (b0 / 4) % 2);
    assert(bit(f.is_truncation) == (b0 / 2) % 2);
    assert(bit(f.is_recursion_desired) == b0 % 2);
    assert(bit(f.is_recursion_available) == b1 / 128);
    assert(flags_bytes(f) =~= seq![b0, b1]);
}

/// Encoding a header and decoding the 12 bytes again gives back the header.
pub proof fn lemma_header_round_trip(h: Header)
    ensures
        header_bytes(h).len() == HEADER_LEN,
        spec_parse_header(header_bytes(h)) == Ok::<(usize, Header), DnsError>((HEADER_LEN, h)),
{
    lemma_flags_round_trip(h.flags);
    reveal(header_bytes);
    let b = header_bytes(h);
    reveal(flags_bytes);
    assert(b.len() == 12);
    assert(header_from_bytes(b) == h);
}

} // verus!
