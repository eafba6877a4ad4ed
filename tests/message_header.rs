use dns_starter_rust::{DnsError, Header, HeaderFlags, OpCode, QrFlag, ResponseCode};

#[test]
fn test_parse_header() {
    const INPUT: [u8; 12] = [
        0x12,
        0x34,
        0b1001_0111,
        0b1000_0000,
        0,
        42,
        0,
        56,
        0,
        12,
        0,
        38,
    ];

    // Test parse
    let (_, h) = Header::parse(&INPUT).unwrap();
    assert_eq!(
        h,
        Header {
            id: 0x1234,
            flags: HeaderFlags {
                qr: QrFlag::Reply,
                opcode: OpCode::Status,
                is_authoritative_answer: true,
                is_truncation: true,
                is_recursion_desired: true,
                is_recursion_available: true,
                response_code: ResponseCode::NoError,
            },
            question_count: 42,
            answer_count: 56,
            authority_resource_record_count: 12,
            additional_resource_record_count: 38,
        }
    );

    // Test encode
    let mut buf = Vec::with_capacity(INPUT.len());
    h.encode(&mut buf);
    assert_eq!(buf, INPUT);
}

#[test]
fn test_parse_header_flags_qr() {
    let (_, h) = HeaderFlags::parse(&[0b0000_0000, 0b0000_0000]).unwrap();
    assert_eq!(
        h,
        HeaderFlags {
            qr: QrFlag::Query,
            opcode: OpCode::Query,
            is_authoritative_answer: false,
            is_truncation: false,
            is_recursion_desired: false,
            is_recursion_available: false,
            response_code: ResponseCode::NoError,
        }
    );

    let (_, h) = HeaderFlags::parse(&[0b1000_0000, 0b0000_0000]).unwrap();
    assert_eq!(
        h,
        HeaderFlags {
            qr: QrFlag::Reply,
            opcode: OpCode::Query,
            is_authoritative_answer: false,
            is_truncation: false,
            is_recursion_desired: false,
            is_recursion_available: false,
            response_code: ResponseCode::NoError,
        }
    );
}

#[test]
fn test_parse_header_flags_opcode() {
    let (_, h) = HeaderFlags::parse(&[0b0000_1000, 0b0000_0000]).unwrap();
    assert_eq!(
        h,
        HeaderFlags {
            qr: QrFlag::Query,
            opcode: OpCode::InverseQuery,
            is_authoritative_answer: false,
            is_truncation: false,
            is_recursion_desired: false,
            is_recursion_available: false,
            response_code: ResponseCode::NoError,
        }
    );

    let (_, h) = HeaderFlags::parse(&[0b0100_0000, 0b0000_0000]).unwrap();
    assert_eq!(
        h,
        HeaderFlags {
            qr: QrFlag::Query,
            opcode: OpCode::Invalid,
            is_authoritative_answer: false,
            is_truncation: false,
            is_recursion_desired: false,
            is_recursion_available: false,
            response_code: ResponseCode::NoError,
        }
    );
}

#[test]
fn test_parse_header_flags_bool() {
    let (_, h) = HeaderFlags::parse(&[0b0000_0101, 0b0000_0000]).unwrap();
    assert_eq!(
        h,
        HeaderFlags {
            qr: QrFlag::Query,
            opcode: OpCode::Query,
            is_authoritative_answer: true,
            is_truncation: false,
            is_recursion_desired: true,
            is_recursion_available: false,
            response_code: ResponseCode::NoError,
        }
    );

    let (_, h) = HeaderFlags::parse(&[0b0000_0010, 0b1000_0000]).unwrap();
    assert_eq!(
        h,
        HeaderFlags {
            qr: QrFlag::Query,
            opcode: OpCode::Query,
            is_authoritative_answer: false,
            is_truncation: true,
            is_recursion_desired: false,
            is_recursion_available: true,
            response_code: ResponseCode::NoError,
        }
    );
}

#[test]
fn test_parse_header_flags_response_code() {
    let (_, h) = HeaderFlags::parse(&[0b0000_0000, 0b0000_0010]).unwrap();
    assert_eq!(
        h,
        HeaderFlags {
            qr: QrFlag::Query,
            opcode: OpCode::Query,
            is_authoritative_answer: false,
            is_truncation: false,
            is_recursion_desired: false,
            is_recursion_available: false,
            response_code: ResponseCode::ServerFail,
        }
    );
}

const QRS: [QrFlag; 2] = [QrFlag::Query, QrFlag::Reply];
const OPCODES: [OpCode; 4] = [OpCode::Query, OpCode::InverseQuery, OpCode::Status, OpCode::Invalid];
const RCODES: [ResponseCode; 6] = [
    ResponseCode::NoError,
    ResponseCode::FormatError,
    ResponseCode::ServerFail,
    ResponseCode::NonExistentDomain,
    ResponseCode::NotImplemented,
    ResponseCode::Invalid,
];

#[test]
fn flags_encode_then_parse_recovers_every_combination() {
    for qr in QRS {
        for opcode in OPCODES {
            for rcode in RCODES {
                for bits in 0u8..16 {
                    let flags = HeaderFlags {
                        qr,
                        opcode,
                        is_authoritative_answer: bits & 1 != 0,
                        is_truncation: bits & 2 != 0,
                        is_recursion_desired: bits & 4 != 0,
                        is_recursion_available: bits & 8 != 0,
                        response_code: rcode,
                    };
                    let mut buf = Vec::new();
                    flags.encode(&mut buf);
                    assert_eq!(buf.len(), 2);
                    let (rest, back) = HeaderFlags::parse(&buf).unwrap();
                    assert!(rest.is_empty());
                    assert_eq!(back, flags);
                }
            }
        }
    }
}

#[test]
fn unknown_codes_decode_to_invalid_and_encode_as_fifteen() {
    // OPCODE 8 and RCODE 9 are not named.
    let (_, f) = HeaderFlags::parse(&[0b0100_0000, 0b0000_1001]).unwrap();
    assert_eq!(f.opcode, OpCode::Invalid);
    assert_eq!(f.response_code, ResponseCode::Invalid);
    let mut buf = Vec::new();
    f.encode(&mut buf);
    assert_eq!(buf, vec![0b0111_1000, 0b0000_1111]);
    let (_, again) = HeaderFlags::parse(&buf).unwrap();
    assert_eq!(again, f);
}

#[test]
fn response_code_four_is_not_implemented_and_five_invalid() {
    let (_, f) = HeaderFlags::parse(&[0, 4]).unwrap();
    assert_eq!(f.response_code, ResponseCode::NotImplemented);
    let (_, f) = HeaderFlags::parse(&[0, 5]).unwrap();
    assert_eq!(f.response_code, ResponseCode::Invalid);
}

#[test]
fn reserved_bits_are_ignored() {
    let (_, f) = HeaderFlags::parse(&[0b0000_0000, 0b0111_0011]).unwrap();
    assert_eq!(f.response_code, ResponseCode::NonExistentDomain);
    assert!(!f.is_recursion_available);
    let mut buf = Vec::new();
    f.encode(&mut buf);
    assert_eq!(buf, vec![0, 3]);
}

#[test]
fn header_round_trip() {
    let h = Header {
        id: 0xBEEF,
        flags: HeaderFlags {
            qr: QrFlag::Reply,
            opcode: OpCode::InverseQuery,
            is_authoritative_answer: false,
            is_truncation: true,
            is_recursion_desired: false,
            is_recursion_available: true,
            response_code: ResponseCode::NotImplemented,
        },
        question_count: 1,
        answer_count: 258,
        authority_resource_record_count: 65535,
        additional_resource_record_count: 0,
    };
    let mut buf = Vec::new();
    h.encode(&mut buf);
    assert_eq!(buf, vec![0xBE, 0xEF, 0b1000_1010, 0b1000_0100, 0, 1, 1, 2, 255, 255, 0, 0]);
    assert_eq!(Header::parse(&buf).unwrap(), (&[][..], h));
}

#[test]
fn short_header_is_short_buffer() {
    let input = [0u8; 10];
    assert_eq!(Header::parse(&input), Err(DnsError::ShortBuffer));
    assert_eq!(HeaderFlags::parse(&[0x80]), Err(DnsError::ShortBuffer));
}

#[test]
fn header_parse_consumes_exactly_twelve_bytes() {
    let input = [1u8, 2, 0, 0, 0, 0, 0, 0, 0, 0, 0, 0, 0xFF, 0xFF];
    let (rest, h) = Header::parse(&input).unwrap();
    assert_eq!(rest, &[0xFF, 0xFF]);
    assert_eq!(h.id, 0x0102);
}
