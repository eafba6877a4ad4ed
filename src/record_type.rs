use vstd::prelude::*;

verus! {

/// Resource record type (RFC 1035, section 3.2.2).
///
/// Wire value 0 and every value outside 1..=16 decode to `Invalid`.
#[derive(Debug, Default, PartialEq, Eq, Clone, Copy, Structural)]
pub enum ResourceRecordType {
    /// Invalid value.
    #[default]
    Invalid,
    /// a host address.
    A,
    /// an authoritative name server.
    NS,
    /// a mail destination (Obsolete - use MX).
    MD,
    /// a mail forwarder (Obsolete - use MX).
    MF,
    /// the canonical name for an alias.
    CNAME,
    /// marks the start of a zone of authority.
    SOA,
    /// a mailbox domain name (EXPERIMENTAL).
    MB,
    /// a mail group member (EXPERIMENTAL).
    MG,
    /// a mail rename domain name (EXPERIMENTAL).
    MR,
    /// a null RR (EXPERIMENTAL).
    NULL,
    /// a well known service description.
    WKS,
    /// a domain name pointer.
    PTR,
    /// host information.
    HINFO,
    /// mailbox or mail list information.
    MINFO,
    /// mail exchange.
    MX,
    /// text strings.
    TXT,
}

impl ResourceRecordType {
    /// The type that the 16-bit wire value `v` stands for.
    pub open spec fn spec_from_code(v: u16) -> Self {
        match v {
            1 => ResourceRecordType::A,
            2 => ResourceRecordType::NS,
            3 => ResourceRecordType::MD,
            4 => ResourceRecordType::MF,
            5 => ResourceRecordType::CNAME,
            6 => ResourceRecordType::SOA,
            7 => ResourceRecordType::MB,
            8 => ResourceRecordType::MG,
            9 => ResourceRecordType::MR,
            10 => ResourceRecordType::NULL,
            11 => ResourceRecordType::WKS,
            12 => ResourceRecordType::PTR,
            13 => ResourceRecordType::HINFO,
            14 => ResourceRecordType::MINFO,
            15 => ResourceRecordType::MX,
            16 => ResourceRecordType::TXT,
            _ => ResourceRecordType::Invalid,
        }
    }

    /// The 16-bit wire value of this type.
    pub open spec fn spec_code(self) -> u16 {
        match self {
            ResourceRecordType::Invalid => 0,
            ResourceRecordType::A => 1,
            ResourceRecordType::NS => 2,
            ResourceRecordType::MD => 3,
            ResourceRecordType::MF => 4,
            ResourceRecordType::CNAME => 5,
            ResourceRecordType::SOA => 6,
            ResourceRecordType::MB => 7,
            ResourceRecordType::MG => 8,
            ResourceRecordType::MR => 9,
            ResourceRecordType::NULL => 10,
            ResourceRecordType::WKS => 11,
            ResourceRecordType::PTR => 12,
            ResourceRecordType::HINFO => 13,
            ResourceRecordType::MINFO => 14,
            ResourceRecordType::MX => 15,
            ResourceRecordType::TXT => 16,
        }
    }

    pub fn from_code(v: u16) -> (r: Self)
        ensures
            r == Self::spec_from_code(v),
    {
        match v {
            1 => ResourceRecordType::A,
            2 => ResourceRecordType::NS,
            3 => ResourceRecordType::MD,
            4 => ResourceRecordType::MF,
            5 => ResourceRecordType::CNAME,
            6 => ResourceRecordType::SOA,
            7 => ResourceRecordType::MB,
            8 => ResourceRecordType::MG,
            9 => ResourceRecordType::MR,
            10 => ResourceRecordType::NULL,
            11 => ResourceRecordType::WKS,
            12 => ResourceRecordType::PTR,
            13 => ResourceRecordType::HINFO,
            14 => ResourceRecordType::MINFO,
            15 => ResourceRecordType::MX,
            16 => ResourceRecordType::TXT,
            _ => ResourceRecordType::Invalid,
        }
    }

    pub fn code(self) -> (r: u16)
        ensures
            r == self.spec_code(),
    {
        match self {
            ResourceRecordType::Invalid => 0,
            ResourceRecordType::A => 1,
            ResourceRecordType::NS => 2,
            ResourceRecordType::MD => 3,
            ResourceRecordType::MF => 4,
            ResourceRecordType::CNAME => 5,
            ResourceRecordType::SOA => 6,
            ResourceRecordType::MB => 7,
            ResourceRecordType::MG => 8,
            ResourceRecordType::MR => 9,
            ResourceRecordType::NULL => 10,
            ResourceRecordType::WKS => 11,
            ResourceRecordType::PTR => 12,
            ResourceRecordType::HINFO => 13,
            ResourceRecordType::MINFO => 14,
            ResourceRecordType::MX => 15,
            ResourceRecordType::TXT => 16,
        }
    }

    /// Every type survives encoding and decoding.
    pub proof fn lemma_code_round_trip(self)
        ensures
            Self::spec_from_code(self.spec_code()) == self,
    {
    }
}

impl From<u16> for ResourceRecordType {
    fn from(value: u16) -> (r: Self) {
        Self::from_code(value)
    }
}

impl vstd::std_specs::convert::FromSpecImpl<u16> for ResourceRecordType {
    open spec fn obeys_from_spec() -> bool {
        true
    }

    open spec fn from_spec(v: u16) -> Self {
        Self::spec_from_code(v)
    }
}

} // verus!
