use vstd::prelude::*;

verus! {

/// Resource record class (RFC 1035, section 3.2.4).
///
/// Wire value 0 and every value outside 1..=4 decode to `Invalid`.
#[derive(Debug, Default, PartialEq, Eq, Clone, Copy, Structural)]
pub enum ResourceRecordClass {
    /// Invalid value.
    #[default]
    Invalid,
    /// the Internet
    IN,
    /// the CSNET class (Obsolete - used only for examples in some obsolete RFCs)
    CS,
    /// the CHAOS class
    CH,
    /// Hesiod [Dyer 87]
    HS,
}

impl ResourceRecordClass {
    /// The class that the 16-bit wire value `v` stands for.
    pub open spec fn spec_from_code(v: u16) -> Self {
        match v {
            1 => ResourceRecordClass::IN,
            2 => ResourceRecordClass::CS,
            3 => ResourceRecordClass::CH,
            4 => ResourceRecordClass::HS,
            _ => ResourceRecordClass::Invalid,
        }
    }

    /// The 16-bit wire value of this class.
    pub open spec fn spec_code(self) -> u16 {
        match self {
            ResourceRecordClass::Invalid => 0,
            ResourceRecordClass::IN => 1,
            ResourceRecordClass::CS => 2,
            ResourceRecordClass::CH => 3,
            ResourceRecordClass::HS => 4,
        }
    }

    pub fn from_code(v: u16) -> (r: Self)
        ensures
            r == Self::spec_from_code(v),
    {
        match v {
            1 => ResourceRecordClass::IN,
            2 => ResourceRecordClass::CS,
            3 => ResourceRecordClass::CH,
            4 => ResourceRecordClass::HS,
            _ => ResourceRecordClass::Invalid,
        }
    }

    pub fn code(self) -> (r: u16)
        ensures
            r == self.spec_code(),
    {
        match self {
            ResourceRecordClass::Invalid => 0,
            ResourceRecordClass::IN => 1,
            ResourceRecordClass::CS => 2,
            ResourceRecordClass::CH => 3,
            ResourceRecordClass::HS => 4,
        }
    }

    /// Every class survives encoding and decoding.
    pub proof fn lemma_code_round_trip(self)
        ensures
            Self::spec_from_code(self.spec_code()) == self,
    {
    }
}

impl From<u16> for ResourceRecordClass {
    fn from(value: u16) -> (r: Self) {
        Self::from_code(value)
    }
}

impl vstd::std_specs::convert::FromSpecImpl<u16> for ResourceRecordClass {
    open spec fn obeys_from_spec() -> bool {
        true
    }

    open spec fn from_spec(v: u16) -> Self {
        Self::spec_from_code(v)
    }
}

} // verus!
