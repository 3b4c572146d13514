//! The 16-bit type and class codes of a question record.

use vstd::prelude::*;

verus! {

/// The type code of a question record: which kind of record is requested.
///
/// Well-known values get a variant of their own; any other 16-bit value is
/// kept verbatim in the `Other` fallback.
#[derive(Clone, Copy, Debug, PartialEq, Eq, Structural)]
pub enum QueryKind {
    A,
    NS,
    CNAME,
    SOA,
    PTR,
    MX,
    TXT,
    AAAA,
    SRV,
    ANY,
    Other(u16),
}

/// The class code of a question record: the namespace the request is under.
#[derive(Clone, Copy, Debug, PartialEq, Eq, Structural)]
pub enum QueryClass {
    IN,
    CS,
    CH,
    HS,
    ANY,
    Other(u16),
}

impl QueryKind {
    /// The type code that each 16-bit value decodes to.
    pub open spec fn spec_from(value: u16) -> QueryKind {
        if value == 1 {
            QueryKind::A
        } else if value == 2 {
            QueryKind::NS
        } else if value == 5 {
            QueryKind::CNAME
        } else if value == 6 {
            QueryKind::SOA
        } else if value == 12 {
            QueryKind::PTR
        } else if value == 15 {
            QueryKind::MX
        } else if value == 16 {
            QueryKind::TXT
        } else if value == 28 {
            QueryKind::AAAA
        } else if value == 33 {
            QueryKind::SRV
        } else if value == 255 {
            QueryKind::ANY
        } else {
            QueryKind::Other(value)
        }
    }

    /// The 16-bit value a type code stands for.
    pub open spec fn spec_to(self) -> u16 {
        match self {
            QueryKind::A => 1,
            QueryKind::NS => 2,
            QueryKind::CNAME => 5,
            QueryKind::SOA => 6,
            QueryKind::PTR => 12,
            QueryKind::MX => 15,
            QueryKind::TXT => 16,
            QueryKind::AAAA => 28,
            QueryKind::SRV => 33,
            QueryKind::ANY => 255,
            QueryKind::Other(value) => value,
        }
    }

    /// Decodes a 16-bit value into a type code; unrecognized values map to
    /// `Other`, never to a failure.
    pub fn from_u16(value: u16) -> (r: QueryKind)
        ensures
            r == QueryKind::spec_from(value),
    {
        match value {
            1 => QueryKind::A,
            2 => QueryKind::NS,
            5 => QueryKind::CNAME,
            6 => QueryKind::SOA,
            12 => QueryKind::PTR,
            15 => QueryKind::MX,
            16 => QueryKind::TXT,
            28 => QueryKind::AAAA,
            33 => QueryKind::SRV,
            255 => QueryKind::ANY,
            _ => QueryKind::Other(value),
        }
    }

    /// Encodes a type code back into its 16-bit value.
    pub fn to_u16(self) -> (r: u16)
        ensures
            r == self.spec_to(),
    {
        match self {
            QueryKind::A => 1,
            QueryKind::NS => 2,
            QueryKind::CNAME => 5,
            QueryKind::SOA => 6,
            QueryKind::PTR => 12,
            QueryKind::MX => 15,
            QueryKind::TXT => 16,
            QueryKind::AAAA => 28,
            QueryKind::SRV => 33,
            QueryKind::ANY => 255,
            QueryKind::Other(value) => value,
        }
    }
}

impl QueryClass {
    /// The class code that each 16-bit value decodes to.
    pub open spec fn spec_from(value: u16) -> QueryClass {
        if value == 1 {
            QueryClass::IN
        } else if value == 2 {
            QueryClass::CS
        } else if value == 3 {
            QueryClass::CH
        } else if value == 4 {
            QueryClass::HS
        } else if value == 255 {
            QueryClass::ANY
        } else {
            QueryClass::Other(value)
        }
    }

    /// The 16-bit value a class code stands for.
    pub open spec fn spec_to(self) -> u16 {
        match self {
            QueryClass::IN => 1,
            QueryClass::CS => 2,
            QueryClass::CH => 3,
            QueryClass::HS => 4,
            QueryClass::ANY => 255,
            QueryClass::Other(value) => value,
        }
    }

    /// Decodes a 16-bit value into a class code; unrecognized values map to
    /// `Other`, never to a failure.
    pub fn from_u16(value: u16) -> (r: QueryClass)
        ensures
            r == QueryClass::spec_from(value),
    {
        match value {
            1 => QueryClass::IN,
            2 => QueryClass::CS,
            3 => QueryClass::CH,
            4 => QueryClass::HS,
            255 => QueryClass::ANY,
            _ => QueryClass::Other(value),
        }
    }

    /// Encodes a class code back into its 16-bit value.
    pub fn to_u16(self) -> (r: u16)
        ensures
            r == self.spec_to(),
    {
        match self {
            QueryClass::IN => 1,
            QueryClass::CS => 2,
            QueryClass::CH => 3,
            QueryClass::HS => 4,
            QueryClass::ANY => 255,
            QueryClass::Other(value) => value,
        }
    }
}

/// Round trip of the code mappings: decoding a 16-bit value and encoding the
/// result gives the value back, for every value.
pub proof fn lemma_kind_code_round_trip(value: u16)
    ensures
        QueryKind::spec_from(value).spec_to() == value,
        QueryClass::spec_from(value).spec_to() == value,
{
}

} // verus!
