//! Record-type and response-code enumerations and their wire numbers.
use vstd::prelude::*;

verus! {

/// The record types this resolver understands; any other code is kept as `UNKNOWN`.
#[derive(PartialEq, Eq, Structural, Debug, Clone, Copy, Hash)]
pub enum RecordType {
    UNKNOWN(u16),
    A,
    NS,
    CNAME,
    MX,
    AAAA,
}

/// The wire code of a record type.
pub open spec fn type_code(t: RecordType) -> u16 {
    match t {
        RecordType::UNKNOWN(n) => n,
        RecordType::A => 1,
        RecordType::NS => 2,
        RecordType::CNAME => 5,
        RecordType::MX => 15,
        RecordType::AAAA => 28,
    }
}

/// The record type of a wire code.
pub open spec fn type_of_code(n: u16) -> RecordType {
    if n == 1 {
        RecordType::A
    } else if n == 2 {
        RecordType::NS
    } else if n == 5 {
        RecordType::CNAME
    } else if n == 15 {
        RecordType::MX
    } else if n == 28 {
        RecordType::AAAA
    } else {
        RecordType::UNKNOWN(n)
    }
}

impl RecordType {
    /// The wire code of this type.
    pub fn to_num(&self) -> (r: u16)
        ensures
            r == type_code(*self),
    {
        match *self {
            RecordType::A => 1,
            RecordType::UNKNOWN(num) => num,
            RecordType::NS => 2,
            RecordType::CNAME => 5,
            RecordType::MX => 15,
            RecordType::AAAA => 28,
        }
    }

    /// The type of a wire code.
    pub fn from_num(num: u16) -> (r: RecordType)
        ensures
            r == type_of_code(num),
    {
        match num {
            1 => RecordType::A,
            2 => RecordType::NS,
            5 => RecordType::CNAME,
            15 => RecordType::MX,
            28 => RecordType::AAAA,
            _ => RecordType::UNKNOWN(num),
        }
    }
}

/// The response code of a message header.
#[derive(PartialEq, Eq, Structural, Debug, Clone, Copy, Hash)]
pub enum ResultCode {
    NOERROR,
    FORMERR,
    SERVFAIL,
    NXDOMAIN,
    NOTIMP,
    REFUSED,
}

/// The four-bit wire value of a response code.
pub open spec fn rescode_num(c: ResultCode) -> u8 {
    match c {
        ResultCode::NOERROR => 0,
        ResultCode::FORMERR => 1,
        ResultCode::SERVFAIL => 2,
        ResultCode::NXDOMAIN => 3,
        ResultCode::NOTIMP => 4,
        ResultCode::REFUSED => 5,
    }
}

/// The response code of a four-bit wire value; values without a name read as `NOERROR`.
pub open spec fn rescode_of_num(n: u8) -> ResultCode {
    if n == 1 {
        ResultCode::FORMERR
    } else if n == 2 {
        ResultCode::SERVFAIL
    } else if n == 3 {
        ResultCode::NXDOMAIN
    } else if n == 4 {
        ResultCode::NOTIMP
    } else if n == 5 {
        ResultCode::REFUSED
    } else {
        ResultCode::NOERROR
    }
}

impl ResultCode {
    /// The wire value of this code.
    pub fn to_num(&self) -> (r: u8)
        ensures
            r == rescode_num(*self),
            r < 16,
    {
        match *self {
            ResultCode::NOERROR => 0,
            ResultCode::FORMERR => 1,
            ResultCode::SERVFAIL => 2,
            ResultCode::NXDOMAIN => 3,
            ResultCode::NOTIMP => 4,
            ResultCode::REFUSED => 5,
        }
    }

    /// The code of a wire value.
    pub fn from_num(num: u8) -> (r: ResultCode)
        ensures
            r == rescode_of_num(num),
    {
        match num {
            1 => ResultCode::FORMERR,
            2 => ResultCode::SERVFAIL,
            3 => ResultCode::NXDOMAIN,
            4 => ResultCode::NOTIMP,
            5 => ResultCode::REFUSED,
            _ => ResultCode::NOERROR,
        }
    }
}

} // verus!
