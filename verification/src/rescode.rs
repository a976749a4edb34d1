//! The 4-bit result code of a message header. Codes 6 through 15 are
//! protocol-legal but unassigned here; they are carried through as data,
//! never treated as a failure.

use vstd::prelude::*;

use crate::DnsError;

verus! {

/// A header result code: the five assigned values, or any other 4-bit value
/// carried through unchanged.
#[derive(Copy, Clone, Debug, PartialEq, Eq, Structural)]
pub enum ResultCode {
    NOERROR,
    FORMERR,
    SERVFAIL,
    NXDOMAIN,
    NOTIMP,
    REFUSED,
    UNRECOGNIZED(u8),
}

impl ResultCode {
    /// The 4-bit wire value of this code.
    pub open spec fn spec_to_num(self) -> u8 {
        match self {
            ResultCode::NOERROR => 0,
            ResultCode::FORMERR => 1,
            ResultCode::SERVFAIL => 2,
            ResultCode::NXDOMAIN => 3,
            ResultCode::NOTIMP => 4,
            ResultCode::REFUSED => 5,
            ResultCode::UNRECOGNIZED(n) => n,
        }
    }

    /// The code a 4-bit wire value decodes to.
    pub open spec fn spec_from_num(num: u8) -> ResultCode {
        if num == 0 {
            ResultCode::NOERROR
        } else if num == 1 {
            ResultCode::FORMERR
        } else if num == 2 {
            ResultCode::SERVFAIL
        } else if num == 3 {
            ResultCode::NXDOMAIN
        } else if num == 4 {
            ResultCode::NOTIMP
        } else if num == 5 {
            ResultCode::REFUSED
        } else {
            ResultCode::UNRECOGNIZED(num)
        }
    }

    /// A code as decoding produces it: an unrecognized value is only used
    /// for the 4-bit codes that have no variant of their own.
    pub open spec fn wf(self) -> bool {
        match self {
            ResultCode::UNRECOGNIZED(n) => 6 <= n <= 15,
            _ => true,
        }
    }

    /// The numeric value of this code, as the header packs it.
    pub fn to_num(&self) -> (r: u8)
        ensures
            r == self.spec_to_num(),
    {
        match *self {
            ResultCode::NOERROR => 0,
            ResultCode::FORMERR => 1,
            ResultCode::SERVFAIL => 2,
            ResultCode::NXDOMAIN => 3,
            ResultCode::NOTIMP => 4,
            ResultCode::REFUSED => 5,
            ResultCode::UNRECOGNIZED(n) => n,
        }
    }

    /// Decodes a result code from its wire value. Every 4-bit value is
    /// accepted, the unassigned ones as passthrough data; a value outside
    /// the 4-bit range is refused as malformed.
    pub fn from_num(num: u8) -> (r: Result<ResultCode, DnsError>)
        ensures
            num <= 15 ==> r == Ok::<ResultCode, DnsError>(ResultCode::spec_from_num(num)),
            num > 15 ==> r == Err::<ResultCode, DnsError>(DnsError::MalformedResultCode),
            r matches Ok(c) ==> c.wf(),
    {
        if num > 15 {
            return Err(DnsError::MalformedResultCode);
        }
        match num {
            0u8 => Ok(ResultCode::NOERROR),
            1u8 => Ok(ResultCode::FORMERR),
            2u8 => Ok(ResultCode::SERVFAIL),
            3u8 => Ok(ResultCode::NXDOMAIN),
            4u8 => Ok(ResultCode::NOTIMP),
            5u8 => Ok(ResultCode::REFUSED),
            _ => Ok(ResultCode::UNRECOGNIZED(num)),
        }
    }
}

/// Every well-formed code survives the trip through its wire value.
pub proof fn lemma_rescode_roundtrip(c: ResultCode)
    requires
        c.wf(),
    ensures
        c.spec_to_num() <= 15,
        ResultCode::spec_from_num(c.spec_to_num()) == c,
{
}

} // verus!
