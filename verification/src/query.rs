//! The query-type vocabulary: the address record type, plus a passthrough
//! arm for every other 16-bit type code.

use vstd::prelude::*;

verus! {

/// A record or question type: the address type, or any other type code
/// preserved as its raw numeric value.
#[derive(PartialEq, Eq, Debug, Clone, Hash, Copy, Structural)]
pub enum QueryType {
    UNKNOWN(u16),
    A,
}

impl QueryType {
    /// The 16-bit wire value of this type.
    pub open spec fn spec_to_num(self) -> u16 {
        match self {
            QueryType::UNKNOWN(num) => num,
            QueryType::A => 1,
        }
    }

    /// The type a 16-bit wire value decodes to.
    pub open spec fn spec_from_num(num: u16) -> QueryType {
        if num == 1 {
            QueryType::A
        } else {
            QueryType::UNKNOWN(num)
        }
    }

    /// A type as decoding produces it: the address type never hides behind
    /// its raw code.
    pub open spec fn wf(self) -> bool {
        self matches QueryType::UNKNOWN(n) ==> n != 1
    }

    /// The numeric value of this type, as the wire format carries it.
    pub fn to_num(&self) -> (r: u16)
        ensures
            r == self.spec_to_num(),
    {
        match *self {
            QueryType::UNKNOWN(num) => num,
            QueryType::A => 1,
        }
    }

    /// Decodes a type from its wire value; unknown codes are preserved as
    /// their raw numeric value.
    pub fn from_num(num: u16) -> (r: QueryType)
        ensures
            r == QueryType::spec_from_num(num),
            r.wf(),
    {
        match num {
            1u16 => QueryType::A,
            _ => QueryType::UNKNOWN(num),
        }
    }
}

/// Every well-formed type survives the trip through its wire value.
pub proof fn lemma_qtype_roundtrip(q: QueryType)
    requires
        q.wf(),
    ensures
        QueryType::spec_from_num(q.spec_to_num()) == q,
{
}

} // verus!
