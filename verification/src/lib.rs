//! A verified codec for DNS messages (RFC 1035): a bounded 512-byte packet
//! buffer with an explicit cursor, the 12-byte header bitfield layout,
//! label/name encoding with compression-pointer resolution, and resource
//! record (de)serialization.

use vstd::prelude::*;

pub mod header;
pub mod name;
pub mod packet;
pub mod query;
pub mod question;
pub mod record;
pub mod relay;
pub mod rescode;
pub mod roundtrip;

verus! {

/// The ways a codec operation can fail.
///
/// Unknown record types and unknown result codes are not errors; they are
/// valid protocol states carried through as numeric data.
#[derive(Clone, Copy, Debug, PartialEq, Eq, Structural)]
pub enum DnsError {
    /// A read or write would reach past the 512-byte packet capacity.
    BufferOverrun,
    /// Name decoding followed more than five compression pointers.
    TooManyRedirects,
    /// A label to encode exceeds 63 bytes.
    LabelTooLong,
    /// A result code outside the representable 4-bit range was supplied.
    MalformedResultCode,
}

} // verus!
