//! Errors raised by the wire codec.
use vstd::prelude::*;

verus! {

/// What went wrong while reading or writing a message.
#[derive(Debug, Clone, Copy, PartialEq, Eq, Structural)]
pub enum DnsError {
    /// A read or write would reach past the end of the 512-byte buffer.
    EndOfBuffer,
    /// A label to be written is longer than 63 bytes.
    LabelTooLong,
    /// A name followed more than five compression pointers.
    JumpLimit,
}

} // verus!
