//! The error kinds shared by every fallible codec operation.

use vstd::prelude::*;

verus! {

/// Everything that can go wrong while encoding or decoding a message.
#[derive(Clone, Copy, Debug, PartialEq, Eq, Structural)]
pub enum DnsError {
    /// A read or write would reach past the 512-byte message window.
    BufferExhausted,
    /// The response-code nibble of a header is outside the known 0..=5 set.
    InvalidResponseCode,
    /// A domain-name label exceeds the 63-byte protocol maximum on encode.
    LabelTooLong,
    /// A domain name chained more compression pointers than the decoder
    /// allows; guards against pointer cycles in adversarial messages.
    TooManyJumps,
}

} // verus!
