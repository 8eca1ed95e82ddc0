//! The error taxonomy of the codec.

use vstd::prelude::*;

verus! {

/// Everything that can go wrong while decoding or encoding a DNS message.
///
/// Decode errors are terminal for the whole datagram: the codec aborts on the
/// first error and returns no partial result.
#[derive(Debug, Clone, Copy, PartialEq, Eq, Structural)]
pub enum DnsError {
    /// Fewer bytes remain than a field or body requires.
    Truncated,
    /// A label longer than 63 bytes was handed to the encoder.
    LabelTooLong,
    /// Name decompression followed more than four pointer hops.
    TooManyIndirections,
    /// A compression pointer's offset is 512 or more.
    PointerOutOfRange,
    /// Encoding would write past the end of the caller's output buffer.
    BufferTooSmall,
}

} // verus!
