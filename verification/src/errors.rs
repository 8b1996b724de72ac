//! Error kinds surfaced by the resolver core.

use vstd::prelude::*;

verus! {

/// Every failure the codec, cache and resolver can report.
#[derive(Clone, Copy, Debug, PartialEq, Eq, Structural)]
pub enum DnsError {
    /// A read or write ran past the end of the 512-byte buffer.
    EndOfBuffer,
    /// A compression-pointer chain exceeded the jump limit.
    TooManyJumps,
    /// A name label exceeded 63 bytes on encode.
    LabelTooLong,
    /// An upstream reply carried neither answers nor a referral.
    MalformedResponse,
    /// An upstream server did not reply in time.
    UpstreamTimeout,
    /// Sending to or receiving from an upstream server failed.
    UpstreamIoError,
    /// Every candidate server was tried without a usable reply.
    NoProgress,
}

} // verus!
