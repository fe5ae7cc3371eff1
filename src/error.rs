use vstd::prelude::*;

verus! {

/// Failures of the RTCP core and of the packet kinds plugged into it.
#[derive(Debug, Clone, PartialEq, Eq)]
pub enum Error {
    /// Fewer bytes remain than a header, or a header's declared length, needs.
    PacketTooShort,
    /// The buffer held no packet at all, or a header cannot be encoded.
    InvalidHeader,
    /// A failure reported by a packet kind's own decoder or encoder.
    Other(String),
}

} // verus!
