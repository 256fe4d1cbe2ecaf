use vstd::prelude::*;

verus! {

/// What can go wrong while hiding a payload or recovering one.
#[derive(Clone, Copy, Debug, PartialEq, Eq, Structural)]
pub enum StegoError {
    /// The payload and its twelve bytes of framing do not fit into the carrier.
    CapacityExceeded,
    /// The carrier has a palette, is interlaced, or its bit depth is neither 8 nor 16.
    UnsupportedCarrierFormat,
    /// The samples ran out before the start marker was seen.
    StartMarkerNotFound,
    /// The start marker was seen, but the samples ran out before the end marker.
    EndMarkerNotFound,
    /// The end marker was seen, but the samples ran out within the four checksum bytes.
    ChecksumTruncated,
    /// The checksum read from the carrier differs from that of the recovered payload.
    ChecksumMismatch,
}

} // verus!
