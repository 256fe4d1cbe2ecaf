//! Hiding a byte payload in the least-significant bits of an image's samples,
//! and recovering it again.
//!
//! The payload is framed by a start marker, an end marker and a CRC-32/CKSUM
//! checksum, and the framed bytes are written one bit per sample, most
//! significant bit first. Recovery scans the sample bits for the markers
//! without knowing the payload's length in advance.
//!
//! The library works on a flat buffer of sample bytes and the image's
//! geometry; reading and writing image files is left to the caller.

/// The checksum of a payload, and big-endian bytes.
pub mod checksum;
/// Recovering a payload from a carrier.
pub mod decoder;
/// Hiding a payload in a carrier.
pub mod encoder;
/// The errors of hiding and recovering.
pub mod error;
/// The markers, and the framed bytes of a payload as a pull source.
pub mod framing;
/// Carrier headers, image geometry and capacity.
pub mod geometry;
/// What holds of hiding and recovering together.
pub mod laws;
/// Bits of samples and of bytes, and what a carrier holds.
pub mod samples;
/// The scan for the markers, one recovered byte at a time.
pub mod scanner;
