//! Error type shared by the decoding and encoding entry points.

use vstd::prelude::*;

verus! {

/// Everything that can go wrong while reading or writing a PCX stream.
///
/// Format errors (a malformed file), usage errors (the caller misused the
/// API) and transport errors (the stream ended too early) are distinct
/// variants, so a caller can tell "your file is bad" from "you called the
/// API wrong".
#[derive(Copy, Clone, Debug, PartialEq, Eq, Structural)]
pub enum DecodingError {
    /// The magic byte at the start of the stream is wrong.
    NotPcx,
    /// The version byte is not one of the five known versions.
    UnknownVersion(u8),
    /// The encoding byte is neither 0 (raw) nor 1 (run-length encoded).
    UnknownEncoding(u8),
    /// The bit-depth byte is not 1, 2, 4 or 8.
    InvalidBitsPerPlane(u8),
    /// The image window is empty or its width or height would overflow.
    InvalidDimensions,
    /// The (plane count, bit depth) pair is not a supported pixel format.
    UnsupportedColorFormat,
    /// The declared lane length is shorter than one scanline of one plane.
    InvalidLaneLength,
    /// Malformed data outside the header, e.g. a missing palette marker.
    InvalidData,
    /// The caller misused the API: wrong buffer size, wrong pixel format,
    /// too many rows, an oversized palette.
    InvalidInput,
    /// The stream ended in the middle of a record.
    UnexpectedEof,
}

} // verus!
