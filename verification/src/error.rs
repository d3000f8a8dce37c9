//! Error taxonomy of the codec. Every failure is final: the caller is
//! expected to abort the run that produced it.

use vstd::prelude::*;

verus! {

/// Why an encode or decode step failed.
#[derive(Clone, Copy, Debug, PartialEq, Eq, Structural)]
pub enum StegoError {
    /// The bit depth lies outside `[1, 8]`.
    InvalidBitDepth,
    /// An image's capacity cannot hold the frame header, or the frame at hand.
    CapacityTooSmall,
    /// An output image path already exists.
    OutputPathCollision,
    /// A carrier file could not be decoded as an image.
    ImageDecodeError,
    /// The frame header is not space-padded decimal text, or declares a
    /// length that exceeds what was extracted.
    FrameFormatError,
    /// A read or write on a stream or file failed.
    IoError,
}

} // verus!
