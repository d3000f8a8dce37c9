//! Least-significant-bit steganography: hides a byte stream inside the
//! pixel channels of raster images and recovers it bit-exactly.

pub mod bits;
pub mod capacity;
pub mod codec;
pub mod error;
pub mod frame;
pub mod pixel;
pub mod rng;
pub mod scheduler;
