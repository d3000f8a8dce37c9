//! How many payload bytes a carrier image can hold.
//!
//! Every pixel has 4 channels and each channel donates its `mask_bitsize`
//! low-order bits, so an image of `w * h` pixels carries
//! `floor(w * h * 4 * mask_bitsize / 8)` bytes.

use vstd::prelude::*;

verus! {

/// Payload capacity in bytes of a `width * height` image at the given bit depth.
pub open spec fn capacity_of(width: int, height: int, mask_bitsize: int) -> int {
    width * height * 4 * mask_bitsize / 8
}

/// Computes the byte capacity of an image at bit depth `mask_bitsize`.
pub fn calc_image_capacity(width: u32, height: u32, mask_bitsize: u8) -> (r: usize)
    requires
        1 <= mask_bitsize <= 8,
        capacity_of(width as int, height as int, mask_bitsize as int) <= usize::MAX,
    ensures
        r == capacity_of(width as int, height as int, mask_bitsize as int),
{
    proof {
        assert((width as int) * (height as int) <= 0xffff_ffff * 0xffff_ffff && (width as int)
            * (height as int) * 4 <= 0xffff_ffff * 0xffff_ffff * 4 && (width as int)
            * (height as int) * 4 * (mask_bitsize as int) <= 0xffff_ffff * 0xffff_ffff * 4
            * 8) by (nonlinear_arith)
            requires
                width <= 0xffff_ffffu32,
                height <= 0xffff_ffffu32,
                mask_bitsize <= 8u8,
        ;
    }
    let bits: u128 = (width as u128) * (height as u128) * 4 * (mask_bitsize as u128);
    (bits / 8) as usize
}

} // verus!
