//! Embedding a frame's bits into pixel channels, and extracting them back.
//!
//! An image is modelled as its channel bytes in raster-scan order, four
//! channels per pixel. At bit depth `d`, channel `c` carries the frame
//! bits `c*d .. c*d + d` in its low-order bits; every channel byte starts
//! from a pseudorandom base value, so channels past the end of the frame
//! keep pure filler in their low bits.

use vstd::prelude::*;

use crate::bits::{bit_of, byte_with_bit, lemma_byte_with_bit, read_bitindex_from,
    write_bitindex_to};
use crate::rng::StegoRng;

verus! {

/// The `j`-th payload bit carried by a channel buffer at bit depth `d`:
/// bit `j % d` of channel byte `j / d`.
pub open spec fn chan_bit(channels: Seq<u8>, j: int, d: int) -> u8
    recommends
        1 <= d <= 8,
        0 <= j,
        j / d < channels.len(),
{
    (channels[j / d] >> ((j % d) as u8)) & 1u8
}

pub(crate) proof fn lemma_bit_slot(c: int, d: int, j: int)
    requires
        1 <= d,
        0 <= c,
        c * d <= j < c * d + d,
    ensures
        j / d == c,
        j % d == j - c * d,
{
    vstd::arithmetic::div_mod::lemma_fundamental_div_mod_converse(j, d, c, j - c * d);
}

pub(crate) proof fn lemma_div_below(j: int, c: int, d: int)
    requires
        0 <= j,
        1 <= d,
        j < c * d,
    ensures
        0 <= j / d < c,
{
    vstd::arithmetic::div_mod::lemma_fundamental_div_mod(j, d);
    vstd::arithmetic::div_mod::lemma_mod_bound(j, d);
    let q = j / d;
    let r = j % d;
    assert(q < c) by (nonlinear_arith)
        requires
            d * q + r < c * d,
            0 <= r,
            1 <= d,
            0 <= j,
            j == d * q + r,
    ;
    assert(q >= 0) by (nonlinear_arith)
        requires
            d * q + r == j,
            0 <= j,
            0 <= r < d,
            1 <= d,
    ;
}

/// Embeds the frame's bits into a fresh channel buffer for a
/// `width * height` image. Every channel byte starts from a pseudorandom
/// base value; where frame bits remain, they overwrite the low bits.
pub fn embed_frame(
    frame: &Vec<u8>,
    width: u32,
    height: u32,
    mask_bitsize: u8,
    prng: &mut StegoRng,
) -> (out: Vec<u8>)
    requires
        1 <= mask_bitsize <= 8,
        (width as int) * (height as int) * 4 <= usize::MAX,
        frame@.len() * 8 <= (width as int) * (height as int) * 4 * (mask_bitsize as int),
        frame@.len() * 8 <= usize::MAX,
    ensures
        out@.len() == (width as int) * (height as int) * 4,
        forall|j: int|
            0 <= j < frame@.len() * 8 ==> chan_bit(out@, j, mask_bitsize as int) == bit_of(
                frame@,
                j,
            ),
{
    let d: u8 = mask_bitsize;
    let num_channels: usize = (width as usize) * (height as usize) * 4;
    let total_bits: u64 = (frame.len() * 8) as u64;
    proof {
        assert(num_channels * (d as int) >= frame@.len() * 8);
    }
    let mut out: Vec<u8> = Vec::new();
    let mut cursor: u64 = 0;
    let mut c: usize = 0;
    while c < num_channels
        invariant
            1 <= d <= 8,
            c <= num_channels,
            out@.len() == c,
            total_bits == frame@.len() * 8,
            frame@.len() * 8 <= usize::MAX,
            total_bits <= num_channels * (d as int),
            cursor <= total_bits,
            c * (d as int) <= total_bits ==> cursor == c * (d as int),
            c * (d as int) > total_bits ==> cursor == total_bits,
            forall|j: int|
                0 <= j < cursor ==> chan_bit(out@, j, d as int) == bit_of(frame@, j),
        decreases num_channels - c,
    {
        let mut data: u8 = prng.next_byte();
        let remaining: u64 = total_bits - cursor;
        let k: u8 = if (d as u64) <= remaining {
            d
        } else {
            remaining as u8
        };
        let ghost cursor0 = cursor as int;
        proof {
            assert(k > 0 ==> cursor0 == c * (d as int));
        }
        let mut b: u8 = 0;
        while b < k
            invariant
                b <= k,
                k <= d <= 8,
                cursor == cursor0 + b,
                cursor0 + k <= total_bits,
                total_bits == frame@.len() * 8,
                frame@.len() * 8 <= usize::MAX,
                forall|q: u8| q < b ==> (data >> q) & 1u8 == bit_of(frame@, cursor0 + q),
            decreases k - b,
        {
            let ghost data0 = data;
            let bit = read_bitindex_from(frame, cursor);
            data = (data & !(1u8 << b)) | ((bit & 1u8) << b);
            proof {
                assert(data == byte_with_bit(data0, b, bit));
                lemma_byte_with_bit(data0, b, b, bit);
                assert forall|q: u8| q < b + 1 implies (data >> q) & 1u8 == bit_of(
                    frame@,
                    cursor0 + q,
                ) by {
                    if q < b {
                        lemma_byte_with_bit(data0, b, q, bit);
                    }
                }
            }
            cursor = cursor + 1;
            b = b + 1;
        }
        let ghost out0 = out@;
        out.push(data);
        proof {
            let di = d as int;
            let ci = c as int;
            assert((ci + 1) * di == ci * di + di) by (nonlinear_arith);
            if k > 0 {
                assert(cursor0 == ci * di);
            } else {
                assert(cursor0 == total_bits);
            }
            assert forall|j: int| 0 <= j < cursor implies chan_bit(out@, j, di) == bit_of(
                frame@,
                j,
            ) by {
                if j < cursor0 {
                    lemma_div_below(j, ci, di);
                    assert(out@[j / di] == out0[j / di]);
                } else {
                    lemma_bit_slot(ci, di, j);
                    assert(out@[j / di] == data);
                    assert((data >> ((j - cursor0) as u8)) & 1u8 == bit_of(frame@, j));
                }
            }
        }
        c = c + 1;
    }
    out
}

/// Extracts every carried bit of a channel buffer into a fresh byte buffer
/// of exactly the image's capacity. The whole image is always consumed:
/// the true payload length is not known until the header is parsed.
pub fn extract_channels(channels: &Vec<u8>, mask_bitsize: u8) -> (out: Vec<u8>)
    requires
        1 <= mask_bitsize <= 8,
        channels@.len() * 8 <= u64::MAX,
    ensures
        out@.len() == channels@.len() * (mask_bitsize as int) / 8,
        forall|j: int|
            0 <= j < out@.len() * 8 ==> bit_of(out@, j) == chan_bit(
                channels@,
                j,
                mask_bitsize as int,
            ),
{
    let d: u8 = mask_bitsize;
    let num_channels: usize = channels.len();
    proof {
        assert(num_channels * (d as int) <= num_channels * 8) by (nonlinear_arith)
            requires
                d <= 8,
                num_channels >= 0,
        ;
    }
    let cap_u64: u64 = (num_channels as u64) * (d as u64) / 8;
    proof {
        vstd::arithmetic::div_mod::lemma_fundamental_div_mod(num_channels * (d as int), 8);
        vstd::arithmetic::div_mod::lemma_mod_bound(num_channels * (d as int), 8);
        assert(cap_u64 * 8 <= num_channels * (d as int));
        assert(cap_u64 <= num_channels);
    }
    let cap: usize = cap_u64 as usize;
    let mut out: Vec<u8> = Vec::new();
    while out.len() < cap
        invariant
            out@.len() <= cap,
        decreases cap - out@.len(),
    {
        out.push(0);
    }
    let total_bits: u64 = cap_u64 * 8;
    let mut cursor: u64 = 0;
    let mut c: usize = 0;
    while c < num_channels
        invariant
            1 <= d <= 8,
            c <= num_channels,
            num_channels == channels@.len(),
            out@.len() == cap,
            total_bits == cap * 8,
            total_bits <= num_channels * (d as int),
            cursor <= total_bits,
            c * (d as int) <= total_bits ==> cursor == c * (d as int),
            c * (d as int) > total_bits ==> cursor == total_bits,
            forall|j: int|
                0 <= j < cursor ==> bit_of(out@, j) == chan_bit(channels@, j, d as int),
        decreases num_channels - c,
    {
        let byte: u8 = channels[c];
        let remaining: u64 = total_bits - cursor;
        let k: u8 = if (d as u64) <= remaining {
            d
        } else {
            remaining as u8
        };
        let ghost cursor0 = cursor as int;
        proof {
            assert(k > 0 ==> cursor0 == c * (d as int));
        }
        let mut b: u8 = 0;
        while b < k
            invariant
                b <= k,
                k <= d <= 8,
                1 <= d,
                cursor == cursor0 + b,
                k > 0 ==> cursor0 == c * (d as int),
                0 <= c < channels@.len(),
                byte == channels@[c as int],
                cursor0 + k <= total_bits,
                total_bits == cap * 8,
                out@.len() == cap,
                forall|j: int|
                    0 <= j < cursor ==> bit_of(out@, j) == chan_bit(channels@, j, d as int),
            decreases k - b,
        {
            let bitval: u8 = (byte >> b) & 1;
            proof {
                lemma_byte_with_bit(byte, b, b, 0);
                assert(bitval < 2);
                assert(cursor < out@.len() * 8);
            }
            write_bitindex_to(&mut out, cursor, bitval);
            proof {
                lemma_bit_slot(c as int, d as int, cursor0 + b);
                assert(chan_bit(channels@, cursor as int, d as int) == bitval);
            }
            cursor = cursor + 1;
            b = b + 1;
        }
        proof {
            let di = d as int;
            let ci = c as int;
            assert((ci + 1) * di == ci * di + di) by (nonlinear_arith);
        }
        c = c + 1;
    }
    proof {
        assert(cursor == total_bits);
    }
    out
}

} // verus!
