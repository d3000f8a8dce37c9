//! The per-image codec: a chunk goes into a fresh carrier image on encode,
//! and an image's full capacity comes back out and is parsed on decode.

use vstd::prelude::*;

use crate::bits::bit_of;
use crate::capacity::{calc_image_capacity, capacity_of};
use crate::error::StegoError;
use crate::frame::{build_frame, frame_declared_len, lemma_build_parse_round_trip, lemma_pow10_20,
    parse_frame, pow10, spec_frame, HEADER_SZ};
use crate::pixel::{chan_bit, embed_frame, extract_channels, lemma_bit_slot};
use crate::rng::StegoRng;

verus! {

/// A carrier image as the codec sees it: dimensions and the four channel
/// bytes of every pixel, in raster-scan order.
pub struct CarrierImage {
    pub width: u32,
    pub height: u32,
    pub channels: Vec<u8>,
}

impl CarrierImage {
    /// Well-formed: one byte per channel, four channels per pixel.
    pub open spec fn wf(self) -> bool {
        self.channels@.len() == (self.width as int) * (self.height as int) * 4
    }
}

/// Byte `i` of the buffer that extraction yields from a channel buffer.
pub open spec fn extracted_byte(channels: Seq<u8>, d: int, i: int) -> u8 {
    chan_bit(channels, 8 * i, d) | (chan_bit(channels, 8 * i + 1, d) << 1u8) | (chan_bit(
        channels,
        8 * i + 2,
        d,
    ) << 2u8) | (chan_bit(channels, 8 * i + 3, d) << 3u8) | (chan_bit(channels, 8 * i + 4, d)
        << 4u8) | (chan_bit(channels, 8 * i + 5, d) << 5u8) | (chan_bit(channels, 8 * i + 6, d)
        << 6u8) | (chan_bit(channels, 8 * i + 7, d) << 7u8)
}

/// The whole buffer that extraction yields: one byte per 8 carried bits,
/// capacity bytes in all.
pub open spec fn extracted_spec(channels: Seq<u8>, d: int) -> Seq<u8> {
    Seq::new((channels.len() * d / 8) as nat, |i: int| extracted_byte(channels, d, i))
}

/// The image carries `chunk` at bit depth `d`: it is well-formed, the
/// frame fits its capacity, and its channels carry every frame bit.
pub open spec fn encodes(img: CarrierImage, chunk: Seq<u8>, d: int) -> bool {
    &&& img.wf()
    &&& chunk.len() < pow10(20)
    &&& 20 + chunk.len() <= capacity_of(img.width as int, img.height as int, d)
    &&& forall|j: int|
        0 <= j < (20 + chunk.len()) * 8 ==> chan_bit(img.channels@, j, d) == bit_of(
            spec_frame(chunk),
            j,
        )
}

/// Decoding the image at bit depth `d` yields `payload`: the extracted
/// buffer's header declares its length and the payload follows the header.
pub open spec fn decodes_to(img: CarrierImage, payload: Seq<u8>, d: int) -> bool {
    &&& frame_declared_len(extracted_spec(img.channels@, d)) == Some(payload.len() as nat)
    &&& payload == extracted_spec(img.channels@, d).subrange(20, 20 + payload.len() as int)
}

proof fn lemma_byte_from_bits(a: u8, b0: u8, b1: u8, b2: u8, b3: u8, b4: u8, b5: u8, b6: u8, b7: u8)
    by (bit_vector)
    requires
        b0 == (a >> 0u8) & 1u8,
        b1 == (a >> 1u8) & 1u8,
        b2 == (a >> 2u8) & 1u8,
        b3 == (a >> 3u8) & 1u8,
        b4 == (a >> 4u8) & 1u8,
        b5 == (a >> 5u8) & 1u8,
        b6 == (a >> 6u8) & 1u8,
        b7 == (a >> 7u8) & 1u8,
    ensures
        a == b0 | (b1 << 1u8) | (b2 << 2u8) | (b3 << 3u8) | (b4 << 4u8) | (b5 << 5u8) | (b6
            << 6u8) | (b7 << 7u8),
{
}

/// Byte `i` of a buffer whose bits agree with the carried bits of
/// `channels` is the extracted byte `i`.
proof fn lemma_byte_bits_to_extracted(s: Seq<u8>, channels: Seq<u8>, d: int, i: int)
    requires
        1 <= d <= 8,
        0 <= i < s.len(),
        forall|j: int| 0 <= j < s.len() * 8 ==> bit_of(s, j) == chan_bit(channels, j, d),
    ensures
        s[i] == extracted_byte(channels, d, i),
{
    let a = s[i];
    lemma_bit_slot(i, 8, 8 * i);
    lemma_bit_slot(i, 8, 8 * i + 1);
    lemma_bit_slot(i, 8, 8 * i + 2);
    lemma_bit_slot(i, 8, 8 * i + 3);
    lemma_bit_slot(i, 8, 8 * i + 4);
    lemma_bit_slot(i, 8, 8 * i + 5);
    lemma_bit_slot(i, 8, 8 * i + 6);
    lemma_bit_slot(i, 8, 8 * i + 7);
    assert(bit_of(s, 8 * i) == (a >> 0u8) & 1u8);
    assert(bit_of(s, 8 * i + 1) == (a >> 1u8) & 1u8);
    assert(bit_of(s, 8 * i + 2) == (a >> 2u8) & 1u8);
    assert(bit_of(s, 8 * i + 3) == (a >> 3u8) & 1u8);
    assert(bit_of(s, 8 * i + 4) == (a >> 4u8) & 1u8);
    assert(bit_of(s, 8 * i + 5) == (a >> 5u8) & 1u8);
    assert(bit_of(s, 8 * i + 6) == (a >> 6u8) & 1u8);
    assert(bit_of(s, 8 * i + 7) == (a >> 7u8) & 1u8);
    lemma_byte_from_bits(
        a,
        chan_bit(channels, 8 * i, d),
        chan_bit(channels, 8 * i + 1, d),
        chan_bit(channels, 8 * i + 2, d),
        chan_bit(channels, 8 * i + 3, d),
        chan_bit(channels, 8 * i + 4, d),
        chan_bit(channels, 8 * i + 5, d),
        chan_bit(channels, 8 * i + 6, d),
        chan_bit(channels, 8 * i + 7, d),
    );
}

/// A buffer whose bits agree with the carried bits of `channels` is exactly
/// the extracted buffer.
proof fn lemma_extraction_determined(out: Seq<u8>, channels: Seq<u8>, d: int)
    requires
        1 <= d <= 8,
        out.len() == channels.len() * d / 8,
        forall|j: int| 0 <= j < out.len() * 8 ==> bit_of(out, j) == chan_bit(channels, j, d),
    ensures
        out == extracted_spec(channels, d),
{
    assert forall|i: int| 0 <= i < out.len() implies out[i] == extracted_byte(
        channels,
        d,
        i,
    ) by {
        lemma_byte_bits_to_extracted(out, channels, d, i);
    }
    assert(out =~= extracted_spec(channels, d));
}

/// Law of the round trip: an image whose channels carry the frame bits of
/// `chunk` extracts to a buffer whose header declares exactly `chunk`'s
/// length and whose payload is `chunk` itself.
pub proof fn lemma_encode_decode_round_trip(chunk: Seq<u8>, channels: Seq<u8>, d: int)
    requires
        1 <= d <= 8,
        chunk.len() < pow10(20),
        20 + chunk.len() <= channels.len() * d / 8,
        forall|j: int|
            0 <= j < (20 + chunk.len()) * 8 ==> chan_bit(channels, j, d) == bit_of(
                spec_frame(chunk),
                j,
            ),
    ensures
        frame_declared_len(extracted_spec(channels, d)) == Some(chunk.len()),
        extracted_spec(channels, d).subrange(20, 20 + chunk.len() as int) == chunk,
{
    lemma_build_parse_round_trip(chunk);
    let f = spec_frame(chunk);
    let raw = extracted_spec(channels, d);
    assert(f.len() == 20 + chunk.len());
    assert(raw.len() >= f.len());
    assert forall|i: int| 0 <= i < f.len() implies raw[i] == f[i] by {
        lemma_byte_bits_to_extracted(f, channels, d, i);
        assert(raw[i] == extracted_byte(channels, d, i));
    }
    assert(raw.subrange(0, 20) =~= f.subrange(0, 20));
    assert(frame_declared_len(raw) == frame_declared_len(f));
    assert(raw.subrange(20, 20 + chunk.len() as int) =~= f.subrange(20, 20 + chunk.len() as int));
}

/// How many payload bytes one image can take, after the 20-byte header.
/// This bounds the chunk read from the input stream for each image.
pub fn usable_capacity(width: u32, height: u32, mask_bitsize: u8) -> (r: Result<
    usize,
    StegoError,
>)
    requires
        (width as int) * (height as int) * 4 <= usize::MAX,
    ensures
        match r {
            Ok(u) => {
                &&& 1 <= mask_bitsize <= 8
                &&& capacity_of(width as int, height as int, mask_bitsize as int) >= 20
                &&& u == capacity_of(width as int, height as int, mask_bitsize as int) - 20
            },
            Err(e) => {
                ||| (e == StegoError::InvalidBitDepth && !(1 <= mask_bitsize <= 8))
                ||| (e == StegoError::CapacityTooSmall && 1 <= mask_bitsize <= 8 && capacity_of(
                    width as int,
                    height as int,
                    mask_bitsize as int,
                ) < 20)
            },
        },
{
    if mask_bitsize < 1 || mask_bitsize > 8 {
        return Err(StegoError::InvalidBitDepth);
    }
    proof {
        lemma_capacity_bounded(width as int, height as int, mask_bitsize as int);
    }
    let cap = calc_image_capacity(width, height, mask_bitsize);
    if cap < HEADER_SZ {
        return Err(StegoError::CapacityTooSmall);
    }
    Ok(cap - HEADER_SZ)
}

/// The capacity never exceeds the channel count.
proof fn lemma_capacity_bounded(w: int, h: int, d: int)
    requires
        w >= 0,
        h >= 0,
        1 <= d <= 8,
    ensures
        0 <= capacity_of(w, h, d) <= w * h * 4,
        capacity_of(w, h, d) * 8 <= w * h * 4 * d,
{
    let x = w * h * 4;
    assert(x >= 0 && x * d <= x * 8) by (nonlinear_arith)
        requires
            w >= 0,
            h >= 0,
            1 <= d <= 8,
            x == w * h * 4,
    ;
    vstd::arithmetic::div_mod::lemma_div_is_ordered(x * d, x * 8, 8);
    assert((x * 8) / 8 == x) by (nonlinear_arith)
        requires
            x >= 0,
    ;
    vstd::arithmetic::div_mod::lemma_fundamental_div_mod(x * d, 8);
    vstd::arithmetic::div_mod::lemma_mod_bound(x * d, 8);
    assert(x * d >= 0) by (nonlinear_arith)
        requires
            x >= 0,
            d >= 1,
    ;
    vstd::arithmetic::div_mod::lemma_div_pos_is_pos(x * d, 8);
}

/// Encodes one chunk into a fresh image of the given dimensions: builds the
/// frame and embeds its bits, every channel seeded from the pseudorandom
/// source. Fails exactly when the bit depth is invalid or the frame does
/// not fit the image's capacity.
pub fn encode_chunk(
    chunk: &Vec<u8>,
    width: u32,
    height: u32,
    mask_bitsize: u8,
    prng: &mut StegoRng,
) -> (r: Result<CarrierImage, StegoError>)
    requires
        (width as int) * (height as int) * 4 <= usize::MAX,
        (20 + chunk@.len()) * 8 <= usize::MAX,
    ensures
        match r {
            Ok(img) => {
                &&& 1 <= mask_bitsize <= 8
                &&& img.width == width
                &&& img.height == height
                &&& encodes(img, chunk@, mask_bitsize as int)
            },
            Err(e) => {
                ||| (e == StegoError::InvalidBitDepth && !(1 <= mask_bitsize <= 8))
                ||| (e == StegoError::CapacityTooSmall && 1 <= mask_bitsize <= 8 && 20
                    + chunk@.len() > capacity_of(width as int, height as int, mask_bitsize as int))
            },
        },
{
    if mask_bitsize < 1 || mask_bitsize > 8 {
        return Err(StegoError::InvalidBitDepth);
    }
    proof {
        lemma_capacity_bounded(width as int, height as int, mask_bitsize as int);
    }
    let total_capacity = calc_image_capacity(width, height, mask_bitsize);
    let frame = match build_frame(chunk, total_capacity) {
        Ok(f) => f,
        Err(e) => {
            return Err(e);
        },
    };
    proof {
        lemma_pow10_20();
        assert(frame@.len() * 8 <= total_capacity * 8);
        assert(total_capacity * 8 <= (width as int) * (height as int) * 4 * (mask_bitsize as int));
    }
    let channels = embed_frame(&frame, width, height, mask_bitsize, prng);
    Ok(CarrierImage { width, height, channels })
}

/// Decodes one image: extracts its full capacity, parses the frame header,
/// and returns the declared payload. The whole image is always extracted,
/// because the true length is unknown until the header is read. A header
/// that declares more than the image can hold fails with
/// `FrameFormatError` rather than truncating or reading out of bounds.
pub fn decode_image(img: &CarrierImage, mask_bitsize: u8) -> (r: Result<Vec<u8>, StegoError>)
    requires
        img.wf(),
        img.channels@.len() * 8 <= u64::MAX,
    ensures
        match r {
            Ok(payload) => {
                let raw = extracted_spec(img.channels@, mask_bitsize as int);
                &&& 1 <= mask_bitsize <= 8
                &&& raw.len() >= 20
                &&& 20 + payload@.len() <= raw.len()
                &&& decodes_to(*img, payload@, mask_bitsize as int)
            },
            Err(e) => {
                let raw = extracted_spec(img.channels@, mask_bitsize as int);
                ||| (e == StegoError::InvalidBitDepth && !(1 <= mask_bitsize <= 8))
                ||| (e == StegoError::CapacityTooSmall && 1 <= mask_bitsize <= 8 && raw.len() < 20)
                ||| (e == StegoError::FrameFormatError && 1 <= mask_bitsize <= 8 && raw.len() >= 20
                    && match frame_declared_len(raw) {
                    Some(v) => v > usize::MAX || 20 + v > raw.len(),
                    None => true,
                })
            },
        },
{
    if mask_bitsize < 1 || mask_bitsize > 8 {
        return Err(StegoError::InvalidBitDepth);
    }
    let raw = extract_channels(&img.channels, mask_bitsize);
    proof {
        lemma_extraction_determined(raw@, img.channels@, mask_bitsize as int);
    }
    if raw.len() < HEADER_SZ {
        return Err(StegoError::CapacityTooSmall);
    }
    match parse_frame(&raw) {
        Ok((_n, payload)) => Ok(payload),
        Err(e) => Err(e),
    }
}

/// Law of the full round trip, over the two functions' contracts: a payload
/// decoded from an image that was encoded from `chunk` is `chunk` itself.
pub proof fn lemma_codec_round_trip(chunk: Seq<u8>, img: CarrierImage, d: int, payload: Seq<u8>)
    requires
        1 <= d <= 8,
        encodes(img, chunk, d),
        decodes_to(img, payload, d),
    ensures
        payload == chunk,
{
    lemma_encode_decode_round_trip(chunk, img.channels@, d);
    assert(payload.len() == chunk.len());
}

} // verus!
