use lsbsteg::bits::{read_bitindex_from, write_bitindex_to};
use lsbsteg::capacity::calc_image_capacity;
use lsbsteg::codec::{decode_image, encode_chunk, usable_capacity, CarrierImage};
use lsbsteg::error::StegoError;
use lsbsteg::frame::{build_frame, parse_frame};
use lsbsteg::rng::StegoRng;
use lsbsteg::scheduler::{format_output_name, split_chunks};

#[test]
fn capacity_formula_example() {
    // floor(100 * 100 * 4 * 3 / 8) = 15000 bytes.
    assert_eq!(calc_image_capacity(100, 100, 3), 15000);
    // Usable payload per image leaves room for the 20-byte header.
    assert_eq!(usable_capacity(100, 100, 3), Ok(14980));
}

#[test]
fn capacity_rounds_down() {
    // 3 * 1 * 4 * 3 = 36 bits -> floor(36 / 8) = 4 bytes.
    assert_eq!(calc_image_capacity(3, 1, 3), 4);
    assert_eq!(calc_image_capacity(1, 1, 1), 0);
    assert_eq!(calc_image_capacity(1, 1, 8), 4);
}

#[test]
fn header_for_five_byte_chunk() {
    let chunk: Vec<u8> = vec![10, 20, 30, 40, 50];
    let frame = build_frame(&chunk, 100).unwrap();
    assert_eq!(frame.len(), 25);
    assert_eq!(frame[0], b'5');
    for i in 1..20 {
        assert_eq!(frame[i], b' ');
    }
    assert_eq!(&frame[20..], &chunk[..]);
}

#[test]
fn build_frame_rejects_overfull_chunk() {
    let chunk: Vec<u8> = vec![0; 10];
    // 20 + 10 > 29: one byte short.
    assert_eq!(build_frame(&chunk, 29), Err(StegoError::CapacityTooSmall));
    assert!(build_frame(&chunk, 30).is_ok());
}

#[test]
fn bit_set_then_get() {
    let mut buf: Vec<u8> = vec![0; 4];
    write_bitindex_to(&mut buf, 13, 1);
    assert_eq!(read_bitindex_from(&buf, 13), 1);
    // Every other bit is untouched.
    for i in 0..32 {
        if i != 13 {
            assert_eq!(read_bitindex_from(&buf, i), 0, "bit {} changed", i);
        }
    }
    write_bitindex_to(&mut buf, 13, 0);
    assert_eq!(read_bitindex_from(&buf, 13), 0);
    assert_eq!(buf, vec![0; 4]);
}

#[test]
fn bit_read_known_pattern() {
    let buf: Vec<u8> = vec![0b1010_0110];
    let expected = [0, 1, 1, 0, 0, 1, 0, 1];
    for (i, want) in expected.iter().enumerate() {
        assert_eq!(read_bitindex_from(&buf, i as u64), *want);
    }
}

#[test]
fn frame_parse_round_trip() {
    let chunk: Vec<u8> = b"the payload".to_vec();
    let frame = build_frame(&chunk, 1000).unwrap();
    let (declared, payload) = parse_frame(&frame).unwrap();
    assert_eq!(declared, chunk.len());
    assert_eq!(payload, chunk);
}

#[test]
fn parse_rejects_non_digit_header() {
    let mut raw: Vec<u8> = b"notanumber".to_vec();
    raw.resize(40, b' ');
    assert_eq!(parse_frame(&raw), Err(StegoError::FrameFormatError));
}

#[test]
fn parse_rejects_blank_header() {
    let raw: Vec<u8> = vec![b' '; 40];
    assert_eq!(parse_frame(&raw), Err(StegoError::FrameFormatError));
}

#[test]
fn parse_rejects_overlong_declared_length() {
    // Header declares 100 bytes but only 20 follow.
    let mut raw: Vec<u8> = b"100".to_vec();
    raw.resize(20, b' ');
    raw.resize(40, 0);
    assert_eq!(parse_frame(&raw), Err(StegoError::FrameFormatError));
}

#[test]
fn parse_accepts_exactly_fitting_length() {
    let mut raw: Vec<u8> = b"20".to_vec();
    raw.resize(20, b' ');
    raw.extend_from_slice(&[7u8; 20]);
    let (declared, payload) = parse_frame(&raw).unwrap();
    assert_eq!(declared, 20);
    assert_eq!(payload, vec![7u8; 20]);
}

#[test]
fn encode_decode_round_trip() {
    let chunk: Vec<u8> = b"hello, hidden world".to_vec();
    let mut prng = StegoRng::from_seed(7);
    // 10 * 10 * 4 * 3 / 8 = 150 bytes of capacity.
    let img = encode_chunk(&chunk, 10, 10, 3, &mut prng).unwrap();
    assert_eq!(img.width, 10);
    assert_eq!(img.height, 10);
    assert_eq!(img.channels.len(), 400);
    let payload = decode_image(&img, 3).unwrap();
    assert_eq!(payload, chunk);
}

#[test]
fn encode_decode_round_trip_every_bit_depth() {
    for d in 1..=8u8 {
        let chunk: Vec<u8> = (0..=255u8).collect();
        let mut prng = StegoRng::from_seed(d as u64);
        // 24 * 24 * 4 * 1 / 8 = 288 >= 20 + 256 even at depth 1.
        let img = encode_chunk(&chunk, 24, 24, d, &mut prng).unwrap();
        let payload = decode_image(&img, d).unwrap();
        assert_eq!(payload, chunk, "bit depth {}", d);
    }
}

#[test]
fn encode_rejects_invalid_bit_depth() {
    let chunk: Vec<u8> = vec![1];
    let mut prng = StegoRng::from_seed(0);
    assert!(matches!(
        encode_chunk(&chunk, 10, 10, 0, &mut prng),
        Err(StegoError::InvalidBitDepth)
    ));
    assert!(matches!(
        encode_chunk(&chunk, 10, 10, 9, &mut prng),
        Err(StegoError::InvalidBitDepth)
    ));
    assert_eq!(usable_capacity(10, 10, 0), Err(StegoError::InvalidBitDepth));
}

#[test]
fn encode_rejects_too_small_image() {
    // 1 * 1 * 4 * 3 / 8 = 1 byte of capacity: not even the header fits.
    let chunk: Vec<u8> = vec![1];
    let mut prng = StegoRng::from_seed(0);
    assert!(matches!(
        encode_chunk(&chunk, 1, 1, 3, &mut prng),
        Err(StegoError::CapacityTooSmall)
    ));
    assert_eq!(usable_capacity(1, 1, 3), Err(StegoError::CapacityTooSmall));
}

#[test]
fn decode_rejects_header_exceeding_capacity() {
    // At bit depth 8 the extracted buffer equals the channel bytes, so this
    // image's header declares 5 payload bytes while it can hold none.
    let mut channels: Vec<u8> = b"5".to_vec();
    channels.resize(20, b' ');
    let img = CarrierImage {
        width: 5,
        height: 1,
        channels,
    };
    assert_eq!(decode_image(&img, 8), Err(StegoError::FrameFormatError));
}

#[test]
fn decode_rejects_garbage_image() {
    let img = CarrierImage {
        width: 5,
        height: 1,
        channels: vec![0xAB; 20],
    };
    assert_eq!(decode_image(&img, 8), Err(StegoError::FrameFormatError));
}

#[test]
fn split_empty_input_yields_no_chunks() {
    let input: Vec<u8> = Vec::new();
    let chunks = split_chunks(&input, 10);
    assert_eq!(chunks.len(), 0);
}

#[test]
fn split_long_input_yields_multiple_chunks() {
    let input: Vec<u8> = (0..100u8).collect();
    let chunks = split_chunks(&input, 40);
    assert_eq!(chunks.len(), 3);
    assert_eq!(chunks[0].len(), 40);
    assert_eq!(chunks[1].len(), 40);
    assert_eq!(chunks[2].len(), 20);
    let mut joined: Vec<u8> = Vec::new();
    for c in &chunks {
        joined.extend_from_slice(c);
    }
    assert_eq!(joined, input);
}

#[test]
fn multi_image_round_trip_in_name_order() {
    // 5 * 5 * 4 * 3 / 8 = 37 bytes capacity, 17 usable per image.
    let input: Vec<u8> = (0..50u8).map(|b| b.wrapping_mul(37)).collect();
    let per_image = usable_capacity(5, 5, 3).unwrap();
    assert_eq!(per_image, 17);
    let chunks = split_chunks(&input, per_image);
    assert_eq!(chunks.len(), 3);

    let mut prng = StegoRng::from_seed(99);
    let mut named: Vec<(Vec<u8>, CarrierImage)> = Vec::new();
    for (idx, chunk) in chunks.iter().enumerate() {
        let img = encode_chunk(chunk, 5, 5, 3, &mut prng).unwrap();
        named.push((format_output_name(idx as u64), img));
    }
    // Decoding processes images in ascending file-name order.
    named.sort_by(|a, b| a.0.cmp(&b.0));
    let mut recovered: Vec<u8> = Vec::new();
    for (_, img) in &named {
        recovered.extend_from_slice(&decode_image(img, 3).unwrap());
    }
    assert_eq!(recovered, input);
}

#[test]
fn output_names_are_zero_padded_and_ordered() {
    assert_eq!(format_output_name(0), b"img_00000000000000000000.png".to_vec());
    assert_eq!(format_output_name(5), b"img_00000000000000000005.png".to_vec());
    assert_eq!(
        format_output_name(12345678901234567890),
        b"img_12345678901234567890.png".to_vec()
    );
    // Zero padding keeps lexicographic order equal to numeric order.
    assert!(format_output_name(2) < format_output_name(10));
    assert!(format_output_name(99) < format_output_name(100));
}

#[test]
fn shuffle_keeps_the_same_paths() {
    let original: Vec<String> = (0..10).map(|i| format!("carrier-{}.png", i)).collect();
    let mut shuffled = original.clone();
    let mut prng = StegoRng::from_seed(1);
    prng.shuffle_paths(&mut shuffled);
    assert_eq!(shuffled.len(), original.len());
    let mut a = shuffled.clone();
    let mut b = original.clone();
    a.sort();
    b.sort();
    assert_eq!(a, b);
}

#[test]
fn seeded_rng_is_reproducible() {
    let mut r1 = StegoRng::from_seed(1234);
    let mut r2 = StegoRng::from_seed(1234);
    for _ in 0..64 {
        assert_eq!(r1.next_byte(), r2.next_byte());
    }
}

#[test]
fn filler_differs_between_images() {
    // Unused capacity is pseudorandom filler, not a deterministic zero run:
    // the same chunk embedded twice gives different channel bytes.
    let chunk: Vec<u8> = vec![42];
    let mut prng = StegoRng::from_seed(5);
    let img1 = encode_chunk(&chunk, 10, 10, 3, &mut prng).unwrap();
    let img2 = encode_chunk(&chunk, 10, 10, 3, &mut prng).unwrap();
    assert_ne!(img1.channels, img2.channels);
    // Both still decode to the same payload.
    assert_eq!(decode_image(&img1, 3).unwrap(), chunk);
    assert_eq!(decode_image(&img2, 3).unwrap(), chunk);
}
