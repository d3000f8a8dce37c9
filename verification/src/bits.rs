//! Bit-level addressing inside a byte buffer.
//!
//! A buffer of `n` bytes holds `n * 8` addressable bits. Bit `i` lives in
//! byte `i / 8`, at position `i % 8` counting from the least-significant bit.

use vstd::prelude::*;

verus! {

/// The bit at index `i` of the buffer `s`, as 0 or 1.
pub open spec fn bit_of(s: Seq<u8>, i: int) -> u8
    recommends
        0 <= i < s.len() * 8,
{
    (s[i / 8] >> ((i % 8) as u8)) & 1u8
}

/// A byte with its bit at position `pos` replaced by `bit`, the others kept.
pub open spec fn byte_with_bit(byte: u8, pos: u8, bit: u8) -> u8 {
    (byte & !(1u8 << pos)) | ((bit & 1u8) << pos)
}

pub(crate) proof fn lemma_byte_with_bit(byte: u8, pos: u8, q: u8, bit: u8)
    by (bit_vector)
    requires
        pos < 8,
        q < 8,
        bit < 2,
    ensures
        pos == q ==> (byte_with_bit(byte, pos, bit) >> q) & 1u8 == bit,
        pos != q ==> (byte_with_bit(byte, pos, bit) >> q) & 1u8 == (byte >> q) & 1u8,
        (byte >> q) & 1u8 < 2,
{
}

/// Reads the bit at index `chunk_bitindex` of the buffer.
pub fn read_bitindex_from(vec: &Vec<u8>, chunk_bitindex: u64) -> (r: u8)
    requires
        chunk_bitindex < vec@.len() * 8,
    ensures
        r == bit_of(vec@, chunk_bitindex as int),
        r < 2,
{
    let len: usize = vec.len();
    proof {
        assert((chunk_bitindex >> 3u64) == chunk_bitindex / 8 && (chunk_bitindex & 7u64)
            == chunk_bitindex % 8 && (chunk_bitindex & 7u64) < 8) by (bit_vector);
        assert(chunk_bitindex / 8 < len);
    }
    let subbyte_idx: usize = (chunk_bitindex >> 3) as usize;
    let subbit_idx: u8 = (chunk_bitindex & 7) as u8;
    let byte: u8 = vec[subbyte_idx];
    proof {
        lemma_byte_with_bit(byte, subbit_idx, subbit_idx, 0);
    }
    (byte >> subbit_idx) & 1
}

/// Writes `bit` at index `chunk_bitindex`, leaving every other bit unchanged.
pub fn write_bitindex_to(vec: &mut Vec<u8>, chunk_bitindex: u64, bit: u8)
    requires
        bit < 2,
        chunk_bitindex < old(vec)@.len() * 8,
    ensures
        final(vec)@.len() == old(vec)@.len(),
        bit_of(final(vec)@, chunk_bitindex as int) == bit,
        forall|j: int|
            0 <= j < old(vec)@.len() * 8 && j != chunk_bitindex ==> bit_of(final(vec)@, j)
                == bit_of(old(vec)@, j),
{
    let len: usize = vec.len();
    proof {
        assert((chunk_bitindex >> 3u64) == chunk_bitindex / 8 && (chunk_bitindex & 7u64)
            == chunk_bitindex % 8 && (chunk_bitindex & 7u64) < 8) by (bit_vector);
        assert(chunk_bitindex / 8 < len);
    }
    let subbyte_idx: usize = (chunk_bitindex >> 3) as usize;
    let subbit_idx: u8 = (chunk_bitindex & 7) as u8;
    let old_byte: u8 = vec[subbyte_idx];
    let new_byte: u8 = (old_byte & !(1u8 << subbit_idx)) | ((bit & 1) << subbit_idx);
    vec[subbyte_idx] = new_byte;
    proof {
        let i = chunk_bitindex as int;
        assert(subbyte_idx as int == i / 8);
        assert(subbit_idx == (i % 8) as u8);
        assert(new_byte == byte_with_bit(old_byte, subbit_idx, bit));
        assert(vec@ == old(vec)@.update(i / 8, new_byte));
        lemma_byte_with_bit(old_byte, subbit_idx, subbit_idx, bit);
        assert(bit_of(vec@, i) == bit);
        assert forall|j: int|
            0 <= j < old(vec)@.len() * 8 && j != i implies bit_of(vec@, j) == bit_of(
            old(vec)@,
            j,
        ) by {
            if j / 8 == i / 8 {
                lemma_byte_with_bit(old_byte, subbit_idx, (j % 8) as u8, bit);
            }
        }
    }
}

/// Law of bit addressing: after writing bit `b` at index `i`, reading index
/// `i` yields `b`, and every other bit of the buffer reads as before.
pub proof fn lemma_set_then_get(s: Seq<u8>, i: int, b: u8)
    requires
        0 <= i < s.len() * 8,
        b < 2,
    ensures
        bit_of(s.update(i / 8, byte_with_bit(s[i / 8], (i % 8) as u8, b)), i) == b,
        forall|j: int|
            0 <= j < s.len() * 8 && j != i ==> bit_of(
                s.update(i / 8, byte_with_bit(s[i / 8], (i % 8) as u8, b)),
                j,
            ) == bit_of(s, j),
{
    let t = s.update(i / 8, byte_with_bit(s[i / 8], (i % 8) as u8, b));
    lemma_byte_with_bit(s[i / 8], (i % 8) as u8, (i % 8) as u8, b);
    assert forall|j: int| 0 <= j < s.len() * 8 && j != i implies bit_of(t, j) == bit_of(
        s,
        j,
    ) by {
        if j / 8 == i / 8 {
            lemma_byte_with_bit(s[i / 8], (i % 8) as u8, (j % 8) as u8, b);
        }
    }
}

} // verus!
