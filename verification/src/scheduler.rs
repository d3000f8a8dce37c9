//! Scheduling decisions of the encoder and decoder: how an input stream is
//! cut into per-image chunks, and how output images are named so that the
//! decoder's ascending-filename order reassembles the chunks.

use vstd::prelude::*;
use vstd::seq_lib::lemma_flatten_concat;

use crate::codec::{decodes_to, encodes, lemma_codec_round_trip, CarrierImage};
use crate::frame::{decimal_digits, lemma_digits_len, lemma_padded_lex, lemma_pow10_20, pow10,
    spec_digits, spec_padded};

verus! {

/// Law of chunked streaming: when each image of a run carries its chunk
/// and each payload was decoded from its image, the concatenated payloads
/// are exactly the concatenated chunks — the original input stream.
pub proof fn lemma_stream_round_trip(
    chunks: Seq<Seq<u8>>,
    imgs: Seq<CarrierImage>,
    payloads: Seq<Seq<u8>>,
    d: int,
)
    requires
        1 <= d <= 8,
        imgs.len() == chunks.len(),
        payloads.len() == chunks.len(),
        forall|i: int| 0 <= i < chunks.len() ==> encodes(#[trigger] imgs[i], chunks[i], d),
        forall|i: int| 0 <= i < chunks.len() ==> decodes_to(#[trigger] imgs[i], payloads[i], d),
    ensures
        payloads.flatten() == chunks.flatten(),
{
    assert forall|i: int| 0 <= i < chunks.len() implies payloads[i] == chunks[i] by {
        lemma_codec_round_trip(chunks[i], imgs[i], d, payloads[i]);
    }
    assert(payloads =~= chunks);
}

/// The views of a list of chunks.
pub open spec fn chunk_views(chunks: Seq<Vec<u8>>) -> Seq<Seq<u8>> {
    chunks.map_values(|c: Vec<u8>| c@)
}

/// Cuts the input into consecutive chunks of at most `max_chunk` bytes.
/// Every chunk is non-empty, the chunks concatenate back to the input, an
/// empty input yields no chunks at all, and an input longer than one
/// chunk's worth yields at least two.
pub fn split_chunks(input: &Vec<u8>, max_chunk: usize) -> (r: Vec<Vec<u8>>)
    requires
        max_chunk >= 1,
    ensures
        chunk_views(r@).flatten() == input@,
        forall|i: int| 0 <= i < r@.len() ==> 1 <= #[trigger] r@[i]@.len() <= max_chunk,
        (input@.len() == 0) <==> (r@.len() == 0),
        input@.len() > max_chunk ==> r@.len() >= 2,
{
    let n: usize = input.len();
    let mut r: Vec<Vec<u8>> = Vec::new();
    let mut pos: usize = 0;
    proof {
        assert(chunk_views(r@) =~= Seq::<Seq<u8>>::empty());
        assert(chunk_views(r@).flatten() =~= input@.subrange(0, 0));
    }
    while pos < n
        invariant
            pos <= n,
            n == input@.len(),
            max_chunk >= 1,
            chunk_views(r@).flatten() == input@.subrange(0, pos as int),
            forall|i: int| 0 <= i < r@.len() ==> 1 <= #[trigger] r@[i]@.len() <= max_chunk,
            (pos > 0) <==> (r@.len() > 0),
        decreases n - pos,
    {
        let take: usize = if n - pos < max_chunk {
            n - pos
        } else {
            max_chunk
        };
        let mut chunk: Vec<u8> = Vec::new();
        let mut i: usize = 0;
        proof {
            assert(chunk@ =~= input@.subrange(pos as int, pos as int));
        }
        while i < take
            invariant
                i <= take,
                pos + take <= n,
                n == input@.len(),
                chunk@ == input@.subrange(pos as int, pos + i as int),
            decreases take - i,
        {
            chunk.push(input[pos + i]);
            proof {
                assert(input@.subrange(pos as int, pos + i + 1 as int) =~= input@.subrange(
                    pos as int,
                    pos + i as int,
                ).push(input@[pos + i as int]));
            }
            i += 1;
        }
        let ghost r0 = r@;
        let ghost piece = chunk@;
        r.push(chunk);
        proof {
            assert(chunk_views(r@) =~= chunk_views(r0) + seq![piece]);
            lemma_flatten_concat(chunk_views(r0), seq![piece]);
            seq![piece].lemma_flatten_one_element();
            assert(chunk_views(r@).flatten() == chunk_views(r0).flatten() + piece);
            assert(input@.subrange(0, pos as int) + input@.subrange(pos as int, pos + take as int)
                =~= input@.subrange(0, pos + take as int));
        }
        pos += take;
    }
    proof {
        if input@.len() > max_chunk && r@.len() < 2 {
            assert(r@.len() == 1);
            chunk_views(r@).lemma_flatten_one_element();
            assert(chunk_views(r@).first() == r@[0]@);
            assert(input@.subrange(0, n as int) =~= input@);
            assert(input@.len() == r@[0]@.len());
        }
        assert(input@.subrange(0, n as int) =~= input@);
    }
    r
}

/// The file name of output image `idx` as bytes: `img_`, the index as 20
/// zero-padded decimal digits, then `.png`.
pub open spec fn spec_output_name(idx: nat) -> Seq<u8>
    recommends
        spec_digits(idx).len() <= 20,
{
    seq![105u8, 109u8, 103u8, 95u8] + spec_padded(idx, 20) + seq![46u8, 112u8, 110u8, 103u8]
}

/// `a` sorts strictly before `b` in byte-wise lexicographic order.
pub open spec fn lex_less(a: Seq<u8>, b: Seq<u8>) -> bool {
    (exists|k: int|
        0 <= k < a.len() && k < b.len() && a.subrange(0, k) == b.subrange(0, k) && a[k] < b[k]) || (
    a.len() < b.len() && a == b.subrange(0, a.len() as int))
}

/// Law of name ordering: output names sort lexicographically in index
/// order, so a decoder that walks files in ascending name order sees the
/// chunks in the order they were encoded.
pub proof fn lemma_output_names_ordered(i1: nat, i2: nat)
    requires
        i1 < i2,
        i2 < pow10(20),
    ensures
        lex_less(spec_output_name(i1), spec_output_name(i2)),
{
    lemma_padded_lex(i1, i2, 20);
    let pa = spec_padded(i1, 20);
    let pb = spec_padded(i2, 20);
    let na = spec_output_name(i1);
    let nb = spec_output_name(i2);
    let k = choose|k: int|
        0 <= k < 20 && pa.subrange(0, k) == pb.subrange(0, k) && pa[k] < pb[k];
    assert(na[k + 4] == pa[k]);
    assert(nb[k + 4] == pb[k]);
    assert forall|j: int| 0 <= j < k + 4 implies #[trigger] na.subrange(0, k + 4)[j]
        == nb.subrange(0, k + 4)[j] by {
        if j >= 4 {
            assert(pa.subrange(0, k)[j - 4] == pb.subrange(0, k)[j - 4]);
            assert(na[j] == pa[j - 4]);
            assert(nb[j] == pb[j - 4]);
        }
    }
    assert(na.subrange(0, k + 4) =~= nb.subrange(0, k + 4));
    assert(0 <= k + 4 < na.len() && k + 4 < nb.len() && na.subrange(0, k + 4) == nb.subrange(
        0,
        k + 4,
    ) && na[k + 4] < nb[k + 4]);
}

/// Formats the name of output image `idx`. The fixed-width zero-padded
/// index makes the names sort in ascending index order, which is what the
/// decoder's file ordering relies on.
pub fn format_output_name(idx: u64) -> (r: Vec<u8>)
    ensures
        r@ == spec_output_name(idx as nat),
{
    proof {
        lemma_pow10_20();
        assert(idx < pow10(20));
        lemma_digits_len(idx as nat, 20);
    }
    let digits = decimal_digits(idx);
    let mut r: Vec<u8> = Vec::new();
    r.push(105);
    r.push(109);
    r.push(103);
    r.push(95);
    let ghost prefix = seq![105u8, 109u8, 103u8, 95u8];
    proof {
        assert(r@ =~= prefix + Seq::new(0, |i: int| 48u8));
    }
    let pad: usize = 20 - digits.len();
    let mut p: usize = 0;
    while p < pad
        invariant
            p <= pad,
            r@ == prefix + Seq::new(p as nat, |i: int| 48u8),
        decreases pad - p,
    {
        r.push(48);
        proof {
            assert(r@ =~= prefix + Seq::new((p + 1) as nat, |i: int| 48u8));
        }
        p += 1;
    }
    r.extend_from_slice(digits.as_slice());
    r.push(46);
    r.push(112);
    r.push(110);
    r.push(103);
    proof {
        assert(r@ =~= spec_output_name(idx as nat));
    }
    r
}

} // verus!
