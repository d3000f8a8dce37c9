//! The length-prefixed frame that gets embedded into one carrier image.
//!
//! A frame is a 20-byte header followed by the payload chunk. The header
//! holds the chunk's byte length as left-justified ASCII decimal digits,
//! right-padded with spaces. Parsing trims surrounding ASCII whitespace
//! from the header and reads the digits back.

use vstd::prelude::*;

use crate::error::StegoError;

verus! {

/// Width of the frame header in bytes.
pub const HEADER_SZ: usize = 20;

/// The ASCII decimal digits of `n`, most significant first.
pub open spec fn spec_digits(n: nat) -> Seq<u8>
    decreases n,
{
    if n < 10 {
        seq![(48 + n) as u8]
    } else {
        spec_digits(n / 10).push((48 + n % 10) as u8)
    }
}

/// `10^k`.
pub open spec fn pow10(k: nat) -> nat
    decreases k,
{
    if k == 0 {
        1
    } else {
        10 * pow10((k - 1) as nat)
    }
}

/// The header for a chunk of `n` bytes: its digits, space-padded to 20 bytes.
pub open spec fn spec_header(n: nat) -> Seq<u8>
    recommends
        spec_digits(n).len() <= 20,
{
    spec_digits(n) + Seq::new((20 - spec_digits(n).len()) as nat, |i: int| 32u8)
}

/// The whole frame for a payload chunk: header, then the chunk itself.
pub open spec fn spec_frame(chunk: Seq<u8>) -> Seq<u8> {
    spec_header(chunk.len()) + chunk
}

/// ASCII whitespace, as trimmed from the header.
pub open spec fn is_ascii_space(b: u8) -> bool {
    b == 32 || b == 9 || b == 10 || b == 11 || b == 12 || b == 13
}

/// Every byte of `s` is an ASCII decimal digit.
pub open spec fn all_digits(s: Seq<u8>) -> bool {
    forall|i: int| 0 <= i < s.len() ==> 48 <= #[trigger] s[i] <= 57
}

/// The number denoted by a sequence of ASCII digits, most significant first.
pub open spec fn digits_value(s: Seq<u8>) -> nat
    recommends
        all_digits(s),
    decreases s.len(),
{
    if s.len() == 0 {
        0
    } else {
        digits_value(s.drop_last()) * 10 + (s.last() - 48) as nat
    }
}

/// `s` with its leading ASCII whitespace removed.
pub open spec fn trim_front(s: Seq<u8>) -> Seq<u8>
    decreases s.len(),
{
    if s.len() > 0 && is_ascii_space(s[0]) {
        trim_front(s.drop_first())
    } else {
        s
    }
}

/// `s` with its trailing ASCII whitespace removed.
pub open spec fn trim_back(s: Seq<u8>) -> Seq<u8>
    decreases s.len(),
{
    if s.len() > 0 && is_ascii_space(s.last()) {
        trim_back(s.drop_last())
    } else {
        s
    }
}

/// `s` with surrounding ASCII whitespace removed.
pub open spec fn spec_trim(s: Seq<u8>) -> Seq<u8> {
    trim_back(trim_front(s))
}

/// What a 20-byte header denotes: the value of its trimmed digits, or
/// nothing when the trimmed text is empty or holds a non-digit.
pub open spec fn parse_header_spec(h: Seq<u8>) -> Option<nat> {
    let t = spec_trim(h);
    if t.len() > 0 && all_digits(t) {
        Some(digits_value(t))
    } else {
        None
    }
}

/// The payload length declared by the header of a raw extraction buffer.
pub open spec fn frame_declared_len(raw: Seq<u8>) -> Option<nat> {
    parse_header_spec(raw.subrange(0, 20))
}

pub(crate) proof fn lemma_pow10_20()
    ensures
        pow10(20) == 100_000_000_000_000_000_000,
{
    reveal_with_fuel(pow10, 21);
}

pub(crate) proof fn lemma_digits_len(n: nat, k: nat)
    requires
        k >= 1,
        n < pow10(k),
    ensures
        spec_digits(n).len() <= k,
    decreases n,
{
    if n < 10 {
    } else {
        if k == 1 {
            assert(pow10(0) == 1);
            assert(pow10(1) == 10);
            assert(false);
        }
        assert(n == 10 * (n / 10) + n % 10) by (nonlinear_arith);
        assert(pow10(k) == 10 * pow10((k - 1) as nat));
        assert(n / 10 < pow10((k - 1) as nat));
        lemma_digits_len(n / 10, (k - 1) as nat);
    }
}

proof fn lemma_digits_facts(n: nat)
    ensures
        spec_digits(n).len() >= 1,
        all_digits(spec_digits(n)),
    decreases n,
{
    if n < 10 {
    } else {
        lemma_digits_facts(n / 10);
        assert(n % 10 < 10) by (nonlinear_arith);
    }
}

proof fn lemma_digits_value_inverse(n: nat)
    ensures
        digits_value(spec_digits(n)) == n,
    decreases n,
{
    let s = spec_digits(n);
    if n < 10 {
        assert(s == seq![(48 + n) as u8]);
        assert(s.drop_last() =~= Seq::<u8>::empty());
        assert(s.last() == (48 + n) as u8);
        assert((48 + n) as u8 == 48 + n);
        assert(digits_value(s) == digits_value(s.drop_last()) * 10 + (s.last() - 48) as nat);
    } else {
        lemma_digits_value_inverse(n / 10);
        assert(n % 10 < 10) by (nonlinear_arith);
        let d = (48 + n % 10) as u8;
        assert(d == 48 + n % 10);
        assert(s == spec_digits(n / 10).push(d));
        assert(s.drop_last() =~= spec_digits(n / 10));
        assert(s.last() == d);
        assert(s.len() > 0);
        assert(digits_value(s) == digits_value(s.drop_last()) * 10 + (s.last() - 48) as nat);
        assert(n == (n / 10) * 10 + n % 10) by (nonlinear_arith);
    }
}

proof fn lemma_digits_value_bound(s: Seq<u8>)
    requires
        all_digits(s),
    ensures
        digits_value(s) < pow10(s.len()),
    decreases s.len(),
{
    if s.len() == 0 {
        assert(pow10(0) == 1);
    } else {
        assert(all_digits(s.drop_last()));
        lemma_digits_value_bound(s.drop_last());
        assert(48 <= s.last() <= 57);
        assert(pow10(s.len()) == 10 * pow10((s.len() - 1) as nat));
    }
}

proof fn lemma_digits_value_concat(a: Seq<u8>, b: Seq<u8>)
    ensures
        digits_value(a + b) == digits_value(a) * pow10(b.len()) + digits_value(b),
    decreases b.len(),
{
    if b.len() == 0 {
        assert(a + b =~= a);
        assert(pow10(0) == 1);
    } else {
        let b1 = b.drop_last();
        lemma_digits_value_concat(a, b1);
        assert((a + b).drop_last() =~= a + b1);
        assert((a + b).last() == b.last());
        assert(digits_value(a + b) == digits_value(a + b1) * 10 + (b.last() - 48) as nat);
        assert(digits_value(a) * pow10(b1.len()) * 10 == digits_value(a) * (pow10(b1.len())
            * 10)) by (nonlinear_arith);
        assert(pow10(b.len()) == 10 * pow10((b.len() - 1) as nat));
    }
}

/// `k` ASCII zero digits.
pub open spec fn spec_zeros(k: nat) -> Seq<u8> {
    Seq::new(k, |i: int| 48u8)
}

proof fn lemma_zeros_value(k: nat)
    ensures
        spec_zeros(k).len() == k,
        all_digits(spec_zeros(k)),
        digits_value(spec_zeros(k)) == 0,
    decreases k,
{
    if k > 0 {
        lemma_zeros_value((k - 1) as nat);
        assert(spec_zeros(k).drop_last() =~= spec_zeros((k - 1) as nat));
        assert(spec_zeros(k).last() == 48);
    }
}

proof fn lemma_digits_lex(a: Seq<u8>, b: Seq<u8>)
    requires
        a.len() == b.len(),
        all_digits(a),
        all_digits(b),
        digits_value(a) < digits_value(b),
    ensures
        exists|k: int|
            0 <= k < a.len() && a.subrange(0, k) == b.subrange(0, k) && a[k] < b[k],
    decreases a.len(),
{
    assert(a.len() > 0);
    let ta = a.drop_first();
    let tb = b.drop_first();
    assert(a =~= seq![a[0]] + ta);
    assert(b =~= seq![b[0]] + tb);
    assert(digits_value(seq![a[0]]) == (a[0] - 48) as nat) by {
        assert(seq![a[0]].drop_last() =~= Seq::<u8>::empty());
        assert(digits_value(Seq::<u8>::empty()) == 0);
        assert(seq![a[0]].last() == a[0]);
    }
    assert(digits_value(seq![b[0]]) == (b[0] - 48) as nat) by {
        assert(seq![b[0]].drop_last() =~= Seq::<u8>::empty());
        assert(digits_value(Seq::<u8>::empty()) == 0);
        assert(seq![b[0]].last() == b[0]);
    }
    lemma_digits_value_concat(seq![a[0]], ta);
    lemma_digits_value_concat(seq![b[0]], tb);
    assert(all_digits(ta));
    assert(all_digits(tb));
    lemma_digits_value_bound(ta);
    lemma_digits_value_bound(tb);
    let p = pow10(ta.len());
    if a[0] < b[0] {
        assert(a.subrange(0, 0) =~= b.subrange(0, 0));
        assert(a.subrange(0, 0) == b.subrange(0, 0) && a[0] < b[0]);
    } else if a[0] == b[0] {
        assert(digits_value(ta) < digits_value(tb));
        lemma_digits_lex(ta, tb);
        let k = choose|k: int|
            0 <= k < ta.len() && ta.subrange(0, k) == tb.subrange(0, k) && ta[k] < tb[k];
        assert forall|j: int| 0 <= j < k + 1 implies #[trigger] a.subrange(0, k + 1)[j]
            == b.subrange(0, k + 1)[j] by {
            if j > 0 {
                assert(ta.subrange(0, k)[j - 1] == tb.subrange(0, k)[j - 1]);
                assert(ta[j - 1] == a[j]);
                assert(tb[j - 1] == b[j]);
            }
        }
        assert(a.subrange(0, k + 1) =~= b.subrange(0, k + 1));
        assert(a[k + 1] == ta[k] && b[k + 1] == tb[k]);
        assert(a.subrange(0, k + 1) == b.subrange(0, k + 1) && a[k + 1] < b[k + 1]);
    } else {
        assert(((a[0] - 48) as nat) * p >= ((b[0] - 48) as nat) * p + p) by (nonlinear_arith)
            requires
                a[0] >= b[0] + 1,
                a[0] >= 48,
                b[0] >= 48,
                p >= 0,
        ;
        assert(false);
    }
}

/// The value `n` as exactly `width` digits, zero-padded at the front.
pub open spec fn spec_padded(n: nat, width: nat) -> Seq<u8>
    recommends
        spec_digits(n).len() <= width,
{
    spec_zeros((width - spec_digits(n).len()) as nat) + spec_digits(n)
}

/// Law of padded ordering: equal-width zero-padded decimals compare
/// lexicographically exactly as the numbers they denote.
pub proof fn lemma_padded_lex(n1: nat, n2: nat, width: nat)
    requires
        n1 < n2,
        n2 < pow10(width),
        width >= 1,
    ensures
        spec_padded(n1, width).len() == width,
        spec_padded(n2, width).len() == width,
        exists|k: int|
            0 <= k < width && spec_padded(n1, width).subrange(0, k) == spec_padded(
                n2,
                width,
            ).subrange(0, k) && spec_padded(n1, width)[k] < spec_padded(n2, width)[k],
{
    lemma_digits_len(n1, width);
    lemma_digits_len(n2, width);
    lemma_digits_facts(n1);
    lemma_digits_facts(n2);
    lemma_digits_value_inverse(n1);
    lemma_digits_value_inverse(n2);
    let pa = spec_padded(n1, width);
    let pb = spec_padded(n2, width);
    lemma_zeros_value((width - spec_digits(n1).len()) as nat);
    lemma_zeros_value((width - spec_digits(n2).len()) as nat);
    lemma_digits_value_concat(spec_zeros((width - spec_digits(n1).len()) as nat), spec_digits(n1));
    lemma_digits_value_concat(spec_zeros((width - spec_digits(n2).len()) as nat), spec_digits(n2));
    assert(digits_value(pa) == n1);
    assert(digits_value(pb) == n2);
    assert(all_digits(pa));
    assert(all_digits(pb));
    lemma_digits_lex(pa, pb);
}

proof fn lemma_trim_front_exact(s: Seq<u8>, i: int)
    requires
        0 <= i <= s.len(),
        forall|j: int| 0 <= j < i ==> is_ascii_space(#[trigger] s[j]),
        i < s.len() ==> !is_ascii_space(s[i]),
    ensures
        trim_front(s) == s.subrange(i, s.len() as int),
    decreases i,
{
    if i == 0 {
        assert(s.subrange(0, s.len() as int) =~= s);
    } else {
        let s1 = s.drop_first();
        assert(forall|j: int| 0 <= j < i - 1 ==> is_ascii_space(#[trigger] s1[j]));
        lemma_trim_front_exact(s1, i - 1);
        assert(s1.subrange(i - 1, s1.len() as int) =~= s.subrange(i, s.len() as int));
    }
}

proof fn lemma_trim_back_exact(s: Seq<u8>, e: int)
    requires
        0 <= e <= s.len(),
        forall|j: int| e <= j < s.len() ==> is_ascii_space(#[trigger] s[j]),
        e > 0 ==> !is_ascii_space(s[e - 1]),
    ensures
        trim_back(s) == s.subrange(0, e),
    decreases s.len(),
{
    if e == s.len() {
        if e == 0 {
            assert(s.subrange(0, 0) =~= s);
        } else {
            assert(s.subrange(0, e) =~= s);
        }
    } else {
        let s1 = s.drop_last();
        lemma_trim_back_exact(s1, e);
        assert(s1.subrange(0, e) =~= s.subrange(0, e));
    }
}

/// Law of header exactness: a header built for a chunk of `n` bytes parses
/// back to exactly `n`, for every `n` whose digits fit the header.
pub proof fn lemma_header_round_trip(n: nat)
    requires
        n < pow10(20),
    ensures
        spec_header(n).len() == 20,
        parse_header_spec(spec_header(n)) == Some(n),
{
    lemma_digits_len(n, 20);
    lemma_digits_facts(n);
    let dg = spec_digits(n);
    let h = spec_header(n);
    assert(!is_ascii_space(h[0]));
    lemma_trim_front_exact(h, 0);
    assert(h.subrange(0, h.len() as int) =~= h);
    assert(forall|j: int| dg.len() <= j < h.len() ==> #[trigger] h[j] == 32);
    assert(!is_ascii_space(h[dg.len() - 1]));
    lemma_trim_back_exact(h, dg.len() as int);
    assert(h.subrange(0, dg.len() as int) =~= dg);
    lemma_digits_value_inverse(n);
}

/// Law of frame round-tripping: the frame built for a chunk declares the
/// chunk's exact length, and carries the chunk unchanged after the header.
pub proof fn lemma_build_parse_round_trip(chunk: Seq<u8>)
    requires
        chunk.len() < pow10(20),
    ensures
        spec_frame(chunk).len() == 20 + chunk.len(),
        frame_declared_len(spec_frame(chunk)) == Some(chunk.len()),
        spec_frame(chunk).subrange(20, 20 + chunk.len() as int) == chunk,
{
    lemma_header_round_trip(chunk.len());
    let f = spec_frame(chunk);
    assert(f.subrange(0, 20) =~= spec_header(chunk.len()));
    assert(f.subrange(20, 20 + chunk.len() as int) =~= chunk);
}

/// The decimal digits of `n`, most significant first.
pub fn decimal_digits(n: u64) -> (r: Vec<u8>)
    ensures
        r@ == spec_digits(n as nat),
{
    let mut rev: Vec<u8> = Vec::new();
    let mut m: u64 = n;
    if m == 0 {
        let mut r: Vec<u8> = Vec::new();
        r.push(48);
        proof {
            assert(r@ =~= spec_digits(0));
        }
        return r;
    }
    while m > 0
        invariant
            m > 0 ==> spec_digits(n as nat) == spec_digits(m as nat) + rev@.reverse(),
            m == 0 ==> spec_digits(n as nat) == rev@.reverse(),
        decreases m,
    {
        let ghost rev0 = rev@;
        let ghost m0 = m as nat;
        let d: u8 = (m % 10) as u8 + 48;
        rev.push(d);
        proof {
            assert(rev@.reverse() =~= seq![d] + rev0.reverse());
            if m0 < 10 {
                assert(spec_digits(m0) =~= seq![d]);
            } else {
                assert(spec_digits(m0) == spec_digits(m0 / 10).push(d));
                assert(spec_digits(m0 / 10).push(d) =~= spec_digits(m0 / 10) + seq![d]);
                assert(spec_digits(m0 / 10) + seq![d] + rev0.reverse() =~= spec_digits(m0 / 10) + (
                seq![d] + rev0.reverse()));
            }
        }
        m = m / 10;
    }
    let mut r: Vec<u8> = Vec::new();
    let mut i: usize = rev.len();
    while i > 0
        invariant
            i <= rev@.len(),
            r@.len() == rev@.len() - i,
            forall|k: int| 0 <= k < r@.len() ==> r@[k] == rev@[rev@.len() - 1 - k],
        decreases i,
    {
        i -= 1;
        r.push(rev[i]);
    }
    proof {
        assert(r@ =~= rev@.reverse());
    }
    r
}

/// Builds the frame for `chunk`: a 20-byte space-padded decimal header
/// holding the chunk's length, followed by the chunk. Fails exactly when
/// header plus chunk would not fit the given capacity.
pub fn build_frame(chunk: &Vec<u8>, capacity: usize) -> (r: Result<Vec<u8>, StegoError>)
    ensures
        match r {
            Ok(f) => {
                &&& 20 + chunk@.len() <= capacity
                &&& f@ == spec_frame(chunk@)
                &&& f@.len() == 20 + chunk@.len()
            },
            Err(e) => {
                &&& e == StegoError::CapacityTooSmall
                &&& 20 + chunk@.len() > capacity
            },
        },
{
    if capacity < HEADER_SZ || chunk.len() > capacity - HEADER_SZ {
        return Err(StegoError::CapacityTooSmall);
    }
    let ghost n = chunk@.len() as nat;
    proof {
        lemma_pow10_20();
        lemma_digits_len(n, 20);
    }
    let mut f = decimal_digits(chunk.len() as u64);
    while f.len() < HEADER_SZ
        invariant
            spec_digits(n).len() <= f@.len() <= 20,
            f@ == spec_digits(n) + Seq::new((f@.len() - spec_digits(n).len()) as nat, |i: int| 32u8),
        decreases 20 - f@.len(),
    {
        f.push(32);
        proof {
            assert(f@ =~= spec_digits(n) + Seq::new(
                (f@.len() - spec_digits(n).len()) as nat,
                |i: int| 32u8,
            ));
        }
    }
    assert(f@ == spec_header(n));
    f.extend_from_slice(chunk.as_slice());
    Ok(f)
}

fn is_space_byte(b: u8) -> (r: bool)
    ensures
        r == is_ascii_space(b),
{
    b == 32 || (9 <= b && b <= 13)
}

/// Splits a raw extraction buffer into its declared length and payload.
/// The first 20 bytes are the header; after trimming surrounding ASCII
/// whitespace they must be decimal digits, and the value they denote must
/// not exceed what follows the header. Fails with `FrameFormatError`
/// otherwise — in particular when the declared length exceeds the
/// available bytes, rather than reading out of bounds.
pub fn parse_frame(raw: &Vec<u8>) -> (r: Result<(usize, Vec<u8>), StegoError>)
    requires
        raw@.len() >= 20,
    ensures
        match r {
            Ok((n, payload)) => {
                &&& frame_declared_len(raw@) == Some(n as nat)
                &&& 20 + n <= raw@.len()
                &&& payload@ == raw@.subrange(20, 20 + n as int)
                &&& payload@.len() == n
            },
            Err(e) => {
                &&& e == StegoError::FrameFormatError
                &&& match frame_declared_len(raw@) {
                    Some(v) => v > usize::MAX || 20 + v > raw@.len(),
                    None => true,
                }
            },
        },
{
    let ghost h = raw@.subrange(0, 20);
    let mut start: usize = 0;
    while start < HEADER_SZ && is_space_byte(raw[start])
        invariant
            start <= 20,
            raw@.len() >= 20,
            forall|j: int| 0 <= j < start ==> is_ascii_space(#[trigger] raw@[j]),
        decreases 20 - start,
    {
        start += 1;
    }
    let mut end: usize = HEADER_SZ;
    while end > start && is_space_byte(raw[end - 1])
        invariant
            start <= end <= 20,
            raw@.len() >= 20,
            forall|j: int| end <= j < 20 ==> is_ascii_space(#[trigger] raw@[j]),
        decreases end,
    {
        end -= 1;
    }
    proof {
        assert(forall|j: int| 0 <= j < 20 ==> h[j] == raw@[j]);
        lemma_trim_front_exact(h, start as int);
        let t1 = h.subrange(start as int, 20);
        assert(forall|j: int|
            end - start <= j < t1.len() ==> is_ascii_space(#[trigger] t1[j]));
        lemma_trim_back_exact(t1, end - start);
        assert(t1.subrange(0, end - start) =~= h.subrange(start as int, end as int));
        assert(spec_trim(h) == h.subrange(start as int, end as int));
    }
    let ghost t = h.subrange(start as int, end as int);
    if start == end {
        proof {
            assert(t.len() == 0);
        }
        return Err(StegoError::FrameFormatError);
    }
    let mut acc: u128 = 0;
    let mut i: usize = start;
    proof {
        lemma_pow10_20();
        assert(h.subrange(start as int, start as int) =~= Seq::<u8>::empty());
    }
    while i < end
        invariant
            start <= i <= end <= 20,
            raw@.len() >= 20,
            h == raw@.subrange(0, 20),
            t == h.subrange(start as int, end as int),
            spec_trim(h) == t,
            forall|j: int| start <= j < i ==> 48 <= #[trigger] raw@[j] <= 57,
            acc == digits_value(h.subrange(start as int, i as int)),
            acc < pow10((i - start) as nat),
            pow10(20) == 100_000_000_000_000_000_000,
        decreases end - i,
    {
        let b = raw[i];
        if b < 48 || b > 57 {
            proof {
                assert(t[i - start] == raw@[i as int]);
                assert(!all_digits(t));
            }
            return Err(StegoError::FrameFormatError);
        }
        proof {
            let k = (i - start) as nat;
            assert(pow10(k) <= pow10(19)) by {
                lemma_pow10_le(k, 19);
            }
            assert(10 * pow10(19) == pow10(20));
            let pre = h.subrange(start as int, i as int);
            let pre1 = h.subrange(start as int, i + 1 as int);
            assert(pre1.drop_last() =~= pre);
            assert(pre1.last() == raw@[i as int]);
        }
        acc = acc * 10 + ((b - 48) as u128);
        i += 1;
    }
    proof {
        assert(h.subrange(start as int, i as int) == t);
        assert(all_digits(t));
        assert(parse_header_spec(h) == Some(digits_value(t)));
    }
    if acc > usize::MAX as u128 {
        return Err(StegoError::FrameFormatError);
    }
    let n: usize = acc as usize;
    let raw_len: usize = raw.len();
    if n > raw_len - HEADER_SZ {
        return Err(StegoError::FrameFormatError);
    }
    let mut payload: Vec<u8> = Vec::new();
    let mut j: usize = 0;
    proof {
        assert(raw@.subrange(20, 20) =~= Seq::<u8>::empty());
    }
    while j < n
        invariant
            j <= n,
            20 + n <= raw_len,
            raw_len == raw@.len(),
            payload@ == raw@.subrange(20, 20 + j as int),
        decreases n - j,
    {
        payload.push(raw[HEADER_SZ + j]);
        proof {
            assert(raw@.subrange(20, 20 + j + 1 as int) =~= raw@.subrange(20, 20 + j as int).push(
                raw@[20 + j as int],
            ));
        }
        j += 1;
    }
    Ok((n, payload))
}

proof fn lemma_pow10_le(a: nat, b: nat)
    requires
        a <= b,
    ensures
        pow10(a) <= pow10(b),
    decreases b,
{
    if a < b {
        lemma_pow10_le(a, (b - 1) as nat);
        assert(pow10(b) == 10 * pow10((b - 1) as nat));
        assert(pow10((b - 1) as nat) >= 1) by {
            lemma_pow10_pos((b - 1) as nat);
        }
    }
}

proof fn lemma_pow10_pos(k: nat)
    ensures
        pow10(k) >= 1,
    decreases k,
{
    if k > 0 {
        lemma_pow10_pos((k - 1) as nat);
    }
}

} // verus!
