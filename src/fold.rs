//! The folding itself: bit extraction, chunked thresholding and synthesis of
//! the output bytes.
use vstd::prelude::*;

use crate::tolerance::{ceil_div, lemma_ceil_div_parts, Tolerance};

verus! {

/// Byte that seeds the position-dependent output mask (`0b1010_1010`).
pub const MASK_SEED: u8 = 0xAA;

/// Bit `k` of the byte string `s`, bytes in order and most significant bit first.
pub open spec fn bit_at(s: Seq<u8>, k: int) -> bool {
    (s[k / 8] >> ((7 - k % 8) as u8)) & 1u8 == 1u8
}

/// The bit sequence of `s`: `8 * s.len()` bits.
pub open spec fn bits_of(s: Seq<u8>) -> Seq<bool> {
    Seq::new(8 * s.len(), |k: int| bit_at(s, k))
}

/// Number of `true` entries in `s`.
pub open spec fn count_ones(s: Seq<bool>) -> nat
    decreases s.len(),
{
    if s.len() == 0 {
        0
    } else {
        count_ones(s.drop_last()) + if s.last() { 1nat } else { 0nat }
    }
}

/// Nominal number of chunks for `total_bits` bits: eight from 128 bits up,
/// else one per 16 bits (none below 16 bits).
pub open spec fn num_chunks_spec(total_bits: nat) -> nat {
    if total_bits >= 128 {
        8
    } else {
        total_bits / 16
    }
}

/// Nominal chunk size: the bits divided by at least one chunk.
pub open spec fn chunk_size_spec(total_bits: nat) -> nat {
    let n = num_chunks_spec(total_bits);
    total_bits / (if n == 0 { 1 } else { n })
}

/// Number of chunks produced from `total_bits` bits in chunks of `cs`, the
/// last one holding the remainder.
pub open spec fn level_count(total_bits: nat, cs: nat) -> nat {
    ceil_div(total_bits as int, cs as int) as nat
}

/// Exclusive end of chunk `j`: the next boundary, or the end of the bits.
pub open spec fn chunk_end(total_bits: nat, cs: nat, j: int) -> int {
    if (j + 1) * cs < total_bits {
        (j + 1) * cs
    } else {
        total_bits as int
    }
}

/// Level of chunk `j`: whether its one bits reach `threshold`.
pub open spec fn chunk_level(bits: Seq<bool>, cs: nat, threshold: nat, j: int) -> bool {
    count_ones(bits.subrange(j * cs, chunk_end(bits.len(), cs, j))) >= threshold
}

/// The levels of all chunks of `bits`, in order.
pub open spec fn levels_of(bits: Seq<bool>, cs: nat, threshold: nat) -> Seq<bool> {
    Seq::new(level_count(bits.len(), cs), |j: int| chunk_level(bits, cs, threshold, j))
}

/// Levels of the chunks of `s` against a given threshold.
pub open spec fn input_levels(s: Seq<u8>, threshold: nat) -> Seq<bool> {
    levels_of(bits_of(s), chunk_size_spec(8 * s.len()), threshold)
}

/// Mask applied at output position `i`: `0xAA + i`, wrapping at 256.
pub open spec fn mask_at(i: int) -> u8 {
    ((MASK_SEED + i) % 256) as u8
}

/// Output byte at position `i` for a chunk level.
pub open spec fn out_byte(level: bool, i: int) -> u8 {
    (if level { 255u8 } else { 0u8 }) ^ mask_at(i)
}

/// `len` output bytes repeating the levels cyclically.
pub open spec fn synthesize_spec(levels: Seq<bool>, len: nat) -> Seq<u8> {
    Seq::new(len, |i: int| out_byte(levels[i % levels.len() as int], i))
}

/// Collapse of `s` against an explicit chunk threshold.
pub open spec fn collapse_with_threshold_spec(s: Seq<u8>, threshold: nat) -> Seq<u8> {
    if 8 * s.len() < 8 {
        Seq::new(s.len(), |i: int| s[i] ^ MASK_SEED)
    } else {
        synthesize_spec(input_levels(s, threshold), s.len())
    }
}

/// Threshold used for `s` under tolerance `t`.
pub open spec fn threshold_of(s: Seq<u8>, t: Tolerance) -> nat {
    t.threshold_spec(chunk_size_spec(8 * s.len()))
}

/// Collapse of `s` under tolerance `t`.
pub open spec fn collapse_spec(s: Seq<u8>, t: Tolerance) -> Seq<u8> {
    collapse_with_threshold_spec(s, threshold_of(s, t))
}

// ---------------------------------------------------------------------------
// Arithmetic facts about chunking
// ---------------------------------------------------------------------------

/// From one byte on, the nominal chunk size is at least eight bits and at most
/// the total.
pub proof fn lemma_chunk_size_bounds(total_bits: nat)
    requires
        total_bits >= 8,
    ensures
        8 <= chunk_size_spec(total_bits) <= total_bits,
{
    let n = num_chunks_spec(total_bits);
    let tb = total_bits as int;
    if n != 0 {
        let q = tb / (n as int);
        vstd::arithmetic::div_mod::lemma_fundamental_div_mod(tb, n as int);
        assert(16 * n <= tb);
        assert(q >= 16) by (nonlinear_arith)
            requires tb == n * q + tb % (n as int), 0 <= tb % (n as int) < n, 16 * n <= tb, n > 0;
        assert(q <= tb) by (nonlinear_arith)
            requires tb == n * q + tb % (n as int), 0 <= tb % (n as int), n >= 1, q >= 0;
    }
}

/// Every chunk before the last begins inside the bits.
proof fn lemma_chunk_start_in_range(total_bits: nat, cs: nat, j: int)
    requires
        cs > 0,
        0 <= j < level_count(total_bits, cs),
    ensures
        j * cs < total_bits,
        (j + 1) * cs == j * cs + cs,
{
    let tb = total_bits as int;
    let q = tb / (cs as int);
    let r = tb % (cs as int);
    lemma_ceil_div_parts(tb, cs as int);
    vstd::arithmetic::div_mod::lemma_fundamental_div_mod(tb, cs as int);
    assert(j * cs < tb) by (nonlinear_arith)
        requires
            tb == cs * q + r,
            0 <= r < cs,
            0 <= j,
            j < q + if r != 0 { 1int } else { 0int },
    ;
    assert((j + 1) * cs == j * cs + cs) by (nonlinear_arith);
}

/// A non-empty bit sequence has at least one chunk, and no more chunks than
/// bytes when chunks hold at least eight bits.
pub proof fn lemma_level_count_bounds(len: nat, cs: nat)
    requires
        len >= 1,
        cs >= 8,
    ensures
        1 <= level_count(8 * len, cs) <= len,
{
    let tb = (8 * len) as int;
    let q = tb / (cs as int);
    let r = tb % (cs as int);
    lemma_ceil_div_parts(tb, cs as int);
    vstd::arithmetic::div_mod::lemma_fundamental_div_mod(tb, cs as int);
    assert(q + (if r != 0 { 1int } else { 0int }) <= len) by (nonlinear_arith)
        requires
            tb == cs * q + r,
            tb == 8 * len,
            0 <= r < cs,
            cs >= 8,
            q >= 0,
    ;
    assert(q + (if r != 0 { 1int } else { 0int }) >= 1) by (nonlinear_arith)
        requires
            tb == cs * q + r,
            tb >= 8,
            0 <= r < cs,
    ;
}

/// Counting one more bit at the end of a range.
proof fn lemma_count_ones_extend(s: Seq<bool>, lo: int, hi: int)
    requires
        0 <= lo <= hi < s.len(),
    ensures
        count_ones(s.subrange(lo, hi + 1)) == count_ones(s.subrange(lo, hi)) + if s[hi] {
            1nat
        } else {
            0nat
        },
{
    assert(s.subrange(lo, hi + 1).drop_last() =~= s.subrange(lo, hi));
}

// ---------------------------------------------------------------------------
// Executable folding
// ---------------------------------------------------------------------------

/// Nominal number of chunks for `total_bits` bits.
pub fn num_chunks(total_bits: usize) -> (r: usize)
    ensures
        r == num_chunks_spec(total_bits as nat),
{
    if total_bits >= 128 {
        8
    } else {
        total_bits / 16
    }
}

/// Nominal chunk size for `total_bits` bits.
pub fn chunk_size(total_bits: usize) -> (r: usize)
    ensures
        r == chunk_size_spec(total_bits as nat),
{
    let n = num_chunks(total_bits);
    let divisor: usize = if n == 0 { 1 } else { n };
    total_bits / divisor
}

/// The bits of `input`, bytes in order and most significant bit first.
pub fn extract_bits(input: &[u8]) -> (r: Vec<bool>)
    requires
        input@.len() * 8 <= usize::MAX,
    ensures
        r@ == bits_of(input@),
{
    let mut bits: Vec<bool> = Vec::new();
    let mut b: usize = 0;
    while b < input.len()
        invariant
            b <= input@.len(),
            input@.len() * 8 <= usize::MAX,
            bits@.len() == 8 * b,
            forall|k: int| 0 <= k < bits@.len() ==> bits@[k] == bit_at(input@, k),
        decreases input@.len() - b,
    {
        let byte = input[b];
        let mut i: u8 = 0;
        while i < 8
            invariant
                b < input@.len(),
                byte == input@[b as int],
                i <= 8,
                bits@.len() == 8 * b + i,
                forall|k: int| 0 <= k < bits@.len() ==> bits@[k] == bit_at(input@, k),
            decreases 8 - i,
        {
            proof {
                let k = 8 * b + i;
                vstd::arithmetic::div_mod::lemma_fundamental_div_mod_converse(
                    k as int,
                    8,
                    b as int,
                    i as int,
                );
            }
            bits.push((byte >> (7 - i)) & 1 == 1);
            i = i + 1;
        }
        b = b + 1;
    }
    assert(bits@ =~= bits_of(input@));
    bits
}

/// Number of `true` entries of `bits` in `start..end`.
pub fn count_ones_in(bits: &Vec<bool>, start: usize, end: usize) -> (r: usize)
    requires
        start <= end <= bits@.len(),
    ensures
        r == count_ones(bits@.subrange(start as int, end as int)),
        r <= end - start,
{
    let mut sum: usize = 0;
    let mut k: usize = start;
    assert(bits@.subrange(start as int, start as int) =~= Seq::<bool>::empty());
    while k < end
        invariant
            start <= k <= end <= bits@.len(),
            sum == count_ones(bits@.subrange(start as int, k as int)),
            sum <= k - start,
        decreases end - k,
    {
        proof {
            lemma_count_ones_extend(bits@, start as int, k as int);
        }
        if bits[k] {
            sum = sum + 1;
        }
        k = k + 1;
    }
    sum
}

/// The level of every chunk of `bits`, chunks of `cs` bits and a shorter last
/// one; each is compared with `threshold`, which is meant for the nominal size.
pub fn chunk_levels(bits: &Vec<bool>, cs: usize, threshold: usize) -> (r: Vec<bool>)
    requires
        cs > 0,
    ensures
        r@ == levels_of(bits@, cs as nat, threshold as nat),
{
    let tb = bits.len();
    proof {
        lemma_ceil_div_parts(tb as int, cs as int);
        vstd::arithmetic::div_mod::lemma_fundamental_div_mod(tb as int, cs as int);
        let (q, rem) = (tb as int / cs as int, tb as int % cs as int);
        assert(rem != 0 ==> q < tb) by (nonlinear_arith)
            requires tb == cs * q + rem, 0 <= rem, cs >= 1, q >= 0;
    }
    let n: usize = if tb % cs != 0 { tb / cs + 1 } else { tb / cs };
    let mut levels: Vec<bool> = Vec::new();
    let mut j: usize = 0;
    while j < n
        invariant
            cs > 0,
            tb == bits@.len(),
            n == level_count(tb as nat, cs as nat),
            j <= n,
            levels@.len() == j,
            forall|jj: int|
                0 <= jj < j ==> levels@[jj] == chunk_level(bits@, cs as nat, threshold as nat, jj),
        decreases n - j,
    {
        proof {
            lemma_chunk_start_in_range(tb as nat, cs as nat, j as int);
        }
        let start = j * cs;
        let end = if tb - start > cs { start + cs } else { tb };
        let sum = count_ones_in(bits, start, end);
        levels.push(sum >= threshold);
        j = j + 1;
    }
    assert(levels@ =~= levels_of(bits@, cs as nat, threshold as nat));
    levels
}

/// `len` output bytes: byte `i` is level `i mod levels.len()` spread to 0 or
/// 255, XOR the mask `0xAA + i`.
pub fn synthesize(levels: &Vec<bool>, len: usize) -> (r: Vec<u8>)
    requires
        levels@.len() > 0,
    ensures
        r@ == synthesize_spec(levels@, len as nat),
{
    let n = levels.len();
    let mut out: Vec<u8> = Vec::new();
    let mut i: usize = 0;
    while i < len
        invariant
            n == levels@.len(),
            n > 0,
            i <= len,
            out@.len() == i,
            forall|k: int| 0 <= k < i ==> out@[k] == out_byte(levels@[k % n as int], k),
        decreases len - i,
    {
        let base: u8 = if levels[i % n] { 255 } else { 0 };
        let mask = ((MASK_SEED as usize + i % 256) % 256) as u8;
        proof {
            vstd::arithmetic::div_mod::lemma_add_mod_noop_right(MASK_SEED as int, i as int, 256);
        }
        out.push(base ^ mask);
        i = i + 1;
    }
    assert(out@ =~= synthesize_spec(levels@, len as nat));
    out
}

/// Collapse of `input` with a given chunk threshold: chunks whose one bits
/// reach `threshold` are level 1. An empty input gives an empty output.
pub fn collapse_with_threshold(input: &[u8], threshold: usize) -> (r: Vec<u8>)
    requires
        input@.len() * 8 <= usize::MAX,
    ensures
        r@ == collapse_with_threshold_spec(input@, threshold as nat),
        r@.len() == input@.len(),
{
    let total_bits = input.len() * 8;
    if total_bits < 8 {
        let mut out: Vec<u8> = Vec::new();
        let mut i: usize = 0;
        while i < input.len()
            invariant
                i <= input@.len(),
                out@.len() == i,
                forall|k: int| 0 <= k < i ==> out@[k] == input@[k] ^ MASK_SEED,
            decreases input@.len() - i,
        {
            out.push(input[i] ^ MASK_SEED);
            i = i + 1;
        }
        assert(out@ =~= collapse_with_threshold_spec(input@, threshold as nat));
        return out;
    }
    let bits = extract_bits(input);
    let cs = chunk_size(total_bits);
    proof {
        lemma_chunk_size_bounds(total_bits as nat);
        lemma_level_count_bounds(input@.len(), cs as nat);
    }
    let levels = chunk_levels(&bits, cs, threshold);
    synthesize(&levels, input.len())
}

/// Thresholded bit folding of `input` under `tolerance`, clamped into
/// `[1/20, 1/4]`: the output has the input's length, and its byte `i` is
/// determined by `i` and the level of chunk `i mod (number of chunks)`.
pub fn collapse_deterministic(input: &[u8], tolerance: Tolerance) -> (r: Vec<u8>)
    requires
        tolerance.wf(),
        input@.len() * 8 <= usize::MAX,
    ensures
        r@ == collapse_spec(input@, tolerance),
        r@.len() == input@.len(),
{
    let cs = chunk_size(input.len() * 8);
    let threshold = tolerance.threshold(cs);
    collapse_with_threshold(input, threshold)
}

} // verus!
