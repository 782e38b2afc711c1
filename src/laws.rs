//! Laws of the folding, stated over the specification functions that the
//! executable functions are proved against.
use vstd::prelude::*;

use crate::fold::{
    bits_of, chunk_end, chunk_size_spec, collapse_spec, collapse_with_threshold_spec, count_ones,
    input_levels, lemma_chunk_size_bounds, lemma_level_count_bounds, mask_at, out_byte,
    threshold_of, MASK_SEED,
};
use crate::tolerance::{ceil_div, Tolerance, MAX_DEN, MAX_NUM, MIN_DEN, MIN_NUM};

verus! {

/// Two fractions of equal value compare alike with any fraction `x / y`.
proof fn lemma_equal_ratios_compare_alike(n1: int, d1: int, n2: int, d2: int, x: int, y: int)
    requires
        n1 * d2 == n2 * d1,
        d1 > 0,
        d2 > 0,
        y > 0,
    ensures
        (n1 * y < x * d1) == (n2 * y < x * d2),
        (n1 * y > x * d1) == (n2 * y > x * d2),
{
    assert((n1 * y < x * d1) == (n1 * y * d2 < x * d1 * d2)) by (nonlinear_arith)
        requires d2 > 0;
    assert((n2 * y < x * d2) == (n2 * y * d1 < x * d2 * d1)) by (nonlinear_arith)
        requires d1 > 0;
    assert((n1 * y > x * d1) == (n1 * y * d2 > x * d1 * d2)) by (nonlinear_arith)
        requires d2 > 0;
    assert((n2 * y > x * d2) == (n2 * y * d1 > x * d2 * d1)) by (nonlinear_arith)
        requires d1 > 0;
    assert(n1 * y * d2 == n2 * y * d1) by (nonlinear_arith)
        requires n1 * d2 == n2 * d1;
    assert(x * d1 * d2 == x * d2 * d1) by (nonlinear_arith);
}

/// `ceil(p / d)` depends on the value of the fraction alone.
proof fn lemma_ceil_div_of_equal_ratios(p1: int, d1: int, p2: int, d2: int)
    requires
        p1 * d2 == p2 * d1,
        p1 >= 0,
        p2 >= 0,
        d1 > 0,
        d2 > 0,
    ensures
        ceil_div(p1, d1) == ceil_div(p2, d2),
{
    let c = ceil_div(p1, d1);
    let r = (p1 + d1 - 1) % d1;
    vstd::arithmetic::div_mod::lemma_fundamental_div_mod(p1 + d1 - 1, d1);
    assert(p1 <= c * d1 && p1 > (c - 1) * d1) by (nonlinear_arith)
        requires p1 + d1 - 1 == d1 * c + r, 0 <= r < d1;
    assert(p2 <= c * d2 && p2 > (c - 1) * d2) by (nonlinear_arith)
        requires
            p1 <= c * d1,
            p1 > (c - 1) * d1,
            p1 * d2 == p2 * d1,
            d1 > 0,
            d2 > 0,
    ;
    let r2 = p2 + d2 - 1 - c * d2;
    assert(p2 + d2 - 1 == c * d2 + r2);
    assert(0 <= r2 < d2) by (nonlinear_arith)
        requires r2 == p2 + d2 - 1 - c * d2, p2 <= c * d2, p2 > (c - 1) * d2;
    vstd::arithmetic::div_mod::lemma_fundamental_div_mod_converse_div(p2 + d2 - 1, d2, c, r2);
}

/// Determinism: the output is a function of the input and of the value of the
/// tolerance, so tolerances of equal value (as fractions) give equal outputs;
/// in particular, repeating a call with the same arguments repeats the output.
pub proof fn lemma_equal_tolerances_agree(s: Seq<u8>, t1: Tolerance, t2: Tolerance)
    requires
        t1.wf(),
        t2.wf(),
        t1.num * t2.den == t2.num * t1.den,
    ensures
        collapse_spec(s, t1) == collapse_spec(s, t2),
{
    lemma_equal_ratios_compare_alike(
        t1.num as int,
        t1.den as int,
        t2.num as int,
        t2.den as int,
        MIN_NUM as int,
        MIN_DEN as int,
    );
    lemma_equal_ratios_compare_alike(
        t1.num as int,
        t1.den as int,
        t2.num as int,
        t2.den as int,
        MAX_NUM as int,
        MAX_DEN as int,
    );
    let c1 = t1.clamped_spec();
    let c2 = t2.clamped_spec();
    assert(c1.num * c2.den == c2.num * c1.den);
    let cs = chunk_size_spec(8 * s.len());
    assert((c1.num * cs) * c2.den == (c2.num * cs) * c1.den) by (nonlinear_arith)
        requires c1.num * c2.den == c2.num * c1.den;
    lemma_ceil_div_of_equal_ratios(c1.num * cs, c1.den as int, c2.num * cs, c2.den as int);
}

/// The output always has the length of the input.
pub proof fn lemma_length_preserved(s: Seq<u8>, t: Tolerance)
    ensures
        collapse_spec(s, t).len() == s.len(),
{
}

/// Tolerances below one twentieth act as one twentieth, and tolerances above
/// one quarter act as one quarter.
pub proof fn lemma_tolerance_clamped(s: Seq<u8>, t: Tolerance)
    requires
        t.wf(),
    ensures
        t.below(MIN_NUM as int, MIN_DEN as int) ==> collapse_spec(s, t) == collapse_spec(
            s,
            Tolerance { num: MIN_NUM, den: MIN_DEN },
        ),
        t.above(MAX_NUM as int, MAX_DEN as int) ==> collapse_spec(s, t) == collapse_spec(
            s,
            Tolerance { num: MAX_NUM, den: MAX_DEN },
        ),
{
}

/// A sequence of `false` has no one bits.
proof fn lemma_count_ones_all_false(s: Seq<bool>)
    requires
        forall|k: int| 0 <= k < s.len() ==> !s[k],
    ensures
        count_ones(s) == 0,
    decreases s.len(),
{
    if s.len() > 0 {
        lemma_count_ones_all_false(s.drop_last());
    }
}

/// A non-empty all-zero input never collapses to itself: every chunk is below
/// its threshold, so the first output byte is the mask `0xAA`.
pub proof fn lemma_zero_input_changed(s: Seq<u8>, t: Tolerance)
    requires
        t.wf(),
        s.len() >= 1,
        forall|i: int| 0 <= i < s.len() ==> s[i] == 0u8,
    ensures
        collapse_spec(s, t) != s,
        collapse_spec(s, t)[0] == MASK_SEED,
{
    let tb = 8 * s.len();
    let cs = chunk_size_spec(tb);
    lemma_chunk_size_bounds(tb);
    lemma_level_count_bounds(s.len(), cs);
    // The threshold is at least one.
    let c = t.clamped_spec();
    let p = c.num * cs;
    let d = c.den as int;
    assert(c.num >= 1);
    assert(p >= 1) by (nonlinear_arith)
        requires p == c.num * cs, c.num >= 1, cs >= 1;
    vstd::arithmetic::div_mod::lemma_fundamental_div_mod(p + d - 1, d);
    assert(ceil_div(p, d) >= 1) by (nonlinear_arith)
        requires
            p + d - 1 == d * ceil_div(p, d) + (p + d - 1) % d,
            0 <= (p + d - 1) % d < d,
            p >= 1,
            d > 0,
    ;
    // Every bit is zero, so the first chunk has no one bits.
    let bits = bits_of(s);
    assert forall|k: int| 0 <= k < bits.len() implies !bits[k] by {
        let x = (7 - k % 8) as u8;
        assert(((0u8 >> x) & 1u8) == 0u8) by (bit_vector);
    }
    let first = bits.subrange(0, chunk_end(tb, cs, 0));
    lemma_count_ones_all_false(first);
    let levels = input_levels(s, threshold_of(s, t));
    assert(!levels[0]);
    assert((0u8 ^ 0xAAu8) == 0xAAu8) by (bit_vector);
    assert(collapse_spec(s, t)[0] == MASK_SEED);
}

/// Position `i` of the output tells the two levels apart.
proof fn lemma_out_byte_separates(i: int)
    ensures
        out_byte(true, i) != out_byte(false, i),
{
    let m = mask_at(i);
    assert((255u8 ^ m) != (0u8 ^ m)) by (bit_vector);
}

/// For inputs of equal non-zero length, the outputs agree exactly when the
/// sequences of chunk levels agree: flips that leave every chunk on the same
/// side of its threshold are absorbed, and any change of level shows.
pub proof fn lemma_outputs_agree_iff_levels_agree(a: Seq<u8>, b: Seq<u8>, threshold: nat)
    requires
        a.len() == b.len(),
        a.len() >= 1,
    ensures
        (collapse_with_threshold_spec(a, threshold) == collapse_with_threshold_spec(b, threshold))
            <==> (input_levels(a, threshold) == input_levels(b, threshold)),
{
    let len = a.len();
    let cs = chunk_size_spec(8 * len);
    lemma_chunk_size_bounds(8 * len);
    lemma_level_count_bounds(len, cs);
    let la = input_levels(a, threshold);
    let lb = input_levels(b, threshold);
    let oa = collapse_with_threshold_spec(a, threshold);
    let ob = collapse_with_threshold_spec(b, threshold);
    let n = la.len();
    assert(lb.len() == n);
    if la == lb {
        assert(oa =~= ob);
    }
    if oa == ob {
        assert forall|j: int| 0 <= j < n implies la[j] == lb[j] by {
            vstd::arithmetic::div_mod::lemma_small_mod(j as nat, n);
            assert(oa[j] == ob[j]);
            lemma_out_byte_separates(j);
        }
        assert(la =~= lb);
    }
}

} // verus!
