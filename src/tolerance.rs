//! Tolerance as an exact fraction, its clamping into the supported range, and
//! the per-chunk threshold derived from it.
use vstd::prelude::*;

verus! {

/// `ceil(a / b)` for a non-negative `a` and a positive `b`.
pub open spec fn ceil_div(a: int, b: int) -> int {
    (a + b - 1) / b
}

/// Smallest tolerance that is honoured: one twentieth (5%).
pub const MIN_NUM: u64 = 1;
pub const MIN_DEN: u64 = 20;
/// Largest tolerance that is honoured: one quarter (25%).
pub const MAX_NUM: u64 = 1;
pub const MAX_DEN: u64 = 4;

/// A fraction of bit flips to tolerate, held exactly as `num / den`.
#[derive(Clone, Copy, Debug, PartialEq, Eq, Structural)]
pub struct Tolerance {
    pub num: u64,
    pub den: u64,
}

impl Tolerance {
    /// A tolerance is well formed when its denominator is positive.
    pub open spec fn wf(self) -> bool {
        self.den > 0
    }

    /// The tolerance as a rational number, compared by cross-multiplication.
    pub open spec fn below(self, num: int, den: int) -> bool {
        self.num * den < num * self.den
    }

    pub open spec fn above(self, num: int, den: int) -> bool {
        self.num * den > num * self.den
    }

    /// The tolerance clamped into `[1/20, 1/4]`.
    pub open spec fn clamped_spec(self) -> Tolerance {
        if self.below(MIN_NUM as int, MIN_DEN as int) {
            Tolerance { num: MIN_NUM, den: MIN_DEN }
        } else if self.above(MAX_NUM as int, MAX_DEN as int) {
            Tolerance { num: MAX_NUM, den: MAX_DEN }
        } else {
            self
        }
    }

    /// Minimum number of one bits for a chunk of nominal size `chunk_size` to
    /// register level 1: `ceil(t * chunk_size)` for the clamped tolerance `t`.
    pub open spec fn threshold_spec(self, chunk_size: nat) -> nat {
        let c = self.clamped_spec();
        ceil_div(c.num * chunk_size, c.den as int) as nat
    }

    pub fn new(num: u64, den: u64) -> (r: Tolerance)
        requires
            den > 0,
        ensures
            r.num == num,
            r.den == den,
            r.wf(),
    {
        Tolerance { num, den }
    }

    pub fn clamped(&self) -> (r: Tolerance)
        requires
            self.wf(),
        ensures
            r == self.clamped_spec(),
            r.wf(),
    {
        let n = self.num as u128;
        let d = self.den as u128;
        proof {
            lemma_u64_product_fits(n as int, MIN_DEN as int);
            lemma_u64_product_fits(MIN_NUM as int, d as int);
            lemma_u64_product_fits(n as int, MAX_DEN as int);
            lemma_u64_product_fits(MAX_NUM as int, d as int);
        }
        if n * (MIN_DEN as u128) < (MIN_NUM as u128) * d {
            Tolerance { num: MIN_NUM, den: MIN_DEN }
        } else if n * (MAX_DEN as u128) > (MAX_NUM as u128) * d {
            Tolerance { num: MAX_NUM, den: MAX_DEN }
        } else {
            *self
        }
    }

    /// The threshold for chunks of nominal size `chunk_size`.
    pub fn threshold(&self, chunk_size: usize) -> (r: usize)
        requires
            self.wf(),
        ensures
            r == self.threshold_spec(chunk_size as nat),
            r <= chunk_size,
    {
        let c = self.clamped();
        proof {
            lemma_u64_product_fits(c.num as int, chunk_size as int);
        }
        let p = (c.num as u128) * (chunk_size as u128);
        let d = c.den as u128;
        let q = p / d;
        let r = p % d;
        proof {
            lemma_ceil_div_parts(p as int, d as int);
            lemma_clamped_at_most_quarter(*self, chunk_size as nat);
        }
        if r != 0 {
            (q + 1) as usize
        } else {
            q as usize
        }
    }
}

/// `ceil(p / d)` is the quotient, plus one when there is a remainder.
pub proof fn lemma_ceil_div_parts(p: int, d: int)
    requires
        p >= 0,
        d > 0,
    ensures
        ceil_div(p, d) == p / d + if p % d != 0 { 1int } else { 0int },
{
    let q = p / d;
    let r = p % d;
    vstd::arithmetic::div_mod::lemma_fundamental_div_mod(p, d);
    if r == 0 {
        vstd::arithmetic::div_mod::lemma_fundamental_div_mod_converse_div(p + d - 1, d, q, d - 1);
    } else {
        assert(p + d - 1 == (q + 1) * d + (r - 1)) by (nonlinear_arith)
            requires p == d * q + r;
        vstd::arithmetic::div_mod::lemma_fundamental_div_mod_converse_div(p + d - 1, d, q + 1, r - 1);
    }
}

/// The product of two 64-bit quantities fits in 128 bits.
proof fn lemma_u64_product_fits(a: int, b: int)
    requires
        0 <= a <= u64::MAX,
        0 <= b <= u64::MAX,
    ensures
        0 <= a * b <= u128::MAX,
{
    assert(0 <= a * b <= u64::MAX * u64::MAX) by (nonlinear_arith)
        requires 0 <= a <= u64::MAX, 0 <= b <= u64::MAX;
}

/// The clamped tolerance never exceeds one quarter, so the threshold never
/// exceeds the chunk size.
proof fn lemma_clamped_at_most_quarter(t: Tolerance, cs: nat)
    requires
        t.wf(),
    ensures
        t.threshold_spec(cs) <= cs,
        t.clamped_spec().num * 4 <= t.clamped_spec().den,
{
    let c = t.clamped_spec();
    let p = c.num * cs;
    let d = c.den as int;
    assert(c.num * 4 <= d);
    assert(p * 4 <= d * cs) by (nonlinear_arith)
        requires p == c.num * cs, c.num * 4 <= d, cs >= 0;
    assert(p + d - 1 < d * (cs + 1)) by (nonlinear_arith)
        requires p * 4 <= d * cs, d > 0, cs >= 0, p >= 0;
    vstd::arithmetic::div_mod::lemma_multiply_divide_lt(p + d - 1, d, cs + 1int);
}

} // verus!
