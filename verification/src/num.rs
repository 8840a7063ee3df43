//! Integer arithmetic kernels shared by the whole engine: truncating signed
//! division, integer square root, and the bounds lemmas the callers need.

use vstd::prelude::*;

verus! {

/// Truncating (round-toward-zero) division, the semantics every scalar
/// division in the engine uses.  The divisor is always positive.
pub open spec fn tdiv(a: int, d: int) -> int {
    if a >= 0 {
        a / d
    } else {
        -((-a) / d)
    }
}

/// Floor of the square root of `n`.
pub open spec fn sqrt_floor(n: nat) -> nat
    decreases n,
{
    if n == 0 {
        0
    } else {
        let r = sqrt_floor((n - 1) as nat);
        if (r + 1) * (r + 1) <= n {
            r + 1
        } else {
            r
        }
    }
}

pub proof fn lemma_sqrt_floor_bounds(n: nat)
    ensures
        sqrt_floor(n) * sqrt_floor(n) <= n,
        (n as int) < (sqrt_floor(n) as int + 1) * (sqrt_floor(n) as int + 1),
    decreases n,
{
    if n > 0 {
        lemma_sqrt_floor_bounds((n - 1) as nat);
        let r = sqrt_floor((n - 1) as nat);
        if (r + 1) * (r + 1) <= n {
            assert(sqrt_floor(n) == r + 1);
            assert(n == (r + 1) * (r + 1));
            assert((r as int + 2) * (r as int + 2) > (r + 1) * (r + 1)) by (nonlinear_arith);
        } else {
            assert(sqrt_floor(n) == r);
        }
    } else {
        assert(sqrt_floor(n) == 0);
    }
}

/// The square root floor is pinned by its two bounds.
pub proof fn lemma_sqrt_floor_unique(n: nat, r: nat)
    requires
        r * r <= n,
        (n as int) < (r as int + 1) * (r as int + 1),
    ensures
        r == sqrt_floor(n),
{
    lemma_sqrt_floor_bounds(n);
    let s = sqrt_floor(n);
    if r < s {
        assert((r + 1) * (r + 1) <= s * s) by (nonlinear_arith)
            requires r < s,
        ;
    }
    if s < r {
        assert((s + 1) * (s + 1) <= r * r) by (nonlinear_arith)
            requires s < r,
        ;
    }
}

/// Truncating division: the magnitude of the quotient is bounded by the
/// magnitude of any bound on the dividend, divided by the divisor.
pub proof fn lemma_tdiv_abs_le(a: int, d: int, cap: int)
    requires
        d >= 1,
        -cap <= a <= cap,
        0 <= cap,
    ensures
        -cap <= -(cap / d) <= tdiv(a, d) <= cap / d <= cap,
{
    if a >= 0 {
        vstd::arithmetic::div_mod::lemma_div_is_ordered(a, cap, d);
        vstd::arithmetic::div_mod::lemma_div_is_ordered_by_denominator(cap, 1, d);
        vstd::arithmetic::div_mod::lemma_div_pos_is_pos(a, d);
        vstd::arithmetic::div_mod::lemma_div_pos_is_pos(cap, d);
    } else {
        vstd::arithmetic::div_mod::lemma_div_is_ordered(-a, cap, d);
        vstd::arithmetic::div_mod::lemma_div_is_ordered_by_denominator(cap, 1, d);
        vstd::arithmetic::div_mod::lemma_div_pos_is_pos(-a, d);
        vstd::arithmetic::div_mod::lemma_div_pos_is_pos(cap, d);
    }
}

/// Truncating division is monotone in the magnitude of the dividend.
pub proof fn lemma_tdiv_mag_monotone(a: int, b: int, d: int)
    requires
        d >= 1,
        0 <= a <= b,
    ensures
        0 <= tdiv(a, d) <= tdiv(b, d),
        tdiv(-a, d) == -tdiv(a, d),
        tdiv(-a, d) >= tdiv(-b, d),
{
    vstd::arithmetic::div_mod::lemma_div_is_ordered(a, b, d);
    vstd::arithmetic::div_mod::lemma_div_pos_is_pos(a, d);
}

/// Magnitude of an integer.
pub open spec fn iabs(a: int) -> int {
    if a >= 0 {
        a
    } else {
        -a
    }
}

/// A product is bounded by the product of the factors' bounds.
pub proof fn lemma_abs_mul_le(a: int, b: int, ca: int, cb: int)
    requires
        -ca <= a <= ca,
        -cb <= b <= cb,
        0 <= ca,
        0 <= cb,
    ensures
        -(ca * cb) <= a * b <= ca * cb,
{
    assert(-(ca * cb) <= a * b <= ca * cb) by (nonlinear_arith)
        requires -ca <= a <= ca && -cb <= b <= cb && 0 <= ca && 0 <= cb,
    ;
}

/// Scaling by a fraction `k / d` with `k <= d` cannot grow the magnitude.
pub proof fn lemma_tdiv_scale_le(a: int, k: int, d: int)
    requires
        d >= 1,
        0 <= k <= d,
    ensures
        -iabs(a) <= tdiv(a * k, d) <= iabs(a),
{
    assert(-(iabs(a) * d) <= a * k <= iabs(a) * d) by (nonlinear_arith)
        requires d >= 1 && 0 <= k <= d,
    ;
    assert(iabs(a) * d >= 0) by (nonlinear_arith)
        requires d >= 1 && iabs(a) >= 0,
    ;
    lemma_tdiv_abs_le(a * k, d, iabs(a) * d);
    assert((iabs(a) * d) / d == iabs(a)) by {
        assert(iabs(a) * d == d * iabs(a)) by (nonlinear_arith);
        vstd::arithmetic::div_mod::lemma_div_multiples_vanish(iabs(a), d);
    }
}

/// Truncating division commutes with negation of the dividend.
pub proof fn lemma_tdiv_neg(a: int, d: int)
    requires
        d >= 1,
    ensures
        tdiv(-a, d) == -tdiv(a, d),
{
}

/// Halving a nonnegative value keeps it nonnegative and no larger.
pub proof fn lemma_half_bounds(s: int)
    requires
        0 <= s,
    ensures
        0 <= s / 2 <= s,
        2 * (s / 2) <= s,
{
    vstd::arithmetic::div_mod::lemma_fundamental_div_mod(s, 2);
    vstd::arithmetic::div_mod::lemma_mod_bound(s, 2);
}

/// Executable truncating division on `i128`.
pub fn tdiv_i128(a: i128, d: i128) -> (q: i128)
    requires
        1 <= d,
        a > i128::MIN,
    ensures
        q == tdiv(a as int, d as int),
{
    if a >= 0 {
        let au: u128 = a as u128;
        let du: u128 = d as u128;
        let qu: u128 = au / du;
        assert(qu <= au);
        qu as i128
    } else {
        let au: u128 = (-a) as u128;
        let du: u128 = d as u128;
        let qu: u128 = au / du;
        assert(qu <= au);
        -(qu as i128)
    }
}

/// Executable floor square root.
pub fn isqrt_u128(n: u128) -> (r: u128)
    ensures
        r == sqrt_floor(n as nat),
        r * r <= n,
        n < (r + 1) * (r + 1),
{
    let mut lo: u128 = 0;
    let mut hi: u128 = 0xFFFF_FFFF_FFFF_FFFF;
    while lo < hi
        invariant
            0 <= lo <= hi <= 0xFFFF_FFFF_FFFF_FFFF,
            lo * lo <= n,
            n < (hi + 1) * (hi + 1),
        decreases hi - lo,
    {
        let mid: u128 = (lo + hi + 1) / 2;
        assert(lo < mid <= hi);
        assert(mid * mid <= 0xFFFF_FFFF_FFFF_FFFF * 0xFFFF_FFFF_FFFF_FFFF) by (nonlinear_arith)
            requires mid <= 0xFFFF_FFFF_FFFF_FFFFu128,
        ;
        if mid * mid <= n {
            lo = mid;
        } else {
            hi = mid - 1;
        }
    }
    proof {
        lemma_sqrt_floor_unique(n as nat, lo as nat);
    }
    lo
}

} // verus!
