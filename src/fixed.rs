// Fixed-point scalars: world units scaled by SCALE and held in i64, with
// wide intermediates, clamping to a fixed range, and an exact integer square root.
use vstd::prelude::*;
use vstd::arithmetic::div_mod::{lemma_div_by_multiple, lemma_div_is_ordered, lemma_div_pos_is_pos};

verus! {

/// Number of fixed-point units in one world unit.
pub const SCALE: i64 = 1_000_000;

/// Largest magnitude a fixed-point value may take; results are clamped into
/// `[-LIMIT, LIMIT]`.
pub const LIMIT: i64 = 100_000_000_000_000_000;

/// `v` clamped into the representable range.
pub open spec fn clamp_spec(v: int) -> int {
    if v > LIMIT as int {
        LIMIT as int
    } else if v < -(LIMIT as int) {
        -(LIMIT as int)
    } else {
        v
    }
}

pub open spec fn in_range(v: int) -> bool {
    -(LIMIT as int) <= v <= LIMIT as int
}

/// Truncating division of `a` by a positive `b`, as integer hardware does it.
pub open spec fn div_trunc_spec(a: int, b: int) -> int {
    if a >= 0 {
        a / b
    } else {
        -((-a) / b)
    }
}

/// A quotient is bounded by the bound of the dividend over the divisor.
pub proof fn lemma_div_trunc_bound(a: int, b: int, m: int)
    requires
        b > 0,
        m >= 0,
        -m * b <= a <= m * b,
    ensures
        -m <= div_trunc_spec(a, b) <= m,
{
    lemma_div_by_multiple(m, b);
    assert(-m * b == -(m * b)) by (nonlinear_arith);
    if a >= 0 {
        lemma_div_is_ordered(a, m * b, b);
        lemma_div_pos_is_pos(a, b);
    } else {
        lemma_div_is_ordered(-a, m * b, b);
        lemma_div_pos_is_pos(-a, b);
    }
}

/// Division of `a` by a positive `b`, rounded up.
pub open spec fn div_ceil_spec(a: int, b: int) -> int {
    if a >= 0 {
        (a + b - 1) / b
    } else {
        -((-a) / b)
    }
}

/// Division of `a` by a positive `b`, rounded up.
pub fn div_ceil(a: i128, b: i128) -> (r: i128)
    requires
        b > 0,
        a > i128::MIN,
        a < i128::MAX - b,
    ensures
        r as int == div_ceil_spec(a as int, b as int),
        a > 0 ==> r >= 1,
{
    if a >= 0 {
        proof {
            if a > 0 {
                lemma_div_is_ordered(b as int, a + b - 1, b as int);
                lemma_div_by_multiple(1, b as int);
            }
        }
        (a + b - 1) / b
    } else {
        let n: i128 = -a;
        -(n / b)
    }
}

/// Clamps a wide intermediate into the representable range.
pub fn clamp_wide(v: i128) -> (r: i64)
    ensures
        r as int == clamp_spec(v as int),
{
    if v > LIMIT as i128 {
        LIMIT
    } else if v < -(LIMIT as i128) {
        -LIMIT
    } else {
        v as i64
    }
}

/// Truncating division of `a` by a positive `b`.
pub fn div_trunc(a: i128, b: i128) -> (r: i128)
    requires
        b > 0,
        a > i128::MIN,
    ensures
        r as int == div_trunc_spec(a as int, b as int),
{
    if a >= 0 {
        a / b
    } else {
        let n: i128 = -a;
        -(n / b)
    }
}

/// The largest `r` with `r * r <= n`.
pub open spec fn floor_sqrt(n: nat) -> nat
    decreases n,
{
    if n == 0 {
        0
    } else {
        let r = floor_sqrt((n - 1) as nat);
        if (r + 1) * (r + 1) <= n {
            r + 1
        } else {
            r
        }
    }
}

pub proof fn lemma_floor_sqrt(n: nat)
    ensures
        floor_sqrt(n) * floor_sqrt(n) <= n,
        n < (floor_sqrt(n) + 1) * (floor_sqrt(n) + 1),
    decreases n,
{
    if n > 0 {
        lemma_floor_sqrt((n - 1) as nat);
        let r = floor_sqrt((n - 1) as nat);
        let f = floor_sqrt(n);
        if (r + 1) * (r + 1) <= n {
            assert(f == r + 1);
            assert(n < (f + 1) * (f + 1)) by (nonlinear_arith)
                requires f == r + 1, n - 1 < (r + 1) * (r + 1);
        } else {
            assert(f == r);
            assert(r * r <= n);
            assert(n < (f + 1) * (f + 1));
        }
    } else {
        let f = floor_sqrt(n);
        assert(f == 0);
        assert(f * f <= n && n < (f + 1) * (f + 1)) by (nonlinear_arith)
            requires f == 0, n == 0;
    }
}

/// Only one integer root brackets `n`.
pub proof fn lemma_floor_sqrt_unique(n: nat, r: nat)
    requires
        r * r <= n,
        n < (r + 1) * (r + 1),
    ensures
        floor_sqrt(n) == r,
{
    lemma_floor_sqrt(n);
    let f = floor_sqrt(n);
    if f < r {
        assert((f + 1) * (f + 1) <= r * r) by (nonlinear_arith)
            requires f + 1 <= r;
    } else if r < f {
        assert((r + 1) * (r + 1) <= f * f) by (nonlinear_arith)
            requires r + 1 <= f;
    }
}

/// Bound below which squared lengths are taken.
pub const SQRT_DOMAIN: u128 = 0x10_0000_0000_0000_0000_0000_0000_0000;

/// Integer square root by bisection.
pub fn isqrt(n: u128) -> (r: u64)
    requires
        n < SQRT_DOMAIN,
    ensures
        r as nat == floor_sqrt(n as nat),
        r <= 0x400_0000_0000_0000u64,
{
    let mut lo: u128 = 0;
    let mut hi: u128 = 0x400_0000_0000_0000;
    assert(hi * hi == SQRT_DOMAIN);
    while hi - lo > 1
        invariant
            lo < hi <= 0x400_0000_0000_0000,
            lo * lo <= n,
            n < hi * hi,
        decreases hi - lo,
    {
        let mid: u128 = lo + (hi - lo) / 2;
        assert(mid * mid <= hi * hi) by (nonlinear_arith)
            requires mid < hi;
        assert(hi * hi <= SQRT_DOMAIN) by (nonlinear_arith)
            requires hi <= 0x400_0000_0000_0000;
        if mid * mid <= n {
            lo = mid;
        } else {
            hi = mid;
        }
    }
    proof {
        lemma_floor_sqrt_unique(n as nat, lo as nat);
    }
    lo as u64
}

/// Fixed-point product, clamped.
pub open spec fn mul_spec(a: int, b: int) -> int {
    clamp_spec(div_trunc_spec(a * b, SCALE as int))
}

/// Fixed-point quotient by a positive divisor, clamped.
pub open spec fn div_spec(a: int, b: int) -> int {
    clamp_spec(div_trunc_spec(a * SCALE, b))
}

/// Sum, clamped.
pub open spec fn add_spec(a: int, b: int) -> int {
    clamp_spec(a + b)
}

pub proof fn lemma_mul_bound(a: int, b: int)
    requires
        in_range(a),
        in_range(b),
    ensures
        -(LIMIT as int) * (LIMIT as int) <= a * b <= (LIMIT as int) * (LIMIT as int),
{
    let l = LIMIT as int;
    assert(-l * l <= a * b <= l * l) by (nonlinear_arith)
        requires -l <= a <= l, -l <= b <= l, l > 0;
}

pub fn fx_add(a: i64, b: i64) -> (r: i64)
    requires
        in_range(a as int),
        in_range(b as int),
    ensures
        r as int == add_spec(a as int, b as int),
{
    clamp_wide(a as i128 + b as i128)
}

pub fn fx_mul(a: i64, b: i64) -> (r: i64)
    requires
        in_range(a as int),
        in_range(b as int),
    ensures
        r as int == mul_spec(a as int, b as int),
{
    proof {
        lemma_mul_bound(a as int, b as int);
    }
    let p: i128 = a as i128 * b as i128;
    clamp_wide(div_trunc(p, SCALE as i128))
}

pub fn fx_div(a: i64, b: i64) -> (r: i64)
    requires
        in_range(a as int),
        b > 0,
    ensures
        r as int == div_spec(a as int, b as int),
{
    let p: i128 = a as i128 * SCALE as i128;
    clamp_wide(div_trunc(p, b as i128))
}

} // verus!
