//! Fixed-point scalars.
//!
//! Every scalar of the tracer (a coordinate, a distance, a colour channel) is
//! an `i64` that counts units of `1 / ONE`. Products and quotients are
//! rounded towards negative infinity, so each operation has an exact
//! statement over the integers.

use vstd::arithmetic::div_mod::lemma_fundamental_div_mod_converse;
use vstd::prelude::*;

verus! {

/// The scalar one.
pub const ONE: i64 = 65536;

/// The largest magnitude of a position, a sphere's centre or its radius.
pub const WORLD_MAX: i64 = 0x10_0000_0000;

/// The largest magnitude of a ray's origin: a camera position inside the
/// world plus the reach of every bounce.
pub const ORIGIN_MAX: i64 = 0x20_0000_0000;

/// The largest magnitude of a component of a ray's direction.
pub const DIRECTION_MAX: i64 = 0x10_0000;

/// The largest parametric distance a clip range may end at.
pub const CLIP_MAX: i64 = 0x8000_0000;

/// The product of two scalars, rounded down.
pub open spec fn mul_floor(a: int, b: int) -> int {
    (a * b) / (ONE as int)
}

/// Whether `r` is the integer square root of `n`.
pub open spec fn is_sqrt_floor(n: int, r: int) -> bool {
    0 <= r && r * r <= n < (r + 1) * (r + 1)
}

/// The integer square root of a non-negative number.
pub open spec fn sqrt_floor(n: int) -> int
    recommends
        n >= 0,
{
    choose|r: int| is_sqrt_floor(n, r)
}

/// Every non-negative number has an integer square root, and `sqrt_floor`
/// is it.
pub proof fn lemma_sqrt_floor(n: int)
    requires
        n >= 0,
    ensures
        is_sqrt_floor(n, sqrt_floor(n)),
    decreases n,
{
    if n == 0 {
        assert(is_sqrt_floor(0, 0));
    } else {
        lemma_sqrt_floor(n - 1);
        let r = sqrt_floor(n - 1);
        if n < (r + 1) * (r + 1) {
            assert(is_sqrt_floor(n, r));
        } else {
            assert(is_sqrt_floor(n, r + 1)) by (nonlinear_arith)
                requires
                    0 <= r,
                    r * r <= n - 1 < (r + 1) * (r + 1),
                    n >= (r + 1) * (r + 1),
            ;
        }
    }
}

/// Two integer square roots of one number are the same number.
pub proof fn lemma_sqrt_floor_unique(n: int, r: int, s: int)
    requires
        is_sqrt_floor(n, r),
        is_sqrt_floor(n, s),
    ensures
        r == s,
{
    if r < s {
        assert((r + 1) * (r + 1) <= s * s) by (nonlinear_arith)
            requires
                0 <= r,
                r + 1 <= s,
        ;
    }
    if s < r {
        assert((s + 1) * (s + 1) <= r * r) by (nonlinear_arith)
            requires
                0 <= s,
                s + 1 <= r,
        ;
    }
}

/// `n / d` rounded towards negative infinity.
pub fn floor_div(n: i128, d: i128) -> (q: i128)
    requires
        d > 0,
        n > i128::MIN,
    ensures
        q == n as int / d as int,
{
    if n >= 0 {
        n / d
    } else {
        let m: i128 = -n;
        let below: i128 = (m - 1) / d;
        proof {
            let rem: int = (m - 1) as int % d as int;
            assert(m - 1 == below * d + rem) by {
                vstd::arithmetic::div_mod::lemma_fundamental_div_mod((m - 1) as int, d as int);
                assert(below * d == d * below) by (nonlinear_arith);
            }
            assert(n as int == (-below - 1) * d + (d - 1 - rem)) by (nonlinear_arith)
                requires
                    m - 1 == below * d + rem,
                    n == -m,
            ;
            lemma_fundamental_div_mod_converse(n as int, d as int, -below - 1, d - 1 - rem);
        }
        -below - 1
    }
}

/// A quotient lies between the bounds of its numerator, taken per unit of the
/// divisor.
pub proof fn lemma_div_range(n: int, d: int, low: int, high: int)
    requires
        d > 0,
        low * d <= n <= high * d,
    ensures
        low <= n / d <= high,
{
    let q = n / d;
    let r = n % d;
    vstd::arithmetic::div_mod::lemma_fundamental_div_mod(n, d);
    assert(q <= high) by (nonlinear_arith)
        requires
            d > 0,
            n == d * q + r,
            0 <= r,
            n <= high * d,
    ;
    assert(q >= low) by (nonlinear_arith)
        requires
            d > 0,
            n == d * q + r,
            r < d,
            low * d <= n,
    ;
}

/// A quotient is as bounded in magnitude as its numerator is, per unit of the
/// divisor.
pub proof fn lemma_div_bound(n: int, d: int, k: int)
    requires
        d > 0,
        -k * d <= n <= k * d,
    ensures
        -k <= n / d <= k,
{
    assert((-k) * d == -k * d) by (nonlinear_arith);
    lemma_div_range(n, d, -k, k);
}

/// The product of two words of 64 bits fits in 128 bits with room to spare.
pub proof fn lemma_product_fits(a: i64, b: i64)
    ensures
        -0x4000_0000_0000_0000_0000_0000_0000_0000 <= a * b
            <= 0x4000_0000_0000_0000_0000_0000_0000_0000,
{
    assert(-0x4000_0000_0000_0000_0000_0000_0000_0000 <= a * b
        <= 0x4000_0000_0000_0000_0000_0000_0000_0000) by (nonlinear_arith)
        requires
            -0x8000_0000_0000_0000 <= a <= 0x8000_0000_0000_0000,
            -0x8000_0000_0000_0000 <= b <= 0x8000_0000_0000_0000,
    ;
}

/// The product of two scalars, rounded down.
pub fn mul_fixed(a: i64, b: i64) -> (r: i64)
    requires
        i64::MIN <= mul_floor(a as int, b as int) <= i64::MAX,
    ensures
        r == mul_floor(a as int, b as int),
{
    proof {
        lemma_product_fits(a, b);
    }
    let product: i128 = (a as i128) * (b as i128);
    floor_div(product, ONE as i128) as i64
}

/// A product stays within the product of the bounds of its factors.
pub proof fn lemma_product_within(a: int, b: int, bound_a: int, bound_b: int)
    requires
        -bound_a <= a <= bound_a,
        -bound_b <= b <= bound_b,
    ensures
        -(bound_a * bound_b) <= a * b <= bound_a * bound_b,
{
    assert(-(bound_a * bound_b) <= a * b <= bound_a * bound_b) by (nonlinear_arith)
        requires
            -bound_a <= a <= bound_a,
            -bound_b <= b <= bound_b,
    ;
}

/// The rounded product of two scalars stays within the rounded product of
/// their bounds.
pub proof fn lemma_mul_floor_within(a: int, b: int, bound_a: int, bound_b: int)
    requires
        -bound_a <= a <= bound_a,
        -bound_b <= b <= bound_b,
        (bound_a * bound_b) % (ONE as int) == 0,
    ensures
        -((bound_a * bound_b) / (ONE as int)) <= mul_floor(a, b) <= (bound_a * bound_b) / (
        ONE as int),
{
    lemma_product_within(a, b, bound_a, bound_b);
    let k = (bound_a * bound_b) / (ONE as int);
    vstd::arithmetic::div_mod::lemma_fundamental_div_mod(bound_a * bound_b, ONE as int);
    lemma_div_bound(a * b, ONE as int, k);
}

/// The integer square root.
pub fn isqrt(n: u128) -> (r: u128)
    ensures
        is_sqrt_floor(n as int, r as int),
        r == sqrt_floor(n as int),
        r < 0x1_0000_0000_0000_0000,
{
    let mut low: u128 = 0;
    let mut high: u128 = 0x1_0000_0000_0000_0000;
    assert(n < high * high) by (nonlinear_arith)
        requires
            high == 0x1_0000_0000_0000_0000,
            n <= u128::MAX,
    ;
    while high - low > 1
        invariant
            low < high <= 0x1_0000_0000_0000_0000,
            low * low <= n < high * high,
        decreases high - low,
    {
        let mid: u128 = low + (high - low) / 2;
        assert(mid * mid <= 0xffff_ffff_ffff_ffff * 0xffff_ffff_ffff_ffff) by (nonlinear_arith)
            requires
                0 <= mid <= 0xffff_ffff_ffff_ffff,
        ;
        if mid * mid <= n {
            low = mid;
        } else {
            high = mid;
        }
    }
    proof {
        assert(high == low + 1);
        lemma_sqrt_floor_unique(n as int, low as int, sqrt_floor(n as int));
    }
    low
}

} // verus!
