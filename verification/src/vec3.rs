//! Three-component vectors of fixed-point scalars: points, directions and
//! colours.

use crate::fixed::{
    floor_div, isqrt, lemma_div_bound, lemma_product_within, mul_fixed, mul_floor, sqrt_floor,
    ONE,
};
use vstd::prelude::*;

verus! {

/// The largest magnitude of a component that `try_normalize` accepts.
pub const NORMALIZE_MAX: i64 = 0x4000_0000_0000;

/// The largest magnitude of a component up to which `try_normalize`
/// stretches a vector before it measures it, so that short vectors lose no
/// precision.
pub const STRETCH_MAX: i64 = 0x4000_0000;

/// The largest magnitude of a component that `cross` accepts.
pub const CROSS_MAX: i64 = 0x40_0000_0000;

/// The largest magnitude of a component that `cross_exact` accepts.
pub const EXACT_MAX: i64 = 0x40_0000;

/// The largest magnitude of a component that `dot` accepts.
pub const DOT_MAX: i64 = 0x4000_0000_0000_0000;

/// How far the squared length of a vector may lie from one for the vector to
/// count as normalized.
pub const NORMALIZED_SLACK: i128 = 858993;

/// A vector of three scalars.
#[derive(Clone, Copy, Debug, PartialEq, Eq, Structural)]
pub struct Vec3 {
    pub x: i64,
    pub y: i64,
    pub z: i64,
}

impl Vec3 {
    /// Whether every component lies in `-bound ..= bound`.
    pub open spec fn within(self, bound: int) -> bool {
        &&& -bound <= self.x <= bound
        &&& -bound <= self.y <= bound
        &&& -bound <= self.z <= bound
    }

    /// The sum of the products of the components, in units of `1 / ONE^2`.
    pub open spec fn dot_spec(self, other: Vec3) -> int {
        self.x * other.x + self.y * other.y + self.z * other.z
    }

    /// The squared length, in units of `1 / ONE^2`.
    pub open spec fn length_squared_spec(self) -> int {
        self.dot_spec(self)
    }

    /// The component-wise sum.
    pub open spec fn plus_spec(self, other: Vec3) -> Vec3 {
        Vec3 {
            x: (self.x + other.x) as i64,
            y: (self.y + other.y) as i64,
            z: (self.z + other.z) as i64,
        }
    }

    /// The component-wise difference.
    pub open spec fn minus_spec(self, other: Vec3) -> Vec3 {
        Vec3 {
            x: (self.x - other.x) as i64,
            y: (self.y - other.y) as i64,
            z: (self.z - other.z) as i64,
        }
    }

    /// The opposite vector.
    pub open spec fn negated_spec(self) -> Vec3 {
        Vec3 { x: (-self.x) as i64, y: (-self.y) as i64, z: (-self.z) as i64 }
    }

    /// Every component multiplied by the scalar `factor`, rounded down.
    pub open spec fn scaled_spec(self, factor: i64) -> Vec3 {
        Vec3 {
            x: mul_floor(self.x as int, factor as int) as i64,
            y: mul_floor(self.y as int, factor as int) as i64,
            z: mul_floor(self.z as int, factor as int) as i64,
        }
    }

    /// The component-wise product, rounded down.
    pub open spec fn times_spec(self, other: Vec3) -> Vec3 {
        Vec3 {
            x: mul_floor(self.x as int, other.x as int) as i64,
            y: mul_floor(self.y as int, other.y as int) as i64,
            z: mul_floor(self.z as int, other.z as int) as i64,
        }
    }

    /// Every component divided by the whole number `count`, rounded down.
    pub open spec fn divided_spec(self, count: int) -> Vec3 {
        Vec3 {
            x: (self.x as int / count) as i64,
            y: (self.y as int / count) as i64,
            z: (self.z as int / count) as i64,
        }
    }

    /// The cross product, each component rounded down.
    pub open spec fn cross_spec(self, other: Vec3) -> Vec3 {
        Vec3 {
            x: cross_term_spec(self.y as int, other.z as int, self.z as int, other.y as int) as i64,
            y: cross_term_spec(self.z as int, other.x as int, self.x as int, other.z as int) as i64,
            z: cross_term_spec(self.x as int, other.y as int, self.y as int, other.x as int) as i64,
        }
    }

    /// The cross product without rounding, in units of `1 / ONE^2`.
    pub open spec fn cross_exact_spec(self, other: Vec3) -> Vec3 {
        Vec3 {
            x: (self.y * other.z - self.z * other.y) as i64,
            y: (self.z * other.x - self.x * other.z) as i64,
            z: (self.x * other.y - self.y * other.x) as i64,
        }
    }

    /// The floor of the length, in units of `1 / ONE`.
    pub open spec fn length_spec(self) -> int {
        sqrt_floor(self.length_squared_spec())
    }

    /// Whether the vector is the zero vector.
    pub open spec fn is_zero(self) -> bool {
        self.x == 0 && self.y == 0 && self.z == 0
    }

    /// The vector that is measured in place of this one when it is
    /// normalized: the vector itself if it is long, else `ONE` times it,
    /// which has the same direction.
    pub open spec fn stretched_spec(self) -> Vec3 {
        if self.within(STRETCH_MAX as int) {
            Vec3 { x: (self.x * ONE) as i64, y: (self.y * ONE) as i64, z: (self.z * ONE) as i64 }
        } else {
            self
        }
    }

    /// The direction of the vector: the stretched vector divided by the
    /// floor of its length, each component rounded down. The zero vector has
    /// none.
    pub open spec fn try_normalize_spec(self) -> Option<Vec3> {
        let v = self.stretched_spec();
        let length = v.length_spec();
        if length == 0 {
            None
        } else {
            Some(
                Vec3 {
                    x: ((v.x * ONE) / length) as i64,
                    y: ((v.y * ONE) / length) as i64,
                    z: ((v.z * ONE) / length) as i64,
                },
            )
        }
    }

    /// Whether the squared length is one up to what the rounding of
    /// `try_normalize` takes: at most six units less, at most eight units and
    /// a little more.
    pub open spec fn is_unit_spec(self) -> bool {
        ONE * ONE - 6 * ONE <= self.length_squared_spec() <= ONE * ONE + 8 * ONE + 4
    }

    /// Whether the squared length is one up to `NORMALIZED_SLACK`.
    pub open spec fn is_normalized_spec(self) -> bool {
        ONE * ONE - NORMALIZED_SLACK <= self.length_squared_spec() <= ONE * ONE + NORMALIZED_SLACK
    }

    pub fn new(x: i64, y: i64, z: i64) -> (r: Vec3)
        ensures
            r == (Vec3 { x, y, z }),
    {
        Vec3 { x, y, z }
    }

    /// The vector whose three components are `value`.
    pub fn splat(value: i64) -> (r: Vec3)
        ensures
            r == (Vec3 { x: value, y: value, z: value }),
    {
        Vec3 { x: value, y: value, z: value }
    }

    /// Tells whether every component lies in `-bound ..= bound`.
    pub fn is_within(&self, bound: i64) -> (r: bool)
        requires
            bound >= 0,
        ensures
            r == self.within(bound as int),
    {
        -bound <= self.x && self.x <= bound && -bound <= self.y && self.y <= bound && -bound
            <= self.z && self.z <= bound
    }

    pub fn plus(self, other: Vec3) -> (r: Vec3)
        requires
            i64::MIN <= self.x + other.x <= i64::MAX,
            i64::MIN <= self.y + other.y <= i64::MAX,
            i64::MIN <= self.z + other.z <= i64::MAX,
        ensures
            r == self.plus_spec(other),
    {
        Vec3 { x: self.x + other.x, y: self.y + other.y, z: self.z + other.z }
    }

    pub fn minus(self, other: Vec3) -> (r: Vec3)
        requires
            i64::MIN <= self.x - other.x <= i64::MAX,
            i64::MIN <= self.y - other.y <= i64::MAX,
            i64::MIN <= self.z - other.z <= i64::MAX,
        ensures
            r == self.minus_spec(other),
    {
        Vec3 { x: self.x - other.x, y: self.y - other.y, z: self.z - other.z }
    }

    pub fn negated(self) -> (r: Vec3)
        requires
            self.x > i64::MIN,
            self.y > i64::MIN,
            self.z > i64::MIN,
        ensures
            r == self.negated_spec(),
    {
        Vec3 { x: -self.x, y: -self.y, z: -self.z }
    }

    pub fn scaled(self, factor: i64) -> (r: Vec3)
        requires
            i64::MIN <= mul_floor(self.x as int, factor as int) <= i64::MAX,
            i64::MIN <= mul_floor(self.y as int, factor as int) <= i64::MAX,
            i64::MIN <= mul_floor(self.z as int, factor as int) <= i64::MAX,
        ensures
            r == self.scaled_spec(factor),
    {
        Vec3 {
            x: mul_fixed(self.x, factor),
            y: mul_fixed(self.y, factor),
            z: mul_fixed(self.z, factor),
        }
    }

    pub fn times(self, other: Vec3) -> (r: Vec3)
        requires
            i64::MIN <= mul_floor(self.x as int, other.x as int) <= i64::MAX,
            i64::MIN <= mul_floor(self.y as int, other.y as int) <= i64::MAX,
            i64::MIN <= mul_floor(self.z as int, other.z as int) <= i64::MAX,
        ensures
            r == self.times_spec(other),
    {
        Vec3 {
            x: mul_fixed(self.x, other.x),
            y: mul_fixed(self.y, other.y),
            z: mul_fixed(self.z, other.z),
        }
    }

    pub fn divided(self, count: u64) -> (r: Vec3)
        requires
            count > 0,
        ensures
            r == self.divided_spec(count as int),
    {
        proof {
            lemma_div_bound(self.x as int, count as int, 0x8000_0000_0000_0000);
            lemma_div_bound(self.y as int, count as int, 0x8000_0000_0000_0000);
            lemma_div_bound(self.z as int, count as int, 0x8000_0000_0000_0000);
            assert(0x8000_0000_0000_0000 * (count as int) >= 0x8000_0000_0000_0000)
                by (nonlinear_arith)
                requires
                    count >= 1,
            ;
        }
        let x: i128 = floor_div(self.x as i128, count as i128);
        let y: i128 = floor_div(self.y as i128, count as i128);
        let z: i128 = floor_div(self.z as i128, count as i128);
        proof {
            // A floor of a quotient by a positive count never leaves the range
            // of the numerator.
            vstd::arithmetic::div_mod::lemma_div_is_ordered(
                self.x as int,
                i64::MAX as int,
                count as int,
            );
            vstd::arithmetic::div_mod::lemma_div_is_ordered(
                self.y as int,
                i64::MAX as int,
                count as int,
            );
            vstd::arithmetic::div_mod::lemma_div_is_ordered(
                self.z as int,
                i64::MAX as int,
                count as int,
            );
            vstd::arithmetic::div_mod::lemma_div_is_ordered_by_denominator(
                i64::MAX as int,
                1,
                count as int,
            );
        }
        Vec3 { x: x as i64, y: y as i64, z: z as i64 }
    }

    pub fn dot(self, other: Vec3) -> (r: i128)
        requires
            self.within(DOT_MAX as int),
            other.within(DOT_MAX as int),
        ensures
            r == self.dot_spec(other),
    {
        proof {
            lemma_product_within(self.x as int, other.x as int, DOT_MAX as int, DOT_MAX as int);
            lemma_product_within(self.y as int, other.y as int, DOT_MAX as int, DOT_MAX as int);
            lemma_product_within(self.z as int, other.z as int, DOT_MAX as int, DOT_MAX as int);
        }
        let xx: i128 = (self.x as i128) * (other.x as i128);
        let yy: i128 = (self.y as i128) * (other.y as i128);
        let zz: i128 = (self.z as i128) * (other.z as i128);
        xx + yy + zz
    }

    pub fn length_squared(self) -> (r: i128)
        requires
            self.within(DOT_MAX as int),
        ensures
            r == self.length_squared_spec(),
            r >= 0,
    {
        proof {
            lemma_length_squared_bounds(self, DOT_MAX as int);
        }
        self.dot(self)
    }

    pub fn cross(self, other: Vec3) -> (r: Vec3)
        requires
            self.within(CROSS_MAX as int),
            other.within(CROSS_MAX as int),
        ensures
            r == self.cross_spec(other),
    {
        Vec3 {
            x: cross_term(self.y, other.z, self.z, other.y),
            y: cross_term(self.z, other.x, self.x, other.z),
            z: cross_term(self.x, other.y, self.y, other.x),
        }
    }

    /// The cross product without rounding, in units of `1 / ONE^2`.
    pub fn cross_exact(self, other: Vec3) -> (r: Vec3)
        requires
            self.within(EXACT_MAX as int),
            other.within(EXACT_MAX as int),
        ensures
            r == self.cross_exact_spec(other),
            r.within(NORMALIZE_MAX as int),
    {
        proof {
            lemma_product_within(self.y as int, other.z as int, 0x40_0000, 0x40_0000);
            lemma_product_within(self.z as int, other.y as int, 0x40_0000, 0x40_0000);
            lemma_product_within(self.z as int, other.x as int, 0x40_0000, 0x40_0000);
            lemma_product_within(self.x as int, other.z as int, 0x40_0000, 0x40_0000);
            lemma_product_within(self.x as int, other.y as int, 0x40_0000, 0x40_0000);
            lemma_product_within(self.y as int, other.x as int, 0x40_0000, 0x40_0000);
        }
        Vec3 {
            x: self.y * other.z - self.z * other.y,
            y: self.z * other.x - self.x * other.z,
            z: self.x * other.y - self.y * other.x,
        }
    }

    /// The direction of the vector: a normalized vector along it. Only the
    /// zero vector has none.
    pub fn try_normalize(self) -> (r: Option<Vec3>)
        requires
            self.within(NORMALIZE_MAX as int),
        ensures
            r == self.try_normalize_spec(),
            r is None <==> self.is_zero(),
            r matches Some(n) ==> n.within(ONE as int) && n.is_normalized_spec()
                && n.is_unit_spec(),
    {
        proof {
            lemma_try_normalize(self);
        }
        let v = if self.is_within(STRETCH_MAX) {
            Vec3 { x: self.x * ONE, y: self.y * ONE, z: self.z * ONE }
        } else {
            self
        };
        let squared: i128 = v.length_squared();
        let length: i128 = isqrt(squared as u128) as i128;
        if length == 0 {
            None
        } else {
            proof {
                lemma_component_below_length(v, length as int);
                lemma_div_bound(v.x * ONE, length as int, ONE as int);
                lemma_div_bound(v.y * ONE, length as int, ONE as int);
                lemma_div_bound(v.z * ONE, length as int, ONE as int);
            }
            let x: i128 = floor_div((v.x as i128) * (ONE as i128), length);
            let y: i128 = floor_div((v.y as i128) * (ONE as i128), length);
            let z: i128 = floor_div((v.z as i128) * (ONE as i128), length);
            Some(Vec3 { x: x as i64, y: y as i64, z: z as i64 })
        }
    }

    pub fn is_normalized(self) -> (r: bool)
        requires
            self.within(DOT_MAX as int),
        ensures
            r == self.is_normalized_spec(),
    {
        let squared: i128 = self.length_squared();
        let one: i128 = 0x1_0000_0000;
        one - NORMALIZED_SLACK <= squared && squared <= one + NORMALIZED_SLACK
    }

} // impl

/// One term of a cross product: `(a * b - c * d) / ONE`, rounded down.
pub open spec fn cross_term_spec(a: int, b: int, c: int, d: int) -> int {
    (a * b - c * d) / (ONE as int)
}

fn cross_term(a: i64, b: i64, c: i64, d: i64) -> (r: i64)
    requires
        -CROSS_MAX <= a <= CROSS_MAX,
        -CROSS_MAX <= b <= CROSS_MAX,
        -CROSS_MAX <= c <= CROSS_MAX,
        -CROSS_MAX <= d <= CROSS_MAX,
    ensures
        r == cross_term_spec(a as int, b as int, c as int, d as int),
{
    proof {
        lemma_product_within(a as int, b as int, CROSS_MAX as int, CROSS_MAX as int);
        lemma_product_within(c as int, d as int, CROSS_MAX as int, CROSS_MAX as int);
        assert(CROSS_MAX * CROSS_MAX == 0x1000_0000_0000_0000_0000);
        lemma_div_bound(a * b - c * d, 65536, 0x2000_0000_0000_0000);
    }
    let difference: i128 = (a as i128) * (b as i128) - (c as i128) * (d as i128);
    floor_div(difference, ONE as i128) as i64
}

/// The squared length of a bounded vector is not negative and bounded.
pub proof fn lemma_length_squared_bounds(v: Vec3, bound: int)
    requires
        v.within(bound),
    ensures
        0 <= v.length_squared_spec() <= 3 * (bound * bound),
{
    assert(0 <= v.x * v.x <= bound * bound) by (nonlinear_arith)
        requires
            -bound <= v.x <= bound,
    ;
    assert(0 <= v.y * v.y <= bound * bound) by (nonlinear_arith)
        requires
            -bound <= v.y <= bound,
    ;
    assert(0 <= v.z * v.z <= bound * bound) by (nonlinear_arith)
        requires
            -bound <= v.z <= bound,
    ;
}

/// Every vector but the zero vector has a direction, and the direction is
/// normalized: rounding moves its squared length from one by no more than
/// `is_unit_spec` allows, which is less than `NORMALIZED_SLACK`.
pub proof fn lemma_try_normalize(v: Vec3)
    requires
        v.within(NORMALIZE_MAX as int),
    ensures
        v.try_normalize_spec() is None <==> v.is_zero(),
        v.try_normalize_spec() matches Some(n) ==> n.is_normalized_spec() && n.is_unit_spec()
            && n.within(ONE as int),
{
    let w = v.stretched_spec();
    let s = w.length_squared_spec();
    assert(0 <= w.x * w.x && 0 <= w.y * w.y && 0 <= w.z * w.z) by (nonlinear_arith);
    crate::fixed::lemma_sqrt_floor(s);
    let l = w.length_spec();
    if v.is_zero() {
        assert(w.is_zero());
        assert(s == 0);
        assert(l == 0) by (nonlinear_arith)
            requires
                0 <= l,
                l * l <= 0,
        ;
    } else {
        // One component of the measured vector is at least one unit long, and
        // so is the vector.
        let most: int = if v.within(STRETCH_MAX as int) {
            if w.x != 0 {
                w.x as int
            } else if w.y != 0 {
                w.y as int
            } else {
                w.z as int
            }
        } else {
            if !(-STRETCH_MAX <= v.x <= STRETCH_MAX) {
                v.x as int
            } else if !(-STRETCH_MAX <= v.y <= STRETCH_MAX) {
                v.y as int
            } else {
                v.z as int
            }
        };
        assert(most >= 0x1_0000 || most <= -0x1_0000);
        assert(most == w.x || most == w.y || most == w.z);
        assert(s >= most * most);
        assert(most * most >= 0x1_0000 * 0x1_0000) by (nonlinear_arith)
            requires
                most >= 0x1_0000 || most <= -0x1_0000,
        ;
        assert(l >= 0x1_0000) by (nonlinear_arith)
            requires
                0 <= l,
                s < (l + 1) * (l + 1),
                s >= 0x1_0000 * 0x1_0000,
        ;
        lemma_quotient_is_normalized(w);
    }
}

/// A vector that is at least one unit long, divided by the floor of its
/// length, is normalized: rounding takes at most six units from the squared
/// length of the quotient and adds at most eight and a little more.
pub proof fn lemma_quotient_is_normalized(v: Vec3)
    requires
        v.length_spec() >= ONE,
    ensures
        ({
            let l = v.length_spec();
            let n = Vec3 {
                x: ((v.x * ONE) / l) as i64,
                y: ((v.y * ONE) / l) as i64,
                z: ((v.z * ONE) / l) as i64,
            };
            n.is_normalized_spec() && n.is_unit_spec() && n.within(ONE as int)
        }),
{
    let s = v.length_squared_spec();
    let l = v.length_spec();
    let one: int = ONE as int;
    assert(0 <= v.x * v.x && 0 <= v.y * v.y && 0 <= v.z * v.z) by (nonlinear_arith);
    crate::fixed::lemma_sqrt_floor(s);
    lemma_component_below_length(v, l);
    let qx = (v.x * one) / l;
    let qy = (v.y * one) / l;
    let qz = (v.z * one) / l;
    lemma_div_bound(v.x * one, l, one);
    lemma_div_bound(v.y * one, l, one);
    lemma_div_bound(v.z * one, l, one);
    // What rounding takes from each component.
    let ll = l * l;
    let room = one * ll;
    assert(ll > 0) by (nonlinear_arith)
        requires
            ll == l * l,
            l > 0,
    ;
    lemma_rounded_square(v.x as int, l, one);
    lemma_rounded_square(v.y as int, l, one);
    lemma_rounded_square(v.z as int, l, one);
    lemma_square_scaled(qx, l);
    lemma_square_scaled(qy, l);
    lemma_square_scaled(qz, l);
    lemma_square_scaled(v.x as int, one);
    lemma_square_scaled(v.y as int, one);
    lemma_square_scaled(v.z as int, one);
    let sum = qx * qx + qy * qy + qz * qz;
    assert(ll * sum == ll * (qx * qx) + ll * (qy * qy) + ll * (qz * qz)) by (nonlinear_arith)
        requires
            sum == qx * qx + qy * qy + qz * qz,
    ;
    let oo = one * one;
    assert(oo * s == oo * (v.x * v.x) + oo * (v.y * v.y) + oo * (v.z * v.z)) by (nonlinear_arith)
        requires
            s == v.x * v.x + v.y * v.y + v.z * v.z,
    ;
    assert(oo * s - 6 * room <= ll * sum <= oo * s + 6 * room + 3 * ll);
    assert((oo - 6 * one) * ll <= oo * s - 6 * room) by (nonlinear_arith)
        requires
            room == one * ll,
            ll <= s,
            oo == one * one,
            one == 65536,
    ;
    assert(oo * s + 6 * room + 3 * ll < (oo + 8 * one + 4) * ll) by (nonlinear_arith)
        requires
            room == one * ll,
            ll == l * l,
            oo == one * one,
            s < (l + 1) * (l + 1),
            l >= 0x1_0000,
            one == 65536,
    ;
    assert(oo - 6 * one <= sum) by (nonlinear_arith)
        requires
            (oo - 6 * one) * ll <= ll * sum,
            ll > 0,
    ;
    assert(sum < oo + 8 * one + 4) by (nonlinear_arith)
        requires
            ll * sum < (oo + 8 * one + 4) * ll,
            ll > 0,
    ;
}

/// The square of a multiple is the multiple of the square by the squared
/// factor.
proof fn lemma_square_scaled(a: int, k: int)
    ensures
        (k * a) * (k * a) == (k * k) * (a * a),
        (a * k) * (a * k) == (k * k) * (a * a),
{
    assert((k * a) * (k * a) == (k * k) * (a * a)) by (nonlinear_arith);
    assert((a * k) * (a * k) == (k * k) * (a * a)) by (nonlinear_arith);
}

/// The square of a quotient that was rounded down, times the squared
/// divisor, is the square of the numerator up to what rounding took.
proof fn lemma_rounded_square(v: int, l: int, one: int)
    requires
        l > 0,
        one > 0,
        -l <= v <= l,
    ensures
        (v * one) * (v * one) - 2 * (one * (l * l)) <= (l * ((v * one) / l)) * (l * ((v * one)
            / l)) <= (v * one) * (v * one) + 2 * (one * (l * l)) + l * l,
{
    let p = v * one;
    let q = p / l;
    let e = p % l;
    vstd::arithmetic::div_mod::lemma_fundamental_div_mod(p, l);
    assert(l * q == p - e);
    let square = (l * q) * (l * q);
    assert(square == p * p - 2 * (p * e) + e * e) by (nonlinear_arith)
        requires
            square == (l * q) * (l * q),
            l * q == p - e,
    ;
    assert(-(one * (l * l)) <= p * e <= one * (l * l)) by (nonlinear_arith)
        requires
            p == v * one,
            -l <= v <= l,
            0 <= e < l,
            one > 0,
    ;
    assert(0 <= e * e <= l * l) by (nonlinear_arith)
        requires
            0 <= e < l,
    ;
}

/// The exact cross product of two vectors is at right angles to both.
pub proof fn lemma_cross_exact_perpendicular(a: Vec3, b: Vec3)
    requires
        a.within(EXACT_MAX as int),
        b.within(EXACT_MAX as int),
    ensures
        a.cross_exact_spec(b).dot_spec(a) == 0,
        a.cross_exact_spec(b).dot_spec(b) == 0,
        a.cross_exact_spec(b).within(NORMALIZE_MAX as int),
{
    lemma_product_within(a.y as int, b.z as int, 0x40_0000, 0x40_0000);
    lemma_product_within(a.z as int, b.y as int, 0x40_0000, 0x40_0000);
    lemma_product_within(a.z as int, b.x as int, 0x40_0000, 0x40_0000);
    lemma_product_within(a.x as int, b.z as int, 0x40_0000, 0x40_0000);
    lemma_product_within(a.x as int, b.y as int, 0x40_0000, 0x40_0000);
    lemma_product_within(a.y as int, b.x as int, 0x40_0000, 0x40_0000);
    let (ax, ay, az) = (a.x as int, a.y as int, a.z as int);
    let (bx, by, bz) = (b.x as int, b.y as int, b.z as int);
    assert((ay * bz - az * by) * ax + (az * bx - ax * bz) * ay + (ax * by - ay * bx) * az == 0)
        by (nonlinear_arith);
    assert((ay * bz - az * by) * bx + (az * bx - ax * bz) * by + (ax * by - ay * bx) * bz == 0)
        by (nonlinear_arith);
}

/// The squared length of the exact cross product of two vectors is the
/// product of their squared lengths less the square of their product.
pub proof fn lemma_cross_exact_length(a: Vec3, b: Vec3)
    requires
        a.within(EXACT_MAX as int),
        b.within(EXACT_MAX as int),
    ensures
        a.cross_exact_spec(b).length_squared_spec() == a.length_squared_spec()
            * b.length_squared_spec() - a.dot_spec(b) * a.dot_spec(b),
{
    lemma_cross_exact_perpendicular(a, b);
    let (ax, ay, az) = (a.x as int, a.y as int, a.z as int);
    let (bx, by, bz) = (b.x as int, b.y as int, b.z as int);
    // the nine products of a component of one with a component of the other
    let (xx, xy, xz) = (ax * bx, ax * by, ax * bz);
    let (yx, yy, yz) = (ay * bx, ay * by, ay * bz);
    let (zx, zy, zz) = (az * bx, az * by, az * bz);
    assert(xx * yy == xy * yx) by (nonlinear_arith)
        requires
            xx == ax * bx,
            yy == ay * by,
            xy == ax * by,
            yx == ay * bx,
    ;
    assert(yy * zz == yz * zy) by (nonlinear_arith)
        requires
            yy == ay * by,
            zz == az * bz,
            yz == ay * bz,
            zy == az * by,
    ;
    assert(zz * xx == zx * xz) by (nonlinear_arith)
        requires
            zz == az * bz,
            xx == ax * bx,
            zx == az * bx,
            xz == ax * bz,
    ;
    lemma_product_within(ay, bz, 0x40_0000, 0x40_0000);
    lemma_product_within(az, by, 0x40_0000, 0x40_0000);
    lemma_product_within(az, bx, 0x40_0000, 0x40_0000);
    lemma_product_within(ax, bz, 0x40_0000, 0x40_0000);
    lemma_product_within(ax, by, 0x40_0000, 0x40_0000);
    lemma_product_within(ay, bx, 0x40_0000, 0x40_0000);
    let c = a.cross_exact_spec(b);
    assert(c.x == yz - zy && c.y == zx - xz && c.z == xy - yx);
    lemma_square_scaled(0, 1);
    let cross = (yz - zy) * (yz - zy) + (zx - xz) * (zx - xz) + (xy - yx) * (xy - yx);
    assert(c.length_squared_spec() == cross);
    assert(a.dot_spec(b) == xx + yy + zz);
    assert((yz - zy) * (yz - zy) == yz * yz - 2 * (yz * zy) + zy * zy) by (nonlinear_arith);
    assert((zx - xz) * (zx - xz) == zx * zx - 2 * (zx * xz) + xz * xz) by (nonlinear_arith);
    assert((xy - yx) * (xy - yx) == xy * xy - 2 * (xy * yx) + yx * yx) by (nonlinear_arith);
    let dot = xx + yy + zz;
    assert(dot * dot == xx * xx + yy * yy + zz * zz + 2 * (xx * yy) + 2 * (yy * zz) + 2 * (zz
        * xx)) by (nonlinear_arith)
        requires
            dot == xx + yy + zz,
    ;
    let (aa, bb) = (a.length_squared_spec(), b.length_squared_spec());
    lemma_squares_of_products(ax, bx, by, bz);
    lemma_squares_of_products(ay, bx, by, bz);
    lemma_squares_of_products(az, bx, by, bz);
    assert(aa * bb == (ax * ax) * bb + (ay * ay) * bb + (az * az) * bb) by (nonlinear_arith)
        requires
            aa == ax * ax + ay * ay + az * az,
    ;
    assert(aa * bb == xx * xx + xy * xy + xz * xz + yx * yx + yy * yy + yz * yz + zx * zx + zy
        * zy + zz * zz);
    assert(cross == aa * bb - dot * dot);
}

/// The square of one number times the squared length of a vector is the sum
/// of the squares of its products with the vector's components.
proof fn lemma_squares_of_products(a: int, x: int, y: int, z: int)
    ensures
        (a * a) * (x * x + y * y + z * z) == (a * x) * (a * x) + (a * y) * (a * y) + (a * z) * (a
            * z),
{
    assert((a * a) * (x * x + y * y + z * z) == (a * a) * (x * x) + (a * a) * (y * y) + (a * a)
        * (z * z)) by (nonlinear_arith);
    lemma_square_scaled(x, a);
    lemma_square_scaled(y, a);
    lemma_square_scaled(z, a);
}

/// The direction of a vector is at right angles to what the vector is at
/// right angles to, up to three units: that much rounding can take.
pub proof fn lemma_direction_perpendicular(v: Vec3, w: Vec3)
    requires
        v.within(NORMALIZE_MAX as int),
        !v.is_zero(),
        w.within(ONE as int),
        v.dot_spec(w) == 0,
    ensures
        v.try_normalize_spec() matches Some(n) && -3 * ONE <= n.dot_spec(w) <= 3 * ONE,
{
    lemma_try_normalize(v);
    let s = v.stretched_spec();
    let l = s.length_spec();
    let one: int = ONE as int;
    assert(0 <= s.x * s.x && 0 <= s.y * s.y && 0 <= s.z * s.z) by (nonlinear_arith);
    crate::fixed::lemma_sqrt_floor(s.length_squared_spec());
    lemma_component_below_length(s, l);
    assert(s.dot_spec(w) == 0) by {
        if v.within(STRETCH_MAX as int) {
            assert((v.x * one) * w.x == one * (v.x * w.x)) by (nonlinear_arith);
            assert((v.y * one) * w.y == one * (v.y * w.y)) by (nonlinear_arith);
            assert((v.z * one) * w.z == one * (v.z * w.z)) by (nonlinear_arith);
        }
    }
    assert(l > 0);
    let n = v.try_normalize_spec()->0;
    let (qx, qy, qz) = ((s.x * one) / l, (s.y * one) / l, (s.z * one) / l);
    let (rx, ry, rz) = ((s.x * one) % l, (s.y * one) % l, (s.z * one) % l);
    vstd::arithmetic::div_mod::lemma_fundamental_div_mod(s.x * one, l);
    vstd::arithmetic::div_mod::lemma_fundamental_div_mod(s.y * one, l);
    vstd::arithmetic::div_mod::lemma_fundamental_div_mod(s.z * one, l);
    lemma_div_bound(s.x * one, l, one);
    lemma_div_bound(s.y * one, l, one);
    lemma_div_bound(s.z * one, l, one);
    assert(n.x == qx && n.y == qy && n.z == qz);
    let dot = qx * w.x + qy * w.y + qz * w.z;
    lemma_perpendicular_term(l, qx, s.x * one, rx, w.x as int);
    lemma_perpendicular_term(l, qy, s.y * one, ry, w.y as int);
    lemma_perpendicular_term(l, qz, s.z * one, rz, w.z as int);
    assert(l * dot == l * (qx * w.x) + l * (qy * w.y) + l * (qz * w.z)) by (nonlinear_arith)
        requires
            dot == qx * w.x + qy * w.y + qz * w.z,
    ;
    assert((s.x * one) * w.x == one * (s.x * w.x)) by (nonlinear_arith);
    assert((s.y * one) * w.y == one * (s.y * w.y)) by (nonlinear_arith);
    assert((s.z * one) * w.z == one * (s.z * w.z)) by (nonlinear_arith);
    assert(one * (s.x * w.x) + one * (s.y * w.y) + one * (s.z * w.z) == 0);
    lemma_product_within(rx, w.x as int, l, one);
    lemma_product_within(ry, w.y as int, l, one);
    lemma_product_within(rz, w.z as int, l, one);
    assert(-3 * (l * one) <= l * dot <= 3 * (l * one));
    assert(-3 * one <= dot <= 3 * one) by (nonlinear_arith)
        requires
            -3 * (l * one) <= l * dot <= 3 * (l * one),
            l > 0,
    ;
}

/// What the divisor times one term of a product with a rounded quotient is.
proof fn lemma_perpendicular_term(l: int, q: int, p: int, r: int, w: int)
    requires
        p == l * q + r,
    ensures
        l * (q * w) == p * w - r * w,
{
    assert(l * (q * w) == (l * q) * w) by (nonlinear_arith);
    assert((p - r) * w == p * w - r * w) by (nonlinear_arith);
}

/// The direction of a vector points the way of the vector: their product is
/// positive.
pub proof fn lemma_direction_along(v: Vec3)
    requires
        v.within(NORMALIZE_MAX as int),
        !v.is_zero(),
    ensures
        v.try_normalize_spec() matches Some(n) && v.dot_spec(n) > 0,
{
    lemma_try_normalize(v);
    let s = v.stretched_spec();
    let l = s.length_spec();
    let n = v.try_normalize_spec()->0;
    assert(0 <= s.x * s.x && 0 <= s.y * s.y && 0 <= s.z * s.z) by (nonlinear_arith);
    crate::fixed::lemma_sqrt_floor(s.length_squared_spec());
    lemma_component_below_length(s, l);
    lemma_div_bound(s.x * ONE, l, ONE as int);
    lemma_div_bound(s.y * ONE, l, ONE as int);
    lemma_div_bound(s.z * ONE, l, ONE as int);
    lemma_same_sign(v.x as int, s.x as int, l);
    lemma_same_sign(v.y as int, s.y as int, l);
    lemma_same_sign(v.z as int, s.z as int, l);
    assert(n.x != 0 || n.y != 0 || n.z != 0) by {
        if n.x == 0 && n.y == 0 && n.z == 0 {
            assert(n.x * n.x + n.y * n.y + n.z * n.z == 0) by (nonlinear_arith)
                requires
                    n.x == 0 && n.y == 0 && n.z == 0,
            ;
        }
    }
}

/// A component of a vector and that component of its direction have one
/// sign, and the direction's is zero only where the vector's is small.
proof fn lemma_same_sign(v: int, s: int, l: int)
    requires
        l > 0,
        s == v || s == v * ONE,
    ensures
        v * ((s * ONE) / l) >= 0,
        (s * ONE) / l != 0 ==> v * ((s * ONE) / l) > 0,
{
    let q = (s * ONE) / l;
    if v >= 0 {
        assert(0 * l <= s * ONE <= (s * ONE) * l) by (nonlinear_arith)
            requires
                s >= 0,
                l >= 1,
                ONE == 65536,
        ;
        crate::fixed::lemma_div_range(s * ONE, l, 0, s * ONE);
        assert(v * q >= 0 && (q != 0 ==> v * q > 0)) by (nonlinear_arith)
            requires
                v >= 0,
                q >= 0,
                v == 0 ==> q == 0,
        ;
    } else {
        vstd::arithmetic::div_mod::lemma_fundamental_div_mod(s * ONE, l);
        assert(q < 0) by (nonlinear_arith)
            requires
                s * ONE == l * q + (s * ONE) % l,
                0 <= (s * ONE) % l < l,
                s * ONE < 0,
                l > 0,
        ;
        assert(v * q > 0) by (nonlinear_arith)
            requires
                v < 0,
                q < 0,
        ;
    }
}

/// The opposite of a normalized vector is normalized.
pub proof fn lemma_negated_is_normalized(v: Vec3)
    requires
        v.is_normalized_spec(),
        v.within(ONE as int),
    ensures
        v.negated_spec().is_normalized_spec(),
        v.negated_spec().within(ONE as int),
{
    assert((-v.x) * (-v.x) == v.x * v.x && (-v.y) * (-v.y) == v.y * v.y && (-v.z) * (-v.z) == v.z
        * v.z) by (nonlinear_arith);
}

/// No component of a vector exceeds the floor of the vector's length.
pub proof fn lemma_component_below_length(v: Vec3, length: int)
    requires
        crate::fixed::is_sqrt_floor(v.length_squared_spec(), length),
    ensures
        v.within(length),
{
    let s = v.length_squared_spec();
    assert(0 <= v.x * v.x && 0 <= v.y * v.y && 0 <= v.z * v.z) by (nonlinear_arith);
    assert(-length <= v.x <= length) by (nonlinear_arith)
        requires
            v.x * v.x <= s,
            s < (length + 1) * (length + 1),
            0 <= length,
    ;
    assert(-length <= v.y <= length) by (nonlinear_arith)
        requires
            v.y * v.y <= s,
            s < (length + 1) * (length + 1),
            0 <= length,
    ;
    assert(-length <= v.z <= length) by (nonlinear_arith)
        requires
            v.z * v.z <= s,
            s < (length + 1) * (length + 1),
            0 <= length,
    ;
}

} // verus!
