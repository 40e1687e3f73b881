//! The pinhole camera: a fixed origin and an axis-aligned viewport.
use vstd::prelude::*;
use vstd::arithmetic::power2::lemma2_to64;
use vstd::arithmetic::power2::lemma_pow2_adds;
use vstd::arithmetic::power2::lemma_pow2_strictly_increases;
use vstd::arithmetic::power2::pow2;
use crate::arith::lemma_exact_sum;
use crate::arith::lemma_finite_sum;
use crate::arith::lemma_product_is_monotone;
use crate::arith::lemma_sum_is_monotone;
use crate::arith::lemma_times_one;
use crate::arith::lemma_zero_times;
use crate::arith::lemma_times_zero;
use crate::ray::Ray;
use crate::round::lemma_value_is_monotone;
use crate::round::lemma_value_of_packed;
use crate::scalar::value_of;
use crate::scalar::{HIDDEN_BIT, INFINITY_BITS, ONE_BITS};
use crate::scalar::Scalar;
use crate::scalar::lemma_small_integers;
use crate::scalar::{FOUR_BITS, NEG_ONE_BITS, NEG_TWO_BITS, NEG_ZERO_BITS, TWO_BITS, ZERO_BITS};
use crate::vector::Vec3;

verus! {

/// A camera. The ray through the viewport coordinates `(u, v)` starts at
/// `origin` and runs towards
/// `lower_left_corner + u * horizontal + v * vertical`.
#[derive(Clone, Copy, Debug)]
pub struct Camera {
    pub lower_left_corner: Vec3,
    pub horizontal: Vec3,
    pub vertical: Vec3,
    pub origin: Vec3,
}

/// The vector with the given patterns as components.
pub open spec fn vec3_of_bits(x: u64, y: u64, z: u64) -> Vec3 {
    Vec3 { x: Scalar { bits: x }, y: Scalar { bits: y }, z: Scalar { bits: z } }
}

/// The vector with the given patterns as components.
fn vec3_from_bits(x: u64, y: u64, z: u64) -> (v: Vec3)
    ensures
        v == vec3_of_bits(x, y, z),
{
    Vec3::new(Scalar::from_bits(x), Scalar::from_bits(y), Scalar::from_bits(z))
}

impl Camera {
    /// The ray through the viewport coordinates `(u, v)`, which run from 0 to
    /// 1 across the viewport: from the origin towards
    /// `lower_left_corner + horizontal * u + vertical * v`.
    pub open spec fn ray(self, u: Scalar, v: Scalar) -> Ray {
        Ray {
            a: self.origin,
            b: self.lower_left_corner.sum(self.horizontal.scaled(u)).sum(
                self.vertical.scaled(v),
            ).difference(self.origin),
        }
    }

    /// The standard camera: at the origin, looking down the negative z axis
    /// at a viewport four wide and two high, one unit away, whose lower left
    /// corner is (-2, -1, -1).
    pub fn new() -> (c: Camera)
        ensures
            c.lower_left_corner == vec3_of_bits(NEG_TWO_BITS, NEG_ONE_BITS, NEG_ONE_BITS),
            c.horizontal == vec3_of_bits(FOUR_BITS, NEG_ZERO_BITS, NEG_ZERO_BITS),
            c.vertical == vec3_of_bits(ZERO_BITS, TWO_BITS, ZERO_BITS),
            c.origin == vec3_of_bits(ZERO_BITS, ZERO_BITS, ZERO_BITS),
            c.lower_left_corner.stands_for(-2, -1, -1),
            c.horizontal.stands_for(4, 0, 0),
            c.vertical.stands_for(0, 2, 0),
            c.origin.stands_for(0, 0, 0),
    {
        proof {
            lemma_small_integers();
        }
        Camera {
            lower_left_corner: vec3_from_bits(NEG_TWO_BITS, NEG_ONE_BITS, NEG_ONE_BITS),
            horizontal: vec3_from_bits(FOUR_BITS, NEG_ZERO_BITS, NEG_ZERO_BITS),
            vertical: vec3_from_bits(ZERO_BITS, TWO_BITS, ZERO_BITS),
            origin: vec3_from_bits(ZERO_BITS, ZERO_BITS, ZERO_BITS),
        }
    }
}

impl Camera {
    /// The ray through the viewport coordinates `(u, v)`.
    pub fn get_ray(&self, u: Scalar, v: Scalar) -> (r: Ray)
        ensures
            r == self.ray(u, v),
    {
        Ray::new(
            self.origin,
            self.lower_left_corner + self.horizontal * u + self.vertical * v - self.origin,
        )
    }
}

/// Whether a scalar is a number from `lo` to `hi`, both included.
pub open spec fn ranges(s: Scalar, lo: int, hi: int) -> bool {
    !s.nan() && lo * pow2(1074) <= s.scaled_value() <= hi * pow2(1074)
}

/// Whether a camera is the standard one.
pub open spec fn is_standard(c: Camera) -> bool {
    &&& c.lower_left_corner == vec3_of_bits(NEG_TWO_BITS, NEG_ONE_BITS, NEG_ONE_BITS)
    &&& c.horizontal == vec3_of_bits(FOUR_BITS, NEG_ZERO_BITS, NEG_ZERO_BITS)
    &&& c.vertical == vec3_of_bits(ZERO_BITS, TWO_BITS, ZERO_BITS)
    &&& c.origin == vec3_of_bits(ZERO_BITS, ZERO_BITS, ZERO_BITS)
}

/// A number of at most eight in size is no infinity.
pub proof fn lemma_small_is_finite(s: Scalar, lo: int, hi: int)
    requires
        ranges(s, lo, hi),
        -8 <= lo,
        hi <= 8,
    ensures
        s.finite(),
{
    let unit = pow2(1074) as int;
    lemma2_to64();
    vstd::arithmetic::power2::lemma2_to64_rest();
    vstd::arithmetic::power2::lemma_pow2_pos(1074);
    lemma_pow2_adds(3, 1074);
    lemma_pow2_adds(52, 2046);
    lemma_pow2_strictly_increases(1077, 2098);
    lemma_value_of_packed(2046, HIDDEN_BIT as int);
    assert(2046 * HIDDEN_BIT + HIDDEN_BIT == INFINITY_BITS);
    assert(lo * unit >= -8 * unit && hi * unit <= 8 * unit) by (nonlinear_arith)
        requires
            -8 <= lo,
            hi <= 8,
            unit > 0,
    ;
    assert(8 * unit < value_of(INFINITY_BITS as int));
}

/// Adding a zero, or taking one away, leaves a finite number as it is.
proof fn lemma_zero_added(x: Scalar, z: Scalar)
    requires
        x.finite(),
        z.zero(),
    ensures
        !x.sum(z).nan(),
        x.sum(z).finite(),
        x.sum(z).scaled_value() == x.scaled_value(),
        !x.difference(z).nan(),
        x.difference(z).finite(),
        x.difference(z).scaled_value() == x.scaled_value(),
{
    assert(value_of(0) == 0);
    lemma_exact_sum(x, z, x.magnitude());
    lemma_exact_sum(x, z.negation(), x.magnitude());
}

/// A number `b` plus a slope `k` times a number from zero to one lies from
/// `b` to `b + k`, where `b + k` is the number of the pattern `top`.
proof fn lemma_slope(base: Scalar, slope: Scalar, u: Scalar, b: int, k: int, top: int)
    requires
        base.finite(),
        base.stands_for(b),
        slope.finite(),
        !slope.sign_negative(),
        slope.stands_for(k),
        ranges(u, 0, 1),
        -8 <= b,
        0 <= k,
        b + k <= 8,
        0 <= top < INFINITY_BITS,
        value_of(top) == (b + k) * pow2(1074) || value_of(top) == -((b + k) * pow2(1074)),
    ensures
        base.sum(slope.product(u)).finite(),
        ranges(base.sum(slope.product(u)), b, b + k),
{
    let unit = pow2(1074) as int;
    let zero = Scalar { bits: ZERO_BITS };
    let one = Scalar { bits: ONE_BITS };
    lemma_small_integers();
    lemma_small_is_finite(u, 0, 1);
    assert(0 * unit == 0 && 1 * unit == unit);
    assert((b + k) * unit == b * unit + k * unit) by (nonlinear_arith);
    // the product lies from nothing to the slope
    lemma_times_zero(slope, zero);
    lemma_times_one(slope);
    lemma_product_is_monotone(slope, zero, u);
    lemma_product_is_monotone(slope, u, one);
    let least = slope.product(zero);
    let p = slope.product(u);
    assert(least.scaled_value() == 0);
    assert(p.le_spec(slope));
    assert(least.le_spec(p));
    lemma_value_is_monotone(0, slope.magnitude());
    crate::round::lemma_value_grows(slope.magnitude(), INFINITY_BITS as int);
    assert(p.finite()) by {
        if p.magnitude() >= INFINITY_BITS {
            lemma_value_is_monotone(INFINITY_BITS as int, p.magnitude());
        }
    }
    // and so the sum from the base to the base and the slope
    lemma_exact_sum(base, least, base.magnitude());
    lemma_exact_sum(base, slope, top);
    lemma_finite_sum(base, p);
    lemma_sum_is_monotone(base, least, p);
    lemma_sum_is_monotone(base, p, slope);
    lemma_small_is_finite(base.sum(p), b, b + k);
}

/// The rays of the standard camera through its viewport: each starts at the
/// origin and runs one unit down the z axis, up to two units to either side
/// and up to one unit up or down. So no ray has a direction of length zero.
pub proof fn lemma_standard_rays(c: Camera, u: Scalar, v: Scalar)
    requires
        is_standard(c),
        ranges(u, 0, 1),
        ranges(v, 0, 1),
    ensures
        c.ray(u, v).a == c.origin,
        ranges(c.ray(u, v).b.x, -2, 2),
        ranges(c.ray(u, v).b.y, -1, 1),
        c.ray(u, v).b.z.stands_for(-1),
{
    let zero = Scalar { bits: ZERO_BITS };
    let corner = c.lower_left_corner;
    lemma_small_integers();
    lemma_small_is_finite(u, 0, 1);
    lemma_small_is_finite(v, 0, 1);
    assert(value_of(0) == 0);
    // to the side
    lemma_slope(corner.x, c.horizontal.x, u, -2, 4, TWO_BITS as int);
    let x1 = corner.x.sum(c.horizontal.x.product(u));
    lemma_zero_times(c.vertical.x, v);
    lemma_zero_added(x1, c.vertical.x.product(v));
    let x2 = x1.sum(c.vertical.x.product(v));
    lemma_zero_added(x2, zero);
    // up and down
    lemma_zero_times(c.horizontal.y, u);
    lemma_zero_added(corner.y, c.horizontal.y.product(u));
    let y1 = corner.y.sum(c.horizontal.y.product(u));
    lemma_slope(y1, c.vertical.y, v, -1, 2, ONE_BITS as int);
    let y2 = y1.sum(c.vertical.y.product(v));
    lemma_zero_added(y2, zero);
    // and away
    lemma_zero_times(c.horizontal.z, u);
    lemma_zero_added(corner.z, c.horizontal.z.product(u));
    let z1 = corner.z.sum(c.horizontal.z.product(u));
    lemma_zero_times(c.vertical.z, v);
    lemma_zero_added(z1, c.vertical.z.product(v));
    let z2 = z1.sum(c.vertical.z.product(v));
    lemma_zero_added(z2, zero);
}

} // verus!
