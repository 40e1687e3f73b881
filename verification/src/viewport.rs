//! The rays through the pixels of a frame.
//!
//! A sample lies in its pixel, so its viewport coordinates lie from zero to
//! one, and the ray of the standard camera through it runs one unit down the
//! z axis: no pixel gets a ray without a direction.
use vstd::prelude::*;
use vstd::arithmetic::power2::lemma2_to64;
use vstd::arithmetic::power2::lemma2_to64_rest;
use vstd::arithmetic::power2::lemma_pow2_adds;
use vstd::arithmetic::power2::lemma_pow2_pos;
use vstd::arithmetic::power2::lemma_pow2_strictly_increases;
use vstd::arithmetic::power2::lemma_pow2_unfold;
use vstd::arithmetic::power2::pow2;
use crate::arith::lemma_finite_division;
use crate::arith::lemma_finite_sum;
use crate::arith::lemma_signed_value;
use crate::camera::Camera;
use crate::camera::is_standard;
use crate::camera::lemma_small_is_finite;
use crate::camera::lemma_standard_rays;
use crate::camera::ranges;
use crate::frame::coordinate;
use crate::round::lemma_exact_is_nearest;
use crate::round::lemma_nearest_is;
use crate::round::lemma_nearest_is_monotone;
use crate::round::lemma_value_is_monotone;
use crate::round::lemma_value_of_packed;
use crate::round::nearest;
use crate::sample::unit_draw;
use crate::scalar::Scalar;
use crate::scalar::lemma_small_integers;
use crate::scalar::value_of;
use crate::scalar::{HIDDEN_BIT, INFINITY_BITS, ONE_BITS};

verus! {

/// The number of bits that it takes to write a whole number.
pub open spec fn width(n: nat) -> nat
    decreases n,
{
    if n == 0 {
        0
    } else {
        1 + width(n / 2)
    }
}

/// A whole number lies between the powers of two next to its width.
proof fn lemma_width(n: nat)
    requires
        n > 0,
    ensures
        width(n) >= 1,
        pow2((width(n) - 1) as nat) <= n < pow2(width(n)),
    decreases n,
{
    lemma2_to64();
    if n / 2 == 0 {
        assert(n == 1);
        assert(width(0) == 0);
        assert(width(1) == 1 + width(0));
    } else {
        lemma_width(n / 2);
        let l = width(n / 2);
        lemma_pow2_unfold(l);
        lemma_pow2_unfold(l + 1);
    }
}

/// A whole number of at most 53 bits, times a power of two from the 53rd to
/// the 1900th, is the number of a pattern.
proof fn lemma_whole_is_scalar(n: nat, k: nat) -> (m: int)
    requires
        n < pow2(53),
        53 <= k <= 1900,
    ensures
        0 <= m < INFINITY_BITS,
        value_of(m) == n * pow2(k),
{
    let h = HIDDEN_BIT as int;
    lemma2_to64();
    lemma2_to64_rest();
    if n == 0 {
        assert(value_of(0) == 0);
        assert(0 * pow2(k) == 0) by (nonlinear_arith);
        0
    } else {
        lemma_width(n);
        let l = width(n);
        if l > 53 {
            if l > 54 {
                lemma_pow2_strictly_increases(53, (l - 1) as nat);
            }
        }
        assert(l <= 53);
        let c = (l + k - 53) as int;
        let up = pow2((53 - l) as nat) as int;
        let w = n * up;
        lemma_pow2_pos((53 - l) as nat);
        lemma_pow2_adds(l, (53 - l) as nat);
        lemma_pow2_adds((l - 1) as nat, (53 - l) as nat);
        assert(h <= w < 2 * h) by (nonlinear_arith)
            requires
                w == n * up,
                pow2((l - 1) as nat) <= n < pow2(l),
                pow2(l) * up == 2 * h,
                pow2((l - 1) as nat) * up == h,
                up > 0,
        ;
        lemma_value_of_packed(c, w);
        lemma_pow2_adds((53 - l) as nat, c as nat);
        assert(w * pow2(c as nat) == n * pow2(k)) by (nonlinear_arith)
            requires
                w == n * up,
                up * pow2(c as nat) == pow2(k),
        ;
        assert(0 <= c * h <= 1900 * h) by (nonlinear_arith)
            requires
                0 <= c <= 1900,
                h > 0,
        ;
        c * h + w
    }
}

/// The scalar of a whole number of 32 bits stands for it.
pub proof fn lemma_of_u32(i: u32)
    ensures
        Scalar::of_u32(i).stands_for(i as int),
        Scalar::of_u32(i).finite(),
        !Scalar::of_u32(i).sign_negative(),
        Scalar::of_u32(i).scaled_magnitude() == i * pow2(1074),
{
    lemma2_to64();
    lemma2_to64_rest();
    lemma_pow2_strictly_increases(32, 53);
    let m = lemma_whole_is_scalar(i as nat, 1074);
    let n = i * pow2(1074);
    assert(n == value_of(m) * 1);
    lemma_exact_is_nearest(m, n, 1);
    lemma_nearest_is(m, n, 1);
    lemma_signed_value(false, m);
}

/// The number that is made of a word lies from zero to one, and is less
/// than one.
pub proof fn lemma_unit_draw(word: u64)
    ensures
        ranges(unit_draw(word), 0, 1),
        unit_draw(word).scaled_value() < pow2(1074),
        !unit_draw(word).sign_negative(),
{
    lemma2_to64();
    lemma2_to64_rest();
    lemma_pow2_adds(53, 1021);
    lemma_pow2_pos(1021);
    let q = (word / 2048) as nat;
    let m = lemma_whole_is_scalar(q, 1021);
    let n = (q * pow2(1021)) as int;
    assert(n == value_of(m) * 1);
    lemma_exact_is_nearest(m, n, 1);
    lemma_nearest_is(m, n, 1);
    lemma_signed_value(false, m);
    assert(n < pow2(53) * pow2(1021)) by (nonlinear_arith)
        requires
            n == q * pow2(1021),
            q < pow2(53),
            pow2(1021) > 0,
    ;
    assert(0 <= n) by (nonlinear_arith)
        requires
            n == q * pow2(1021),
            pow2(1021) > 0,
    ;
    assert(0 * pow2(1074) == 0 && 1 * pow2(1074) == pow2(1074));
}

/// A sample of the pixel `i` of `n` has a viewport coordinate from zero to
/// one, where it lies from the near edge of the pixel up to the far one.
pub proof fn lemma_coordinate(i: u32, n: u32, xi: Scalar)
    requires
        i < n,
        !xi.nan(),
        0 <= xi.scaled_value() < pow2(1074),
    ensures
        ranges(coordinate(i, n, xi), 0, 1),
{
    let unit = pow2(1074) as int;
    let near = Scalar::of_u32(i);
    let all = Scalar::of_u32(n);
    lemma_pow2_pos(1074);
    lemma_small_integers();
    lemma_of_u32(i);
    lemma_of_u32(n);
    assert(0 * unit == 0 && 1 * unit == unit);
    lemma_small_is_finite(xi, 0, 1);
    // the sample lies before the next pixel
    let exact = near.scaled_value() + xi.scaled_value();
    assert(0 <= exact && exact < all.scaled_value()) by (nonlinear_arith)
        requires
            exact == i * unit + xi.scaled_value(),
            all.scaled_value() == n * unit,
            0 <= xi.scaled_value() < unit,
            i + 1 <= n,
            i >= 0,
    ;
    lemma_finite_sum(near, xi);
    let place = near.sum(xi);
    assert(all.scaled_value() * 1 == value_of(all.magnitude()) * 1);
    lemma_exact_is_nearest(all.magnitude(), all.scaled_value(), 1);
    lemma_nearest_is(all.magnitude(), all.scaled_value(), 1);
    assert(exact * 1 <= all.scaled_value() * 1);
    lemma_nearest_is_monotone(exact, 1, all.scaled_value(), 1);
    lemma_value_is_monotone(nearest(exact, 1), all.magnitude());
    lemma_signed_value(false, nearest(exact, 1));
    lemma_signed_value(false, 0);
    assert(place.finite());
    assert(!place.sign_negative());
    assert(0 <= place.scaled_magnitude() <= all.scaled_magnitude());
    // so it is at most the whole, and the quotient at most one
    assert(value_of(0) == 0);
    assert(all.scaled_magnitude() > 0) by (nonlinear_arith)
        requires
            all.scaled_magnitude() == n * unit,
            n >= 1,
            unit > 0,
    ;
    lemma_finite_division(place, all);
    let (vp, va) = (place.scaled_magnitude(), all.scaled_magnitude());
    assert((vp * unit) * 1 <= unit * va) by (nonlinear_arith)
        requires
            0 <= vp <= va,
            unit > 0,
    ;
    assert(vp * unit >= 0) by (nonlinear_arith)
        requires
            vp >= 0,
            unit > 0,
    ;
    assert(unit == value_of(ONE_BITS as int) * 1);
    lemma_exact_is_nearest(ONE_BITS as int, unit, 1);
    lemma_nearest_is(ONE_BITS as int, unit, 1);
    lemma_nearest_is_monotone(vp * unit, va, unit, 1);
    let q = place.quotient(all);
    lemma_value_is_monotone(q.magnitude(), ONE_BITS as int);
    lemma_signed_value(false, q.magnitude());
}

/// The ray of the standard camera through a sample of the pixel `(i, j)`,
/// which the words `a` and `b` place, starts at the origin and runs one unit
/// down the z axis, up to two units to either side and up to one unit up or
/// down.
pub proof fn lemma_pixel_ray(c: Camera, i: u32, j: u32, nx: u32, ny: u32, a: u64, b: u64)
    requires
        is_standard(c),
        i < nx,
        j < ny,
    ensures
        ({
            let r = c.ray(coordinate(i, nx, unit_draw(a)), coordinate(j, ny, unit_draw(b)));
            &&& r.a == c.origin
            &&& ranges(r.b.x, -2, 2)
            &&& ranges(r.b.y, -1, 1)
            &&& r.b.z.stands_for(-1)
        }),
{
    lemma_unit_draw(a);
    lemma_unit_draw(b);
    lemma_pow2_pos(1074);
    assert(0 * pow2(1074) == 0);
    lemma_coordinate(i, nx, unit_draw(a));
    lemma_coordinate(j, ny, unit_draw(b));
    lemma_standard_rays(
        c,
        coordinate(i, nx, unit_draw(a)),
        coordinate(j, ny, unit_draw(b)),
    );
}

} // verus!
