//! How far rounding can take a result from the exact one, counted in units
//! of the result itself: the machine epsilon, two to the power -52, is the
//! step above one.
use vstd::prelude::*;
use vstd::arithmetic::power2::lemma2_to64;
use vstd::arithmetic::power2::lemma_pow2_pos;
use vstd::arithmetic::power2::pow2;
use crate::arith::lemma_finite_division;
use crate::arith::lemma_finite_product;
use crate::arith::lemma_finite_sum;
use crate::arith::lemma_signed_value;
use crate::arith::lemma_sum_is_close;
use crate::arith::within;
use crate::round::lemma_exact_is_nearest;
use crate::round::lemma_nearest_exists;
use crate::round::lemma_nearest_is;
use crate::round::lemma_nearest_is_close;
use crate::round::lemma_value_is_monotone;
use crate::round::lemma_nearest_is_monotone;
use crate::round::lemma_value_of_packed;
use crate::round::nearest;
use crate::round::step_above;
use crate::scalar::Scalar;
use crate::scalar::value_of;
use crate::scalar::{HIDDEN_BIT, INFINITY_BITS};
use crate::vector::Vec3;

verus! {

/// The size of a whole number.
pub open spec fn size(x: int) -> int {
    if x >= 0 {
        x
    } else {
        -x
    }
}

/// Whether `back` is `v` up to four machine epsilons of the sizes of `v` and
/// `w` together.
pub open spec fn is_near(back: Scalar, v: Scalar, w: Scalar) -> bool {
    HIDDEN_BIT * size(back.scaled_value() - v.scaled_value()) <= 4 * (size(v.scaled_value())
        + size(w.scaled_value()))
}

/// The step above a normal scalar is at most a machine epsilon of it.
proof fn lemma_step_is_small(m: int)
    requires
        HIDDEN_BIT <= m < INFINITY_BITS,
    ensures
        step_above(m) * HIDDEN_BIT <= value_of(m),
{
    let h = HIDDEN_BIT as int;
    let f = m % h;
    let c = m / h - 1;
    let p = pow2(c as nat) as int;
    lemma_pow2_pos(c as nat);
    assert(m == c * h + (h + f));
    assert(m + 1 == c * h + (h + f + 1));
    lemma_value_of_packed(c, h + f);
    lemma_value_of_packed(c, h + f + 1);
    let (here, above) = (value_of(m), value_of(m + 1));
    assert((above - here) * h <= here) by (nonlinear_arith)
        requires
            here == (h + f) * p,
            above == (h + f + 1) * p,
            f >= 0,
            p > 0,
            h > 0,
    ;
}

/// A whole number of units up to two to the power 53 is a scalar.
proof fn lemma_small_is_exact(e: int)
    requires
        0 <= e <= 2 * HIDDEN_BIT,
    ensures
        value_of(e) == e,
        nearest(e, 1) == e,
{
    lemma2_to64();
    lemma_value_of_packed(0, e);
    assert(0 * HIDDEN_BIT + e == e);
    assert(e * pow2(0) == e) by (nonlinear_arith)
        requires
            pow2(0) == 1,
    ;
    assert(e == value_of(e) * 1);
    lemma_exact_is_nearest(e, e, 1);
    lemma_nearest_is(e, e, 1);
}

/// What one rounding does to a sum that is no infinity: the sum is off by
/// at most half a step; it is exact where it is small; and where it is not,
/// its step is at most a machine epsilon of it.
proof fn lemma_sum_rounding(x: Scalar, y: Scalar)
    requires
        x.finite(),
        y.finite(),
        x.sum(y).finite(),
    ensures
        ({
            let exact = x.scaled_value() + y.scaled_value();
            let got = x.sum(y).scaled_value();
            &&& within(got, exact, x.sum(y).step())
            &&& x.sum(y).step() > 0
            &&& size(exact) <= 2 * HIDDEN_BIT ==> got == exact
            &&& size(exact) > 2 * HIDDEN_BIT ==> x.sum(y).step() * HIDDEN_BIT <= size(got)
        }),
{
    let exact = x.scaled_value() + y.scaled_value();
    let e = size(exact);
    lemma_sum_is_close(x, y);
    lemma_finite_sum(x, y);
    lemma_nearest_exists(e, 1);
    let m = nearest(e, 1);
    lemma_signed_value(false, m);
    lemma_signed_value(true, m);
    lemma_signed_value(false, 0);
    lemma_signed_value(true, 0);
    crate::round::lemma_value_grows(x.sum(y).magnitude(), x.sum(y).magnitude() + 1);
    if e <= 2 * HIDDEN_BIT {
        lemma_small_is_exact(e);
    } else {
        lemma_small_is_exact(2 * HIDDEN_BIT);
        assert((2 * HIDDEN_BIT) * 1 <= e * 1);
        lemma_nearest_is_monotone(2 * HIDDEN_BIT, 1, e, 1);
        assert(x.sum(y).magnitude() == m);
        lemma_step_is_small(m);
    }
}

/// Adding a number and taking it away again gives the first number back up
/// to four machine epsilons of the sizes of the two numbers together, where
/// neither the sum nor the result is an infinity.
pub proof fn lemma_sum_round_trip(a: Scalar, w: Scalar)
    requires
        a.finite(),
        w.finite(),
        a.sum(w).finite(),
        a.sum(w).difference(w).finite(),
    ensures
        is_near(a.sum(w).difference(w), a, w),
{
    let h = HIDDEN_BIT as int;
    let s = a.sum(w);
    let back = s.difference(w);
    let (va, vw, vs, vb) = (
        a.scaled_value(),
        w.scaled_value(),
        s.scaled_value(),
        back.scaled_value(),
    );
    lemma_signed_value(!w.sign_negative(), w.magnitude());
    lemma_signed_value(a.sign_negative(), a.magnitude());
    assert(w.negation().scaled_value() == -vw);
    lemma_sum_rounding(a, w);
    lemma_sum_rounding(s, w.negation());
    let first = va + vw;
    let second = vs - vw;
    if size(first) <= 2 * h {
        assert(second == va);
        if size(va) > 2 * h {
            // taking away gives the number itself, which is a scalar
            lemma_finite_sum(s, w.negation());
            assert(size(va) == value_of(a.magnitude()) * 1);
            lemma_exact_is_nearest(a.magnitude(), size(va), 1);
            lemma_nearest_is(a.magnitude(), size(va), 1);
        }
        assert(vb == va);
    } else {
        // the sum is off by at most half a machine epsilon of itself
        assert(size(vs) <= 2 * size(first));
        if size(second) <= 2 * h {
            assert(vb == second);
        } else {
            assert(size(vb) <= 2 * size(second));
        }
    }
}

/// Adding a vector and taking it away again gives the first vector back, in
/// each component up to four machine epsilons of the sizes of the two
/// components together. This holds where no component of the sum or of the
/// result is an infinity.
pub proof fn lemma_vector_sum_round_trip(v: Vec3, w: Vec3)
    requires
        v.finite(),
        w.finite(),
        v.sum(w).finite(),
        v.sum(w).difference(w).finite(),
    ensures
        is_near(v.sum(w).difference(w).x, v.x, w.x),
        is_near(v.sum(w).difference(w).y, v.y, w.y),
        is_near(v.sum(w).difference(w).z, v.z, w.z),
{
    lemma_sum_round_trip(v.x, w.x);
    lemma_sum_round_trip(v.y, w.y);
    lemma_sum_round_trip(v.z, w.z);
}

/// Whether `back` is `v` up to four machine epsilons of the size of `v`,
/// and has its sign.
pub open spec fn is_near_alone(back: Scalar, v: Scalar) -> bool {
    &&& back.sign_negative() == v.sign_negative()
    &&& HIDDEN_BIT * size(back.scaled_magnitude() - v.scaled_magnitude()) <= 4
        * v.scaled_magnitude()
}

/// A common factor that is positive may be left out of an inequality.
proof fn lemma_cancel(a: int, b: int, s: int)
    requires
        a * s <= b * s,
        s > 0,
    ensures
        a <= b,
{
    assert(a <= b) by (nonlinear_arith)
        requires
            a * s <= b * s,
            s > 0,
    ;
}

/// Multiplying by a number that is not zero and dividing by it again gives
/// the first number back up to four machine epsilons of its size, and with
/// its sign. This holds where the product is a normal number, or zero with
/// the first number, and the result is no infinity.
pub proof fn lemma_product_round_trip(v: Scalar, s: Scalar)
    requires
        v.finite(),
        s.finite(),
        !s.zero(),
        v.product(s).finite(),
        v.product(s).magnitude() >= HIDDEN_BIT || v.zero(),
        v.product(s).quotient(s).finite(),
    ensures
        is_near_alone(v.product(s).quotient(s), v),
{
    let h = HIDDEN_BIT as int;
    let unit = pow2(1074) as int;
    let p = v.product(s);
    let q = p.quotient(s);
    let (vv, vs, vp, vq) = (
        v.scaled_magnitude(),
        s.scaled_magnitude(),
        p.scaled_magnitude(),
        q.scaled_magnitude(),
    );
    lemma_pow2_pos(1074);
    lemma_finite_product(v, s);
    lemma_finite_division(p, s);
    lemma_value_is_monotone(0, v.magnitude());
    lemma_value_is_monotone(0, q.magnitude());
    lemma_value_is_monotone(0, p.magnitude());
    assert(value_of(0) == 0);
    let x = vp * unit;
    let y = vv * vs;
    let z = vq * vs;
    if v.zero() {
        // nothing times a number is nothing, and so is that divided
        assert(y == 0) by (nonlinear_arith)
            requires
                y == vv * vs,
                vv == 0,
        ;
        assert(0 == value_of(0) * unit) by (nonlinear_arith)
            requires
                value_of(0) == 0,
        ;
        lemma_exact_is_nearest(0, 0, unit);
        lemma_nearest_is(0, 0, unit);
        assert(p.magnitude() == 0);
        assert(x == 0) by (nonlinear_arith)
            requires
                x == vp * unit,
                vp == 0,
        ;
        assert(0 == value_of(0) * vs) by (nonlinear_arith)
            requires
                value_of(0) == 0,
        ;
        lemma_exact_is_nearest(0, 0, vs);
        lemma_nearest_is(0, 0, vs);
        assert(q.magnitude() == 0);
    } else {
        lemma_nearest_is_close(p.magnitude(), y, unit);
        lemma_nearest_is_close(q.magnitude(), x, vs);
        lemma_step_is_small(p.magnitude());
        let step_p = p.step();
        let step_q = q.step();
        // the product is off by at most half a machine epsilon of itself
        assert((step_p * unit) * h <= x) by (nonlinear_arith)
            requires
                step_p * h <= vp,
                x == vp * unit,
                unit > 0,
        ;
        assert(2 * h * size(x - y) <= x);
        assert(h * size(x - y) <= y && x <= 2 * y);
        if q.magnitude() >= h {
            lemma_step_is_small(q.magnitude());
            assert((step_q * vs) * h <= z) by (nonlinear_arith)
                requires
                    step_q * h <= vq,
                    z == vq * vs,
                    vs > 0,
            ;
            assert(2 * h * size(z - x) <= z);
            assert(h * size(z - y) <= 3 * y);
        } else {
            // below the normal numbers the step is one unit
            assert(value_of(q.magnitude()) == q.magnitude());
            assert(value_of(q.magnitude() + 1) == q.magnitude() + 1) by {
                lemma2_to64();
                lemma_value_of_packed(0, q.magnitude() + 1);
                assert((q.magnitude() + 1) * pow2(0) == q.magnitude() + 1) by (nonlinear_arith)
                    requires
                        pow2(0) == 1,
                ;
            }
            assert(step_q == 1);
            assert(step_q * vs == vs) by (nonlinear_arith)
                requires
                    step_q == 1,
            ;
            assert(2 * h * size(z - y) <= h * vs + 2 * y);
            let d = size(vq - vv);
            assert(size(z - y) == d * vs) by (nonlinear_arith)
                requires
                    z == vq * vs,
                    y == vv * vs,
                    d == size(vq - vv),
                    vs > 0,
            ;
            assert((2 * h * d) * vs <= (h + 2 * vv) * vs) by (nonlinear_arith)
                requires
                    2 * h * (d * vs) <= h * vs + 2 * (vv * vs),
            ;
            lemma_cancel(2 * h * d, h + 2 * vv, vs);
            if d >= 1 {
                assert(2 * h <= 2 * h * d) by (nonlinear_arith)
                    requires
                        d >= 1,
                        h > 0,
                ;
            } else {
                assert(h * d == 0) by (nonlinear_arith)
                    requires
                        d == 0,
                ;
            }
            assert(h * d <= 4 * vv) by (nonlinear_arith)
                requires
                    2 * h * d <= h + 2 * vv,
                    d >= 1 ==> h <= 2 * vv,
                    d >= 0,
                    d == 0 ==> h * d == 0,
                    vv >= 0,
            ;
            assert(h * size(z - y) <= (4 * vv) * vs) by (nonlinear_arith)
                requires
                    size(z - y) == d * vs,
                    h * d <= 4 * vv,
                    vs > 0,
            ;
            assert((4 * vv) * vs == 4 * y) by (nonlinear_arith)
                requires
                    y == vv * vs,
            ;
        }
        // what holds of the two numbers times the divisor holds of them
        let d = size(vq - vv);
        assert(size(z - y) == d * vs) by (nonlinear_arith)
            requires
                z == vq * vs,
                y == vv * vs,
                d == size(vq - vv),
                vs > 0,
        ;
        assert((h * d) * vs <= (4 * vv) * vs) by (nonlinear_arith)
            requires
                h * (d * vs) <= 4 * y,
                y == vv * vs,
        ;
        lemma_cancel(h * d, 4 * vv, vs);
    }
}

/// Multiplying a vector by a scalar that is not zero and dividing by it
/// again gives the vector back, in each component up to four machine
/// epsilons of its size. This holds where each component of the product is
/// a normal number, or zero with the component, and no component of the
/// result is an infinity.
pub proof fn lemma_vector_product_round_trip(v: Vec3, s: Scalar)
    requires
        v.finite(),
        s.finite(),
        !s.zero(),
        v.scaled(s).finite(),
        v.scaled(s).x.magnitude() >= HIDDEN_BIT || v.x.zero(),
        v.scaled(s).y.magnitude() >= HIDDEN_BIT || v.y.zero(),
        v.scaled(s).z.magnitude() >= HIDDEN_BIT || v.z.zero(),
        v.scaled(s).divided(s).finite(),
    ensures
        is_near_alone(v.scaled(s).divided(s).x, v.x),
        is_near_alone(v.scaled(s).divided(s).y, v.y),
        is_near_alone(v.scaled(s).divided(s).z, v.z),
{
    lemma_product_round_trip(v.x, s);
    lemma_product_round_trip(v.y, s);
    lemma_product_round_trip(v.z, s);
}

} // verus!
