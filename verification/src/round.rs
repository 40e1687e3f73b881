//! Rounding to the nearest scalar.
//!
//! The result of an arithmetic operation on scalars is the scalar nearest to
//! the exact result and, of two equally near ones, the one with the even
//! pattern. Scalars that are next to each other have patterns that are next
//! to each other, so "nearest" can be said with the two neighbours of a
//! pattern alone: the exact result lies between the midpoints towards them.
use vstd::prelude::*;
use vstd::arithmetic::power2::lemma2_to64;
use vstd::arithmetic::power2::lemma2_to64_rest;
use vstd::arithmetic::power2::lemma_pow2_adds;
use vstd::arithmetic::power2::lemma_pow2_pos;
use vstd::arithmetic::power2::lemma_pow2_strictly_increases;
use vstd::arithmetic::power2::lemma_pow2_unfold;
use vstd::arithmetic::power2::pow2;
use crate::scalar::Scalar;
use crate::scalar::lemma_scaled_magnitude_grows;
use crate::scalar::value_of;
use crate::scalar::{HIDDEN_BIT, INFINITY_BITS, SIGN_BIT};

verus! {

/// Whether the pattern `m` is that of the scalar nearest to the quotient
/// `n / d`, where `n` is not negative, `d` is positive, and the quotient is
/// counted in units of two to the power -1074. A quotient half way between
/// two scalars goes to the even pattern; one at or beyond the midpoint
/// between the greatest number and two to the power 1024 goes to infinity.
pub open spec fn is_nearest(m: int, n: int, d: int) -> bool {
    &&& 0 <= m <= INFINITY_BITS
    &&& m > 0 ==> (value_of(m - 1) + value_of(m)) * d <= 2 * n
    &&& m > 0 && m % 2 == 1 ==> (value_of(m - 1) + value_of(m)) * d < 2 * n
    &&& m < INFINITY_BITS ==> 2 * n <= (value_of(m) + value_of(m + 1)) * d
    &&& m < INFINITY_BITS && m % 2 == 1 ==> 2 * n < (value_of(m) + value_of(m + 1)) * d
}

/// The pattern of the scalar nearest to `n / d`.
pub open spec fn nearest(n: int, d: int) -> int {
    choose|m: int| is_nearest(m, n, d)
}

/// A greater pattern stands for a greater number.
pub proof fn lemma_value_grows(a: int, b: int)
    requires
        0 <= a < b < SIGN_BIT,
    ensures
        0 <= value_of(a) < value_of(b),
{
    lemma_scaled_magnitude_grows(Scalar { bits: a as u64 }, Scalar { bits: b as u64 });
}

/// A greater pattern stands for a greater number, and an equal one for an
/// equal number.
pub proof fn lemma_value_is_monotone(a: int, b: int)
    requires
        0 <= a <= b < SIGN_BIT,
    ensures
        0 <= value_of(a) <= value_of(b),
{
    if a < b {
        lemma_value_grows(a, b);
    } else if 0 < a {
        lemma_value_grows(0, a);
    }
}

/// Only one pattern is nearest to a quotient.
pub proof fn lemma_nearest_is_unique(a: int, b: int, n: int, d: int)
    requires
        d > 0,
        is_nearest(a, n, d),
        is_nearest(b, n, d),
    ensures
        a == b,
{
    lemma_nearest_is_not_less(a, b, n, d);
    lemma_nearest_is_not_less(b, a, n, d);
}

/// Of two patterns nearest to one quotient, the first is not the lesser.
proof fn lemma_nearest_is_not_less(a: int, b: int, n: int, d: int)
    requires
        d > 0,
        is_nearest(a, n, d),
        is_nearest(b, n, d),
    ensures
        a >= b,
{
    if a < b {
        let up = value_of(a) + value_of(a + 1);
        let down = value_of(b - 1) + value_of(b);
        lemma_value_is_monotone(a, b - 1);
        lemma_value_is_monotone(a + 1, b);
        assert(up <= down);
        assert(up * d <= down * d) by (nonlinear_arith)
            requires
                up <= down,
                d > 0,
        ;
        assert(up * d == down * d);
        assert(up == down) by (nonlinear_arith)
            requires
                up * d == down * d,
                d > 0,
        ;
        if a + 1 < b {
            lemma_value_grows(a, b - 1);
        }
    }
}

/// A significand `w` at `c` doublings is the number of the pattern
/// `c * HIDDEN_BIT + w`. This holds of the numbers below the first normal one
/// too, with no doubling, and of a significand that has just reached the
/// next power of two.
pub proof fn lemma_value_of_packed(c: int, w: int)
    requires
        c >= 0,
        0 <= w <= 2 * HIDDEN_BIT,
        c == 0 || w >= HIDDEN_BIT,
    ensures
        value_of(c * HIDDEN_BIT + w) == w * pow2(c as nat),
{
    let h = HIDDEN_BIT as int;
    let m = c * h + w;
    lemma2_to64();
    if w < h {
        assert(m == w);
        assert(m / h == 0 && m % h == w);
        assert(w * pow2(0) == w) by (nonlinear_arith)
            requires
                pow2(0) == 1,
        ;
    } else if w < 2 * h {
        assert(m == (c + 1) * h + (w - h)) by (nonlinear_arith)
            requires
                m == c * h + w,
        ;
        vstd::arithmetic::div_mod::lemma_fundamental_div_mod_converse(m, h, c + 1, w - h);
        assert(h + (w - h) == w);
    } else {
        assert(m == (c + 2) * h + 0) by (nonlinear_arith)
            requires
                m == c * h + w,
                w == 2 * h,
        ;
        vstd::arithmetic::div_mod::lemma_fundamental_div_mod_converse(m, h, c + 2, 0);
        lemma_pow2_unfold((c + 1) as nat);
        assert((h + 0) * pow2((c + 1) as nat) == w * pow2(c as nat)) by (nonlinear_arith)
            requires
                w == 2 * h,
                pow2((c + 1) as nat) == 2 * pow2(c as nat),
        ;
    }
}

/// Two to the power `s`.
pub fn pow2_u128(s: u32) -> (p: u128)
    requires
        s <= 127,
    ensures
        p == pow2(s as nat),
        p >= 1,
{
    let mut p: u128 = 1;
    let mut i: u32 = 0;
    proof {
        lemma2_to64();
    }
    while i < s
        invariant
            i <= s <= 127,
            p == pow2(i as nat),
            p >= 1,
        decreases s - i,
    {
        proof {
            lemma_pow2_unfold((i + 1) as nat);
            lemma_pow2_adds(64, 63);
            lemma2_to64_rest();
            if i + 1 < 127 {
                lemma_pow2_strictly_increases((i + 1) as nat, 127);
            }
            assert(pow2(127) == 0x8000_0000_0000_0000_0000_0000_0000_0000) by {
                lemma_pow2_adds(64, 63);
                lemma2_to64_rest();
            }
        }
        p = p * 2;
        i = i + 1;
    }
    p
}

/// The number of bits that it takes to write `q`.
pub fn bit_length(q: u128) -> (l: u32)
    ensures
        l <= 128,
        q == 0 ==> l == 0,
        q > 0 ==> pow2((l - 1) as nat) <= q,
        l < 128 ==> q < pow2(l as nat),
{
    let mut l: u32 = 0;
    let mut rest: u128 = q;
    let ghost mut weight: int = 1;
    proof {
        lemma2_to64();
    }
    while rest > 0
        invariant
            l <= 128,
            weight == pow2(l as nat),
            rest * weight <= q < (rest + 1) * weight,
            l == 128 ==> rest == 0,
            l > 0 ==> pow2((l - 1) as nat) <= q,
            l > 0 ==> q > 0,
        decreases rest,
    {
        proof {
            lemma_pow2_unfold((l + 1) as nat);
            let half = rest / 2;
            assert(half * (2 * weight) <= q < (half + 1) * (2 * weight)) by (nonlinear_arith)
                requires
                    rest * weight <= q < (rest + 1) * weight,
                    half == rest / 2,
                    weight >= 0,
                    rest >= 0,
            ;
            assert(weight <= q) by (nonlinear_arith)
                requires
                    rest * weight <= q,
                    rest >= 1,
                    weight >= 0,
            ;
            lemma_pow2_pos(l as nat);
            if l >= 127 {
                lemma_pow2_adds(64, 64);
                lemma_pow2_adds(64, 63);
                lemma2_to64_rest();
                assert(rest * weight <= q);
                assert(rest < 2) by (nonlinear_arith)
                    requires
                        rest * weight <= q,
                        weight >= 0x8000_0000_0000_0000_0000_0000_0000_0000,
                        q <= 0xffff_ffff_ffff_ffff_ffff_ffff_ffff_ffff,
                ;
            }
            weight = 2 * weight;
        }
        rest = rest / 2;
        l = l + 1;
    }
    proof {
        assert(q < weight) by (nonlinear_arith)
            requires
                q < (rest + 1) * weight,
                rest == 0,
        ;
    }
    l
}

/// Whether the pattern `m` is that of the scalar nearest to every number
/// strictly between `q` and `q + 1`, both times two to the power `kp - kn`.
pub open spec fn is_nearest_within(m: int, q: int, kp: nat, kn: nat) -> bool {
    &&& 0 <= m <= INFINITY_BITS
    &&& m > 0 ==> (value_of(m - 1) + value_of(m)) * pow2(kn) <= 2 * q * pow2(kp)
    &&& m < INFINITY_BITS ==> 2 * (q + 1) * pow2(kp) <= (value_of(m) + value_of(m + 1)) * pow2(
        kn,
    )
}

/// The exponent of two by which a significand is scaled up.
pub open spec fn up_shift(k: int) -> nat {
    if k >= 0 {
        k as nat
    } else {
        0
    }
}

/// The exponent of two by which a significand is scaled down.
pub open spec fn down_shift(k: int) -> nat {
    if k < 0 {
        (-k) as nat
    } else {
        0
    }
}

/// A number that is a scalar is nearest to that scalar.
pub proof fn lemma_exact_is_nearest(m: int, n: int, d: int)
    requires
        0 <= m <= INFINITY_BITS,
        d > 0,
        n == value_of(m) * d,
    ensures
        is_nearest(m, n, d),
{
    let v = value_of(m);
    if m > 0 {
        lemma_value_grows(m - 1, m);
        let u = value_of(m - 1);
        assert((u + v) * d < 2 * (v * d)) by (nonlinear_arith)
            requires
                u < v,
                d > 0,
        ;
    }
    lemma_value_grows(m, m + 1);
    let t = value_of(m + 1);
    assert(2 * (v * d) < (v + t) * d) by (nonlinear_arith)
        requires
            v < t,
            d > 0,
    ;
}

/// The pattern that rounding arrives at: the significand `w0`, or the next
/// one where `up` holds, at `c` doublings, and infinity from there on.
pub open spec fn rounded_pattern(c: int, w0: int, up: bool) -> int {
    let m = c * HIDDEN_BIT + w0 + if up {
        1int
    } else {
        0int
    };
    if m >= INFINITY_BITS {
        INFINITY_BITS as int
    } else {
        m
    }
}

/// Products with one scale can be written in the other.
proof fn lemma_rescale(x: int, cc: int, b: int, p: int, a: int)
    requires
        cc * b == p * a,
    ensures
        (x * cc) * b == (x * p) * a,
{
    assert((x * cc) * b == x * (cc * b)) by (nonlinear_arith);
    assert((x * p) * a == x * (p * a)) by (nonlinear_arith);
}

/// An inequality may be multiplied by a number that is not negative.
proof fn lemma_scaled_le(x: int, y: int, a: int)
    requires
        x <= y,
        a >= 0,
    ensures
        x * a <= y * a,
{
    assert(x * a <= y * a) by (nonlinear_arith)
        requires
            x <= y,
            a >= 0,
    ;
}

/// A strict inequality may be multiplied by a positive number.
proof fn lemma_scaled_lt(x: int, y: int, a: int)
    requires
        x < y,
        a > 0,
    ensures
        x * a < y * a,
{
    assert(x * a < y * a) by (nonlinear_arith)
        requires
            x < y,
            a > 0,
    ;
}

/// Cutting a significand off after the bits above `p`, and going up where
/// the rest is more than half of `p`, or is half of it and going up is what
/// makes the pattern even, gives the nearest pattern.
proof fn lemma_rounding_step(
    q: int,
    p: int,
    w0: int,
    rem: int,
    c: int,
    kp: nat,
    kn: nat,
    sticky: bool,
    up: bool,
)
    requires
        p >= 2,
        p % 2 == 0,
        0 <= rem < p,
        w0 >= 0,
        q == w0 * p + rem,
        0 <= c <= 2046,
        c == 0 || w0 >= HIDDEN_BIT,
        w0 < 2 * HIDDEN_BIT,
        pow2(c as nat) * pow2(kn) == p * pow2(kp),
        up <==> (rem > p / 2 || (rem == p / 2 && (sticky || w0 % 2 == 1))),
    ensures
        !sticky ==> is_nearest(rounded_pattern(c, w0, up), q * pow2(kp), pow2(kn) as int),
        sticky ==> is_nearest_within(rounded_pattern(c, w0, up), q, kp, kn),
{
    let h = HIDDEN_BIT as int;
    let a = pow2(kp) as int;
    let b = pow2(kn) as int;
    let cc = pow2(c as nat) as int;
    let half = p / 2;
    let base = c * h + w0;
    let m = rounded_pattern(c, w0, up);
    lemma_pow2_pos(kp);
    lemma_pow2_pos(kn);
    lemma_pow2_pos(c as nat);
    assert(0 <= c * h <= 2046 * h) by (nonlinear_arith)
        requires
            0 <= c <= 2046,
            h >= 0,
    ;
    assert((c * h) % 2 == 0) by (nonlinear_arith)
        requires
            h == 0x0010_0000_0000_0000,
    ;
    lemma_value_of_packed(c, w0);
    lemma_value_of_packed(c, w0 + 1);
    let v0 = value_of(base);
    let v1 = value_of(base + 1);
    assert(v0 == w0 * cc);
    assert(v1 == (w0 + 1) * cc);
    // the two sums of neighbours that matter, in the scale of `q`
    assert((v0 + v1) == (2 * w0 + 1) * cc) by (nonlinear_arith)
        requires
            v0 == w0 * cc,
            v1 == (w0 + 1) * cc,
    ;
    lemma_rescale(2 * w0 + 1, cc, b, p, a);
    assert((v0 + v1) * b == ((2 * w0 + 1) * p) * a);
    lemma_rescale(w0, cc, b, p, a);
    lemma_rescale(w0 + 1, cc, b, p, a);
    assert((2 * q) * a == 2 * (q * a)) by (nonlinear_arith);
    assert((2 * (q + 1)) * a == 2 * (q + 1) * a);
    let mid = (2 * w0 + 1) * p;
    assert(mid == 2 * (w0 * p) + p) by (nonlinear_arith)
        requires
            mid == (2 * w0 + 1) * p,
    ;
    if base + (if up { 1int } else { 0int }) >= INFINITY_BITS {
        // beyond the greatest number
        assert(m == INFINITY_BITS);
        assert(c >= 2045) by (nonlinear_arith)
            requires
                c * h + w0 + 1 >= 2047 * h,
                w0 < 2 * h,
                h > 0,
        ;
        if c == 2045 {
            assert(w0 == 2 * h - 1 && up);
            assert(base == INFINITY_BITS - 1);
            assert(mid <= 2 * q);
            lemma_scaled_le(mid, 2 * q, a);
        } else {
            assert(c == 2046);
            lemma_value_of_packed(c, h);
            assert(c * h + h == INFINITY_BITS);
            lemma_value_grows(INFINITY_BITS - 1, INFINITY_BITS as int);
            let top = value_of(INFINITY_BITS as int);
            let under = value_of(INFINITY_BITS - 1);
            assert(top == h * cc);
            lemma_rescale(h, cc, b, p, a);
            assert(top * b == (h * p) * a);
            assert((under + top) * b <= 2 * (top * b)) by (nonlinear_arith)
                requires
                    under < top,
                    b > 0,
            ;
            assert(h * p <= q) by (nonlinear_arith)
                requires
                    q == w0 * p + rem,
                    w0 >= h,
                    rem >= 0,
                    p >= 0,
            ;
            lemma_scaled_le(h * p, q, a);
        }
    } else if !up {
        assert(m == base);
        if m > 0 {
            lemma_value_grows(m - 1, m);
            let under = value_of(m - 1);
            assert((under + v0) * b < 2 * (v0 * b)) by (nonlinear_arith)
                requires
                    under < v0,
                    b > 0,
            ;
            assert(v0 * b == (w0 * p) * a);
            assert(w0 * p <= q);
            lemma_scaled_le(w0 * p, q, a);
        }
        if sticky {
            assert(rem < half);
            assert(2 * (q + 1) <= mid);
            lemma_scaled_le(2 * (q + 1), mid, a);
        } else {
            assert(2 * q <= mid);
            lemma_scaled_le(2 * q, mid, a);
            if m % 2 == 1 {
                assert(w0 % 2 == 1);
                assert(2 * q < mid);
                lemma_scaled_lt(2 * q, mid, a);
            }
        }
    } else {
        assert(m == base + 1);
        assert(rem >= half);
        assert(mid <= 2 * q);
        lemma_scaled_le(mid, 2 * q, a);
        if !sticky && m % 2 == 1 {
            assert(w0 % 2 == 0);
            assert(rem > half);
            assert(mid < 2 * q);
            lemma_scaled_lt(mid, 2 * q, a);
        }
        // the upper midpoint lies beyond the next multiple of `p`
        lemma_value_grows(m, m + 1);
        let over = value_of(m + 1);
        assert((v1 + over) * b > 2 * (v1 * b)) by (nonlinear_arith)
            requires
                v1 < over,
                b > 0,
        ;
        assert(v1 * b == ((w0 + 1) * p) * a);
        assert(q + 1 <= (w0 + 1) * p) by (nonlinear_arith)
            requires
                q == w0 * p + rem,
                rem < p,
        ;
        lemma_scaled_le(q + 1, (w0 + 1) * p, a);
        assert(2 * (q + 1) * a == 2 * ((q + 1) * a)) by (nonlinear_arith);
        assert(q * a < (q + 1) * a) by (nonlinear_arith)
            requires
                a > 0,
        ;
    }
}

/// Powers of two grow with their exponents.
pub proof fn lemma_pow2_is_monotone(a: nat, b: nat)
    requires
        a <= b,
    ensures
        pow2(a) <= pow2(b),
{
    if a < b {
        lemma_pow2_strictly_increases(a, b);
    }
}

/// A number of at least two to the power 1024 goes to infinity.
proof fn lemma_beyond_all_numbers(q: int, l: int, k: int)
    requires
        l >= 1,
        pow2((l - 1) as nat) <= q,
        k >= 0,
        l - 53 + k >= 2047,
    ensures
        is_nearest(INFINITY_BITS as int, q * pow2(k as nat), 1),
        is_nearest_within(INFINITY_BITS as int, q, k as nat, 0),
{
    let a = pow2(k as nat) as int;
    lemma2_to64();
    lemma2_to64_rest();
    lemma_pow2_pos(k as nat);
    lemma_value_of_packed(2046, HIDDEN_BIT as int);
    assert(2046 * HIDDEN_BIT + HIDDEN_BIT == INFINITY_BITS);
    let top = value_of(INFINITY_BITS as int);
    lemma_pow2_adds(52, 2046);
    assert(top == pow2(2098));
    lemma_pow2_adds((l - 1) as nat, k as nat);
    lemma_pow2_is_monotone(2098, (l - 1 + k) as nat);
    lemma_scaled_le(pow2((l - 1) as nat) as int, q, a);
    assert(top <= q * a);
    lemma_value_grows(INFINITY_BITS - 1, INFINITY_BITS as int);
    let under = value_of(INFINITY_BITS - 1);
    assert((under + top) * 1 <= 2 * (q * a));
    assert(2 * q * a == 2 * (q * a)) by (nonlinear_arith);
}

/// A number of less than a quarter of the least scalar goes to zero.
proof fn lemma_below_all_numbers(q: int, l: int, s: int)
    requires
        0 <= q < pow2(l as nat),
        0 <= l,
        s >= l + 2,
    ensures
        is_nearest(0, q * pow2(0), pow2(s as nat) as int),
        is_nearest_within(0, q, 0, s as nat),
{
    let b = pow2(s as nat) as int;
    lemma2_to64();
    lemma_pow2_unfold((l + 1) as nat);
    lemma_pow2_is_monotone((l + 1) as nat, s as nat);
    assert(value_of(0) == 0);
    assert(value_of(1) == 1);
    assert(q * pow2(0) == q) by (nonlinear_arith)
        requires
            pow2(0) == 1,
    ;
    assert(2 * (q + 1) * pow2(0) == 2 * (q + 1)) by (nonlinear_arith)
        requires
            pow2(0) == 1,
    ;
    assert((value_of(0) + value_of(1)) * b == b) by (nonlinear_arith)
        requires
            value_of(0) + value_of(1) == 1,
    ;
}

/// A number that needs no bit cut off is a scalar, or beyond them all.
proof fn lemma_nothing_cut(q: int, l: int, k: int, c: int, w: int)
    requires
        1 <= l,
        pow2((l - 1) as nat) <= q < pow2(l as nat),
        0 <= c <= 2046,
        c == (if l - 53 + k > 0 {
            l - 53 + k
        } else {
            0
        }),
        c <= k,
        w == q * pow2((k - c) as nat),
    ensures
        0 <= w < 2 * HIDDEN_BIT,
        c == 0 || w >= HIDDEN_BIT,
        is_nearest(rounded_pattern(c, w, false), q * pow2(up_shift(k)), pow2(down_shift(k)) as int),
        rounded_pattern(c, w, false) < INFINITY_BITS ==> value_of(rounded_pattern(c, w, false))
            == q * pow2(k as nat),
{
    let t = pow2((k - c) as nat) as int;
    let cc = pow2(c as nat) as int;
    let a = pow2(up_shift(k)) as int;
    lemma2_to64();
    lemma2_to64_rest();
    lemma_pow2_pos((k - c) as nat);
    lemma_pow2_pos(c as nat);
    lemma_pow2_pos(k as nat);
    lemma_pow2_adds(l as nat, (k - c) as nat);
    lemma_pow2_is_monotone((l + k - c) as nat, 53);
    assert(w < pow2(53)) by (nonlinear_arith)
        requires
            w == q * t,
            q < pow2(l as nat),
            t > 0,
            pow2(l as nat) * t <= pow2(53),
    ;
    assert(0 <= w) by (nonlinear_arith)
        requires
            w == q * t,
            q >= 0,
            t > 0,
    ;
    if c >= 1 {
        assert(k - c == 53 - l);
        lemma_pow2_adds((l - 1) as nat, (k - c) as nat);
        assert(w >= pow2(52)) by (nonlinear_arith)
            requires
                w == q * t,
                q >= pow2((l - 1) as nat),
                pow2((l - 1) as nat) * t == pow2(52),
                t > 0,
        ;
    }
    lemma_value_of_packed(c, w);
    lemma_pow2_adds((k - c) as nat, c as nat);
    assert(w * cc == q * a) by (nonlinear_arith)
        requires
            w == q * t,
            t * cc == a,
    ;
    assert(0 <= c * HIDDEN_BIT <= 2046 * HIDDEN_BIT) by (nonlinear_arith)
        requires
            0 <= c <= 2046,
    ;
    let m = c * HIDDEN_BIT + w;
    if m >= INFINITY_BITS {
        assert(c == 2046);
        lemma_value_of_packed(2046, HIDDEN_BIT as int);
        let top = value_of(INFINITY_BITS as int);
        lemma_value_grows(INFINITY_BITS - 1, INFINITY_BITS as int);
        let under = value_of(INFINITY_BITS - 1);
        assert(top <= w * cc) by (nonlinear_arith)
            requires
                top == HIDDEN_BIT * cc,
                w >= HIDDEN_BIT,
                cc > 0,
        ;
        assert((under + top) * 1 <= 2 * (q * a));
    } else {
        assert((q * a) == value_of(m) * 1);
        lemma_exact_is_nearest(m, q * a, 1);
    }
}

/// The significand that is left when `s` bits are cut off has at most 53
/// bits, and no fewer where the number is a normal one.
proof fn lemma_cut_significand(q: int, l: int, k: int, c: int, p: int, w0: int, rem: int)
    requires
        1 <= l,
        pow2((l - 1) as nat) <= q < pow2(l as nat),
        c == (if l - 53 + k > 0 {
            l - 53 + k
        } else {
            0
        }),
        c - k >= 1,
        p == pow2((c - k) as nat),
        q == w0 * p + rem,
        0 <= rem < p,
    ensures
        p >= 2,
        p % 2 == 0,
        0 <= w0 < 2 * HIDDEN_BIT,
        c == 0 || w0 >= HIDDEN_BIT,
        pow2(c as nat) * pow2(down_shift(k)) == p * pow2(up_shift(k)),
{
    let s = c - k;
    lemma2_to64();
    lemma2_to64_rest();
    lemma_pow2_unfold(s as nat);
    lemma_pow2_pos((s - 1) as nat);
    lemma_pow2_adds(53, s as nat);
    lemma_pow2_is_monotone(l as nat, (53 + s) as nat);
    assert(w0 < pow2(53)) by (nonlinear_arith)
        requires
            q == w0 * p + rem,
            rem >= 0,
            q < pow2(53) * p,
            p > 0,
    ;
    assert(w0 >= 0) by (nonlinear_arith)
        requires
            q == w0 * p + rem,
            rem < p,
            q >= 0,
            p > 0,
    ;
    if c >= 1 {
        assert(s == l - 53);
        lemma_pow2_adds(52, s as nat);
        assert(w0 >= pow2(52)) by (nonlinear_arith)
            requires
                q == w0 * p + rem,
                rem < p,
                q >= pow2(52) * p,
                p > 0,
        ;
    }
    lemma_pow2_adds(c as nat, down_shift(k));
    lemma_pow2_adds(s as nat, up_shift(k));
    assert(c + down_shift(k) == s + up_shift(k));
}

/// The pattern of the scalar nearest to a number that is given by its leading
/// bits: `q` times two to the power `k`, or with `sticky` some number
/// strictly between that and `q + 1` times two to the power `k`.
pub fn round_pack(q: u128, sticky: bool, k: i32) -> (m: u64)
    requires
        q < pow2(120),
        sticky ==> q >= pow2(54),
        -5000 <= k <= 5000,
    ensures
        m <= INFINITY_BITS,
        !sticky ==> is_nearest(
            m as int,
            q * pow2(up_shift(k as int)),
            pow2(down_shift(k as int)) as int,
        ),
        sticky ==> is_nearest_within(
            m as int,
            q as int,
            up_shift(k as int),
            down_shift(k as int),
        ),
        !sticky && q < pow2(53) && k >= 0 && m < INFINITY_BITS ==> value_of(m as int) == q * pow2(
            k as nat,
        ),
{
    if q == 0 {
        proof {
            let b = pow2(down_shift(k as int)) as int;
            lemma_pow2_pos(down_shift(k as int));
            lemma_pow2_pos(54);
            assert(value_of(0) == 0);
            assert(0 * b == 0) by (nonlinear_arith);
            assert(q * pow2(up_shift(k as int)) == 0) by (nonlinear_arith)
                requires
                    q == 0,
            ;
            assert(q * pow2(k as nat) == 0) by (nonlinear_arith)
                requires
                    q == 0,
            ;
            lemma_exact_is_nearest(0, 0, b);
        }
        return 0;
    }
    let bits: u32 = bit_length(q);
    proof {
        lemma2_to64();
        assert(bits >= 1);
        if bits > 120 {
            lemma_pow2_is_monotone(120, (bits - 1) as nat);
        }
        if sticky && bits < 55 {
            lemma_pow2_is_monotone(bits as nat, 54);
        }
        if q < pow2(53) && bits > 53 {
            lemma_pow2_is_monotone(53, (bits - 1) as nat);
        }
    }
    let l: i32 = bits as i32;
    let e: i32 = l - 53 + k;
    let c: i32 = if e > 0 {
        e
    } else {
        0
    };
    let s: i32 = c - k;
    if c >= 2047 {
        proof {
            lemma_beyond_all_numbers(q as int, l as int, k as int);
        }
        return INFINITY_BITS;
    }
    if s <= 0 {
        let t: u128 = pow2_u128((0 - s) as u32);
        proof {
            lemma_nothing_cut(q as int, l as int, k as int, c as int, q * t);
            assert(0 <= c * HIDDEN_BIT <= 2046 * HIDDEN_BIT) by (nonlinear_arith)
                requires
                    0 <= c <= 2046,
            ;
        }
        let w: u128 = q * t;
        let mm: u64 = (c as u64) * HIDDEN_BIT + (w as u64);
        return if mm >= INFINITY_BITS {
            INFINITY_BITS
        } else {
            mm
        };
    }
    if s >= l + 2 {
        proof {
            lemma_below_all_numbers(q as int, l as int, s as int);
        }
        return 0;
    }
    let p: u128 = pow2_u128(s as u32);
    let w0: u128 = q / p;
    let rem: u128 = q % p;
    let half: u128 = p / 2;
    let up: bool = rem > half || (rem == half && (sticky || w0 % 2 == 1));
    proof {
        vstd::arithmetic::div_mod::lemma_fundamental_div_mod(q as int, p as int);
        assert(q == w0 * p + rem) by (nonlinear_arith)
            requires
                q == p * w0 + rem,
        ;
        lemma_cut_significand(
            q as int,
            l as int,
            k as int,
            c as int,
            p as int,
            w0 as int,
            rem as int,
        );
        lemma_rounding_step(
            q as int,
            p as int,
            w0 as int,
            rem as int,
            c as int,
            up_shift(k as int),
            down_shift(k as int),
            sticky,
            up,
        );
        assert(0 <= c * HIDDEN_BIT <= 2046 * HIDDEN_BIT) by (nonlinear_arith)
            requires
                0 <= c <= 2046,
        ;
    }
    let w: u64 = (w0 as u64) + if up {
        1
    } else {
        0
    };
    let mm: u64 = (c as u64) * HIDDEN_BIT + w;
    if mm >= INFINITY_BITS {
        INFINITY_BITS
    } else {
        mm
    }
}

/// A quotient that is written with another numerator and denominator has
/// the same nearest pattern.
pub proof fn lemma_nearest_same_ratio(m: int, n1: int, d1: int, n2: int, d2: int)
    requires
        d1 > 0,
        d2 > 0,
        n1 * d2 == n2 * d1,
        is_nearest(m, n1, d1),
    ensures
        is_nearest(m, n2, d2),
{
    if m > 0 {
        let lo = value_of(m - 1) + value_of(m);
        assert(lo * d2 <= 2 * n2) by (nonlinear_arith)
            requires
                lo * d1 <= 2 * n1,
                n1 * d2 == n2 * d1,
                d1 > 0,
                d2 > 0,
        ;
        if m % 2 == 1 {
            assert(lo * d2 < 2 * n2) by (nonlinear_arith)
                requires
                    lo * d1 < 2 * n1,
                    n1 * d2 == n2 * d1,
                    d1 > 0,
                    d2 > 0,
            ;
        }
    }
    if m < INFINITY_BITS {
        let hi = value_of(m) + value_of(m + 1);
        assert(2 * n2 <= hi * d2) by (nonlinear_arith)
            requires
                2 * n1 <= hi * d1,
                n1 * d2 == n2 * d1,
                d1 > 0,
                d2 > 0,
        ;
        if m % 2 == 1 {
            assert(2 * n2 < hi * d2) by (nonlinear_arith)
                requires
                    2 * n1 < hi * d1,
                    n1 * d2 == n2 * d1,
                    d1 > 0,
                    d2 > 0,
            ;
        }
    }
}

/// A pattern that is nearest to every number strictly between two bounds is
/// nearest to a quotient that lies strictly between them.
pub proof fn lemma_within_is_nearest(m: int, q: int, kp: nat, kn: nat, n: int, d: int)
    requires
        d > 0,
        is_nearest_within(m, q, kp, kn),
        q * pow2(kp) * d < n * pow2(kn),
        n * pow2(kn) < (q + 1) * pow2(kp) * d,
    ensures
        is_nearest(m, n, d),
{
    let a = pow2(kp) as int;
    let b = pow2(kn) as int;
    lemma_pow2_pos(kp);
    lemma_pow2_pos(kn);
    if m > 0 {
        let lo = value_of(m - 1) + value_of(m);
        assert(lo * d < 2 * n) by (nonlinear_arith)
            requires
                lo * b <= 2 * q * a,
                q * a * d < n * b,
                b > 0,
                d > 0,
        ;
    }
    if m < INFINITY_BITS {
        let hi = value_of(m) + value_of(m + 1);
        assert(2 * n < hi * d) by (nonlinear_arith)
            requires
                2 * (q + 1) * a <= hi * b,
                n * b < (q + 1) * a * d,
                b > 0,
                d > 0,
        ;
    }
}

/// The pattern that is nearest to a quotient is the one that `nearest`
/// names.
pub proof fn lemma_nearest_is(m: int, n: int, d: int)
    requires
        d > 0,
        is_nearest(m, n, d),
    ensures
        nearest(n, d) == m,
{
    lemma_nearest_is_unique(m, nearest(n, d), n, d);
}

/// Whether the pattern `m` is that of the scalar nearest to the square root
/// of `n`, counted in units of two to the power -1074: the root lies between
/// the midpoints towards the two neighbours of the scalar, which is said
/// with the squares.
pub open spec fn is_nearest_root(m: int, n: int) -> bool {
    let down = value_of(m - 1) + value_of(m);
    let up = value_of(m) + value_of(m + 1);
    &&& 0 <= m <= INFINITY_BITS
    &&& m > 0 ==> down * down <= 4 * n
    &&& m > 0 && m % 2 == 1 ==> down * down < 4 * n
    &&& m < INFINITY_BITS ==> 4 * n <= up * up
    &&& m < INFINITY_BITS && m % 2 == 1 ==> 4 * n < up * up
}

/// The pattern of the scalar nearest to the square root of `n`.
pub open spec fn nearest_root(n: int) -> int {
    choose|m: int| is_nearest_root(m, n)
}

/// Two numbers that are not negative and have the same square are the same,
/// and the lesser of two has no greater square.
proof fn lemma_squares_order(x: int, y: int)
    requires
        0 <= x <= y,
    ensures
        x * x <= y * y,
        x * x == y * y ==> x == y,
{
    assert(x * x <= y * y) by (nonlinear_arith)
        requires
            0 <= x <= y,
    ;
    if x < y {
        assert(x * x < y * y) by (nonlinear_arith)
            requires
                0 <= x < y,
        ;
    }
}

/// Of two patterns nearest to one square root, the first is not the lesser.
proof fn lemma_nearest_root_is_not_less(a: int, b: int, n: int)
    requires
        is_nearest_root(a, n),
        is_nearest_root(b, n),
    ensures
        a >= b,
{
    if a < b {
        let up = value_of(a) + value_of(a + 1);
        let down = value_of(b - 1) + value_of(b);
        lemma_value_is_monotone(a, b - 1);
        lemma_value_is_monotone(a + 1, b);
        lemma_value_is_monotone(0, a);
        assert(0 <= up <= down);
        lemma_squares_order(up, down);
        assert(4 * n <= up * up);
        assert(down * down <= 4 * n);
        assert(up == down);
        if a + 1 < b {
            lemma_value_grows(a, b - 1);
        }
        assert(a + 1 == b);
        assert(a % 2 == 0);
        assert(b % 2 == 0);
    }
}

/// The pattern that is nearest to a square root is the one that
/// `nearest_root` names.
pub proof fn lemma_nearest_root_is(m: int, n: int)
    requires
        is_nearest_root(m, n),
    ensures
        nearest_root(n) == m,
{
    lemma_nearest_root_is_not_less(m, nearest_root(n), n);
    lemma_nearest_root_is_not_less(nearest_root(n), m, n);
}

/// A pattern nearest to a number is nearest to the square root of its
/// square.
pub proof fn lemma_root_of_square(m: int, x: int, n: int)
    requires
        x >= 0,
        x * x == n,
        is_nearest(m, x, 1),
    ensures
        is_nearest_root(m, n),
{
    lemma_value_is_monotone(0, m);
    if m > 0 {
        lemma_value_is_monotone(0, m - 1);
        let down = value_of(m - 1) + value_of(m);
        assert(down * down <= 4 * n) by (nonlinear_arith)
            requires
                0 <= down,
                down * 1 <= 2 * x,
                x * x == n,
        ;
        if m % 2 == 1 {
            assert(down * down < 4 * n) by (nonlinear_arith)
                requires
                    0 <= down,
                    down * 1 < 2 * x,
                    x * x == n,
            ;
        }
    }
    if m < INFINITY_BITS {
        let up = value_of(m) + value_of(m + 1);
        assert(4 * n <= up * up) by (nonlinear_arith)
            requires
                0 <= x,
                2 * x <= up * 1,
                x * x == n,
        ;
        if m % 2 == 1 {
            assert(4 * n < up * up) by (nonlinear_arith)
                requires
                    0 <= x,
                    2 * x < up * 1,
                    x * x == n,
            ;
        }
    }
}

/// A pattern that is nearest to every number strictly between two bounds is
/// nearest to a square root that lies strictly between them.
pub proof fn lemma_root_within(m: int, q: int, kp: nat, n: int)
    requires
        q >= 0,
        is_nearest_within(m, q, kp, 0),
        (q * pow2(kp)) * (q * pow2(kp)) < n,
        n < ((q + 1) * pow2(kp)) * ((q + 1) * pow2(kp)),
    ensures
        is_nearest_root(m, n),
{
    lemma2_to64();
    lemma_pow2_pos(kp);
    lemma_value_is_monotone(0, m);
    let lo = q * pow2(kp);
    let hi = (q + 1) * pow2(kp);
    assert(0 <= lo) by (nonlinear_arith)
        requires
            lo == q * pow2(kp),
            q >= 0,
            pow2(kp) > 0,
    ;
    if m > 0 {
        lemma_value_is_monotone(0, m - 1);
        let down = value_of(m - 1) + value_of(m);
        assert(down <= 2 * lo) by (nonlinear_arith)
            requires
                down * 1 <= 2 * q * pow2(kp),
                lo == q * pow2(kp),
        ;
        assert(down * down < 4 * n) by (nonlinear_arith)
            requires
                0 <= down <= 2 * lo,
                lo * lo < n,
        ;
    }
    if m < INFINITY_BITS {
        let up = value_of(m) + value_of(m + 1);
        assert(2 * hi <= up) by (nonlinear_arith)
            requires
                2 * (q + 1) * pow2(kp) <= up * 1,
                hi == (q + 1) * pow2(kp),
        ;
        assert(0 <= hi) by (nonlinear_arith)
            requires
                hi == (q + 1) * pow2(kp),
                q >= 0,
                pow2(kp) > 0,
        ;
        assert(4 * n < up * up) by (nonlinear_arith)
            requires
                0 <= 2 * hi <= up,
                n < hi * hi,
        ;
    }
}

/// The whole part of the square root of `r`.
pub fn isqrt(r: u128) -> (root: u64)
    requires
        r < pow2(120),
    ensures
        root * root <= r < (root + 1) * (root + 1),
        root < pow2(60),
{
    proof {
        lemma2_to64();
        lemma2_to64_rest();
        lemma_pow2_adds(60, 60);
    }
    let mut lo: u64 = 0;
    let mut hi: u64 = 0x1000_0000_0000_0000;
    while hi - lo > 1
        invariant
            lo < hi <= 0x1000_0000_0000_0000,
            lo * lo <= r,
            r < hi * hi,
            pow2(60) == 0x1000_0000_0000_0000,
        decreases hi - lo,
    {
        let mid: u64 = lo + (hi - lo) / 2;
        proof {
            assert(mid * mid < 0x1000_0000_0000_0000 * 0x1000_0000_0000_0000) by (nonlinear_arith)
                requires
                    0 <= mid < 0x1000_0000_0000_0000,
            ;
        }
        let square: u128 = (mid as u128) * (mid as u128);
        if square <= r {
            lo = mid;
        } else {
            hi = mid;
        }
    }
    lo
}

/// Whether the quotient `n / d` lies at or above the midpoint below the
/// pattern `m`.
spec fn reaches(m: int, n: int, d: int) -> bool {
    m == 0 || (value_of(m - 1) + value_of(m)) * d <= 2 * n
}

/// The greatest pattern up to `m` whose lower midpoint the quotient reaches.
proof fn lemma_greatest_reached(m: int, n: int, d: int) -> (r: int)
    requires
        0 <= m <= INFINITY_BITS,
        forall|k: int| m < k <= INFINITY_BITS ==> !reaches(k, n, d),
    ensures
        0 <= r <= INFINITY_BITS,
        reaches(r, n, d),
        forall|k: int| r < k <= INFINITY_BITS ==> !reaches(k, n, d),
    decreases m,
{
    if reaches(m, n, d) {
        m
    } else {
        lemma_greatest_reached(m - 1, n, d)
    }
}

/// Every quotient has a nearest pattern.
pub proof fn lemma_nearest_exists(n: int, d: int)
    requires
        n >= 0,
        d > 0,
    ensures
        is_nearest(nearest(n, d), n, d),
{
    let r = lemma_greatest_reached(INFINITY_BITS as int, n, d);
    if r < INFINITY_BITS {
        assert(!reaches(r + 1, n, d));
    }
    if r > 0 && r % 2 == 1 && (value_of(r - 1) + value_of(r)) * d == 2 * n {
        // half way between two patterns: the even one below
        let e = r - 1;
        if e > 0 {
            lemma_value_grows(e - 1, e);
            lemma_value_grows(e, r);
            let below = value_of(e - 1) + value_of(e);
            let above = value_of(e) + value_of(r);
            assert(below * d < above * d) by (nonlinear_arith)
                requires
                    below < above,
                    d > 0,
            ;
        }
        assert(is_nearest(e, n, d));
    } else {
        assert(is_nearest(r, n, d));
    }
}

/// A greater quotient has no lesser nearest pattern.
pub proof fn lemma_nearest_is_monotone(n1: int, d1: int, n2: int, d2: int)
    requires
        n1 >= 0,
        n2 >= 0,
        d1 > 0,
        d2 > 0,
        n1 * d2 <= n2 * d1,
    ensures
        0 <= nearest(n1, d1) <= nearest(n2, d2) <= INFINITY_BITS,
{
    lemma_nearest_exists(n1, d1);
    lemma_nearest_exists(n2, d2);
    let m1 = nearest(n1, d1);
    let m2 = nearest(n2, d2);
    if m1 > m2 {
        let low = value_of(m1 - 1) + value_of(m1);
        let up = value_of(m2) + value_of(m2 + 1);
        lemma_value_is_monotone(m2, m1 - 1);
        lemma_value_is_monotone(m2 + 1, m1);
        lemma_value_is_monotone(0, m2);
        assert(0 <= up <= low);
        assert(low * d1 * d2 <= up * d2 * d1) by (nonlinear_arith)
            requires
                low * d1 <= 2 * n1,
                2 * n2 <= up * d2,
                n1 * d2 <= n2 * d1,
                d1 > 0,
                d2 > 0,
        ;
        assert(low <= up) by (nonlinear_arith)
            requires
                low * d1 * d2 <= up * d2 * d1,
                d1 > 0,
                d2 > 0,
        ;
        if m2 + 1 < m1 {
            lemma_value_grows(m2, m1 - 1);
        }
        assert(m2 + 1 == m1);
        // the quotients are the midpoint, which goes to one pattern only
        assert(low * d1 == 2 * n1 && 2 * n2 == up * d2) by (nonlinear_arith)
            requires
                low == up,
                low * d1 <= 2 * n1,
                2 * n2 <= up * d2,
                n1 * d2 <= n2 * d1,
                d1 > 0,
                d2 > 0,
        ;
    }
}

/// Whether the square root of `n` lies at or above the midpoint below the
/// pattern `m`.
spec fn root_reaches(m: int, n: int) -> bool {
    m == 0 || (value_of(m - 1) + value_of(m)) * (value_of(m - 1) + value_of(m)) <= 4 * n
}

/// The greatest pattern up to `m` whose lower midpoint the square root
/// reaches.
proof fn lemma_greatest_root_reached(m: int, n: int) -> (r: int)
    requires
        0 <= m <= INFINITY_BITS,
        forall|k: int| m < k <= INFINITY_BITS ==> !root_reaches(k, n),
    ensures
        0 <= r <= INFINITY_BITS,
        root_reaches(r, n),
        forall|k: int| r < k <= INFINITY_BITS ==> !root_reaches(k, n),
    decreases m,
{
    if root_reaches(m, n) {
        m
    } else {
        lemma_greatest_root_reached(m - 1, n)
    }
}

/// Every square root has a nearest pattern.
pub proof fn lemma_nearest_root_exists(n: int)
    requires
        n >= 0,
    ensures
        is_nearest_root(nearest_root(n), n),
{
    let r = lemma_greatest_root_reached(INFINITY_BITS as int, n);
    if r < INFINITY_BITS {
        assert(!root_reaches(r + 1, n));
    }
    let down = value_of(r - 1) + value_of(r);
    if r > 0 && r % 2 == 1 && down * down == 4 * n {
        // half way between two patterns: the even one below
        let e = r - 1;
        if e > 0 {
            lemma_value_grows(e - 1, e);
            lemma_value_grows(e, r);
            lemma_value_is_monotone(0, e - 1);
            let below = value_of(e - 1) + value_of(e);
            assert(below * below < down * down) by (nonlinear_arith)
                requires
                    0 <= below < down,
            ;
        }
        assert(is_nearest_root(e, n));
    } else {
        assert(is_nearest_root(r, n));
    }
}

/// The step from a scalar to the next greater one, by their patterns.
pub open spec fn step_above(m: int) -> int {
    value_of(m + 1) - value_of(m)
}

/// Between a normal scalar and the next greater one lies the step of its
/// power of two, and between it and the next lesser one no more than that.
proof fn lemma_steps_of_normal(m: int)
    requires
        HIDDEN_BIT <= m < INFINITY_BITS,
    ensures
        value_of(m) - value_of(m - 1) <= step_above(m),
{
    let h = HIDDEN_BIT as int;
    let e = m / h;
    let f = m % h;
    let c = e - 1;
    let p = pow2(c as nat) as int;
    lemma2_to64();
    lemma_pow2_pos(c as nat);
    assert(m == c * h + (h + f));
    assert(m + 1 == c * h + (h + f + 1));
    lemma_value_of_packed(c, h + f);
    lemma_value_of_packed(c, h + f + 1);
    let (here, above) = (value_of(m), value_of(m + 1));
    assert(above - here == p) by (nonlinear_arith)
        requires
            here == (h + f) * p,
            above == (h + f + 1) * p,
    ;
    if f >= 1 {
        assert(m - 1 == c * h + (h + f - 1));
        lemma_value_of_packed(c, h + f - 1);
        let below = value_of(m - 1);
        assert(here - below == p) by (nonlinear_arith)
            requires
                here == (h + f) * p,
                below == (h + f - 1) * p,
        ;
    } else if c == 0 {
        assert(m == h);
        assert(value_of(h - 1) == h - 1);
        assert(here == h) by (nonlinear_arith)
            requires
                here == (h + f) * p,
                f == 0,
                p == 1,
        ;
    } else {
        assert(m - 1 == (c - 1) * h + (2 * h - 1));
        lemma_value_of_packed(c - 1, 2 * h - 1);
        lemma_pow2_unfold(c as nat);
        let under = pow2((c - 1) as nat) as int;
        lemma_pow2_pos((c - 1) as nat);
        let below = value_of(m - 1);
        assert(here - below == under && under <= p) by (nonlinear_arith)
            requires
                here == (h + f) * p,
                f == 0,
                below == (2 * h - 1) * under,
                p == 2 * under,
                under > 0,
        ;
    }
}

/// The step above a scalar is at least the step below it, and never
/// nothing.
pub proof fn lemma_steps_grow(m: int)
    requires
        0 < m < INFINITY_BITS,
    ensures
        0 < value_of(m) - value_of(m - 1) <= step_above(m),
{
    let h = HIDDEN_BIT as int;
    lemma_value_grows(m - 1, m);
    if m < h {
        assert(value_of(m - 1) == m - 1);
        assert(value_of(m) == m);
        if m + 1 < h {
            assert(value_of(m + 1) == m + 1);
        } else {
            lemma_value_of_packed(0, h);
            lemma2_to64();
            assert(h * pow2(0) == h) by (nonlinear_arith)
                requires
                    pow2(0) == 1,
            ;
        }
    } else {
        lemma_steps_of_normal(m);
    }
}

/// The nearest scalar is no farther from a quotient than half the step
/// above it.
pub proof fn lemma_nearest_is_close(m: int, n: int, d: int)
    requires
        n >= 0,
        d > 0,
        is_nearest(m, n, d),
        m < INFINITY_BITS,
    ensures
        2 * (value_of(m) * d - n) <= step_above(m) * d,
        2 * (n - value_of(m) * d) <= step_above(m) * d,
{
    let here = value_of(m);
    let above = value_of(m + 1);
    lemma_value_grows(m, m + 1);
    assert(2 * (n - here * d) <= (above - here) * d) by (nonlinear_arith)
        requires
            2 * n <= (here + above) * d,
    ;
    if m > 0 {
        lemma_steps_grow(m);
        let below = value_of(m - 1);
        assert(2 * (here * d - n) <= (above - here) * d) by (nonlinear_arith)
            requires
                (below + here) * d <= 2 * n,
                here - below <= above - here,
                d > 0,
        ;
    } else {
        assert(value_of(0) == 0);
        assert(2 * (here * d - n) <= (above - here) * d) by (nonlinear_arith)
            requires
                here == 0,
                n >= 0,
                above > here,
                d > 0,
        ;
    }
}

} // verus!
