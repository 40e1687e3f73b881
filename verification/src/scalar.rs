//! Scalars: 64-bit binary floating-point numbers held as their bit patterns.
//!
//! A pattern has one sign bit, eleven exponent bits and fifty-two fraction
//! bits. This module says which number a pattern stands for, and compares
//! scalars as numbers. That needs integers only: every such number is a
//! whole multiple of two to the power -1074, and below the sign bit the
//! patterns grow with the numbers they stand for.
use vstd::prelude::*;
use vstd::arithmetic::div_mod::lemma_fundamental_div_mod;
use vstd::arithmetic::mul::lemma_mul_inequality;
use vstd::arithmetic::mul::lemma_mul_strict_inequality;
use vstd::arithmetic::power2::lemma2_to64;
use vstd::arithmetic::power2::lemma2_to64_rest;
use vstd::arithmetic::power2::lemma_pow2_adds;
use vstd::arithmetic::power2::lemma_pow2_pos;
use vstd::arithmetic::power2::lemma_pow2_strictly_increases;
use vstd::arithmetic::power2::lemma_pow2_unfold;
use vstd::arithmetic::power2::pow2;

verus! {

/// The sign bit of a pattern.
pub const SIGN_BIT: u64 = 0x8000_0000_0000_0000;

/// The pattern of positive infinity; every larger magnitude is not a number.
pub const INFINITY_BITS: u64 = 0x7ff0_0000_0000_0000;

/// The weight of the lowest exponent bit, two to the power 52. In a normal
/// number it is also the weight of the leading one that the pattern leaves
/// out.
pub const HIDDEN_BIT: u64 = 0x0010_0000_0000_0000;

/// The pattern of 0.
pub const ZERO_BITS: u64 = 0x0000_0000_0000_0000;

/// The pattern of the zero with the sign bit set.
pub const NEG_ZERO_BITS: u64 = 0x8000_0000_0000_0000;

/// The pattern of 1.
pub const ONE_BITS: u64 = 0x3ff0_0000_0000_0000;

/// The pattern of -1.
pub const NEG_ONE_BITS: u64 = 0xbff0_0000_0000_0000;

/// The pattern of 2.
pub const TWO_BITS: u64 = 0x4000_0000_0000_0000;

/// The pattern of -2.
pub const NEG_TWO_BITS: u64 = 0xc000_0000_0000_0000;

/// The pattern of 4.
pub const FOUR_BITS: u64 = 0x4010_0000_0000_0000;

/// The number that a pattern without sign stands for, times two to the power
/// 1074, which makes it an integer: the fraction alone below the first normal
/// number, else the fraction under its leading one, doubled once for each
/// step of the exponent above one. The pattern of infinity counts as two to
/// the power 1024, which lies beyond every number.
pub open spec fn value_of(magnitude: int) -> int {
    let exponent = magnitude / (HIDDEN_BIT as int);
    let fraction = magnitude % (HIDDEN_BIT as int);
    if exponent == 0 {
        fraction
    } else {
        (HIDDEN_BIT + fraction) * pow2((exponent - 1) as nat)
    }
}

/// A scalar, as its bit pattern.
#[derive(Clone, Copy, Debug)]
pub struct Scalar {
    pub bits: u64,
}

impl Scalar {
    /// The pattern without its sign bit.
    pub open spec fn magnitude(self) -> int {
        if self.bits >= SIGN_BIT {
            self.bits - SIGN_BIT
        } else {
            self.bits as int
        }
    }

    /// Whether the sign bit is set (it may be on a zero or on a NaN).
    pub open spec fn sign_negative(self) -> bool {
        self.bits >= SIGN_BIT
    }

    /// Whether the pattern stands for no number.
    pub open spec fn nan(self) -> bool {
        self.magnitude() > INFINITY_BITS
    }

    /// The exponent field.
    pub open spec fn exponent(self) -> int {
        self.magnitude() / (HIDDEN_BIT as int)
    }

    /// The fraction field.
    pub open spec fn fraction(self) -> int {
        self.magnitude() % (HIDDEN_BIT as int)
    }

    /// The absolute value of the number, times two to the power 1074.
    pub open spec fn scaled_magnitude(self) -> int {
        value_of(self.magnitude())
    }

    /// The number, times two to the power 1074. The two zeros have the same
    /// value.
    pub open spec fn scaled_value(self) -> int {
        if self.sign_negative() {
            -self.scaled_magnitude()
        } else {
            self.scaled_magnitude()
        }
    }

    /// Whether the scalar stands for the integer `n`.
    pub open spec fn stands_for(self, n: int) -> bool {
        !self.nan() && self.scaled_value() == n * pow2(1074)
    }

    /// Numeric "less than": false as soon as one side is not a number.
    pub open spec fn lt_spec(self, other: Scalar) -> bool {
        !self.nan() && !other.nan() && self.scaled_value() < other.scaled_value()
    }

    /// Numeric "at most": false as soon as one side is not a number.
    pub open spec fn le_spec(self, other: Scalar) -> bool {
        !self.nan() && !other.nan() && self.scaled_value() <= other.scaled_value()
    }

    /// Numeric equality: the two zeros are equal, a NaN equals nothing.
    pub open spec fn same_number(self, other: Scalar) -> bool {
        !self.nan() && !other.nan() && self.scaled_value() == other.scaled_value()
    }

    /// Whether the scalar lies strictly between `lo` and `hi`.
    pub open spec fn inside(self, lo: Scalar, hi: Scalar) -> bool {
        lo.lt_spec(self) && self.lt_spec(hi)
    }

    /// The signed magnitude: the key by which scalars are compared.
    spec fn key(self) -> int {
        if self.sign_negative() {
            -self.magnitude()
        } else {
            self.magnitude()
        }
    }

    /// The scalar with the given pattern.
    pub fn from_bits(bits: u64) -> (s: Scalar)
        ensures
            s.bits == bits,
    {
        Scalar { bits }
    }

    /// The pattern of the scalar.
    pub fn to_bits(self) -> (bits: u64)
        ensures
            bits == self.bits,
    {
        self.bits
    }

    /// The pattern without its sign bit.
    pub fn abs_bits(self) -> (m: u64)
        ensures
            m == self.magnitude(),
            m < SIGN_BIT,
    {
        if self.bits >= SIGN_BIT {
            self.bits - SIGN_BIT
        } else {
            self.bits
        }
    }

    /// Whether the scalar is not a number.
    pub fn is_nan(self) -> (b: bool)
        ensures
            b == self.nan(),
    {
        self.abs_bits() > INFINITY_BITS
    }

    /// The signed magnitude as a machine integer.
    fn signed_key(self) -> (k: i64)
        ensures
            k == self.key(),
    {
        let m: u64 = self.abs_bits();
        if self.bits >= SIGN_BIT {
            0 - (m as i64)
        } else {
            m as i64
        }
    }

    /// Numeric "less than".
    pub fn lt(self, other: Scalar) -> (b: bool)
        ensures
            b == self.lt_spec(other),
    {
        proof {
            lemma_keys_order_as_values(self, other);
        }
        !self.is_nan() && !other.is_nan() && self.signed_key() < other.signed_key()
    }

    /// Numeric equality.
    pub fn same(self, other: Scalar) -> (b: bool)
        ensures
            b == self.same_number(other),
    {
        proof {
            lemma_keys_order_as_values(self, other);
        }
        !self.is_nan() && !other.is_nan() && self.signed_key() == other.signed_key()
    }

    /// Whether the scalar lies strictly between `lo` and `hi`.
    pub fn is_inside(self, lo: Scalar, hi: Scalar) -> (b: bool)
        ensures
            b == self.inside(lo, hi),
    {
        lo.lt(self) && self.lt(hi)
    }
}

impl PartialEq for Scalar {
    /// `==` is numeric equality, not equality of patterns.
    fn eq(&self, other: &Scalar) -> (b: bool) {
        self.same(*other)
    }
}

impl vstd::std_specs::cmp::PartialEqSpecImpl for Scalar {
    open spec fn obeys_eq_spec() -> bool {
        true
    }

    open spec fn eq_spec(&self, other: &Scalar) -> bool {
        self.same_number(*other)
    }
}

/// A greater magnitude stands for a greater absolute value.
pub proof fn lemma_scaled_magnitude_grows(a: Scalar, b: Scalar)
    requires
        a.magnitude() < b.magnitude(),
    ensures
        0 <= a.scaled_magnitude() < b.scaled_magnitude(),
{
    let h = HIDDEN_BIT as int;
    let (ea, fa) = (a.exponent(), a.fraction());
    let (eb, fb) = (b.exponent(), b.fraction());
    assert(a.magnitude() == h * ea + fa && 0 <= fa < h && 0 <= ea) by {
        lemma_fundamental_div_mod(a.magnitude(), h);
    }
    assert(b.magnitude() == h * eb + fb && 0 <= fb < h && 0 <= eb) by {
        lemma_fundamental_div_mod(b.magnitude(), h);
    }
    assert(ea <= eb) by (nonlinear_arith)
        requires
            h * ea + fa < h * eb + fb,
            0 <= fa < h,
            0 <= fb < h,
    ;
    if ea == eb {
        if ea > 0 {
            let p = pow2((ea - 1) as nat) as int;
            lemma_pow2_pos((ea - 1) as nat);
            lemma_mul_strict_inequality(h + fa, h + fb, p);
            lemma_mul_inequality(0, h + fa, p);
        }
    } else {
        let pb = pow2((eb - 1) as nat) as int;
        lemma_pow2_pos((eb - 1) as nat);
        lemma_mul_inequality(h, h + fb, pb);
        if ea == 0 {
            lemma_mul_inequality(1, pb, h);
        } else {
            let pa = pow2((ea - 1) as nat) as int;
            lemma_pow2_pos((ea - 1) as nat);
            lemma_mul_inequality(0, h + fa, pa);
            lemma_mul_strict_inequality(h + fa, 2 * h, pa);
            lemma_pow2_unfold(ea as nat);
            assert((2 * h) * pa == h * pow2(ea as nat)) by (nonlinear_arith)
                requires
                    pow2(ea as nat) == 2 * pa,
            ;
            if ea < eb - 1 {
                lemma_pow2_strictly_increases(ea as nat, (eb - 1) as nat);
            }
            lemma_mul_inequality(pow2(ea as nat) as int, pb, h);
            assert(h * pow2(ea as nat) == pow2(ea as nat) * h) by (nonlinear_arith);
            assert(h * pb == pb * h) by (nonlinear_arith);
        }
    }
}

/// The order of the keys is the order of the values.
proof fn lemma_keys_order_as_values(a: Scalar, b: Scalar)
    ensures
        a.key() < b.key() <==> a.scaled_value() < b.scaled_value(),
        a.key() == b.key() <==> a.scaled_value() == b.scaled_value(),
{
    let zero = Scalar { bits: 0 };
    assert(zero.scaled_magnitude() == 0);
    if a.magnitude() < b.magnitude() {
        lemma_scaled_magnitude_grows(a, b);
    } else if b.magnitude() < a.magnitude() {
        lemma_scaled_magnitude_grows(b, a);
    } else {
        assert(a.exponent() == b.exponent() && a.fraction() == b.fraction());
    }
    if 0 < a.magnitude() {
        lemma_scaled_magnitude_grows(zero, a);
    } else {
        assert(a.exponent() == 0 && a.fraction() == 0);
    }
    if 0 < b.magnitude() {
        lemma_scaled_magnitude_grows(zero, b);
    } else {
        assert(b.exponent() == 0 && b.fraction() == 0);
    }
}

/// The patterns that are named after small integers stand for them.
pub proof fn lemma_small_integers()
    ensures
        (Scalar { bits: ZERO_BITS }).stands_for(0),
        (Scalar { bits: NEG_ZERO_BITS }).stands_for(0),
        (Scalar { bits: ONE_BITS }).stands_for(1),
        (Scalar { bits: NEG_ONE_BITS }).stands_for(-1),
        (Scalar { bits: TWO_BITS }).stands_for(2),
        (Scalar { bits: NEG_TWO_BITS }).stands_for(-2),
        (Scalar { bits: FOUR_BITS }).stands_for(4),
{
    lemma2_to64();
    lemma2_to64_rest();
    lemma_pow2_adds(52, 1022);
    lemma_pow2_adds(52, 1023);
    lemma_pow2_adds(52, 1024);
    lemma_pow2_adds(1, 1074);
    lemma_pow2_adds(2, 1074);
    let one = Scalar { bits: ONE_BITS };
    let two = Scalar { bits: TWO_BITS };
    let four = Scalar { bits: FOUR_BITS };
    assert(one.exponent() == 1023 && one.fraction() == 0);
    assert(two.exponent() == 1024 && two.fraction() == 0);
    assert(four.exponent() == 1025 && four.fraction() == 0);
    assert((Scalar { bits: NEG_ONE_BITS }).magnitude() == one.magnitude());
    assert((Scalar { bits: NEG_TWO_BITS }).magnitude() == two.magnitude());
}

/// The scaled magnitude of a scalar is never negative.
pub proof fn lemma_magnitude_is_not_negative(m: Scalar)
    ensures
        m.scaled_magnitude() >= 0,
{
    if m.exponent() > 0 {
        lemma_pow2_pos((m.exponent() - 1) as nat);
        assert((HIDDEN_BIT + m.fraction()) * pow2((m.exponent() - 1) as nat) >= 0)
            by (nonlinear_arith)
            requires
                HIDDEN_BIT + m.fraction() >= 0,
                pow2((m.exponent() - 1) as nat) > 0,
        ;
    }
}

/// Where a scalar without sign lies among the powers of two: below 1 with an
/// exponent field under 1023, from 256 on with one of 1031 or more.
pub proof fn lemma_value_among_powers(m: Scalar)
    requires
        m.bits < SIGN_BIT,
    ensures
        m.exponent() < 1023 ==> m.scaled_value() < pow2(1074),
        m.exponent() >= 1031 ==> m.scaled_value() >= 256 * pow2(1074),
        1023 <= m.exponent() ==> m.scaled_value() == (HIDDEN_BIT + m.fraction()) * pow2(
            (m.exponent() - 1) as nat,
        ),
{
    let e = m.exponent();
    let f = m.fraction();
    let h = HIDDEN_BIT as int;
    lemma2_to64_rest();
    lemma2_to64();
    lemma_pow2_adds(52, 1022);
    assert(0 <= f < h);
    if e == 0 {
        lemma_pow2_strictly_increases(52, 1074);
    } else if e < 1023 {
        let p = pow2((e - 1) as nat) as int;
        lemma_pow2_pos((e - 1) as nat);
        lemma_pow2_unfold(e as nat);
        if e < 1022 {
            lemma_pow2_strictly_increases(e as nat, 1022);
        }
        assert((h + f) * p < h * pow2(1022)) by (nonlinear_arith)
            requires
                0 <= f < h,
                p > 0,
                2 * p == pow2(e as nat),
                pow2(e as nat) <= pow2(1022),
        ;
    } else if e >= 1031 {
        let p = pow2((e - 1) as nat) as int;
        lemma_pow2_adds(8, 1022);
        if e > 1031 {
            lemma_pow2_strictly_increases(1030, (e - 1) as nat);
        }
        assert((h + f) * p >= 256 * (h * pow2(1022))) by (nonlinear_arith)
            requires
                0 <= f,
                h > 0,
                p >= pow2(1030),
                pow2(1030) == 256 * pow2(1022),
        ;
    }
}

} // verus!
