//! Arithmetic on scalars.
//!
//! Each operation gives the scalar nearest to the exact result, with the
//! usual rules for infinities, for zeros and for what is not a number. The
//! operations work on the patterns with integers alone.
use vstd::prelude::*;
use vstd::arithmetic::power2::lemma2_to64;
use vstd::arithmetic::power2::lemma2_to64_rest;
use vstd::arithmetic::power2::lemma_pow2_adds;
use vstd::arithmetic::power2::lemma_pow2_pos;
use vstd::arithmetic::power2::pow2;
use crate::round::is_nearest;
use crate::round::lemma_exact_is_nearest;
use crate::round::lemma_nearest_exists;
use crate::round::lemma_nearest_is;
use crate::round::lemma_nearest_is_close;
use crate::round::step_above;
use crate::round::lemma_nearest_is_monotone;
use crate::round::lemma_nearest_root_exists;
use crate::round::lemma_value_is_monotone;
use crate::round::lemma_within_is_nearest;
use crate::round::bit_length;
use crate::round::isqrt;
use crate::round::lemma_nearest_root_is;
use crate::round::lemma_root_of_square;
use crate::round::lemma_root_within;
use crate::round::nearest_root;
use crate::round::pow2_u128;
use crate::round::lemma_nearest_same_ratio;
use crate::round::lemma_pow2_is_monotone;
use crate::round::lemma_value_of_packed;
use crate::round::nearest;
use crate::round::round_pack;
use crate::round::{down_shift, up_shift};
use crate::scalar::Scalar;
use crate::scalar::value_of;
use crate::scalar::{HIDDEN_BIT, INFINITY_BITS, ONE_BITS, SIGN_BIT};

verus! {

/// The pattern that stands for no number and that the operations give where
/// no number is the result.
pub const NAN_BITS: u64 = 0x7ff8_0000_0000_0000;

/// The scalar that is not a number.
pub open spec fn not_a_number() -> Scalar {
    Scalar { bits: NAN_BITS }
}

/// The scalar with the given sign and magnitude.
pub open spec fn signed(negative: bool, magnitude: int) -> Scalar {
    Scalar {
        bits: if negative {
            (magnitude + SIGN_BIT) as u64
        } else {
            magnitude as u64
        },
    }
}

impl Scalar {
    /// Whether the scalar is an infinity.
    pub open spec fn infinite(self) -> bool {
        self.magnitude() == INFINITY_BITS
    }

    /// Whether the scalar is a number and not an infinity.
    pub open spec fn finite(self) -> bool {
        self.magnitude() < INFINITY_BITS
    }

    /// The step from the scalar to the next one away from zero.
    pub open spec fn step(self) -> int {
        step_above(self.magnitude())
    }

    /// Whether the scalar is one of the two zeros.
    pub open spec fn zero(self) -> bool {
        self.magnitude() == 0
    }

    /// The product of two scalars: the scalar nearest to the product of the
    /// two numbers, with the sign of the one where the other is positive. An
    /// infinity times zero is not a number.
    pub open spec fn product(self, other: Scalar) -> Scalar {
        if self.nan() || other.nan() {
            not_a_number()
        } else if (self.infinite() && other.zero()) || (self.zero() && other.infinite()) {
            not_a_number()
        } else if self.infinite() || other.infinite() {
            signed(self.sign_negative() != other.sign_negative(), INFINITY_BITS as int)
        } else {
            signed(
                self.sign_negative() != other.sign_negative(),
                nearest(self.scaled_magnitude() * other.scaled_magnitude(), pow2(1074) as int),
            )
        }
    }

    /// The scalar with the other sign.
    pub open spec fn negation(self) -> Scalar {
        signed(!self.sign_negative(), self.magnitude())
    }

    /// The sum of two scalars: the scalar nearest to the sum of the two
    /// numbers. Where the sum is zero it is the positive zero, but for two
    /// negative zeros. Infinities of both signs add up to no number.
    pub open spec fn sum(self, other: Scalar) -> Scalar {
        if self.nan() || other.nan() {
            not_a_number()
        } else if self.infinite() && other.infinite() {
            if self.sign_negative() == other.sign_negative() {
                self
            } else {
                not_a_number()
            }
        } else if self.infinite() {
            self
        } else if other.infinite() {
            other
        } else {
            let exact = self.scaled_value() + other.scaled_value();
            if exact == 0 {
                signed(self.sign_negative() && other.sign_negative(), 0)
            } else if exact > 0 {
                signed(false, nearest(exact, 1))
            } else {
                signed(true, nearest(-exact, 1))
            }
        }
    }

    /// The difference of two scalars: the sum with the negation.
    pub open spec fn difference(self, other: Scalar) -> Scalar {
        self.sum(other.negation())
    }

    /// The square root of a scalar: the scalar nearest to the square root of
    /// the number. A number below zero has none; the negative zero is its
    /// own.
    pub open spec fn root(self) -> Scalar {
        if self.nan() {
            not_a_number()
        } else if self.zero() || (self.infinite() && !self.sign_negative()) {
            self
        } else if self.sign_negative() {
            not_a_number()
        } else {
            signed(false, nearest_root(self.scaled_magnitude() * pow2(1074)))
        }
    }

    /// The scalar that stands for a whole number of 32 bits: each such number
    /// is a scalar.
    pub open spec fn of_u32(i: u32) -> Scalar {
        signed(false, nearest(i * pow2(1074), 1))
    }

    /// The quotient of two scalars: the scalar nearest to the quotient of the
    /// two numbers. A number that is not zero, divided by zero, gives an
    /// infinity; zero by zero and infinity by infinity give no number.
    pub open spec fn quotient(self, other: Scalar) -> Scalar {
        let negative = self.sign_negative() != other.sign_negative();
        if self.nan() || other.nan() {
            not_a_number()
        } else if (self.infinite() && other.infinite()) || (self.zero() && other.zero()) {
            not_a_number()
        } else if self.infinite() || other.zero() {
            signed(negative, INFINITY_BITS as int)
        } else if other.infinite() || self.zero() {
            signed(negative, 0)
        } else {
            signed(
                negative,
                nearest(self.scaled_magnitude() * pow2(1074), other.scaled_magnitude()),
            )
        }
    }
}

/// The scalar with the given sign and magnitude.
fn pack(negative: bool, magnitude: u64) -> (s: Scalar)
    requires
        magnitude < SIGN_BIT,
    ensures
        s == signed(negative, magnitude as int),
        s.magnitude() == magnitude,
        s.sign_negative() == negative,
{
    if negative {
        Scalar::from_bits(magnitude + SIGN_BIT)
    } else {
        Scalar::from_bits(magnitude)
    }
}

/// The significand of a number and how often it is doubled.
fn unpack(magnitude: u64) -> (parts: (u64, i32))
    requires
        magnitude < INFINITY_BITS,
    ensures
        value_of(magnitude as int) == parts.0 * pow2(parts.1 as nat),
        parts.0 < 2 * HIDDEN_BIT,
        0 <= parts.1 <= 2045,
        parts.1 > 0 ==> parts.0 >= HIDDEN_BIT,
        magnitude > 0 ==> parts.0 > 0,
{
    let exponent: u64 = magnitude / HIDDEN_BIT;
    let fraction: u64 = magnitude % HIDDEN_BIT;
    proof {
        lemma2_to64();
    }
    if exponent == 0 {
        proof {
            assert(fraction * pow2(0) == fraction) by (nonlinear_arith)
                requires
                    pow2(0) == 1,
            ;
        }
        (fraction, 0)
    } else {
        (HIDDEN_BIT + fraction, (exponent - 1) as i32)
    }
}

impl vstd::std_specs::ops::MulSpecImpl<Scalar> for Scalar {
    open spec fn obeys_mul_spec() -> bool {
        true
    }

    open spec fn mul_req(self, other: Scalar) -> bool {
        true
    }

    open spec fn mul_spec(self, other: Scalar) -> Scalar {
        self.product(other)
    }
}

impl std::ops::Mul<Scalar> for Scalar {
    type Output = Scalar;

    /// The product of two scalars.
    fn mul(self, other: Scalar) -> (r: Scalar) {
        let ma: u64 = self.abs_bits();
        let mb: u64 = other.abs_bits();
        let negative: bool = (self.bits >= SIGN_BIT) != (other.bits >= SIGN_BIT);
        if ma > INFINITY_BITS || mb > INFINITY_BITS {
            return Scalar::from_bits(NAN_BITS);
        }
        if ma == INFINITY_BITS || mb == INFINITY_BITS {
            if ma == 0 || mb == 0 {
                return Scalar::from_bits(NAN_BITS);
            }
            return pack(negative, INFINITY_BITS);
        }
        let (sa, ca) = unpack(ma);
        let (sb, cb) = unpack(mb);
        proof {
            lemma2_to64();
            lemma2_to64_rest();
            lemma_pow2_adds(53, 53);
            lemma_pow2_is_monotone(106, 120);
            assert(sa * sb < 0x0020_0000_0000_0000 * 0x0020_0000_0000_0000) by (nonlinear_arith)
                requires
                    sa < 0x0020_0000_0000_0000,
                    sb < 0x0020_0000_0000_0000,
            ;
        }
        let q: u128 = (sa as u128) * (sb as u128);
        let k: i32 = ca + cb - 1074;
        let m: u64 = round_pack(q, false, k);
        proof {
            let kp = up_shift(k as int);
            let kn = down_shift(k as int);
            let va = value_of(ma as int);
            let vb = value_of(mb as int);
            let pa = pow2(ca as nat) as int;
            let pb = pow2(cb as nat) as int;
            lemma_pow2_adds(ca as nat, cb as nat);
            lemma_pow2_pos(kp);
            lemma_pow2_pos(kn);
            lemma_pow2_pos(1074);
            let both = pow2((ca + cb) as nat) as int;
            assert(va * vb == q * both) by (nonlinear_arith)
                requires
                    va == sa * pa,
                    vb == sb * pb,
                    q == sa * sb,
                    both == pa * pb,
            ;
            // the same quotient, over two to the power 1074
            let left = pow2(kp) * pow2(1074);
            let right = both * pow2(kn);
            if k >= 0 {
                lemma_pow2_adds(kp, 1074);
                assert(kp + 1074 == ca + cb);
                assert(left == both);
                assert(right == both) by (nonlinear_arith)
                    requires
                        right == both * pow2(kn),
                        pow2(kn) == 1,
                ;
            } else {
                lemma_pow2_adds(kn, (ca + cb) as nat);
                assert(kn + (ca + cb) == 1074);
                assert(left == pow2(1074)) by (nonlinear_arith)
                    requires
                        left == pow2(kp) * pow2(1074),
                        pow2(kp) == 1,
                ;
                assert(right == pow2(kn) * both) by (nonlinear_arith)
                    requires
                        right == both * pow2(kn),
                ;
            }
            assert(pow2(kp) * pow2(1074) == both * pow2(kn));
            assert((q * pow2(kp)) * pow2(1074) == (q * both) * pow2(kn)) by (nonlinear_arith)
                requires
                    pow2(kp) * pow2(1074) == both * pow2(kn),
            ;
            lemma_nearest_same_ratio(
                m as int,
                q * pow2(kp),
                pow2(kn) as int,
                va * vb,
                pow2(1074) as int,
            );
            lemma_nearest_is(m as int, va * vb, pow2(1074) as int);
        }
        pack(negative, m)
    }
}

/// The nearest pattern to a number that is given by its leading bits, as far
/// as `nearest` names it.
fn round_exact(q: u128, k: i32) -> (m: u64)
    requires
        q < pow2(120),
        0 <= k <= 5000,
    ensures
        m <= INFINITY_BITS,
        m == nearest(q * pow2(k as nat), 1),
{
    let m = round_pack(q, false, k);
    proof {
        lemma2_to64();
        lemma_nearest_is(m as int, q * pow2(k as nat), 1);
    }
    m
}

impl Scalar {
    /// The scalar with the other sign.
    pub fn neg(self) -> (r: Scalar)
        ensures
            r == self.negation(),
    {
        let m: u64 = self.abs_bits();
        pack(!(self.bits >= SIGN_BIT), m)
    }
}

impl vstd::std_specs::ops::AddSpecImpl<Scalar> for Scalar {
    open spec fn obeys_add_spec() -> bool {
        true
    }

    open spec fn add_req(self, other: Scalar) -> bool {
        true
    }

    open spec fn add_spec(self, other: Scalar) -> Scalar {
        self.sum(other)
    }
}

impl std::ops::Add<Scalar> for Scalar {
    type Output = Scalar;

    /// The sum of two scalars.
    fn add(self, other: Scalar) -> (r: Scalar) {
        let ma: u64 = self.abs_bits();
        let mb: u64 = other.abs_bits();
        let na: bool = self.bits >= SIGN_BIT;
        let nb: bool = other.bits >= SIGN_BIT;
        if ma > INFINITY_BITS || mb > INFINITY_BITS {
            return Scalar::from_bits(NAN_BITS);
        }
        if ma == INFINITY_BITS && mb == INFINITY_BITS {
            if na == nb {
                return self;
            }
            return Scalar::from_bits(NAN_BITS);
        }
        if ma == INFINITY_BITS {
            return self;
        }
        if mb == INFINITY_BITS {
            return other;
        }
        let (sa, ca) = unpack(ma);
        let (sb, cb) = unpack(mb);
        if ca >= cb {
            add_aligned(sa, ca, na, ma, sb, cb, nb, na && nb)
        } else {
            add_aligned(sb, cb, nb, mb, sa, ca, na, na && nb)
        }
    }
}

impl vstd::std_specs::ops::SubSpecImpl<Scalar> for Scalar {
    open spec fn obeys_sub_spec() -> bool {
        true
    }

    open spec fn sub_req(self, other: Scalar) -> bool {
        true
    }

    open spec fn sub_spec(self, other: Scalar) -> Scalar {
        self.difference(other)
    }
}

impl std::ops::Sub<Scalar> for Scalar {
    type Output = Scalar;

    /// The difference of two scalars.
    fn sub(self, other: Scalar) -> (r: Scalar) {
        self + other.neg()
    }
}

/// What `add_aligned` gives: the sum of two numbers that are given by sign,
/// significand and doublings.
pub open spec fn aligned_sum(
    vh: int,
    nh: bool,
    vl: int,
    nl: bool,
    both_negative: bool,
) -> Scalar {
    let exact = (if nh {
        -vh
    } else {
        vh
    }) + (if nl {
        -vl
    } else {
        vl
    });
    if exact == 0 {
        signed(both_negative, 0)
    } else if exact > 0 {
        signed(false, nearest(exact, 1))
    } else {
        signed(true, nearest(-exact, 1))
    }
}

/// The sum of two numbers, the first with at least as many doublings as the
/// second.
fn add_aligned(
    sh: u64,
    ch: i32,
    nh: bool,
    mh: u64,
    sl: u64,
    cl: i32,
    nl: bool,
    both_negative: bool,
) -> (r: Scalar)
    requires
        sh < 2 * HIDDEN_BIT,
        sl < 2 * HIDDEN_BIT,
        0 <= cl <= ch <= 2045,
        ch > 0 ==> sh >= HIDDEN_BIT,
        mh < INFINITY_BITS,
        value_of(mh as int) == sh * pow2(ch as nat),
        both_negative == (nh && nl),
    ensures
        r == aligned_sum(sh * pow2(ch as nat), nh, sl * pow2(cl as nat), nl, both_negative),
{
    let d: i32 = ch - cl;
    let ghost vh: int = sh * pow2(ch as nat);
    let ghost vl: int = sl * pow2(cl as nat);
    let ghost pl = pow2(cl as nat) as int;
    proof {
        lemma2_to64();
        lemma2_to64_rest();
        lemma_pow2_pos(cl as nat);
        lemma_pow2_pos(ch as nat);
        lemma_pow2_adds(d as nat, cl as nat);
    }
    if d <= 60 {
        let t: u128 = pow2_u128(d as u32);
        proof {
            lemma_pow2_is_monotone(d as nat, 60);
            lemma_pow2_adds(53, 60);
            lemma_pow2_is_monotone(114, 120);
            lemma_pow2_adds(1, 113);
            assert(sh * t < pow2(113)) by (nonlinear_arith)
                requires
                    sh < pow2(53),
                    0 < t <= pow2(60),
                    pow2(113) == pow2(53) * pow2(60),
            ;
        }
        let qh: u128 = (sh as u128) * t;
        let ql: u128 = sl as u128;
        proof {
            assert(vh == qh * pl) by (nonlinear_arith)
                requires
                    vh == sh * pow2(ch as nat),
                    qh == sh * t,
                    pow2(ch as nat) == t * pl,
            ;
        }
        if nh == nl {
            let q: u128 = qh + ql;
            proof {
                assert(vh + vl == q * pl) by (nonlinear_arith)
                    requires
                        vh == qh * pl,
                        vl == sl * pl,
                        q == qh + sl,
                ;
                assert(q == 0 <==> vh + vl == 0) by (nonlinear_arith)
                    requires
                        vh + vl == q * pl,
                        pl > 0,
                        q >= 0,
                ;
            }
            if q == 0 {
                return pack(both_negative, 0);
            }
            let m = round_exact(q, cl);
            proof {
                assert(q * pl > 0) by (nonlinear_arith)
                    requires
                        q > 0,
                        pl > 0,
                ;
            }
            pack(nh, m)
        } else if qh >= ql {
            let q: u128 = qh - ql;
            proof {
                assert(vh - vl == q * pl) by (nonlinear_arith)
                    requires
                        vh == qh * pl,
                        vl == sl * pl,
                        q == qh - sl,
                ;
                assert(q == 0 <==> vh - vl == 0) by (nonlinear_arith)
                    requires
                        vh - vl == q * pl,
                        pl > 0,
                        q >= 0,
                ;
            }
            if q == 0 {
                return pack(false, 0);
            }
            let m = round_exact(q, cl);
            proof {
                assert(q * pl > 0) by (nonlinear_arith)
                    requires
                        q > 0,
                        pl > 0,
                ;
            }
            pack(nh, m)
        } else {
            let q: u128 = ql - qh;
            proof {
                assert(vl - vh == q * pl) by (nonlinear_arith)
                    requires
                        vh == qh * pl,
                        vl == sl * pl,
                        q == sl - qh,
                ;
                assert(q * pl > 0) by (nonlinear_arith)
                    requires
                        q > 0,
                        pl > 0,
                ;
            }
            let m = round_exact(q, cl);
            pack(nl, m)
        }
    } else if sl == 0 {
        proof {
            assert(vl == 0) by (nonlinear_arith)
                requires
                    vl == sl * pl,
                    sl == 0,
            ;
            assert(vh > 0) by (nonlinear_arith)
                requires
                    vh == sh * pow2(ch as nat),
                    sh >= HIDDEN_BIT,
                    pow2(ch as nat) > 0,
            ;
            lemma_exact_is_nearest(mh as int, vh, 1);
            lemma_nearest_is(mh as int, vh, 1);
        }
        pack(nh, mh)
    } else {
        // the lesser number only tells on which side of a scalar the sum lies
        let qh: u128 = (sh as u128) * 8;
        let k: i32 = ch - 3;
        let ghost pk = pow2(k as nat) as int;
        proof {
            lemma_pow2_adds(3, k as nat);
            lemma_pow2_pos(k as nat);
            lemma_pow2_is_monotone(56, 120);
            assert(vh == qh * pk) by (nonlinear_arith)
                requires
                    vh == sh * pow2(ch as nat),
                    qh == sh * 8,
                    pow2(ch as nat) == 8 * pk,
            ;
            lemma_pow2_adds(53, cl as nat);
            lemma_pow2_is_monotone((53 + cl) as nat, k as nat);
            assert(0 < vl < pk) by (nonlinear_arith)
                requires
                    vl == sl * pl,
                    0 < sl < pow2(53),
                    pl > 0,
                    pow2(53) * pl <= pk,
            ;
        }
        if nh == nl {
            let m = round_pack(qh, true, k);
            proof {
                assert(qh * pk * 1 < (vh + vl) * 1 && (vh + vl) * 1 < (qh + 1) * pk * 1)
                    by (nonlinear_arith)
                    requires
                        vh == qh * pk,
                        0 < vl < pk,
                ;
                lemma_within_is_nearest(m as int, qh as int, k as nat, 0, vh + vl, 1);
                lemma_nearest_is(m as int, vh + vl, 1);
            }
            pack(nh, m)
        } else {
            let m = round_pack(qh - 1, true, k);
            proof {
                assert((qh - 1) * pk * 1 < (vh - vl) * 1 && (vh - vl) * 1 < (qh - 1 + 1) * pk * 1)
                    by (nonlinear_arith)
                    requires
                        vh == qh * pk,
                        0 < vl < pk,
                ;
                lemma_within_is_nearest(m as int, qh - 1, k as nat, 0, vh - vl, 1);
                lemma_nearest_is(m as int, vh - vl, 1);
            }
            pack(nh, m)
        }
    }
}

/// A significand with its leading bit brought up to the place of the hidden
/// bit, and by how many places it was moved.
fn normalize(sig: u64) -> (parts: (u64, i32))
    requires
        0 < sig < 2 * HIDDEN_BIT,
    ensures
        HIDDEN_BIT <= parts.0 < 2 * HIDDEN_BIT,
        0 <= parts.1 <= 52,
        parts.0 == sig * pow2(parts.1 as nat),
        sig >= HIDDEN_BIT ==> parts.1 == 0,
{
    let l: u32 = bit_length(sig as u128);
    proof {
        lemma2_to64();
        lemma2_to64_rest();
        if l > 53 {
            lemma_pow2_is_monotone(53, (l - 1) as nat);
        }
        if l < 53 && sig >= HIDDEN_BIT {
            lemma_pow2_is_monotone(l as nat, 52);
        }
    }
    let z: u32 = 53 - l;
    let t: u128 = pow2_u128(z);
    proof {
        lemma_pow2_adds(l as nat, z as nat);
        lemma_pow2_adds((l - 1) as nat, z as nat);
        assert(pow2(52) <= sig * t < pow2(53)) by (nonlinear_arith)
            requires
                pow2((l - 1) as nat) <= sig < pow2(l as nat),
                t > 0,
                pow2(l as nat) * t == pow2(53),
                pow2((l - 1) as nat) * t == pow2(52),
        ;
    }
    (((sig as u128) * t) as u64, z as i32)
}

impl vstd::std_specs::ops::DivSpecImpl<Scalar> for Scalar {
    open spec fn obeys_div_spec() -> bool {
        true
    }

    open spec fn div_req(self, other: Scalar) -> bool {
        true
    }

    open spec fn div_spec(self, other: Scalar) -> Scalar {
        self.quotient(other)
    }
}

impl std::ops::Div<Scalar> for Scalar {
    type Output = Scalar;

    /// The quotient of two scalars.
    fn div(self, other: Scalar) -> (r: Scalar) {
        let ma: u64 = self.abs_bits();
        let mb: u64 = other.abs_bits();
        let negative: bool = (self.bits >= SIGN_BIT) != (other.bits >= SIGN_BIT);
        if ma > INFINITY_BITS || mb > INFINITY_BITS {
            return Scalar::from_bits(NAN_BITS);
        }
        if (ma == INFINITY_BITS && mb == INFINITY_BITS) || (ma == 0 && mb == 0) {
            return Scalar::from_bits(NAN_BITS);
        }
        if ma == INFINITY_BITS || mb == 0 {
            return pack(negative, INFINITY_BITS);
        }
        if mb == INFINITY_BITS || ma == 0 {
            return pack(negative, 0);
        }
        let (sa, ca) = unpack(ma);
        let (sb, cb) = unpack(mb);
        let (na, z) = normalize(sa);
        proof {
            lemma2_to64();
            lemma2_to64_rest();
            lemma_pow2_adds(53, 64);
            lemma_pow2_adds(52, 64);
            lemma_pow2_is_monotone(117, 120);
            lemma_pow2_is_monotone(54, 63);
            assert(na * 0x1_0000_0000_0000_0000 < pow2(117)) by (nonlinear_arith)
                requires
                    na < pow2(53),
                    pow2(117) == pow2(53) * 0x1_0000_0000_0000_0000,
            ;
        }
        let num: u128 = (na as u128) * 0x1_0000_0000_0000_0000;
        let q: u128 = num / (sb as u128);
        let rem: u128 = num % (sb as u128);
        let sticky: bool = rem != 0;
        let k: i32 = ca - cb - z + 1010;
        proof {
            vstd::arithmetic::div_mod::lemma_fundamental_div_mod(num as int, sb as int);
            assert(num == q * sb + rem) by (nonlinear_arith)
                requires
                    num == sb * q + rem,
            ;
            assert(q >= pow2(63)) by (nonlinear_arith)
                requires
                    num == q * sb + rem,
                    rem < sb,
                    0 < sb < pow2(53),
                    num >= pow2(52) * 0x1_0000_0000_0000_0000,
                    pow2(52) == 0x0010_0000_0000_0000,
                    pow2(53) == 0x0020_0000_0000_0000,
                    pow2(63) == 0x8000_0000_0000_0000,
            ;
            assert(q <= num) by (nonlinear_arith)
                requires
                    num == q * sb + rem,
                    rem >= 0,
                    sb >= 1,
                    q >= 0,
            ;
        }
        let m: u64 = round_pack(q, sticky, k);
        proof {
            let kp = up_shift(k as int);
            let kn = down_shift(k as int);
            let va = value_of(ma as int);
            let vb = value_of(mb as int);
            let n = va * pow2(1074);
            // both sides of the division, brought to one power of two
            let below = pow2((cb + kp) as nat) as int;
            let above = pow2((ca + 1074 + kn) as nat) as int;
            let zz = pow2((z + 64) as nat) as int;
            lemma_pow2_adds(cb as nat, kp);
            lemma_pow2_adds(ca as nat, 1074);
            lemma_pow2_adds((ca + 1074) as nat, kn);
            lemma_pow2_adds(z as nat, 64);
            lemma_pow2_adds((cb + kp) as nat, (z + 64) as nat);
            lemma_pow2_pos((cb + kp) as nat);
            lemma_pow2_pos(cb as nat);
            lemma_pow2_pos(kp);
            lemma_pow2_pos(kn);
            assert(cb + kp + z + 64 == ca + 1074 + kn);
            assert(below * zz == above);
            assert(sa * zz == num) by (nonlinear_arith)
                requires
                    num == na * 0x1_0000_0000_0000_0000,
                    na == sa * pow2(z as nat),
                    zz == pow2(z as nat) * 0x1_0000_0000_0000_0000,
            ;
            assert(n * pow2(kn) == sa * above) by (nonlinear_arith)
                requires
                    n == va * pow2(1074),
                    va == sa * pow2(ca as nat),
                    above == (pow2(ca as nat) * pow2(1074)) * pow2(kn),
            ;
            assert(sa * above == num * below) by (nonlinear_arith)
                requires
                    sa * zz == num,
                    below * zz == above,
            ;
            assert(q * pow2(kp) * vb == (q * sb) * below) by (nonlinear_arith)
                requires
                    vb == sb * pow2(cb as nat),
                    below == pow2(cb as nat) * pow2(kp),
            ;
            assert(vb > 0) by (nonlinear_arith)
                requires
                    vb == sb * pow2(cb as nat),
                    sb > 0,
                    pow2(cb as nat) > 0,
            ;
            if sticky {
                assert((q + 1) * pow2(kp) * vb == ((q + 1) * sb) * below) by (nonlinear_arith)
                    requires
                        vb == sb * pow2(cb as nat),
                        below == pow2(cb as nat) * pow2(kp),
                ;
                assert((q * sb) * below < num * below && num * below < ((q + 1) * sb) * below)
                    by (nonlinear_arith)
                    requires
                        num == q * sb + rem,
                        0 < rem < sb,
                        below > 0,
                ;
                lemma_within_is_nearest(m as int, q as int, kp, kn, n, vb);
            } else {
                assert(num == q * sb);
                lemma_nearest_same_ratio(m as int, q * pow2(kp), pow2(kn) as int, n, vb);
            }
            lemma_nearest_is(m as int, n, vb);
        }
        pack(negative, m)
    }
}

impl Scalar {
    /// The square root of a scalar.
    pub fn sqrt(self) -> (r: Scalar)
        ensures
            r == self.root(),
    {
        let ma: u64 = self.abs_bits();
        let negative: bool = self.bits >= SIGN_BIT;
        if ma > INFINITY_BITS {
            return Scalar::from_bits(NAN_BITS);
        }
        if ma == 0 || (ma == INFINITY_BITS && !negative) {
            return self;
        }
        if negative {
            return Scalar::from_bits(NAN_BITS);
        }
        let (sa, ca) = unpack(ma);
        let (na, z) = normalize(sa);
        let t: i32 = ca - z + 1074;
        let u: i32 = if (t - 58) % 2 == 0 {
            58
        } else {
            59
        };
        let j: i32 = (t - u) / 2;
        let scale: u128 = pow2_u128(u as u32);
        proof {
            lemma2_to64();
            lemma2_to64_rest();
            lemma_pow2_is_monotone(u as nat, 59);
            lemma_pow2_is_monotone(58, u as nat);
            lemma_pow2_adds(53, 59);
            lemma_pow2_adds(52, 58);
            lemma_pow2_is_monotone(112, 120);
            let (lo_sig, hi_sig) = (pow2(52) as int, pow2(53) as int);
            let (lo_scale, hi_scale) = (pow2(58) as int, pow2(59) as int);
            assert(lo_sig * lo_scale <= na * scale) by (nonlinear_arith)
                requires
                    0 <= lo_sig <= na,
                    0 <= lo_scale <= scale,
            ;
            assert(na * scale < hi_sig * hi_scale) by (nonlinear_arith)
                requires
                    0 <= na < hi_sig,
                    0 < scale <= hi_scale,
            ;
        }
        let r: u128 = (na as u128) * scale;
        let root: u64 = isqrt(r);
        proof {
            lemma_pow2_adds(55, 55);
            lemma_pow2_adds(56, 56);
            lemma_pow2_is_monotone(54, 55);
            lemma_pow2_is_monotone(56, 120);
            assert(pow2(55) <= root < pow2(56)) by (nonlinear_arith)
                requires
                    root * root <= r < (root + 1) * (root + 1),
                    pow2(55) * pow2(55) <= r < pow2(56) * pow2(56),
                    root >= 0,
                    pow2(55) > 0,
                    pow2(56) > 0,
            ;
            assert(root * root < 0x0100_0000_0000_0000 * 0x0100_0000_0000_0000)
                by (nonlinear_arith)
                requires
                    0 <= root < 0x0100_0000_0000_0000,
            ;
        }
        let sticky: bool = (root as u128) * (root as u128) != r;
        let m: u64 = round_pack(root as u128, sticky, j);
        proof {
            let va = value_of(ma as int);
            let n = va * pow2(1074);
            let pj = pow2(j as nat) as int;
            lemma_pow2_pos(j as nat);
            lemma_pow2_adds(j as nat, j as nat);
            lemma_pow2_adds(u as nat, (2 * j) as nat);
            lemma_pow2_adds(z as nat, t as nat);
            lemma_pow2_adds(ca as nat, 1074);
            assert(u + 2 * j == t);
            assert(z + t == ca + 1074);
            // the number under the root is `r`, four to the power `j` times
            assert(n == r * (pj * pj)) by (nonlinear_arith)
                requires
                    n == va * pow2(1074),
                    va == sa * pow2(ca as nat),
                    na == sa * pow2(z as nat),
                    r == na * scale,
                    pow2(z as nat) * pow2(t as nat) == pow2(ca as nat) * pow2(1074),
                    pow2(t as nat) == scale * (pj * pj),
            ;
            let x = root * pj;
            assert(up_shift(j as int) == j as nat && down_shift(j as int) == 0);
            if sticky {
                let y = (root + 1) * pj;
                assert(x * x < n && n < y * y) by (nonlinear_arith)
                    requires
                        x == root * pj,
                        y == (root + 1) * pj,
                        n == r * (pj * pj),
                        root * root < r,
                        r < (root + 1) * (root + 1),
                        pj > 0,
                ;
                lemma_root_within(m as int, root as int, j as nat, n);
            } else {
                assert(x * x == n) by (nonlinear_arith)
                    requires
                        x == root * pj,
                        n == r * (pj * pj),
                        root * root == r,
                ;
                assert(x >= 0) by (nonlinear_arith)
                    requires
                        x == root * pj,
                        root >= 0,
                        pj > 0,
                ;
                lemma_root_of_square(m as int, x, n);
            }
            lemma_nearest_root_is(m as int, n);
        }
        pack(false, m)
    }
}

impl Scalar {
    /// The scalar that stands for a whole number of 32 bits.
    pub fn from_u32(i: u32) -> (r: Scalar)
        ensures
            r == Scalar::of_u32(i),
            r.stands_for(i as int),
            !r.sign_negative(),
    {
        proof {
            lemma2_to64();
            lemma2_to64_rest();
            lemma_pow2_is_monotone(32, 53);
            lemma_pow2_is_monotone(32, 120);
        }
        let m: u64 = round_pack(i as u128, false, 1074);
        proof {
            let unit = pow2(1074) as int;
            lemma_pow2_pos(1074);
            lemma_nearest_is(m as int, i * unit, 1);
            // far from the greatest number
            lemma_value_of_packed(2046, HIDDEN_BIT as int);
            lemma_pow2_adds(52, 2046);
            lemma_pow2_adds(33, 1074);
            lemma_pow2_is_monotone(1107, 2098);
            crate::round::lemma_value_is_monotone(0, INFINITY_BITS - 1);
            assert(2 * (i * unit) < pow2(33) * unit) by (nonlinear_arith)
                requires
                    i < pow2(32),
                    pow2(33) == 2 * pow2(32),
                    unit > 0,
            ;
            assert(m < INFINITY_BITS);
        }
        pack(false, m)
    }
}

/// A scalar times one is the scalar.
pub proof fn lemma_times_one(a: Scalar)
    requires
        !a.nan(),
    ensures
        a.product(Scalar { bits: ONE_BITS }) == a,
{
    let one = Scalar { bits: ONE_BITS };
    crate::scalar::lemma_small_integers();
    lemma_pow2_pos(1074);
    if !a.infinite() {
        let va = a.scaled_magnitude();
        assert(1 * pow2(1074) == pow2(1074)) by (nonlinear_arith);
        lemma_exact_is_nearest(a.magnitude(), va * pow2(1074), pow2(1074) as int);
        lemma_nearest_is(a.magnitude(), va * pow2(1074), pow2(1074) as int);
    }
}

/// A finite scalar times zero is a zero.
pub proof fn lemma_times_zero(a: Scalar, z: Scalar)
    requires
        a.magnitude() < INFINITY_BITS,
        z.zero(),
    ensures
        a.product(z).zero(),
{
    lemma_pow2_pos(1074);
    assert(value_of(0) == 0);
    assert(a.scaled_magnitude() * 0 == 0) by (nonlinear_arith);
    assert(0 * pow2(1074) == 0) by (nonlinear_arith);
    lemma_exact_is_nearest(0, 0, pow2(1074) as int);
    lemma_nearest_is(0, 0, pow2(1074) as int);
}

/// A number plus zero is the number.
pub proof fn lemma_plus_zero(a: Scalar, z: Scalar)
    requires
        !a.nan(),
        z.zero(),
    ensures
        a.sum(z).same_number(a),
{
    assert(value_of(0) == 0);
    if !a.infinite() {
        let va = a.scaled_magnitude();
        if a.magnitude() > 0 {
            crate::round::lemma_value_grows(0, a.magnitude());
        }
        assert(va * 1 == va) by (nonlinear_arith);
        lemma_exact_is_nearest(a.magnitude(), va, 1);
        lemma_nearest_is(a.magnitude(), va, 1);
    }
}

/// What a scalar with a given sign and pattern is.
pub proof fn lemma_signed_value(negative: bool, m: int)
    requires
        0 <= m <= INFINITY_BITS,
    ensures
        signed(negative, m).magnitude() == m,
        signed(negative, m).sign_negative() == negative,
        !signed(negative, m).nan(),
        0 <= value_of(m) <= value_of(INFINITY_BITS as int),
        signed(negative, m).scaled_value() == (if negative {
            -value_of(m)
        } else {
            value_of(m)
        }),
{
    lemma_value_is_monotone(0, m);
    lemma_value_is_monotone(m, INFINITY_BITS as int);
    assert(value_of(0) == 0);
}

/// The value of the sum of two finite scalars, said with the sign apart: it
/// has the sign of the exact sum, and the nearest pattern to its size.
pub proof fn lemma_finite_sum(x: Scalar, y: Scalar)
    requires
        x.magnitude() < INFINITY_BITS,
        y.magnitude() < INFINITY_BITS,
    ensures
        !x.sum(y).nan(),
        ({
            let exact = x.scaled_value() + y.scaled_value();
            let size = if exact >= 0 {
                exact
            } else {
                -exact
            };
            let value = value_of(nearest(size, 1));
            &&& 0 <= nearest(size, 1) <= INFINITY_BITS
            &&& x.sum(y).scaled_value() == (if exact >= 0 {
                value
            } else {
                -value
            })
            &&& exact == 0 ==> x.sum(y).scaled_value() == 0
        }),
{
    let exact = x.scaled_value() + y.scaled_value();
    let size = if exact >= 0 {
        exact
    } else {
        -exact
    };
    lemma_nearest_exists(size, 1);
    let m = nearest(size, 1);
    lemma_signed_value(false, m);
    lemma_signed_value(true, m);
    lemma_signed_value(false, 0);
    lemma_signed_value(true, 0);
    assert(value_of(0) == 0);
    if exact == 0 {
        assert(0 == value_of(0) * 1);
        lemma_exact_is_nearest(0, 0, 1);
        lemma_nearest_is(0, 0, 1);
    }
}

/// Adding a greater number gives no lesser sum.
pub proof fn lemma_sum_is_monotone(x: Scalar, y1: Scalar, y2: Scalar)
    requires
        y1.le_spec(y2),
    ensures
        !x.sum(y2).lt_spec(x.sum(y1)),
{
    let top = value_of(INFINITY_BITS as int);
    lemma_signed_value(false, y1.magnitude());
    lemma_signed_value(false, y2.magnitude());
    if y1.magnitude() < INFINITY_BITS {
        crate::round::lemma_value_grows(y1.magnitude(), INFINITY_BITS as int);
    }
    if y2.magnitude() < INFINITY_BITS {
        crate::round::lemma_value_grows(y2.magnitude(), INFINITY_BITS as int);
    }
    if x.nan() {
    } else if x.infinite() {
    } else if y1.infinite() && y2.infinite() {
    } else if y1.infinite() {
        lemma_finite_sum(x, y2);
        let exact = x.scaled_value() + y2.scaled_value();
        lemma_signed_value(false, nearest(if exact >= 0 { exact } else { -exact }, 1));
        assert(y1.sign_negative());
    } else if y2.infinite() {
        lemma_finite_sum(x, y1);
        let exact = x.scaled_value() + y1.scaled_value();
        lemma_signed_value(false, nearest(if exact >= 0 { exact } else { -exact }, 1));
        assert(!y2.sign_negative());
    } else {
        lemma_finite_sum(x, y1);
        lemma_finite_sum(x, y2);
        let e1 = x.scaled_value() + y1.scaled_value();
        let e2 = x.scaled_value() + y2.scaled_value();
        assert(e1 <= e2);
        if e1 > 0 {
            assert(e1 * 1 <= e2 * 1);
            lemma_nearest_is_monotone(e1, 1, e2, 1);
            lemma_value_is_monotone(nearest(e1, 1), nearest(e2, 1));
        } else if e2 < 0 {
            assert((-e2) * 1 <= (-e1) * 1);
            lemma_nearest_is_monotone(-e2, 1, -e1, 1);
            lemma_value_is_monotone(nearest(-e2, 1), nearest(-e1, 1));
        } else {
            lemma_signed_value(false, nearest(e2, 1));
            lemma_signed_value(false, nearest(-e1, 1));
        }
    }
}

/// The value of the quotient of two numbers, the second finite and not
/// zero, said with the sign apart.
proof fn lemma_finite_quotient(n: Scalar, d: Scalar)
    requires
        !n.nan(),
        0 < d.magnitude() < INFINITY_BITS,
    ensures
        !n.quotient(d).nan(),
        ({
            let size = if n.infinite() {
                INFINITY_BITS as int
            } else {
                nearest(n.scaled_magnitude() * pow2(1074), d.scaled_magnitude())
            };
            &&& 0 <= size <= INFINITY_BITS
            &&& n.quotient(d).scaled_value() == (if n.sign_negative() != d.sign_negative() {
                -value_of(size)
            } else {
                value_of(size)
            })
        }),
{
    let vd = d.scaled_magnitude();
    let vn = n.scaled_magnitude();
    let negative = n.sign_negative() != d.sign_negative();
    crate::round::lemma_value_grows(0, d.magnitude());
    assert(value_of(0) == 0);
    lemma_pow2_pos(1074);
    lemma_signed_value(negative, INFINITY_BITS as int);
    lemma_signed_value(negative, 0);
    if !n.infinite() {
        lemma_value_is_monotone(0, n.magnitude());
        assert(vn * pow2(1074) >= 0) by (nonlinear_arith)
            requires
                vn >= 0,
                pow2(1074) > 0,
        ;
        lemma_nearest_exists(vn * pow2(1074), vd);
        lemma_signed_value(negative, nearest(vn * pow2(1074), vd));
        if n.zero() {
            assert(vn * pow2(1074) == 0) by (nonlinear_arith)
                requires
                    vn == 0,
            ;
            assert(0 == value_of(0) * vd) by (nonlinear_arith)
                requires
                    value_of(0) == 0,
            ;
            lemma_exact_is_nearest(0, 0, vd);
            lemma_nearest_is(0, 0, vd);
        }
    }
}

/// Dividing a greater number by a divisor that is not negative gives no
/// lesser quotient.
pub proof fn lemma_quotient_is_monotone(n1: Scalar, n2: Scalar, d: Scalar)
    requires
        n1.le_spec(n2),
        !d.nan(),
        !d.sign_negative(),
    ensures
        !n2.quotient(d).lt_spec(n1.quotient(d)),
{
    let top = value_of(INFINITY_BITS as int);
    let unit = pow2(1074) as int;
    lemma_pow2_pos(1074);
    lemma_signed_value(false, n1.magnitude());
    lemma_signed_value(false, n2.magnitude());
    lemma_signed_value(false, INFINITY_BITS as int);
    lemma_signed_value(true, INFINITY_BITS as int);
    lemma_signed_value(false, 0);
    lemma_signed_value(true, 0);
    assert(value_of(0) == 0);
    if n1.magnitude() < INFINITY_BITS {
        crate::round::lemma_value_grows(n1.magnitude(), INFINITY_BITS as int);
    }
    if n2.magnitude() < INFINITY_BITS {
        crate::round::lemma_value_grows(n2.magnitude(), INFINITY_BITS as int);
    }
    if d.infinite() {
    } else if d.zero() {
        if n1.zero() || n2.zero() {
        } else {
            crate::round::lemma_value_grows(0, n1.magnitude());
            crate::round::lemma_value_grows(0, n2.magnitude());
        }
    } else {
        lemma_finite_quotient(n1, d);
        lemma_finite_quotient(n2, d);
        let vd = d.scaled_magnitude();
        let (v1, v2) = (n1.scaled_magnitude(), n2.scaled_magnitude());
        crate::round::lemma_value_grows(0, d.magnitude());
        if n1.magnitude() > 0 {
            crate::round::lemma_value_grows(0, n1.magnitude());
        }
        if n2.magnitude() > 0 {
            crate::round::lemma_value_grows(0, n2.magnitude());
        }
        let s1 = if n1.infinite() {
            INFINITY_BITS as int
        } else {
            nearest(v1 * unit, vd)
        };
        let s2 = if n2.infinite() {
            INFINITY_BITS as int
        } else {
            nearest(v2 * unit, vd)
        };
        lemma_value_is_monotone(0, s1);
        lemma_value_is_monotone(0, s2);
        if !n1.sign_negative() && !n2.sign_negative() {
            // both at least zero: the sizes grow with the numbers
            if !n1.infinite() && !n2.infinite() {
                assert((v1 * unit) * vd <= (v2 * unit) * vd) by (nonlinear_arith)
                    requires
                        0 <= v1 <= v2,
                        unit > 0,
                        vd > 0,
                ;
                assert(v1 * unit >= 0 && v2 * unit >= 0) by (nonlinear_arith)
                    requires
                        0 <= v1 <= v2,
                        unit > 0,
                ;
                lemma_nearest_is_monotone(v1 * unit, vd, v2 * unit, vd);
            }
            lemma_value_is_monotone(s1, s2);
        } else if n1.sign_negative() && n2.sign_negative() {
            // both at most zero: the sizes fall as the numbers grow
            if !n1.infinite() && !n2.infinite() {
                assert((v2 * unit) * vd <= (v1 * unit) * vd) by (nonlinear_arith)
                    requires
                        0 <= v2 <= v1,
                        unit > 0,
                        vd > 0,
                ;
                assert(v1 * unit >= 0 && v2 * unit >= 0) by (nonlinear_arith)
                    requires
                        0 <= v2 <= v1,
                        unit > 0,
                ;
                lemma_nearest_is_monotone(v2 * unit, vd, v1 * unit, vd);
            }
            lemma_value_is_monotone(s2, s1);
        } else if n1.sign_negative() {
        } else {
            // the first is a zero without sign, the second a zero with it
            assert(v1 == 0 && v2 == 0);
            assert(v1 * unit == 0 && v2 * unit == 0) by (nonlinear_arith)
                requires
                    v1 == 0,
                    v2 == 0,
            ;
        }
    }
}

/// A square root that is a number is not negative.
pub proof fn lemma_root_is_not_negative(a: Scalar)
    ensures
        !a.root().nan() ==> a.root().scaled_value() >= 0,
{
    lemma_signed_value(false, INFINITY_BITS as int);
    assert(value_of(0) == 0);
    if !a.nan() && !a.zero() && !a.sign_negative() && !a.infinite() {
        lemma_pow2_pos(1074);
        lemma_value_is_monotone(0, a.magnitude());
        let n = a.scaled_magnitude() * pow2(1074);
        assert(n >= 0) by (nonlinear_arith)
            requires
                n == a.scaled_magnitude() * pow2(1074),
                a.scaled_magnitude() >= 0,
                pow2(1074) > 0,
        ;
        lemma_nearest_root_exists(n);
        lemma_signed_value(false, crate::round::nearest_root(n));
    }
}

/// A product of two scalars without sign has no sign, where it is a number;
/// and so has a square.
pub proof fn lemma_product_sign(a: Scalar, b: Scalar)
    ensures
        !a.product(b).nan() ==> (a.product(b).sign_negative() <==> (a.sign_negative()
            != b.sign_negative())),
{
    let negative = a.sign_negative() != b.sign_negative();
    lemma_signed_value(negative, INFINITY_BITS as int);
    if !a.nan() && !b.nan() && !a.infinite() && !b.infinite() {
        lemma_pow2_pos(1074);
        lemma_value_is_monotone(0, a.magnitude());
        lemma_value_is_monotone(0, b.magnitude());
        let n = a.scaled_magnitude() * b.scaled_magnitude();
        assert(n >= 0) by (nonlinear_arith)
            requires
                n == a.scaled_magnitude() * b.scaled_magnitude(),
                a.scaled_magnitude() >= 0,
                b.scaled_magnitude() >= 0,
        ;
        lemma_nearest_exists(n, pow2(1074) as int);
        lemma_signed_value(negative, nearest(n, pow2(1074) as int));
    }
}

/// A sum of two scalars without sign has no sign, where it is a number.
pub proof fn lemma_sum_sign(a: Scalar, b: Scalar)
    requires
        !a.sign_negative(),
        !b.sign_negative(),
    ensures
        !a.sum(b).nan() ==> !a.sum(b).sign_negative(),
{
    if !a.nan() && !b.nan() && !a.infinite() && !b.infinite() {
        lemma_value_is_monotone(0, a.magnitude());
        lemma_value_is_monotone(0, b.magnitude());
        let exact = a.scaled_value() + b.scaled_value();
        lemma_nearest_exists(exact, 1);
        lemma_signed_value(false, nearest(exact, 1));
        lemma_signed_value(false, 0);
    }
}

/// Whether `got` is `wanted` up to `slack`, all times two to the power 1074
/// and the slack doubled.
pub open spec fn within(got: int, wanted: int, slack: int) -> bool {
    2 * (got - wanted) <= slack && 2 * (wanted - got) <= slack
}

/// A sum that is finite is no farther from the exact sum than half a step.
pub proof fn lemma_sum_is_close(a: Scalar, b: Scalar)
    requires
        a.finite(),
        b.finite(),
        a.sum(b).finite(),
    ensures
        within(a.sum(b).scaled_value(), a.scaled_value() + b.scaled_value(), a.sum(b).step()),
{
    let exact = a.scaled_value() + b.scaled_value();
    let size = if exact >= 0 {
        exact
    } else {
        -exact
    };
    lemma_finite_sum(a, b);
    lemma_nearest_exists(size, 1);
    let m = nearest(size, 1);
    lemma_signed_value(false, m);
    lemma_signed_value(true, m);
    lemma_signed_value(false, 0);
    lemma_signed_value(true, 0);
    if exact == 0 {
        crate::round::lemma_value_grows(0, 1);
        assert(value_of(0) == 0);
    } else {
        lemma_nearest_is_close(m, size, 1);
        assert(value_of(m) * 1 == value_of(m));
        assert(step_above(m) * 1 == step_above(m));
    }
}

/// The size of the product of two finite scalars is the nearest to the exact
/// product.
pub proof fn lemma_finite_product(a: Scalar, b: Scalar)
    requires
        a.finite(),
        b.finite(),
    ensures
        ({
            let m = nearest(a.scaled_magnitude() * b.scaled_magnitude(), pow2(1074) as int);
            &&& is_nearest(m, a.scaled_magnitude() * b.scaled_magnitude(), pow2(1074) as int)
            &&& a.scaled_magnitude() * b.scaled_magnitude() >= 0
            &&& a.product(b).magnitude() == m
            &&& a.product(b).sign_negative() == (a.sign_negative() != b.sign_negative())
        }),
{
    let n = a.scaled_magnitude() * b.scaled_magnitude();
    lemma_pow2_pos(1074);
    lemma_value_is_monotone(0, a.magnitude());
    lemma_value_is_monotone(0, b.magnitude());
    assert(n >= 0) by (nonlinear_arith)
        requires
            n == a.scaled_magnitude() * b.scaled_magnitude(),
            a.scaled_magnitude() >= 0,
            b.scaled_magnitude() >= 0,
    ;
    lemma_nearest_exists(n, pow2(1074) as int);
    lemma_signed_value(a.sign_negative() != b.sign_negative(), nearest(n, pow2(1074) as int));
}

/// The size of the quotient of two finite scalars, the second not zero, is
/// the nearest to the exact quotient.
pub proof fn lemma_finite_division(a: Scalar, b: Scalar)
    requires
        a.finite(),
        b.finite(),
        !b.zero(),
    ensures
        ({
            let m = nearest(a.scaled_magnitude() * pow2(1074), b.scaled_magnitude());
            &&& is_nearest(m, a.scaled_magnitude() * pow2(1074), b.scaled_magnitude())
            &&& a.scaled_magnitude() * pow2(1074) >= 0
            &&& b.scaled_magnitude() > 0
            &&& a.quotient(b).magnitude() == m
            &&& a.quotient(b).sign_negative() == (a.sign_negative() != b.sign_negative())
        }),
{
    let n = a.scaled_magnitude() * pow2(1074);
    let d = b.scaled_magnitude();
    let negative = a.sign_negative() != b.sign_negative();
    lemma_pow2_pos(1074);
    lemma_value_is_monotone(0, a.magnitude());
    crate::round::lemma_value_grows(0, b.magnitude());
    assert(value_of(0) == 0);
    assert(n >= 0) by (nonlinear_arith)
        requires
            n == a.scaled_magnitude() * pow2(1074),
            a.scaled_magnitude() >= 0,
            pow2(1074) > 0,
    ;
    lemma_nearest_exists(n, d);
    lemma_signed_value(negative, nearest(n, d));
    lemma_signed_value(negative, 0);
    if a.zero() {
        assert(n == 0) by (nonlinear_arith)
            requires
                n == a.scaled_magnitude() * pow2(1074),
                a.scaled_magnitude() == 0,
        ;
        assert(0 == value_of(0) * d) by (nonlinear_arith)
            requires
                value_of(0) == 0,
        ;
        lemma_exact_is_nearest(0, 0, d);
        lemma_nearest_is(0, 0, d);
    }
}

/// Adding a number and taking it away again gives the first number back, up
/// to half a step at the sum and half a step at the result, where neither is
/// an infinity.
pub proof fn lemma_add_then_take_away(a: Scalar, w: Scalar)
    requires
        a.finite(),
        w.finite(),
        a.sum(w).finite(),
        a.sum(w).difference(w).finite(),
    ensures
        within(
            a.sum(w).difference(w).scaled_value(),
            a.scaled_value(),
            a.sum(w).step() + a.sum(w).difference(w).step(),
        ),
{
    let s = a.sum(w);
    lemma_sum_is_close(a, w);
    lemma_signed_value(!w.sign_negative(), w.magnitude());
    lemma_sum_is_close(s, w.negation());
}

/// Multiplying by a number that is not zero and dividing by it again gives
/// the first number back: with its sign, and in size up to half a step at
/// the product, as the divisor scales it, and half a step at the result.
/// This holds where neither the product nor the result is an infinity.
pub proof fn lemma_scale_then_divide(v: Scalar, s: Scalar)
    requires
        v.finite(),
        s.finite(),
        !s.zero(),
        v.product(s).finite(),
        v.product(s).quotient(s).finite(),
    ensures
        v.product(s).quotient(s).sign_negative() == v.sign_negative(),
        within(
            v.product(s).quotient(s).scaled_magnitude() * s.scaled_magnitude(),
            v.scaled_magnitude() * s.scaled_magnitude(),
            v.product(s).quotient(s).step() * s.scaled_magnitude() + v.product(s).step() * pow2(
                1074,
            ),
        ),
{
    let p = v.product(s);
    let q = p.quotient(s);
    let unit = pow2(1074) as int;
    let size = s.scaled_magnitude();
    lemma_pow2_pos(1074);
    lemma_finite_product(v, s);
    lemma_finite_division(p, s);
    lemma_nearest_is_close(p.magnitude(), v.scaled_magnitude() * size, unit);
    lemma_nearest_is_close(q.magnitude(), p.scaled_magnitude() * unit, size);
}

/// A zero times a finite scalar is a zero.
pub proof fn lemma_zero_times(z: Scalar, a: Scalar)
    requires
        z.zero(),
        a.finite(),
    ensures
        z.product(a).zero(),
        !z.product(a).nan(),
        z.product(a).scaled_value() == 0,
{
    lemma_pow2_pos(1074);
    assert(value_of(0) == 0);
    assert(0 * a.scaled_magnitude() == 0) by (nonlinear_arith);
    assert(0 * pow2(1074) == 0) by (nonlinear_arith);
    lemma_exact_is_nearest(0, 0, pow2(1074) as int);
    lemma_nearest_is(0, 0, pow2(1074) as int);
    lemma_signed_value(z.sign_negative() != a.sign_negative(), 0);
}

/// A sum of two finite scalars that is itself the number of a pattern is
/// exact.
pub proof fn lemma_exact_sum(x: Scalar, y: Scalar, m: int)
    requires
        x.finite(),
        y.finite(),
        0 <= m < INFINITY_BITS,
        value_of(m) == x.scaled_value() + y.scaled_value() || value_of(m) == -(x.scaled_value()
            + y.scaled_value()),
    ensures
        !x.sum(y).nan(),
        x.sum(y).finite(),
        x.sum(y).scaled_value() == x.scaled_value() + y.scaled_value(),
{
    let exact = x.scaled_value() + y.scaled_value();
    let size = if exact >= 0 {
        exact
    } else {
        -exact
    };
    lemma_value_is_monotone(0, m);
    lemma_finite_sum(x, y);
    assert(size == value_of(m) * 1);
    lemma_exact_is_nearest(m, size, 1);
    lemma_nearest_is(m, size, 1);
    lemma_signed_value(false, m);
    lemma_signed_value(true, m);
    lemma_signed_value(false, 0);
    lemma_signed_value(true, 0);
}

/// Multiplying a greater number by a factor that is not negative gives no
/// lesser product.
pub proof fn lemma_product_is_monotone(c: Scalar, u1: Scalar, u2: Scalar)
    requires
        c.finite(),
        !c.sign_negative(),
        u1.finite(),
        u2.finite(),
        u1.le_spec(u2),
    ensures
        c.product(u1).le_spec(c.product(u2)),
{
    let unit = pow2(1074) as int;
    let vc = c.scaled_magnitude();
    let (v1, v2) = (u1.scaled_magnitude(), u2.scaled_magnitude());
    lemma_pow2_pos(1074);
    lemma_finite_product(c, u1);
    lemma_finite_product(c, u2);
    lemma_value_is_monotone(0, c.magnitude());
    lemma_value_is_monotone(0, u1.magnitude());
    lemma_value_is_monotone(0, u2.magnitude());
    let (m1, m2) = (c.product(u1).magnitude(), c.product(u2).magnitude());
    lemma_signed_value(false, m1);
    lemma_signed_value(false, m2);
    assert(value_of(0) == 0);
    if !u1.sign_negative() && !u2.sign_negative() {
        assert(vc * v1 <= vc * v2) by (nonlinear_arith)
            requires
                vc >= 0,
                0 <= v1 <= v2,
        ;
        assert((vc * v1) * unit <= (vc * v2) * unit) by (nonlinear_arith)
            requires
                vc * v1 <= vc * v2,
                unit > 0,
        ;
        lemma_nearest_is_monotone(vc * v1, unit, vc * v2, unit);
        lemma_value_is_monotone(m1, m2);
    } else if u1.sign_negative() && u2.sign_negative() {
        assert(vc * v2 <= vc * v1) by (nonlinear_arith)
            requires
                vc >= 0,
                0 <= v2 <= v1,
        ;
        assert((vc * v2) * unit <= (vc * v1) * unit) by (nonlinear_arith)
            requires
                vc * v2 <= vc * v1,
                unit > 0,
        ;
        lemma_nearest_is_monotone(vc * v2, unit, vc * v1, unit);
        lemma_value_is_monotone(m2, m1);
    } else if !u1.sign_negative() {
        // the first is a zero without sign, the second a zero with it
        assert(v1 == 0 && v2 == 0);
        assert(vc * v1 == 0 && vc * v2 == 0) by (nonlinear_arith)
            requires
                v1 == 0,
                v2 == 0,
        ;
        assert(0 == value_of(0) * unit) by (nonlinear_arith)
            requires
                value_of(0) == 0,
        ;
        lemma_exact_is_nearest(0, 0, unit);
        lemma_nearest_is(0, 0, unit);
    }
}

} // verus!
