//! Vectors of three scalars: points, directions and colours.
//!
//! The arithmetic is that of the components. Each operation rounds once for
//! each operation on scalars that it is made of, in the order in which its
//! definition is written.
use vstd::prelude::*;
use vstd::arithmetic::power2::pow2;
use crate::arith::lemma_add_then_take_away;
use crate::arith::lemma_scale_then_divide;
use crate::arith::within;
use crate::scalar::Scalar;

verus! {

/// A vector of three scalars. Whether it is a point, a direction or a colour
/// is for the caller to keep track of.
#[derive(Clone, Copy, Debug)]
pub struct Vec3 {
    pub x: Scalar,
    pub y: Scalar,
    pub z: Scalar,
}

impl Vec3 {
    /// Numeric equality, component by component.
    pub open spec fn same_vector(self, other: Vec3) -> bool {
        &&& self.x.same_number(other.x)
        &&& self.y.same_number(other.y)
        &&& self.z.same_number(other.z)
    }

    /// Whether the components are numbers and no infinities.
    pub open spec fn finite(self) -> bool {
        self.x.finite() && self.y.finite() && self.z.finite()
    }

    /// Whether the components stand for the integers `x`, `y` and `z`.
    pub open spec fn stands_for(self, x: int, y: int, z: int) -> bool {
        self.x.stands_for(x) && self.y.stands_for(y) && self.z.stands_for(z)
    }

    /// The sum, component by component.
    pub open spec fn sum(self, other: Vec3) -> Vec3 {
        Vec3 { x: self.x.sum(other.x), y: self.y.sum(other.y), z: self.z.sum(other.z) }
    }

    /// The difference, component by component.
    pub open spec fn difference(self, other: Vec3) -> Vec3 {
        Vec3 {
            x: self.x.difference(other.x),
            y: self.y.difference(other.y),
            z: self.z.difference(other.z),
        }
    }

    /// The vector with each component multiplied by `scalar`.
    pub open spec fn scaled(self, scalar: Scalar) -> Vec3 {
        Vec3 {
            x: self.x.product(scalar),
            y: self.y.product(scalar),
            z: self.z.product(scalar),
        }
    }

    /// The vector with each component divided by `scalar`.
    pub open spec fn divided(self, scalar: Scalar) -> Vec3 {
        Vec3 {
            x: self.x.quotient(scalar),
            y: self.y.quotient(scalar),
            z: self.z.quotient(scalar),
        }
    }

    /// The cross product, right-handed:
    /// `(ay*bz - az*by, az*bx - ax*bz, ax*by - ay*bx)`.
    pub open spec fn cross(self, other: Vec3) -> Vec3 {
        Vec3 {
            x: self.y.product(other.z).difference(self.z.product(other.y)),
            y: self.x.negation().product(other.z).sum(self.z.product(other.x)),
            z: self.x.product(other.y).difference(self.y.product(other.x)),
        }
    }

    /// The dot product: the products of the components, added up from the
    /// first.
    pub open spec fn dot_product(self, other: Vec3) -> Scalar {
        self.x.product(other.x).sum(self.y.product(other.y)).sum(self.z.product(other.z))
    }

    /// The sum of the squares of the components.
    pub open spec fn sum_of_squares(self) -> Scalar {
        self.dot_product(self)
    }

    /// The length: the square root of the sum of the squares.
    pub open spec fn length(self) -> Scalar {
        self.sum_of_squares().root()
    }

    /// The vector divided by its length. Of a vector of length zero the
    /// components are no numbers.
    pub open spec fn unit(self) -> Vec3 {
        self.divided(self.length())
    }

    /// The vector with the given components.
    pub fn new(x: Scalar, y: Scalar, z: Scalar) -> (v: Vec3)
        ensures
            v == (Vec3 { x, y, z }),
    {
        Vec3 { x, y, z }
    }

    /// The first component.
    pub fn x(&self) -> (s: Scalar)
        ensures
            s == self.x,
    {
        self.x
    }

    /// The second component.
    pub fn y(&self) -> (s: Scalar)
        ensures
            s == self.y,
    {
        self.y
    }

    /// The third component.
    pub fn z(&self) -> (s: Scalar)
        ensures
            s == self.z,
    {
        self.z
    }

    /// The red channel of a colour: its first component.
    pub fn r(&self) -> (s: Scalar)
        ensures
            s == self.x,
    {
        self.x
    }

    /// The green channel of a colour: its second component.
    pub fn g(&self) -> (s: Scalar)
        ensures
            s == self.y,
    {
        self.y
    }

    /// The blue channel of a colour: its third component.
    pub fn b(&self) -> (s: Scalar)
        ensures
            s == self.z,
    {
        self.z
    }

    /// The length of the vector: the square root of `squared_len`.
    pub fn len(&self) -> (s: Scalar)
        ensures
            s == self.length(),
    {
        self.squared_len().sqrt()
    }

    /// The squared length: the sum of the squares of the components.
    pub fn squared_len(&self) -> (s: Scalar)
        ensures
            s == self.sum_of_squares(),
    {
        self.x * self.x + self.y * self.y + self.z * self.z
    }

    /// The dot product.
    pub fn dot(&self, other: Vec3) -> (s: Scalar)
        ensures
            s == self.dot_product(other),
    {
        self.x * other.x + self.y * other.y + self.z * other.z
    }

    /// Divides the vector by its length, in place.
    pub fn unit_vector(&mut self)
        ensures
            *final(self) == old(self).unit(),
    {
        let length = self.len();
        self.x = self.x / length;
        self.y = self.y / length;
        self.z = self.z / length;
    }

    /// The vector divided by its length. The vector itself stays as it is.
    pub fn make_unit_vector(&self) -> (v: Vec3)
        ensures
            v == self.unit(),
    {
        let length = self.len();
        Vec3 { x: self.x / length, y: self.y / length, z: self.z / length }
    }
}

impl PartialEq for Vec3 {
    /// `==` compares the components as numbers.
    fn eq(&self, other: &Vec3) -> (b: bool) {
        self.x.same(other.x) && self.y.same(other.y) && self.z.same(other.z)
    }
}

impl vstd::std_specs::cmp::PartialEqSpecImpl for Vec3 {
    open spec fn obeys_eq_spec() -> bool {
        true
    }

    open spec fn eq_spec(&self, other: &Vec3) -> bool {
        self.same_vector(*other)
    }
}

impl std::ops::Add for Vec3 {
    type Output = Vec3;

    fn add(self, other: Vec3) -> (v: Vec3) {
        Vec3 { x: self.x + other.x, y: self.y + other.y, z: self.z + other.z }
    }
}

impl vstd::std_specs::ops::AddSpecImpl for Vec3 {
    open spec fn obeys_add_spec() -> bool {
        true
    }

    open spec fn add_req(self, other: Vec3) -> bool {
        true
    }

    open spec fn add_spec(self, other: Vec3) -> Vec3 {
        self.sum(other)
    }
}

impl std::ops::Sub for Vec3 {
    type Output = Vec3;

    fn sub(self, other: Vec3) -> (v: Vec3) {
        Vec3 { x: self.x - other.x, y: self.y - other.y, z: self.z - other.z }
    }
}

impl vstd::std_specs::ops::SubSpecImpl for Vec3 {
    open spec fn obeys_sub_spec() -> bool {
        true
    }

    open spec fn sub_req(self, other: Vec3) -> bool {
        true
    }

    open spec fn sub_spec(self, other: Vec3) -> Vec3 {
        self.difference(other)
    }
}

impl std::ops::Mul<Scalar> for Vec3 {
    type Output = Vec3;

    fn mul(self, scalar: Scalar) -> (v: Vec3) {
        Vec3 { x: self.x * scalar, y: self.y * scalar, z: self.z * scalar }
    }
}

impl vstd::std_specs::ops::MulSpecImpl<Scalar> for Vec3 {
    open spec fn obeys_mul_spec() -> bool {
        true
    }

    open spec fn mul_req(self, scalar: Scalar) -> bool {
        true
    }

    open spec fn mul_spec(self, scalar: Scalar) -> Vec3 {
        self.scaled(scalar)
    }
}

impl std::ops::Mul<Vec3> for Vec3 {
    type Output = Vec3;

    /// `*` between two vectors is the cross product.
    fn mul(self, other: Vec3) -> (v: Vec3) {
        Vec3 {
            x: self.y * other.z - self.z * other.y,
            y: self.x.neg() * other.z + self.z * other.x,
            z: self.x * other.y - self.y * other.x,
        }
    }
}

impl vstd::std_specs::ops::MulSpecImpl<Vec3> for Vec3 {
    open spec fn obeys_mul_spec() -> bool {
        true
    }

    open spec fn mul_req(self, other: Vec3) -> bool {
        true
    }

    open spec fn mul_spec(self, other: Vec3) -> Vec3 {
        self.cross(other)
    }
}

impl std::ops::Div<Scalar> for Vec3 {
    type Output = Vec3;

    fn div(self, scalar: Scalar) -> (v: Vec3) {
        Vec3 { x: self.x / scalar, y: self.y / scalar, z: self.z / scalar }
    }
}

impl vstd::std_specs::ops::DivSpecImpl<Scalar> for Vec3 {
    open spec fn obeys_div_spec() -> bool {
        true
    }

    open spec fn div_req(self, scalar: Scalar) -> bool {
        true
    }

    open spec fn div_spec(self, scalar: Scalar) -> Vec3 {
        self.divided(scalar)
    }
}

impl std::ops::AddAssign for Vec3 {
    fn add_assign(&mut self, other: Vec3)
        ensures
            *final(self) == old(self).sum(other),
    {
        self.x = self.x + other.x;
        self.y = self.y + other.y;
        self.z = self.z + other.z;
    }
}

impl std::ops::SubAssign for Vec3 {
    fn sub_assign(&mut self, other: Vec3)
        ensures
            *final(self) == old(self).difference(other),
    {
        self.x = self.x - other.x;
        self.y = self.y - other.y;
        self.z = self.z - other.z;
    }
}

impl std::ops::MulAssign<Scalar> for Vec3 {
    fn mul_assign(&mut self, scalar: Scalar)
        ensures
            *final(self) == old(self).scaled(scalar),
    {
        self.x = self.x * scalar;
        self.y = self.y * scalar;
        self.z = self.z * scalar;
    }
}

impl std::ops::MulAssign<Vec3> for Vec3 {
    /// `*=` with a vector is the cross product, of the vector as it was.
    fn mul_assign(&mut self, other: Vec3)
        ensures
            *final(self) == old(self).cross(other),
    {
        let x = self.y * other.z - self.z * other.y;
        let y = self.x.neg() * other.z + self.z * other.x;
        let z = self.x * other.y - self.y * other.x;
        self.x = x;
        self.y = y;
        self.z = z;
    }
}

impl std::ops::DivAssign<Scalar> for Vec3 {
    fn div_assign(&mut self, scalar: Scalar)
        ensures
            *final(self) == old(self).divided(scalar),
    {
        self.x = self.x / scalar;
        self.y = self.y / scalar;
        self.z = self.z / scalar;
    }
}

/// Whether `back` is `v` as it comes back from adding `w`, which gave `sum`,
/// and taking `w` away again: up to half a step at the sum and half a step
/// at what came back.
pub open spec fn is_back_from_sum(back: Scalar, v: Scalar, sum: Scalar) -> bool {
    within(back.scaled_value(), v.scaled_value(), sum.step() + back.step())
}

/// Whether `back` is `v` as it comes back from multiplying by `s`, which
/// gave `product`, and dividing by `s` again: with its sign, and in size up
/// to half a step at the product, as `s` scales it, and half a step at what
/// came back.
pub open spec fn is_back_from_product(
    back: Scalar,
    v: Scalar,
    s: Scalar,
    product: Scalar,
) -> bool {
    &&& back.sign_negative() == v.sign_negative()
    &&& within(
        back.scaled_magnitude() * s.scaled_magnitude(),
        v.scaled_magnitude() * s.scaled_magnitude(),
        back.step() * s.scaled_magnitude() + product.step() * pow2(1074),
    )
}

/// Adding a vector and taking it away again gives the first vector back, up
/// to the rounding of the two operations: each component is off by at most
/// half a step at the sum and half a step at the result. This holds where
/// no component of the sum or of the result is an infinity.
pub proof fn lemma_sum_then_difference(v: Vec3, w: Vec3)
    requires
        v.finite(),
        w.finite(),
        v.sum(w).finite(),
        v.sum(w).difference(w).finite(),
    ensures
        is_back_from_sum(v.sum(w).difference(w).x, v.x, v.sum(w).x),
        is_back_from_sum(v.sum(w).difference(w).y, v.y, v.sum(w).y),
        is_back_from_sum(v.sum(w).difference(w).z, v.z, v.sum(w).z),
{
    lemma_add_then_take_away(v.x, w.x);
    lemma_add_then_take_away(v.y, w.y);
    lemma_add_then_take_away(v.z, w.z);
}

/// Multiplying a vector by a scalar that is not zero and dividing by it
/// again gives the vector back, up to the rounding of the two operations.
/// This holds where no component of the product or of the result is an
/// infinity.
pub proof fn lemma_scaled_then_divided(v: Vec3, s: Scalar)
    requires
        v.finite(),
        s.finite(),
        !s.zero(),
        v.scaled(s).finite(),
        v.scaled(s).divided(s).finite(),
    ensures
        is_back_from_product(v.scaled(s).divided(s).x, v.x, s, v.scaled(s).x),
        is_back_from_product(v.scaled(s).divided(s).y, v.y, s, v.scaled(s).y),
        is_back_from_product(v.scaled(s).divided(s).z, v.z, s, v.scaled(s).z),
{
    lemma_scale_then_divide(v.x, s);
    lemma_scale_then_divide(v.y, s);
    lemma_scale_then_divide(v.z, s);
}

} // verus!
