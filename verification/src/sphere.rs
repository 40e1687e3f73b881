//! Spheres, and the chord that a ray cuts through one.
//!
//! Substituting a ray into the equation of a sphere gives a quadratic in the
//! ray parameter. Where its discriminant is not negative, its two roots are
//! the ends of the chord that the ray's line cuts through the sphere, and the
//! nearer end inside the interval of a hit test is the answer to the test.
use vstd::prelude::*;
use crate::ray::Hit;
use crate::ray::HitRecord;
use crate::ray::Ray;
use crate::arith::lemma_product_sign;
use crate::arith::lemma_quotient_is_monotone;
use crate::arith::lemma_root_is_not_negative;
use crate::arith::lemma_sum_is_monotone;
use crate::arith::lemma_sum_sign;
use crate::scalar::Scalar;
use crate::scalar::lemma_small_integers;
use crate::scalar::{FOUR_BITS, TWO_BITS, ZERO_BITS};
use crate::vector::Vec3;

verus! {

/// A sphere. A valid one has a radius greater than zero.
#[derive(Clone, Copy, Debug)]
pub struct Sphere {
    pub center: Vec3,
    pub r: Scalar,
}

/// The stretch of a ray's line inside a sphere: the crossing at which the
/// line enters and the one at which it leaves, the first no farther along
/// than the second. Where the line touches the sphere the two coincide.
#[derive(Clone, Copy, Debug)]
pub struct Chord {
    enter: HitRecord,
    leave: HitRecord,
}

/// Whether the scalar is a number less than zero.
pub open spec fn negative(s: Scalar) -> bool {
    !s.nan() && s.scaled_value() < 0
}

/// Whether a discriminant and two roots make a chord: the discriminant is not
/// negative, and the second root is not less than the first.
pub open spec fn makes_chord(discr: Scalar, enter: Scalar, leave: Scalar) -> bool {
    !negative(discr) && !leave.lt_spec(enter)
}

impl Sphere {
    /// The vector from the centre to the origin of the ray.
    pub open spec fn offset(self, r: Ray) -> Vec3 {
        r.a.difference(self.center)
    }

    /// The leading coefficient of the quadratic: `direction . direction`.
    pub open spec fn quadratic_a(self, r: Ray) -> Scalar {
        r.b.dot_product(r.b)
    }

    /// The middle coefficient of the quadratic: `2 * direction . offset`.
    pub open spec fn quadratic_b(self, r: Ray) -> Scalar {
        (Scalar { bits: TWO_BITS }).product(r.b.dot_product(self.offset(r)))
    }

    /// The last coefficient of the quadratic: `offset . offset - r * r`.
    pub open spec fn quadratic_c(self, r: Ray) -> Scalar {
        self.offset(r).dot_product(self.offset(r)).difference(self.r.product(self.r))
    }

    /// The discriminant of the quadratic: `b * b - 4 * a * c`.
    pub open spec fn discriminant(self, r: Ray) -> Scalar {
        let (a, b, c) = (self.quadratic_a(r), self.quadratic_b(r), self.quadratic_c(r));
        b.product(b).difference((Scalar { bits: FOUR_BITS }).product(a).product(c))
    }

    /// The lesser root: `(-b - sqrt(discriminant)) / (2 * a)`.
    pub open spec fn left_root(self, r: Ray) -> Scalar {
        let (a, b) = (self.quadratic_a(r), self.quadratic_b(r));
        b.negation().difference(self.discriminant(r).root()).quotient(
            (Scalar { bits: TWO_BITS }).product(a),
        )
    }

    /// The greater root: `(-b + sqrt(discriminant)) / (2 * a)`.
    pub open spec fn right_root(self, r: Ray) -> Scalar {
        let (a, b) = (self.quadratic_a(r), self.quadratic_b(r));
        b.negation().sum(self.discriminant(r).root()).quotient(
            (Scalar { bits: TWO_BITS }).product(a),
        )
    }

    /// The crossing at the parameter `t`: the point of the ray there, and the
    /// normal `(point - center) / r`, which points outwards and has unit
    /// length.
    pub open spec fn crossing(self, r: Ray, t: Scalar) -> HitRecord {
        let p = r.point(t);
        HitRecord { t, p, normal: p.difference(self.center).divided(self.r) }
    }

    /// The two ends of the chord that the line of the ray cuts through the
    /// sphere: the crossings at the two roots, unless the discriminant is
    /// negative. Where it is zero, the line touches the sphere, and the two
    /// ends are one.
    pub open spec fn cut(self, r: Ray) -> Option<(HitRecord, HitRecord)> {
        if !negative(self.discriminant(r)) {
            Some((self.crossing(r, self.left_root(r)), self.crossing(r, self.right_root(r))))
        } else {
            None
        }
    }

    /// What a hit test answers: of the two ends of the chord, the first that
    /// lies strictly inside `(tmin, tmax)`.
    pub open spec fn answer(self, r: Ray, tmin: Scalar, tmax: Scalar) -> Option<HitRecord> {
        match self.cut(r) {
            Some((enter, leave)) => if enter.t.inside(tmin, tmax) {
                Some(enter)
            } else if leave.t.inside(tmin, tmax) {
                Some(leave)
            } else {
                None
            },
            None => None,
        }
    }

    /// Whether the radius is a number greater than zero.
    pub open spec fn valid(self) -> bool {
        !self.r.nan() && self.r.scaled_value() > 0
    }

    /// The sphere round `center` with radius `r`, or nothing where `r` is
    /// not a number greater than zero.
    pub fn new(center: Vec3, r: Scalar) -> (s: Option<Sphere>)
        ensures
            (Sphere { center, r }).valid() ==> s == Some(Sphere { center, r }),
            !(Sphere { center, r }).valid() ==> s.is_none(),
    {
        let made = Sphere { center, r };
        if made.is_valid() {
            Some(made)
        } else {
            None
        }
    }

    /// Whether the radius is a number greater than zero.
    pub fn is_valid(&self) -> (b: bool)
        ensures
            b == self.valid(),
    {
        let zero = Scalar::from_bits(ZERO_BITS);
        proof {
            lemma_small_integers();
        }
        zero.lt(self.r)
    }

    /// The record of a root, where the root lies strictly inside
    /// `(tmin, tmax)`.
    pub fn check_hit_branch(tmin: Scalar, tmax: Scalar, root: HitRecord) -> (res: Option<
        HitRecord,
    >)
        ensures
            root.t.inside(tmin, tmax) ==> res == Some(root),
            !root.t.inside(tmin, tmax) ==> res.is_none(),
    {
        if root.t.lt(tmax) && tmin.lt(root.t) {
            Some(root)
        } else {
            None
        }
    }
}

impl Chord {
    #[verifier::type_invariant]
    spec fn ordered(self) -> bool {
        !self.leave.t.lt_spec(self.enter.t)
    }

    /// The crossing at which the line enters the sphere.
    pub closed spec fn first(self) -> HitRecord {
        self.enter
    }

    /// The crossing at which the line leaves the sphere.
    pub closed spec fn second(self) -> HitRecord {
        self.leave
    }

    /// What a hit test on the chord answers: the entering crossing where it
    /// lies strictly inside `(tmin, tmax)`, else the leaving one where that
    /// one does.
    pub open spec fn answer(self, tmin: Scalar, tmax: Scalar) -> Option<HitRecord> {
        if self.first().t.inside(tmin, tmax) {
            Some(self.first())
        } else if self.second().t.inside(tmin, tmax) {
            Some(self.second())
        } else {
            None
        }
    }

    /// The chord between the crossings at the two roots of the quadratic, or
    /// nothing where the discriminant is negative: the line then passes the
    /// sphere by. A discriminant of zero, the tangent line, makes a chord.
    pub fn new(discr: Scalar, enter: HitRecord, leave: HitRecord) -> (c: Option<Chord>)
        ensures
            makes_chord(discr, enter.t, leave.t) ==> c.is_some() && c.unwrap().first() == enter
                && c.unwrap().second() == leave,
            !makes_chord(discr, enter.t, leave.t) ==> c.is_none(),
    {
        let zero = Scalar::from_bits(ZERO_BITS);
        proof {
            lemma_small_integers();
        }
        if discr.lt(zero) || leave.t.lt(enter.t) {
            None
        } else {
            Some(Chord { enter, leave })
        }
    }

    /// The crossing at which the line enters the sphere.
    pub fn enter(&self) -> (h: HitRecord)
        ensures
            h == self.first(),
    {
        self.enter
    }

    /// The crossing at which the line leaves the sphere.
    pub fn leave(&self) -> (h: HitRecord)
        ensures
            h == self.second(),
    {
        self.leave
    }
}

impl Hit for Chord {
    open spec fn keeps_protocol() -> bool {
        true
    }

    /// A chord has two crossings, whatever the ray: it belongs to the ray
    /// that cut it.
    open spec fn crossings(&self, r: Ray) -> Set<HitRecord> {
        set![self.first(), self.second()]
    }

    /// Prefers the entering crossing, which is the visible one for a ray
    /// that starts outside the sphere.
    fn hit(&self, r: &Ray, tmin: Scalar, tmax: Scalar) -> (res: Option<HitRecord>)
        ensures
            res == self.answer(tmin, tmax),
    {
        proof {
            use_type_invariant(self);
        }
        match Sphere::check_hit_branch(tmin, tmax, self.enter) {
            Some(hr) => Some(hr),
            None => Sphere::check_hit_branch(tmin, tmax, self.leave),
        }
    }
}

impl Sphere {
    /// The crossing at the parameter `t`.
    fn crossing_at(&self, r: &Ray, t: Scalar) -> (h: HitRecord)
        ensures
            h == self.crossing(*r, t),
    {
        let p = r.point_at(t);
        let normal = (p - self.center) / self.r;
        HitRecord { t, p, normal }
    }

    /// The chord that the line of the ray cuts through the sphere, if it
    /// cuts one.
    pub fn chord(&self, r: &Ray) -> (c: Option<Chord>)
        ensures
            match self.cut(*r) {
                Some((enter, leave)) => c.is_some() && c.unwrap().first() == enter
                    && c.unwrap().second() == leave,
                None => c.is_none(),
            },
    {
        let two = Scalar::from_bits(TWO_BITS);
        let four = Scalar::from_bits(FOUR_BITS);
        let oc = *r.origin() - self.center;
        let a = r.direction().dot(*r.direction());
        let b = two * r.direction().dot(oc);
        let c = oc.dot(oc) - self.r * self.r;
        let discr = b * b - four * a * c;
        let left_root = (b.neg() - discr.sqrt()) / (two * a);
        let right_root = (b.neg() + discr.sqrt()) / (two * a);
        proof {
            lemma_roots_are_ordered(*self, *r);
        }
        Chord::new(discr, self.crossing_at(r, left_root), self.crossing_at(r, right_root))
    }
}

impl Hit for Sphere {
    open spec fn keeps_protocol() -> bool {
        true
    }

    /// A sphere is crossed at the two ends of the chord, where there is one.
    open spec fn crossings(&self, r: Ray) -> Set<HitRecord> {
        match self.cut(r) {
            Some((enter, leave)) => set![enter, leave],
            None => Set::empty(),
        }
    }

    /// Prefers the lesser root, at which a ray from outside enters the
    /// sphere: that is the side one sees.
    fn hit(&self, r: &Ray, tmin: Scalar, tmax: Scalar) -> (res: Option<HitRecord>)
        ensures
            res == self.answer(*r, tmin, tmax),
    {
        match self.chord(r) {
            Some(chord) => {
                let res = chord.hit(r, tmin, tmax);
                proof {
                    assert(chord.crossings(*r) =~= self.crossings(*r));
                }
                res
            },
            None => None,
        }
    }
}

/// The greater root is not less than the lesser one, whatever the sphere and
/// the ray are.
pub proof fn lemma_roots_are_ordered(s: Sphere, r: Ray)
    ensures
        !s.right_root(r).lt_spec(s.left_root(r)),
{
    let two = Scalar { bits: TWO_BITS };
    let a = s.quadratic_a(r);
    let x = s.quadratic_b(r).negation();
    let root = s.discriminant(r).root();
    let divisor = two.product(a);
    if !root.nan() {
        lemma_root_is_not_negative(s.discriminant(r));
        assert(root.negation().le_spec(root));
        lemma_sum_is_monotone(x, root.negation(), root);
        let less = x.sum(root.negation());
        let more = x.sum(root);
        if !less.nan() && !more.nan() && !divisor.nan() {
            // the divisor is twice a sum of squares
            let (xx, yy, zz) = (r.b.x.product(r.b.x), r.b.y.product(r.b.y), r.b.z.product(r.b.z));
            lemma_product_sign(r.b.x, r.b.x);
            lemma_product_sign(r.b.y, r.b.y);
            lemma_product_sign(r.b.z, r.b.z);
            lemma_sum_sign(xx, yy);
            lemma_sum_sign(xx.sum(yy), zz);
            lemma_product_sign(two, a);
            lemma_quotient_is_monotone(less, more, divisor);
        }
    }
}

} // verus!
