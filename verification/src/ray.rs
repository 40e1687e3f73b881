//! Rays, hit records and the hit-test protocol.
//!
//! A shape answers a hit test with the nearest of its crossings that lies
//! strictly inside a parameter interval. A list of shapes is a shape again:
//! its crossings are those of its members, and its answer is the nearest of
//! them all.
use vstd::prelude::*;
use crate::arith::lemma_plus_zero;
use crate::arith::lemma_times_one;
use crate::arith::lemma_times_zero;
use crate::scalar::Scalar;
use crate::scalar::{INFINITY_BITS, ONE_BITS};
use crate::vector::Vec3;

verus! {

/// A ray: the points `a + t * b` over the parameter `t`. The direction `b`
/// need not have unit length.
#[derive(Clone, Copy, Debug)]
pub struct Ray {
    pub a: Vec3,
    pub b: Vec3,
}

/// Where a ray crosses a surface: the parameter, the point and the surface
/// normal there.
#[derive(Clone, Copy, Debug)]
pub struct HitRecord {
    pub t: Scalar,
    pub p: Vec3,
    pub normal: Vec3,
}

impl Ray {
    /// Numeric equality of origin and direction.
    pub open spec fn same_ray(self, other: Ray) -> bool {
        self.a.same_vector(other.a) && self.b.same_vector(other.b)
    }

    /// The point of the ray at the parameter `t`: `a + b * t`.
    pub open spec fn point(self, t: Scalar) -> Vec3 {
        self.a.sum(self.b.scaled(t))
    }

    /// The ray from `a` along `b`.
    pub fn new(a: Vec3, b: Vec3) -> (r: Ray)
        ensures
            r == (Ray { a, b }),
    {
        Ray { a, b }
    }

    /// Where the ray starts.
    pub fn origin(&self) -> (o: &Vec3)
        ensures
            *o == self.a,
    {
        &self.a
    }

    /// Along which vector the ray runs.
    pub fn direction(&self) -> (d: &Vec3)
        ensures
            *d == self.b,
    {
        &self.b
    }

    /// The point of the ray at the parameter `t`, which may be negative or
    /// as large as it likes.
    pub fn point_at(&self, t: Scalar) -> (p: Vec3)
        ensures
            p == self.point(t),
    {
        self.a + self.b * t
    }
}

/// At the parameter one a ray is at its origin plus its direction.
pub proof fn lemma_point_at_one(r: Ray)
    ensures
        r.point(Scalar { bits: ONE_BITS }) == r.a.sum(r.b),
{
    if !r.b.x.nan() {
        lemma_times_one(r.b.x);
    }
    if !r.b.y.nan() {
        lemma_times_one(r.b.y);
    }
    if !r.b.z.nan() {
        lemma_times_one(r.b.z);
    }
}

/// At the parameter zero a ray is at its origin, where the origin is made of
/// numbers and the direction of finite ones. The zero may have either sign.
pub proof fn lemma_point_at_zero(r: Ray, zero: Scalar)
    requires
        zero.zero(),
        !r.a.x.nan() && !r.a.y.nan() && !r.a.z.nan(),
        r.b.x.magnitude() < INFINITY_BITS,
        r.b.y.magnitude() < INFINITY_BITS,
        r.b.z.magnitude() < INFINITY_BITS,
    ensures
        r.point(zero).same_vector(r.a),
{
    lemma_times_zero(r.b.x, zero);
    lemma_times_zero(r.b.y, zero);
    lemma_times_zero(r.b.z, zero);
    lemma_plus_zero(r.a.x, r.b.x.product(zero));
    lemma_plus_zero(r.a.y, r.b.y.product(zero));
    lemma_plus_zero(r.a.z, r.b.z.product(zero));
}

impl PartialEq for Ray {
    /// `==` compares origin and direction as numbers.
    fn eq(&self, other: &Ray) -> (b: bool) {
        self.a == other.a && self.b == other.b
    }
}

impl vstd::std_specs::cmp::PartialEqSpecImpl for Ray {
    open spec fn obeys_eq_spec() -> bool {
        true
    }

    open spec fn eq_spec(&self, other: &Ray) -> bool {
        self.same_ray(*other)
    }
}

impl HitRecord {
    /// The record of a crossing at parameter `t`.
    pub fn new(t: Scalar, p: Vec3, normal: Vec3) -> (h: HitRecord)
        ensures
            h == (HitRecord { t, p, normal }),
    {
        HitRecord { t, p, normal }
    }

    /// The ray parameter of the crossing.
    pub fn t(&self) -> (t: Scalar)
        ensures
            t == self.t,
    {
        self.t
    }

    /// The point of the crossing.
    pub fn p(&self) -> (p: Vec3)
        ensures
            p == self.p,
    {
        self.p
    }

    /// The surface normal at the crossing.
    pub fn normal(&self) -> (n: Vec3)
        ensures
            n == self.normal,
    {
        self.normal
    }
}

/// Whether `res` is a right answer to a hit test on a shape with the given
/// crossings: the nearest crossing strictly inside `(tmin, tmax)`, or nothing
/// where no crossing lies inside.
pub open spec fn nearest_in(
    crossings: Set<HitRecord>,
    tmin: Scalar,
    tmax: Scalar,
    res: Option<HitRecord>,
) -> bool {
    match res {
        Some(h) => {
            &&& crossings.contains(h)
            &&& h.t.inside(tmin, tmax)
            &&& forall|o: HitRecord| #[trigger]
                crossings.contains(o) && o.t.inside(tmin, tmax) ==> !o.t.lt_spec(h.t)
        },
        None => forall|o: HitRecord| #[trigger]
            crossings.contains(o) ==> !o.t.inside(tmin, tmax),
    }
}

/// A shape that rays can be tested against.
///
/// A shape whose hit test is proved says so in `keeps_protocol` and names its
/// crossings. Of a shape that does neither, nothing is claimed.
pub trait Hit {
    /// Whether the hit tests of this type of shape are proved to answer with
    /// the nearest crossing.
    open spec fn keeps_protocol() -> bool {
        false
    }

    /// All crossings of the ray with the shape, over the whole parameter line.
    open spec fn crossings(&self, r: Ray) -> Set<HitRecord> {
        Set::empty()
    }

    /// The nearest crossing whose parameter lies strictly inside
    /// `(tmin, tmax)`, if there is one.
    fn hit(&self, r: &Ray, tmin: Scalar, tmax: Scalar) -> (res: Option<HitRecord>)
        ensures
            Self::keeps_protocol() ==> nearest_in(self.crossings(*r), tmin, tmax, res),
    ;
}

/// A list of shapes, tested as one shape.
pub struct HitList<T: Hit> {
    pub hlist: Vec<T>,
}

impl<T: Hit> HitList<T> {
    /// Whether every crossing of the first `n` members that lies inside
    /// `(tmin, tmax)` is strictly farther than `t`.
    pub open spec fn strictly_farther_before(
        self,
        r: Ray,
        tmin: Scalar,
        tmax: Scalar,
        n: int,
        t: Scalar,
    ) -> bool {
        forall|j: int, o: HitRecord|
            0 <= j < n && #[trigger] self.hlist@[j].crossings(r).contains(o) && o.t.inside(
                tmin,
                tmax,
            ) ==> t.lt_spec(o.t)
    }

    /// Whether no crossing of the first `n` members that lies inside
    /// `(tmin, tmax)` is nearer than `t`.
    pub open spec fn none_nearer_before(
        self,
        r: Ray,
        tmin: Scalar,
        tmax: Scalar,
        n: int,
        t: Scalar,
    ) -> bool {
        forall|j: int, o: HitRecord|
            0 <= j < n && #[trigger] self.hlist@[j].crossings(r).contains(o) && o.t.inside(
                tmin,
                tmax,
            ) ==> !o.t.lt_spec(t)
    }

    /// Whether none of the first `n` members has a crossing inside
    /// `(tmin, tmax)`.
    pub open spec fn none_inside_before(self, r: Ray, tmin: Scalar, tmax: Scalar, n: int) -> bool {
        forall|j: int, o: HitRecord|
            0 <= j < n && #[trigger] self.hlist@[j].crossings(r).contains(o) ==> !o.t.inside(
                tmin,
                tmax,
            )
    }
}

impl<T: Hit> Hit for HitList<T> {
    /// A list keeps the protocol where its members do.
    open spec fn keeps_protocol() -> bool {
        T::keeps_protocol()
    }

    /// The crossings of a list are those of its members.
    open spec fn crossings(&self, r: Ray) -> Set<HitRecord> {
        Set::new(
            |h: HitRecord|
                exists|i: int|
                    0 <= i < self.hlist@.len() && #[trigger] self.hlist@[i].crossings(r).contains(
                        h,
                    ),
        )
    }

    /// Tests the members in turn, each against the interval that ends at the
    /// nearest crossing found so far. Of several members with equally near
    /// crossings, the first one answers.
    fn hit(&self, r: &Ray, tmin: Scalar, tmax: Scalar) -> (res: Option<HitRecord>)
        ensures
            T::keeps_protocol() ==> (res matches Some(h) ==> exists|k: int|
                {
                    &&& 0 <= k < self.hlist@.len()
                    &&& #[trigger] self.hlist@[k].crossings(*r).contains(h)
                    &&& self.strictly_farther_before(*r, tmin, tmax, k, h.t)
                }),
    {
        let mut temp_rec: Option<HitRecord> = None;
        let mut closest_so_far: Scalar = tmax;
        let ghost mut winner: int = 0;
        let n: usize = self.hlist.len();
        let mut i: usize = 0;
        while i < n
            invariant
                n == self.hlist@.len(),
                0 <= i <= n,
                T::keeps_protocol() ==> match temp_rec {
                    Some(h) => {
                        &&& closest_so_far == h.t
                        &&& h.t.inside(tmin, tmax)
                        &&& 0 <= winner < i
                        &&& self.hlist@[winner].crossings(*r).contains(h)
                        &&& self.strictly_farther_before(*r, tmin, tmax, winner, h.t)
                        &&& self.none_nearer_before(*r, tmin, tmax, i as int, h.t)
                    },
                    None => {
                        &&& closest_so_far == tmax
                        &&& self.none_inside_before(*r, tmin, tmax, i as int)
                    },
                },
            decreases n - i,
        {
            let hitable: &T = &self.hlist[i];
            match hitable.hit(r, tmin, closest_so_far) {
                Some(hit) => {
                    proof {
                        winner = i as int;
                    }
                    closest_so_far = hit.t;
                    temp_rec = Some(hit);
                },
                None => {},
            }
            i = i + 1;
        }
        temp_rec
    }
}

/// Two right answers to one hit test are equally near: either both are
/// nothing, or both are crossings at the same parameter.
pub proof fn lemma_nearest_hit_is_unique(
    crossings: Set<HitRecord>,
    tmin: Scalar,
    tmax: Scalar,
    first: Option<HitRecord>,
    second: Option<HitRecord>,
)
    requires
        nearest_in(crossings, tmin, tmax, first),
        nearest_in(crossings, tmin, tmax, second),
    ensures
        first.is_some() == second.is_some(),
        match (first, second) {
            (Some(f), Some(s)) => f.t.same_number(s.t),
            _ => true,
        },
{
}

/// A list has the crossings of its members, whatever their order.
pub proof fn lemma_crossings_ignore_order<T: Hit>(one: HitList<T>, other: HitList<T>, r: Ray)
    requires
        one.hlist@.to_multiset() == other.hlist@.to_multiset(),
    ensures
        one.crossings(r) == other.crossings(r),
{
    one.hlist@.to_multiset_ensures();
    other.hlist@.to_multiset_ensures();
    assert forall|h: HitRecord| one.crossings(r).contains(h) implies other.crossings(r).contains(
        h,
    ) by {
        let i = choose|i: int|
            0 <= i < one.hlist@.len() && #[trigger] one.hlist@[i].crossings(r).contains(h);
        assert(one.hlist@.contains(one.hlist@[i]));
        assert(one.hlist@.to_multiset().count(one.hlist@[i]) > 0);
        assert(other.hlist@.to_multiset().count(one.hlist@[i]) > 0);
        assert(other.hlist@.contains(one.hlist@[i]));
        let j = choose|j: int| 0 <= j < other.hlist@.len() && other.hlist@[j] == one.hlist@[i];
        assert(other.hlist@[j].crossings(r).contains(h));
    }
    assert forall|h: HitRecord| other.crossings(r).contains(h) implies one.crossings(r).contains(
        h,
    ) by {
        let i = choose|i: int|
            0 <= i < other.hlist@.len() && #[trigger] other.hlist@[i].crossings(r).contains(h);
        assert(other.hlist@.contains(other.hlist@[i]));
        assert(other.hlist@.to_multiset().count(other.hlist@[i]) > 0);
        assert(one.hlist@.to_multiset().count(other.hlist@[i]) > 0);
        assert(one.hlist@.contains(other.hlist@[i]));
        let j = choose|j: int| 0 <= j < one.hlist@.len() && one.hlist@[j] == other.hlist@[i];
        assert(one.hlist@[j].crossings(r).contains(h));
    }
    assert(one.crossings(r) =~= other.crossings(r));
}

/// Nearest-hit resolution does not depend on the order of the members: two
/// lists with the same members answer a hit test with equally near
/// crossings, or both with nothing.
pub proof fn lemma_hit_ignores_order<T: Hit>(
    one: HitList<T>,
    other: HitList<T>,
    r: Ray,
    tmin: Scalar,
    tmax: Scalar,
    first: Option<HitRecord>,
    second: Option<HitRecord>,
)
    requires
        one.hlist@.to_multiset() == other.hlist@.to_multiset(),
        nearest_in(one.crossings(r), tmin, tmax, first),
        nearest_in(other.crossings(r), tmin, tmax, second),
    ensures
        first.is_some() == second.is_some(),
        match (first, second) {
            (Some(f), Some(s)) => f.t.same_number(s.t),
            _ => true,
        },
{
    lemma_crossings_ignore_order(one, other, r);
    lemma_nearest_hit_is_unique(one.crossings(r), tmin, tmax, first, second);
}

} // verus!
