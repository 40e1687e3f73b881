//! The colour of a ray.
//!
//! A ray that meets nothing shows the sky. One that meets a surface takes
//! half the colour of the ray that bounces off it, towards a random point of
//! the unit ball that sits on the surface. After `MAX_DEPTH` bounces a path
//! is taken to be black.
use vstd::prelude::*;
use crate::ray::Hit;
use crate::ray::HitRecord;
use crate::ray::Ray;
use crate::ray::nearest_in;
use crate::sample::RandomSource;
use crate::sample::finds_point;
use crate::sample::follows;
use crate::sample::inside_unit_ball;
use crate::sample::is_scatter;
use crate::sample::point_drawn;
use crate::sample::words_taken;
use crate::sample::ones;
use crate::sample::random_in_unit_sphere;
use crate::sample::zero_vector;
use crate::sample::zeros;
use crate::scalar::Scalar;
use crate::scalar::{INFINITY_BITS, ONE_BITS};
use crate::vector::Vec3;

verus! {

/// How many bounces a path is followed before its colour is taken as black.
pub const MAX_DEPTH: u32 = 50;

/// The pattern of 0.001, the lower end of the interval in which a ray is
/// tested: it keeps a bounced ray from hitting the surface that it starts
/// on.
pub const SHADOW_BIAS_BITS: u64 = 0x3f50_624d_d2f1_a9fc;

/// The pattern of 0.5.
pub const HALF_BITS: u64 = 0x3fe0_0000_0000_0000;

/// The pattern of 0.7.
pub const SEVEN_TENTHS_BITS: u64 = 0x3fe6_6666_6666_6666;

/// The lower end of the interval in which a ray is tested against the scene.
pub open spec fn shading_tmin() -> Scalar {
    Scalar { bits: SHADOW_BIAS_BITS }
}

/// The upper end of that interval: positive infinity.
pub open spec fn shading_tmax() -> Scalar {
    Scalar { bits: INFINITY_BITS }
}

/// The scalar one half, by which a bounce dims a colour.
pub open spec fn half() -> Scalar {
    Scalar { bits: HALF_BITS }
}

/// The blue of the sky: (0.5, 0.7, 1).
pub open spec fn sky_blue() -> Vec3 {
    Vec3 {
        x: Scalar { bits: HALF_BITS },
        y: Scalar { bits: SEVEN_TENTHS_BITS },
        z: Scalar { bits: ONE_BITS },
    }
}

/// How far up the direction of a ray points, from 0 for straight down to 1
/// for straight up: `0.5 * (y + 1)` of the direction at unit length.
pub open spec fn sky_height(r: Ray) -> Scalar {
    half().product(r.b.unit().y.sum(Scalar { bits: ONE_BITS }))
}

/// The colour of the sky along a ray: white at height 0, sky blue at height
/// 1 and a blend of the two between, `white * (1 - t) + blue * t`.
pub open spec fn sky_color(r: Ray) -> Vec3 {
    let t = sky_height(r);
    ones().scaled((Scalar { bits: ONE_BITS }).difference(t)).sum(sky_blue().scaled(t))
}

/// The ray that bounces off a crossing towards the point `p` of the unit
/// ball on the surface: from the crossing towards
/// `point + normal + p`.
pub open spec fn bounced(h: HitRecord, p: Vec3) -> Ray {
    Ray { a: h.p, b: h.p.sum(h.normal).sum(p).difference(h.p) }
}

/// Whether `c` is `rest` as a bounce off `h` towards `p` dims it: `p` is a
/// point that a draw from the unit ball can give, found inside the ball
/// where `here` holds and else its centre, and `c` is half of `rest`. The
/// draw leaves the source as `between`, and the rest of the path has the
/// flag `after`.
pub open spec fn dims<R: RandomSource>(
    c: Vec3,
    h: HitRecord,
    p: Vec3,
    here: bool,
    rest: Vec3,
    after: bool,
    between: R,
) -> bool {
    &&& is_scatter(p)
    &&& here ==> inside_unit_ball(p.sum_of_squares())
    &&& !here ==> p == zeros()
    &&& c == rest.scaled(half())
}

/// Whether a draw from the unit ball that gave the point `p`, with the flag
/// `here`, took a source from `before` to `between`. Of a source whose words
/// are not foretold nothing is asked.
pub open spec fn draws<R: RandomSource>(p: Vec3, here: bool, before: R, between: R) -> bool {
    R::foretold() ==> {
        &&& p == point_drawn(before)
        &&& here == finds_point(before)
        &&& follows(between, before, words_taken(before))
    }
}

/// Whether a source was left as it was. Of a source whose words are not
/// foretold nothing is asked.
pub open spec fn rests<R: RandomSource>(before: R, after: R) -> bool {
    R::foretold() ==> follows(after, before, 0)
}

/// Whether `c` can be the colour of the ray `r` in the scene `world` with
/// `depth` bounces left, where the path takes the random source from
/// `before` to `after`. With no bounce left it is black. Else it is the
/// colour of the sky where the ray meets nothing; in both cases no word is
/// taken. Where the ray meets something, `c` is half of a colour of the ray
/// that bounces off the nearest crossing, with one bounce less left, towards
/// a point drawn from the unit ball. Of a source whose words are foretold,
/// the point is the one that its words make. `found` says that every draw on
/// the way found its point inside the ball.
pub open spec fn is_color<T: Hit, R: RandomSource>(
    c: Vec3,
    found: bool,
    r: Ray,
    world: T,
    depth: nat,
    before: R,
    after: R,
) -> bool
    decreases depth,
{
    if depth == 0 {
        c == zeros() && found && rests(before, after)
    } else {
        ||| (nearest_in(world.crossings(r), shading_tmin(), shading_tmax(), None) && c
            == sky_color(r) && found && rests(before, after))
        ||| exists|h: HitRecord, p: Vec3, here: bool, rest: Vec3, rest_found: bool, between: R|
            {
                &&& #[trigger] dims(c, h, p, here, rest, rest_found, between)
                &&& nearest_in(world.crossings(r), shading_tmin(), shading_tmax(), Some(h))
                &&& draws(p, here, before, between)
                &&& is_color(
                    rest,
                    rest_found,
                    bounced(h, p),
                    world,
                    (depth - 1) as nat,
                    between,
                    after,
                )
                &&& found == (here && rest_found)
            }
    }
}

/// The colour of the sky along a ray.
pub fn sky(r: &Ray) -> (c: Vec3)
    ensures
        c == sky_color(*r),
{
    let one = Scalar::from_bits(ONE_BITS);
    let half = Scalar::from_bits(HALF_BITS);
    let unit_direction = r.direction().make_unit_vector();
    let t = half * (unit_direction.y() + one);
    Vec3::new(one, one, one) * (one - t) + Vec3::new(
        half,
        Scalar::from_bits(SEVEN_TENTHS_BITS),
        one,
    ) * t
}

impl Ray {
    /// The colour of the ray in the scene `world`, with `depth` bounces
    /// left, and whether every draw from the unit ball on the way found its
    /// point: where it is `false`, some bounce went straight along the
    /// normal. The scene is tested between the shadow bias and infinity.
    /// With no bounce left, or where the ray meets nothing, no word is taken
    /// from the source.
    pub fn color<T: Hit, R: RandomSource>(&self, world: &T, depth: u32, rng: &mut R) -> (res: (
        Vec3,
        bool,
    ))
        ensures
            depth == 0 ==> res.0 == zeros() && res.1 && rests(*old(rng), *final(rng)),
            T::keeps_protocol() ==> is_color(
                res.0,
                res.1,
                *self,
                *world,
                depth as nat,
                *old(rng),
                *final(rng),
            ),
            T::keeps_protocol() && nearest_in(
                world.crossings(*self),
                shading_tmin(),
                shading_tmax(),
                None,
            ) ==> res.1 && rests(*old(rng), *final(rng)),
        decreases depth,
    {
        let ghost before = *rng;
        if depth == 0 {
            let c = zero_vector();
            proof {
                assert(is_color(c, true, *self, *world, 0, before, before));
            }
            return (c, true);
        }
        let tmin = Scalar::from_bits(SHADOW_BIAS_BITS);
        let tmax = Scalar::from_bits(INFINITY_BITS);
        match world.hit(self, tmin, tmax) {
            Some(hit) => {
                let (p, here) = random_in_unit_sphere(rng);
                let ghost between = *rng;
                let target = hit.p + hit.normal + p;
                let next = Ray::new(hit.p, target - hit.p);
                let (rest, rest_found) = next.color(world, depth - 1, rng);
                let c = rest * Scalar::from_bits(HALF_BITS);
                proof {
                    if T::keeps_protocol() {
                        assert(dims(c, hit, p, here, rest, rest_found, between));
                        assert(draws(p, here, before, between));
                        assert(is_color(
                            c,
                            here && rest_found,
                            *self,
                            *world,
                            depth as nat,
                            before,
                            *rng,
                        ));
                    }
                }
                (c, here && rest_found)
            },
            None => {
                let c = sky(self);
                proof {
                    if T::keeps_protocol() {
                        assert(is_color(c, true, *self, *world, depth as nat, before, before));
                    }
                }
                (c, true)
            },
        }
    }
}

} // verus!
