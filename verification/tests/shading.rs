use raytracer::ray::{Hit, HitList, HitRecord, Ray};
use raytracer::sample::{
    judge_draw, random_in_unit_sphere, unit_interval, Draw, RandomSource, MAX_DRAWS,
};
use raytracer::scalar::{Scalar, ONE_BITS};
use raytracer::shade::{sky, HALF_BITS, MAX_DEPTH, SEVEN_TENTHS_BITS, SHADOW_BIAS_BITS};
use raytracer::sphere::Sphere;
use raytracer::vector::Vec3;

fn s(x: f64) -> Scalar {
    Scalar::from_bits(x.to_bits())
}

fn f(x: Scalar) -> f64 {
    f64::from_bits(x.to_bits())
}

fn v(x: f64, y: f64, z: f64) -> Vec3 {
    Vec3::new(s(x), s(y), s(z))
}

/// A plane across the ray at a fixed parameter.
struct Wall {
    at: f64,
}

impl Hit for Wall {
    fn hit(&self, r: &Ray, tmin: Scalar, tmax: Scalar) -> Option<HitRecord> {
        if s(self.at).is_inside(tmin, tmax) {
            Some(HitRecord::new(s(self.at), r.point_at(s(self.at)), v(0., 1., 0.)))
        } else {
            None
        }
    }
}

/// A source that repeats the words it was given.
struct Words {
    words: Vec<u64>,
    next: usize,
    taken: usize,
}

impl Words {
    fn of(words: &[u64]) -> Words {
        Words { words: words.to_vec(), next: 0, taken: 0 }
    }
}

impl RandomSource for Words {
    fn next_word(&mut self) -> u64 {
        let w = self.words[self.next];
        self.next = (self.next + 1) % self.words.len();
        self.taken += 1;
        w
    }
}

fn ray() -> Ray {
    Ray::new(v(0., 0., 0.), v(1., 1., 1.))
}

#[test]
fn the_constants_are_the_patterns_they_name() {
    assert_eq!(SHADOW_BIAS_BITS, 0.001f64.to_bits());
    assert_eq!(ONE_BITS, 1f64.to_bits());
    assert_eq!(HALF_BITS, 0.5f64.to_bits());
    assert_eq!(SEVEN_TENTHS_BITS, 0.7f64.to_bits());
    assert_eq!(MAX_DEPTH, 50);
    assert_eq!(MAX_DRAWS, 1000);
}

#[test]
fn the_sky_along_the_diagonal() {
    let c = sky(&ray());
    assert_eq!(f(c.x()), 0.6056624327025936);
    assert_eq!(f(c.y()), 0.7633974596215561);
    assert_eq!(f(c.z()), 1.0);
    let world: HitList<Sphere> = HitList { hlist: vec![] };
    let (c, found) = ray().color(&world, MAX_DEPTH, &mut Words::of(&[0]));
    assert!(found);
    assert_eq!(f(c.x()), 0.6056624327025936);
    assert_eq!(f(c.y()), 0.7633974596215561);
    assert_eq!(f(c.z()), 1.0);
}

#[test]
fn the_sky_is_white_below_and_blue_above() {
    let down = sky(&Ray::new(v(0., 0., 0.), v(0., -2., 0.)));
    assert_eq!(down, v(1., 1., 1.));
    let up = sky(&Ray::new(v(0., 0., 0.), v(0., 3., 0.)));
    assert_eq!(up, v(0.5, 0.7, 1.));
    let level = sky(&Ray::new(v(0., 0., 0.), v(1., 0., 0.)));
    assert_eq!(level, v(0.75, 0.85, 1.));
}

#[test]
fn with_no_bounce_left_the_colour_is_black() {
    let world = HitList { hlist: vec![Wall { at: 1. }] };
    let mut rng = Words::of(&[0]);
    assert_eq!(ray().color(&world, 0, &mut rng), (v(0., 0., 0.), true));
    assert_eq!(rng.taken, 0);
}

#[test]
fn a_bounce_halves_the_colour() {
    // the centre of the cube is drawn, so the ray bounces along the normal
    let mut rng = Words::of(&[1 << 63]);
    let ball = HitList { hlist: vec![Sphere::new(v(0., 0., -1.), s(0.5)).unwrap()] };
    let r = Ray::new(v(0., 0., 0.), v(0., 0., -1.));
    let (c, found) = r.color(&ball, MAX_DEPTH, &mut rng);
    assert!(found);
    let bounced = Ray::new(v(0., 0., -0.5), v(0., 0., 1.));
    assert_eq!(c, sky(&bounced) * s(0.5));
    assert_eq!(c, v(0.375, 0.425, 0.5));
}

#[test]
fn a_path_ends_after_the_budget_of_bounces() {
    // between two walls a ray never sees the sky
    struct Box {}
    impl Hit for Box {
        fn hit(&self, r: &Ray, _tmin: Scalar, _tmax: Scalar) -> Option<HitRecord> {
            Some(HitRecord::new(s(1.), r.point_at(s(1.)), v(0., 1., 0.)))
        }
    }
    let mut rng = Words::of(&[1 << 63]);
    let (c, found) = ray().color(&Box {}, MAX_DEPTH, &mut rng);
    assert!(found);
    assert_eq!(c, v(0., 0., 0.));
    assert_eq!(rng.taken, 3 * 50);
    let mut rng = Words::of(&[1 << 63]);
    ray().color(&Box {}, 7, &mut rng);
    assert_eq!(rng.taken, 3 * 7);
}

#[test]
fn a_surface_nearer_than_the_bias_is_not_met() {
    let mut rng = Words::of(&[1 << 63]);
    let world = HitList { hlist: vec![Wall { at: 0.001 }, Wall { at: 0. }, Wall { at: -1. }] };
    assert_eq!(ray().color(&world, 5, &mut rng), (sky(&ray()), true));
    let world = HitList { hlist: vec![Wall { at: f64::INFINITY }] };
    assert_eq!(ray().color(&world, 5, &mut rng), (sky(&ray()), true));
    assert_eq!(rng.taken, 0);
    let world = HitList { hlist: vec![Wall { at: 0.0011 }] };
    assert_ne!(ray().color(&world, 5, &mut rng).0, sky(&ray()));
    assert!(rng.taken > 0);
}

#[test]
fn a_number_between_zero_and_one_is_made_of_the_upper_bits() {
    assert_eq!(f(unit_interval(0)), 0.);
    assert_eq!(f(unit_interval(2047)), 0.);
    assert_eq!(f(unit_interval(2048)), 1. / 9007199254740992.);
    assert_eq!(f(unit_interval(1 << 63)), 0.5);
    assert_eq!(f(unit_interval(3 << 62)), 0.75);
    assert_eq!(f(unit_interval(u64::MAX)), 1. - 1. / 9007199254740992.);
    let mut w = 0x9e37_79b9_7f4a_7c15u64;
    for _ in 0..10_000 {
        w ^= w << 13;
        w ^= w >> 7;
        w ^= w << 17;
        let want = (w >> 11) as f64 * (1. / 9007199254740992.);
        assert_eq!(unit_interval(w).to_bits(), want.to_bits());
        assert!(want >= 0. && want < 1.);
    }
}

#[test]
fn a_candidate_strictly_inside_the_ball_is_taken() {
    assert_eq!(judge_draw(s(0.), 1), Draw::Accept);
    assert_eq!(judge_draw(s(0.999), 1), Draw::Accept);
    assert_eq!(judge_draw(s(0.5), MAX_DRAWS), Draw::Accept);
    assert_eq!(judge_draw(s(0.5), MAX_DRAWS + 1), Draw::Accept);
}

#[test]
fn a_candidate_on_or_outside_the_ball_is_drawn_again() {
    assert_eq!(judge_draw(s(1.), 1), Draw::Again);
    assert_eq!(judge_draw(s(3.), 999), Draw::Again);
    assert_eq!(judge_draw(s(f64::NAN), 1), Draw::Again);
}

#[test]
fn after_a_thousand_candidates_the_draw_gives_up() {
    assert_eq!(judge_draw(s(1.), 1000), Draw::GiveUp);
    assert_eq!(judge_draw(s(3.), 1001), Draw::GiveUp);
    assert_eq!(judge_draw(s(f64::NAN), u32::MAX), Draw::GiveUp);
}

#[test]
fn the_first_candidate_inside_the_ball_is_the_point() {
    // (0.5, 0.5, 0.5) is the centre of the cube
    let mut rng = Words::of(&[1 << 63]);
    let (p, inside) = random_in_unit_sphere(&mut rng);
    assert!(inside);
    assert_eq!(p, v(0., 0., 0.));
    assert_eq!(rng.taken, 3);
    // a corner of the cube first, then a point inside
    let words = [u64::MAX, u64::MAX, u64::MAX, 3 << 62, 1 << 62, 1 << 63];
    let mut rng = Words::of(&words);
    let (p, inside) = random_in_unit_sphere(&mut rng);
    assert!(inside);
    assert_eq!(p, v(0.5, -0.5, 0.));
    assert_eq!(rng.taken, 6);
}

#[test]
fn a_source_that_never_hits_the_ball_ends_the_draw() {
    let mut rng = Words::of(&[u64::MAX]);
    let (p, inside) = random_in_unit_sphere(&mut rng);
    assert!(!inside);
    assert_eq!(p, v(0., 0., 0.));
    assert_eq!(rng.taken, 3000);
    let mut rng = Words::of(&[0]);
    let (_, inside) = random_in_unit_sphere(&mut rng);
    assert!(!inside);
}

#[test]
fn a_point_on_the_ball_is_not_inside() {
    // (1, 0, 0) would need a number one, which no word gives: next to it
    let words = [u64::MAX, 1 << 63, 1 << 63];
    let mut rng = Words::of(&words);
    let (p, inside) = random_in_unit_sphere(&mut rng);
    assert!(inside);
    assert!(f(p.squared_len()) < 1.);
    assert_eq!(f(p.x()), 1. - 2. / 9007199254740992.);
}

#[test]
fn a_draw_that_gives_up_is_told() {
    // every candidate is a corner of the cube, so no draw finds its point
    let ball = HitList { hlist: vec![Sphere::new(v(0., 0., -1.), s(0.5)).unwrap()] };
    let r = Ray::new(v(0., 0., 0.), v(0., 0., -1.));
    let mut rng = Words::of(&[u64::MAX]);
    let (c, found) = r.color(&ball, MAX_DEPTH, &mut rng);
    assert!(!found);
    assert_eq!(rng.taken, 3000);
    // the bounce goes straight along the normal, into the sky
    assert_eq!(c, v(0.375, 0.425, 0.5));
    // a ray that meets nothing takes no word and gives nothing up
    let mut rng = Words::of(&[u64::MAX]);
    let (_, found) = Ray::new(v(0., 0., 0.), v(0., 1., 0.)).color(&ball, MAX_DEPTH, &mut rng);
    assert!(found);
    assert_eq!(rng.taken, 0);
}
