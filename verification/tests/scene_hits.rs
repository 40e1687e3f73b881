use raytracer::ray::{Hit, HitList, HitRecord, Ray};
use raytracer::scalar::Scalar;
use raytracer::sphere::{Chord, Sphere};
use raytracer::vector::Vec3;

fn s(x: f64) -> Scalar {
    Scalar::from_bits(x.to_bits())
}

fn f(x: Scalar) -> f64 {
    f64::from_bits(x.to_bits())
}

fn v(x: f64, y: f64, z: f64) -> Vec3 {
    Vec3::new(s(x), s(y), s(z))
}

fn ball(x: f64, y: f64, z: f64, r: f64) -> Sphere {
    Sphere::new(v(x, y, z), s(r)).unwrap()
}

fn scene(spheres: &[Sphere]) -> HitList<Sphere> {
    HitList { hlist: spheres.to_vec() }
}

fn rec(t: f64) -> HitRecord {
    HitRecord::new(s(t), v(0., 0., -t), v(0., 0., 1.))
}

fn down_the_axis() -> Ray {
    Ray::new(v(0., 0., 0.), v(0., 0., -1.))
}

#[test]
fn a_ray_down_the_axis_hits_the_sphere_at_one_half() {
    let r = down_the_axis();
    let h = ball(0., 0., -1., 0.5).hit(&r, s(0.), s(f64::MAX)).unwrap();
    assert_eq!(f(h.t()), 0.5);
    assert_eq!(h.p(), v(0., 0., -0.5));
    assert_eq!(h.normal(), v(0., 0., 1.));
    let world = scene(&[ball(0., 0., -1., 0.5)]);
    let h = world.hit(&r, s(0.), s(f64::MAX)).unwrap();
    assert_eq!(f(h.t()), 0.5);
    assert_eq!(h.normal(), v(0., 0., 1.));
}

#[test]
fn the_chord_runs_from_the_near_side_to_the_far_side() {
    let c = ball(0., 0., -1., 0.5).chord(&down_the_axis()).unwrap();
    assert_eq!(f(c.enter().t()), 0.5);
    assert_eq!(c.enter().normal(), v(0., 0., 1.));
    assert_eq!(f(c.leave().t()), 1.5);
    assert_eq!(c.leave().p(), v(0., 0., -1.5));
    assert_eq!(c.leave().normal(), v(0., 0., -1.));
}

#[test]
fn the_normal_has_unit_length() {
    let spheres = [ball(0., 0., -1., 0.5), ball(0., -100.5, -1., 100.), ball(3., 2., -7., 2.5)];
    let rays = [
        Ray::new(v(0., 0., 0.), v(0.1, 0.05, -1.)),
        Ray::new(v(0., 0., 0.), v(1., -1., -1.)),
        Ray::new(v(0., 0., 0.), v(3., 2.2, -7.)),
        Ray::new(v(0.5, 0.5, 0.5), v(-0.3, -100., -1.)),
    ];
    let mut hits = 0;
    for b in spheres.iter() {
        for r in rays.iter() {
            if let Some(h) = b.hit(r, s(0.001), s(f64::INFINITY)) {
                hits += 1;
                assert!((f(h.normal().len()) - 1.).abs() < 1e-12);
                assert_eq!(h.p(), r.point_at(h.t()));
            }
        }
    }
    assert!(hits >= 4);
}

#[test]
fn a_ray_along_x_misses_the_sphere() {
    let r = Ray::new(v(0., 0., 0.), v(1., 0., 0.));
    assert!(ball(0., 0., -1., 0.5).chord(&r).is_none());
    assert!(ball(0., 0., -1., 0.5).hit(&r, s(0.), s(f64::MAX)).is_none());
    let world = scene(&[ball(0., 0., -1., 0.5)]);
    assert!(world.hit(&r, s(0.), s(f64::MAX)).is_none());
}

#[test]
fn an_empty_scene_is_never_hit() {
    let world: HitList<Sphere> = HitList { hlist: vec![] };
    assert!(world.hit(&down_the_axis(), s(0.), s(f64::MAX)).is_none());
}

#[test]
fn of_two_overlapping_spheres_the_nearer_is_hit() {
    let r = down_the_axis();
    let near_first = scene(&[ball(0., 0., -1., 0.5), ball(0., 0., -1.25, 0.5)]);
    let far_first = scene(&[ball(0., 0., -1.25, 0.5), ball(0., 0., -1., 0.5)]);
    let a = near_first.hit(&r, s(0.001), s(f64::INFINITY)).unwrap();
    let b = far_first.hit(&r, s(0.001), s(f64::INFINITY)).unwrap();
    assert_eq!(f(a.t()), 0.5);
    assert_eq!(f(b.t()), 0.5);
    assert_eq!(a.p(), b.p());
    assert_eq!(a.normal(), v(0., 0., 1.));
    assert_eq!(b.normal(), v(0., 0., 1.));
}

#[test]
fn of_two_equally_near_spheres_the_first_is_hit() {
    let r = down_the_axis();
    let left = ball(-0.25, 0., -1., 0.5);
    let right = ball(0.25, 0., -1., 0.5);
    let tl = left.hit(&r, s(0.), s(f64::MAX)).unwrap();
    let tr = right.hit(&r, s(0.), s(f64::MAX)).unwrap();
    assert_eq!(f(tl.t()), f(tr.t()));
    let world = HitList { hlist: vec![left, right] };
    let h = world.hit(&r, s(0.), s(f64::MAX)).unwrap();
    assert_eq!(h.normal(), tl.normal());
    assert_ne!(h.normal(), tr.normal());
}

#[test]
fn the_interval_is_open_at_both_ends() {
    let r = down_the_axis();
    let world = scene(&[ball(0., 0., -1., 0.5)]);
    let far = world.hit(&r, s(0.5), s(f64::MAX)).unwrap();
    assert_eq!(f(far.t()), 1.5);
    assert!(world.hit(&r, s(0.5), s(1.5)).is_none());
    assert!(world.hit(&r, s(0.), s(0.5)).is_none());
    assert!(world.hit(&r, s(1.5), s(f64::MAX)).is_none());
}

#[test]
fn a_list_of_lists_is_a_shape() {
    let r = down_the_axis();
    let inner = scene(&[ball(0., 0., -3., 0.5), ball(0., 0., -1., 0.5)]);
    let outer = HitList { hlist: vec![scene(&[ball(0., 0., -2., 0.5)]), inner] };
    let h = outer.hit(&r, s(0.), s(f64::MAX)).unwrap();
    assert_eq!(f(h.t()), 0.5);
}

#[test]
fn the_ground_is_hit_beside_the_small_sphere() {
    let spheres = [ball(0., 0., -1., 0.5), ball(0., -100.5, -1., 100.)];
    let r = Ray::new(v(0., 0., 0.), v(1., -1., -1.));
    let world = scene(&spheres);
    assert!(spheres[0].chord(&r).is_none());
    assert!(spheres[1].chord(&r).is_some());
    let h = world.hit(&r, s(0.001), s(f64::INFINITY)).unwrap();
    assert!(f(h.t()) > 0.4 && f(h.t()) < 0.6);
    assert!(f(h.normal().y()) > 0.99);
}

#[test]
fn the_entering_crossing_is_preferred() {
    let c = Chord::new(s(1.), rec(0.5), rec(1.5)).unwrap();
    let got = c.hit(&down_the_axis(), s(0.), s(f64::MAX)).unwrap();
    assert_eq!(f(got.t()), 0.5);
    assert_eq!(f(c.enter().t()), 0.5);
    assert_eq!(f(c.leave().t()), 1.5);
}

#[test]
fn the_leaving_crossing_answers_where_the_entering_one_is_outside() {
    let c = Chord::new(s(1.), rec(-1.5), rec(0.5)).unwrap();
    let got = c.hit(&down_the_axis(), s(0.001), s(f64::MAX)).unwrap();
    assert_eq!(f(got.t()), 0.5);
}

#[test]
fn no_crossing_answers_where_both_are_outside() {
    let behind = Chord::new(s(1.), rec(-1.5), rec(-0.5)).unwrap();
    assert!(behind.hit(&down_the_axis(), s(0.001), s(f64::MAX)).is_none());
    let beyond = Chord::new(s(1.), rec(2.), rec(3.)).unwrap();
    assert!(beyond.hit(&down_the_axis(), s(0.), s(2.)).is_none());
}

#[test]
fn a_negative_discriminant_makes_no_chord() {
    assert!(Chord::new(s(-3.), rec(0.5), rec(1.5)).is_none());
    assert!(Chord::new(s(-3.), rec(f64::NAN), rec(f64::NAN)).is_none());
    assert!(Chord::new(s(-5e-324), rec(0.5), rec(1.5)).is_none());
    assert!(Chord::new(s(-0.), rec(0.5), rec(1.5)).is_some());
}

#[test]
fn roots_out_of_order_make_no_chord() {
    assert!(Chord::new(s(1.), rec(1.5), rec(0.5)).is_none());
}

#[test]
fn a_tangent_ray_is_a_hit() {
    let c = Chord::new(s(0.), rec(1.), rec(1.)).unwrap();
    assert_eq!(f(c.hit(&down_the_axis(), s(0.), s(f64::MAX)).unwrap().t()), 1.);
    let r = down_the_axis();
    let world = scene(&[ball(0.5, 0., -1., 0.5)]);
    let h = world.hit(&r, s(0.), s(f64::MAX)).unwrap();
    assert_eq!(f(h.t()), 1.);
}

#[test]
fn roots_that_are_not_numbers_are_misses() {
    let c = Chord::new(s(f64::NAN), rec(f64::NAN), rec(f64::NAN)).unwrap();
    assert!(c.hit(&down_the_axis(), s(f64::NEG_INFINITY), s(f64::INFINITY)).is_none());
}

#[test]
fn check_hit_branch_keeps_a_root_inside() {
    assert_eq!(f(Sphere::check_hit_branch(s(0.), s(1.), rec(0.5)).unwrap().t()), 0.5);
    assert!(Sphere::check_hit_branch(s(0.), s(1.), rec(1.)).is_none());
    assert!(Sphere::check_hit_branch(s(0.), s(1.), rec(0.)).is_none());
    assert!(Sphere::check_hit_branch(s(0.), s(1.), rec(-0.5)).is_none());
}

#[test]
fn a_sphere_needs_a_radius_above_zero() {
    assert!(Sphere::new(v(0., 0., -1.), s(0.5)).is_some());
    assert!(Sphere::new(v(0., 0., -1.), s(0.)).is_none());
    assert!(Sphere::new(v(0., 0., -1.), s(-0.)).is_none());
    assert!(Sphere::new(v(0., 0., -1.), s(-0.5)).is_none());
    assert!(Sphere::new(v(0., 0., -1.), s(f64::NAN)).is_none());
    let made = Sphere::new(v(0., -100.5, -1.), s(100.)).unwrap();
    assert_eq!(made.center, v(0., -100.5, -1.));
    assert_eq!(f(made.r), 100.);
    assert!(made.is_valid());
    assert!(!Sphere { center: v(0., 0., 0.), r: s(-1.) }.is_valid());
}
