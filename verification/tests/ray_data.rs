use raytracer::ray::{HitRecord, Ray};
use raytracer::scalar::Scalar;
use raytracer::vector::Vec3;

fn s(x: f64) -> Scalar {
    Scalar::from_bits(x.to_bits())
}

fn v(x: f64, y: f64, z: f64) -> Vec3 {
    Vec3::new(s(x), s(y), s(z))
}

#[test]
fn test_origin() {
    let r = Ray::new(v(0., 0., 0.), v(1., 1., 1.));
    let a = r.origin();
    assert_eq!(*a, v(0., 0., 0.));
}

#[test]
fn test_direction() {
    let r = Ray::new(v(0., 0., 0.), v(1., 1., 1.));
    let a = r.direction();
    assert_eq!(*a, v(1., 1., 1.));
}

#[test]
fn test_point_at() {
    let r = Ray::new(v(0., 0., 0.), v(1., 1., 1.));
    let p = r.point_at(s(2.));
    assert_eq!(p, v(2., 2., 2.));
}

#[test]
fn at_zero_a_ray_is_at_its_origin() {
    let r = Ray::new(v(0.1, -2.5, 3e10), v(1., -1e-300, 7.7));
    assert_eq!(r.point_at(s(0.)), *r.origin());
    assert_eq!(r.point_at(s(-0.)), *r.origin());
    let r = Ray::new(v(-0., 0., 5e-324), v(-1., 1., f64::MAX));
    assert_eq!(r.point_at(s(0.)), *r.origin());
}

#[test]
fn at_one_a_ray_is_at_its_origin_plus_its_direction() {
    let r = Ray::new(v(0.1, -2.5, 3e10), v(0.2, -1e-300, 7.7));
    assert_eq!(r.point_at(s(1.)), *r.origin() + *r.direction());
    assert_eq!(r.point_at(s(1.)), v(0.1 + 0.2, -2.5 + -1e-300, 3e10 + 7.7));
}

#[test]
fn a_ray_runs_backwards_at_negative_parameters() {
    let r = Ray::new(v(1., 2., 3.), v(0.5, 0., -1.));
    assert_eq!(r.point_at(s(-2.)), v(0., 2., 5.));
    assert_eq!(r.point_at(s(1e10)), v(1. + 0.5e10, 2., 3. - 1e10));
}

#[test]
fn rays_compare_as_numbers() {
    let r = Ray::new(v(0., 0., 0.), v(1., 1., 1.));
    assert_eq!(r, Ray::new(v(-0., 0., 0.), v(1., 1., 1.)));
    assert_ne!(r, Ray::new(v(0., 0., 0.), v(1., 1., -1.)));
    assert_ne!(r, Ray::new(v(0., 0., 1.), v(1., 1., 1.)));
}

#[test]
fn a_record_keeps_what_it_was_given() {
    let h = HitRecord::new(s(0.5), v(0., 0., -0.5), v(0., 0., 1.));
    assert_eq!(h.t().to_bits(), 0.5f64.to_bits());
    assert_eq!(h.p(), v(0., 0., -0.5));
    assert_eq!(h.normal(), v(0., 0., 1.));
}
