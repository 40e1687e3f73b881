use raytracer::scalar::Scalar;
use raytracer::vector::Vec3;

fn s(x: f64) -> Scalar {
    Scalar::from_bits(x.to_bits())
}

fn f(x: Scalar) -> f64 {
    f64::from_bits(x.to_bits())
}

fn v(x: f64, y: f64, z: f64) -> Vec3 {
    Vec3::new(s(x), s(y), s(z))
}

fn close(a: Vec3, b: Vec3, tolerance: f64) -> bool {
    (f(a.x()) - f(b.x())).abs() <= tolerance
        && (f(a.y()) - f(b.y())).abs() <= tolerance
        && (f(a.z()) - f(b.z())).abs() <= tolerance
}

#[test]
fn coor_test() {
    let v = Vec3::new(s(1.), s(2.), s(3.));
    assert_eq!(f(v.x()), 1.);
    assert_eq!(f(v.y()), 2.);
    assert_eq!(f(v.z()), 3.);
    assert_eq!(f(v.r()), 1.);
    assert_eq!(f(v.g()), 2.);
    assert_eq!(f(v.b()), 3.);
}

#[test]
fn len_test() {
    let v = Vec3::new(s(0.), s(3.), s(4.));
    assert_eq!(f(v.len()), 5.);
    assert_eq!(f(v.squared_len()), 25.);
}

#[test]
fn unit_vector_test() {
    let mut v = Vec3::new(s(0.), s(3.), s(4.));
    v.unit_vector();
    assert_eq!(v, Vec3::new(s(0.), s(0.6), s(0.8)));

    let v = Vec3::new(s(0.), s(3.), s(4.));
    let u = v.make_unit_vector();
    assert_eq!(u, Vec3::new(s(0.), s(0.6), s(0.8)));
    assert_eq!(v, Vec3::new(s(0.), s(3.), s(4.)));
}

#[test]
fn operation_test() {
    let v = Vec3::new(s(1.), s(2.), s(3.));
    let u = Vec3::new(s(0.), s(1.), s(0.));
    assert_eq!(v * u, Vec3::new(s(-3.), s(0.), s(1.)));
}

#[test]
fn dot_test() {
    let v = Vec3::new(s(1.), s(2.), s(3.));
    let u = Vec3::new(s(-1.), s(0.), s(1.));
    assert_eq!(f(u.dot(v)), 2.);
}

#[test]
fn vectors_compare_as_numbers() {
    let a = v(0., 0.6, 0.8);
    assert_eq!(a, v(-0., 0.6, 0.8));
    assert_ne!(a, v(0., 0.6, 0.8000000000000002));
    let n = v(f64::NAN, 0., 0.);
    assert_ne!(n, n);
}

#[test]
fn the_operators_work_component_by_component() {
    let a = v(1., 2., 3.);
    let b = v(0.5, -4., 0.25);
    assert_eq!(a + b, v(1.5, -2., 3.25));
    assert_eq!(a - b, v(0.5, 6., 2.75));
    assert_eq!(a * s(2.), v(2., 4., 6.));
    assert_eq!(a / s(4.), v(0.25, 0.5, 0.75));
    assert_eq!(v(0.1, 0.2, 0.3) + v(0.2, 0.1, 0.6), v(0.1 + 0.2, 0.2 + 0.1, 0.3 + 0.6));
    assert_eq!(v(1., 1., 1.) / s(3.), v(1. / 3., 1. / 3., 1. / 3.));
}

#[test]
fn the_operators_work_in_place() {
    let mut a = v(1., 2., 3.);
    a += v(1., 1., 1.);
    assert_eq!(a, v(2., 3., 4.));
    a -= v(0.5, 0.5, 0.5);
    assert_eq!(a, v(1.5, 2.5, 3.5));
    a *= s(2.);
    assert_eq!(a, v(3., 5., 7.));
    a /= s(2.);
    assert_eq!(a, v(1.5, 2.5, 3.5));
    let mut c = v(1., 2., 3.);
    c *= v(0., 1., 0.);
    assert_eq!(c, v(-3., 0., 1.));
}

#[test]
fn the_cross_product_is_right_handed() {
    assert_eq!(v(1., 0., 0.) * v(0., 1., 0.), v(0., 0., 1.));
    assert_eq!(v(0., 1., 0.) * v(0., 0., 1.), v(1., 0., 0.));
    assert_eq!(v(0., 0., 1.) * v(1., 0., 0.), v(0., 1., 0.));
    assert_eq!(v(0., 1., 0.) * v(1., 0., 0.), v(0., 0., -1.));
    let (a, b) = (v(1.5, -2., 0.25), v(4., 0.5, -1.));
    let c = a * b;
    assert_eq!(c, v(-2. * -1. - 0.25 * 0.5, 0.25 * 4. - 1.5 * -1., 1.5 * 0.5 - -2. * 4.));
    assert_eq!(f(c.dot(a)), 0.);
    assert_eq!(f(c.dot(b)), 0.);
}

#[test]
fn adding_and_taking_away_gives_the_vector_back() {
    let a = v(1., 2., 3.);
    let w = v(0.5, -4., 0.25);
    assert_eq!(a + w - w, a);
    let a = v(0.1, 0.2, 0.3);
    let w = v(1e3, -7.7, 0.33);
    assert!(close(a + w - w, a, 1e-12));
}

#[test]
fn scaling_and_dividing_gives_the_vector_back() {
    let a = v(1., 2., 3.);
    assert_eq!(a * s(4.) / s(4.), a);
    assert_eq!(a * s(-0.5) / s(-0.5), a);
    let a = v(0.1, 0.2, 0.3);
    assert!(close(a * s(3.3) / s(3.3), a, 1e-15));
}

#[test]
fn a_unit_vector_has_length_one() {
    for a in [v(0., 3., 4.), v(1., 1., 1.), v(-0.3, 12.5, 1e-3), v(1e100, 2e100, -1e100)] {
        let u = a.make_unit_vector();
        assert!((f(u.len()) - 1.).abs() <= 1e-15);
        let mut m = a;
        m.unit_vector();
        assert_eq!(m, u);
        assert_ne!(m, a);
    }
    assert_eq!(f(v(0., 3., 4.).make_unit_vector().len()), 1.);
}

#[test]
fn a_vector_of_length_zero_has_no_unit_vector() {
    let u = v(0., 0., 0.).make_unit_vector();
    assert!(u.x().is_nan() && u.y().is_nan() && u.z().is_nan());
}

#[test]
fn the_dot_product_adds_up_from_the_first() {
    let (a, b) = (v(0.1, 0.2, 0.3), v(0.4, 0.5, 0.6));
    assert_eq!(f(a.dot(b)), 0.1 * 0.4 + 0.2 * 0.5 + 0.3 * 0.6);
    assert_eq!(f(a.squared_len()), 0.1 * 0.1 + 0.2 * 0.2 + 0.3 * 0.3);
    assert_eq!(f(a.len()), (0.1f64 * 0.1 + 0.2 * 0.2 + 0.3 * 0.3).sqrt());
}

#[test]
fn a_round_trip_is_off_by_four_epsilons_at_most() {
    let mut state = 0x9e37_79b9_7f4a_7c15u64;
    let mut number = || {
        state ^= state << 13;
        state ^= state >> 7;
        state ^= state << 17;
        let sign = if state & 1 == 0 { 1. } else { -1. };
        let exponent = ((state >> 8) % 80) as i32 - 40;
        sign * (1. + (state >> 11) as f64 / 9007199254740992.) * 2f64.powi(exponent)
    };
    for _ in 0..20_000 {
        let (a, b) = (v(number(), number(), number()), v(number(), number(), number()));
        let back = a + b - b;
        for (got, (x, y)) in [
            (back.x(), (a.x(), b.x())),
            (back.y(), (a.y(), b.y())),
            (back.z(), (a.z(), b.z())),
        ] {
            assert!((f(got) - f(x)).abs() <= 4. * f64::EPSILON * (f(x).abs() + f(y).abs()));
        }
        let k = s(number());
        let back = a * k / k;
        for (got, x) in [(back.x(), a.x()), (back.y(), a.y()), (back.z(), a.z())] {
            assert!((f(got) - f(x)).abs() <= 4. * f64::EPSILON * f(x).abs());
            assert_eq!(f(got).is_sign_negative(), f(x).is_sign_negative());
        }
    }
}
