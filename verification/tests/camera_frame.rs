use raytracer::camera::Camera;
use raytracer::frame::{develop, image_row, sample_coordinate, to_byte, CHANNEL_SCALE_BITS};
use raytracer::ray::Ray;
use raytracer::scalar::Scalar;
use raytracer::vector::Vec3;

fn s(x: f64) -> Scalar {
    Scalar::from_bits(x.to_bits())
}

fn f(x: Scalar) -> f64 {
    f64::from_bits(x.to_bits())
}

fn v(x: f64, y: f64, z: f64) -> Vec3 {
    Vec3::new(s(x), s(y), s(z))
}

fn bits(v: &Vec3) -> [u64; 3] {
    [v.x().to_bits(), v.y().to_bits(), v.z().to_bits()]
}

#[test]
fn the_standard_camera() {
    let c = Camera::new();
    assert_eq!(bits(&c.lower_left_corner), [(-2f64).to_bits(), (-1f64).to_bits(), (-1f64).to_bits()]);
    assert_eq!(bits(&c.horizontal), [4f64.to_bits(), (-0f64).to_bits(), (-0f64).to_bits()]);
    assert_eq!(bits(&c.vertical), [0f64.to_bits(), 2f64.to_bits(), 0f64.to_bits()]);
    assert_eq!(bits(&c.origin), [0f64.to_bits(), 0f64.to_bits(), 0f64.to_bits()]);
}

#[test]
fn the_camera_looks_through_the_viewport() {
    let c = Camera::new();
    assert_eq!(c.get_ray(s(0.), s(0.)), Ray::new(v(0., 0., 0.), v(-2., -1., -1.)));
    assert_eq!(c.get_ray(s(1.), s(1.)), Ray::new(v(0., 0., 0.), v(2., 1., -1.)));
    assert_eq!(c.get_ray(s(0.5), s(0.5)), Ray::new(v(0., 0., 0.), v(0., 0., -1.)));
    assert_eq!(c.get_ray(s(0.25), s(0.75)), Ray::new(v(0., 0., 0.), v(-1., 0.5, -1.)));
    let r = c.get_ray(s(0.1), s(0.3));
    assert_eq!(*r.direction(), v(-2. + 4. * 0.1 + 0. * 0.3, -1. + -0. * 0.1 + 2. * 0.3, -1.));
}

#[test]
fn a_camera_elsewhere_looks_from_its_origin() {
    let c = Camera {
        lower_left_corner: v(1., 1., 1.),
        horizontal: v(2., 0., 0.),
        vertical: v(0., 0., 2.),
        origin: v(0.5, -3., 0.5),
    };
    let r = c.get_ray(s(0.5), s(0.25));
    assert_eq!(*r.origin(), v(0.5, -3., 0.5));
    assert_eq!(*r.direction(), v(1.5, 4., 1.));
}

#[test]
fn the_lowest_scanline_is_the_last_row() {
    assert_eq!(image_row(100, 0), 99);
    assert_eq!(image_row(100, 99), 0);
    assert_eq!(image_row(100, 42), 57);
    assert_eq!(image_row(1, 0), 0);
    assert_eq!(image_row(u32::MAX, 0), u32::MAX - 1);
}

#[test]
fn flipping_twice_gives_the_scanline_back() {
    let ny = 100;
    let mut seen = vec![false; 100];
    for j in 0..ny {
        let y = image_row(ny, j);
        assert_eq!(image_row(ny, y), j);
        assert!(!seen[y as usize]);
        seen[y as usize] = true;
    }
    assert!(seen.iter().all(|b| *b));
}

#[test]
fn a_sample_lies_in_its_pixel() {
    assert_eq!(f(sample_coordinate(0, 200, s(0.))), 0.);
    assert_eq!(f(sample_coordinate(100, 200, s(0.))), 0.5);
    assert_eq!(f(sample_coordinate(199, 200, s(0.5))), 199.5 / 200.);
    assert_eq!(f(sample_coordinate(7, 100, s(0.3))), (7. + 0.3) / 100.);
    assert_eq!(f(sample_coordinate(u32::MAX, u32::MAX, s(0.))), 1.);
}

#[test]
fn to_byte_takes_the_whole_part() {
    assert_eq!(to_byte(s(0.)), 0);
    assert_eq!(to_byte(s(0.999)), 0);
    assert_eq!(to_byte(s(1.)), 1);
    assert_eq!(to_byte(s(1.999)), 1);
    assert_eq!(to_byte(s(2.)), 2);
    assert_eq!(to_byte(s(127.5)), 127);
    assert_eq!(to_byte(s(128.)), 128);
    assert_eq!(to_byte(s(254.99999)), 254);
    assert_eq!(to_byte(s(255.)), 255);
    assert_eq!(to_byte(s(255.99)), 255);
}

#[test]
fn to_byte_stays_within_the_byte() {
    assert_eq!(to_byte(s(256.)), 255);
    assert_eq!(to_byte(s(1e300)), 255);
    assert_eq!(to_byte(s(f64::INFINITY)), 255);
    assert_eq!(to_byte(s(-0.)), 0);
    assert_eq!(to_byte(s(-0.5)), 0);
    assert_eq!(to_byte(s(-3.)), 0);
    assert_eq!(to_byte(s(f64::NEG_INFINITY)), 0);
    assert_eq!(to_byte(s(f64::NAN)), 0);
}

#[test]
fn to_byte_is_the_cast_to_a_byte() {
    let mut x = -2.0f64;
    while x < 260. {
        assert_eq!(to_byte(s(x)), x as u8, "{}", x);
        x += 0.0625 + x.abs() * 0.001;
    }
    for k in 0..=256u32 {
        let exact = k as f64;
        assert_eq!(to_byte(s(exact)), exact as u8);
        let below = f64::from_bits(exact.to_bits().wrapping_sub(1));
        if k > 0 {
            assert_eq!(to_byte(s(below)), below as u8);
        }
        let above = f64::from_bits(exact.to_bits() + 1);
        assert_eq!(to_byte(s(above)), above as u8);
    }
}

#[test]
fn a_colour_is_developed_into_three_bytes() {
    assert_eq!(CHANNEL_SCALE_BITS, 255.99f64.to_bits());
    assert_eq!(develop(v(0., 0., 0.), 100), (0, 0, 0));
    assert_eq!(develop(v(100., 100., 100.), 100), (255, 255, 255));
    assert_eq!(develop(v(25., 50., 75.), 100), (127, 181, 221));
    assert_eq!(develop(v(0.6056624327025936, 0.7633974596215561, 1.0), 1), (199, 223, 255));
    let (sum, ns) = (v(12.3, 45.6, 78.9), 100.);
    let want = |c: f64| (255.99 * (c / ns).sqrt()) as u8;
    assert_eq!(develop(sum, 100), (want(12.3), want(45.6), want(78.9)));
}

#[test]
fn a_colour_out_of_range_is_kept_within_the_byte() {
    assert_eq!(develop(v(4., -1., f64::NAN), 1), (255, 0, 0));
    assert_eq!(develop(v(1., 1., 1.), 0), (255, 255, 255));
}

#[test]
fn every_pixel_gets_a_ray_down_the_axis() {
    use_all_pixels(200, 100);
    use_all_pixels(3, 7);
    use_all_pixels(1, 1);
}

fn use_all_pixels(nx: u32, ny: u32) {
    let c = Camera::new();
    let jitters = [0u64, 1 << 63, u64::MAX, 0x9e37_79b9_7f4a_7c15];
    for i in 0..nx {
        for j in 0..ny {
            let word = jitters[((i + 3 * j) % 4) as usize];
            let xi = raytracer::sample::unit_interval(word);
            let u = sample_coordinate(i, nx, xi);
            let v = sample_coordinate(j, ny, xi);
            assert!(f(u) >= 0. && f(u) <= 1. && f(v) >= 0. && f(v) <= 1.);
            let r = c.get_ray(u, v);
            assert_eq!(bits(r.origin()), [0, 0, 0]);
            let d = r.direction();
            assert_eq!(f(d.z()), -1.);
            assert!(f(d.x()) >= -2. && f(d.x()) <= 2.);
            assert!(f(d.y()) >= -1. && f(d.y()) <= 1.);
        }
    }
}
