use raytracer::scalar::Scalar;

fn s(x: f64) -> Scalar {
    Scalar::from_bits(x.to_bits())
}

fn f(x: Scalar) -> f64 {
    f64::from_bits(x.to_bits())
}

/// A stream of patterns: every kind of scalar comes up, small exponents and
/// large ones, and fractions with few bits and with many.
struct Patterns {
    state: u64,
}

impl Patterns {
    fn new(seed: u64) -> Patterns {
        Patterns { state: seed }
    }

    fn word(&mut self) -> u64 {
        self.state ^= self.state << 13;
        self.state ^= self.state >> 7;
        self.state ^= self.state << 17;
        self.state
    }

    fn next(&mut self) -> f64 {
        let w = self.word();
        let pick = self.word() % 8;
        let bits = match pick {
            0 => w,
            1 => w & 0x800f_ffff_ffff_ffff,
            2 => (w & 0x800f_ffff_ffff_ffff) | 0x3ff0_0000_0000_0000,
            3 => (w & 0x8000_0000_0000_00ff) | ((self.word() % 2047) << 52),
            4 => (w & 0x800f_ffff_ffff_ffff) | ((1000 + self.word() % 48) << 52),
            5 => (w & 0x800f_f000_0000_0000) | ((self.word() % 2047) << 52),
            6 => (w & 0x8000_0000_0000_0003) | ((self.word() % 3) << 52),
            _ => (w | 0x000f_ffff_ffff_ff00) & !(0x7ff << 52) | ((self.word() % 2047) << 52),
        };
        f64::from_bits(bits)
    }
}

fn special() -> Vec<f64> {
    vec![
        0.0,
        -0.0,
        1.0,
        -1.0,
        0.5,
        2.0,
        3.0,
        0.1,
        0.7,
        255.99,
        5e-324,
        -5e-324,
        f64::MIN_POSITIVE,
        f64::MIN_POSITIVE / 2.,
        f64::MAX,
        -f64::MAX,
        f64::INFINITY,
        f64::NEG_INFINITY,
        f64::NAN,
        1e308,
        1e-308,
        1.5e-323,
        f64::EPSILON,
        1. + f64::EPSILON,
        1. - f64::EPSILON / 2.,
    ]
}

fn same(got: Scalar, want: f64) -> bool {
    if want.is_nan() {
        got.is_nan()
    } else {
        got.to_bits() == want.to_bits()
    }
}

#[test]
fn mul_is_the_product_of_the_machine() {
    for a in special() {
        for b in special() {
            assert!(same(s(a) * s(b), a * b), "{:e} * {:e}", a, b);
        }
    }
    let mut p = Patterns::new(0x9e37_79b9_7f4a_7c15);
    for _ in 0..200_000 {
        let (a, b) = (p.next(), p.next());
        assert!(same(s(a) * s(b), a * b), "{:e} * {:e}", a, b);
    }
}

#[test]
fn mul_on_given_values() {
    assert_eq!(f(s(3.) * s(4.)), 12.);
    assert_eq!(f(s(0.1) * s(0.1)), 0.010000000000000002);
    assert_eq!(f(s(-2.) * s(0.5)), -1.);
    assert_eq!((s(-0.) * s(5.)).to_bits(), (-0f64).to_bits());
    assert!((s(f64::INFINITY) * s(0.)).is_nan());
    assert_eq!(f(s(1e200) * s(1e200)), f64::INFINITY);
    assert_eq!(f(s(1e-200) * s(1e-200)), 0.);
}

#[test]
fn add_is_the_sum_of_the_machine() {
    for a in special() {
        for b in special() {
            assert!(same(s(a) + s(b), a + b), "{:e} + {:e}", a, b);
        }
    }
    let mut p = Patterns::new(0x2545_f491_4f6c_dd1d);
    for _ in 0..200_000 {
        let (a, b) = (p.next(), p.next());
        assert!(same(s(a) + s(b), a + b), "{:e} + {:e}", a, b);
    }
}

#[test]
fn add_of_close_numbers_is_the_sum_of_the_machine() {
    let mut p = Patterns::new(0x1234_5678_9abc_def1);
    for _ in 0..200_000 {
        let a = p.next();
        let step = (p.word() % 130) as i64 - 65;
        let tweak = p.word() & 0x000f_ffff_ffff_ffff;
        let exponent = ((a.to_bits() >> 52) & 0x7ff) as i64 + step;
        if exponent < 0 || exponent > 2046 {
            continue;
        }
        let b = f64::from_bits((p.word() & (1 << 63)) | ((exponent as u64) << 52) | tweak);
        assert!(same(s(a) + s(b), a + b), "{:e} + {:e}", a, b);
        assert!(same(s(a) - s(b), a - b), "{:e} - {:e}", a, b);
        assert!(same(s(a) + s(-a), a + -a), "{:e} + -{:e}", a, a);
    }
}

#[test]
fn sub_is_the_difference_of_the_machine() {
    for a in special() {
        for b in special() {
            assert!(same(s(a) - s(b), a - b), "{:e} - {:e}", a, b);
        }
    }
    let mut p = Patterns::new(0x0f0f_1e1e_2d2d_3c3c);
    for _ in 0..200_000 {
        let (a, b) = (p.next(), p.next());
        assert!(same(s(a) - s(b), a - b), "{:e} - {:e}", a, b);
    }
}

#[test]
fn neg_flips_the_sign() {
    for a in special() {
        assert!(same(s(a).neg(), -a), "-{:e}", a);
    }
    assert_eq!(s(0.).neg().to_bits(), (-0f64).to_bits());
}

#[test]
fn add_on_given_values() {
    assert_eq!(f(s(0.1) + s(0.2)), 0.30000000000000004);
    assert_eq!(f(s(1.) + s(-1.)), 0.);
    assert_eq!((s(1.) + s(-1.)).to_bits(), 0f64.to_bits());
    assert_eq!((s(-0.) + s(-0.)).to_bits(), (-0f64).to_bits());
    assert_eq!((s(-0.) + s(0.)).to_bits(), 0f64.to_bits());
    assert_eq!(f(s(1e16) + s(1.)), 1e16);
    assert_eq!(f(s(f64::MAX) + s(f64::MAX)), f64::INFINITY);
    assert!((s(f64::INFINITY) + s(f64::NEG_INFINITY)).is_nan());
    assert_eq!(f(s(3.) - s(5.)), -2.);
}

#[test]
fn div_is_the_quotient_of_the_machine() {
    for a in special() {
        for b in special() {
            assert!(same(s(a) / s(b), a / b), "{:e} / {:e}", a, b);
        }
    }
    let mut p = Patterns::new(0x7777_3333_aaaa_5555);
    for _ in 0..200_000 {
        let (a, b) = (p.next(), p.next());
        assert!(same(s(a) / s(b), a / b), "{:e} / {:e}", a, b);
    }
}

#[test]
fn div_on_given_values() {
    assert_eq!(f(s(1.) / s(3.)), 0.3333333333333333);
    assert_eq!(f(s(3.) / s(5.)), 0.6);
    assert_eq!(f(s(4.) / s(5.)), 0.8);
    assert_eq!(f(s(1.) / s(0.)), f64::INFINITY);
    assert_eq!(f(s(-1.) / s(0.)), f64::NEG_INFINITY);
    assert!((s(0.) / s(0.)).is_nan());
    assert_eq!(f(s(1.) / s(f64::INFINITY)), 0.);
}

#[test]
fn sqrt_is_the_root_of_the_machine() {
    for a in special() {
        assert!(same(s(a).sqrt(), a.sqrt()), "sqrt {:e}", a);
    }
    let mut p = Patterns::new(0xdead_beef_cafe_f00d);
    for _ in 0..200_000 {
        let a = p.next();
        assert!(same(s(a).sqrt(), a.sqrt()), "sqrt {:e}", a);
        let b = a * a;
        assert!(same(s(b).sqrt(), b.sqrt()), "sqrt {:e}", b);
    }
}

#[test]
fn sqrt_on_given_values() {
    assert_eq!(f(s(25.).sqrt()), 5.);
    assert_eq!(f(s(2.).sqrt()), 1.4142135623730951);
    assert_eq!(f(s(0.25).sqrt()), 0.5);
    assert_eq!(s(-0.).sqrt().to_bits(), (-0f64).to_bits());
    assert!(s(-1.).sqrt().is_nan());
    assert_eq!(f(s(f64::INFINITY).sqrt()), f64::INFINITY);
    assert_eq!(f(s(5e-324).sqrt()), 2.2227587494850775e-162);
}

#[test]
fn from_u32_is_the_cast_of_the_machine() {
    for i in [0u32, 1, 2, 3, 99, 100, 199, 200, 255, 65_535, 16_777_217, u32::MAX - 1, u32::MAX] {
        assert_eq!(Scalar::from_u32(i).to_bits(), (i as f64).to_bits(), "{}", i);
    }
    let mut p = Patterns::new(0x0123_4567_89ab_cdef);
    for _ in 0..100_000 {
        let i = p.word() as u32;
        assert_eq!(Scalar::from_u32(i).to_bits(), (i as f64).to_bits(), "{}", i);
    }
}
