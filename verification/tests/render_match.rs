use raytracer::camera::Camera;
use raytracer::frame::{pixel, render};
use raytracer::ray::HitList;
use raytracer::sample::{RandomSource, ThreadRandom};
use raytracer::scalar::Scalar;
use raytracer::shade::MAX_DEPTH;
use raytracer::sphere::Sphere;
use raytracer::vector::Vec3;

fn s(x: f64) -> Scalar {
    Scalar::from_bits(x.to_bits())
}

fn v(x: f64, y: f64, z: f64) -> Vec3 {
    Vec3::new(s(x), s(y), s(z))
}

/// A small generator of words, the same for the library and for the
/// arithmetic of the machine that it is held against.
struct Xorshift {
    state: u64,
}

impl Xorshift {
    fn word(&mut self) -> u64 {
        self.state ^= self.state << 13;
        self.state ^= self.state >> 7;
        self.state ^= self.state << 17;
        self.state
    }

    fn unit(&mut self) -> f64 {
        (self.word() >> 11) as f64 * (1. / 9007199254740992.)
    }
}

impl RandomSource for Xorshift {
    fn next_word(&mut self) -> u64 {
        self.word()
    }
}

type V = [f64; 3];

fn add(a: V, b: V) -> V {
    [a[0] + b[0], a[1] + b[1], a[2] + b[2]]
}

fn sub(a: V, b: V) -> V {
    [a[0] - b[0], a[1] - b[1], a[2] - b[2]]
}

fn mul(a: V, t: f64) -> V {
    [a[0] * t, a[1] * t, a[2] * t]
}

fn div(a: V, t: f64) -> V {
    [a[0] / t, a[1] / t, a[2] / t]
}

fn dot(a: V, b: V) -> f64 {
    a[0] * b[0] + a[1] * b[1] + a[2] * b[2]
}

/// The scene in the arithmetic of the machine: spheres as centre and radius.
struct Machine {
    spheres: Vec<(V, f64)>,
}

impl Machine {
    fn hit_sphere(center: V, radius: f64, o: V, d: V, tmin: f64, tmax: f64) -> Option<(f64, V, V)> {
        let oc = sub(o, center);
        let a = dot(d, d);
        let b = 2. * dot(d, oc);
        let c = dot(oc, oc) - radius * radius;
        let discr = b * b - 4. * a * c;
        let left = (-b - discr.sqrt()) / (2. * a);
        let right = (-b + discr.sqrt()) / (2. * a);
        if discr < 0. || right < left {
            return None;
        }
        for t in [left, right] {
            if tmin < t && t < tmax {
                let p = add(o, mul(d, t));
                return Some((t, p, div(sub(p, center), radius)));
            }
        }
        None
    }

    fn hit(&self, o: V, d: V, tmin: f64, tmax: f64) -> Option<(f64, V, V)> {
        let mut best = None;
        let mut closest = tmax;
        for (center, radius) in self.spheres.iter() {
            if let Some(h) = Machine::hit_sphere(*center, *radius, o, d, tmin, closest) {
                closest = h.0;
                best = Some(h);
            }
        }
        best
    }

    fn scatter(rng: &mut Xorshift) -> V {
        for _ in 0..1000 {
            let p = sub(mul([rng.unit(), rng.unit(), rng.unit()], 2.), [1., 1., 1.]);
            if dot(p, p) < 1. {
                return p;
            }
        }
        [0., 0., 0.]
    }

    fn color(&self, o: V, d: V, depth: u32, rng: &mut Xorshift) -> V {
        if depth == 0 {
            return [0., 0., 0.];
        }
        match self.hit(o, d, 0.001, f64::INFINITY) {
            Some((_, p, n)) => {
                let target = add(add(p, n), Machine::scatter(rng));
                mul(self.color(p, sub(target, p), depth - 1, rng), 0.5)
            },
            None => {
                let unit = div(d, dot(d, d).sqrt());
                let t = 0.5 * (unit[1] + 1.);
                add(mul([1., 1., 1.], 1.0 - t), mul([0.5, 0.7, 1.], t))
            },
        }
    }

    fn pixel(&self, i: u32, j: u32, nx: u32, ny: u32, ns: u32, rng: &mut Xorshift) -> [u8; 3] {
        let mut color = [0., 0., 0.];
        for _ in 0..ns {
            let u = (i as f64 + rng.unit()) / nx as f64;
            let v = (j as f64 + rng.unit()) / ny as f64;
            let d = sub(add(add([-2., -1., -1.], mul([4., -0., -0.], u)), mul([0., 2., 0.], v)), [0., 0., 0.]);
            color = add(color, self.color([0., 0., 0.], d, 50, rng));
        }
        color = div(color, ns as f64);
        [
            (255.99 * color[0].sqrt()) as u8,
            (255.99 * color[1].sqrt()) as u8,
            (255.99 * color[2].sqrt()) as u8,
        ]
    }

    fn render(&self, nx: u32, ny: u32, ns: u32, rng: &mut Xorshift) -> Vec<u8> {
        let mut raw = vec![0u8; (3 * nx * ny) as usize];
        for j in (0..ny).rev() {
            for i in 0..nx {
                let px = self.pixel(i, j, nx, ny, ns, rng);
                let at = 3 * ((ny - j - 1) * nx + i) as usize;
                raw[at..at + 3].copy_from_slice(&px);
            }
        }
        raw
    }
}

fn two_spheres() -> (HitList<Sphere>, Machine) {
    let world = HitList {
        hlist: vec![
            Sphere::new(v(0., 0., -1.), s(0.5)).unwrap(),
            Sphere::new(v(0., -100.5, -1.), s(100.)).unwrap(),
        ],
    };
    let machine = Machine { spheres: vec![([0., 0., -1.], 0.5), ([0., -100.5, -1.], 100.)] };
    (world, machine)
}

#[test]
fn a_pixel_is_the_pixel_of_the_machine() {
    let (world, machine) = two_spheres();
    let camera = Camera::new();
    for (i, j) in [(0, 0), (10, 5), (20, 9), (39, 19), (20, 0), (0, 19), (17, 11)] {
        let mut ours = Xorshift { state: 0x2545_f491_4f6c_dd1d + i as u64 };
        let mut theirs = Xorshift { state: 0x2545_f491_4f6c_dd1d + i as u64 };
        let (got, found) = pixel(&camera, &world, i, j, 40, 20, 8, &mut ours);
        assert!(found);
        let want = machine.pixel(i, j, 40, 20, 8, &mut theirs);
        assert_eq!([got.0, got.1, got.2], want, "pixel ({}, {})", i, j);
        assert_eq!(ours.state, theirs.state);
    }
}

#[test]
fn a_frame_is_the_frame_of_the_machine() {
    let (world, machine) = two_spheres();
    let camera = Camera::new();
    let mut ours = Xorshift { state: 0x9e37_79b9_7f4a_7c15 };
    let mut theirs = Xorshift { state: 0x9e37_79b9_7f4a_7c15 };
    let (got, found) = render(&camera, &world, 24, 12, 3, &mut ours);
    assert!(found);
    let want = machine.render(24, 12, 3, &mut theirs);
    assert_eq!(got.len(), 3 * 24 * 12);
    assert_eq!(got, want);
    assert_eq!(ours.state, theirs.state);
}

#[test]
fn the_frame_shows_sky_sphere_and_ground() {
    let (world, _) = two_spheres();
    let camera = Camera::new();
    let (nx, ny) = (20u32, 10u32);
    let mut rng = Xorshift { state: 0x0123_4567_89ab_cdef };
    let (raw, _) = render(&camera, &world, nx, ny, 16, &mut rng);
    assert_eq!(raw.len(), 600);
    let at = |x: u32, y: u32| {
        let k = 3 * (y * nx + x) as usize;
        (raw[k], raw[k + 1], raw[k + 2])
    };
    // the sky at the top: more blue than red, the bluer the higher
    let top = at(10, 0);
    assert!(top.2 == 255 && top.0 < top.1 && top.1 < top.2);
    let lower = at(0, 4);
    assert!(lower.0 > top.0);
    // the small sphere in the middle: dimmer than the sky beside it
    let ball = at(10, 5);
    let beside = at(1, 4);
    assert!(ball.0 < beside.0 && ball.2 < beside.2);
    // the ground at the bottom is lit by the sky
    let ground = at(3, 9);
    assert!(ground.1 > 60 && ground.1 < 255);
}

#[test]
fn an_empty_frame_has_no_bytes() {
    let (world, _) = two_spheres();
    let mut rng = Xorshift { state: 1 };
    assert!(render(&Camera::new(), &world, 0, 0, 4, &mut rng).0.is_empty());
    assert!(render(&Camera::new(), &world, 7, 0, 4, &mut rng).0.is_empty());
    assert_eq!(render(&Camera::new(), &world, 0, 7, 4, &mut rng), (vec![], true));
    assert_eq!(rng.state, 1);
}

#[test]
fn a_frame_without_samples_is_black() {
    let (world, _) = two_spheres();
    let mut rng = Xorshift { state: 1 };
    let (raw, found) = render(&Camera::new(), &world, 2, 2, 0, &mut rng);
    assert_eq!(raw, vec![0u8; 12]);
    assert!(found);
    assert_eq!(rng.state, 1);
    assert_eq!(pixel(&Camera::new(), &world, 1, 1, 2, 2, 0, &mut rng), ((0, 0, 0), true));
    assert_eq!(rng.state, 1);
    assert_eq!(MAX_DEPTH, 50);
}

#[test]
fn the_thread_gives_words_to_render_with() {
    let (world, _) = two_spheres();
    let mut rng = ThreadRandom::new();
    let (raw, _) = render(&Camera::new(), &world, 8, 4, 2, &mut rng);
    assert_eq!(raw.len(), 96);
    // the top row is sky, whatever the words were
    assert_eq!(raw[2], 255);
    let words: Vec<u64> = (0..64).map(|_| rng.next_word()).collect();
    assert!(words.iter().any(|w| *w != words[0]));
    let (got, _) = pixel(&Camera::new(), &world, 0, 3, 8, 4, 4, &mut rng);
    assert!(got.0 < got.2);
}

#[test]
fn a_frame_tells_of_draws_that_gave_up() {
    /// A source whose candidates are all corners of the cube.
    struct Corners {
        taken: u64,
    }
    impl RandomSource for Corners {
        fn next_word(&mut self) -> u64 {
            self.taken += 1;
            u64::MAX
        }
    }
    let (world, _) = two_spheres();
    let mut rng = Corners { taken: 0 };
    // a pixel of the lowest scanline: the ray meets the ground
    let (px, found) = pixel(&Camera::new(), &world, 1, 0, 3, 3, 1, &mut rng);
    assert!(!found);
    assert!(rng.taken >= 2 + 3000);
    assert!(px.0 < 255);
    let mut rng = Corners { taken: 0 };
    let (raw, found) = render(&Camera::new(), &world, 3, 3, 1, &mut rng);
    assert!(!found);
    assert_eq!(raw.len(), 27);
}
