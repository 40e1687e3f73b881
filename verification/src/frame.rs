//! The frame: how a pixel is sampled, how its colour becomes three bytes,
//! and where it goes in the image.
//!
//! Each pixel is the average of the colours of rays through random points of
//! the pixel, encoded by a square root and scaled to eight bits. Scanlines
//! are counted from the bottom of the viewport, while the rows of an image
//! count from its top, so the rows are flipped on the way.
use vstd::prelude::*;
use vstd::arithmetic::div_mod::lemma_fundamental_div_mod;
use vstd::arithmetic::power2::lemma2_to64_rest;
use vstd::arithmetic::power2::lemma_pow2_adds;
use vstd::arithmetic::power2::lemma_pow2_pos;
use vstd::arithmetic::power2::pow2;
use crate::camera::Camera;
use crate::canvas::canvas_into_raw;
use crate::canvas::canvas_new;
use crate::canvas::canvas_put;
use crate::canvas::canvas_rows;
use crate::canvas::has_size;
use crate::canvas::raw_of;
use crate::canvas::width_of;
use crate::ray::Hit;
use crate::sample::RandomSource;
use crate::sample::follows;
use crate::sample::unit_draw;
use crate::sample::unit_interval;
use crate::sample::zero_vector;
use crate::sample::zeros;
use crate::scalar::Scalar;
use crate::shade::is_color;
use crate::shade::rests;
use crate::shade::MAX_DEPTH;
use crate::scalar::lemma_magnitude_is_not_negative;
use crate::scalar::lemma_value_among_powers;
use crate::scalar::{HIDDEN_BIT, SIGN_BIT};
use crate::vector::Vec3;

verus! {

/// The image row of scanline `j` in a frame of `ny` rows.
pub open spec fn flipped(ny: u32, j: u32) -> int {
    ny - 1 - j
}

/// The image row of scanline `j`: scanline 0, the lowest, is the last row.
/// The row lies in the frame, and flipping it gives the scanline back, so
/// that a pass over all scanlines fills every row once.
pub fn image_row(ny: u32, j: u32) -> (y: u32)
    requires
        j < ny,
    ensures
        y == flipped(ny, j),
        y < ny,
        flipped(ny, y) == j,
{
    ny - j - 1
}

/// The eight-bit channel of the scalar `m`: its whole part, kept within 0
/// and 255. What is not a number gives 0.
pub open spec fn byte_of(m: Scalar) -> int {
    if m.nan() || m.scaled_value() < pow2(1074) {
        0
    } else if m.scaled_value() >= 256 * pow2(1074) {
        255
    } else {
        m.scaled_value() / (pow2(1074) as int)
    }
}

/// Two to the power `52 - k`, for the exponents of the numbers from 1 up to
/// 256.
fn whole_part_divisor(k: u64) -> (d: u64)
    requires
        k < 8,
    ensures
        d == pow2((52 - k) as nat),
        d > 0,
{
    proof {
        lemma2_to64_rest();
    }
    if k == 0 {
        0x0010_0000_0000_0000
    } else if k == 1 {
        0x0008_0000_0000_0000
    } else if k == 2 {
        0x0004_0000_0000_0000
    } else if k == 3 {
        0x0002_0000_0000_0000
    } else if k == 4 {
        0x0001_0000_0000_0000
    } else if k == 5 {
        0x0000_8000_0000_0000
    } else if k == 6 {
        0x0000_4000_0000_0000
    } else {
        0x0000_2000_0000_0000
    }
}

/// The eight-bit channel of a scalar: its whole part, kept within 0 and 255.
/// A channel in `[0, 1]` that was scaled by 255.99 is never cut off.
pub fn to_byte(m: Scalar) -> (b: u8)
    ensures
        b == byte_of(m),
{
    let bits: u64 = m.to_bits();
    if m.is_nan() || bits >= SIGN_BIT {
        proof {
            lemma_pow2_pos(1074);
            lemma_magnitude_is_not_negative(m);
        }
        return 0;
    }
    let exponent: u64 = bits / HIDDEN_BIT;
    let fraction: u64 = bits % HIDDEN_BIT;
    proof {
        lemma_value_among_powers(m);
    }
    if exponent < 1023 {
        0
    } else if exponent >= 1031 {
        255
    } else {
        let k: u64 = exponent - 1023;
        let d: u64 = whole_part_divisor(k);
        let n: u64 = HIDDEN_BIT + fraction;
        let q: u64 = n / d;
        proof {
            let p = pow2((1022 + k) as nat) as int;
            lemma_pow2_adds((52 - k) as nat, (1022 + k) as nat);
            lemma_pow2_adds(k as nat, (52 - k) as nat);
            lemma_pow2_adds(1, k as nat);
            lemma2_to64_rest();
            vstd::arithmetic::power2::lemma2_to64();
            lemma_pow2_pos((1022 + k) as nat);
            lemma_pow2_pos(k as nat);
            lemma_fundamental_div_mod(n as int, d as int);
            let r = (n % d) as int;
            assert(n == d * q + r && 0 <= r < d);
            assert(m.scaled_value() == n * p);
            assert(pow2(1074) == d * p);
            assert(d * p > 0) by (nonlinear_arith)
                requires
                    d > 0,
                    p > 0,
            ;
            assert(q * (d * p) <= n * p < (q + 1) * (d * p)) by (nonlinear_arith)
                requires
                    n == d * q + r,
                    0 <= r < d,
                    p > 0,
            ;
            assert(HIDDEN_BIT == pow2(k as nat) * d);
            assert(pow2(k as nat) <= q < 2 * pow2(k as nat)) by (nonlinear_arith)
                requires
                    n == d * q + r,
                    0 <= r < d,
                    HIDDEN_BIT <= n < 2 * HIDDEN_BIT,
                    HIDDEN_BIT == pow2(k as nat) * d,
                    d > 0,
            ;
            assert(2 * pow2(k as nat) == pow2((1 + k) as nat));
            assert(pow2((1 + k) as nat) <= 256) by {
                if k < 7 {
                    vstd::arithmetic::power2::lemma_pow2_strictly_increases((1 + k) as nat, 8);
                }
            }
            assert(q >= 1 && q < 256);
            assert(256 * (d * p) > n * p) by (nonlinear_arith)
                requires
                    q * (d * p) <= n * p < (q + 1) * (d * p),
                    q < 256,
                    d * p > 0,
            ;
            assert(n * p >= d * p) by (nonlinear_arith)
                requires
                    q * (d * p) <= n * p,
                    q >= 1,
                    d * p > 0,
            ;
            let unit = pow2(1074) as int;
            let over = n * p - q * unit;
            assert(0 <= over < unit) by (nonlinear_arith)
                requires
                    over == n * p - q * unit,
                    unit == d * p,
                    q * (d * p) <= n * p < (q + 1) * (d * p),
            ;
            vstd::arithmetic::div_mod::lemma_fundamental_div_mod_converse(
                m.scaled_value(),
                unit,
                q as int,
                over,
            );
        }
        q as u8
    }
}

/// The pattern of 255.99, by which a channel is scaled to eight bits.
pub const CHANNEL_SCALE_BITS: u64 = 0x406f_ffae_147a_e148;

/// The viewport coordinate of a sample in pixel `i` of `n`: `(i + xi) / n`,
/// where `xi` says how far into the pixel the sample lies.
pub open spec fn coordinate(i: u32, n: u32, xi: Scalar) -> Scalar {
    Scalar::of_u32(i).sum(xi).quotient(Scalar::of_u32(n))
}

/// The colour of a pixel as it is encoded: the sum of the sample colours
/// divided by their number, and the square root of each channel of that.
pub open spec fn developed(sum: Vec3, ns: u32) -> Vec3 {
    let mean = sum.divided(Scalar::of_u32(ns));
    Vec3 { x: mean.x.root(), y: mean.y.root(), z: mean.z.root() }
}

/// The three bytes of a colour: the whole part of 255.99 times each channel.
pub open spec fn bytes_of(color: Vec3) -> (u8, u8, u8) {
    let scale = Scalar { bits: CHANNEL_SCALE_BITS };
    (
        byte_of(scale.product(color.x)) as u8,
        byte_of(scale.product(color.y)) as u8,
        byte_of(scale.product(color.z)) as u8,
    )
}

/// Whether `sum` is `prev` with the sample colour `c` added, where the
/// sample was placed by the words `a` and `b`, the samples before it have the
/// flag `prev_found` and this one the flag `c_found`, and the source was
/// `start` before the sample and `aimed` once it was placed.
pub open spec fn adds<R: RandomSource>(
    sum: Vec3,
    prev: Vec3,
    c: Vec3,
    a: u64,
    b: u64,
    prev_found: bool,
    c_found: bool,
    start: R,
    aimed: R,
) -> bool {
    sum == prev.sum(c)
}

/// Whether placing a sample with the words `a` and `b` took a source from
/// `start` to `aimed`: they are its next two words. Of a source whose words
/// are not foretold nothing is asked.
pub open spec fn aims<R: RandomSource>(a: u64, b: u64, start: R, aimed: R) -> bool {
    R::foretold() ==> {
        &&& a == start.word_at(0)
        &&& b == start.word_at(1)
        &&& follows(aimed, start, 2)
    }
}

/// Whether `sum` can be the sum of the colours of `k` samples of the pixel
/// `(i, j)`, where taking them takes the random source from `before` to
/// `after`: each sample is a colour of the ray through a point of the
/// pixel, which two random words place. `found` says that every draw from
/// the unit ball on the way found its point.
pub open spec fn is_sample_sum<T: Hit, R: RandomSource>(
    sum: Vec3,
    found: bool,
    camera: Camera,
    world: T,
    i: u32,
    j: u32,
    nx: u32,
    ny: u32,
    k: nat,
    before: R,
    after: R,
) -> bool
    decreases k,
{
    if k == 0 {
        sum == zeros() && found && rests(before, after)
    } else {
        exists|
            prev: Vec3,
            c: Vec3,
            a: u64,
            b: u64,
            prev_found: bool,
            c_found: bool,
            start: R,
            aimed: R,
        |
            {
                &&& #[trigger] adds(sum, prev, c, a, b, prev_found, c_found, start, aimed)
                &&& is_sample_sum(
                    prev,
                    prev_found,
                    camera,
                    world,
                    i,
                    j,
                    nx,
                    ny,
                    (k - 1) as nat,
                    before,
                    start,
                )
                &&& aims(a, b, start, aimed)
                &&& is_color(
                    c,
                    c_found,
                    camera.ray(coordinate(i, nx, unit_draw(a)), coordinate(j, ny, unit_draw(b))),
                    world,
                    MAX_DEPTH as nat,
                    aimed,
                    after,
                )
                &&& found == (prev_found && c_found)
            }
    }
}

/// Whether `px` can be the pixel `(i, j)` of a frame that is sampled `ns`
/// times for each pixel, where sampling it takes the random source from
/// `before` to `after`. `found` says that every draw from the unit ball on
/// the way found its point.
pub open spec fn is_pixel<T: Hit, R: RandomSource>(
    px: (u8, u8, u8),
    found: bool,
    camera: Camera,
    world: T,
    i: u32,
    j: u32,
    nx: u32,
    ny: u32,
    ns: u32,
    before: R,
    after: R,
) -> bool {
    exists|sum: Vec3| #[trigger]
        is_sample_sum(sum, found, camera, world, i, j, nx, ny, ns as nat, before, after) && px
            == bytes_of(developed(sum, ns))
}

/// The viewport coordinate of a sample in pixel `i` of `n`.
pub fn sample_coordinate(i: u32, n: u32, xi: Scalar) -> (u: Scalar)
    ensures
        u == coordinate(i, n, xi),
{
    (Scalar::from_u32(i) + xi) / Scalar::from_u32(n)
}

/// The three bytes of a pixel, from the sum of its sample colours.
pub fn develop(sum: Vec3, ns: u32) -> (px: (u8, u8, u8))
    ensures
        px == bytes_of(developed(sum, ns)),
{
    let mean = sum / Scalar::from_u32(ns);
    let scale = Scalar::from_bits(CHANNEL_SCALE_BITS);
    (
        to_byte(scale * mean.x().sqrt()),
        to_byte(scale * mean.y().sqrt()),
        to_byte(scale * mean.z().sqrt()),
    )
}

/// The pixel `(i, j)` of a frame of `nx` by `ny` pixels, and whether every
/// draw from the unit ball found its point: `ns` samples are taken, each
/// through a random point of the pixel. With no sample the pixel is that of
/// the sum of nothing, and no word is taken from the source.
pub fn pixel<T: Hit, R: RandomSource>(
    camera: &Camera,
    world: &T,
    i: u32,
    j: u32,
    nx: u32,
    ny: u32,
    ns: u32,
    rng: &mut R,
) -> (res: ((u8, u8, u8), bool))
    ensures
        ns == 0 ==> res.0 == bytes_of(developed(zeros(), 0)) && res.1 && rests(
            *old(rng),
            *final(rng),
        ),
        T::keeps_protocol() ==> is_pixel(
            res.0,
            res.1,
            *camera,
            *world,
            i,
            j,
            nx,
            ny,
            ns,
            *old(rng),
            *final(rng),
        ),
{
    let ghost before = *rng;
    let mut color = zero_vector();
    let mut found = true;
    let mut k: u32 = 0;
    while k < ns
        invariant
            k <= ns,
            before == *old(rng),
            k == 0 ==> color == zeros() && found && rests(before, *rng),
            T::keeps_protocol() ==> is_sample_sum(
                color,
                found,
                *camera,
                *world,
                i,
                j,
                nx,
                ny,
                k as nat,
                before,
                *rng,
            ),
        decreases ns - k,
    {
        let ghost start = *rng;
        let a = rng.next_word();
        let ghost after_first = *rng;
        let b = rng.next_word();
        let ghost aimed = *rng;
        let u = sample_coordinate(i, nx, unit_interval(a));
        let v = sample_coordinate(j, ny, unit_interval(b));
        let r = camera.get_ray(u, v);
        let (c, c_found) = r.color(world, MAX_DEPTH, rng);
        let ghost prev = color;
        let ghost prev_found = found;
        color = color + c;
        found = found && c_found;
        k = k + 1;
        proof {
            if R::foretold() {
                assert(b == start.word_at(1)) by {
                    assert(after_first.word_at(0) == start.word_at(1));
                }
                assert forall|n: int| 0 <= n implies #[trigger] aimed.word_at(n) == start.word_at(
                    n + 2,
                ) by {
                    assert(aimed.word_at(n) == after_first.word_at(n + 1));
                    assert(after_first.word_at(n + 1) == start.word_at(n + 2));
                }
            }
            assert(aims(a, b, start, aimed));
            if T::keeps_protocol() {
                assert(adds(color, prev, c, a, b, prev_found, c_found, start, aimed));
                assert(is_sample_sum(
                    color,
                    found,
                    *camera,
                    *world,
                    i,
                    j,
                    nx,
                    ny,
                    k as nat,
                    before,
                    *rng,
                ));
            }
        }
    }
    (develop(color, ns), found)
}

/// The pixel at column `x` of row `y` in the bytes of an image `nx` wide.
pub open spec fn pixel_in(raw: Seq<u8>, nx: u32, x: int, y: int) -> (u8, u8, u8) {
    let at = 3 * (y * nx + x);
    (raw[at], raw[at + 1], raw[at + 2])
}

/// The pixel number `n` in the bytes of an image `nx` wide, counting along
/// the rows from the top left.
pub open spec fn pixel_number(raw: Seq<u8>, nx: u32, n: int) -> (u8, u8, u8) {
    pixel_in(raw, nx, n % (nx as int), n / (nx as int))
}

/// Whether a frame has the flag `found`, where the pixels before the last
/// have the flag `prev_found` and the last the flag `px_found`, and the
/// source was `mid` before the last pixel.
pub open spec fn ties<R: RandomSource>(
    found: bool,
    prev_found: bool,
    px_found: bool,
    mid: R,
) -> bool {
    found == (prev_found && px_found)
}

/// Whether the first `n` pixels in the bytes `raw`, counting along the rows
/// from the top left, are pixels of the frame, one sampled after the other,
/// where sampling them takes the random source from `before` to `after`.
/// The pixel at column `x` of row `y` is that of scanline `ny - 1 - y`.
/// `found` says that every draw from the unit ball on the way found its
/// point.
pub open spec fn is_frame<T: Hit, R: RandomSource>(
    raw: Seq<u8>,
    found: bool,
    camera: Camera,
    world: T,
    nx: u32,
    ny: u32,
    ns: u32,
    n: nat,
    before: R,
    after: R,
) -> bool
    decreases n,
{
    if n == 0 {
        found && rests(before, after)
    } else {
        exists|prev_found: bool, px_found: bool, mid: R|
            {
                &&& #[trigger] ties(found, prev_found, px_found, mid)
                &&& is_frame(
                    raw,
                    prev_found,
                    camera,
                    world,
                    nx,
                    ny,
                    ns,
                    (n - 1) as nat,
                    before,
                    mid,
                )
                &&& is_pixel(
                    pixel_number(raw, nx, n - 1),
                    px_found,
                    camera,
                    world,
                    ((n - 1) % (nx as int)) as u32,
                    flipped(ny, ((n - 1) / (nx as int)) as u32) as u32,
                    nx,
                    ny,
                    ns,
                    mid,
                    after,
                )
            }
    }
}

/// Whether each pixel of the rows above row `y_done`, and of that row left
/// of column `x_done`, is the pixel of the sum of nothing.
pub open spec fn is_blank_upto(
    rows: Seq<Seq<(u8, u8, u8)>>,
    nx: u32,
    ny: u32,
    y_done: int,
    x_done: int,
) -> bool {
    forall|x: int, y: int|
        0 <= x < nx && 0 <= y < ny && (y < y_done || (y == y_done && x < x_done)) ==> (
        #[trigger] rows[y][x]) == bytes_of(developed(zeros(), 0))
}

/// In the bytes of an image, the pixel at column `x` of row `y` is the pixel
/// of the rows there.
proof fn lemma_pixel_in_raw(rows: Seq<Seq<(u8, u8, u8)>>, nx: u32, ny: u32, x: int, y: int)
    requires
        has_size(rows, nx as int, ny as int),
        0 <= x < nx,
        0 <= y < ny,
    ensures
        0 <= 3 * (y * nx + x),
        3 * (y * nx + x) + 2 < 3 * nx * ny,
        pixel_in(raw_of(rows), nx, x, y) == rows[y][x],
{
    let at = 3 * (y * nx + x);
    let cell = y * nx + x;
    assert(width_of(rows) == nx);
    assert(0 <= cell < nx * ny) by (nonlinear_arith)
        requires
            cell == y * nx + x,
            0 <= x < nx,
            0 <= y < ny,
    ;
    assert(3 * nx * ny == 3 * (nx * ny)) by (nonlinear_arith);
    vstd::arithmetic::div_mod::lemma_fundamental_div_mod_converse(cell, nx as int, y, x);
    assert(at / 3 == cell && (at + 1) / 3 == cell && (at + 2) / 3 == cell);
    assert(at % 3 == 0 && (at + 1) % 3 == 1 && (at + 2) % 3 == 2);
}

/// The pixel number `n` of the rows of an image is at column `n % nx` of row
/// `n / nx`, which lies in the image.
proof fn lemma_pixel_number(rows: Seq<Seq<(u8, u8, u8)>>, nx: u32, ny: u32, n: int)
    requires
        has_size(rows, nx as int, ny as int),
        0 <= n < nx * ny,
    ensures
        0 <= n % (nx as int) < nx,
        0 <= n / (nx as int) < ny,
        pixel_number(raw_of(rows), nx, n) == rows[n / (nx as int)][n % (nx as int)],
{
    let w = nx as int;
    assert(w > 0) by (nonlinear_arith)
        requires
            0 <= n < w * ny,
            ny >= 0,
    ;
    lemma_fundamental_div_mod(n, w);
    assert(0 <= n / w < ny) by (nonlinear_arith)
        requires
            n == w * (n / w) + n % w,
            0 <= n % w < w,
            0 <= n < w * ny,
    ;
    lemma_pixel_in_raw(rows, nx, ny, n % w, n / w);
}

/// A frame stays a frame where the bytes of its pixels stay as they are.
proof fn lemma_frame_keeps<T: Hit, R: RandomSource>(
    raw: Seq<u8>,
    other: Seq<u8>,
    found: bool,
    camera: Camera,
    world: T,
    nx: u32,
    ny: u32,
    ns: u32,
    n: nat,
    before: R,
    after: R,
)
    requires
        is_frame(raw, found, camera, world, nx, ny, ns, n, before, after),
        forall|k: int| 0 <= k < n ==> #[trigger] pixel_number(raw, nx, k) == pixel_number(other, nx, k),
    ensures
        is_frame(other, found, camera, world, nx, ny, ns, n, before, after),
    decreases n,
{
    if n > 0 {
        let (prev_found, px_found, mid) = choose|prev_found: bool, px_found: bool, mid: R|
            {
                &&& #[trigger] ties(found, prev_found, px_found, mid)
                &&& is_frame(
                    raw,
                    prev_found,
                    camera,
                    world,
                    nx,
                    ny,
                    ns,
                    (n - 1) as nat,
                    before,
                    mid,
                )
                &&& is_pixel(
                    pixel_number(raw, nx, n - 1),
                    px_found,
                    camera,
                    world,
                    ((n - 1) % (nx as int)) as u32,
                    flipped(ny, ((n - 1) / (nx as int)) as u32) as u32,
                    nx,
                    ny,
                    ns,
                    mid,
                    after,
                )
            };
        lemma_frame_keeps(
            raw,
            other,
            prev_found,
            camera,
            world,
            nx,
            ny,
            ns,
            (n - 1) as nat,
            before,
            mid,
        );
        assert(pixel_number(raw, nx, n - 1) == pixel_number(other, nx, n - 1));
        assert(ties(found, prev_found, px_found, mid));
    }
}

/// Writing the next pixel of a frame makes a frame of one pixel more.
proof fn lemma_next_pixel<T: Hit, R: RandomSource>(
    rows: Seq<Seq<(u8, u8, u8)>>,
    px: (u8, u8, u8),
    prev_found: bool,
    px_found: bool,
    camera: Camera,
    world: T,
    nx: u32,
    ny: u32,
    ns: u32,
    i: u32,
    y: u32,
    before: R,
    mid: R,
    after: R,
)
    requires
        has_size(rows, nx as int, ny as int),
        i < nx,
        y < ny,
        is_frame(
            raw_of(rows),
            prev_found,
            camera,
            world,
            nx,
            ny,
            ns,
            (y * nx + i) as nat,
            before,
            mid,
        ),
        is_pixel(px, px_found, camera, world, i, flipped(ny, y) as u32, nx, ny, ns, mid, after),
    ensures
        is_frame(
            raw_of(rows.update(y as int, rows[y as int].update(i as int, px))),
            prev_found && px_found,
            camera,
            world,
            nx,
            ny,
            ns,
            (y * nx + i + 1) as nat,
            before,
            after,
        ),
{
    let w = nx as int;
    let n = y * nx + i;
    let next = rows.update(y as int, rows[y as int].update(i as int, px));
    assert(has_size(next, nx as int, ny as int));
    assert(0 <= n < nx * ny) by (nonlinear_arith)
        requires
            n == y * nx + i,
            0 <= i < nx,
            0 <= y < ny,
    ;
    vstd::arithmetic::div_mod::lemma_fundamental_div_mod_converse(n, w, y as int, i as int);
    lemma_pixel_number(next, nx, ny, n);
    assert(next[y as int][i as int] == px);
    assert forall|k: int| 0 <= k < n implies #[trigger] pixel_number(raw_of(rows), nx, k)
        == pixel_number(raw_of(next), nx, k) by {
        lemma_pixel_number(rows, nx, ny, k);
        lemma_pixel_number(next, nx, ny, k);
        lemma_fundamental_div_mod(k, w);
        let (row, column) = (k / w, k % w);
        if row == y {
            assert(column != i) by (nonlinear_arith)
                requires
                    k == w * row + column,
                    row == y,
                    n == y * w + i,
                    k < n,
            ;
            assert(next[row] == rows[row].update(i as int, px));
        } else {
            assert(next[row] == rows[row]);
        }
        assert(next[row][column] == rows[row][column]);
    }
    lemma_frame_keeps(
        raw_of(rows),
        raw_of(next),
        prev_found,
        camera,
        world,
        nx,
        ny,
        ns,
        n as nat,
        before,
        mid,
    );
    assert(ties(prev_found && px_found, prev_found, px_found, mid));
}

/// The bytes of a frame of `nx` by `ny` pixels, three for each pixel, the
/// rows from the top, and whether every draw from the unit ball found its
/// point. Every pixel is sampled `ns` times and written once; the pixels are
/// sampled row by row from the top of the image, which is the highest
/// scanline, and each row from the left. With no sample every pixel is that
/// of the sum of nothing; with no sample or no pixel, no word is taken from
/// the source.
pub fn render<T: Hit, R: RandomSource>(
    camera: &Camera,
    world: &T,
    nx: u32,
    ny: u32,
    ns: u32,
    rng: &mut R,
) -> (res: (Vec<u8>, bool))
    requires
        3 * nx * ny <= isize::MAX,
    ensures
        res.0@.len() == 3 * nx * ny,
        ns == 0 || nx == 0 || ny == 0 ==> res.1 && rests(*old(rng), *final(rng)),
        ns == 0 ==> forall|x: int, y: int|
            0 <= x < nx && 0 <= y < ny ==> #[trigger] pixel_in(res.0@, nx, x, y) == bytes_of(
                developed(zeros(), 0),
            ),
        T::keeps_protocol() ==> is_frame(
            res.0@,
            res.1,
            *camera,
            *world,
            nx,
            ny,
            ns,
            (nx * ny) as nat,
            *old(rng),
            *final(rng),
        ),
{
    let ghost before = *rng;
    let mut canvas = canvas_new(nx, ny);
    let mut found = true;
    let mut j: u32 = ny;
    proof {
        assert(0 * nx == 0);
    }
    while j > 0
        invariant
            j <= ny,
            before == *old(rng),
            has_size(canvas_rows(canvas), nx as int, ny as int),
            j == ny || nx == 0 ==> found && rests(before, *rng),
            ns == 0 ==> found && rests(before, *rng) && is_blank_upto(
                canvas_rows(canvas),
                nx,
                ny,
                ny - j,
                0,
            ),
            T::keeps_protocol() ==> is_frame(
                raw_of(canvas_rows(canvas)),
                found,
                *camera,
                *world,
                nx,
                ny,
                ns,
                ((ny - j) * nx) as nat,
                before,
                *rng,
            ),
        decreases j,
    {
        j = j - 1;
        let y: u32 = image_row(ny, j);
        let mut i: u32 = 0;
        while i < nx
            invariant
                i <= nx,
                j < ny,
                y == ny - 1 - j,
                before == *old(rng),
                has_size(canvas_rows(canvas), nx as int, ny as int),
                nx == 0 ==> found && rests(before, *rng),
                ns == 0 ==> found && rests(before, *rng) && is_blank_upto(
                    canvas_rows(canvas),
                    nx,
                    ny,
                    y as int,
                    i as int,
                ),
                T::keeps_protocol() ==> is_frame(
                    raw_of(canvas_rows(canvas)),
                    found,
                    *camera,
                    *world,
                    nx,
                    ny,
                    ns,
                    (y * nx + i) as nat,
                    before,
                    *rng,
                ),
            decreases nx - i,
        {
            let ghost mid = *rng;
            let ghost prev_found = found;
            let (px, px_found) = pixel(camera, world, i, j, nx, ny, ns, rng);
            let ghost rows = canvas_rows(canvas);
            canvas_put(&mut canvas, i, y, px);
            found = found && px_found;
            proof {
                let after = canvas_rows(canvas);
                if ns == 0 {
                    assert forall|x: int, yy: int|
                        0 <= x < nx && 0 <= yy < ny && (yy < y || (yy == y && x < i + 1))
                    implies (#[trigger] after[yy][x]) == bytes_of(developed(zeros(), 0)) by {
                        if !(yy == y && x == i) {
                            assert(after[yy][x] == rows[yy][x]);
                        }
                    }
                }
                if T::keeps_protocol() {
                    lemma_next_pixel(
                        rows,
                        px,
                        prev_found,
                        px_found,
                        *camera,
                        *world,
                        nx,
                        ny,
                        ns,
                        i,
                        y,
                        before,
                        mid,
                        *rng,
                    );
                }
            }
            i = i + 1;
        }
        proof {
            assert(y * nx + nx == (ny - j) * nx) by (nonlinear_arith)
                requires
                    y == ny - 1 - j,
            ;
        }
    }
    let ghost rows = canvas_rows(canvas);
    let raw = canvas_into_raw(canvas);
    proof {
        assert(raw@.len() == 3 * nx * ny) by {
            if ny == 0 {
                assert(3 * nx * 0 == 0);
                assert(3 * width_of(rows) * 0 == 0);
            } else {
                assert(width_of(rows) == nx);
            }
        }
        if ns == 0 {
            assert forall|x: int, y: int| 0 <= x < nx && 0 <= y < ny implies #[trigger] pixel_in(
                raw@,
                nx,
                x,
                y,
            ) == bytes_of(developed(zeros(), 0)) by {
                lemma_pixel_in_raw(rows, nx, ny, x, y);
            }
        }
        assert(ny * nx == nx * ny) by (nonlinear_arith);
    }
    (raw, found)
}

} // verus!
