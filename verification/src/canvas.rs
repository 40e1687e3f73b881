//! The image buffer that a frame is rendered into.
//!
//! The buffer is that of the `image` crate. Its code is not verified here:
//! what this module says of it is taken from its source and believed.
use vstd::prelude::*;

verus! {

/// An image of pixels with three channels of eight bits, held in an
/// `image::RgbImage`.
#[verifier::external_body]
pub struct Canvas {
    buffer: image::RgbImage,
}

/// The pixels of a canvas, row by row from the top, each row from the left.
pub uninterp spec fn canvas_rows(c: Canvas) -> Seq<Seq<(u8, u8, u8)>>;

/// Whether the rows make an image `width` wide and `height` high.
pub open spec fn has_size(rows: Seq<Seq<(u8, u8, u8)>>, width: int, height: int) -> bool {
    &&& rows.len() == height
    &&& forall|y: int| 0 <= y < height ==> (#[trigger] rows[y]).len() == width
}

/// The width of an image: the length of its rows.
pub open spec fn width_of(rows: Seq<Seq<(u8, u8, u8)>>) -> int {
    if rows.len() > 0 {
        rows[0].len() as int
    } else {
        0
    }
}

/// The bytes of an image as the buffer holds them: the rows one after the
/// other, and of each pixel the red, the green and the blue channel.
pub open spec fn raw_of(rows: Seq<Seq<(u8, u8, u8)>>) -> Seq<u8> {
    let width = width_of(rows);
    Seq::new(
        (3 * width * rows.len()) as nat,
        |k: int|
            {
                let px = rows[(k / 3) / width][(k / 3) % width];
                if k % 3 == 0 {
                    px.0
                } else if k % 3 == 1 {
                    px.1
                } else {
                    px.2
                }
            },
    )
}

/// `ImageBuffer::new`: an image of the given size in which every channel of
/// every pixel is zero. The call panics where the bytes of the image are too
/// many for a vector, which the precondition leaves out.
#[verifier::external_body]
pub(crate) fn canvas_new(width: u32, height: u32) -> (c: Canvas)
    requires
        3 * width * height <= isize::MAX,
    ensures
        has_size(canvas_rows(c), width as int, height as int),
        forall|x: int, y: int|
            0 <= x < width && 0 <= y < height ==> (#[trigger] canvas_rows(c)[y][x]) == (
                0u8,
                0u8,
                0u8,
            ),
{
    Canvas { buffer: image::RgbImage::new(width, height) }
}

/// `ImageBuffer::put_pixel`: the pixel at column `x` of row `y` becomes
/// `px`, and no other pixel changes. The call panics outside the image,
/// which the precondition leaves out.
#[verifier::external_body]
pub(crate) fn canvas_put(c: &mut Canvas, x: u32, y: u32, px: (u8, u8, u8))
    requires
        y < canvas_rows(*old(c)).len(),
        x < canvas_rows(*old(c))[y as int].len(),
    ensures
        canvas_rows(*final(c)) == canvas_rows(*old(c)).update(
            y as int,
            canvas_rows(*old(c))[y as int].update(x as int, px),
        ),
{
    c.buffer.put_pixel(x, y, image::Rgb([px.0, px.1, px.2]))
}

/// `ImageBuffer::into_raw`: the bytes of the image, rows one after the
/// other, three bytes for each pixel.
#[verifier::external_body]
pub(crate) fn canvas_into_raw(c: Canvas) -> (raw: Vec<u8>)
    ensures
        raw@ == raw_of(canvas_rows(c)),
{
    c.buffer.into_raw()
}

} // verus!
