//! The RGBA8 pixel buffer: row-major, four bytes per pixel, and the
//! colour-deviation measure that the sampler compares pixels by.
use vstd::prelude::*;

verus! {

/// A pixel as four 8-bit channels: red, green, blue, alpha.
pub type ColorInt = [u8; 4];

/// Index of the first byte of pixel `(x, y)` in a row-major RGBA8 buffer whose
/// rows are `width` pixels long.
pub open spec fn px_start(width: int, x: int, y: int) -> int {
    (x + y * width) * 4
}

/// `(x, y)` lies in an image of `width` by `height` pixels.
pub open spec fn in_image(width: int, height: int, x: int, y: int) -> bool {
    0 <= x < width && 0 <= y < height
}

/// `(x, y)` names a whole pixel of `data`: its column is within the row and
/// its four bytes are within the buffer.
pub open spec fn in_buffer(data: Seq<u8>, width: int, x: int, y: int) -> bool {
    0 <= x < width && 0 <= y && px_start(width, x, y) + 4 <= data.len()
}

/// The four bytes of pixel `(x, y)`.
pub open spec fn pixel(data: Seq<u8>, width: int, x: int, y: int) -> Seq<u8> {
    data.subrange(px_start(width, x, y), px_start(width, x, y) + 4)
}

/// The bytes that a write of `c` leaves in a pixel: its red, green and blue,
/// with alpha forced to fully opaque.
pub open spec fn opaque(c: Seq<u8>) -> Seq<u8> {
    seq![c[0], c[1], c[2], 255u8]
}

/// Distinct pixels of one row-major buffer occupy disjoint bytes.
proof fn lemma_pixels_disjoint(width: int, x1: int, y1: int, x2: int, y2: int)
    requires
        0 <= x1 < width,
        0 <= x2 < width,
        0 <= y1,
        0 <= y2,
        x1 != x2 || y1 != y2,
    ensures
        px_start(width, x1, y1) + 4 <= px_start(width, x2, y2) || px_start(width, x2, y2) + 4
            <= px_start(width, x1, y1),
{
    if y1 < y2 {
        assert((y1 + 1) * width <= y2 * width) by (nonlinear_arith)
            requires
                y1 + 1 <= y2,
                width >= 0,
        ;
        assert(y1 * width + width == (y1 + 1) * width) by (nonlinear_arith);
    } else if y2 < y1 {
        assert((y2 + 1) * width <= y1 * width) by (nonlinear_arith)
            requires
                y2 + 1 <= y1,
                width >= 0,
        ;
        assert(y2 * width + width == (y2 + 1) * width) by (nonlinear_arith);
    }
}

/// Every pixel of a `width` by `height` image lies within a buffer of
/// `width * height * 4` bytes.
pub proof fn lemma_in_image_in_buffer(data: Seq<u8>, width: int, height: int, x: int, y: int)
    requires
        in_image(width, height, x, y),
        data.len() == width * height * 4,
    ensures
        in_buffer(data, width, x, y),
{
    assert((y + 1) * width <= height * width) by (nonlinear_arith)
        requires
            y + 1 <= height,
            width >= 0,
    ;
    assert(y * width + width == (y + 1) * width) by (nonlinear_arith);
    assert(width * height == height * width) by (nonlinear_arith);
}

/// Writes `color` into pixel `(x, y)`, with its alpha forced to fully opaque.
pub fn set_px(data: &mut Vec<u8>, width: usize, x: usize, y: usize, color: ColorInt)
    requires
        in_buffer(old(data)@, width as int, x as int, y as int),
    ensures
        final(data)@.len() == old(data)@.len(),
        pixel(final(data)@, width as int, x as int, y as int) == opaque(color@),
        forall|x2: int, y2: int|
            in_buffer(old(data)@, width as int, x2, y2) && (x2 != x || y2 != y) ==> #[trigger] pixel(
                final(data)@,
                width as int,
                x2,
                y2,
            ) == pixel(old(data)@, width as int, x2, y2),
{
    let len = data.len();
    assert(y * width <= px_start(width as int, x as int, y as int) <= len);
    let index = (x + y * width) * 4;
    data[index] = color[0];
    data[index + 1] = color[1];
    data[index + 2] = color[2];
    data[index + 3] = 255;
    assert(pixel(data@, width as int, x as int, y as int) =~= opaque(color@));
    assert forall|x2: int, y2: int|
        in_buffer(old(data)@, width as int, x2, y2) && (x2 != x || y2 != y) implies #[trigger] pixel(
            data@,
            width as int,
            x2,
            y2,
        ) == pixel(old(data)@, width as int, x2, y2) by {
        lemma_pixels_disjoint(width as int, x as int, y as int, x2, y2);
        assert(pixel(data@, width as int, x2, y2) =~= pixel(old(data)@, width as int, x2, y2));
    }
}

/// Reads pixel `(x, y)`.
pub fn get_px(data: &Vec<u8>, width: usize, x: usize, y: usize) -> (r: ColorInt)
    requires
        in_buffer(data@, width as int, x as int, y as int),
    ensures
        r@ == pixel(data@, width as int, x as int, y as int),
{
    let len = data.len();
    assert(y * width <= px_start(width as int, x as int, y as int) <= len);
    let index = (x + y * width) * 4;
    let r = [data[index], data[index + 1], data[index + 2], data[index + 3]];
    assert(r@ =~= pixel(data@, width as int, x as int, y as int));
    r
}

/// Reads pixel `(x, y)` where it is part of the buffer: `None` where the column
/// lies past the end of a row or the pixel past the end of the buffer.
pub fn get_px_checked(data: &Vec<u8>, width: usize, x: usize, y: usize) -> (r: Option<ColorInt>)
    ensures
        r is Some <==> in_buffer(data@, width as int, x as int, y as int),
        r is Some ==> r->0@ == pixel(data@, width as int, x as int, y as int),
{
    if x >= width {
        return None;
    }
    let pixels = data.len() / 4;
    if y > pixels / width {
        proof {
            let q = pixels as int / width as int;
            assert(pixels as int == q * width + pixels as int % width as int) by (nonlinear_arith)
                requires width > 0, q == pixels as int / width as int;
            assert((q + 1) * width <= y * width) by (nonlinear_arith)
                requires q + 1 <= y, width >= 0;
            assert(q * width + width == (q + 1) * width) by (nonlinear_arith);
        }
        return None;
    }
    proof {
        let q = pixels as int / width as int;
        assert(q * width <= pixels) by (nonlinear_arith)
            requires width > 0, q == pixels as int / width as int;
        assert(y * width <= q * width) by (nonlinear_arith)
            requires y <= q, width >= 0;
    }
    let row_start = y * width;
    if x >= pixels - row_start {
        return None;
    }
    Some(get_px(data, width, x, y))
}

/// Squared distance between the red, green and blue channels of two pixels,
/// in channel units: the deviation measure of the fill passes.
pub open spec fn sq_difference(a: Seq<u8>, b: Seq<u8>) -> int {
    (a[0] - b[0]) * (a[0] - b[0]) + (a[1] - b[1]) * (a[1] - b[1]) + (a[2] - b[2]) * (a[2] - b[2])
}

/// Deviation of `center` from a neighbour that may be absent; an absent one
/// contributes nothing.
pub open spec fn deviation(center: Seq<u8>, neighbour: Option<ColorInt>) -> int {
    match neighbour {
        Some(n) => sq_difference(center, n@),
        None => 0,
    }
}

/// The squared RGB distance between two pixels.
pub fn difference_sq(a: &ColorInt, b: &ColorInt) -> (r: u32)
    ensures
        r == sq_difference(a@, b@),
{
    let dr: i32 = a[0] as i32 - b[0] as i32;
    let dg: i32 = a[1] as i32 - b[1] as i32;
    let db: i32 = a[2] as i32 - b[2] as i32;
    assert(dr * dr <= 65025 && dg * dg <= 65025 && db * db <= 65025 && dr * dr >= 0 && dg * dg >= 0
        && db * db >= 0) by (nonlinear_arith)
        requires
            -255 <= dr <= 255,
            -255 <= dg <= 255,
            -255 <= db <= 255,
    ;
    (dr * dr + dg * dg + db * db) as u32
}

/// The largest squared RGB distance between `center` and any of the
/// neighbours that are present; zero when none is.
pub fn find_max_deviation(
    center: ColorInt,
    top: Option<ColorInt>,
    right: Option<ColorInt>,
    bottom: Option<ColorInt>,
    left: Option<ColorInt>,
) -> (r: u32)
    ensures
        r == vstd::math::max(
            vstd::math::max(deviation(center@, top), deviation(center@, right)),
            vstd::math::max(deviation(center@, bottom), deviation(center@, left)),
        ),
{
    let mut div: u32 = 0;
    if let Some(n) = top {
        let d = difference_sq(&center, &n);
        if d > div {
            div = d;
        }
    }
    if let Some(n) = right {
        let d = difference_sq(&center, &n);
        if d > div {
            div = d;
        }
    }
    if let Some(n) = bottom {
        let d = difference_sq(&center, &n);
        if d > div {
            div = d;
        }
    }
    if let Some(n) = left {
        let d = difference_sq(&center, &n);
        if d > div {
            div = d;
        }
    }
    div
}

} // verus!
