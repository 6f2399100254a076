//! Measuring darkness: of one pixel clipped against a rectangle, of a line of
//! pixels across a rectangle, and of a whole raster.
//!
//! Clipped darkness is counted in units of which a fully black pixel that lies
//! wholly inside the rectangle holds `FULL_DARKNESS`: the darkness of the pixel
//! in 255ths, times the subpixels covered along each axis.

use vstd::prelude::*;
use crate::geometry::{Axis, Rectangle, SUBPIXELS};
use crate::pixel::{darkness, Pixel, MAX_CHANNEL_VALUE};
use crate::raster::{Canvas, Raster};

verus! {

/// Clipped darkness of a fully black pixel that lies wholly inside the rectangle.
pub const FULL_DARKNESS: u128 = 1_095_216_660_480;

/// Largest clipped darkness of one line of pixels.
pub const MAX_LINE_DARKNESS: u128 = 4_703_919_738_795_935_662_080;

/// Subpixels of pixel `i` that lie inside the stretch from `lo` to `hi`
/// along one axis: the length of the overlap of the pixel and the stretch, and
/// nothing where they do not meet.
pub open spec fn coverage(lo: int, hi: int, i: int) -> int {
    let near = i * SUBPIXELS;
    let far = near + SUBPIXELS;
    let from = if near >= lo { near } else { lo };
    let to = if far <= hi { far } else { hi };
    if to > from { to - from } else { 0 }
}

/// Index of the pixel that holds coordinate `c`: the coordinate rounded down.
pub open spec fn pixel_floor(c: int) -> int {
    c / (SUBPIXELS as int)
}

/// Index of the first pixel that begins at or after coordinate `c`: the
/// coordinate rounded up.
pub open spec fn pixel_ceil(c: int) -> int {
    (c + SUBPIXELS - 1) / (SUBPIXELS as int)
}

/// Clipped darkness of the pixel at `(x, y)`: its darkness times its coverage
/// by `rect` along each axis.
pub open spec fn clipped_darkness(canvas: Canvas, rect: Rectangle, x: int, y: int) -> int {
    canvas.darkness(x, y) * coverage(rect.left as int, rect.right as int, x) * coverage(
        rect.top as int,
        rect.bottom as int,
        y,
    )
}

/// Clipped darkness of the pixel at position `j` on line `i`: line `i` is a
/// column for a vertical separator and a row for a horizontal one.
pub open spec fn darkness_on_line(canvas: Canvas, rect: Rectangle, axis: Axis, i: int, j: int) -> int {
    match axis {
        Axis::Vertical => clipped_darkness(canvas, rect, i, j),
        Axis::Horizontal => clipped_darkness(canvas, rect, j, i),
    }
}

/// Clipped darkness of the pixels at positions `from` up to, not including,
/// `to` on line `i`.
pub open spec fn line_sum(canvas: Canvas, rect: Rectangle, axis: Axis, i: int, from: int, to: int) -> int
    decreases to - from,
{
    if to <= from {
        0
    } else {
        line_sum(canvas, rect, axis, i, from, to - 1) + darkness_on_line(canvas, rect, axis, i, to - 1)
    }
}

/// Clipped darkness of line `i` over the full extent of `rect` along the line.
pub open spec fn line_darkness(canvas: Canvas, rect: Rectangle, axis: Axis, i: int) -> int {
    line_sum(
        canvas,
        rect,
        axis,
        i,
        pixel_floor(rect.cross_start(axis) as int),
        pixel_ceil(rect.cross_end(axis) as int),
    )
}

/// Clipped darkness of the lines `from` up to, not including, `to`.
pub open spec fn band_sum(canvas: Canvas, rect: Rectangle, axis: Axis, from: int, to: int) -> int
    decreases to - from,
{
    if to <= from {
        0
    } else {
        band_sum(canvas, rect, axis, from, to - 1) + line_darkness(canvas, rect, axis, to - 1)
    }
}

/// Clipped darkness accumulated by a scan of `rect` that has just taken in line `i`.
pub open spec fn running_darkness(canvas: Canvas, rect: Rectangle, axis: Axis, i: int) -> int {
    band_sum(canvas, rect, axis, pixel_floor(rect.start(axis) as int), i + 1)
}

/// Darkness, in 255ths, of the first `to` pixels of row `y`.
pub open spec fn row_sum(canvas: Canvas, y: int, to: int) -> int
    decreases to,
{
    if to <= 0 {
        0
    } else {
        row_sum(canvas, y, to - 1) + canvas.darkness(to - 1, y)
    }
}

/// Darkness, in 255ths, of the first `to` rows.
pub open spec fn rows_sum(canvas: Canvas, to: int) -> int
    decreases to,
{
    if to <= 0 {
        0
    } else {
        rows_sum(canvas, to - 1) + row_sum(canvas, to - 1, canvas.width as int)
    }
}

/// Darkness of the whole canvas, in 255ths of a pixel: the sum over all pixels.
pub open spec fn total_darkness(canvas: Canvas) -> int {
    rows_sum(canvas, canvas.height as int)
}

/// The luma of a pixel lies between 0 and 255, so does its darkness.
pub proof fn lemma_darkness_range(p: Pixel)
    ensures
        0 <= p.luma() <= MAX_CHANNEL_VALUE,
        0 <= p.darkness() <= MAX_CHANNEL_VALUE,
{
}

/// Coverage lies between nothing and a whole pixel.
pub proof fn lemma_coverage_range(lo: int, hi: int, i: int)
    ensures
        0 <= coverage(lo, hi, i) <= SUBPIXELS,
{
}

/// A pixel that lies wholly inside a stretch is covered in full, and a pixel
/// that lies wholly outside it is not covered at all.
pub proof fn lemma_coverage_at_the_ends(lo: int, hi: int, i: int)
    ensures
        lo <= i * SUBPIXELS && (i + 1) * SUBPIXELS <= hi ==> coverage(lo, hi, i) == SUBPIXELS,
        (i + 1) * SUBPIXELS <= lo || hi <= i * SUBPIXELS ==> coverage(lo, hi, i) == 0,
        hi <= lo ==> coverage(lo, hi, i) == 0,
{
}

/// A cut between the bounds of a rectangle shares out the clipped darkness
/// of every pixel between the two halves.
pub proof fn lemma_cut_conserves_darkness(canvas: Canvas, rect: Rectangle, axis: Axis, s: u64, x: int, y: int)
    requires
        rect.start(axis) <= s <= rect.end(axis),
    ensures
        clipped_darkness(canvas, rect.spec_first_half(axis, s), x, y) + clipped_darkness(
            canvas,
            rect.spec_second_half(axis, s),
            x,
            y,
        ) == clipped_darkness(canvas, rect, x, y),
{
    let d = canvas.darkness(x, y);
    match axis {
        Axis::Vertical => {
            let w1 = coverage(rect.left as int, s as int, x);
            let w2 = coverage(s as int, rect.right as int, x);
            let v = coverage(rect.top as int, rect.bottom as int, y);
            assert(d * w1 * v + d * w2 * v == d * (w1 + w2) * v) by (nonlinear_arith);
        },
        Axis::Horizontal => {
            let w = coverage(rect.left as int, rect.right as int, x);
            let v1 = coverage(rect.top as int, s as int, y);
            let v2 = coverage(s as int, rect.bottom as int, y);
            assert(d * w * v1 + d * w * v2 == d * w * (v1 + v2)) by (nonlinear_arith);
        },
    }
}

/// Clipped darkness lies between nothing and `FULL_DARKNESS`.
pub proof fn lemma_clipped_range(canvas: Canvas, rect: Rectangle, x: int, y: int)
    ensures
        0 <= clipped_darkness(canvas, rect, x, y) <= FULL_DARKNESS,
{
    let d = canvas.darkness(x, y);
    let wx = coverage(rect.left as int, rect.right as int, x);
    let wy = coverage(rect.top as int, rect.bottom as int, y);
    lemma_darkness_range(canvas.pixel(x, y));
    lemma_coverage_range(rect.left as int, rect.right as int, x);
    lemma_coverage_range(rect.top as int, rect.bottom as int, y);
    assert(0 <= d * wx * wy <= 255 * 65536 * 65536) by (nonlinear_arith)
        requires
            0 <= d <= 255,
            0 <= wx <= 65536,
            0 <= wy <= 65536,
    ;
}

/// A stretch of a line holds at most `FULL_DARKNESS` per pixel.
pub proof fn lemma_line_sum_range(canvas: Canvas, rect: Rectangle, axis: Axis, i: int, from: int, to: int)
    requires
        from <= to,
    ensures
        0 <= line_sum(canvas, rect, axis, i, from, to) <= (to - from) * FULL_DARKNESS,
    decreases to - from,
{
    if to > from {
        lemma_line_sum_range(canvas, rect, axis, i, from, to - 1);
        match axis {
            Axis::Vertical => lemma_clipped_range(canvas, rect, i, to - 1),
            Axis::Horizontal => lemma_clipped_range(canvas, rect, to - 1, i),
        }
    }
}

/// A band of lines holds at most `MAX_LINE_DARKNESS` per line, given that
/// a line is no longer than `u32::MAX` pixels.
pub proof fn lemma_band_sum_range(canvas: Canvas, rect: Rectangle, axis: Axis, from: int, to: int)
    requires
        from <= to,
        pixel_ceil(rect.cross_end(axis) as int) - pixel_floor(rect.cross_start(axis) as int) <= u32::MAX,
    ensures
        0 <= band_sum(canvas, rect, axis, from, to) <= (to - from) * MAX_LINE_DARKNESS,
    decreases to - from,
{
    if to > from {
        lemma_band_sum_range(canvas, rect, axis, from, to - 1);
        lemma_line_darkness_range(canvas, rect, axis, to - 1);
    }
}

/// A line holds at most `FULL_DARKNESS` per pixel of its extent, and nothing
/// when its extent is empty.
pub proof fn lemma_line_darkness_range(canvas: Canvas, rect: Rectangle, axis: Axis, i: int)
    ensures
        0 <= line_darkness(canvas, rect, axis, i),
        pixel_ceil(rect.cross_end(axis) as int) <= pixel_floor(rect.cross_start(axis) as int)
            ==> line_darkness(canvas, rect, axis, i) == 0,
        pixel_ceil(rect.cross_end(axis) as int) - pixel_floor(rect.cross_start(axis) as int) <= u32::MAX
            ==> line_darkness(canvas, rect, axis, i) <= MAX_LINE_DARKNESS,
{
    let from = pixel_floor(rect.cross_start(axis) as int);
    let to = pixel_ceil(rect.cross_end(axis) as int);
    if from <= to {
        lemma_line_sum_range(canvas, rect, axis, i, from, to);
        if to - from <= u32::MAX {
            assert((to - from) * FULL_DARKNESS <= MAX_LINE_DARKNESS) by (nonlinear_arith)
                requires
                    0 <= to - from <= 0xFFFF_FFFF,
                    FULL_DARKNESS == 1_095_216_660_480,
                    MAX_LINE_DARKNESS == 4_703_919_738_795_935_662_080,
            ;
        }
    }
}

/// Index of the pixel that holds coordinate `c`.
pub fn floor_pixel(c: u64) -> (i: u64)
    ensures
        i == pixel_floor(c as int),
{
    c / SUBPIXELS
}

/// Index of the first pixel that begins at or after coordinate `c`.
pub fn ceil_pixel(c: u64) -> (i: u64)
    ensures
        i == pixel_ceil(c as int),
{
    if c % SUBPIXELS == 0 {
        c / SUBPIXELS
    } else {
        c / SUBPIXELS + 1
    }
}

/// Subpixels of pixel `i` that lie inside the stretch from `lo` to `hi`.
pub fn covered(lo: u64, hi: u64, i: u32) -> (w: u64)
    ensures
        w == coverage(lo as int, hi as int, i as int),
        w <= SUBPIXELS,
{
    let near: u64 = i as u64 * SUBPIXELS;
    let far: u64 = near + SUBPIXELS;
    let from: u64 = if near >= lo { near } else { lo };
    let to: u64 = if far <= hi { far } else { hi };
    if to > from {
        to - from
    } else {
        0
    }
}

/// Clipped darkness of the pixel at `(x, y)`: its darkness scaled by the part
/// of the pixel that `rect` covers along each axis.
pub fn darkness_at(image: &Raster, rect: Rectangle, x: u32, y: u32) -> (d: u128)
    requires
        image.wf(),
        image@.contains(x as int, y as int),
    ensures
        d == clipped_darkness(image@, rect, x as int, y as int),
        d <= FULL_DARKNESS,
{
    let dark: u128 = darkness(image.get_pixel(x, y)) as u128;
    let wx: u128 = covered(rect.left, rect.right, x) as u128;
    let wy: u128 = covered(rect.top, rect.bottom, y) as u128;
    proof {
        lemma_clipped_range(image@, rect, x as int, y as int);
        assert(0 <= dark * wx <= 255 * 65536) by (nonlinear_arith)
            requires
                0 <= dark <= 255,
                0 <= wx <= 65536,
        ;
    }
    dark * wx * wy
}

/// Clipped darkness of line `i` of `rect`: a column for a vertical separator,
/// a row for a horizontal one.
pub fn line_darkness_at(image: &Raster, rect: Rectangle, axis: Axis, i: u32) -> (d: u128)
    requires
        image.wf(),
        rect.fits(image@.width, image@.height),
        match axis {
            Axis::Vertical => i < image@.width,
            Axis::Horizontal => i < image@.height,
        },
    ensures
        d == line_darkness(image@, rect, axis, i as int),
        d <= MAX_LINE_DARKNESS,
{
    let (from, to): (u64, u64) = match axis {
        Axis::Vertical => (floor_pixel(rect.top), ceil_pixel(rect.bottom)),
        Axis::Horizontal => (floor_pixel(rect.left), ceil_pixel(rect.right)),
    };
    proof {
        lemma_line_darkness_range(image@, rect, axis, i as int);
    }
    let mut sum: u128 = 0;
    let mut j: u64 = from;
    while j < to
        invariant
            image.wf(),
            rect.fits(image@.width, image@.height),
            match axis {
                Axis::Vertical => i < image@.width,
                Axis::Horizontal => i < image@.height,
            },
            to == pixel_ceil(rect.cross_end(axis) as int),
            from <= j,
            to <= from ==> j == from,
            from < to ==> j <= to,
            sum == line_sum(image@, rect, axis, i as int, from as int, j as int),
            sum <= (j - from) * FULL_DARKNESS,
            to - from <= u32::MAX,
        decreases to - j,
    {
        let dark: u128 = match axis {
            Axis::Vertical => darkness_at(image, rect, i, j as u32),
            Axis::Horizontal => darkness_at(image, rect, j as u32, i),
        };
        assert((j - from) * FULL_DARKNESS + FULL_DARKNESS <= 0xFFFF_FFFF * FULL_DARKNESS) by (nonlinear_arith)
            requires
                0 <= j - from < 0xFFFF_FFFF,
                FULL_DARKNESS == 1_095_216_660_480,
        ;
        assert((j + 1 - from) * FULL_DARKNESS == (j - from) * FULL_DARKNESS + FULL_DARKNESS)
            by (nonlinear_arith);
        sum = sum + dark;
        j = j + 1;
    }
    sum
}

/// The first pixels of a row hold at most 255 each.
pub proof fn lemma_row_sum_range(canvas: Canvas, y: int, to: int)
    requires
        0 <= to,
    ensures
        0 <= row_sum(canvas, y, to) <= MAX_CHANNEL_VALUE * to,
    decreases to,
{
    if to > 0 {
        lemma_row_sum_range(canvas, y, to - 1);
        lemma_darkness_range(canvas.pixel(to - 1, y));
    }
}

/// The first rows hold at most 255 per pixel.
pub proof fn lemma_rows_sum_range(canvas: Canvas, to: int)
    requires
        0 <= to,
    ensures
        0 <= rows_sum(canvas, to) <= MAX_CHANNEL_VALUE * canvas.width * to,
    decreases to,
{
    if to > 0 {
        lemma_rows_sum_range(canvas, to - 1);
        lemma_row_sum_range(canvas, to - 1, canvas.width as int);
        assert(MAX_CHANNEL_VALUE * canvas.width * to == MAX_CHANNEL_VALUE * canvas.width * (to - 1)
            + MAX_CHANNEL_VALUE * canvas.width) by (nonlinear_arith);
    } else {
        assert(MAX_CHANNEL_VALUE * canvas.width * to == 0) by (nonlinear_arith)
            requires
                to == 0,
        ;
    }
}

/// Rows without any darkness add up to no darkness.
pub proof fn lemma_rows_without_darkness(canvas: Canvas, to: int)
    requires
        0 <= to <= canvas.height,
        forall|x: int, y: int| canvas.contains(x, y) ==> canvas.darkness(x, y) == 0,
    ensures
        rows_sum(canvas, to) == 0,
    decreases to,
{
    if to > 0 {
        lemma_rows_without_darkness(canvas, to - 1);
        lemma_row_without_darkness(canvas, to - 1, canvas.width as int);
    }
}

/// A row without any darkness adds up to no darkness.
pub proof fn lemma_row_without_darkness(canvas: Canvas, y: int, to: int)
    requires
        0 <= y < canvas.height,
        0 <= to <= canvas.width,
        forall|x: int, y: int| canvas.contains(x, y) ==> canvas.darkness(x, y) == 0,
    ensures
        row_sum(canvas, y, to) == 0,
    decreases to,
{
    if to > 0 {
        lemma_row_without_darkness(canvas, y, to - 1);
    }
}

/// Darkness of the whole raster, in 255ths of a pixel.
pub fn total_darkness_of(image: &Raster) -> (total: u128)
    requires
        image.wf(),
    ensures
        total == total_darkness(image@),
        total <= MAX_CHANNEL_VALUE * image@.width * image@.height,
{
    let width: u32 = image.width();
    let height: u32 = image.height();
    let mut total: u128 = 0;
    let mut y: u32 = 0;
    while y < height
        invariant
            image.wf(),
            width == image@.width,
            height == image@.height,
            y <= height,
            total == rows_sum(image@, y as int),
        decreases height - y,
    {
        let mut row: u128 = 0;
        let mut x: u32 = 0;
        while x < width
            invariant
                image.wf(),
                width == image@.width,
                height == image@.height,
                y < height,
                x <= width,
                row == row_sum(image@, y as int, x as int),
                row <= MAX_CHANNEL_VALUE * x,
            decreases width - x,
        {
            let dark: u8 = darkness(image.get_pixel(x, y));
            row = row + dark as u128;
            x = x + 1;
        }
        proof {
            lemma_rows_sum_range(image@, y as int);
            lemma_rows_sum_range(image@, y + 1);
            assert(MAX_CHANNEL_VALUE * image@.width * (y + 1) <= 255 * 0xFFFF_FFFF * 0xFFFF_FFFF)
                by (nonlinear_arith)
                requires
                    0 <= image@.width <= 0xFFFF_FFFF,
                    0 <= y + 1 <= 0xFFFF_FFFF,
                    MAX_CHANNEL_VALUE == 255,
            ;
        }
        total = total + row;
        y = y + 1;
    }
    proof {
        lemma_rows_sum_range(image@, height as int);
    }
    total
}

} // verus!
