//! How the darkness of a region is shared out between the halves of a cut.
//!
//! Darkness is conserved: the halves of a region, cut anywhere between its
//! bounds, hold together what the region held. A split through a line that
//! lies wholly inside its region gives its first half the darkness that its
//! rectangles are due, and no more than one subpixel-wide strip of that line
//! beyond it, because the separator is placed on a whole subpixel.

use vstd::prelude::*;
use crate::darkness::{
    band_sum, clipped_darkness, coverage, lemma_coverage_range, lemma_darkness_range, line_darkness,
    line_sum, pixel_ceil, pixel_floor, row_sum, rows_sum, running_darkness, total_darkness,
};
use crate::geometry::{Axis, Rectangle, SUBPIXELS};
use crate::partition::{
    lemma_overshoot_within_line, lemma_split_coordinate_range, lemma_split_line_is_first, split_coordinate,
    split_line, split_of,
};
use crate::settings::{lemma_target_is_exact, lemma_target_positive, reaches, target_darkness, Settings};
use crate::pixel::MAX_CHANNEL_VALUE;
use crate::raster::Canvas;

verus! {

/// Darkness of the pixel at position `j` on line `i`, weighted by its
/// coverage along the line only, by the stretch from `lo` to `hi`.
pub open spec fn strip_darkness(canvas: Canvas, axis: Axis, lo: int, hi: int, i: int, j: int) -> int {
    match axis {
        Axis::Vertical => canvas.darkness(i, j) * coverage(lo, hi, j),
        Axis::Horizontal => canvas.darkness(j, i) * coverage(lo, hi, j),
    }
}

/// Darkness of a strip one subpixel wide along line `i`, over the pixels at
/// positions `from` up to, not including, `to`.
pub open spec fn strip_sum(canvas: Canvas, axis: Axis, lo: int, hi: int, i: int, from: int, to: int) -> int
    decreases to - from,
{
    if to <= from {
        0
    } else {
        strip_sum(canvas, axis, lo, hi, i, from, to - 1) + strip_darkness(canvas, axis, lo, hi, i, to - 1)
    }
}

/// Darkness of a strip one subpixel wide along line `i` of `rect`.
pub open spec fn strip_of(canvas: Canvas, rect: Rectangle, axis: Axis, i: int) -> int {
    strip_sum(
        canvas,
        axis,
        rect.cross_start(axis) as int,
        rect.cross_end(axis) as int,
        i,
        pixel_floor(rect.cross_start(axis) as int),
        pixel_ceil(rect.cross_end(axis) as int),
    )
}

/// Subpixels of line `i` that `rect` covers across the line.
pub open spec fn line_coverage(rect: Rectangle, axis: Axis, i: int) -> int {
    coverage(rect.start(axis) as int, rect.end(axis) as int, i)
}

/// Clipped darkness of all pixels in the columns `fx` up to `ex` and the
/// rows `fy` up to `ey`, summed column by column.
pub open spec fn by_columns(canvas: Canvas, rect: Rectangle, fx: int, ex: int, fy: int, ey: int) -> int
    decreases ex - fx,
{
    if ex <= fx {
        0
    } else {
        by_columns(canvas, rect, fx, ex - 1, fy, ey) + line_sum(canvas, rect, Axis::Vertical, ex - 1, fy, ey)
    }
}

/// Clipped darkness of all pixels in the columns `fx` up to `ex` and the
/// rows `fy` up to `ey`, summed row by row.
pub open spec fn by_rows(canvas: Canvas, rect: Rectangle, fx: int, ex: int, fy: int, ey: int) -> int
    decreases ey - fy,
{
    if ey <= fy {
        0
    } else {
        by_rows(canvas, rect, fx, ex, fy, ey - 1) + line_sum(canvas, rect, Axis::Horizontal, ey - 1, fx, ex)
    }
}

/// Clipped darkness of a whole region, as a scan along `axis` takes it in.
pub open spec fn region_darkness(canvas: Canvas, rect: Rectangle, axis: Axis) -> int {
    band_sum(
        canvas,
        rect,
        axis,
        pixel_floor(rect.start(axis) as int),
        pixel_ceil(rect.end(axis) as int),
    )
}

/// The darkness of a stretch of a line is the coverage of the line times the
/// darkness of a strip one subpixel wide.
pub proof fn lemma_line_sum_factors(canvas: Canvas, rect: Rectangle, axis: Axis, i: int, from: int, to: int)
    ensures
        line_sum(canvas, rect, axis, i, from, to) == line_coverage(rect, axis, i) * strip_sum(
            canvas,
            axis,
            rect.cross_start(axis) as int,
            rect.cross_end(axis) as int,
            i,
            from,
            to,
        ),
    decreases to - from,
{
    let w = line_coverage(rect, axis, i);
    let lo = rect.cross_start(axis) as int;
    let hi = rect.cross_end(axis) as int;
    if to > from {
        lemma_line_sum_factors(canvas, rect, axis, i, from, to - 1);
        let rest = strip_sum(canvas, axis, lo, hi, i, from, to - 1);
        let last = strip_darkness(canvas, axis, lo, hi, i, to - 1);
        let j = to - 1;
        match axis {
            Axis::Vertical => {
                let d = canvas.darkness(i, j);
                let v = coverage(lo, hi, j);
                assert(d * w * v == w * (d * v)) by (nonlinear_arith);
            },
            Axis::Horizontal => {
                let d = canvas.darkness(j, i);
                let v = coverage(lo, hi, j);
                assert(d * v * w == w * (d * v)) by (nonlinear_arith);
            },
        }
        assert(w * (rest + last) == w * rest + w * last) by (nonlinear_arith);
    }
}

/// The darkness of a line is its coverage times the darkness of its strip.
pub proof fn lemma_line_factors(canvas: Canvas, rect: Rectangle, axis: Axis, i: int)
    ensures
        line_darkness(canvas, rect, axis, i) == line_coverage(rect, axis, i) * strip_of(canvas, rect, axis, i),
{
    lemma_line_sum_factors(
        canvas,
        rect,
        axis,
        i,
        pixel_floor(rect.cross_start(axis) as int),
        pixel_ceil(rect.cross_end(axis) as int),
    );
}

/// A strip holds no more than 255 times a pixel's width for each of its pixels.
pub proof fn lemma_strip_sum_range(canvas: Canvas, axis: Axis, lo: int, hi: int, i: int, from: int, to: int)
    ensures
        0 <= strip_sum(canvas, axis, lo, hi, i, from, to),
        from <= to ==> strip_sum(canvas, axis, lo, hi, i, from, to) <= (to - from) * (MAX_CHANNEL_VALUE
            * SUBPIXELS),
        to <= from ==> strip_sum(canvas, axis, lo, hi, i, from, to) == 0,
    decreases to - from,
{
    if to > from {
        lemma_strip_sum_range(canvas, axis, lo, hi, i, from, to - 1);
        let j = to - 1;
        let d = match axis {
            Axis::Vertical => canvas.darkness(i, j),
            Axis::Horizontal => canvas.darkness(j, i),
        };
        match axis {
            Axis::Vertical => lemma_darkness_range(canvas.pixel(i, j)),
            Axis::Horizontal => lemma_darkness_range(canvas.pixel(j, i)),
        }
        let v = coverage(lo, hi, j);
        lemma_coverage_range(lo, hi, j);
        assert(0 <= d * v <= 255 * 65536) by (nonlinear_arith)
            requires
                0 <= d <= 255,
                0 <= v <= 65536,
        ;
        assert((to - from) * (MAX_CHANNEL_VALUE * SUBPIXELS) == (to - 1 - from) * (MAX_CHANNEL_VALUE
            * SUBPIXELS) + 255 * 65536) by (nonlinear_arith)
            requires
                MAX_CHANNEL_VALUE == 255,
                SUBPIXELS == 65536,
        ;
    }
}

/// Summed row by row, no columns hold no darkness.
pub proof fn lemma_by_rows_of_no_columns(canvas: Canvas, rect: Rectangle, fx: int, ex: int, fy: int, ey: int)
    requires
        ex <= fx,
    ensures
        by_rows(canvas, rect, fx, ex, fy, ey) == 0,
    decreases ey - fy,
{
    if ey > fy {
        lemma_by_rows_of_no_columns(canvas, rect, fx, ex, fy, ey - 1);
    }
}

/// Summed row by row, one more column adds the darkness of that column.
pub proof fn lemma_by_rows_one_more_column(canvas: Canvas, rect: Rectangle, fx: int, ex: int, fy: int, ey: int)
    requires
        fx < ex,
    ensures
        by_rows(canvas, rect, fx, ex, fy, ey) == by_rows(canvas, rect, fx, ex - 1, fy, ey) + line_sum(
            canvas,
            rect,
            Axis::Vertical,
            ex - 1,
            fy,
            ey,
        ),
    decreases ey - fy,
{
    if ey > fy {
        lemma_by_rows_one_more_column(canvas, rect, fx, ex, fy, ey - 1);
    }
}

/// The darkness of a block of pixels is the same summed by columns and by rows.
pub proof fn lemma_sum_order(canvas: Canvas, rect: Rectangle, fx: int, ex: int, fy: int, ey: int)
    ensures
        by_columns(canvas, rect, fx, ex, fy, ey) == by_rows(canvas, rect, fx, ex, fy, ey),
    decreases ex - fx,
{
    if ex <= fx {
        lemma_by_rows_of_no_columns(canvas, rect, fx, ex, fy, ey);
    } else {
        lemma_sum_order(canvas, rect, fx, ex - 1, fy, ey);
        lemma_by_rows_one_more_column(canvas, rect, fx, ex, fy, ey);
    }
}

/// A band of columns is a block summed by columns.
pub proof fn lemma_band_by_columns(canvas: Canvas, rect: Rectangle, from: int, to: int)
    ensures
        band_sum(canvas, rect, Axis::Vertical, from, to) == by_columns(
            canvas,
            rect,
            from,
            to,
            pixel_floor(rect.top as int),
            pixel_ceil(rect.bottom as int),
        ),
    decreases to - from,
{
    if to > from {
        lemma_band_by_columns(canvas, rect, from, to - 1);
    }
}

/// A band of rows is a block summed by rows.
pub proof fn lemma_band_by_rows(canvas: Canvas, rect: Rectangle, from: int, to: int)
    ensures
        band_sum(canvas, rect, Axis::Horizontal, from, to) == by_rows(
            canvas,
            rect,
            pixel_floor(rect.left as int),
            pixel_ceil(rect.right as int),
            from,
            to,
        ),
    decreases to - from,
{
    if to > from {
        lemma_band_by_rows(canvas, rect, from, to - 1);
    }
}

/// A scan takes in the same darkness from a region along either axis.
pub proof fn lemma_region_darkness_either_way(canvas: Canvas, rect: Rectangle)
    ensures
        region_darkness(canvas, rect, Axis::Vertical) == region_darkness(canvas, rect, Axis::Horizontal),
{
    let fx = pixel_floor(rect.left as int);
    let ex = pixel_ceil(rect.right as int);
    let fy = pixel_floor(rect.top as int);
    let ey = pixel_ceil(rect.bottom as int);
    lemma_band_by_columns(canvas, rect, fx, ex);
    lemma_band_by_rows(canvas, rect, fy, ey);
    lemma_sum_order(canvas, rect, fx, ex, fy, ey);
}

/// A band of lines is the sum of its two parts.
pub proof fn lemma_band_sum_parts(canvas: Canvas, rect: Rectangle, axis: Axis, from: int, mid: int, to: int)
    requires
        from <= mid <= to,
    ensures
        band_sum(canvas, rect, axis, from, to) == band_sum(canvas, rect, axis, from, mid) + band_sum(
            canvas,
            rect,
            axis,
            mid,
            to,
        ),
    decreases to - mid,
{
    if to > mid {
        lemma_band_sum_parts(canvas, rect, axis, from, mid, to - 1);
    }
}

/// Bands of two regions hold the same darkness when their lines do.
pub proof fn lemma_band_sum_same_lines(
    canvas: Canvas,
    one: Rectangle,
    other: Rectangle,
    axis: Axis,
    from: int,
    to: int,
)
    requires
        forall|j: int|
            from <= j < to ==> line_darkness(canvas, one, axis, j) == line_darkness(canvas, other, axis, j),
    ensures
        band_sum(canvas, one, axis, from, to) == band_sum(canvas, other, axis, from, to),
    decreases to - from,
{
    if to > from {
        lemma_band_sum_same_lines(canvas, one, other, axis, from, to - 1);
    }
}

/// With the separator placed by the overshoot, what the first half keeps
/// of the line of the split is at least the line less the overshoot. Here
/// `width` is the coverage of the line by the region, `strip` the darkness
/// of a strip of the line and `part` the subpixels cut off the line's end.
pub proof fn lemma_first_share(over: int, width: int, strip: int, part: int)
    requires
        1 <= width <= SUBPIXELS,
        0 <= over < width * strip,
        part == (over * SUBPIXELS) / (width * strip),
    ensures
        0 <= part < SUBPIXELS,
        (SUBPIXELS - part) * strip >= width * strip - over,
{
    let line = width * strip;
    let scaled = over * SUBPIXELS;
    vstd::arithmetic::div_mod::lemma_fundamental_div_mod(scaled, line);
    let rem = scaled % line;
    assert(0 <= rem < line) by {
        vstd::arithmetic::div_mod::lemma_mod_bound(scaled, line);
    }
    assert(0 <= scaled < line * SUBPIXELS) by (nonlinear_arith)
        requires
            0 <= over < line,
            scaled == over * SUBPIXELS,
    ;
    assert(0 <= part < SUBPIXELS) by (nonlinear_arith)
        requires
            scaled == line * part + rem,
            0 <= rem < line,
            0 <= scaled < line * SUBPIXELS,
    ;
    assert(strip >= 1) by (nonlinear_arith)
        requires
            0 <= over < width * strip,
            width >= 1,
    ;
    // line * part <= over * S, and over <= line, give
    // strip * (width + part - S) * width <= over * width.
    assert((strip * (width + part - SUBPIXELS)) * width <= over * width) by (nonlinear_arith)
        requires
            line == width * strip,
            over * SUBPIXELS == line * part + rem,
            0 <= rem,
            0 <= over < line,
            1 <= width <= SUBPIXELS,
    ;
    assert(strip * (width + part - SUBPIXELS) <= over) by (nonlinear_arith)
        requires
            (strip * (width + part - SUBPIXELS)) * width <= over * width,
            width >= 1,
    ;
    assert((SUBPIXELS - part) * strip == width * strip - strip * (width + part - SUBPIXELS))
        by (nonlinear_arith);
}

/// With the separator placed on a whole subpixel, what the second half
/// keeps of the line of the split falls short of the overshoot by less than
/// the darkness of one strip of the line.
pub proof fn lemma_second_share(over: int, width: int, strip: int, part: int)
    requires
        1 <= width <= SUBPIXELS,
        0 <= over < width * strip,
        part == (over * SUBPIXELS) / (width * strip),
    ensures
        over - part * strip < strip,
{
    let line = width * strip;
    let scaled = over * SUBPIXELS;
    vstd::arithmetic::div_mod::lemma_fundamental_div_mod(scaled, line);
    let rem = scaled % line;
    assert(0 <= rem < line) by {
        vstd::arithmetic::div_mod::lemma_mod_bound(scaled, line);
    }
    assert(strip >= 1) by (nonlinear_arith)
        requires
            0 <= over < width * strip,
            width >= 1,
    ;
    vstd::arithmetic::div_mod::lemma_div_pos_is_pos(scaled, line);
    assert((part + 1) * line > over * SUBPIXELS) by (nonlinear_arith)
        requires
            over * SUBPIXELS == line * part + rem,
            rem < line,
    ;
    assert(line <= strip * SUBPIXELS) by (nonlinear_arith)
        requires
            line == width * strip,
            1 <= width <= SUBPIXELS,
            strip >= 1,
    ;
    assert((part + 1) * line <= (part + 1) * (strip * SUBPIXELS)) by (nonlinear_arith)
        requires
            line <= strip * SUBPIXELS,
            part + 1 >= 0,
    ;
    assert((part + 1) * (strip * SUBPIXELS) == (part + 1) * strip * SUBPIXELS) by (nonlinear_arith);
    assert((part + 1) * strip > over) by (nonlinear_arith)
        requires
            (part + 1) * strip * SUBPIXELS > over * SUBPIXELS,
            SUBPIXELS == 65536,
    ;
    assert((part + 1) * strip == part * strip + strip) by (nonlinear_arith);
}

/// A region that holds the target lets the scan reach it.
pub proof fn lemma_enough_darkness_is_found(canvas: Canvas, area: Rectangle, axis: Axis, target: int)
    requires
        target >= 1,
        region_darkness(canvas, area, axis) >= target,
    ensures
        split_line(canvas, area, axis, target) is Some,
{
    let first = pixel_floor(area.start(axis) as int);
    let end = pixel_ceil(area.end(axis) as int);
    lemma_split_line_is_first(canvas, area, axis, target, first);
    if first < end {
        assert(running_darkness(canvas, area, axis, end - 1) == region_darkness(canvas, area, axis));
    }
}

/// A region that holds the darkness that the first half of its rectangles is
/// due is split.
pub proof fn lemma_fed_region_is_split(canvas: Canvas, settings: Settings, area: Rectangle, rects: nat)
    requires
        settings.wf(),
        rects >= 2,
        reaches(settings, (rects / 2) as int, region_darkness(canvas, area, area.spec_split_axis())),
    ensures
        split_of(canvas, settings, area, rects) is Some,
{
    let axis = area.spec_split_axis();
    let first_rects = (rects / 2) as int;
    lemma_target_is_exact(settings, first_rects, region_darkness(canvas, area, axis));
    lemma_target_positive(settings, first_rects);
    let target = target_darkness(settings, first_rects).unwrap();
    lemma_enough_darkness_is_found(canvas, area, axis, target);
}

/// A cut between the ends of a stretch shares out the coverage of every
/// pixel between the two parts.
pub proof fn lemma_cut_conserves_coverage(lo: int, hi: int, s: int, i: int)
    requires
        lo <= s <= hi,
    ensures
        coverage(lo, s, i) + coverage(s, hi, i) == coverage(lo, hi, i),
{
}

/// A cut between the bounds of a region shares out the darkness of every
/// line between the two halves.
pub proof fn lemma_cut_conserves_line(canvas: Canvas, area: Rectangle, axis: Axis, s: u64, j: int)
    requires
        area.start(axis) <= s <= area.end(axis),
    ensures
        line_darkness(canvas, area.spec_first_half(axis, s), axis, j) + line_darkness(
            canvas,
            area.spec_second_half(axis, s),
            axis,
            j,
        ) == line_darkness(canvas, area, axis, j),
{
    let before = area.spec_first_half(axis, s);
    let after = area.spec_second_half(axis, s);
    lemma_line_factors(canvas, area, axis, j);
    lemma_line_factors(canvas, before, axis, j);
    lemma_line_factors(canvas, after, axis, j);
    lemma_cut_conserves_coverage(area.start(axis) as int, area.end(axis) as int, s as int, j);
    let strip = strip_of(canvas, area, axis, j);
    assert(strip_of(canvas, before, axis, j) == strip);
    assert(strip_of(canvas, after, axis, j) == strip);
    let w1 = line_coverage(before, axis, j);
    let w2 = line_coverage(after, axis, j);
    assert(w1 * strip + w2 * strip == (w1 + w2) * strip) by (nonlinear_arith);
}

/// A cut between the bounds of a region shares out the darkness of every
/// band of lines between the two halves.
pub proof fn lemma_cut_conserves_band(canvas: Canvas, area: Rectangle, axis: Axis, s: u64, from: int, to: int)
    requires
        area.start(axis) <= s <= area.end(axis),
    ensures
        band_sum(canvas, area.spec_first_half(axis, s), axis, from, to) + band_sum(
            canvas,
            area.spec_second_half(axis, s),
            axis,
            from,
            to,
        ) == band_sum(canvas, area, axis, from, to),
    decreases to - from,
{
    if to > from {
        lemma_cut_conserves_band(canvas, area, axis, s, from, to - 1);
        lemma_cut_conserves_line(canvas, area, axis, s, to - 1);
    }
}

/// Lines that lie wholly before a region, or wholly after it, hold none of
/// its darkness.
pub proof fn lemma_band_beside_region(canvas: Canvas, rect: Rectangle, axis: Axis, from: int, to: int)
    requires
        to <= pixel_floor(rect.start(axis) as int) || pixel_ceil(rect.end(axis) as int) <= from,
    ensures
        band_sum(canvas, rect, axis, from, to) == 0,
    decreases to - from,
{
    if to > from {
        lemma_band_beside_region(canvas, rect, axis, from, to - 1);
        lemma_line_factors(canvas, rect, axis, to - 1);
        assert(line_coverage(rect, axis, to - 1) == 0);
        assert(0 * strip_of(canvas, rect, axis, to - 1) == 0);
    }
}

/// A band of lines that reaches over a whole region holds the darkness of
/// the region.
pub proof fn lemma_band_over_region(canvas: Canvas, rect: Rectangle, axis: Axis, from: int, to: int)
    requires
        rect.start(axis) <= rect.end(axis),
        from <= pixel_floor(rect.start(axis) as int),
        pixel_ceil(rect.end(axis) as int) <= to,
    ensures
        band_sum(canvas, rect, axis, from, to) == region_darkness(canvas, rect, axis),
{
    let first = pixel_floor(rect.start(axis) as int);
    let end = pixel_ceil(rect.end(axis) as int);
    lemma_band_sum_parts(canvas, rect, axis, from, first, to);
    lemma_band_sum_parts(canvas, rect, axis, first, end, to);
    lemma_band_beside_region(canvas, rect, axis, from, first);
    lemma_band_beside_region(canvas, rect, axis, end, to);
}

/// Darkness is conserved under a cut: the halves of a region, cut anywhere
/// between its bounds, hold together exactly what the region holds.
pub proof fn lemma_cut_conserves_region(canvas: Canvas, area: Rectangle, axis: Axis, s: u64)
    requires
        area.start(axis) <= s <= area.end(axis),
    ensures
        region_darkness(canvas, area.spec_first_half(axis, s), axis) + region_darkness(
            canvas,
            area.spec_second_half(axis, s),
            axis,
        ) == region_darkness(canvas, area, axis),
{
    let first = pixel_floor(area.start(axis) as int);
    let end = pixel_ceil(area.end(axis) as int);
    let before = area.spec_first_half(axis, s);
    let after = area.spec_second_half(axis, s);
    assert(before.start(axis) == area.start(axis) && before.end(axis) == s);
    assert(after.start(axis) == s && after.end(axis) == area.end(axis));
    lemma_band_over_region(canvas, before, axis, first, end);
    lemma_band_over_region(canvas, after, axis, first, end);
    lemma_cut_conserves_band(canvas, area, axis, s, first, end);
}

/// How a split through a line that lies wholly inside its region shares out
/// the darkness of the region. The first half holds the target, and less than
/// one strip of the line of the split beyond it. The second half holds the rest.
pub proof fn lemma_shares_of_a_split(canvas: Canvas, area: Rectangle, axis: Axis, target: int)
    requires
        canvas.width <= u32::MAX,
        canvas.height <= u32::MAX,
        area.fits(canvas.width, canvas.height),
        target >= 1,
        split_line(canvas, area, axis, target) is Some,
        ({
            let i = split_line(canvas, area, axis, target).unwrap();
            area.start(axis) <= i * SUBPIXELS && (i + 1) * SUBPIXELS <= area.end(axis)
        }),
    ensures
        ({
            let i = split_line(canvas, area, axis, target).unwrap();
            let c = split_coordinate(
                i,
                running_darkness(canvas, area, axis, i),
                line_darkness(canvas, area, axis, i),
                target,
            ) as u64;
            let first = region_darkness(canvas, area.spec_first_half(axis, c), axis);
            let second = region_darkness(canvas, area.spec_second_half(axis, c), axis);
            &&& area.start(axis) <= c <= area.end(axis)
            &&& target <= first < target + strip_of(canvas, area, axis, i)
            &&& first + second == region_darkness(canvas, area, axis)
        }),
{
    let first = pixel_floor(area.start(axis) as int);
    let i = split_line(canvas, area, axis, target).unwrap();
    let running = running_darkness(canvas, area, axis, i);
    let line = line_darkness(canvas, area, axis, i);
    let over = running - target;
    let coordinate = split_coordinate(i, running, line, target);
    let c = coordinate as u64;
    let part = (over * SUBPIXELS) / line;
    let strip = strip_of(canvas, area, axis, i);
    let before = area.spec_first_half(axis, c);

    lemma_split_line_is_first(canvas, area, axis, target, first);
    lemma_overshoot_within_line(canvas, area, axis, target);
    lemma_split_coordinate_range(i, running, line, target);
    lemma_line_factors(canvas, area, axis, i);
    assert(line_coverage(area, axis, i) == SUBPIXELS);
    lemma_first_share(over, SUBPIXELS as int, strip, part);
    lemma_second_share(over, SUBPIXELS as int, strip, part);
    lemma_cut_conserves_region(canvas, area, axis, c);

    // The first half: the lines before the split as they were, and its
    // share of the line of the split.
    assert(before.start(axis) == area.start(axis) && before.end(axis) == c);
    assert(before.cross_start(axis) == area.cross_start(axis));
    assert(before.cross_end(axis) == area.cross_end(axis));
    assert forall|j: int| first <= j < i implies line_darkness(canvas, before, axis, j) == line_darkness(
        canvas,
        area,
        axis,
        j,
    ) by {
        lemma_line_factors(canvas, area, axis, j);
        lemma_line_factors(canvas, before, axis, j);
        assert(line_coverage(before, axis, j) == line_coverage(area, axis, j));
    }
    lemma_band_sum_same_lines(canvas, before, area, axis, first, i);
    lemma_line_factors(canvas, before, axis, i);
    assert(line_coverage(before, axis, i) == SUBPIXELS - part);
    assert(band_sum(canvas, area, axis, first, i + 1) == band_sum(canvas, area, axis, first, i) + line);
    assert(band_sum(canvas, before, axis, first, i + 1) == band_sum(canvas, before, axis, first, i)
        + line_darkness(canvas, before, axis, i));
    assert(pixel_ceil(before.end(axis) as int) == i + 1);
    assert((SUBPIXELS - part) * strip == SUBPIXELS * strip - part * strip) by (nonlinear_arith);
}

/// Clipped against the whole canvas, the first pixels of a row hold their
/// darkness times the subpixels of a pixel.
pub proof fn lemma_full_row(canvas: Canvas, y: int, to: int)
    requires
        canvas.width <= u32::MAX,
        canvas.height <= u32::MAX,
        0 <= y < canvas.height,
        0 <= to <= canvas.width,
    ensures
        line_sum(canvas, Rectangle::spec_full(canvas.width, canvas.height), Axis::Horizontal, y, 0, to)
            == row_sum(canvas, y, to) * (SUBPIXELS * SUBPIXELS),
    decreases to,
{
    let full = Rectangle::spec_full(canvas.width, canvas.height);
    if to > 0 {
        lemma_full_row(canvas, y, to - 1);
        let x = to - 1;
        let d = canvas.darkness(x, y);
        assert(clipped_darkness(canvas, full, x, y) == d * (SUBPIXELS * SUBPIXELS)) by (nonlinear_arith)
            requires
                clipped_darkness(canvas, full, x, y) == d * SUBPIXELS * SUBPIXELS,
        ;
        assert((row_sum(canvas, y, to - 1) + d) * (SUBPIXELS * SUBPIXELS) == row_sum(canvas, y, to - 1) * (
        SUBPIXELS * SUBPIXELS) + d * (SUBPIXELS * SUBPIXELS)) by (nonlinear_arith);
    } else {
        assert(row_sum(canvas, y, to) * (SUBPIXELS * SUBPIXELS) == 0) by (nonlinear_arith)
            requires
                row_sum(canvas, y, to) == 0,
        ;
    }
}

/// Clipped against the whole canvas, the first rows hold their darkness
/// times the subpixels of a pixel.
pub proof fn lemma_full_rows(canvas: Canvas, to: int)
    requires
        canvas.width <= u32::MAX,
        canvas.height <= u32::MAX,
        0 <= to <= canvas.height,
    ensures
        by_rows(
            canvas,
            Rectangle::spec_full(canvas.width, canvas.height),
            0,
            canvas.width as int,
            0,
            to,
        ) == rows_sum(canvas, to) * (SUBPIXELS * SUBPIXELS),
    decreases to,
{
    if to > 0 {
        lemma_full_rows(canvas, to - 1);
        lemma_full_row(canvas, to - 1, canvas.width as int);
        assert((rows_sum(canvas, to - 1) + row_sum(canvas, to - 1, canvas.width as int)) * (SUBPIXELS
            * SUBPIXELS) == rows_sum(canvas, to - 1) * (SUBPIXELS * SUBPIXELS) + row_sum(
            canvas,
            to - 1,
            canvas.width as int,
        ) * (SUBPIXELS * SUBPIXELS)) by (nonlinear_arith);
    } else {
        assert(rows_sum(canvas, to) * (SUBPIXELS * SUBPIXELS) == 0) by (nonlinear_arith)
            requires
                rows_sum(canvas, to) == 0,
        ;
    }
}

/// The region that covers the whole canvas holds the darkness of all its
/// pixels, each counted in full.
pub proof fn lemma_whole_canvas_darkness(canvas: Canvas)
    requires
        canvas.width <= u32::MAX,
        canvas.height <= u32::MAX,
    ensures
        region_darkness(canvas, Rectangle::spec_full(canvas.width, canvas.height), Axis::Vertical)
            == total_darkness(canvas) * (SUBPIXELS * SUBPIXELS),
{
    let full = Rectangle::spec_full(canvas.width, canvas.height);
    lemma_band_by_columns(canvas, full, 0, canvas.width as int);
    lemma_sum_order(canvas, full, 0, canvas.width as int, 0, canvas.height as int);
    lemma_full_rows(canvas, canvas.height as int);
}

} // verus!
