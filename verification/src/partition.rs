//! The recursive bisector.
//!
//! A region that is due more than one rectangle is scanned line by line,
//! columns when it is wider than tall and rows otherwise, until the darkness
//! taken in reaches what the first half of its rectangles is due. A separator
//! is drawn through that line, its exact coordinate is found by taking the
//! overshoot back out of the line, and both halves are divided in turn.
//!
//! A region whose scan ends short of the target is not split: it stays one
//! cell and the rest of its count is dropped, so a division may come to fewer
//! cells than rectangles were asked for. `draw_rects` returns the number of
//! cells that it came to.

use vstd::prelude::*;
use vstd::arithmetic::power2::{lemma2_to64, lemma_pow2_unfold, pow2};
use crate::darkness::{
    band_sum, ceil_pixel, floor_pixel, lemma_band_sum_range, lemma_line_darkness_range, line_darkness,
    line_darkness_at, pixel_ceil, pixel_floor, running_darkness, MAX_LINE_DARKNESS,
};
use crate::geometry::{lemma_halves_enclosed, Axis, Rectangle, SUBPIXELS};
use crate::raster::{Canvas, Raster};
use crate::render::{draw_line, lemma_with_lines_concat, lemma_with_no_lines, lemma_with_one_line, with_lines, Line};
use crate::settings::{lemma_target_positive, target_darkness, target_for, Settings};

verus! {

/// Where a region is split: the line of pixels that is painted, and the exact
/// coordinate at which the region is cut in two.
#[derive(Clone, Copy, Debug, PartialEq, Eq, Structural)]
pub struct Split {
    pub line: Line,
    pub coordinate: u64,
}

/// The line on which a scan stopped, with the darkness taken in up to and
/// including that line, and the darkness of the line alone.
#[derive(Clone, Copy, Debug, PartialEq, Eq, Structural)]
pub struct FoundLine {
    pub index: u32,
    pub running: u128,
    pub line: u128,
}

/// The first line at or after `i` on which a scan of `rect` has taken in at
/// least `target`, if the scan gets that far.
pub open spec fn split_line_from(canvas: Canvas, rect: Rectangle, axis: Axis, target: int, i: int) -> Option<int>
    decreases pixel_ceil(rect.end(axis) as int) - i,
{
    if i >= pixel_ceil(rect.end(axis) as int) {
        None
    } else if running_darkness(canvas, rect, axis, i) >= target {
        Some(i)
    } else {
        split_line_from(canvas, rect, axis, target, i + 1)
    }
}

/// The first line on which a scan of `rect` has taken in at least `target`.
pub open spec fn split_line(canvas: Canvas, rect: Rectangle, axis: Axis, target: int) -> Option<int> {
    split_line_from(canvas, rect, axis, target, pixel_floor(rect.start(axis) as int))
}

/// The exact coordinate of a separator through line `i`: the end of the line,
/// less the part of the line that the overshoot `running - target` amounts to.
/// The part is rounded down to whole subpixels.
pub open spec fn split_coordinate(i: int, running: int, line: int, target: int) -> int {
    (i + 1) * SUBPIXELS - ((running - target) * SUBPIXELS) / line
}

/// Where `area` is split when it is due `rects` rectangles, or `None` when
/// its scan ends short of what the first half is due.
pub open spec fn split_of(canvas: Canvas, settings: Settings, area: Rectangle, rects: nat) -> Option<Split> {
    let axis = area.spec_split_axis();
    match target_darkness(settings, (rects / 2) as int) {
        None => None,
        Some(target) => match split_line(canvas, area, axis, target) {
            None => None,
            Some(i) => Some(
                Split {
                    line: Line {
                        axis: axis,
                        position: i as u32,
                        span_start: pixel_floor(area.cross_start(axis) as int) as u32,
                        span_end: (pixel_ceil(area.cross_end(axis) as int) - 1) as u32,
                    },
                    coordinate: split_coordinate(
                        i,
                        running_darkness(canvas, area, axis, i),
                        line_darkness(canvas, area, axis, i),
                        target,
                    ) as u64,
                },
            ),
        },
    }
}

/// The separators drawn to divide `area` into `rects` rectangles, in the
/// order in which they are drawn: the region's own, then those of its first
/// half, then those of its second half.
pub open spec fn plan(canvas: Canvas, settings: Settings, area: Rectangle, rects: nat) -> Seq<Line>
    decreases rects,
{
    if rects <= 1 {
        Seq::empty()
    } else {
        match split_of(canvas, settings, area, rects) {
            None => Seq::empty(),
            Some(split) => {
                let axis = split.line.axis;
                seq![split.line] + plan(
                    canvas,
                    settings,
                    area.spec_first_half(axis, split.coordinate),
                    rects / 2,
                ) + plan(
                    canvas,
                    settings,
                    area.spec_second_half(axis, split.coordinate),
                    (rects - rects / 2) as nat,
                )
            },
        }
    }
}

/// The number of cells that the division of `area` into `rects` rectangles
/// comes to: the leaves of its recursion.
pub open spec fn cell_count(canvas: Canvas, settings: Settings, area: Rectangle, rects: nat) -> nat
    decreases rects,
{
    if rects <= 1 {
        1
    } else {
        match split_of(canvas, settings, area, rects) {
            None => 1,
            Some(split) => {
                let axis = split.line.axis;
                cell_count(canvas, settings, area.spec_first_half(axis, split.coordinate), rects / 2)
                    + cell_count(
                    canvas,
                    settings,
                    area.spec_second_half(axis, split.coordinate),
                    (rects - rects / 2) as nat,
                )
            },
        }
    }
}

/// Every region of the division that is due more than one rectangle is split.
pub open spec fn fully_split(canvas: Canvas, settings: Settings, area: Rectangle, rects: nat) -> bool
    decreases rects,
{
    if rects <= 1 {
        true
    } else {
        match split_of(canvas, settings, area, rects) {
            None => false,
            Some(split) => {
                let axis = split.line.axis;
                fully_split(canvas, settings, area.spec_first_half(axis, split.coordinate), rects / 2)
                    && fully_split(
                    canvas,
                    settings,
                    area.spec_second_half(axis, split.coordinate),
                    (rects - rects / 2) as nat,
                )
            },
        }
    }
}

/// The depth of the division: the number of splits on the longest way from
/// the region down to one of its cells.
pub open spec fn division_depth(canvas: Canvas, settings: Settings, area: Rectangle, rects: nat) -> nat
    decreases rects,
{
    if rects <= 1 {
        0
    } else {
        match split_of(canvas, settings, area, rects) {
            None => 0,
            Some(split) => {
                let axis = split.line.axis;
                let first = division_depth(
                    canvas,
                    settings,
                    area.spec_first_half(axis, split.coordinate),
                    rects / 2,
                );
                let second = division_depth(
                    canvas,
                    settings,
                    area.spec_second_half(axis, split.coordinate),
                    (rects - rects / 2) as nat,
                );
                1 + if first >= second { first } else { second }
            },
        }
    }
}

/// The line that a scan stops on is the first to reach the target: it lies
/// in the scanned range, the darkness taken in by it reaches the target, and
/// no earlier line does. A scan that stops on no line never reaches it.
pub proof fn lemma_split_line_is_first(canvas: Canvas, rect: Rectangle, axis: Axis, target: int, from: int)
    ensures
        match split_line_from(canvas, rect, axis, target, from) {
            Some(i) => {
                &&& from <= i < pixel_ceil(rect.end(axis) as int)
                &&& running_darkness(canvas, rect, axis, i) >= target
                &&& forall|j: int| from <= j < i ==> running_darkness(canvas, rect, axis, j) < target
            },
            None => forall|j: int|
                from <= j < pixel_ceil(rect.end(axis) as int) ==> running_darkness(canvas, rect, axis, j)
                    < target,
        },
    decreases pixel_ceil(rect.end(axis) as int) - from,
{
    if from < pixel_ceil(rect.end(axis) as int) && running_darkness(canvas, rect, axis, from) < target {
        lemma_split_line_is_first(canvas, rect, axis, target, from + 1);
    }
}

/// On the line where a scan for a positive target stops, the overshoot is
/// less than the darkness of the line itself.
pub proof fn lemma_overshoot_within_line(canvas: Canvas, rect: Rectangle, axis: Axis, target: int)
    requires
        target >= 1,
        split_line(canvas, rect, axis, target) is Some,
    ensures
        ({
            let i = split_line(canvas, rect, axis, target).unwrap();
            0 <= running_darkness(canvas, rect, axis, i) - target < line_darkness(canvas, rect, axis, i)
        }),
{
    let first = pixel_floor(rect.start(axis) as int);
    let i = split_line(canvas, rect, axis, target).unwrap();
    lemma_split_line_is_first(canvas, rect, axis, target, first);
    assert(band_sum(canvas, rect, axis, first, i + 1) == band_sum(canvas, rect, axis, first, i)
        + line_darkness(canvas, rect, axis, i));
    if i > first {
        assert(running_darkness(canvas, rect, axis, i - 1) < target);
    }
}

/// A separator lies beyond the beginning of the line it is drawn through and
/// not beyond its end.
pub proof fn lemma_split_coordinate_range(i: int, running: int, line: int, target: int)
    requires
        0 <= running - target < line,
    ensures
        i * SUBPIXELS < split_coordinate(i, running, line, target) <= (i + 1) * SUBPIXELS,
{
    let over = running - target;
    let part = (over * SUBPIXELS) / line;
    assert(0 <= over * SUBPIXELS < line * SUBPIXELS) by (nonlinear_arith)
        requires
            0 <= over < line,
    ;
    vstd::arithmetic::div_mod::lemma_fundamental_div_mod(over * SUBPIXELS, line);
    vstd::arithmetic::div_mod::lemma_div_pos_is_pos(over * SUBPIXELS, line);
    assert(part < SUBPIXELS) by (nonlinear_arith)
        requires
            over * SUBPIXELS == line * part + (over * SUBPIXELS) % line,
            0 <= (over * SUBPIXELS) % line,
            over * SUBPIXELS < line * SUBPIXELS,
            0 < line,
    ;
}

/// No scan reaches a target beyond the darkness that a region can hold.
pub proof fn lemma_target_out_of_reach(canvas: Canvas, rect: Rectangle, axis: Axis, target: int, from: int)
    requires
        rect.fits(canvas.width, canvas.height),
        canvas.width <= u32::MAX,
        canvas.height <= u32::MAX,
        target > u128::MAX,
        pixel_floor(rect.start(axis) as int) <= from,
    ensures
        split_line_from(canvas, rect, axis, target, from) is None,
    decreases pixel_ceil(rect.end(axis) as int) - from,
{
    let first = pixel_floor(rect.start(axis) as int);
    let end = pixel_ceil(rect.end(axis) as int);
    if from < end {
        lemma_band_sum_range(canvas, rect, axis, first, from + 1);
        assert((from + 1 - first) * MAX_LINE_DARKNESS <= 0xFFFF_FFFF * MAX_LINE_DARKNESS) by (nonlinear_arith)
            requires
                0 <= from + 1 - first <= 0xFFFF_FFFF,
                MAX_LINE_DARKNESS == 4_703_919_738_795_935_662_080,
        ;
        lemma_target_out_of_reach(canvas, rect, axis, target, from + 1);
    }
}

/// Scans `area` line by line and stops on the first line by which at least
/// `target` has been taken in.
pub fn find_split_line(image: &Raster, area: Rectangle, axis: Axis, target: u128) -> (r: Option<FoundLine>)
    requires
        image.wf(),
        area.fits(image@.width, image@.height),
    ensures
        match r {
            Some(found) => {
                &&& split_line(image@, area, axis, target as int) == Some(found.index as int)
                &&& found.running == running_darkness(image@, area, axis, found.index as int)
                &&& found.line == line_darkness(image@, area, axis, found.index as int)
            },
            None => split_line(image@, area, axis, target as int) is None,
        },
{
    let (first, end): (u64, u64) = match axis {
        Axis::Vertical => (floor_pixel(area.left), ceil_pixel(area.right)),
        Axis::Horizontal => (floor_pixel(area.top), ceil_pixel(area.bottom)),
    };
    let mut running: u128 = 0;
    let mut i: u64 = first;
    while i < end
        invariant
            image.wf(),
            area.fits(image@.width, image@.height),
            first == pixel_floor(area.start(axis) as int),
            end == pixel_ceil(area.end(axis) as int),
            end <= u32::MAX,
            first <= i,
            end <= first ==> i == first,
            first < end ==> i <= end,
            running == band_sum(image@, area, axis, first as int, i as int),
            running <= (i - first) * MAX_LINE_DARKNESS,
            split_line_from(image@, area, axis, target as int, i as int) == split_line(
                image@,
                area,
                axis,
                target as int,
            ),
        decreases end - i,
    {
        let line: u128 = line_darkness_at(image, area, axis, i as u32);
        assert((i - first) * MAX_LINE_DARKNESS + MAX_LINE_DARKNESS <= 0xFFFF_FFFF * MAX_LINE_DARKNESS)
            by (nonlinear_arith)
            requires
                0 <= i - first < 0xFFFF_FFFF,
                MAX_LINE_DARKNESS == 4_703_919_738_795_935_662_080,
        ;
        assert((i + 1 - first) * MAX_LINE_DARKNESS == (i - first) * MAX_LINE_DARKNESS + MAX_LINE_DARKNESS)
            by (nonlinear_arith);
        running = running + line;
        if running >= target {
            return Some(FoundLine { index: i as u32, running, line });
        }
        i = i + 1;
    }
    None
}

/// Finds where `area` is split when it is due `rects` rectangles: scans it
/// for the darkness that the first half is due and places the separator.
pub fn find_split(input: &Raster, settings: Settings, area: Rectangle, rects: u64) -> (r: Option<Split>)
    requires
        input.wf(),
        settings.wf(),
        area.fits(input@.width, input@.height),
        rects >= 2,
    ensures
        r == split_of(input@, settings, area, rects as nat),
        r matches Some(split) ==> {
            &&& split.line.axis == area.spec_split_axis()
            &&& split.line.span_start <= split.line.span_end
            &&& split.line.inside(input@.width, input@.height)
            &&& split.line.position * SUBPIXELS < split.coordinate <= (split.line.position + 1) * SUBPIXELS
            &&& area.spec_first_half(split.line.axis, split.coordinate).fits(input@.width, input@.height)
            &&& area.spec_second_half(split.line.axis, split.coordinate).fits(input@.width, input@.height)
            &&& area.ordered() && area.start(split.line.axis) <= split.line.position * SUBPIXELS && (
            split.line.position + 1) * SUBPIXELS <= area.end(split.line.axis) ==> {
                &&& area.start(split.line.axis) <= split.coordinate <= area.end(split.line.axis)
                &&& area.encloses(area.spec_first_half(split.line.axis, split.coordinate))
                &&& area.encloses(area.spec_second_half(split.line.axis, split.coordinate))
            }
        },
{
    let axis: Axis = area.split_axis();
    let first_half: u64 = rects / 2;
    let ghost first: int = pixel_floor(area.start(axis) as int);
    let target: u128 = match target_for(settings, first_half) {
        Some(t) => t,
        None => {
            proof {
                if let Some(v) = target_darkness(settings, first_half as int) {
                    lemma_target_out_of_reach(input@, area, axis, v, first);
                }
            }
            return None;
        },
    };
    let found: FoundLine = match find_split_line(input, area, axis, target) {
        Some(f) => f,
        None => {
            return None;
        },
    };
    proof {
        lemma_target_positive(settings, first_half as int);
        lemma_overshoot_within_line(input@, area, axis, target as int);
        lemma_split_line_is_first(input@, area, axis, target as int, first);
        lemma_split_coordinate_range(found.index as int, found.running as int, found.line as int, target as int);
        lemma_line_darkness_range(input@, area, axis, found.index as int);
    }
    let over: u128 = found.running - target;
    assert(over * SUBPIXELS < MAX_LINE_DARKNESS * 65536) by (nonlinear_arith)
        requires
            0 <= over < MAX_LINE_DARKNESS,
            SUBPIXELS == 65536,
    ;
    let part: u128 = over * (SUBPIXELS as u128) / found.line;
    let coordinate: u64 = (found.index as u64 + 1) * SUBPIXELS - part as u64;
    let (span_first, span_end): (u64, u64) = match axis {
        Axis::Vertical => (floor_pixel(area.top), ceil_pixel(area.bottom)),
        Axis::Horizontal => (floor_pixel(area.left), ceil_pixel(area.right)),
    };
    Some(
        Split {
            line: Line {
                axis,
                position: found.index,
                span_start: span_first as u32,
                span_end: (span_end - 1) as u32,
            },
            coordinate,
        },
    )
}

/// The division of a region comes to at least one cell and to no more cells
/// than rectangles were asked for, and it draws one separator less than it
/// has cells.
pub proof fn lemma_cells_and_lines(canvas: Canvas, settings: Settings, area: Rectangle, rects: nat)
    requires
        rects >= 1,
    ensures
        1 <= cell_count(canvas, settings, area, rects) <= rects,
        plan(canvas, settings, area, rects).len() + 1 == cell_count(canvas, settings, area, rects),
    decreases rects,
{
    if rects >= 2 {
        if let Some(split) = split_of(canvas, settings, area, rects) {
            let axis = split.line.axis;
            lemma_cells_and_lines(canvas, settings, area.spec_first_half(axis, split.coordinate), rects / 2);
            lemma_cells_and_lines(
                canvas,
                settings,
                area.spec_second_half(axis, split.coordinate),
                (rects - rects / 2) as nat,
            );
        }
    }
}

/// The division is no deeper than the logarithm of the number of rectangles
/// asked for, rounded up: `levels` halvings bring any count up to `2^levels`
/// down to one.
pub proof fn lemma_depth_is_logarithmic(
    canvas: Canvas,
    settings: Settings,
    area: Rectangle,
    rects: nat,
    levels: nat,
)
    requires
        rects <= pow2(levels),
    ensures
        division_depth(canvas, settings, area, rects) <= levels,
    decreases rects,
{
    if rects >= 2 {
        if levels == 0 {
            lemma2_to64();
        } else {
            lemma_pow2_unfold(levels);
            if let Some(split) = split_of(canvas, settings, area, rects) {
                let axis = split.line.axis;
                lemma_depth_is_logarithmic(
                    canvas,
                    settings,
                    area.spec_first_half(axis, split.coordinate),
                    rects / 2,
                    (levels - 1) as nat,
                );
                lemma_depth_is_logarithmic(
                    canvas,
                    settings,
                    area.spec_second_half(axis, split.coordinate),
                    (rects - rects / 2) as nat,
                    (levels - 1) as nat,
                );
            }
        }
    }
}

/// A region that is due a single rectangle is one cell, and nothing is drawn for it.
pub proof fn lemma_single_rect_is_leaf(canvas: Canvas, settings: Settings, area: Rectangle, output: Canvas)
    ensures
        plan(canvas, settings, area, 1) == Seq::<Line>::empty(),
        cell_count(canvas, settings, area, 1) == 1,
        with_lines(output, plan(canvas, settings, area, 1)) == output,
{
    lemma_with_no_lines(output);
}

/// Where every region that is due more than one rectangle is split, the
/// division comes to exactly as many cells as rectangles were asked for.
pub proof fn lemma_count_conserved(canvas: Canvas, settings: Settings, area: Rectangle, rects: nat)
    requires
        rects >= 1,
        fully_split(canvas, settings, area, rects),
    ensures
        cell_count(canvas, settings, area, rects) == rects,
    decreases rects,
{
    if rects >= 2 {
        let split = split_of(canvas, settings, area, rects).unwrap();
        let axis = split.line.axis;
        lemma_count_conserved(canvas, settings, area.spec_first_half(axis, split.coordinate), rects / 2);
        lemma_count_conserved(
            canvas,
            settings,
            area.spec_second_half(axis, split.coordinate),
            (rects - rects / 2) as nat,
        );
    }
}

/// Where a division comes to as many cells as rectangles were asked for,
/// every region of it that is due more than one rectangle was split.
pub proof fn lemma_full_count_means_fully_split(canvas: Canvas, settings: Settings, area: Rectangle, rects: nat)
    requires
        rects >= 1,
        cell_count(canvas, settings, area, rects) == rects,
    ensures
        fully_split(canvas, settings, area, rects),
    decreases rects,
{
    if rects >= 2 {
        if let Some(split) = split_of(canvas, settings, area, rects) {
            let axis = split.line.axis;
            let first = area.spec_first_half(axis, split.coordinate);
            let second = area.spec_second_half(axis, split.coordinate);
            lemma_cells_and_lines(canvas, settings, first, rects / 2);
            lemma_cells_and_lines(canvas, settings, second, (rects - rects / 2) as nat);
            lemma_full_count_means_fully_split(canvas, settings, first, rects / 2);
            lemma_full_count_means_fully_split(canvas, settings, second, (rects - rects / 2) as nat);
        }
    }
}

/// The separator of a split region passes through the line that is painted
/// for it: it lies beyond the beginning of that line and not beyond its end.
/// The two halves stay on the canvas.
pub proof fn lemma_split_on_painted_line(canvas: Canvas, settings: Settings, area: Rectangle, rects: nat)
    requires
        settings.wf(),
        rects >= 2,
        canvas.width <= u32::MAX,
        canvas.height <= u32::MAX,
        area.fits(canvas.width, canvas.height),
        split_of(canvas, settings, area, rects) is Some,
    ensures
        ({
            let split = split_of(canvas, settings, area, rects).unwrap();
            let axis = area.spec_split_axis();
            &&& split.line.axis == axis
            &&& pixel_floor(area.start(axis) as int) <= split.line.position < pixel_ceil(area.end(axis) as int)
            &&& split.line.position * SUBPIXELS < split.coordinate <= (split.line.position + 1) * SUBPIXELS
            &&& area.spec_first_half(axis, split.coordinate).fits(canvas.width, canvas.height)
            &&& area.spec_second_half(axis, split.coordinate).fits(canvas.width, canvas.height)
        }),
{
    let axis = area.spec_split_axis();
    let target = target_darkness(settings, (rects / 2) as int).unwrap();
    let i = split_line(canvas, area, axis, target).unwrap();
    lemma_target_positive(settings, (rects / 2) as int);
    lemma_overshoot_within_line(canvas, area, axis, target);
    lemma_split_line_is_first(canvas, area, axis, target, pixel_floor(area.start(axis) as int));
    lemma_split_coordinate_range(
        i,
        running_darkness(canvas, area, axis, i),
        line_darkness(canvas, area, axis, i),
        target,
    );
}

/// Both halves of a split region lie within the region on every side,
/// whenever the region is ordered and its separator falls between its bounds.
pub proof fn lemma_children_enclosed(canvas: Canvas, settings: Settings, area: Rectangle, rects: nat)
    requires
        area.ordered(),
        split_of(canvas, settings, area, rects) is Some,
        ({
            let split = split_of(canvas, settings, area, rects).unwrap();
            area.start(split.line.axis) <= split.coordinate <= area.end(split.line.axis)
        }),
    ensures
        ({
            let split = split_of(canvas, settings, area, rects).unwrap();
            let first = area.spec_first_half(split.line.axis, split.coordinate);
            let second = area.spec_second_half(split.line.axis, split.coordinate);
            &&& area.encloses(first)
            &&& area.encloses(second)
            &&& first.ordered()
            &&& second.ordered()
        }),
{
    let split = split_of(canvas, settings, area, rects).unwrap();
    lemma_halves_enclosed(area, split.line.axis, split.coordinate);
}

/// The separator falls between the bounds of the region whenever the line
/// that is painted for it lies wholly inside the region.
pub proof fn lemma_split_inside_whole_line(canvas: Canvas, settings: Settings, area: Rectangle, rects: nat)
    requires
        settings.wf(),
        rects >= 2,
        canvas.width <= u32::MAX,
        canvas.height <= u32::MAX,
        area.fits(canvas.width, canvas.height),
        split_of(canvas, settings, area, rects) is Some,
        ({
            let split = split_of(canvas, settings, area, rects).unwrap();
            &&& area.start(split.line.axis) <= split.line.position * SUBPIXELS
            &&& (split.line.position + 1) * SUBPIXELS <= area.end(split.line.axis)
        }),
    ensures
        ({
            let split = split_of(canvas, settings, area, rects).unwrap();
            area.start(split.line.axis) <= split.coordinate <= area.end(split.line.axis)
        }),
{
    lemma_split_on_painted_line(canvas, settings, area, rects);
}

/// A region that is split through a line that lies wholly inside it encloses
/// both its halves.
pub proof fn lemma_whole_line_encloses_halves(canvas: Canvas, settings: Settings, area: Rectangle, rects: nat)
    requires
        settings.wf(),
        rects >= 2,
        canvas.width <= u32::MAX,
        canvas.height <= u32::MAX,
        area.ordered(),
        area.fits(canvas.width, canvas.height),
        split_of(canvas, settings, area, rects) is Some,
        ({
            let split = split_of(canvas, settings, area, rects).unwrap();
            &&& area.start(split.line.axis) <= split.line.position * SUBPIXELS
            &&& (split.line.position + 1) * SUBPIXELS <= area.end(split.line.axis)
        }),
    ensures
        ({
            let split = split_of(canvas, settings, area, rects).unwrap();
            let first = area.spec_first_half(split.line.axis, split.coordinate);
            let second = area.spec_second_half(split.line.axis, split.coordinate);
            &&& split.line.position * SUBPIXELS < split.coordinate <= (split.line.position + 1) * SUBPIXELS
            &&& area.start(split.line.axis) <= split.coordinate <= area.end(split.line.axis)
            &&& area.encloses(first)
            &&& area.encloses(second)
            &&& first.ordered()
            &&& second.ordered()
        }),
{
    lemma_split_on_painted_line(canvas, settings, area, rects);
    lemma_split_inside_whole_line(canvas, settings, area, rects);
    lemma_children_enclosed(canvas, settings, area, rects);
}

/// A region that begins and ends on whole pixels along the direction of its
/// scan encloses both its halves: the whole canvas, for one.
pub proof fn lemma_aligned_region_encloses_halves(
    canvas: Canvas,
    settings: Settings,
    area: Rectangle,
    rects: nat,
)
    requires
        settings.wf(),
        rects >= 2,
        canvas.width <= u32::MAX,
        canvas.height <= u32::MAX,
        area.ordered(),
        area.fits(canvas.width, canvas.height),
        area.start(area.spec_split_axis()) % SUBPIXELS == 0,
        area.end(area.spec_split_axis()) % SUBPIXELS == 0,
        split_of(canvas, settings, area, rects) is Some,
    ensures
        ({
            let split = split_of(canvas, settings, area, rects).unwrap();
            let first = area.spec_first_half(split.line.axis, split.coordinate);
            let second = area.spec_second_half(split.line.axis, split.coordinate);
            &&& area.encloses(first)
            &&& area.encloses(second)
            &&& first.ordered()
            &&& second.ordered()
        }),
{
    lemma_split_on_painted_line(canvas, settings, area, rects);
    lemma_whole_line_encloses_halves(canvas, settings, area, rects);
}

/// Divides `area` into `rects` rectangles by drawing separators on `output`,
/// and returns the number of cells that the division came to.
///
/// A region that is due one rectangle is a cell as it stands: nothing is
/// read, nothing is drawn, whatever the region and the settings are. Any other
/// region is split where the darkness of `input` says, its separator is painted
/// across it, and its halves are divided in turn, the first into `rects / 2`
/// rectangles and the second into the rest. A region whose scan ends short
/// of its target stays one cell, and the rest of its count is dropped.
///
/// Where more than one rectangle is due, the region must lie on the input and
/// the output must be at least as wide and as tall as the input.
pub fn draw_rects(input: &Raster, output: &mut Raster, settings: Settings, area: Rectangle, rects: u64) -> (cells:
    u64)
    requires
        rects >= 1,
        rects >= 2 ==> {
            &&& input.wf()
            &&& old(output).wf()
            &&& settings.wf()
            &&& area.fits(input@.width, input@.height)
            &&& input@.width <= old(output)@.width
            &&& input@.height <= old(output)@.height
        },
    ensures
        old(output).wf() ==> final(output).wf(),
        final(output)@ == with_lines(old(output)@, plan(input@, settings, area, rects as nat)),
        cells == cell_count(input@, settings, area, rects as nat),
        1 <= cells <= rects,
        rects == 1 ==> cells == 1 && final(output)@ == old(output)@,
    decreases rects,
{
    let ghost before: Canvas = output@;
    proof {
        lemma_with_no_lines(before);
        lemma_cells_and_lines(input@, settings, area, rects as nat);
    }
    if rects == 1 {
        return 1;
    }
    let split: Split = match find_split(input, settings, area, rects) {
        Some(s) => s,
        None => {
            return 1;
        },
    };
    let axis: Axis = split.line.axis;
    let first: Rectangle = area.first_half(axis, split.coordinate);
    let second: Rectangle = area.second_half(axis, split.coordinate);
    let first_rects: u64 = rects / 2;
    let second_rects: u64 = rects - rects / 2;
    draw_line(output, split.line);
    let first_cells: u64 = draw_rects(input, output, settings, first, first_rects);
    let second_cells: u64 = draw_rects(input, output, settings, second, second_rects);
    proof {
        let own = seq![split.line];
        let first_plan = plan(input@, settings, first, first_rects as nat);
        let second_plan = plan(input@, settings, second, second_rects as nat);
        lemma_with_one_line(before, split.line);
        lemma_with_lines_concat(before, own, first_plan);
        lemma_with_lines_concat(before, own + first_plan, second_plan);
    }
    first_cells + second_cells
}

} // verus!
