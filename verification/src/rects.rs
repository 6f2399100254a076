//! The entry point: measures the darkness of the input, settles how many
//! rectangles to draw, clears the output and divides the canvas.

use vstd::prelude::*;
use crate::darkness::{lemma_rows_without_darkness, total_darkness, total_darkness_of};
use crate::geometry::Rectangle;
use crate::partition::{cell_count, draw_rects, fully_split, lemma_count_conserved, plan};
use crate::raster::{Canvas, Raster};
use crate::render::{clear, with_lines};
use crate::settings::{calibrate, lemma_no_darkness_no_rects, num_rects, recalibrated, Settings, MAX_RECTS};

verus! {

/// What `rectanglify` leaves on an output canvas: the cleared canvas when
/// the input is due no rectangle, and otherwise the cleared canvas with the
/// separators that divide the whole input into the number of rectangles it is
/// due, at the density recalibrated to that number.
pub open spec fn rectanglified(input: Canvas, output: Canvas, settings: Settings) -> Canvas {
    let total = total_darkness(input);
    let rects = num_rects(total, settings);
    if rects == 0 {
        output.cleared()
    } else {
        with_lines(
            output.cleared(),
            plan(
                input,
                recalibrated(total, settings),
                Rectangle::spec_full(input.width, input.height),
                rects as nat,
            ),
        )
    }
}

/// The number of cells on the output of `rectanglify`: none when the input
/// is due no rectangle, and otherwise the cells that the division of the
/// whole input comes to.
pub open spec fn realized_cells(input: Canvas, settings: Settings) -> nat {
    let total = total_darkness(input);
    let rects = num_rects(total, settings);
    if rects == 0 {
        0
    } else {
        cell_count(
            input,
            recalibrated(total, settings),
            Rectangle::spec_full(input.width, input.height),
            rects as nat,
        )
    }
}

/// Every region of the division made by `rectanglify` that is due more than
/// one rectangle is split.
pub open spec fn divides_fully(input: Canvas, settings: Settings) -> bool {
    let total = total_darkness(input);
    let rects = num_rects(total, settings);
    rects >= 1 ==> fully_split(
        input,
        recalibrated(total, settings),
        Rectangle::spec_full(input.width, input.height),
        rects as nat,
    )
}

/// The same input and settings give the same output, sample for sample,
/// whatever the output raster held before, as long as its shape is the same.
pub proof fn lemma_rectanglify_is_deterministic(input: Canvas, settings: Settings, first: Canvas, second: Canvas)
    requires
        first.wf(),
        second.wf(),
        first.same_shape(second),
    ensures
        rectanglified(input, first, settings) == rectanglified(input, second, settings),
{
}

/// An input without any darkness leaves the output cleared, with no line
/// drawn, whatever the density.
pub proof fn lemma_white_input_leaves_blank(input: Canvas, settings: Settings, output: Canvas)
    requires
        settings.wf(),
        forall|x: int, y: int| input.contains(x, y) ==> input.darkness(x, y) == 0,
    ensures
        total_darkness(input) == 0,
        num_rects(total_darkness(input), settings) == 0,
        rectanglified(input, output, settings) == output.cleared(),
        realized_cells(input, settings) == 0,
{
    lemma_rows_without_darkness(input, input.height as int);
    lemma_no_darkness_no_rects(settings);
}

/// After recalibration the density asks for exactly the number of
/// rectangles that was settled on.
pub proof fn lemma_recalibration_is_stable(total: int, settings: Settings)
    requires
        settings.wf(),
        0 < total <= u128::MAX,
    ensures
        0 <= num_rects(total, settings) <= MAX_RECTS,
        num_rects(total, recalibrated(total, settings)) == num_rects(total, settings),
{
    let density = settings.rects_per_pixel;
    let rects = num_rects(total, settings);
    assert(0 <= 2 * total * density.num + 255 * density.den) by (nonlinear_arith)
        requires
            0 < total,
            0 <= density.num,
            0 <= density.den,
    ;
    vstd::arithmetic::div_mod::lemma_div_pos_is_pos(
        2 * total * density.num + 255 * density.den,
        510 * density.den,
    );
    assert(2 * total * (255 * rects) + 255 * total == rects * (510 * total) + 255 * total)
        by (nonlinear_arith);
    vstd::arithmetic::div_mod::lemma_fundamental_div_mod_converse(
        2 * total * (255 * rects) + 255 * total,
        510 * total,
        rects,
        255 * total,
    );
}

/// Where every region that is due more than one rectangle is split, the
/// output of `rectanglify` has exactly as many cells as rectangles were
/// settled on.
pub proof fn lemma_rectanglify_conserves_count(input: Canvas, settings: Settings)
    requires
        settings.wf(),
        total_darkness(input) > 0,
        divides_fully(input, settings),
    ensures
        realized_cells(input, settings) == num_rects(total_darkness(input), settings),
{
    let total = total_darkness(input);
    let rects = num_rects(total, settings);
    if rects >= 1 {
        lemma_count_conserved(
            input,
            recalibrated(total, settings),
            Rectangle::spec_full(input.width, input.height),
            rects as nat,
        );
    }
}

/// Replaces the content of `output` by a rendering of `input` as black
/// separator lines on white, denser where `input` is darker.
///
/// The number of rectangles is settled from the darkness of the input and
/// the density. A region whose scan ends short of the darkness that its first
/// half is due is left as one cell and the rest of its count is dropped, so
/// the rendering may come to fewer cells than were settled; `realized_cells`
/// is their number, which `draw_rects` returns and this function does not.
///
/// Where two or more rectangles are due, the output must be at least as wide
/// and as tall as the input. Where fewer are due, no line is drawn and the
/// output may have any size.
pub fn rectanglify(input: &Raster, output: &mut Raster, settings: Settings)
    requires
        input.wf(),
        old(output).wf(),
        settings.wf(),
        num_rects(total_darkness(input@), settings) >= 2 ==> input@.width <= old(output)@.width
            && input@.height <= old(output)@.height,
    ensures
        final(output).wf(),
        final(output)@ == rectanglified(input@, old(output)@, settings),
{
    let total: u128 = total_darkness_of(input);
    let (rects, calibrated): (u64, Settings) = calibrate(total, settings);
    clear(output);
    if rects == 0 {
        return ;
    }
    let area: Rectangle = Rectangle::full(input.width(), input.height());
    let _cells: u64 = draw_rects(input, output, calibrated, area, rects);
}

} // verus!
