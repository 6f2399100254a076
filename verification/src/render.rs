//! Drawing: clearing the canvas to the background and painting separator
//! lines in the foreground colour.

use vstd::prelude::*;
use crate::geometry::Axis;
use crate::pixel::{Pixel, MAX_CHANNEL_VALUE};
use crate::raster::{lemma_offset_bounds, lemma_sample_position, Canvas, Raster};

verus! {

/// A separator line, one pixel wide: the pixels at `position` across the
/// span from `span_start` to `span_end`, both included. A vertical line has
/// its position in `x` and its span in `y`; a horizontal one the reverse.
#[derive(Clone, Copy, Debug, PartialEq, Eq, Structural)]
pub struct Line {
    pub axis: Axis,
    pub position: u32,
    pub span_start: u32,
    pub span_end: u32,
}

/// Whether pixel `(x, y)` lies at `position` within the span from `from` up
/// to, not including, `to`.
pub open spec fn span_covers(axis: Axis, position: int, from: int, to: int, x: int, y: int) -> bool {
    match axis {
        Axis::Vertical => x == position && from <= y < to,
        Axis::Horizontal => y == position && from <= x < to,
    }
}

impl Line {
    /// Whether the line passes through pixel `(x, y)`.
    pub open spec fn covers(self, x: int, y: int) -> bool {
        span_covers(self.axis, self.position as int, self.span_start as int, self.span_end + 1, x, y)
    }

    /// Every pixel of the line lies on a canvas of `width` by `height` pixels.
    pub open spec fn inside(self, width: nat, height: nat) -> bool {
        self.span_start <= self.span_end ==> match self.axis {
            Axis::Vertical => self.position < width && self.span_end < height,
            Axis::Horizontal => self.position < height && self.span_end < width,
        }
    }
}

/// Whether any of `lines` passes through pixel `(x, y)`.
pub open spec fn covered_by(lines: Seq<Line>, x: int, y: int) -> bool {
    exists|k: int| 0 <= k < lines.len() && #[trigger] lines[k].covers(x, y)
}

/// Sample `s` after painting: the foreground colour where `covered`, the
/// sample as it was elsewhere.
pub open spec fn painted_sample(canvas: Canvas, s: int, covered: bool) -> u8 {
    if covered {
        Pixel::spec_foreground(canvas.layout).channel(canvas.sample_channel(s))
    } else {
        canvas.samples[s]
    }
}

/// The canvas with the foreground colour at `position` across the span from
/// `from` up to, not including, `to`.
pub open spec fn with_span(canvas: Canvas, axis: Axis, position: int, from: int, to: int) -> Canvas {
    Canvas {
        samples: Seq::new(
            canvas.samples.len(),
            |s: int|
                painted_sample(
                    canvas,
                    s,
                    span_covers(axis, position, from, to, canvas.sample_x(s), canvas.sample_y(s)),
                ),
        ),
        ..canvas
    }
}

/// The canvas with one line painted.
pub open spec fn with_line(canvas: Canvas, line: Line) -> Canvas {
    with_span(canvas, line.axis, line.position as int, line.span_start as int, line.span_end + 1)
}

/// The canvas with every line of `lines` painted: a pixel that any of them
/// passes through holds the foreground colour, every other pixel is as it was.
pub open spec fn with_lines(canvas: Canvas, lines: Seq<Line>) -> Canvas {
    Canvas {
        samples: Seq::new(
            canvas.samples.len(),
            |s: int| painted_sample(canvas, s, covered_by(lines, canvas.sample_x(s), canvas.sample_y(s))),
        ),
        ..canvas
    }
}

/// Painting no line leaves the canvas as it was.
pub proof fn lemma_with_no_lines(canvas: Canvas)
    ensures
        with_lines(canvas, Seq::empty()) == canvas,
{
    assert(with_lines(canvas, Seq::empty()).samples =~= canvas.samples);
}

/// Painting a list of one line paints that line.
pub proof fn lemma_with_one_line(canvas: Canvas, line: Line)
    ensures
        with_lines(canvas, seq![line]) == with_line(canvas, line),
{
    let lines = seq![line];
    assert forall|s: int| 0 <= s < canvas.samples.len() implies with_lines(canvas, lines).samples[s]
        == with_line(canvas, line).samples[s] by {
        let x = canvas.sample_x(s);
        let y = canvas.sample_y(s);
        if line.covers(x, y) {
            assert(lines[0].covers(x, y));
        }
    }
    assert(with_lines(canvas, lines).samples =~= with_line(canvas, line).samples);
}

/// A pixel is covered by two lists joined exactly when either covers it.
pub proof fn lemma_covered_by_concat(a: Seq<Line>, b: Seq<Line>, x: int, y: int)
    ensures
        covered_by(a + b, x, y) <==> covered_by(a, x, y) || covered_by(b, x, y),
{
    let joined = a + b;
    if covered_by(a, x, y) {
        let k = choose|k: int| 0 <= k < a.len() && #[trigger] a[k].covers(x, y);
        assert(joined[k].covers(x, y));
    }
    if covered_by(b, x, y) {
        let k = choose|k: int| 0 <= k < b.len() && #[trigger] b[k].covers(x, y);
        assert(joined[a.len() + k].covers(x, y));
    }
    if covered_by(joined, x, y) {
        let k = choose|k: int| 0 <= k < joined.len() && #[trigger] joined[k].covers(x, y);
        if k < a.len() {
            assert(a[k].covers(x, y));
        } else {
            assert(b[k - a.len()].covers(x, y));
        }
    }
}

/// Painting one list of lines and then another paints the two lists joined.
pub proof fn lemma_with_lines_concat(canvas: Canvas, a: Seq<Line>, b: Seq<Line>)
    ensures
        with_lines(with_lines(canvas, a), b) == with_lines(canvas, a + b),
{
    let mid = with_lines(canvas, a);
    assert forall|s: int| 0 <= s < canvas.samples.len() implies with_lines(mid, b).samples[s]
        == with_lines(canvas, a + b).samples[s] by {
        lemma_covered_by_concat(a, b, canvas.sample_x(s), canvas.sample_y(s));
    }
    assert(with_lines(mid, b).samples =~= with_lines(canvas, a + b).samples);
}

/// Every pixel of a cleared canvas holds the background colour.
pub proof fn lemma_cleared_is_background(canvas: Canvas, x: int, y: int)
    requires
        canvas.wf(),
        canvas.contains(x, y),
    ensures
        canvas.cleared().pixel(x, y) == Pixel::spec_background(canvas.layout),
{
    lemma_offset_bounds(
        canvas.width as int,
        canvas.height as int,
        canvas.layout.channels() as int,
        x,
        y,
    );
}

/// Every pixel that a painted line passes through holds the foreground
/// colour, and every other pixel is as it was.
pub proof fn lemma_painted_pixel(canvas: Canvas, lines: Seq<Line>, x: int, y: int)
    requires
        canvas.wf(),
        canvas.contains(x, y),
    ensures
        with_lines(canvas, lines).pixel(x, y) == if covered_by(lines, x, y) {
            Pixel::spec_foreground(canvas.layout)
        } else {
            canvas.pixel(x, y)
        },
{
    let width = canvas.width as int;
    let channels = canvas.layout.channels() as int;
    let at = canvas.offset(x, y);
    lemma_offset_bounds(width, canvas.height as int, channels, x, y);
    lemma_sample_position(width, channels, x, y, at);
    if channels > 1 {
        lemma_sample_position(width, channels, x, y, at + 1);
        lemma_sample_position(width, channels, x, y, at + 2);
    }
    if channels > 3 {
        lemma_sample_position(width, channels, x, y, at + 3);
    }
}

/// Painting the next pixel of a span extends the span by one.
proof fn lemma_extend_span(canvas: Canvas, axis: Axis, position: int, from: int, j: int)
    requires
        canvas.wf(),
        from <= j,
        match axis {
            Axis::Vertical => canvas.contains(position, j),
            Axis::Horizontal => canvas.contains(j, position),
        },
    ensures
        with_span(canvas, axis, position, from, j + 1) == match axis {
            Axis::Vertical => with_span(canvas, axis, position, from, j).with_pixel(
                position,
                j,
                Pixel::spec_foreground(canvas.layout),
            ),
            Axis::Horizontal => with_span(canvas, axis, position, from, j).with_pixel(
                j,
                position,
                Pixel::spec_foreground(canvas.layout),
            ),
        },
{
    let (x, y) = match axis {
        Axis::Vertical => (position, j),
        Axis::Horizontal => (j, position),
    };
    let before = with_span(canvas, axis, position, from, j);
    let after = before.with_pixel(x, y, Pixel::spec_foreground(canvas.layout));
    let grown = with_span(canvas, axis, position, from, j + 1);
    let width = canvas.width as int;
    let channels = canvas.layout.channels() as int;
    assert forall|s: int| 0 <= s < canvas.samples.len() implies after.samples[s] == grown.samples[s] by {
        lemma_sample_position(width, channels, x, y, s);
    }
    assert(after.samples =~= grown.samples);
}

/// Fills the raster with the background colour: every channel, alpha
/// included, at its maximum.
pub fn clear(output: &mut Raster)
    requires
        old(output).wf(),
    ensures
        final(output).wf(),
        final(output)@ == old(output)@.cleared(),
{
    output.fill(MAX_CHANNEL_VALUE);
}

/// Paints the pixels of row `y` from column `start_x` to column `end_x`, both
/// included, in the foreground colour.
pub fn horizontal_line(image: &mut Raster, y: u32, start_x: u32, end_x: u32)
    requires
        old(image).wf(),
        start_x <= end_x ==> y < old(image)@.height && end_x < old(image)@.width,
    ensures
        final(image).wf(),
        final(image)@ == with_line(
            old(image)@,
            Line { axis: Axis::Horizontal, position: y, span_start: start_x, span_end: end_x },
        ),
{
    paint_span(image, Axis::Horizontal, y, start_x, end_x);
}

/// Paints the pixels of column `x` from row `start_y` to row `end_y`, both
/// included, in the foreground colour.
pub fn vertical_line(image: &mut Raster, x: u32, start_y: u32, end_y: u32)
    requires
        old(image).wf(),
        start_y <= end_y ==> x < old(image)@.width && end_y < old(image)@.height,
    ensures
        final(image).wf(),
        final(image)@ == with_line(
            old(image)@,
            Line { axis: Axis::Vertical, position: x, span_start: start_y, span_end: end_y },
        ),
{
    paint_span(image, Axis::Vertical, x, start_y, end_y);
}

/// Paints one separator line.
pub fn draw_line(output: &mut Raster, line: Line)
    requires
        old(output).wf(),
        line.inside(old(output)@.width, old(output)@.height),
    ensures
        final(output).wf(),
        final(output)@ == with_line(old(output)@, line),
{
    match line.axis {
        Axis::Vertical => vertical_line(output, line.position, line.span_start, line.span_end),
        Axis::Horizontal => horizontal_line(output, line.position, line.span_start, line.span_end),
    }
}

/// Paints the pixels at `position` across the span from `start` to `end`,
/// both included.
fn paint_span(image: &mut Raster, axis: Axis, position: u32, start: u32, end: u32)
    requires
        old(image).wf(),
        (Line { axis: axis, position: position, span_start: start, span_end: end }).inside(
            old(image)@.width,
            old(image)@.height,
        ),
    ensures
        final(image).wf(),
        final(image)@ == with_span(old(image)@, axis, position as int, start as int, end + 1),
{
    let ghost before: Canvas = image@;
    if start > end {
        assert(with_span(before, axis, position as int, start as int, end + 1).samples =~= before.samples);
        return ;
    }
    let black: Pixel = Pixel::foreground(image.layout());
    let mut j: u32 = start;
    assert(with_span(before, axis, position as int, start as int, start as int).samples =~= before.samples);
    while j <= end
        invariant
            before.wf(),
            before == old(image)@,
            image.wf(),
            start <= j <= end + 1,
            black == Pixel::spec_foreground(before.layout),
            match axis {
                Axis::Vertical => position < before.width && end < before.height,
                Axis::Horizontal => position < before.height && end < before.width,
            },
            image@ == with_span(before, axis, position as int, start as int, j as int),
        decreases end + 1 - j,
    {
        proof {
            lemma_extend_span(before, axis, position as int, start as int, j as int);
        }
        match axis {
            Axis::Vertical => image.put_pixel(position, j, black),
            Axis::Horizontal => image.put_pixel(j, position, black),
        }
        j = j + 1;
    }
}

} // verus!
