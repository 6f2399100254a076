//! Rectangles with subpixel coordinates.
//!
//! A coordinate counts subpixels: pixel `i` spans the coordinates from
//! `i * SUBPIXELS` to `(i + 1) * SUBPIXELS`.

use vstd::prelude::*;

verus! {

/// Number of subpixels along one side of a pixel.
pub const SUBPIXELS: u64 = 65536;

/// The direction of a separator line.
#[derive(Clone, Copy, Debug, PartialEq, Eq, Structural)]
pub enum Axis {
    /// A vertical separator: columns are scanned, the halves lie left and right.
    Vertical,
    /// A horizontal separator: rows are scanned, the halves lie above and below.
    Horizontal,
}

/// An axis-aligned region of the canvas, in subpixels.
#[derive(Clone, Copy, Debug, PartialEq, Eq, Structural)]
pub struct Rectangle {
    pub left: u64,
    pub top: u64,
    pub right: u64,
    pub bottom: u64,
}

impl Rectangle {
    /// Signed width in subpixels.
    pub open spec fn spec_width(self) -> int {
        self.right - self.left
    }

    /// Signed height in subpixels.
    pub open spec fn spec_height(self) -> int {
        self.bottom - self.top
    }

    /// Left is not right of right, top is not below bottom.
    pub open spec fn ordered(self) -> bool {
        self.left <= self.right && self.top <= self.bottom
    }

    /// `inner` lies within `self` on every side.
    pub open spec fn encloses(self, inner: Rectangle) -> bool {
        &&& self.left <= inner.left
        &&& inner.right <= self.right
        &&& self.top <= inner.top
        &&& inner.bottom <= self.bottom
    }

    /// No coordinate lies beyond a canvas of `width` by `height` pixels.
    pub open spec fn fits(self, width: nat, height: nat) -> bool {
        &&& self.left <= width * SUBPIXELS
        &&& self.right <= width * SUBPIXELS
        &&& self.top <= height * SUBPIXELS
        &&& self.bottom <= height * SUBPIXELS
    }

    /// The rectangle that covers a canvas of `width` by `height` pixels.
    pub open spec fn spec_full(width: nat, height: nat) -> Rectangle {
        Rectangle {
            left: 0,
            top: 0,
            right: (width * SUBPIXELS) as u64,
            bottom: (height * SUBPIXELS) as u64,
        }
    }

    /// The separator that splits this rectangle: vertical when it is wider
    /// than tall, horizontal otherwise, a square included.
    pub open spec fn spec_split_axis(self) -> Axis {
        if self.spec_width() > self.spec_height() {
            Axis::Vertical
        } else {
            Axis::Horizontal
        }
    }

    /// The lower bound along the direction in which `axis` scans.
    pub open spec fn start(self, axis: Axis) -> u64 {
        match axis {
            Axis::Vertical => self.left,
            Axis::Horizontal => self.top,
        }
    }

    /// The upper bound along the direction in which `axis` scans.
    pub open spec fn end(self, axis: Axis) -> u64 {
        match axis {
            Axis::Vertical => self.right,
            Axis::Horizontal => self.bottom,
        }
    }

    /// The lower bound along the separator itself.
    pub open spec fn cross_start(self, axis: Axis) -> u64 {
        match axis {
            Axis::Vertical => self.top,
            Axis::Horizontal => self.left,
        }
    }

    /// The upper bound along the separator itself.
    pub open spec fn cross_end(self, axis: Axis) -> u64 {
        match axis {
            Axis::Vertical => self.bottom,
            Axis::Horizontal => self.right,
        }
    }

    /// The half before a separator at `split`: left of it or above it.
    pub open spec fn spec_first_half(self, axis: Axis, split: u64) -> Rectangle {
        match axis {
            Axis::Vertical => Rectangle { right: split, ..self },
            Axis::Horizontal => Rectangle { bottom: split, ..self },
        }
    }

    /// The half after a separator at `split`: right of it or below it.
    pub open spec fn spec_second_half(self, axis: Axis, split: u64) -> Rectangle {
        match axis {
            Axis::Vertical => Rectangle { left: split, ..self },
            Axis::Horizontal => Rectangle { top: split, ..self },
        }
    }

    /// Signed width in subpixels.
    pub fn width(&self) -> (w: i128)
        ensures
            w == self.spec_width(),
    {
        self.right as i128 - self.left as i128
    }

    /// Signed height in subpixels.
    pub fn height(&self) -> (h: i128)
        ensures
            h == self.spec_height(),
    {
        self.bottom as i128 - self.top as i128
    }

    /// The rectangle that covers a canvas of `width` by `height` pixels.
    pub fn full(width: u32, height: u32) -> (r: Rectangle)
        ensures
            r == Rectangle::spec_full(width as nat, height as nat),
            r.left == 0,
            r.top == 0,
            r.right == width * SUBPIXELS,
            r.bottom == height * SUBPIXELS,
            r.ordered(),
            r.fits(width as nat, height as nat),
    {
        Rectangle {
            left: 0,
            top: 0,
            right: width as u64 * SUBPIXELS,
            bottom: height as u64 * SUBPIXELS,
        }
    }

    /// The separator that splits this rectangle.
    pub fn split_axis(&self) -> (axis: Axis)
        ensures
            axis == self.spec_split_axis(),
    {
        if self.width() > self.height() {
            Axis::Vertical
        } else {
            Axis::Horizontal
        }
    }

    /// The half before a separator at `split`.
    pub fn first_half(&self, axis: Axis, split: u64) -> (r: Rectangle)
        ensures
            r == self.spec_first_half(axis, split),
    {
        match axis {
            Axis::Vertical => Rectangle { left: self.left, top: self.top, right: split, bottom: self.bottom },
            Axis::Horizontal => Rectangle { left: self.left, top: self.top, right: self.right, bottom: split },
        }
    }

    /// The half after a separator at `split`.
    pub fn second_half(&self, axis: Axis, split: u64) -> (r: Rectangle)
        ensures
            r == self.spec_second_half(axis, split),
    {
        match axis {
            Axis::Vertical => Rectangle { left: split, top: self.top, right: self.right, bottom: self.bottom },
            Axis::Horizontal => Rectangle { left: self.left, top: split, right: self.right, bottom: self.bottom },
        }
    }
}

/// Both halves of an ordered rectangle lie within it whenever the separator
/// lies between its bounds along the scanned direction.
pub proof fn lemma_halves_enclosed(area: Rectangle, axis: Axis, split: u64)
    requires
        area.ordered(),
        area.start(axis) <= split <= area.end(axis),
    ensures
        area.encloses(area.spec_first_half(axis, split)),
        area.encloses(area.spec_second_half(axis, split)),
        area.spec_first_half(axis, split).ordered(),
        area.spec_second_half(axis, split).ordered(),
{
}

} // verus!
