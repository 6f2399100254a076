//! Pixel representations and the darkness of a pixel.
//!
//! Every supported layout stores 8-bit channels. Darkness is counted in 255ths:
//! `0` is the background (white), `255` is the foreground (black).

use vstd::prelude::*;

verus! {

/// Largest value a channel can hold.
pub const MAX_CHANNEL_VALUE: u8 = 255;

/// Smallest value a channel can hold.
pub const MIN_CHANNEL_VALUE: u8 = 0;

/// How the channels of one pixel are laid out in a raster.
#[derive(Clone, Copy, Debug, PartialEq, Eq, Structural)]
pub enum PixelLayout {
    /// One grayscale channel.
    Gray8,
    /// Red, green, blue.
    Rgb8,
    /// Red, green, blue, alpha.
    Rgba8,
}

impl PixelLayout {
    /// Number of channels per pixel.
    pub open spec fn channels(self) -> nat {
        match self {
            PixelLayout::Gray8 => 1,
            PixelLayout::Rgb8 => 3,
            PixelLayout::Rgba8 => 4,
        }
    }

    /// Number of channels per pixel.
    pub fn channel_count(self) -> (n: usize)
        ensures
            n == self.channels(),
    {
        match self {
            PixelLayout::Gray8 => 1,
            PixelLayout::Rgb8 => 3,
            PixelLayout::Rgba8 => 4,
        }
    }
}

/// One pixel, tagged with its layout.
#[derive(Clone, Copy, Debug, PartialEq, Eq, Structural)]
pub enum Pixel {
    Gray(u8),
    Rgb(u8, u8, u8),
    Rgba(u8, u8, u8, u8),
}

/// Luminance of an sRGB colour, on the scale of its channels.
pub open spec fn srgb_luma(r: int, g: int, b: int) -> int {
    (2126 * r + 7152 * g + 722 * b) / 10000
}

/// Luma reduction of a colour pixel by `image::Pixel::to_luma` on
/// `image::Rgb<u8>`. Trusted: the three channels are weighted by 2126, 7152
/// and 722 ten-thousandths and the sum is divided with truncation.
#[verifier::external_body]
fn rgb_to_luma(r: u8, g: u8, b: u8) -> (l: u8)
    ensures
        l == srgb_luma(r as int, g as int, b as int),
{
    image::Pixel::to_luma(&image::Rgb([r, g, b])).0[0]
}

/// Luma reduction of a colour pixel with alpha by `image::Pixel::to_luma` on
/// `image::Rgba<u8>`. Trusted: the colour channels are weighted as for RGB and
/// the alpha channel plays no part.
#[verifier::external_body]
fn rgba_to_luma(r: u8, g: u8, b: u8, a: u8) -> (l: u8)
    ensures
        l == srgb_luma(r as int, g as int, b as int),
{
    image::Pixel::to_luma(&image::Rgba([r, g, b, a])).0[0]
}

impl Pixel {
    /// The layout this pixel belongs to.
    pub open spec fn layout(self) -> PixelLayout {
        match self {
            Pixel::Gray(_) => PixelLayout::Gray8,
            Pixel::Rgb(_, _, _) => PixelLayout::Rgb8,
            Pixel::Rgba(_, _, _, _) => PixelLayout::Rgba8,
        }
    }

    /// The channel at position `c`, in storage order.
    pub open spec fn channel(self, c: int) -> u8 {
        match self {
            Pixel::Gray(v) => v,
            Pixel::Rgb(r, g, b) => if c == 0 { r } else if c == 1 { g } else { b },
            Pixel::Rgba(r, g, b, a) => if c == 0 { r } else if c == 1 { g } else if c == 2 { b } else { a },
        }
    }

    /// Luma intensity, between 0 and 255: the sample itself for grayscale, the
    /// weighted colour channels otherwise. Alpha is ignored.
    pub open spec fn luma(self) -> int {
        match self {
            Pixel::Gray(v) => v as int,
            Pixel::Rgb(r, g, b) => srgb_luma(r as int, g as int, b as int),
            Pixel::Rgba(r, g, b, _) => srgb_luma(r as int, g as int, b as int),
        }
    }

    /// Darkness in 255ths: the complement of the luma intensity.
    pub open spec fn darkness(self) -> int {
        MAX_CHANNEL_VALUE - self.luma()
    }

    /// The background colour: every channel, alpha included, at its maximum.
    pub open spec fn spec_background(layout: PixelLayout) -> Pixel {
        match layout {
            PixelLayout::Gray8 => Pixel::Gray(MAX_CHANNEL_VALUE),
            PixelLayout::Rgb8 => Pixel::Rgb(MAX_CHANNEL_VALUE, MAX_CHANNEL_VALUE, MAX_CHANNEL_VALUE),
            PixelLayout::Rgba8 => Pixel::Rgba(
                MAX_CHANNEL_VALUE,
                MAX_CHANNEL_VALUE,
                MAX_CHANNEL_VALUE,
                MAX_CHANNEL_VALUE,
            ),
        }
    }

    /// The foreground colour: every colour channel at its minimum, alpha at its maximum.
    pub open spec fn spec_foreground(layout: PixelLayout) -> Pixel {
        match layout {
            PixelLayout::Gray8 => Pixel::Gray(MIN_CHANNEL_VALUE),
            PixelLayout::Rgb8 => Pixel::Rgb(MIN_CHANNEL_VALUE, MIN_CHANNEL_VALUE, MIN_CHANNEL_VALUE),
            PixelLayout::Rgba8 => Pixel::Rgba(
                MIN_CHANNEL_VALUE,
                MIN_CHANNEL_VALUE,
                MIN_CHANNEL_VALUE,
                MAX_CHANNEL_VALUE,
            ),
        }
    }

    /// The layout this pixel belongs to.
    pub fn get_layout(&self) -> (l: PixelLayout)
        ensures
            l == self.layout(),
    {
        match self {
            Pixel::Gray(_) => PixelLayout::Gray8,
            Pixel::Rgb(_, _, _) => PixelLayout::Rgb8,
            Pixel::Rgba(_, _, _, _) => PixelLayout::Rgba8,
        }
    }

    /// Luma intensity of the pixel.
    pub fn to_luma(&self) -> (l: u8)
        ensures
            l == self.luma(),
    {
        match *self {
            Pixel::Gray(v) => v,
            Pixel::Rgb(r, g, b) => rgb_to_luma(r, g, b),
            Pixel::Rgba(r, g, b, a) => rgba_to_luma(r, g, b, a),
        }
    }

    /// The background colour of a layout.
    pub fn background(layout: PixelLayout) -> (p: Pixel)
        ensures
            p == Pixel::spec_background(layout),
    {
        match layout {
            PixelLayout::Gray8 => Pixel::Gray(MAX_CHANNEL_VALUE),
            PixelLayout::Rgb8 => Pixel::Rgb(MAX_CHANNEL_VALUE, MAX_CHANNEL_VALUE, MAX_CHANNEL_VALUE),
            PixelLayout::Rgba8 => Pixel::Rgba(
                MAX_CHANNEL_VALUE,
                MAX_CHANNEL_VALUE,
                MAX_CHANNEL_VALUE,
                MAX_CHANNEL_VALUE,
            ),
        }
    }

    /// The foreground colour of a layout.
    pub fn foreground(layout: PixelLayout) -> (p: Pixel)
        ensures
            p == Pixel::spec_foreground(layout),
    {
        match layout {
            PixelLayout::Gray8 => Pixel::Gray(MIN_CHANNEL_VALUE),
            PixelLayout::Rgb8 => Pixel::Rgb(MIN_CHANNEL_VALUE, MIN_CHANNEL_VALUE, MIN_CHANNEL_VALUE),
            PixelLayout::Rgba8 => Pixel::Rgba(
                MIN_CHANNEL_VALUE,
                MIN_CHANNEL_VALUE,
                MIN_CHANNEL_VALUE,
                MAX_CHANNEL_VALUE,
            ),
        }
    }
}

/// Darkness of a pixel in 255ths: `255 - luma`.
pub fn darkness(p: Pixel) -> (d: u8)
    ensures
        d == p.darkness(),
        d == MAX_CHANNEL_VALUE - p.luma(),
{
    MAX_CHANNEL_VALUE - p.to_luma()
}

} // verus!
