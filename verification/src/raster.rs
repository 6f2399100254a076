//! Rasters: rectangular grids of pixels held as interleaved 8-bit samples.

use vstd::prelude::*;
use crate::pixel::{Pixel, PixelLayout, MAX_CHANNEL_VALUE};

verus! {

/// The mathematical content of a raster: its shape and its samples, row by
/// row, the channels of one pixel next to each other.
pub struct Canvas {
    pub width: nat,
    pub height: nat,
    pub layout: PixelLayout,
    pub samples: Seq<u8>,
}

impl Canvas {
    /// The samples are exactly those of `width * height` pixels.
    pub open spec fn wf(self) -> bool {
        self.samples.len() == self.width * self.height * self.layout.channels()
    }

    /// `(x, y)` names a pixel of the canvas.
    pub open spec fn contains(self, x: int, y: int) -> bool {
        0 <= x < self.width && 0 <= y < self.height
    }

    /// Position of the first sample of pixel `(x, y)`.
    pub open spec fn offset(self, x: int, y: int) -> int {
        (y * self.width + x) * self.layout.channels()
    }

    /// The pixel at `(x, y)`.
    pub open spec fn pixel(self, x: int, y: int) -> Pixel {
        let at = self.offset(x, y);
        match self.layout {
            PixelLayout::Gray8 => Pixel::Gray(self.samples[at]),
            PixelLayout::Rgb8 => Pixel::Rgb(self.samples[at], self.samples[at + 1], self.samples[at + 2]),
            PixelLayout::Rgba8 => Pixel::Rgba(
                self.samples[at],
                self.samples[at + 1],
                self.samples[at + 2],
                self.samples[at + 3],
            ),
        }
    }

    /// Darkness of the pixel at `(x, y)`, in 255ths.
    pub open spec fn darkness(self, x: int, y: int) -> int {
        self.pixel(x, y).darkness()
    }

    /// The canvas with the pixel at `(x, y)` replaced by `p`.
    pub open spec fn with_pixel(self, x: int, y: int, p: Pixel) -> Canvas {
        let at = self.offset(x, y);
        let channels = self.layout.channels() as int;
        Canvas {
            samples: Seq::new(
                self.samples.len(),
                |i: int| if at <= i < at + channels { p.channel(i - at) } else { self.samples[i] },
            ),
            ..self
        }
    }

    /// The canvas with every sample at the channel maximum.
    pub open spec fn cleared(self) -> Canvas {
        Canvas { samples: Seq::new(self.samples.len(), |i: int| MAX_CHANNEL_VALUE), ..self }
    }

    /// Column of the pixel that sample `s` belongs to.
    pub open spec fn sample_x(self, s: int) -> int {
        (s / (self.layout.channels() as int)) % (self.width as int)
    }

    /// Row of the pixel that sample `s` belongs to.
    pub open spec fn sample_y(self, s: int) -> int {
        (s / (self.layout.channels() as int)) / (self.width as int)
    }

    /// Channel of its pixel that sample `s` holds.
    pub open spec fn sample_channel(self, s: int) -> int {
        s % (self.layout.channels() as int)
    }

    /// Same width, height and layout.
    pub open spec fn same_shape(self, other: Canvas) -> bool {
        self.width == other.width && self.height == other.height && self.layout == other.layout
    }
}

/// The samples of a pixel inside the canvas lie inside the sample sequence.
pub proof fn lemma_offset_bounds(width: int, height: int, channels: int, x: int, y: int)
    requires
        0 <= x < width,
        0 <= y < height,
        0 < channels,
    ensures
        0 <= y * width <= y * width + x < width * height,
        0 <= (y * width + x) * channels,
        (y * width + x) * channels + channels <= width * height * channels,
{
    assert(0 <= y * width && y * width + width <= width * height) by (nonlinear_arith)
        requires
            0 <= y < height,
            0 < width,
    ;
    let p = y * width + x;
    let n = width * height;
    assert(0 <= p * channels && p * channels + channels <= n * channels) by (nonlinear_arith)
        requires
            0 <= p < n,
            0 < channels,
    ;
}

/// The samples of pixel `(x, y)` are exactly those whose position, divided
/// out by channels and width, gives back `x` and `y`.
pub proof fn lemma_sample_position(width: int, channels: int, x: int, y: int, s: int)
    requires
        0 <= x < width,
        0 <= y,
        0 < channels,
        0 <= s,
    ensures
        ((y * width + x) * channels <= s < (y * width + x) * channels + channels) <==> ((s / channels)
            % width == x && (s / channels) / width == y),
        ((y * width + x) * channels <= s < (y * width + x) * channels + channels) ==> s % channels == s
            - (y * width + x) * channels,
{
    let at = (y * width + x) * channels;
    let p = s / channels;
    let c = s % channels;
    vstd::arithmetic::div_mod::lemma_fundamental_div_mod(s, channels);
    vstd::arithmetic::div_mod::lemma_fundamental_div_mod(p, width);
    if at <= s < at + channels {
        vstd::arithmetic::div_mod::lemma_fundamental_div_mod_converse(s, channels, y * width + x, s - at);
        vstd::arithmetic::div_mod::lemma_fundamental_div_mod_converse(p, width, y, x);
    }
    if p % width == x && p / width == y {
        assert(p == y * width + x) by (nonlinear_arith)
            requires
                p == width * (p / width) + p % width,
                p % width == x,
                p / width == y,
        ;
        assert(at <= s < at + channels) by (nonlinear_arith)
            requires
                at == p * channels,
                s == channels * p + c,
                0 <= c < channels,
        ;
    }
}

/// A grid of pixels with 8-bit channels.
#[derive(Debug)]
pub struct Raster {
    width: u32,
    height: u32,
    layout: PixelLayout,
    data: Vec<u8>,
}

impl View for Raster {
    type V = Canvas;

    closed spec fn view(&self) -> Canvas {
        Canvas {
            width: self.width as nat,
            height: self.height as nat,
            layout: self.layout,
            samples: self.data@,
        }
    }
}

impl Raster {
    /// The raster holds exactly the samples of its pixels.
    pub open spec fn wf(&self) -> bool {
        &&& self@.wf()
        &&& self@.width <= u32::MAX
        &&& self@.height <= u32::MAX
        &&& self@.samples.len() <= usize::MAX
    }

    /// Number of samples of a raster of the given shape.
    pub open spec fn sample_count(width: u32, height: u32, layout: PixelLayout) -> nat {
        width as nat * height as nat * layout.channels()
    }

    /// Number of samples of a raster of the given shape.
    pub fn count_samples(width: u32, height: u32, layout: PixelLayout) -> (n: u128)
        ensures
            n == Raster::sample_count(width, height, layout),
    {
        let channels: usize = layout.channel_count();
        assert(0 <= width * height <= 0xFFFF_FFFE_0000_0001) by (nonlinear_arith)
            requires
                0 <= width <= 0xFFFF_FFFF,
                0 <= height <= 0xFFFF_FFFF,
        ;
        let pixels: u128 = width as u128 * height as u128;
        assert(pixels == width as nat * height as nat) by (nonlinear_arith)
            requires
                pixels == width * height,
        ;
        assert(0 <= pixels * channels <= 0xFFFF_FFFE_0000_0001 * 4) by (nonlinear_arith)
            requires
                0 <= pixels <= 0xFFFF_FFFE_0000_0001,
                0 <= channels <= 4,
        ;
        pixels * channels as u128
    }

    /// A raster of the given shape with every sample zero, or `None` when
    /// the samples would not fit in memory.
    pub fn new(width: u32, height: u32, layout: PixelLayout) -> (r: Option<Raster>)
        ensures
            r.is_some() <==> Raster::sample_count(width, height, layout) <= usize::MAX,
            r matches Some(raster) ==> raster.wf() && raster@ == (Canvas {
                width: width as nat,
                height: height as nat,
                layout: layout,
                samples: Seq::new(Raster::sample_count(width, height, layout), |i: int| 0u8),
            }),
    {
        let count: u128 = Raster::count_samples(width, height, layout);
        if count > usize::MAX as u128 {
            return None;
        }
        let data: Vec<u8> = vec![0u8; count as usize];
        assert(data@ =~= Seq::new(Raster::sample_count(width, height, layout), |i: int| 0u8));
        Some(Raster { width, height, layout, data })
    }

    /// A raster of the given shape over existing samples, or `None` when
    /// their number does not match the shape.
    pub fn from_raw(width: u32, height: u32, layout: PixelLayout, data: Vec<u8>) -> (r: Option<Raster>)
        ensures
            r.is_some() <==> data@.len() == Raster::sample_count(width, height, layout),
            r matches Some(raster) ==> raster.wf() && raster@ == (Canvas {
                width: width as nat,
                height: height as nat,
                layout: layout,
                samples: data@,
            }),
    {
        let count: u128 = Raster::count_samples(width, height, layout);
        if data.len() as u128 != count {
            return None;
        }
        Some(Raster { width, height, layout, data })
    }

    /// Width in pixels.
    pub fn width(&self) -> (w: u32)
        ensures
            w == self@.width,
    {
        self.width
    }

    /// Height in pixels.
    pub fn height(&self) -> (h: u32)
        ensures
            h == self@.height,
    {
        self.height
    }

    /// Layout of the pixels.
    pub fn layout(&self) -> (l: PixelLayout)
        ensures
            l == self@.layout,
    {
        self.layout
    }

    /// The samples, row by row.
    pub fn as_raw(&self) -> (samples: &Vec<u8>)
        ensures
            samples@ == self@.samples,
    {
        &self.data
    }

    /// Gives up the raster for its samples.
    pub fn into_raw(self) -> (samples: Vec<u8>)
        ensures
            samples@ == self@.samples,
    {
        self.data
    }

    /// Position of the first sample of pixel `(x, y)`.
    fn offset(&self, x: u32, y: u32) -> (at: usize)
        requires
            self.wf(),
            self@.contains(x as int, y as int),
        ensures
            at == self@.offset(x as int, y as int),
            at + self@.layout.channels() <= self@.samples.len(),
    {
        let channels: usize = self.layout.channel_count();
        proof {
            lemma_offset_bounds(
                self.width as int,
                self.height as int,
                channels as int,
                x as int,
                y as int,
            );
        }
        (y as usize * self.width as usize + x as usize) * channels
    }

    /// The pixel at `(x, y)`.
    pub fn get_pixel(&self, x: u32, y: u32) -> (p: Pixel)
        requires
            self.wf(),
            self@.contains(x as int, y as int),
        ensures
            p == self@.pixel(x as int, y as int),
            p.layout() == self@.layout,
    {
        let at: usize = self.offset(x, y);
        match self.layout {
            PixelLayout::Gray8 => Pixel::Gray(self.data[at]),
            PixelLayout::Rgb8 => Pixel::Rgb(self.data[at], self.data[at + 1], self.data[at + 2]),
            PixelLayout::Rgba8 => Pixel::Rgba(
                self.data[at],
                self.data[at + 1],
                self.data[at + 2],
                self.data[at + 3],
            ),
        }
    }

    /// Sets every sample to `value`.
    pub fn fill(&mut self, value: u8)
        requires
            old(self).wf(),
        ensures
            final(self).wf(),
            final(self)@ == (Canvas {
                samples: Seq::new(old(self)@.samples.len(), |i: int| value),
                ..old(self)@
            }),
    {
        let n: usize = self.data.len();
        let mut i: usize = 0;
        while i < n
            invariant
                i <= n,
                n == self.data@.len(),
                self.width == old(self).width,
                self.height == old(self).height,
                self.layout == old(self).layout,
                forall|k: int| 0 <= k < i ==> self.data@[k] == value,
            decreases n - i,
        {
            self.data[i] = value;
            i = i + 1;
        }
        assert(self.data@ =~= Seq::new(old(self)@.samples.len(), |i: int| value));
    }

    /// Replaces the pixel at `(x, y)`.
    pub fn put_pixel(&mut self, x: u32, y: u32, p: Pixel)
        requires
            old(self).wf(),
            old(self)@.contains(x as int, y as int),
            p.layout() == old(self)@.layout,
        ensures
            final(self).wf(),
            final(self)@ == old(self)@.with_pixel(x as int, y as int, p),
    {
        let at: usize = self.offset(x, y);
        match p {
            Pixel::Gray(v) => {
                self.data[at] = v;
            },
            Pixel::Rgb(r, g, b) => {
                self.data[at] = r;
                self.data[at + 1] = g;
                self.data[at + 2] = b;
            },
            Pixel::Rgba(r, g, b, a) => {
                self.data[at] = r;
                self.data[at + 1] = g;
                self.data[at + 2] = b;
                self.data[at + 3] = a;
            },
        }
        assert(self.data@ =~= old(self)@.with_pixel(x as int, y as int, p).samples);
    }
}

} // verus!
