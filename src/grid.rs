use vstd::prelude::*;
use vstd::arithmetic::div_mod::lemma_fundamental_div_mod_converse;

verus! {

/// A 16-bit-per-channel RGB pixel.
#[derive(Clone, Copy, Debug, PartialEq, Eq, Structural)]
pub struct Rgb16 {
    pub r: u16,
    pub g: u16,
    pub b: u16,
}

/// An 8-bit-per-channel RGB pixel.
#[derive(Clone, Copy, Debug, PartialEq, Eq, Structural)]
pub struct Rgb8 {
    pub r: u8,
    pub g: u8,
    pub b: u8,
}

/// Why a filter or a grid constructor refused its input.
#[derive(Clone, Copy, Debug, PartialEq, Eq, Structural)]
pub enum FilterError {
    /// The scale factor was zero.
    ZeroScale,
    /// The output would have zero width or zero height.
    EmptyOutput,
    /// The output dimensions do not fit in memory-addressable sizes.
    TooLarge,
    /// The pixel buffer does not match the stated dimensions, or a dimension is zero.
    BadDimensions,
}

/// A `width` x `height` grid of pixels stored row-major: the pixel at
/// column `x`, row `y` is `pixels[y * width + x]`.
#[derive(Debug)]
pub struct Grid<P> {
    pub width: u32,
    pub height: u32,
    pub pixels: Vec<P>,
}

/// Row-major position of `(x, y)` in a grid of width `w`.
pub open spec fn index_of(w: int, x: int, y: int) -> int {
    y * w + x
}

impl<P> Grid<P> {
    /// Both dimensions are positive and the buffer holds exactly one pixel per cell.
    pub open spec fn wf(&self) -> bool {
        &&& self.width > 0
        &&& self.height > 0
        &&& self.pixels@.len() == self.width * self.height
    }

    pub open spec fn in_bounds(&self, x: int, y: int) -> bool {
        0 <= x < self.width && 0 <= y < self.height
    }

    /// The pixel at column `x`, row `y`.
    pub open spec fn at(&self, x: int, y: int) -> P {
        self.pixels@[index_of(self.width as int, x, y)]
    }

    /// Builds a grid from its dimensions and a row-major pixel buffer.
    pub fn from_pixels(width: u32, height: u32, pixels: Vec<P>) -> (r: Result<Grid<P>, FilterError>)
        ensures
            width > 0 && height > 0 && pixels@.len() == width * height <==> r.is_ok(),
            r.is_ok() ==> (r->Ok_0.width == width && r->Ok_0.height == height
                && r->Ok_0.pixels@ == pixels@ && r->Ok_0.wf()),
            r.is_err() ==> r->Err_0 == FilterError::BadDimensions,
    {
        if width == 0 || height == 0 {
            return Err(FilterError::BadDimensions);
        }
        proof {
            assert(width * height <= u32::MAX * u32::MAX) by (nonlinear_arith)
                requires width <= u32::MAX, height <= u32::MAX, 0 <= width, 0 <= height;
        }
        let n: u64 = width as u64 * height as u64;
        if n != pixels.len() as u64 {
            Err(FilterError::BadDimensions)
        } else {
            Ok(Grid { width, height, pixels })
        }
    }

    pub fn width(&self) -> (r: u32)
        ensures
            r == self.width,
    {
        self.width
    }

    pub fn height(&self) -> (r: u32)
        ensures
            r == self.height,
    {
        self.height
    }
}

impl<P: Copy> Grid<P> {
    /// The pixel at column `x`, row `y`.
    pub fn get(&self, x: u32, y: u32) -> (r: P)
        requires
            self.wf(),
            self.in_bounds(x as int, y as int),
        ensures
            r == self.at(x as int, y as int),
    {
        let len = self.pixels.len();
        proof {
            lemma_index_in_bounds(self.width as int, self.height as int, x as int, y as int);
            assert(y * self.width <= len) by (nonlinear_arith)
                requires y < self.height, len == self.width * self.height, 0 <= y, 0 <= self.width;
        }
        self.pixels[y as usize * self.width as usize + x as usize]
    }
}

/// A cell inside a `w` x `h` grid has a row-major position inside the buffer.
pub proof fn lemma_index_in_bounds(w: int, h: int, x: int, y: int)
    requires
        0 <= x < w,
        0 <= y < h,
    ensures
        0 <= index_of(w, x, y) < w * h,
        y * w <= index_of(w, x, y),
{
    assert(0 <= y * w) by (nonlinear_arith)
        requires 0 <= y, 0 <= w;
    assert(y * w + x < w * h) by (nonlinear_arith)
        requires 0 <= x < w, 0 <= y < h;
}

/// Row-major position `i` in a grid of width `w` is the cell `(i % w, i / w)`.
pub proof fn lemma_index_roundtrip(w: int, x: int, y: int)
    requires
        0 <= x < w,
        0 <= y,
    ensures
        index_of(w, x, y) % w == x,
        index_of(w, x, y) / w == y,
{
    lemma_fundamental_div_mod_converse(index_of(w, x, y), w, y, x);
}

/// Every position `i` of a `w` x `h` buffer is the cell `(i % w, i / w)`,
/// which lies inside the grid.
pub proof fn lemma_position_cell(w: int, h: int, i: int)
    requires
        0 < w,
        0 <= i < w * h,
    ensures
        0 <= i % w < w,
        0 <= i / w < h,
        index_of(w, i % w, i / w) == i,
{
    vstd::arithmetic::div_mod::lemma_fundamental_div_mod(i, w);
    assert(i / w >= 0) by (nonlinear_arith)
        requires 0 <= i, 0 < w, i == w * (i / w) + i % w, 0 <= i % w < w;
    assert(i / w < h) by (nonlinear_arith)
        requires 0 <= i < w * h, 0 < w, i == w * (i / w) + i % w, 0 <= i % w < w;
    assert(index_of(w, i % w, i / w) == i) by (nonlinear_arith)
        requires i == w * (i / w) + i % w;
}

} // verus!

verus! {

/// Brightness proxy of an 8-bit RGB pixel: the channel sum scaled into `[0, 255]`.
pub open spec fn luma(p: Rgb8) -> int {
    (p.r + p.g + p.b) * 255 / 765
}

/// Brightness proxy of an 8-bit RGB pixel: `(r + g + b) * 255 / 765`.
pub fn luminance(p: Rgb8) -> (r: u8)
    ensures
        r == luma(p),
{
    let sum: u32 = p.r as u32 + p.g as u32 + p.b as u32;
    ((sum * 255) / 765) as u8
}

} // verus!
