use vstd::prelude::*;
use crate::grid::{Grid, Rgb8, luma, luminance, index_of, lemma_index_in_bounds, lemma_index_roundtrip, lemma_position_cell};

verus! {

/// The Sobel kernel `[[-1, 0, 1], [-2, 0, 2], [-1, 0, 1]]`, indexed by
/// `i * 3 + j` for column offset `i - 1` and row offset `j - 1`. With that
/// indexing it weighs the row below against the row above, so it measures
/// the vertical change.
pub open spec fn kernel_x() -> Seq<int> {
    seq![-1, 0, 1, -2, 0, 2, -1, 0, 1]
}

/// The Sobel kernel `[[-1, -2, -1], [0, 0, 0], [1, 2, 1]]`, indexed as
/// [`kernel_x`]; it weighs the column to the right against the column to the
/// left, so it measures the horizontal change.
pub open spec fn kernel_y() -> Seq<int> {
    seq![-1, -2, -1, 0, 0, 0, 1, 2, 1]
}

/// The grey value that the neighbourhood of `(x, y)` contributes at offset
/// `(i - 1, j - 1)`: zero on the first row or column, and zero where the
/// neighbour would lie past the last row or column.
pub open spec fn sample(g: Grid<u8>, x: int, y: int, i: int, j: int) -> int {
    if x != 0 && y != 0 && x + i - 1 < g.width && y + j - 1 < g.height {
        g.at(x + i - 1, y + j - 1) as int
    } else {
        0
    }
}

pub open spec fn kernel_row(g: Grid<u8>, x: int, y: int, kern: Seq<int>, i: int) -> int {
    kern[i * 3] * sample(g, x, y, i, 0) + kern[i * 3 + 1] * sample(g, x, y, i, 1)
        + kern[i * 3 + 2] * sample(g, x, y, i, 2)
}

/// The 3 x 3 convolution of the neighbourhood of `(x, y)` with `kern`.
pub open spec fn convolve(g: Grid<u8>, x: int, y: int, kern: Seq<int>) -> int {
    kernel_row(g, x, y, kern, 0) + kernel_row(g, x, y, kern, 1) + kernel_row(g, x, y, kern, 2)
}

pub open spec fn is_floor_sqrt(s: int, n: int) -> bool {
    0 <= s && s * s <= n < (s + 1) * (s + 1)
}

/// The integer part of the square root of `n`.
pub open spec fn floor_sqrt(n: int) -> int {
    choose|s: int| is_floor_sqrt(s, n)
}

/// Gradient magnitude at `(x, y)`, its integer part kept modulo 256.
pub open spec fn edge_value(g: Grid<u8>, x: int, y: int) -> u8 {
    let gx = convolve(g, x, y, kernel_x());
    let gy = convolve(g, x, y, kernel_y());
    (floor_sqrt(gx * gx + gy * gy) % 256) as u8
}

/// `r` is the grey-level reduction of `img`.
pub open spec fn is_grayscale_of(r: Grid<u8>, img: Grid<Rgb8>) -> bool {
    &&& r.wf()
    &&& r.width == img.width
    &&& r.height == img.height
    &&& forall|x: int, y: int| #[trigger] r.in_bounds(x, y) ==> r.at(x, y) == luma(img.at(x, y))
}

/// `r` is the Sobel edge map of the grey-level reduction `g`.
pub open spec fn is_edge_map_of(r: Grid<u8>, g: Grid<u8>) -> bool {
    &&& r.wf()
    &&& r.width == g.width
    &&& r.height == g.height
    &&& forall|x: int, y: int| #[trigger] r.in_bounds(x, y) ==> r.at(x, y) == edge_value(g, x, y)
}

/// Two floor square roots of the same number agree.
pub proof fn lemma_floor_sqrt_unique(a: int, b: int, n: int)
    requires
        is_floor_sqrt(a, n),
        is_floor_sqrt(b, n),
    ensures
        a == b,
{
    if a < b {
        assert((a + 1) * (a + 1) <= b * b) by (nonlinear_arith)
            requires 0 <= a, a + 1 <= b;
    } else if b < a {
        assert((b + 1) * (b + 1) <= a * a) by (nonlinear_arith)
            requires 0 <= b, b + 1 <= a;
    }
}

/// Every natural number has a floor square root.
pub proof fn lemma_floor_sqrt_exists(n: int)
    requires
        0 <= n,
    ensures
        is_floor_sqrt(floor_sqrt(n), n),
    decreases n,
{
    if n == 0 {
        assert(is_floor_sqrt(0, 0));
    } else {
        lemma_floor_sqrt_exists(n - 1);
        let s = floor_sqrt(n - 1);
        if (s + 1) * (s + 1) <= n {
            assert(n < (s + 2) * (s + 2)) by (nonlinear_arith)
                requires n - 1 < (s + 1) * (s + 1), 0 <= s;
            assert(is_floor_sqrt(s + 1, n));
        } else {
            assert(is_floor_sqrt(s, n));
        }
    }
}

/// Floor of the square root, by bisection.
pub fn isqrt(n: u32) -> (r: u32)
    ensures
        is_floor_sqrt(r as int, n as int),
        r == floor_sqrt(n as int),
{
    let n64: u64 = n as u64;
    let mut lo: u64 = 0;
    let mut hi: u64 = 65536;
    while hi - lo > 1
        invariant
            lo < hi <= 65536,
            lo * lo <= n64,
            n64 < hi * hi,
            n64 == n,
        decreases hi - lo,
    {
        let mid = lo + (hi - lo) / 2;
        proof {
            assert(mid * mid <= 65536 * 65536) by (nonlinear_arith)
                requires mid <= 65536, 0 <= mid;
        }
        if mid * mid <= n64 {
            lo = mid;
        } else {
            hi = mid;
        }
    }
    proof {
        assert(is_floor_sqrt(lo as int, n as int));
        lemma_floor_sqrt_unique(lo as int, floor_sqrt(n as int), n as int);
    }
    lo as u32
}

/// Reduces an 8-bit RGB grid to grey levels with the brightness proxy
/// `(r + g + b) * 255 / 765`.
pub fn to_grayscale(img: &Grid<Rgb8>) -> (r: Grid<u8>)
    requires
        img.wf(),
    ensures
        is_grayscale_of(r, *img),
{
    let n = img.pixels.len();
    let mut out: Vec<u8> = Vec::with_capacity(n);
    let mut i: usize = 0;
    while i < n
        invariant
            n == img.pixels@.len(),
            i <= n,
            out@.len() == i,
            forall|j: int| 0 <= j < i ==> #[trigger] out@[j] == luma(img.pixels@[j]),
        decreases n - i,
    {
        out.push(luminance(img.pixels[i]));
        i += 1;
    }
    let r = Grid { width: img.width, height: img.height, pixels: out };
    proof {
        assert forall|x: int, y: int| #[trigger] r.in_bounds(x, y) implies r.at(x, y) == luma(img.at(x, y)) by {
            lemma_index_in_bounds(r.width as int, r.height as int, x, y);
        }
    }
    r
}

fn sample_at(g: &Grid<u8>, x: u32, y: u32, i: u32, j: u32) -> (r: i32)
    requires
        g.wf(),
        g.in_bounds(x as int, y as int),
        i < 3,
        j < 3,
    ensures
        r == sample(*g, x as int, y as int, i as int, j as int),
        0 <= r <= 255,
{
    if x != 0 && y != 0 && (x as u64 + i as u64 - 1) < g.width as u64 && (y as u64 + j as u64 - 1)
        < g.height as u64 {
        g.get(x + i - 1, y + j - 1) as i32
    } else {
        0
    }
}

proof fn lemma_row(g: Grid<u8>, x: int, y: int, kern: Seq<int>, i: int, a: int, b: int, c: int)
    requires
        kern[i * 3] == a,
        kern[i * 3 + 1] == b,
        kern[i * 3 + 2] == c,
    ensures
        kernel_row(g, x, y, kern, i) == a * sample(g, x, y, i, 0) + b * sample(g, x, y, i, 1) + c
            * sample(g, x, y, i, 2),
{
}

/// The two convolutions written out over the eight samples with non-zero weight.
proof fn lemma_convolutions(g: Grid<u8>, x: int, y: int)
    ensures
        convolve(g, x, y, kernel_x()) == -sample(g, x, y, 0, 0) + sample(g, x, y, 0, 2) - 2 * sample(
            g, x, y, 1, 0) + 2 * sample(g, x, y, 1, 2) - sample(g, x, y, 2, 0) + sample(g, x, y, 2, 2),
        convolve(g, x, y, kernel_y()) == -sample(g, x, y, 0, 0) - 2 * sample(g, x, y, 0, 1) - sample(
            g, x, y, 0, 2) + sample(g, x, y, 2, 0) + 2 * sample(g, x, y, 2, 1) + sample(g, x, y, 2, 2),
{
    let kx = kernel_x();
    let ky = kernel_y();
    assert(kx[0] == -1 && kx[1] == 0 && kx[2] == 1 && kx[3] == -2 && kx[4] == 0 && kx[5] == 2
        && kx[6] == -1 && kx[7] == 0 && kx[8] == 1);
    assert(ky[0] == -1 && ky[1] == -2 && ky[2] == -1 && ky[3] == 0 && ky[4] == 0 && ky[5] == 0
        && ky[6] == 1 && ky[7] == 2 && ky[8] == 1);
    lemma_row(g, x, y, kx, 0, -1, 0, 1);
    lemma_row(g, x, y, kx, 1, -2, 0, 2);
    lemma_row(g, x, y, kx, 2, -1, 0, 1);
    lemma_row(g, x, y, ky, 0, -1, -2, -1);
    lemma_row(g, x, y, ky, 1, 0, 0, 0);
    lemma_row(g, x, y, ky, 2, 1, 2, 1);
}

/// Sobel gradient magnitude at `(x, y)` of a grey-level grid.
pub fn edge_at(g: &Grid<u8>, x: u32, y: u32) -> (r: u8)
    requires
        g.wf(),
        g.in_bounds(x as int, y as int),
    ensures
        r == edge_value(*g, x as int, y as int),
{
    let s00 = sample_at(g, x, y, 0, 0);
    let s01 = sample_at(g, x, y, 0, 1);
    let s02 = sample_at(g, x, y, 0, 2);
    let s10 = sample_at(g, x, y, 1, 0);
    let s12 = sample_at(g, x, y, 1, 2);
    let s20 = sample_at(g, x, y, 2, 0);
    let s21 = sample_at(g, x, y, 2, 1);
    let s22 = sample_at(g, x, y, 2, 2);
    let gx: i32 = -s00 + s02 - 2 * s10 + 2 * s12 - s20 + s22;
    let gy: i32 = -s00 - 2 * s01 - s02 + s20 + 2 * s21 + s22;
    proof {
        lemma_convolutions(*g, x as int, y as int);
    }
    magnitude(gx, gy)
}

/// Integer part of the length of the gradient `(gx, gy)`, kept modulo 256.
pub fn magnitude(gx: i32, gy: i32) -> (r: u8)
    requires
        -1020 <= gx <= 1020,
        -1020 <= gy <= 1020,
    ensures
        r == (floor_sqrt(gx * gx + gy * gy) % 256) as u8,
{
    proof {
        assert(0 <= gx * gx <= 1020 * 1020 && 0 <= gy * gy <= 1020 * 1020) by (nonlinear_arith)
            requires -1020 <= gx <= 1020, -1020 <= gy <= 1020;
    }
    let n: u32 = (gx * gx + gy * gy) as u32;
    let m = isqrt(n);
    (m % 256) as u8
}

/// Sobel edge map of a grey-level grid.
pub fn edge_map(g: &Grid<u8>) -> (r: Grid<u8>)
    requires
        g.wf(),
    ensures
        is_edge_map_of(r, *g),
{
    let w = g.width;
    let h = g.height;
    let n = g.pixels.len();
    let mut out: Vec<u8> = Vec::with_capacity(n);
    let mut i: usize = 0;
    while i < n
        invariant
            g.wf(),
            w == g.width,
            h == g.height,
            n == w * h,
            i <= n,
            out@.len() == i,
            forall|j: int| 0 <= j < i ==> #[trigger] out@[j] == edge_value(*g, j % w as int, j / w as int),
        decreases n - i,
    {
        proof {
            lemma_position_cell(w as int, h as int, i as int);
        }
        let x: u32 = (i % w as usize) as u32;
        let y: u32 = (i / w as usize) as u32;
        out.push(edge_at(g, x, y));
        i += 1;
    }
    let r = Grid { width: w, height: h, pixels: out };
    proof {
        assert forall|x: int, y: int| #[trigger] r.in_bounds(x, y) implies r.at(x, y) == edge_value(*g, x, y) by {
            lemma_index_in_bounds(w as int, h as int, x, y);
            lemma_index_roundtrip(w as int, x, y);
            assert(out@[index_of(w as int, x, y)] == edge_value(*g, x, y));
        }
    }
    r
}

/// Sobel edge detection: reduces `img` to grey levels, then gives each cell
/// the gradient magnitude of its 3 x 3 neighbourhood.
pub fn sobel(img: &Grid<Rgb8>) -> (r: Grid<u8>)
    requires
        img.wf(),
    ensures
        exists|g: Grid<u8>| is_grayscale_of(g, *img) && is_edge_map_of(r, g),
{
    let g = to_grayscale(img);
    let r = edge_map(&g);
    r
}

/// At the bottom-right corner of a uniform grid of grey level `v` both
/// gradients are `-3 v`; for `v` in `1..=255` the integer part of their
/// length is never a multiple of 256.
proof fn lemma_corner_nonzero(v: int)
    requires
        1 <= v <= 255,
    ensures
        floor_sqrt(18 * v * v) % 256 != 0,
{
    let n = 18 * v * v;
    assert(18 <= n <= 1170450) by (nonlinear_arith)
        requires 1 <= v <= 255, n == 18 * v * v;
    lemma_floor_sqrt_exists(n);
    let s = floor_sqrt(n);
    assert(1 <= s < 1082) by (nonlinear_arith)
        requires 0 <= s, s * s <= n, n < (s + 1) * (s + 1), 18 <= n <= 1170450;
    if s % 256 == 0 {
        vstd::arithmetic::div_mod::lemma_fundamental_div_mod(s, 256);
        let q = s / 256;
        assert(1 <= q <= 4);
        if q == 1 {
            assert(s == 256);
            assert(s * s == 65536 && (s + 1) * (s + 1) == 66049) by (nonlinear_arith)
                requires s == 256;
            if v <= 60 {
                assert(n <= 64800) by (nonlinear_arith) requires 1 <= v <= 60, n == 18 * v * v;
            } else {
                assert(n >= 66978) by (nonlinear_arith) requires v >= 61, n == 18 * v * v;
            }
        } else if q == 2 {
            assert(s == 512);
            assert(s * s == 262144 && (s + 1) * (s + 1) == 263169) by (nonlinear_arith)
                requires s == 512;
            if v <= 120 {
                assert(n <= 259200) by (nonlinear_arith) requires 1 <= v <= 120, n == 18 * v * v;
            } else {
                assert(n >= 263538) by (nonlinear_arith) requires v >= 121, n == 18 * v * v;
            }
        } else if q == 3 {
            assert(s == 768);
            assert(s * s == 589824 && (s + 1) * (s + 1) == 591361) by (nonlinear_arith)
                requires s == 768;
            if v <= 181 {
                assert(n <= 589698) by (nonlinear_arith) requires 1 <= v <= 181, n == 18 * v * v;
            } else {
                assert(n >= 596232) by (nonlinear_arith) requires v >= 182, n == 18 * v * v;
            }
        } else {
            assert(s == 1024);
            assert(s * s == 1048576 && (s + 1) * (s + 1) == 1050625) by (nonlinear_arith)
                requires s == 1024;
            if v <= 241 {
                assert(n <= 1045458) by (nonlinear_arith) requires 1 <= v <= 241, n == 18 * v * v;
            } else {
                assert(n >= 1054152) by (nonlinear_arith) requires v >= 242, n == 18 * v * v;
            }
        }
    }
}

/// Edge detection on a uniform grid gives an all-black map exactly when its
/// grey level is 0 or the grid is one pixel wide or one pixel tall.
pub proof fn lemma_sobel_uniform_black(img: Grid<Rgb8>, r: Grid<u8>, c: Rgb8)
    requires
        img.wf(),
        forall|i: int| 0 <= i < img.pixels@.len() ==> #[trigger] img.pixels@[i] == c,
        exists|g: Grid<u8>| is_grayscale_of(g, img) && is_edge_map_of(r, g),
    ensures
        (forall|x: int, y: int| #[trigger] r.in_bounds(x, y) ==> r.at(x, y) == 0)
            <==> (luma(c) == 0 || img.width == 1 || img.height == 1),
{
    let g = choose|g: Grid<u8>| is_grayscale_of(g, img) && is_edge_map_of(r, g);
    assert forall|a: int, b: int| #[trigger] g.in_bounds(a, b) implies g.at(a, b) == luma(c) by {
        lemma_index_in_bounds(img.width as int, img.height as int, a, b);
    }
    assert(is_floor_sqrt(0, 0));
    lemma_floor_sqrt_unique(0, floor_sqrt(0), 0);
    if luma(c) == 0 || img.width == 1 || img.height == 1 {
        assert forall|x: int, y: int| #[trigger] r.in_bounds(x, y) implies r.at(x, y) == 0 by {
            lemma_convolutions(g, x, y);
            assert forall|i: int, j: int| 0 <= i < 3 && 0 <= j < 3 implies #[trigger] sample(g, x, y, i, j) == 0 by {
                if x != 0 && y != 0 && x + i - 1 < g.width && y + j - 1 < g.height {
                    assert(g.in_bounds(x + i - 1, y + j - 1));
                }
            }
            assert(sample(g, x, y, 0, 0) == 0 && sample(g, x, y, 0, 1) == 0 && sample(g, x, y, 0, 2) == 0);
            assert(sample(g, x, y, 1, 0) == 0 && sample(g, x, y, 1, 2) == 0);
            assert(sample(g, x, y, 2, 0) == 0 && sample(g, x, y, 2, 1) == 0 && sample(g, x, y, 2, 2) == 0);
            assert(convolve(g, x, y, kernel_x()) == 0);
            assert(convolve(g, x, y, kernel_y()) == 0);
        }
    } else {
        let x = img.width - 1;
        let y = img.height - 1;
        let v = luma(c);
        assert(g.in_bounds(x - 1, y - 1) && g.in_bounds(x - 1, y) && g.in_bounds(x, y - 1) && g.in_bounds(x, y));
        assert(r.in_bounds(x, y));
        lemma_convolutions(g, x, y);
        assert(convolve(g, x, y, kernel_x()) == -3 * v);
        assert(convolve(g, x, y, kernel_y()) == -3 * v);
        assert((-3 * v) * (-3 * v) + (-3 * v) * (-3 * v) == 18 * v * v) by (nonlinear_arith);
        lemma_corner_nonzero(v);
        assert(r.at(x, y) != 0);
    }
}

/// A uniform grid has no edges: in the Sobel map of a grid whose pixels all
/// have one colour, every cell on the first row or column is 0, and so is
/// every cell whose whole 3 x 3 neighbourhood lies inside the grid.
pub proof fn lemma_sobel_uniform(img: Grid<Rgb8>, r: Grid<u8>, c: Rgb8)
    requires
        img.wf(),
        forall|i: int| 0 <= i < img.pixels@.len() ==> #[trigger] img.pixels@[i] == c,
        exists|g: Grid<u8>| is_grayscale_of(g, img) && is_edge_map_of(r, g),
    ensures
        forall|x: int, y: int|
            #[trigger] r.in_bounds(x, y) && (x == 0 || y == 0 || (x + 1 < r.width && y + 1 < r.height))
                ==> r.at(x, y) == 0,
{
    let g = choose|g: Grid<u8>| is_grayscale_of(g, img) && is_edge_map_of(r, g);
    assert forall|a: int, b: int| #[trigger] g.in_bounds(a, b) implies g.at(a, b) == luma(c) by {
        lemma_index_in_bounds(img.width as int, img.height as int, a, b);
    }
    assert(is_floor_sqrt(0, 0));
    lemma_floor_sqrt_unique(0, floor_sqrt(0), 0);
    assert forall|x: int, y: int|
        #[trigger] r.in_bounds(x, y) && (x == 0 || y == 0 || (x + 1 < r.width && y + 1 < r.height))
            implies r.at(x, y) == 0 by {
        lemma_convolutions(g, x, y);
        if x != 0 && y != 0 {
            assert(g.in_bounds(x - 1, y - 1) && g.in_bounds(x - 1, y) && g.in_bounds(x - 1, y + 1));
            assert(g.in_bounds(x, y - 1) && g.in_bounds(x, y + 1));
            assert(g.in_bounds(x + 1, y - 1) && g.in_bounds(x + 1, y) && g.in_bounds(x + 1, y + 1));
        }
        assert(convolve(g, x, y, kernel_x()) == 0);
        assert(convolve(g, x, y, kernel_y()) == 0);
    }
}

} // verus!
