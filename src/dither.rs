use vstd::prelude::*;
use crate::grid::{Grid, Rgb8, luma, luminance, index_of, lemma_index_in_bounds, lemma_index_roundtrip, lemma_position_cell};

verus! {

/// The 4 x 4 ordered-dither matrix, row-major.
pub open spec fn dither_matrix() -> Seq<int> {
    seq![0, 8, 2, 10, 12, 4, 14, 6, 3, 11, 1, 9, 15, 7, 13, 5]
}

/// Threshold at cell `(x, y)`: the matrix entry at `(x mod 4, y mod 4)` times 16.
pub open spec fn threshold(x: int, y: int) -> int {
    dither_matrix()[(y % 4) * 4 + x % 4] * 16
}

/// Black where the pixel's brightness is below the cell's threshold, else white.
pub open spec fn dithered(p: Rgb8, x: int, y: int) -> u8 {
    if luma(p) < threshold(x, y) { 0 } else { 255 }
}

/// `r` is the ordered dither of `img`.
pub open spec fn is_dither_of(r: Grid<u8>, img: Grid<Rgb8>) -> bool {
    &&& r.wf()
    &&& r.width == img.width
    &&& r.height == img.height
    &&& forall|x: int, y: int| #[trigger] r.in_bounds(x, y) ==> r.at(x, y) == dithered(img.at(x, y), x, y)
}

/// The dither threshold of cell `(x, y)`, in `[0, 240]`.
pub fn dither_threshold(x: u32, y: u32) -> (r: u8)
    ensures
        r == threshold(x as int, y as int),
{
    let m: [u8; 16] = [0, 8, 2, 10, 12, 4, 14, 6, 3, 11, 1, 9, 15, 7, 13, 5];
    proof {
        assert(m@ =~= dither_matrix().map_values(|v: int| v as u8));
    }
    let idx = ((y % 4) * 4 + x % 4) as usize;
    m[idx] * 16
}

/// Ordered dithering to black and white: a pixel becomes black when its
/// brightness proxy is below the 4 x 4 matrix threshold of its cell, white otherwise.
pub fn dither(img: &Grid<Rgb8>) -> (r: Grid<u8>)
    requires
        img.wf(),
    ensures
        is_dither_of(r, *img),
        forall|x: int, y: int| #[trigger] r.in_bounds(x, y) ==> r.at(x, y) == 0 || r.at(x, y) == 255,
{
    let w = img.width;
    let h = img.height;
    let n = img.pixels.len();
    let mut out: Vec<u8> = Vec::with_capacity(n);
    let mut i: usize = 0;
    while i < n
        invariant
            img.wf(),
            w == img.width,
            h == img.height,
            n == w * h,
            i <= n,
            out@.len() == i,
            forall|j: int| 0 <= j < i ==> #[trigger] out@[j] == dithered(img.pixels@[j], j % w as int, j / w as int),
        decreases n - i,
    {
        proof {
            lemma_position_cell(w as int, h as int, i as int);
        }
        let x: u32 = (i % w as usize) as u32;
        let y: u32 = (i / w as usize) as u32;
        let v = luminance(img.pixels[i]);
        if v < dither_threshold(x, y) {
            out.push(0);
        } else {
            out.push(255);
        }
        i += 1;
    }
    let r = Grid { width: w, height: h, pixels: out };
    proof {
        assert forall|x: int, y: int| #[trigger] r.in_bounds(x, y) implies r.at(x, y) == dithered(img.at(x, y), x, y) by {
            lemma_index_in_bounds(w as int, h as int, x, y);
            lemma_index_roundtrip(w as int, x, y);
            assert(out@[index_of(w as int, x, y)] == dithered(img.pixels@[index_of(w as int, x, y)], x, y));
        }
    }
    r
}

/// Dithering a uniform grid: a colour brighter than every threshold gives an
/// all-white result; a colour of brightness zero gives black in every cell
/// whose threshold is positive, that is every cell but those at `(x, y)` with
/// `x` and `y` both multiples of 4.
pub proof fn lemma_dither_uniform(img: Grid<Rgb8>, r: Grid<u8>, c: Rgb8)
    requires
        img.wf(),
        forall|i: int| 0 <= i < img.pixels@.len() ==> #[trigger] img.pixels@[i] == c,
        is_dither_of(r, img),
    ensures
        luma(c) > 240 ==> forall|x: int, y: int| #[trigger] r.in_bounds(x, y) ==> r.at(x, y) == 255,
        luma(c) == 0 ==> forall|x: int, y: int|
            #[trigger] r.in_bounds(x, y) && !(x % 4 == 0 && y % 4 == 0) ==> r.at(x, y) == 0,
{
    assert forall|x: int, y: int| #[trigger] r.in_bounds(x, y) implies img.at(x, y) == c
        && 0 <= threshold(x, y) <= 240
        && (!(x % 4 == 0 && y % 4 == 0) ==> threshold(x, y) > 0) by {
        lemma_index_in_bounds(img.width as int, img.height as int, x, y);
        let m = dither_matrix();
        assert(m[0] == 0 && m[1] == 8 && m[2] == 2 && m[3] == 10 && m[4] == 12 && m[5] == 4
            && m[6] == 14 && m[7] == 6 && m[8] == 3 && m[9] == 11 && m[10] == 1 && m[11] == 9
            && m[12] == 15 && m[13] == 7 && m[14] == 13 && m[15] == 5);
    }
}

} // verus!
