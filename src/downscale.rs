use vstd::prelude::*;
use crate::grid::{Grid, Rgb16, FilterError, index_of, lemma_index_in_bounds, lemma_index_roundtrip, lemma_position_cell};

verus! {

/// `r` is the nearest-neighbour reduction of `img` by `k`: it is
/// `(w / k) x (h / k)` and its pixel `(x, y)` is the input pixel `(x * k, y * k)`.
pub open spec fn is_downscale_of(r: Grid<Rgb16>, img: Grid<Rgb16>, k: int) -> bool {
    &&& r.wf()
    &&& r.width == img.width as int / k
    &&& r.height == img.height as int / k
    &&& forall|x: int, y: int| #[trigger] r.in_bounds(x, y) ==> r.at(x, y) == img.at(x * k, y * k)
}

/// A column below `w / k` lands inside `[0, w)` once scaled by `k`.
proof fn lemma_scaled_below(x: int, w: int, k: int)
    requires
        0 <= x < w / k,
        0 < k,
        0 <= w,
    ensures
        0 <= x * k < w,
{
    vstd::arithmetic::div_mod::lemma_fundamental_div_mod(w, k);
    assert(0 <= x * k < w) by (nonlinear_arith)
        requires 0 <= x < w / k, 0 < k, w == k * (w / k) + w % k, 0 <= w % k;
}

/// Nearest-neighbour downscale by an integer factor `k`: output pixel `(x, y)`
/// is input pixel `(x * k, y * k)`. A zero factor, or one that leaves no
/// whole row or column, is refused.
pub fn downscale(img: &Grid<Rgb16>, k: u32) -> (r: Result<Grid<Rgb16>, FilterError>)
    requires
        img.wf(),
    ensures
        k == 0 <==> r == Err::<Grid<Rgb16>, FilterError>(FilterError::ZeroScale),
        k > 0 && (img.width / k == 0 || img.height / k == 0)
            <==> r == Err::<Grid<Rgb16>, FilterError>(FilterError::EmptyOutput),
        k > 0 && img.width / k > 0 && img.height / k > 0 <==> r.is_ok(),
        r.is_ok() ==> is_downscale_of(r->Ok_0, *img, k as int),
{
    if k == 0 {
        return Err(FilterError::ZeroScale);
    }
    let ow = img.width / k;
    let oh = img.height / k;
    if ow == 0 || oh == 0 {
        return Err(FilterError::EmptyOutput);
    }
    let len = img.pixels.len();
    proof {
        assert(ow * oh <= img.width * img.height) by (nonlinear_arith)
            requires ow <= img.width, oh <= img.height, 0 <= ow, 0 <= oh;
    }
    let n: usize = ow as usize * oh as usize;
    let mut out: Vec<Rgb16> = Vec::with_capacity(n);
    let mut i: usize = 0;
    while i < n
        invariant
            img.wf(),
            0 < k,
            ow == img.width / k,
            oh == img.height / k,
            0 < ow,
            n == ow * oh,
            i <= n,
            out@.len() == i,
            forall|j: int| 0 <= j < i ==> #[trigger] out@[j] == img.at((j % ow as int) * k, (j / ow as int) * k),
        decreases n - i,
    {
        proof {
            lemma_position_cell(ow as int, oh as int, i as int);
        }
        let x: u32 = (i % ow as usize) as u32;
        let y: u32 = (i / ow as usize) as u32;
        proof {
            lemma_scaled_below(x as int, img.width as int, k as int);
            lemma_scaled_below(y as int, img.height as int, k as int);
        }
        let p = img.get(x * k, y * k);
        out.push(p);
        i += 1;
    }
    let r = Grid { width: ow, height: oh, pixels: out };
    proof {
        assert forall|x: int, y: int| #[trigger] r.in_bounds(x, y) implies r.at(x, y) == img.at(x * k, y * k) by {
            lemma_index_in_bounds(ow as int, oh as int, x, y);
            lemma_index_roundtrip(ow as int, x, y);
            let j = index_of(ow as int, x, y);
            assert(out@[j] == img.at((j % ow as int) * k, (j / ow as int) * k));
        }
    }
    Ok(r)
}

} // verus!
