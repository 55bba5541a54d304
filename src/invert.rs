use vstd::prelude::*;
use crate::grid::{Grid, Rgb16};

verus! {

/// The complement of every channel against 65535.
pub open spec fn inverted(p: Rgb16) -> Rgb16 {
    Rgb16 { r: (65535 - p.r) as u16, g: (65535 - p.g) as u16, b: (65535 - p.b) as u16 }
}

/// `r` has the dimensions of `img`, and each of its pixels is the inverted input pixel.
pub open spec fn is_inversion_of(r: Grid<Rgb16>, img: Grid<Rgb16>) -> bool {
    &&& r.width == img.width
    &&& r.height == img.height
    &&& r.pixels@.len() == img.pixels@.len()
    &&& forall|i: int| 0 <= i < r.pixels@.len() ==> #[trigger] r.pixels@[i] == inverted(img.pixels@[i])
}

/// Inverts every channel of every pixel: the output channel is `65535 - c`.
pub fn invert_colors(img: &Grid<Rgb16>) -> (r: Grid<Rgb16>)
    requires
        img.wf(),
    ensures
        r.wf(),
        is_inversion_of(r, *img),
        forall|i: int| 0 <= i < r.pixels@.len() ==> {
            &&& #[trigger] r.pixels@[i].r + img.pixels@[i].r == 65535
            &&& r.pixels@[i].g + img.pixels@[i].g == 65535
            &&& r.pixels@[i].b + img.pixels@[i].b == 65535
        },
{
    let n = img.pixels.len();
    let mut out: Vec<Rgb16> = Vec::with_capacity(n);
    let mut i: usize = 0;
    while i < n
        invariant
            n == img.pixels@.len(),
            i <= n,
            out@.len() == i,
            forall|j: int| 0 <= j < i ==> #[trigger] out@[j] == inverted(img.pixels@[j]),
        decreases n - i,
    {
        let p = img.pixels[i];
        out.push(Rgb16 { r: 65535 - p.r, g: 65535 - p.g, b: 65535 - p.b });
        i += 1;
    }
    Grid { width: img.width, height: img.height, pixels: out }
}

/// Inverting twice gives back the original grid.
pub proof fn lemma_invert_twice(img: Grid<Rgb16>, once: Grid<Rgb16>, twice: Grid<Rgb16>)
    requires
        img.wf(),
        is_inversion_of(once, img),
        is_inversion_of(twice, once),
    ensures
        twice.width == img.width,
        twice.height == img.height,
        twice.pixels@ == img.pixels@,
{
    assert(twice.pixels@ =~= img.pixels@);
}

} // verus!
