use vstd::prelude::*;
use vstd::arithmetic::div_mod::{lemma_fundamental_div_mod, lemma_fundamental_div_mod_converse};
use crate::downscale::is_downscale_of;
use crate::grid::{Grid, Rgb16, FilterError, index_of, lemma_index_in_bounds, lemma_index_roundtrip, lemma_position_cell};

verus! {

pub open spec fn is_black(p: Rgb16) -> bool {
    p.r == 0 && p.g == 0 && p.b == 0
}

/// The colour an input pixel takes at its anchor: pure black becomes
/// `(1, 1, 1)` so that it cannot be mistaken for an unfilled cell.
pub open spec fn anchor_color(p: Rgb16) -> Rgb16 {
    if is_black(p) { Rgb16 { r: 1, g: 1, b: 1 } } else { p }
}

/// The cell from which an unfilled cell `(x, y)` copies its colour during a
/// fill pass of an upscale by `k`.
pub open spec fn fill_source(x: int, y: int, k: int) -> (int, int) {
    if x == 0 {
        (x, y - 1)
    } else if y == 0 {
        (x - 1, y)
    } else if x % k == 0 && y % k != 0 {
        (x, y - 1)
    } else if x % k != 0 && y % k == 0 {
        (x - 1, y)
    } else {
        (x - 1, y - 1)
    }
}

/// The enlarged buffer before any fill pass: each input pixel `(x, y)` sits
/// (as its anchor colour) at `(x * k, y * k)`, every other cell is black.
pub open spec fn anchored(img: Grid<Rgb16>, k: int) -> Seq<Rgb16> {
    let w = img.width * k;
    Seq::new(
        (w * (img.height * k)) as nat,
        |i: int|
            if (i % w) % k == 0 && (i / w) % k == 0 {
                anchor_color(img.at((i % w) / k, (i / w) / k))
            } else {
                Rgb16 { r: 0, g: 0, b: 0 }
            },
    )
}

/// One fill pass over a buffer of width `w`: every black cell takes the
/// colour that its fill source had before the pass.
pub open spec fn fill_pass(s: Seq<Rgb16>, w: int, k: int) -> Seq<Rgb16> {
    Seq::new(
        s.len(),
        |i: int|
            if is_black(s[i]) {
                s[index_of(w, fill_source(i % w, i / w, k).0, fill_source(i % w, i / w, k).1)]
            } else {
                s[i]
            },
    )
}

/// `n` successive fill passes.
pub open spec fn fill_passes(s: Seq<Rgb16>, w: int, k: int, n: nat) -> Seq<Rgb16>
    decreases n,
{
    if n == 0 {
        s
    } else {
        fill_pass(fill_passes(s, w, k, (n - 1) as nat), w, k)
    }
}

/// How far cell `(x, y)` lies from the top-left corner of its `k` x `k` block.
pub open spec fn block_level(x: int, y: int, k: int) -> int {
    if x % k >= y % k { x % k } else { y % k }
}

/// Every cell of a `w`-wide buffer within `p` steps of its block's anchor is filled.
pub open spec fn filled_to_level(s: Seq<Rgb16>, w: int, k: int, p: int) -> bool {
    forall|i: int|
        0 <= i < s.len() && block_level(i % w, i / w, k) <= p ==> !is_black(#[trigger] s[i])
}

/// The enlargement of `img` by `k`: `k` fill passes over the anchored buffer.
pub open spec fn upscaled(img: Grid<Rgb16>, k: int) -> Seq<Rgb16> {
    fill_passes(anchored(img, k), img.width * k, k, k as nat)
}

proof fn lemma_mod_pred(a: int, k: int)
    requires
        0 < a,
        0 < k,
        a % k != 0,
    ensures
        (a - 1) % k == a % k - 1,
        (a - 1) / k == a / k,
{
    lemma_fundamental_div_mod(a, k);
    assert(a - 1 == (a / k) * k + (a % k - 1)) by (nonlinear_arith)
        requires a == k * (a / k) + a % k;
    lemma_fundamental_div_mod_converse(a - 1, k, a / k, a % k - 1);
}

proof fn lemma_zero_mod(k: int)
    requires
        0 < k,
    ensures
        0int % k == 0,
{
    lemma_fundamental_div_mod_converse(0, k, 0, 0);
}

/// A fill pass moves the filled region one step further from every anchor.
proof fn lemma_pass_progress(s: Seq<Rgb16>, w: int, h: int, k: int, p: int)
    requires
        0 < w,
        0 < k,
        0 <= p,
        s.len() == w * h,
        filled_to_level(s, w, k, p),
    ensures
        filled_to_level(fill_pass(s, w, k), w, k, p + 1),
{
    let t = fill_pass(s, w, k);
    lemma_zero_mod(k);
    assert forall|i: int|
        0 <= i < t.len() && block_level(i % w, i / w, k) <= p + 1 implies !is_black(#[trigger] t[i]) by {
        if is_black(s[i]) {
            let x = i % w;
            let y = i / w;
            lemma_position_cell(w, h, i);
            let (sx, sy) = fill_source(x, y, k);
            if x == 0 {
                lemma_mod_pred(y, k);
            } else if y == 0 {
                lemma_mod_pred(x, k);
            } else if x % k == 0 && y % k != 0 {
                lemma_mod_pred(y, k);
            } else if x % k != 0 && y % k == 0 {
                lemma_mod_pred(x, k);
            } else {
                lemma_mod_pred(x, k);
                lemma_mod_pred(y, k);
            }
            assert(0 <= sx < w && 0 <= sy < h);
            assert(block_level(sx, sy, k) <= p);
            lemma_index_in_bounds(w, h, sx, sy);
            lemma_index_roundtrip(w, sx, sy);
            let j = index_of(w, sx, sy);
            assert(!is_black(s[j]));
        }
    }
}

/// Fill passes never change a cell that is already filled.
proof fn lemma_passes_keep_filled(s: Seq<Rgb16>, w: int, k: int, n: nat, i: int)
    requires
        0 <= i < s.len(),
        !is_black(s[i]),
    ensures
        fill_passes(s, w, k, n).len() == s.len(),
        fill_passes(s, w, k, n)[i] == s[i],
    decreases n,
{
    if n > 0 {
        lemma_passes_keep_filled(s, w, k, (n - 1) as nat, i);
    }
}

/// The colour that the whole `k` x `k` block around `(x, y)` takes: the
/// anchor colour of the input pixel `(x / k, y / k)`.
pub open spec fn block_color(img: Grid<Rgb16>, k: int, x: int, y: int) -> Rgb16 {
    anchor_color(img.at(x / k, y / k))
}

/// Every filled cell of a `w`-wide buffer already holds its block's colour.
pub open spec fn filled_with_block_color(s: Seq<Rgb16>, w: int, k: int, img: Grid<Rgb16>) -> bool {
    forall|i: int|
        0 <= i < s.len() && !is_black(#[trigger] s[i]) ==> s[i] == block_color(img, k, i % w, i / w)
}

/// A fill pass copies only within a block, so filled cells keep holding
/// their block's colour.
proof fn lemma_pass_block_color(s: Seq<Rgb16>, w: int, h: int, k: int, img: Grid<Rgb16>)
    requires
        0 < w,
        0 < k,
        s.len() == w * h,
        filled_to_level(s, w, k, 0),
        filled_with_block_color(s, w, k, img),
    ensures
        filled_with_block_color(fill_pass(s, w, k), w, k, img),
{
    let t = fill_pass(s, w, k);
    lemma_zero_mod(k);
    assert forall|i: int| 0 <= i < t.len() && !is_black(#[trigger] t[i])
        implies t[i] == block_color(img, k, i % w, i / w) by {
        if is_black(s[i]) {
            let x = i % w;
            let y = i / w;
            lemma_position_cell(w, h, i);
            let (sx, sy) = fill_source(x, y, k);
            if x == 0 {
                lemma_mod_pred(y, k);
            } else if y == 0 {
                lemma_mod_pred(x, k);
            } else if x % k == 0 && y % k != 0 {
                lemma_mod_pred(y, k);
            } else if x % k != 0 && y % k == 0 {
                lemma_mod_pred(x, k);
            } else {
                lemma_mod_pred(x, k);
                lemma_mod_pred(y, k);
            }
            assert(0 <= sx < w && 0 <= sy < h);
            assert(sx / k == x / k && sy / k == y / k);
            lemma_index_in_bounds(w, h, sx, sy);
            lemma_index_roundtrip(w, sx, sy);
            let j = index_of(w, sx, sy);
            assert(t[i] == s[j]);
        }
    }
}

/// The cell from which an unfilled cell `(x, y)` copies its colour during a
/// fill pass of an upscale by `k`. The origin is always an anchor and never
/// needs a source.
pub fn resolve_fill_source(x: u32, y: u32, k: u32) -> (r: (u32, u32))
    requires
        k > 0,
        x > 0 || y > 0,
    ensures
        r.0 == fill_source(x as int, y as int, k as int).0,
        r.1 == fill_source(x as int, y as int, k as int).1,
{
    if x == 0 {
        (x, y - 1)
    } else if y == 0 {
        (x - 1, y)
    } else if x % k == 0 && y % k != 0 {
        (x, y - 1)
    } else if x % k != 0 && y % k == 0 {
        (x - 1, y)
    } else {
        (x - 1, y - 1)
    }
}

fn anchor_color_of(p: Rgb16) -> (r: Rgb16)
    ensures
        r == anchor_color(p),
{
    if p.r == 0 && p.g == 0 && p.b == 0 {
        Rgb16 { r: 1, g: 1, b: 1 }
    } else {
        p
    }
}

/// `g` is the enlargement of `img` by `k`: `k` times as wide and as tall,
/// the result of the `k` fill passes, with each input pixel at its anchor
/// and every cell of a block holding the anchor colour of that block, so that
/// no cell is left black.
pub open spec fn is_upscale_of(g: Grid<Rgb16>, img: Grid<Rgb16>, k: int) -> bool {
    &&& g.wf()
    &&& g.width == img.width * k
    &&& g.height == img.height * k
    &&& g.pixels@ == upscaled(img, k)
    &&& forall|x: int, y: int| #[trigger] img.in_bounds(x, y) ==> g.at(x * k, y * k) == anchor_color(img.at(x, y))
    &&& forall|i: int| 0 <= i < g.pixels@.len() ==> !is_black(#[trigger] g.pixels@[i])
    &&& forall|x: int, y: int| #[trigger] g.in_bounds(x, y) ==> g.at(x, y) == anchor_color(img.at(x / k, y / k))
}

/// Downscaling by `k` undoes an upscale by `k`, up to the marking of pure
/// black as `(1, 1, 1)`.
pub proof fn lemma_downscale_undoes_upscale(img: Grid<Rgb16>, up: Grid<Rgb16>, down: Grid<Rgb16>, k: int)
    requires
        img.wf(),
        0 < k,
        is_upscale_of(up, img, k),
        is_downscale_of(down, up, k),
    ensures
        down.width == img.width,
        down.height == img.height,
        forall|x: int, y: int| #[trigger] img.in_bounds(x, y) ==> down.at(x, y) == anchor_color(img.at(x, y)),
{
    lemma_fundamental_div_mod_converse(img.width * k, k, img.width as int, 0);
    lemma_fundamental_div_mod_converse(img.height * k, k, img.height as int, 0);
    assert forall|x: int, y: int| #[trigger] img.in_bounds(x, y) implies down.at(x, y) == anchor_color(img.at(x, y)) by {
        assert(down.in_bounds(x, y));
    }
}

/// Enlarges `img` by the integer factor `k`: each input pixel is placed at
/// the top-left corner of a `k` x `k` block (pure black stands as `(1, 1, 1)`),
/// then `k` fill passes, each reading the state left by the one before,
/// copy colours into the black cells from their fill source.
pub fn upscale(img: &Grid<Rgb16>, k: u32) -> (r: Result<Grid<Rgb16>, FilterError>)
    requires
        img.wf(),
    ensures
        k == 0 <==> r == Err::<Grid<Rgb16>, FilterError>(FilterError::ZeroScale),
        k > 0 && (img.width * k > u32::MAX || img.height * k > u32::MAX
            || (img.width * k) * (img.height * k) > usize::MAX)
            <==> r == Err::<Grid<Rgb16>, FilterError>(FilterError::TooLarge),
        k > 0 && img.width * k <= u32::MAX && img.height * k <= u32::MAX
            && (img.width * k) * (img.height * k) <= usize::MAX <==> r.is_ok(),
        r.is_ok() ==> is_upscale_of(r->Ok_0, *img, k as int),
{
    if k == 0 {
        return Err(FilterError::ZeroScale);
    }
    proof {
        assert(img.width * k <= u32::MAX * u32::MAX && img.height * k <= u32::MAX * u32::MAX)
            by (nonlinear_arith)
            requires img.width <= u32::MAX, img.height <= u32::MAX, 0 <= img.width, 0 <= img.height,
                k <= u32::MAX, 0 <= k;
    }
    let wk: u64 = img.width as u64 * k as u64;
    let hk: u64 = img.height as u64 * k as u64;
    if wk > u32::MAX as u64 || hk > u32::MAX as u64 {
        return Err(FilterError::TooLarge);
    }
    proof {
        assert(wk * hk <= u32::MAX * u32::MAX) by (nonlinear_arith)
            requires wk <= u32::MAX, hk <= u32::MAX, 0 <= wk, 0 <= hk;
    }
    if wk * hk > usize::MAX as u64 {
        return Err(FilterError::TooLarge);
    }
    let w: u32 = wk as u32;
    let h: u32 = hk as u32;
    let n: usize = (wk * hk) as usize;
    proof {
        assert(0 < w && 0 < h) by (nonlinear_arith)
            requires w == img.width * k, h == img.height * k, 0 < img.width, 0 < img.height, 0 < k;
    }
    let ghost anch = anchored(*img, k as int);
    let mut cur: Vec<Rgb16> = Vec::with_capacity(n);
    let mut i: usize = 0;
    while i < n
        invariant
            img.wf(),
            0 < k,
            w == img.width * k,
            h == img.height * k,
            0 < w,
            0 < h,
            n == w * h,
            anch == anchored(*img, k as int),
            i <= n,
            cur@.len() == i,
            forall|j: int| 0 <= j < i ==> #[trigger] cur@[j] == anch[j],
        decreases n - i,
    {
        proof {
            lemma_position_cell(w as int, h as int, i as int);
        }
        let x: u32 = (i % w as usize) as u32;
        let y: u32 = (i / w as usize) as u32;
        if x % k == 0 && y % k == 0 {
            proof {
                lemma_fundamental_div_mod(x as int, k as int);
                lemma_fundamental_div_mod(y as int, k as int);
                assert(x / k < img.width) by (nonlinear_arith)
                    requires x == k * (x / k) + x % k, x % k == 0, x < img.width * k, 0 < k;
                assert(y / k < img.height) by (nonlinear_arith)
                    requires y == k * (y / k) + y % k, y % k == 0, y < img.height * k, 0 < k;
            }
            let p = img.get(x / k, y / k);
            cur.push(anchor_color_of(p));
        } else {
            cur.push(Rgb16 { r: 0, g: 0, b: 0 });
        }
        i += 1;
    }
    proof {
        assert(cur@ =~= anch);
        assert forall|j: int| 0 <= j < cur@.len() && block_level(j % w as int, j / w as int, k as int) <= 0
            implies !is_black(#[trigger] cur@[j]) by {
            lemma_position_cell(w as int, h as int, j);
        }
        assert(filled_with_block_color(cur@, w as int, k as int, *img));
    }
    let mut pass: u32 = 0;
    while pass < k
        invariant
            0 < k,
            0 < w,
            w == img.width * k,
            h == img.height * k,
            0 < h,
            n == w * h,
            anch == anchored(*img, k as int),
            pass <= k,
            cur@.len() == n,
            cur@ == fill_passes(anch, w as int, k as int, pass as nat),
            filled_to_level(cur@, w as int, k as int, pass as int),
            filled_with_block_color(cur@, w as int, k as int, *img),
        decreases k - pass,
    {
        let mut next: Vec<Rgb16> = Vec::with_capacity(n);
        let ghost snap = cur@;
        let mut i: usize = 0;
        while i < n
            invariant
                0 < k,
                0 < w,
                h == img.height * k,
                n == w * h,
                cur@ == snap,
                snap.len() == n,
                filled_to_level(snap, w as int, k as int, pass as int),
                i <= n,
                next@.len() == i,
                forall|j: int| 0 <= j < i ==> #[trigger] next@[j] == fill_pass(snap, w as int, k as int)[j],
            decreases n - i,
        {
            proof {
                lemma_position_cell(w as int, h as int, i as int);
            }
            let x: u32 = (i % w as usize) as u32;
            let y: u32 = (i / w as usize) as u32;
            let p = cur[i];
            if p.r == 0 && p.g == 0 && p.b == 0 {
                proof {
                    lemma_zero_mod(k as int);
                    assert(!is_black(snap[index_of(w as int, 0, 0)]));
                }
                let (sx, sy) = resolve_fill_source(x, y, k);
                proof {
                    lemma_index_in_bounds(w as int, h as int, sx as int, sy as int);
                }
                next.push(cur[sy as usize * w as usize + sx as usize]);
            } else {
                next.push(p);
            }
            i += 1;
        }
        proof {
            assert(next@ =~= fill_pass(snap, w as int, k as int));
            lemma_pass_progress(snap, w as int, h as int, k as int, pass as int);
            lemma_pass_block_color(snap, w as int, h as int, k as int, *img);
        }
        cur = next;
        pass += 1;
    }
    let g = Grid { width: w, height: h, pixels: cur };
    proof {
        assert forall|x: int, y: int| #[trigger] img.in_bounds(x, y)
            implies g.at(x * k, y * k) == anchor_color(img.at(x, y)) by {
            assert(0 <= x * k < w && 0 <= y * k < h) by (nonlinear_arith)
                requires 0 <= x < img.width, 0 <= y < img.height, w == img.width * k,
                    h == img.height * k, 0 < k;
            lemma_index_in_bounds(w as int, h as int, x * k, y * k);
            lemma_index_roundtrip(w as int, x * k, y * k);
            lemma_fundamental_div_mod_converse(x * k, k as int, x, 0);
            lemma_fundamental_div_mod_converse(y * k, k as int, y, 0);
            let j = index_of(w as int, x * k, y * k);
            assert(!is_black(anch[j]));
            lemma_passes_keep_filled(anch, w as int, k as int, k as nat, j);
        }
        assert forall|i: int| 0 <= i < g.pixels@.len() implies !is_black(#[trigger] g.pixels@[i]) by {
            lemma_position_cell(w as int, h as int, i);
            assert(block_level(i % w as int, i / w as int, k as int) <= k - 1);
        }
        assert forall|x: int, y: int| #[trigger] g.in_bounds(x, y)
            implies g.at(x, y) == anchor_color(img.at(x / k as int, y / k as int)) by {
            lemma_index_in_bounds(w as int, h as int, x, y);
            lemma_index_roundtrip(w as int, x, y);
            assert(!is_black(g.pixels@[index_of(w as int, x, y)]));
        }
    }
    Ok(g)
}

} // verus!
