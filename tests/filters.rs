use pixel_filters::dither::{dither, dither_threshold};
use pixel_filters::downscale::downscale;
use pixel_filters::grid::{luminance, FilterError, Grid, Rgb16, Rgb8};
use pixel_filters::invert::invert_colors;
use pixel_filters::sobel::{edge_at, isqrt, magnitude, sobel, to_grayscale};
use pixel_filters::upscale::{resolve_fill_source, upscale};

fn c16(v: u16) -> Rgb16 {
    Rgb16 { r: v, g: v, b: v }
}

fn c8(v: u8) -> Rgb8 {
    Rgb8 { r: v, g: v, b: v }
}

fn grid16(w: u32, h: u32, f: impl Fn(u32, u32) -> Rgb16) -> Grid<Rgb16> {
    let mut px = Vec::new();
    for y in 0..h {
        for x in 0..w {
            px.push(f(x, y));
        }
    }
    Grid::from_pixels(w, h, px).unwrap()
}

fn grid8(w: u32, h: u32, f: impl Fn(u32, u32) -> Rgb8) -> Grid<Rgb8> {
    let mut px = Vec::new();
    for y in 0..h {
        for x in 0..w {
            px.push(f(x, y));
        }
    }
    Grid::from_pixels(w, h, px).unwrap()
}

fn numbered(w: u32, h: u32) -> Grid<Rgb16> {
    grid16(w, h, |x, y| Rgb16 { r: (y * 10 + x) as u16, g: 100 + x as u16, b: 200 + y as u16 })
}

#[test]
fn from_pixels_checks_dimensions() {
    assert_eq!(Grid::from_pixels(2, 2, vec![0u8; 3]).err(), Some(FilterError::BadDimensions));
    assert_eq!(Grid::from_pixels(0, 2, Vec::<u8>::new()).err(), Some(FilterError::BadDimensions));
    assert_eq!(Grid::from_pixels(2, 0, Vec::<u8>::new()).err(), Some(FilterError::BadDimensions));
    let g = Grid::from_pixels(3, 2, vec![1u8, 2, 3, 4, 5, 6]).unwrap();
    assert_eq!(g.width(), 3);
    assert_eq!(g.height(), 2);
    assert_eq!(g.get(2, 1), 6);
    assert_eq!(g.get(0, 1), 4);
}

#[test]
fn downscale_samples_strided_pixels() {
    let img = numbered(5, 4);
    let out = downscale(&img, 2).unwrap();
    assert_eq!((out.width, out.height), (2, 2));
    for y in 0..2 {
        for x in 0..2 {
            assert_eq!(out.get(x, y), img.get(x * 2, y * 2));
        }
    }
    assert_eq!(out.get(1, 1), Rgb16 { r: 22, g: 102, b: 202 });
}

#[test]
fn downscale_by_one_is_identity() {
    let img = numbered(3, 2);
    let out = downscale(&img, 1).unwrap();
    assert_eq!(out.pixels, img.pixels);
}

#[test]
fn downscale_refuses_zero_factor() {
    assert_eq!(downscale(&numbered(4, 4), 0).err(), Some(FilterError::ZeroScale));
}

#[test]
fn downscale_refuses_empty_output() {
    assert_eq!(downscale(&numbered(4, 4), 5).err(), Some(FilterError::EmptyOutput));
    assert_eq!(downscale(&numbered(8, 3), 4).err(), Some(FilterError::EmptyOutput));
}

#[test]
fn resolve_fill_source_follows_priority() {
    assert_eq!(resolve_fill_source(0, 3, 2), (0, 2));
    assert_eq!(resolve_fill_source(3, 0, 2), (2, 0));
    assert_eq!(resolve_fill_source(2, 3, 2), (2, 2));
    assert_eq!(resolve_fill_source(3, 2, 2), (2, 2));
    assert_eq!(resolve_fill_source(3, 3, 2), (2, 2));
    assert_eq!(resolve_fill_source(5, 7, 3), (4, 6));
}

#[test]
fn upscale_fills_blocks_from_anchors() {
    let a = Rgb16 { r: 10, g: 20, b: 30 };
    let b = Rgb16 { r: 40, g: 50, b: 60 };
    let img = Grid::from_pixels(2, 1, vec![a, b]).unwrap();
    let out = upscale(&img, 2).unwrap();
    assert_eq!((out.width, out.height), (4, 2));
    assert_eq!(out.pixels, vec![a, a, b, b, a, a, b, b]);
}

#[test]
fn upscale_marks_black_anchor() {
    let img = Grid::from_pixels(1, 2, vec![c16(0), c16(7)]).unwrap();
    let out = upscale(&img, 3).unwrap();
    assert_eq!((out.width, out.height), (3, 6));
    for y in 0..6 {
        for x in 0..3 {
            let want = if y < 3 { c16(1) } else { c16(7) };
            assert_eq!(out.get(x, y), want);
        }
    }
}

#[test]
fn upscale_leaves_no_black_cell() {
    let img = grid16(3, 2, |x, y| if (x + y) % 2 == 0 { c16(0) } else { c16(500) });
    let out = upscale(&img, 4).unwrap();
    assert_eq!((out.width, out.height), (12, 8));
    for y in 0..2 {
        for x in 0..3 {
            let p = img.get(x, y);
            let want = if p == c16(0) { c16(1) } else { p };
            assert_eq!(out.get(x * 4, y * 4), want);
        }
    }
    assert!(out.pixels.iter().all(|p| *p != c16(0)));
}

#[test]
fn upscale_refuses_zero_factor() {
    assert_eq!(upscale(&numbered(2, 2), 0).err(), Some(FilterError::ZeroScale));
}

#[test]
fn upscale_refuses_oversized_output() {
    let img = Grid::from_pixels(2, 1, vec![c16(3), c16(4)]).unwrap();
    assert_eq!(upscale(&img, u32::MAX).err(), Some(FilterError::TooLarge));
}

#[test]
fn luminance_scales_channel_sum() {
    assert_eq!(luminance(c8(255)), 255);
    assert_eq!(luminance(c8(0)), 0);
    assert_eq!(luminance(Rgb8 { r: 10, g: 20, b: 30 }), 20);
}

#[test]
fn dither_thresholds_follow_matrix() {
    let m: [u8; 16] = [0, 8, 2, 10, 12, 4, 14, 6, 3, 11, 1, 9, 15, 7, 13, 5];
    for y in 0..8u32 {
        for x in 0..8u32 {
            assert_eq!(dither_threshold(x, y), m[((y % 4) * 4 + x % 4) as usize] * 16);
        }
    }
    assert_eq!(dither_threshold(1, 0), 128);
    assert_eq!(dither_threshold(3, 3), 80);
}

#[test]
fn dither_white_four_by_four_is_white() {
    let img = grid8(4, 4, |_, _| c8(255));
    let out = dither(&img);
    assert_eq!((out.width, out.height), (4, 4));
    assert_eq!(out.pixels, vec![255u8; 16]);
}

#[test]
fn dither_black_is_black_but_zero_thresholds() {
    let img = grid8(5, 5, |_, _| c8(0));
    let out = dither(&img);
    for y in 0..5 {
        for x in 0..5 {
            let want = if x % 4 == 0 && y % 4 == 0 { 255 } else { 0 };
            assert_eq!(out.get(x, y), want);
        }
    }
}

#[test]
fn dither_mid_gray_pattern() {
    let img = grid8(4, 4, |_, _| c8(100));
    let out = dither(&img);
    let expected: Vec<u8> = vec![
        255, 0, 255, 0, //
        0, 255, 0, 255, //
        255, 0, 255, 0, //
        0, 0, 0, 255,
    ];
    assert_eq!(out.pixels, expected);
    assert!(out.pixels.iter().all(|v| *v == 0 || *v == 255));
}

#[test]
fn invert_complements_channels() {
    let img = Grid::from_pixels(2, 1, vec![Rgb16 { r: 0, g: 1, b: 65535 }, c16(30000)]).unwrap();
    let out = invert_colors(&img);
    assert_eq!(out.pixels, vec![Rgb16 { r: 65535, g: 65534, b: 0 }, c16(35535)]);
}

#[test]
fn invert_twice_restores() {
    let img = numbered(4, 3);
    let once = invert_colors(&img);
    for (a, b) in once.pixels.iter().zip(img.pixels.iter()) {
        assert_eq!(a.r as u32 + b.r as u32, 65535);
        assert_eq!(a.g as u32 + b.g as u32, 65535);
        assert_eq!(a.b as u32 + b.b as u32, 65535);
    }
    let twice = invert_colors(&once);
    assert_eq!(twice.pixels, img.pixels);
    assert_eq!((twice.width, twice.height), (4, 3));
}

#[test]
fn isqrt_is_floor() {
    assert_eq!(isqrt(0), 0);
    assert_eq!(isqrt(1), 1);
    assert_eq!(isqrt(24), 4);
    assert_eq!(isqrt(25), 5);
    assert_eq!(isqrt(1170450), 1081);
    assert_eq!(isqrt(2080800), 1442);
    assert_eq!(isqrt(u32::MAX), 65535);
    assert_eq!(isqrt(65536 * 65535), 65535);
}

#[test]
fn magnitude_wraps_past_255() {
    assert_eq!(magnitude(3, 4), 5);
    assert_eq!(magnitude(-1020, 0), 252);
    assert_eq!(magnitude(0, 0), 0);
}

#[test]
fn sobel_uniform_interior_is_black() {
    let img = grid8(3, 3, |_, _| c8(255));
    let out = sobel(&img);
    let expected: Vec<u8> = vec![
        0, 0, 0, //
        0, 0, 252, //
        0, 252, 57,
    ];
    assert_eq!(out.pixels, expected);
}

#[test]
fn sobel_black_is_black() {
    let img = grid8(4, 3, |_, _| c8(0));
    assert!(sobel(&img).pixels.iter().all(|v| *v == 0));
}

#[test]
fn sobel_vertical_edge() {
    let img = grid8(4, 4, |x, _| if x < 2 { c8(0) } else { c8(10) });
    let g = to_grayscale(&img);
    assert_eq!(g.get(1, 0), 0);
    assert_eq!(g.get(2, 0), 10);
    // gx over rows of offsets, gy over columns: at (1, 1) the right column is 10.
    assert_eq!(edge_at(&g, 1, 1), 40);
    assert_eq!(edge_at(&g, 2, 1), 40);
    assert_eq!(edge_at(&g, 0, 1), 0);
    let out = sobel(&img);
    assert_eq!(out.get(1, 2), 40);
    assert_eq!(out.get(1, 0), 0);
}

#[test]
fn upscale_black_single_pixel() {
    let img = Grid::from_pixels(1, 1, vec![c16(0)]).unwrap();
    let out = upscale(&img, 2).unwrap();
    assert_eq!((out.width, out.height), (2, 2));
    assert_eq!(out.pixels, vec![c16(1); 4]);
}

#[test]
fn upscale_by_one_marks_black_only() {
    let img = grid16(3, 2, |x, y| if x == 1 && y == 1 { c16(0) } else { c16((x + 3 * y + 5) as u16) });
    let out = upscale(&img, 1).unwrap();
    assert_eq!((out.width, out.height), (3, 2));
    for y in 0..2 {
        for x in 0..3 {
            let p = img.get(x, y);
            assert_eq!(out.get(x, y), if p == c16(0) { c16(1) } else { p });
        }
    }
}

#[test]
fn upscale_blocks_copy_anchor() {
    let img = numbered(3, 2);
    let out = upscale(&img, 3).unwrap();
    for y in 0..6 {
        for x in 0..9 {
            assert_eq!(out.get(x, y), img.get(x / 3, y / 3));
        }
    }
}

#[test]
fn downscale_undoes_upscale() {
    let img = grid16(3, 2, |x, y| if (x + y) % 2 == 0 { c16(0) } else { c16(900 + x as u16) });
    let up = upscale(&img, 3).unwrap();
    let down = downscale(&up, 3).unwrap();
    assert_eq!((down.width, down.height), (3, 2));
    for y in 0..2 {
        for x in 0..3 {
            let p = img.get(x, y);
            assert_eq!(down.get(x, y), if p == c16(0) { c16(1) } else { p });
        }
    }
}

#[test]
fn sobel_uniform_thin_is_black() {
    let row = grid8(5, 1, |_, _| c8(200));
    assert!(sobel(&row).pixels.iter().all(|v| *v == 0));
    let col = grid8(1, 4, |_, _| c8(200));
    assert!(sobel(&col).pixels.iter().all(|v| *v == 0));
    let square = grid8(2, 2, |_, _| c8(64));
    assert_eq!(sobel(&square).get(1, 1), 15);
}
