//! Pixel-level image filters over in-memory grids: nearest-neighbour
//! downscale, block upscale, ordered dithering, colour inversion and Sobel
//! edge detection.

pub mod grid;
pub mod downscale;
pub mod upscale;
pub mod invert;
pub mod dither;
pub mod sobel;
