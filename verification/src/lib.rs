//! Palette remapping helpers for a colour quantizer: the integer side of
//! pixel handling, the direct-mapped colour cache, the serpentine scan of
//! error-diffusion dithering and the shape of the vantage-point tree that
//! answers nearest-colour queries.

pub mod pixel;
pub mod vptree;
pub mod cache;
pub mod scan;
pub mod remap;
