//! Semantic comparison of pixel-art sprites.
pub mod text;
pub mod token_map;
pub mod pixels;
pub mod diff;
pub mod report;
pub mod documents;
pub mod laws;
pub mod raster;
pub mod outcomes;
