//! Approximates a raster image by stamping recoloured, rotated fragment
//! silhouettes onto a canvas, one strictly improving placement at a time.

pub mod engine;
pub mod export;
pub mod generator;
pub mod geometry;
pub mod placement;
pub mod raster;
pub mod stamp;
