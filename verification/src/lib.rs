//! Greedy string-art path generation: nail geometry on a circle, integer
//! line rasterization, a precomputed line-pixel cache, masked scoring over a
//! residual brightness image, and the greedy engine that grows the thread
//! path one line at a time.

pub mod cache;
pub mod config;
pub mod error;
pub mod factory;
pub mod greedy;
pub mod grid;
pub mod image_processing;
pub mod masking;
pub mod raster;
pub mod renderer;
pub mod state;
pub mod utils;
