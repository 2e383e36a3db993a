//! Color quantization of raster images by k-means clustering.
//!
//! The library reduces an ordered sequence of 4-channel color samples to at
//! most `k` representative colors: a seeded pseudo-random generator picks the
//! initial centers, a fixed number of iterations alternates nearest-center
//! assignment with per-cluster mean recomputation, and a final assignment
//! pass replaces every sample by its nearest center.

pub mod clock;
pub mod color;
pub mod kmeans;
pub mod laws;
pub mod model;
pub mod rng;

pub use clock::get_unix_timestamp;
pub use color::Rgba;
pub use kmeans::QuantizeError;
pub use rng::Rng;
