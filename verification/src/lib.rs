//! Extraction of a representative color palette from raster images, with a
//! content-addressed cache.
//!
//! The pipeline hashes an image's location and bytes into an identity,
//! decodes and downsamples the image, clusters its pixels into dominant
//! colors, ranks the clusters by a perceptual vibrancy score, and persists
//! the ranked palette in a record keyed by the identity so that later
//! requests skip recomputation.

pub mod cluster;
pub mod config;
pub mod decode;
pub mod hexfmt;
pub mod identity;
pub mod palette;
pub mod rank;
pub mod record;
pub mod templates;
pub mod text;
pub mod theme;
