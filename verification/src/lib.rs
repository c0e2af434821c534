//! A frequency-weighted pairwise dissimilarity computation over datasets of
//! optional categorical codes, organised around a fixed-width packing
//! container, a chunk-major layout transform, and two distance kernels whose
//! blocked traversal is proved equal to the naive feature-by-feature rule.

pub mod aligned;
pub mod flatten;
pub mod matrix;
pub mod metric;
