//! Verified combinatorial core of spectral shape analysis.
pub mod order;
pub mod laplacian;
pub mod embedding;
pub mod descriptor;
pub mod scale;
pub mod wave;
