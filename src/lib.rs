//! Kernel codebooks and coarse-to-fine pyramid distances over small square images.
pub mod bits;
pub mod grid;
pub mod image;
pub mod euclidean_distance;
pub mod hamming_distance;
pub mod convolutional;
pub mod pyramid;
pub mod kernel_patch;
pub mod kernel_points;
pub mod sobel;
pub mod brief;
pub mod dataset;
