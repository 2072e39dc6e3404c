//! Histogram Gaussianization of 8-bit texture channels: the order-statistic
//! core (sorted samples, rank map, inverse lookup table) together with the
//! channel splitting and interleaving around it.

pub mod grid;
pub mod lut;
pub mod rank;
pub mod raster;
pub mod sample;
pub mod sort;
