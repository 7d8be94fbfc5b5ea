//! Sobel edge detection over an RGB image, with the interior rows striped
//! across a fixed number of workers.

pub mod config;
pub mod image;
pub mod kernel;
pub mod locked;
pub mod partition;
pub mod store;
