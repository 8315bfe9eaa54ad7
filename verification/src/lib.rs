//! In-place numeric transformations over raster image pixel buffers.
//!
//! A buffer stores its samples at 8-bit or 16-bit depth, with one or three
//! channels, and is mutated in place by three operations: percentile-based
//! intensity clipping, affine intensity remapping, and order-statistic
//! (median) filtering over a sliding spatial window.

pub mod hot_pixel_removal;
pub mod image_handler;
pub mod linear_function;
pub mod median_blur;
pub mod ping_pong_buffer;
pub mod selection;
