//! Conversion of raster texture data between a linear (row-major) layout and
//! the tiled ("swizzled") layouts used by three console GPU memory
//! controllers.  The crate only relocates fixed-size byte blocks; it never
//! inspects pixel values.

pub mod swizzle;
