//! Escape-time rendering of the Mandelbrot set over a rectangular pixel
//! grid: the plane is held in fixed-point coordinates, iteration counts are
//! mapped through a palette stretched by linear interpolation, and the
//! finished pixel buffer is serialized into a minimal binary raster format.

pub mod color;
pub mod encode;
pub mod fixed;
pub mod kernel;
pub mod render;

pub use encode::encode_ppm;
pub use encode::parse_ppm_header;
pub use fixed::COORD_LIMIT;
pub use fixed::SCALE;
pub use kernel::lsm;
pub use kernel::lsm_batch;
pub use kernel::lsm_v;
pub use render::render;
pub use render::render_serial;
pub use render::Params;
