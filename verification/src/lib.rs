//! The integer core of a small software renderer: a frame buffer with
//! pixel plotting, Bresenham line rasterization, frame packing for display,
//! and the index bookkeeping that turns an OBJ face list into triangles.

pub mod line;
pub mod mesh;
pub mod raster;
pub mod window;
