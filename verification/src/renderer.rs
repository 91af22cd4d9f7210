//! A raster frame of RGBA bytes and the routines that draw into it.

pub mod frame;
pub mod render;
