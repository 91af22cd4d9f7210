//! Verified 8-bit sRGB colour values: their byte and text forms, a parser
//! for hex and `rgb()` / `rgba()` notation, exact source-over compositing
//! on the bytes, and a small raster frame with the routines that draw into
//! it.

pub mod clamp;
pub mod color;
pub mod renderer;

pub use clamp::clamp_generic;
pub use color::model::Color;
pub use color::parse::{parse_color, parse_css_rgb, parse_css_rgba, parse_hex, ColorParseError};
pub use renderer::frame::Frame;
pub use renderer::render::Renderer;
