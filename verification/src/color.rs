//! The colour value and its textual forms.

pub mod alpha;
pub mod composite;
pub mod model;
pub mod number;
pub mod parse;
pub mod text;
