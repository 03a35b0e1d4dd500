//! The font as a whole.

pub mod font;
pub mod font_dir;
