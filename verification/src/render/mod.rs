//! Page layout numbers and the PNG-to-terminal step of rendering.

pub mod image;
pub mod typst_block;
