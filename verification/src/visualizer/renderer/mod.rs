//! Writers of placed trees.

pub mod drawing;
pub mod svg_renderer;
