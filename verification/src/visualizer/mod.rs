//! From an expression tree to a drawing.

pub mod drawable;
pub mod renderer;
pub mod tree;
