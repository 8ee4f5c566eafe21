//! Renders 3D wireframes as dot-matrix glyph blocks for a character
//! terminal: a sub-cell-resolution rasterizer, and the per-frame
//! orchestration that draws a clip-window border and the visible bonds
//! of a molecular model.

pub mod canvas;
pub mod render;
pub mod structure;
