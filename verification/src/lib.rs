//! Interactive fuzzy line-selector core: case-insensitive subsequence
//! scoring, an incremental per-query result cache, selection state, and a
//! width/height-bounded highlighted renderer.
pub mod ansi;
pub mod cache;
pub mod fmtnum;
pub mod line;
pub mod picker;
pub mod rank;
pub mod render;
pub mod score;
pub mod unicode;
