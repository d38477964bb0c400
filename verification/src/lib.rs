//! Status-line aggregation for a bar-drawing program: styled text fragments,
//! the fragments of each data source, and the line that merges them.

pub mod blocks;
pub mod format;
pub mod line;
pub mod markup;
pub mod outside;
pub mod text;

pub use line::{render_blocks, Block, LineState, ThreadResponse};
