//! ASCII-art rendering of intensity grids and a run-length codec for the
//! rendered text.

pub mod codec;
pub mod laws;
pub mod lookup;
pub mod render;
pub mod table;
pub mod text;
