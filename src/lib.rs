//! Wave-function-collapse tiling: a tile set with directional adjacency rules
//! is read off a sample picture, and a grid of cells, each starting with
//! every tile possible, is narrowed cell by cell until every cell holds one
//! tile, or some cell holds none.
mod chance;
mod field;

pub mod color;
pub mod error;
pub mod grid;
pub mod sample;
pub mod tileset;
pub mod wave;
