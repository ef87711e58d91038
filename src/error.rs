//! Why a sample, a tile set or a grid was refused.
use vstd::prelude::*;

verus! {

/// A request that cannot be met as configured.
#[derive(Clone, Copy, PartialEq, Eq, Structural, Debug)]
pub enum ConfigError {
    /// The raster does not hold exactly three bytes per pixel.
    NotRgb,
    /// The raster holds four bytes per pixel; transparency is not supported.
    AlphaChannel,
    /// The tile edge length is zero.
    ZeroTileSize,
    /// The sample's width or height is not a multiple of the tile edge length.
    NotTileMultiple,
    /// The output grid has no cells.
    EmptyGrid,
    /// The output grid holds more flags than an array can address.
    GridTooLarge,
    /// A tile's block is not square with the set's edge length.
    WrongTileImage,
    /// A tile names a neighbour that is not in the set.
    UnknownNeighbour,
    /// A tile lists the same neighbour twice on one side.
    RepeatedNeighbour,
    /// A tile admits a neighbour that does not admit it back.
    AsymmetricAdjacency,
}

} // verus!
