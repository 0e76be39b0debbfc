//! Which tiles of an elevation product overlap a query region?
//!
//! A product is a large survey made of many raster tiles. Its footprint is
//! coarse, its tile grid is fine, so the tiles are tested one by one: the
//! extent of each is resolved, and the tile is kept if that extent meets
//! the region. There are two ways to resolve an extent. One reads the four
//! bounds from the metadata document that lies beside the tile
//! ([`sidecar`]); the other decodes the grid coordinate that the tile
//! carries in its name ([`identifier`]). [`pipeline`] selects the tiles of
//! a batch under either, and leaves out the tiles that cannot be resolved
//! without giving up the batch.
//!
//! All coordinates are fixed-point integers: geographic ones count
//! ten-millionths of a degree, projected ones millimetres. Fetching
//! documents and projecting coordinates is left to the caller, who hands
//! in what was fetched and what was projected.

pub mod decimal;
pub mod error;
pub mod identifier;
pub mod manifest;
pub mod pipeline;
pub mod region;
pub mod sidecar;
pub mod text;
pub mod utm;
