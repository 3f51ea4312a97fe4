//! Data management core of a streaming terrain engine: a spiral sector index,
//! bounded tile caches with fill tracking, a content-addressed layer graph, the
//! level-of-detail driver of the render quadtree, and an on-demand raster cache.

pub mod archive;
pub mod dem;
pub mod digest;
pub mod graph;
pub mod layer;
pub mod linked;
pub mod lru;
pub mod ned;
pub mod priority;
pub mod quadtree;
pub mod raster;
pub mod sector;
pub mod tile_cache;
pub mod topo;
