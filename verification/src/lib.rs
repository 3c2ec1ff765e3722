//! Out-of-core octree streaming engine.
//!
//! A static spatial index of axis-aligned octants is built once from a
//! decoded binary metadata file; a differ computes, for a moving query
//! sphere, which octants newly intersect it and which fell out of range;
//! and a load tracker keeps the bookkeeping of the asynchronous payload
//! pipeline (requests in flight, loaded cells, running point count) sound
//! under arbitrary arrival order of results.

pub mod catalog;
pub mod codec;
pub mod differ;
pub mod geom;
pub mod loader;
pub mod octant;
pub mod particle;
pub mod tree;
pub mod util;
