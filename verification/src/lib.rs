//! Spatial zone-ownership engine.
//!
//! Many independently moving groups of agents each claim regions of a shared
//! 2-D grid. A dense bit-packed raster records, for each grid cell and each
//! of four ownership classes, which group (if any) owns the cell in that
//! class. All mutation of the raster flows through an ordered change channel
//! that a single synchronizer drains once per tick, so the raster and the
//! per-group membership sets stay consistent across painting, merging and
//! splitting of groups.

pub mod channel;
pub mod codec;
pub mod engine;
pub mod grid;
pub mod groups;
pub mod membership;
pub mod model;
pub mod partition;
