//! Buffers in shared memory: slices, free lists, the manager of a region and linked buffers.

pub mod access;
pub mod buf;
pub mod chain;
pub mod linked;
pub mod list;
pub mod manager;
pub mod placement;
pub mod registry;
pub mod slice;
pub mod taking;
