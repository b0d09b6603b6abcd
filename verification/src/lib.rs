//! Shared-memory inter-process communication.

pub mod buffer;
pub mod compact;
pub mod config;
pub mod consts;
pub mod error;
pub mod mem;
pub mod outside;
pub mod protocol;
pub mod queue;
pub mod session;
pub mod stats;
pub mod stream;
pub mod text;
pub mod util;
