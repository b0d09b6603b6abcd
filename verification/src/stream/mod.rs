//! Streams: the logical connections within a session.

pub mod close;
pub mod flush;
pub mod life;
pub mod pending;
pub mod read;
pub mod state;
pub mod wakeup;
