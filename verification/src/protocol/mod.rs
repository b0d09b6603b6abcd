//! The protocol that two peers talk over their connection.

pub mod agreement;
pub mod client;
pub mod event;
pub mod header;
pub mod initializer;
pub mod metadata;
pub mod negotiation;
pub mod wire;
pub mod server;
pub mod setup;
