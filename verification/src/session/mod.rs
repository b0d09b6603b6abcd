//! A session multiplexes one connection into many streams.

pub mod config;
pub mod connect;
pub mod delivery;
pub mod events;
pub mod manager;
pub mod pool;
pub mod startup;
pub mod streams;
