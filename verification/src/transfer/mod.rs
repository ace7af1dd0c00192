//! Transfers between nodes over reliable connections.

pub mod accept;
pub mod batch;
pub mod engine;
pub mod handshake;
pub mod metrics;
pub mod nics;
pub mod session;
pub mod state;
pub mod types;
