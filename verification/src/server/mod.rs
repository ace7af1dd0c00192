//! The server around the engine: its options, the requests that it accepts, and the
//! tensors that clients have registered.

pub mod args;
pub mod registry;
pub mod service;
pub mod setup;
