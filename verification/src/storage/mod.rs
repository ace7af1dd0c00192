//! Where blocks are kept: pinned memory, the cache of sealed blocks, and the locks on
//! blocks that are being transferred.

pub mod config;
pub mod engine;
pub mod locks;
