//! The client of the metadata server: which hashes are published and withdrawn,
//! in how many calls, and what becomes of calls that fail.

pub mod batch;
pub mod client;
pub mod drain;
pub mod publish;
pub mod session;
