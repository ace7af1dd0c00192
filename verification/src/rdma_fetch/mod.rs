//! Fetching blocks of another node: which node is asked, where the blocks land,
//! which transfers bring them, and what they are rebuilt to.

pub mod bundle;
pub mod rebuild;
pub mod segments;
pub mod slabs;
pub mod staging;
pub mod task;
