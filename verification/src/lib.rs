//! Host-memory KV-cache storage and transfer.

pub mod block;
pub mod engine;
pub mod hex;
pub mod ids;
pub mod issue23;
pub mod keyed;
pub mod metaserver;
pub mod metrics;
pub mod numa;
pub mod order;
pub mod pinned_pool;
pub mod range_alloc;
pub mod rdma_fetch;
pub mod read_cache;
pub mod router;
pub mod server;
mod shared;
pub mod storage;
pub mod tailguard;
pub mod text;
pub mod topology;
pub mod transfer;
pub mod write_path;
