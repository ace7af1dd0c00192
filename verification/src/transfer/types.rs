//! What is transferred, and how it ended.

use vstd::prelude::*;

verus! {

/// The direction of a transfer.
#[derive(Clone, Copy, Debug, PartialEq, Eq, Structural)]
pub enum TransferOp {
    Read,
    Write,
}

/// A region of memory to register for remote access.
#[derive(Clone, Copy, Debug, PartialEq, Eq, Structural)]
pub struct MemoryRegion {
    pub ptr: u64,
    pub len: usize,
}

/// One transfer: where from, where to and how much.
#[derive(Clone, Copy, Debug, PartialEq, Eq, Structural)]
pub struct TransferDesc {
    pub local_ptr: u64,
    pub remote_ptr: u64,
    pub len: usize,
}

/// How one queue pair's part of a transfer ended.
#[derive(Debug)]
pub enum TransferOutcome {
    /// So many bytes were transferred.
    Completed(usize),
    /// It failed for this reason.
    Failed(String),
    /// Nobody will say how it ended.
    Closed,
}

/// A CUDA device.
#[derive(Clone, Copy, Debug, PartialEq, Eq, Hash, Structural)]
pub struct CudaDeviceId(pub u8);

/// An Ascend device.
#[derive(Clone, Copy, Debug, PartialEq, Eq, Hash, Structural)]
pub struct AscendDeviceId(pub u8);

/// Where memory that is registered lies.
#[derive(Clone, Copy, Debug, PartialEq, Eq, Hash, Structural)]
pub enum Device {
    Host,
    Cuda(CudaDeviceId),
    Ascend(AscendDeviceId),
}

} // verus!
