//! The engine of a node: which inference instances there are, what they register, what
//! they load, and what other nodes get.

use std::sync::Arc;
use vstd::prelude::*;
use vstd::string::*;
use crate::block::{byte_views, capped, copy_bytes, BlockKey, SealedBlock};
use crate::ids::is_uuid_text;
use crate::keyed::{
    as_map, find_named, has_key, is_entry, lemma_place, lemma_push, lemma_remove, lookup, named,
    unique_keys,
};
use crate::numa::NumaNode;
use crate::read_cache::{entry_views, found, key_views, prefix_len, touch_all, KeyView};
use crate::shared::share;
use crate::storage::engine::{
    entry_handles, footprints, frees_some, MemoryCacheCleanupStats, StorageEngine,
};
use crate::storage::locks::{freed, live, SessionView};
use crate::text::{decimal, join2, join3, join4, push_decimal, push_signed, same_text, signed_decimal};
use crate::topology::{validate_device_scope, DeviceTopology};
use crate::transfer::accept::{accepts, AcceptStep, HandshakeFault};
use crate::transfer::engine::TransferEngine;

verus! {

/// What can go wrong with a request to the engine.
#[derive(Debug, PartialEq, Eq)]
pub enum EngineError {
    /// No instance has this name.
    InstanceMissing(String),
    /// The instance has no such device.
    WorkerMissing(String, i32),
    InvalidArgument(String),
    /// The device could not be initialized.
    DeviceInit(String),
    Storage(String),
    /// A lock was left in an unknown state.
    Poisoned(&'static str),
    /// The instance is registered with another topology.
    TopologyMismatch(String),
}

/// The text of an error.
pub open spec fn error_text(e: EngineError) -> Seq<char> {
    match e {
        EngineError::InstanceMissing(ctx) => "instance "@ + ctx@ + " not found"@,
        EngineError::WorkerMissing(ctx, device) => "device "@ + signed_decimal(device as int)
            + " not found in instance "@ + ctx@,
        EngineError::InvalidArgument(msg) => "invalid argument: "@ + msg@,
        EngineError::DeviceInit(msg) => "failed to initialize device: "@ + msg@,
        EngineError::Storage(msg) => "storage error: "@ + msg@,
        EngineError::Poisoned(what) => "internal lock poisoned: "@ + what@,
        EngineError::TopologyMismatch(msg) => "topology mismatch: "@ + msg@,
    }
}

impl EngineError {
    /// The text of the error.
    pub fn message(&self) -> (r: String)
        ensures
            r@ == error_text(*self),
    {
        match self {
            EngineError::InstanceMissing(ctx) => join3("instance ", ctx, " not found"),
            EngineError::WorkerMissing(ctx, device) => {
                let mut m: String = String::from_str("device ");
                push_signed(&mut m, *device as i64);
                m.append(" not found in instance ");
                m.append(ctx);
                m
            },
            EngineError::InvalidArgument(msg) => join2("invalid argument: ", msg),
            EngineError::DeviceInit(msg) => join2("failed to initialize device: ", msg),
            EngineError::Storage(msg) => join2("storage error: ", msg),
            EngineError::Poisoned(what) => join2("internal lock poisoned: ", what),
            EngineError::TopologyMismatch(msg) => join2("topology mismatch: ", msg),
        }
    }
}

/// Whether an error is an invalid argument, for this reason.
pub open spec fn invalid(e: EngineError, reason: Seq<char>) -> bool {
    e matches EngineError::InvalidArgument(m) && m@ == reason
}

/// Whether an error is that of a missing instance.
pub open spec fn missing_instance(e: EngineError, id: Seq<char>) -> bool {
    e matches EngineError::InstanceMissing(m) && m@ == id
}

/// The nodes that get a pool of pinned memory: the nodes with devices, or all nodes where
/// no device's node is known; none where there is one node only or affinity is disabled.
pub fn pool_nodes(
    enable_numa_affinity: bool,
    multi_numa: bool,
    gpu_numa_nodes: &[NumaNode],
    numa_nodes: &[NumaNode],
) -> (r: Vec<NumaNode>)
    ensures
        r@ == if !enable_numa_affinity || !multi_numa {
            Seq::empty()
        } else if gpu_numa_nodes@.len() == 0 {
            numa_nodes@
        } else {
            gpu_numa_nodes@
        },
{
    if !enable_numa_affinity || !multi_numa {
        return Vec::new();
    }
    let chosen: &[NumaNode] = if gpu_numa_nodes.len() == 0 {
        numa_nodes
    } else {
        gpu_numa_nodes
    };
    let mut r: Vec<NumaNode> = Vec::new();
    let mut i: usize = 0;
    while i < chosen.len()
        invariant
            i <= chosen@.len(),
            r@ == chosen@.take(i as int),
        decreases chosen@.len() - i,
    {
        r.push(chosen[i]);
        i += 1;
        assert(r@ =~= chosen@.take(i as int));
    }
    assert(chosen@.take(i as int) =~= chosen@);
    r
}

/// How the blocks of a layer lie in device memory.
#[derive(Clone, Copy, Debug, PartialEq, Eq, Structural)]
pub struct LayerLayout {
    pub data_ptr: u64,
    pub size_bytes: usize,
    pub num_blocks: usize,
    pub bytes_per_block: usize,
    pub kv_stride_bytes: usize,
    pub segments: usize,
    /// The distance of two blocks, where it is not the length of a block.
    pub block_stride_bytes: Option<usize>,
    /// Whether segments are padded for direct access to SSD.
    pub ssd_padding: bool,
}

/// The lists that describe the layers of a registration.
pub struct LayerLists {
    pub data_ptrs: Seq<u64>,
    pub size_bytes: Seq<usize>,
    pub num_blocks: Seq<usize>,
    pub bytes_per_block: Seq<usize>,
    pub kv_stride_bytes: Seq<usize>,
    pub segments: Seq<usize>,
    pub block_strides: Option<Seq<usize>>,
}

impl LayerLists {
    /// Whether each list but the last has an entry for each layer.
    pub open spec fn even(self, n: int) -> bool {
        &&& self.data_ptrs.len() == n
        &&& self.size_bytes.len() == n
        &&& self.num_blocks.len() == n
        &&& self.bytes_per_block.len() == n
        &&& self.kv_stride_bytes.len() == n
        &&& self.segments.len() == n
    }

    /// Whether the block strides, where they are given, have an entry for each layer.
    pub open spec fn strides_even(self, n: int) -> bool {
        self.block_strides matches Some(s) ==> s.len() == n
    }

    /// How layer `i` lies in device memory.
    pub open spec fn layout(self, i: int, ssd_padding: bool) -> LayerLayout {
        LayerLayout {
            data_ptr: self.data_ptrs[i],
            size_bytes: self.size_bytes[i],
            num_blocks: self.num_blocks[i],
            bytes_per_block: self.bytes_per_block[i],
            kv_stride_bytes: self.kv_stride_bytes[i],
            segments: self.segments[i],
            block_stride_bytes: match self.block_strides {
                Some(s) => Some(s[i]),
                None => None,
            },
            ssd_padding,
        }
    }

    /// What is said of lists of different lengths.
    pub open spec fn lengths_text(self, n: int) -> Seq<char> {
        "registration metadata length mismatch: layer_names="@ + decimal(n as nat)
            + ", data_ptrs="@ + decimal(self.data_ptrs.len()) + ", size_bytes="@ + decimal(
            self.size_bytes.len(),
        ) + ", num_blocks="@ + decimal(self.num_blocks.len()) + ", bytes_per_block="@ + decimal(
            self.bytes_per_block.len(),
        ) + ", kv_stride_bytes="@ + decimal(self.kv_stride_bytes.len()) + ", segments="@
            + decimal(self.segments.len())
    }

    /// What is said of block strides of another number than the layers.
    pub open spec fn strides_text(self, n: int) -> Seq<char> {
        "registration metadata length mismatch: layer_names="@ + decimal(n as nat)
            + ", block_stride_bytes="@ + decimal(self.block_strides->0.len())
    }
}

/// Whether a layer has the name of an earlier one.
pub open spec fn repeats(names: Seq<String>, i: int) -> bool {
    exists|k: int| 0 <= k < i && (#[trigger] names[k])@ == names[i]@
}

/// What is wrong with a layer: its layout, or that its name occurs before.
pub open spec fn layer_fault(names: Seq<String>, faults: Seq<Option<String>>, i: int) -> Option<
    Seq<char>,
> {
    match faults[i] {
        Some(e) => Some("layer "@ + names[i]@ + ": "@ + e@),
        None => if repeats(names, i) {
            Some("duplicate layer name in registration batch: "@ + names[i]@)
        } else {
            None
        },
    }
}

/// What is wrong with the first of the first `n` layers that something is wrong with.
pub open spec fn first_layer_fault(
    names: Seq<String>,
    faults: Seq<Option<String>>,
    n: int,
) -> Option<Seq<char>>
    decreases n,
{
    if n <= 0 {
        None
    } else if first_layer_fault(names, faults, n - 1) is Some {
        first_layer_fault(names, faults, n - 1)
    } else {
        layer_fault(names, faults, n - 1)
    }
}

proof fn lemma_layer_fault_stays(names: Seq<String>, faults: Seq<Option<String>>, m: int, n: int)
    requires
        m <= n,
    ensures
        first_layer_fault(names, faults, m) is Some ==> first_layer_fault(names, faults, n)
            == first_layer_fault(names, faults, m),
    decreases n - m,
{
    if m < n {
        lemma_layer_fault_stays(names, faults, m, n - 1);
    }
}

/// An instance: the namespace of its blocks and its shape.
#[derive(Debug)]
pub struct InstanceInfo {
    pub namespace: String,
    pub tp_size: usize,
    pub world_size: usize,
    pub page_first: bool,
}

/// What of an instance must not change: tensor parallelism, number of devices, and
/// whether pages hold all layers.
pub type Shape = (usize, usize, bool);

impl InstanceInfo {
    /// The shape of the instance.
    pub open spec fn shape(self) -> Shape {
        (self.tp_size, self.world_size, self.page_first)
    }
}

/// Whether two lists of instances are the same but for copies of strings.
pub open spec fn instance_views(v: Seq<(String, InstanceInfo)>) -> Seq<
    (Seq<char>, (Seq<char>, Shape)),
> {
    v.map_values(|e: (String, InstanceInfo)| (e.0@, (e.1.namespace@, e.1.shape())))
}

fn shape_text(tp_size: usize, world_size: usize, page_first: bool) -> (r: String)
    ensures
        r@ == text_of_shape((tp_size, world_size, page_first)),
{
    let mut m: String = String::from_str("tp_size=");
    push_decimal(&mut m, tp_size as u64);
    m.append(" world_size=");
    push_decimal(&mut m, world_size as u64);
    m.append(" page_first=");
    if page_first {
        m.append("true");
    } else {
        m.append("false");
    }
    m
}

/// A shape in words.
pub open spec fn text_of_shape(s: Shape) -> Seq<char> {
    "tp_size="@ + decimal(s.0 as nat) + " world_size="@ + decimal(s.1 as nat) + " page_first="@
        + if s.2 {
        "true"@
    } else {
        "false"@
    }
}

/// What is said of an instance that is registered again with another shape.
pub open spec fn mismatch_text(id: Seq<char>, is: Shape, wanted: Shape) -> Seq<char> {
    "instance "@ + id + " has "@ + text_of_shape(is) + ", not "@ + text_of_shape(wanted)
}

/// The engine of a node.
pub struct PegaEngine {
    pub instances: Vec<(String, InstanceInfo)>,
    pub storage: StorageEngine,
    pub topology: DeviceTopology,
    /// The transfers between nodes, where there are NICs for them.
    pub rdma: Option<TransferEngine>,
}

/// What a registration came to: how the layers lie, by name.
#[derive(Debug)]
pub struct RegisteredLayers {
    pub layers: Vec<(String, LayerLayout)>,
}

/// Layers with their names as texts.
pub open spec fn layer_views(v: Seq<(String, LayerLayout)>) -> Seq<(Seq<char>, LayerLayout)> {
    v.map_values(|e: (String, LayerLayout)| (e.0@, e.1))
}

/// All layers of a registration.
pub open spec fn all_layers(names: Seq<String>, lists: LayerLists, ssd_padding: bool) -> Seq<
    (Seq<char>, LayerLayout),
> {
    Seq::new(names.len(), |i: int| (names[i]@, lists.layout(i, ssd_padding)))
}

/// What is said where a device's node has to be known and is not.
pub open spec fn unknown_node_text(device_id: i32) -> Seq<char> {
    "NUMA-aware allocation is enabled, but GPU "@ + signed_decimal(device_id as int)
        + " NUMA affinity is unknown. Please ensure the device management tool (nvidia-smi / npu-smi) is available and GPU NUMA topology is detectable, or disable NUMA-aware allocation."@
}

impl PegaEngine {
    /// The instances by name.
    pub open spec fn by_name(self) -> Seq<(Seq<char>, (Seq<char>, Shape))> {
        instance_views(self.instances@)
    }

    /// No two instances have the same name, and storage and transfers are in order.
    pub open spec fn wf(self) -> bool {
        &&& unique_keys(self.by_name())
        &&& self.storage.wf()
        &&& self.rdma matches Some(t) ==> t.wf()
    }

    /// Whether nothing but the storage differs.
    pub open spec fn same_but_storage(self, other: PegaEngine) -> bool {
        &&& self.instances == other.instances
        &&& self.topology == other.topology
        &&& self.rdma == other.rdma
    }

    /// An engine without instances.
    pub fn new(
        storage: StorageEngine,
        topology: DeviceTopology,
        rdma: Option<TransferEngine>,
    ) -> (r: Self)
        requires
            storage.wf(),
            rdma matches Some(t) ==> t.wf(),
        ensures
            r.wf(),
            r.by_name().len() == 0,
            r.storage == storage,
            r.topology == topology,
            r.rdma == rdma,
    {
        PegaEngine { instances: Vec::new(), storage, topology, rdma }
    }

    /// Whether there are NICs for transfers between nodes.
    pub fn has_rdma_transport(&self) -> (r: bool)
        ensures
            r == (self.rdma is Some),
    {
        self.rdma.is_some()
    }

    /// How the handshake of another node is answered.
    pub fn rdma_accept_handshake(&mut self, client_addr: &str, client_handshake_bytes: &[u8]) -> (r:
        Result<AcceptStep, HandshakeFault>)
        requires
            old(self).wf(),
        ensures
            final(self).wf(),
            final(self).instances == old(self).instances,
            final(self).storage == old(self).storage,
            final(self).topology == old(self).topology,
            match (old(self).rdma, final(self).rdma) {
                (None, None) => r == Err::<AcceptStep, HandshakeFault>(
                    HandshakeFault::NotConfigured,
                ),
                (Some(before), Some(after)) => accepts(
                    before,
                    after,
                    client_addr@,
                    client_handshake_bytes@,
                    r,
                ),
                _ => false,
            },
    {
        match &mut self.rdma {
            None => Err(HandshakeFault::NotConfigured),
            Some(transfers) => transfers.accept_handshake(client_addr, client_handshake_bytes),
        }
    }

    fn find(&self, instance_id: &str) -> (r: Option<usize>)
        requires
            self.wf(),
        ensures
            match r {
                Some(i) => {
                    &&& i < self.instances@.len()
                    &&& is_entry(self.by_name(), instance_id@, i as int)
                    &&& lookup(self.by_name(), instance_id@) == Some(
                        (
                            self.instances@[i as int].1.namespace@,
                            self.instances@[i as int].1.shape(),
                        ),
                    )
                },
                None => lookup(self.by_name(), instance_id@) is None && !has_key(
                    self.by_name(),
                    instance_id@,
                ),
            },
    {
        match find_named(&self.instances, instance_id) {
            Some(i) => {
                proof {
                    assert(is_entry(named(self.instances@), instance_id@, i as int));
                    assert(is_entry(self.by_name(), instance_id@, i as int));
                    lemma_place(self.by_name(), instance_id@, i as int);
                }
                Some(i)
            },
            None => {
                assert forall|k: int| !is_entry(self.by_name(), instance_id@, k) by {
                    if is_entry(self.by_name(), instance_id@, k) {
                        assert(is_entry(named(self.instances@), instance_id@, k));
                    }
                }
                None
            },
        }
    }

    /// Looks up an instance.
    pub fn get_instance(&self, instance_id: &str) -> (r: Result<&InstanceInfo, EngineError>)
        requires
            self.wf(),
        ensures
            match r {
                Ok(i) => lookup(self.by_name(), instance_id@) == Some((i.namespace@, i.shape())),
                Err(e) => lookup(self.by_name(), instance_id@) is None && missing_instance(
                    e,
                    instance_id@,
                ),
            },
    {
        match self.find(instance_id) {
            Some(i) => Ok(&self.instances[i].1),
            None => Err(EngineError::InstanceMissing(String::from_str(instance_id))),
        }
    }

    /// Makes sure that there is an instance of a shape. One with another shape is refused,
    /// and so is a new one without devices.
    pub fn get_or_create_instance(
        &mut self,
        instance_id: &str,
        namespace: &str,
        tp_size: usize,
        world_size: usize,
        page_first: bool,
    ) -> (r: Result<(), EngineError>)
        requires
            old(self).wf(),
        ensures
            final(self).wf(),
            final(self).storage == old(self).storage,
            final(self).topology == old(self).topology,
            final(self).rdma == old(self).rdma,
            match lookup(old(self).by_name(), instance_id@) {
                Some((_, shape)) => {
                    &&& final(self).instances == old(self).instances
                    &&& if shape == (tp_size, world_size, page_first) {
                        r is Ok
                    } else {
                        r matches Err(EngineError::TopologyMismatch(m)) && m@ == mismatch_text(
                            instance_id@,
                            shape,
                            (tp_size, world_size, page_first),
                        )
                    }
                },
                None => if tp_size == 0 || world_size == 0 {
                    &&& r matches Err(e) && invalid(e, "tp_size and world_size must be non-zero"@)
                    &&& final(self).instances == old(self).instances
                } else {
                    &&& r is Ok
                    &&& as_map(final(self).by_name()) == as_map(old(self).by_name()).insert(
                        instance_id@,
                        (namespace@, (tp_size, world_size, page_first)),
                    )
                },
            },
    {
        match self.find(instance_id) {
            Some(i) => {
                let known: &InstanceInfo = &self.instances[i].1;
                if known.tp_size == tp_size && known.world_size == world_size
                    && known.page_first == page_first {
                    return Ok(());
                }
                let mut m: String = join3("instance ", instance_id, " has ");
                m.append(
                    shape_text(known.tp_size, known.world_size, known.page_first).as_str(),
                );
                m.append(", not ");
                m.append(shape_text(tp_size, world_size, page_first).as_str());
                Err(EngineError::TopologyMismatch(m))
            },
            None => {
                if tp_size == 0 || world_size == 0 {
                    return Err(
                        EngineError::InvalidArgument(
                            String::from_str("tp_size and world_size must be non-zero"),
                        ),
                    );
                }
                let ghost before = self.by_name();
                let ghost value = (namespace@, (tp_size, world_size, page_first));
                self.instances.push(
                    (
                        String::from_str(instance_id),
                        InstanceInfo {
                            namespace: String::from_str(namespace),
                            tp_size,
                            world_size,
                            page_first,
                        },
                    ),
                );
                proof {
                    lemma_push(before, instance_id@, value);
                    assert(self.by_name() =~= before.push((instance_id@, value)));
                }
                Ok(())
            },
        }
    }

    /// Removes an instance.
    pub fn unregister_instance(&mut self, instance_id: &str) -> (r: Result<(), EngineError>)
        requires
            old(self).wf(),
        ensures
            final(self).wf(),
            final(self).storage == old(self).storage,
            final(self).topology == old(self).topology,
            final(self).rdma == old(self).rdma,
            as_map(final(self).by_name()) == as_map(old(self).by_name()).remove(instance_id@),
            match r {
                Ok(_) => has_key(old(self).by_name(), instance_id@),
                Err(e) => !has_key(old(self).by_name(), instance_id@) && missing_instance(
                    e,
                    instance_id@,
                ) && final(self).instances == old(self).instances,
            },
    {
        let ghost before = self.by_name();
        match self.find(instance_id) {
            Some(i) => {
                self.instances.remove(i);
                proof {
                    lemma_remove(before, i as int);
                    assert(self.by_name() =~= before.remove(i as int));
                }
                Ok(())
            },
            None => {
                assert(as_map(before) =~= as_map(before).remove(instance_id@));
                Err(EngineError::InstanceMissing(String::from_str(instance_id)))
            },
        }
    }

    /// The names of all instances.
    pub fn list_instance_ids(&self) -> (r: Vec<String>)
        ensures
            r@.len() == self.instances@.len(),
            forall|k: int|
                0 <= k < r@.len() ==> (#[trigger] r@[k])@ == self.instances@[k].0@,
    {
        let mut ids: Vec<String> = Vec::new();
        let mut i: usize = 0;
        while i < self.instances.len()
            invariant
                i <= self.instances@.len(),
                ids@.len() == i,
                forall|k: int| 0 <= k < i ==> (#[trigger] ids@[k])@ == self.instances@[k].0@,
            decreases self.instances@.len() - i,
        {
            ids.push(self.instances[i].0.clone());
            i += 1;
        }
        ids
    }

    /// Removes all instances, and returns their names.
    pub fn unregister_all_instances(&mut self) -> (r: Vec<String>)
        requires
            old(self).wf(),
        ensures
            final(self).wf(),
            final(self).storage == old(self).storage,
            final(self).topology == old(self).topology,
            final(self).rdma == old(self).rdma,
            final(self).instances@.len() == 0,
            r@.len() == old(self).instances@.len(),
            forall|k: int|
                0 <= k < r@.len() ==> (#[trigger] r@[k])@ == old(self).instances@[k].0@,
    {
        let ids: Vec<String> = self.list_instance_ids();
        self.instances.clear();
        ids
    }
}

/// Whether an instance cannot be had in a shape.
pub open spec fn refuses_shape(engine: PegaEngine, id: Seq<char>, shape: Shape) -> bool {
    match lookup(engine.by_name(), id) {
        Some((_, known)) => known != shape,
        None => shape.0 == 0 || shape.1 == 0,
    }
}

/// Whether `after` is `before` with an instance, which is new where there was none.
pub open spec fn instance_ensured(
    before: PegaEngine,
    after: PegaEngine,
    id: Seq<char>,
    namespace: Seq<char>,
    shape: Shape,
) -> bool {
    match lookup(before.by_name(), id) {
        Some(_) => after.instances == before.instances,
        None => as_map(after.by_name()) == as_map(before.by_name()).insert(id, (namespace, shape)),
    }
}

/// Whether what a registration says of its layers is in order.
pub open spec fn layers_in_order(
    names: Seq<String>,
    lists: LayerLists,
    faults: Seq<Option<String>>,
) -> bool {
    let n = names.len() as int;
    lists.even(n) && lists.strides_even(n) && first_layer_fault(names, faults, n) is None
}

/// Why a registration is refused, and whether that is because the instance has another
/// shape.
pub open spec fn registration_fault(
    engine: PegaEngine,
    id: Seq<char>,
    device_id: i32,
    shape: Shape,
    names: Seq<String>,
    lists: LayerLists,
    faults: Seq<Option<String>>,
    numa_node: NumaNode,
) -> Option<(bool, Seq<char>)> {
    let n = names.len() as int;
    if !lists.even(n) {
        Some((false, lists.lengths_text(n)))
    } else if !lists.strides_even(n) {
        Some((false, lists.strides_text(n)))
    } else if first_layer_fault(names, faults, n) is Some {
        Some((false, first_layer_fault(names, faults, n)->0))
    } else if refuses_shape(engine, id, shape) {
        match lookup(engine.by_name(), id) {
            Some((_, known)) => Some((true, mismatch_text(id, known, shape))),
            None => Some((false, "tp_size and world_size must be non-zero"@)),
        }
    } else if engine.storage.allocator is Numa && !numa_node.known() {
        Some((false, unknown_node_text(device_id)))
    } else if !engine.topology.allows(device_id) {
        Some(
            (
                false,
                "device "@ + signed_decimal(device_id as int)
                    + " is outside the configured device scope"@,
            ),
        )
    } else {
        None
    }
}

/// Whether an error is the one for a registration that is refused.
pub open spec fn is_registration_error(e: EngineError, mismatch: bool, text: Seq<char>) -> bool {
    if mismatch {
        e matches EngineError::TopologyMismatch(m) && m@ == text
    } else {
        invalid(e, text)
    }
}

/// Whether a registration turns `before` into `after`, with the answer `r`. The instance is
/// there in the end unless the layers are not in order or its shape is refused.
pub open spec fn registers(
    before: PegaEngine,
    after: PegaEngine,
    id: Seq<char>,
    namespace: Seq<char>,
    device_id: i32,
    shape: Shape,
    names: Seq<String>,
    lists: LayerLists,
    faults: Seq<Option<String>>,
    numa_node: NumaNode,
    r: Result<RegisteredLayers, EngineError>,
) -> bool {
    &&& after.storage == before.storage
    &&& after.topology == before.topology
    &&& after.rdma == before.rdma
    &&& if layers_in_order(names, lists, faults) && !refuses_shape(before, id, shape) {
        instance_ensured(before, after, id, namespace, shape)
    } else {
        after.instances == before.instances
    }
    &&& match registration_fault(before, id, device_id, shape, names, lists, faults, numa_node) {
        Some((mismatch, text)) => r matches Err(e) && is_registration_error(e, mismatch, text),
        None => r matches Ok(registered) && layer_views(registered.layers@) == all_layers(
            names,
            lists,
            before.storage.ssd_enabled,
        ),
    }
}

impl PegaEngine {
    /// Registers the layers of a device, each with its layout. The lists describe the
    /// layers one by one; `layout_faults` says of each what is wrong with its layout, if
    /// anything. The instance is created where there is none; it stays where the device is
    /// refused, because its node is not known but has to be, or because it is outside the
    /// devices of this process.
    pub fn register_context_layer_batch_strided(
        &mut self,
        instance_id: &str,
        namespace: &str,
        device_id: i32,
        tp_size: usize,
        world_size: usize,
        layer_names: &[String],
        data_ptrs: &[u64],
        size_bytes_list: &[usize],
        num_blocks_list: &[usize],
        bytes_per_block_list: &[usize],
        kv_stride_bytes_list: &[usize],
        segments_list: &[usize],
        block_stride_bytes_list: Option<&[usize]>,
        page_first: bool,
        layout_faults: &[Option<String>],
        numa_node: NumaNode,
    ) -> (r: Result<RegisteredLayers, EngineError>)
        requires
            old(self).wf(),
            layout_faults@.len() == layer_names@.len(),
        ensures
            final(self).wf(),
            registers(
                *old(self),
                *final(self),
                instance_id@,
                namespace@,
                device_id,
                (tp_size, world_size, page_first),
                layer_names@,
                (LayerLists {
                    data_ptrs: data_ptrs@,
                    size_bytes: size_bytes_list@,
                    num_blocks: num_blocks_list@,
                    bytes_per_block: bytes_per_block_list@,
                    kv_stride_bytes: kv_stride_bytes_list@,
                    segments: segments_list@,
                    block_strides: match block_stride_bytes_list {
                        Some(s) => Some(s@),
                        None => None,
                    },
                }),
                layout_faults@,
                numa_node,
                r,
            ),
    {
        let n: usize = layer_names.len();
        let ghost lists = LayerLists {
            data_ptrs: data_ptrs@,
            size_bytes: size_bytes_list@,
            num_blocks: num_blocks_list@,
            bytes_per_block: bytes_per_block_list@,
            kv_stride_bytes: kv_stride_bytes_list@,
            segments: segments_list@,
            block_strides: match block_stride_bytes_list {
                Some(s) => Some(s@),
                None => None,
            },
        };
        if data_ptrs.len() != n || size_bytes_list.len() != n || num_blocks_list.len() != n
            || bytes_per_block_list.len() != n || kv_stride_bytes_list.len() != n
            || segments_list.len() != n {
            let mut m: String = String::from_str(
                "registration metadata length mismatch: layer_names=",
            );
            push_decimal(&mut m, n as u64);
            m.append(", data_ptrs=");
            push_decimal(&mut m, data_ptrs.len() as u64);
            m.append(", size_bytes=");
            push_decimal(&mut m, size_bytes_list.len() as u64);
            m.append(", num_blocks=");
            push_decimal(&mut m, num_blocks_list.len() as u64);
            m.append(", bytes_per_block=");
            push_decimal(&mut m, bytes_per_block_list.len() as u64);
            m.append(", kv_stride_bytes=");
            push_decimal(&mut m, kv_stride_bytes_list.len() as u64);
            m.append(", segments=");
            push_decimal(&mut m, segments_list.len() as u64);
            return Err(EngineError::InvalidArgument(m));
        }
        match block_stride_bytes_list {
            Some(strides) => {
                if strides.len() != n {
                    let mut m: String = String::from_str(
                        "registration metadata length mismatch: layer_names=",
                    );
                    push_decimal(&mut m, n as u64);
                    m.append(", block_stride_bytes=");
                    push_decimal(&mut m, strides.len() as u64);
                    return Err(EngineError::InvalidArgument(m));
                }
            },
            None => {},
        }
        match check_layers(layer_names, layout_faults) {
            Some(m) => {
                return Err(EngineError::InvalidArgument(m));
            },
            None => {},
        }
        let ssd_padding: bool = self.storage.is_ssd_enabled();
        let mut layers: Vec<(String, LayerLayout)> = Vec::new();
        let ghost wanted = all_layers(layer_names@, lists, ssd_padding);
        let mut i: usize = 0;
        assert(layer_views(layers@) =~= wanted.take(0));
        while i < n
            invariant
                i <= n,
                n == layer_names@.len(),
                lists.even(n as int),
                lists.strides_even(n as int),
                lists == (LayerLists {
                    data_ptrs: data_ptrs@,
                    size_bytes: size_bytes_list@,
                    num_blocks: num_blocks_list@,
                    bytes_per_block: bytes_per_block_list@,
                    kv_stride_bytes: kv_stride_bytes_list@,
                    segments: segments_list@,
                    block_strides: match block_stride_bytes_list {
                        Some(s) => Some(s@),
                        None => None,
                    },
                }),
                wanted == all_layers(layer_names@, lists, ssd_padding),
                layer_views(layers@) == wanted.take(i as int),
            decreases n - i,
        {
            let block_stride_bytes: Option<usize> = match block_stride_bytes_list {
                Some(strides) => Some(strides[i]),
                None => None,
            };
            let layout: LayerLayout = LayerLayout {
                data_ptr: data_ptrs[i],
                size_bytes: size_bytes_list[i],
                num_blocks: num_blocks_list[i],
                bytes_per_block: bytes_per_block_list[i],
                kv_stride_bytes: kv_stride_bytes_list[i],
                segments: segments_list[i],
                block_stride_bytes,
                ssd_padding,
            };
            let ghost shown = layer_views(layers@);
            let name: String = layer_names[i].clone();
            let ghost entry = (name@, layout);
            layers.push((name, layout));
            i += 1;
            assert(layer_views(layers@) =~= shown.push(entry));
            assert(wanted.take(i as int) =~= wanted.take(i - 1).push(entry));
        }
        assert(wanted.take(i as int) =~= wanted);
        match self.get_or_create_instance(instance_id, namespace, tp_size, world_size, page_first) {
            Ok(_) => {},
            Err(e) => {
                return Err(e);
            },
        }
        if self.storage.is_numa_enabled() && numa_node.is_unknown() {
            let mut m: String = String::from_str("NUMA-aware allocation is enabled, but GPU ");
            push_signed(&mut m, device_id as i64);
            m.append(
                " NUMA affinity is unknown. Please ensure the device management tool (nvidia-smi / npu-smi) is available and GPU NUMA topology is detectable, or disable NUMA-aware allocation.",
            );
            return Err(EngineError::InvalidArgument(m));
        }
        match validate_device_scope(&self.topology, device_id) {
            Ok(_) => {},
            Err(m) => {
                return Err(EngineError::InvalidArgument(m));
            },
        }
        Ok(RegisteredLayers { layers })
    }
}

impl PegaEngine {
    /// Registers the layers of a device whose blocks lie one behind the other.
    pub fn register_context_layer_batch(
        &mut self,
        instance_id: &str,
        namespace: &str,
        device_id: i32,
        tp_size: usize,
        world_size: usize,
        layer_names: &[String],
        data_ptrs: &[u64],
        size_bytes_list: &[usize],
        num_blocks_list: &[usize],
        bytes_per_block_list: &[usize],
        kv_stride_bytes_list: &[usize],
        segments_list: &[usize],
        page_first: bool,
        layout_faults: &[Option<String>],
        numa_node: NumaNode,
    ) -> (r: Result<RegisteredLayers, EngineError>)
        requires
            old(self).wf(),
            layout_faults@.len() == layer_names@.len(),
        ensures
            final(self).wf(),
            registers(
                *old(self),
                *final(self),
                instance_id@,
                namespace@,
                device_id,
                (tp_size, world_size, page_first),
                layer_names@,
                (LayerLists {
                    data_ptrs: data_ptrs@,
                    size_bytes: size_bytes_list@,
                    num_blocks: num_blocks_list@,
                    bytes_per_block: bytes_per_block_list@,
                    kv_stride_bytes: kv_stride_bytes_list@,
                    segments: segments_list@,
                    block_strides: None,
                }),
                layout_faults@,
                numa_node,
                r,
            ),
    {
        self.register_context_layer_batch_strided(
            instance_id,
            namespace,
            device_id,
            tp_size,
            world_size,
            layer_names,
            data_ptrs,
            size_bytes_list,
            num_blocks_list,
            bytes_per_block_list,
            kv_stride_bytes_list,
            segments_list,
            None,
            page_first,
            layout_faults,
            numa_node,
        )
    }
}

/// What is wrong with the first layer that something is wrong with.
fn check_layers(names: &[String], faults: &[Option<String>]) -> (r: Option<String>)
    requires
        faults@.len() == names@.len(),
    ensures
        match r {
            Some(m) => first_layer_fault(names@, faults@, names@.len() as int) == Some(m@),
            None => first_layer_fault(names@, faults@, names@.len() as int) is None,
        },
{
    let mut i: usize = 0;
    while i < names.len()
        invariant
            i <= names@.len(),
            faults@.len() == names@.len(),
            first_layer_fault(names@, faults@, i as int) is None,
        decreases names@.len() - i,
    {
        proof {
            lemma_layer_fault_stays(names@, faults@, i + 1, names@.len() as int);
        }
        match &faults[i] {
            Some(e) => {
                return Some(join4("layer ", &names[i], ": ", e));
            },
            None => {},
        }
        let mut k: usize = 0;
        while k < i
            invariant
                k <= i < names@.len(),
                forall|q: int| 0 <= q < k ==> (#[trigger] names@[q])@ != names@[i as int]@,
                faults@.len() == names@.len(),
                faults@[i as int] is None,
                first_layer_fault(names@, faults@, i as int) is None,
                first_layer_fault(names@, faults@, i + 1) is Some ==> first_layer_fault(
                    names@,
                    faults@,
                    names@.len() as int,
                ) == first_layer_fault(names@, faults@, i + 1),
            decreases i - k,
        {
            if same_text(&names[k], &names[i]) {
                assert(repeats(names@, i as int));
                return Some(join2("duplicate layer name in registration batch: ", &names[i]));
            }
            k += 1;
        }
        i += 1;
    }
    None
}

/// One block of a load: where it goes, the stored block, the slot to read, and the offset
/// of the layer in the slot.
#[derive(Debug)]
pub struct LoadBlock {
    pub block_idx: usize,
    pub sealed: Arc<SealedBlock>,
    pub slot_id: usize,
    pub offset: usize,
}

/// The blocks of one layer of a load.
#[derive(Debug)]
pub struct LayerLoad {
    pub layer_name: String,
    pub blocks: Vec<LoadBlock>,
}

/// What is known of a layer that is to be loaded.
#[derive(Debug)]
pub enum LayerLookup {
    /// The instance does not have it.
    Unknown(EngineError),
    /// The device does not have it.
    Unregistered,
    /// Where it is in a stored block.
    At { slot_id: usize, offset: usize },
}

/// A layer to load.
#[derive(Debug)]
pub struct LayerTarget {
    pub layer_name: String,
    pub place: LayerLookup,
}

/// What a lease holds, with the places that its blocks go to.
#[derive(Debug)]
pub struct LeasedBlocks {
    /// The blocks, or why there are none.
    pub blocks: Result<Vec<Arc<SealedBlock>>, String>,
    pub block_ids: Vec<usize>,
}

/// Why a load is refused.
pub enum LoadFault {
    Lease { reason: Seq<char> },
    Count { held: nat, wanted: nat },
    Slots { has: nat },
    Layer { error: EngineError },
    NotOnDevice { layer: Seq<char> },
    NoSlot { slot_id: usize, layer: Seq<char> },
}

/// Whether an error is the one for a fault.
pub open spec fn is_load_fault(
    e: EngineError,
    f: LoadFault,
    instance_id: Seq<char>,
    device_id: i32,
    total_slots: usize,
) -> bool {
    match f {
        LoadFault::Lease { reason } => e matches EngineError::Storage(m) && m@ == reason,
        LoadFault::Count { held, wanted } => invalid(
            e,
            "query lease block count "@ + decimal(held)
                + " does not match destination block count "@ + decimal(wanted),
        ),
        LoadFault::Slots { has } => invalid(
            e,
            "stored block has "@ + decimal(has) + " slots but instance "@ + instance_id
                + " expects "@ + decimal(total_slots as nat)
                + ": namespace is shared by incompatible KV layouts"@,
        ),
        LoadFault::Layer { error } => error_text(e) == error_text(error),
        LoadFault::NotOnDevice { layer } => invalid(
            e,
            "layer "@ + layer + " not registered on device "@ + signed_decimal(device_id as int),
        ),
        LoadFault::NoSlot { slot_id, layer } => invalid(
            e,
            "stored block is missing slot "@ + decimal(slot_id as nat) + " for layer "@ + layer,
        ),
    }
}

/// What is wrong with one lease.
pub open spec fn lease_fault(l: LeasedBlocks, total_slots: usize) -> Option<LoadFault> {
    match l.blocks {
        Err(reason) => Some(LoadFault::Lease { reason: reason@ }),
        Ok(blocks) => if blocks@.len() != l.block_ids@.len() {
            Some(LoadFault::Count { held: blocks@.len(), wanted: l.block_ids@.len() })
        } else {
            wrong_slots(blocks@, total_slots)
        },
    }
}

/// The first block that has not as many slots as it should.
pub open spec fn wrong_slots(blocks: Seq<Arc<SealedBlock>>, total_slots: usize) -> Option<
    LoadFault,
>
    decreases blocks.len(),
{
    if blocks.len() == 0 {
        None
    } else if wrong_slots(blocks.drop_last(), total_slots) is Some {
        wrong_slots(blocks.drop_last(), total_slots)
    } else if blocks.last().blocks().len() != total_slots {
        Some(LoadFault::Slots { has: blocks.last().blocks().len() })
    } else {
        None
    }
}

/// What is wrong with the first of the first `n` leases that something is wrong with.
pub open spec fn leases_fault(leases: Seq<LeasedBlocks>, total_slots: usize, n: int) -> Option<
    LoadFault,
>
    decreases n,
{
    if n <= 0 {
        None
    } else if leases_fault(leases, total_slots, n - 1) is Some {
        leases_fault(leases, total_slots, n - 1)
    } else {
        lease_fault(leases[n - 1], total_slots)
    }
}

/// The places and blocks of the first `n` leases.
pub open spec fn load_pairs(leases: Seq<LeasedBlocks>, n: int) -> Seq<(usize, Arc<SealedBlock>)>
    decreases n,
{
    if n <= 0 {
        Seq::empty()
    } else {
        load_pairs(leases, n - 1) + Seq::new(
            leases[n - 1].block_ids@.len(),
            |k: int| (leases[n - 1].block_ids@[k], (leases[n - 1].blocks->Ok_0)@[k]),
        )
    }
}

/// What is wrong with a layer, given how many blocks are loaded.
pub open spec fn target_fault(t: LayerTarget, pairs: Seq<(usize, Arc<SealedBlock>)>) -> Option<
    LoadFault,
> {
    match t.place {
        LayerLookup::Unknown(error) => Some(LoadFault::Layer { error }),
        LayerLookup::Unregistered => Some(LoadFault::NotOnDevice { layer: t.layer_name@ }),
        LayerLookup::At { slot_id, .. } => if exists|k: int|
            0 <= k < pairs.len() && slot_id >= (#[trigger] pairs[k]).1.blocks().len() {
            Some(LoadFault::NoSlot { slot_id, layer: t.layer_name@ })
        } else {
            None
        },
    }
}

/// What is wrong with the first of the first `n` layers that something is wrong with.
pub open spec fn targets_fault(
    targets: Seq<LayerTarget>,
    pairs: Seq<(usize, Arc<SealedBlock>)>,
    n: int,
) -> Option<LoadFault>
    decreases n,
{
    if n <= 0 {
        None
    } else if targets_fault(targets, pairs, n - 1) is Some {
        targets_fault(targets, pairs, n - 1)
    } else {
        target_fault(targets[n - 1], pairs)
    }
}

/// Whether a layer's load moves every block to its place, from the slot of the layer.
pub open spec fn is_layer_load(
    l: LayerLoad,
    t: LayerTarget,
    pairs: Seq<(usize, Arc<SealedBlock>)>,
) -> bool {
    &&& l.layer_name@ == t.layer_name@
    &&& l.blocks@.len() == pairs.len()
    &&& forall|k: int|
        0 <= k < pairs.len() ==> {
            &&& (#[trigger] l.blocks@[k]).block_idx == pairs[k].0
            &&& l.blocks@[k].sealed == pairs[k].1
            &&& t.place matches LayerLookup::At { slot_id, offset } && l.blocks@[k].slot_id
                == slot_id && l.blocks@[k].offset == offset
        }
}

proof fn lemma_wrong_slots_stay(blocks: Seq<Arc<SealedBlock>>, total_slots: usize, n: int)
    requires
        0 <= n <= blocks.len(),
    ensures
        wrong_slots(blocks.take(n), total_slots) is Some ==> wrong_slots(blocks, total_slots)
            == wrong_slots(blocks.take(n), total_slots),
    decreases blocks.len() - n,
{
    if n < blocks.len() {
        lemma_wrong_slots_stay(blocks, total_slots, n + 1);
        assert(blocks.take(n + 1).drop_last() =~= blocks.take(n));
    } else {
        assert(blocks.take(n) =~= blocks);
    }
}

proof fn lemma_leases_fault_stays(leases: Seq<LeasedBlocks>, total_slots: usize, m: int, n: int)
    requires
        m <= n,
    ensures
        leases_fault(leases, total_slots, m) is Some ==> leases_fault(leases, total_slots, n)
            == leases_fault(leases, total_slots, m),
    decreases n - m,
{
    if m < n {
        lemma_leases_fault_stays(leases, total_slots, m, n - 1);
    }
}

proof fn lemma_targets_fault_stays(
    targets: Seq<LayerTarget>,
    pairs: Seq<(usize, Arc<SealedBlock>)>,
    m: int,
    n: int,
)
    requires
        m <= n,
    ensures
        targets_fault(targets, pairs, m) is Some ==> targets_fault(targets, pairs, n)
            == targets_fault(targets, pairs, m),
    decreases n - m,
{
    if m < n {
        lemma_targets_fault_stays(targets, pairs, m, n - 1);
    }
}

/// The first block of a lease that has not as many slots as it should, as an error.
fn check_slots(blocks: &Vec<Arc<SealedBlock>>, instance_id: &str, total_slots: usize) -> (r: Option<
    EngineError,
>)
    ensures
        match r {
            Some(e) => wrong_slots(blocks@, total_slots) is Some && is_load_fault(
                e,
                wrong_slots(blocks@, total_slots)->0,
                instance_id@,
                0,
                total_slots,
            ) && wrong_slots(blocks@, total_slots)->0 is Slots,
            None => wrong_slots(blocks@, total_slots) is None,
        },
{
    let mut i: usize = 0;
    assert(blocks@.take(0) =~= Seq::<Arc<SealedBlock>>::empty());
    while i < blocks.len()
        invariant
            i <= blocks@.len(),
            wrong_slots(blocks@.take(i as int), total_slots) is None,
        decreases blocks@.len() - i,
    {
        proof {
            assert(blocks@.take(i + 1).drop_last() =~= blocks@.take(i as int));
            lemma_wrong_slots_stay(blocks@, total_slots, i + 1);
        }
        let has: usize = blocks[i].slots().len();
        if has != total_slots {
            let mut m: String = String::from_str("stored block has ");
            push_decimal(&mut m, has as u64);
            m.append(" slots but instance ");
            m.append(instance_id);
            m.append(" expects ");
            push_decimal(&mut m, total_slots as u64);
            m.append(": namespace is shared by incompatible KV layouts");
            return Some(EngineError::InvalidArgument(m));
        }
        i += 1;
    }
    assert(blocks@.take(i as int) =~= blocks@);
    None
}

/// A copy of an error.
fn same_error(e: &EngineError) -> (r: EngineError)
    ensures
        error_text(r) == error_text(*e),
{
    match e {
        EngineError::InstanceMissing(m) => EngineError::InstanceMissing(m.clone()),
        EngineError::WorkerMissing(m, d) => EngineError::WorkerMissing(m.clone(), *d),
        EngineError::InvalidArgument(m) => EngineError::InvalidArgument(m.clone()),
        EngineError::DeviceInit(m) => EngineError::DeviceInit(m.clone()),
        EngineError::Storage(m) => EngineError::Storage(m.clone()),
        EngineError::Poisoned(m) => EngineError::Poisoned(m),
        EngineError::TopologyMismatch(m) => EngineError::TopologyMismatch(m.clone()),
    }
}

/// Why a load is refused, if it is: the leases come first.
pub open spec fn load_fault(
    total_slots: usize,
    leases: Seq<LeasedBlocks>,
    targets: Seq<LayerTarget>,
) -> Option<LoadFault> {
    match leases_fault(leases, total_slots, leases.len() as int) {
        Some(f) => Some(f),
        None => targets_fault(
            targets,
            load_pairs(leases, leases.len() as int),
            targets.len() as int,
        ),
    }
}

/// Whether a load comes to `r`: every leased block goes to its place in each layer, unless
/// the load is refused.
pub open spec fn loads_layers(
    instance_id: Seq<char>,
    device_id: i32,
    total_slots: usize,
    leases: Seq<LeasedBlocks>,
    targets: Seq<LayerTarget>,
    r: Result<Vec<LayerLoad>, EngineError>,
) -> bool {
    let pairs = load_pairs(leases, leases.len() as int);
    let fault = load_fault(total_slots, leases, targets);
    match r {
        Err(e) => fault is Some && is_load_fault(e, fault->0, instance_id, device_id, total_slots),
        Ok(layers) => {
            &&& fault is None
            &&& if pairs.len() == 0 {
                layers@.len() == 0
            } else {
                &&& layers@.len() == targets.len()
                &&& forall|k: int|
                    0 <= k < layers@.len() ==> is_layer_load(
                        #[trigger] layers@[k],
                        targets[k],
                        pairs,
                    )
            }
        },
    }
}

/// What a load transfers: for each layer every leased block, to its place. A lease that
/// cannot be used, one with another number of blocks than places, and blocks with another
/// number of slots than the instance has are refused; so is a layer that the instance or
/// the device does not have. Without blocks there is nothing to transfer.
pub fn plan_load(
    instance_id: &str,
    device_id: i32,
    total_slots: usize,
    leases: &[LeasedBlocks],
    targets: &[LayerTarget],
) -> (r: Result<Vec<LayerLoad>, EngineError>)
    ensures
        loads_layers(instance_id@, device_id, total_slots, leases@, targets@, r),
{
    let mut block_ids: Vec<usize> = Vec::new();
    let mut cached: Vec<Arc<SealedBlock>> = Vec::new();
    let ghost n = leases@.len() as int;
    let mut i: usize = 0;
    while i < leases.len()
        invariant
            i <= leases@.len(),
            n == leases@.len(),
            leases_fault(leases@, total_slots, i as int) is None,
            block_ids@.len() == cached@.len(),
            load_pairs(leases@, i as int).len() == cached@.len(),
            forall|k: int|
                0 <= k < cached@.len() ==> #[trigger] load_pairs(leases@, i as int)[k] == (
                    block_ids@[k],
                    cached@[k],
                ),
        decreases leases@.len() - i,
    {
        proof {
            lemma_leases_fault_stays(leases@, total_slots, i + 1, n);
        }
        let lease: &LeasedBlocks = &leases[i];
        match &lease.blocks {
            Err(reason) => {
                return Err(EngineError::Storage(reason.clone()));
            },
            Ok(blocks) => {
                if blocks.len() != lease.block_ids.len() {
                    let mut m: String = String::from_str("query lease block count ");
                    push_decimal(&mut m, blocks.len() as u64);
                    m.append(" does not match destination block count ");
                    push_decimal(&mut m, lease.block_ids.len() as u64);
                    return Err(EngineError::InvalidArgument(m));
                }
                match check_slots(blocks, instance_id, total_slots) {
                    Some(e) => {
                        return Err(e);
                    },
                    None => {},
                }
                let ghost before = load_pairs(leases@, i as int);
                let ghost own = Seq::new(
                    lease.block_ids@.len(),
                    |k: int| (lease.block_ids@[k], blocks@[k]),
                );
                let mut k: usize = 0;
                while k < blocks.len()
                    invariant
                        k <= blocks@.len(),
                        blocks@.len() == lease.block_ids@.len(),
                        own.len() == blocks@.len(),
                        forall|q: int|
                            0 <= q < own.len() ==> #[trigger] own[q] == (
                                lease.block_ids@[q],
                                blocks@[q],
                            ),
                        block_ids@.len() == cached@.len(),
                        cached@.len() == before.len() + k,
                        forall|q: int|
                            0 <= q < before.len() ==> #[trigger] before[q] == (
                                block_ids@[q],
                                cached@[q],
                            ),
                        forall|q: int|
                            0 <= q < k ==> #[trigger] own[q] == (
                                block_ids@[before.len() + q],
                                cached@[before.len() + q],
                            ),
                    decreases blocks@.len() - k,
                {
                    block_ids.push(lease.block_ids[k]);
                    cached.push(share(&blocks[k]));
                    k += 1;
                }
                proof {
                    let after = load_pairs(leases@, i + 1);
                    assert(after =~= before + own);
                    assert forall|q: int| 0 <= q < cached@.len() implies #[trigger] after[q] == (
                        block_ids@[q],
                        cached@[q],
                    ) by {
                        if q < before.len() {
                            assert(after[q] == before[q]);
                        } else {
                            assert(after[q] == own[q - before.len()]);
                        }
                    }
                }
            },
        }
        i += 1;
    }
    let ghost pairs = load_pairs(leases@, n);
    let mut layers: Vec<LayerLoad> = Vec::new();
    let mut t: usize = 0;
    while t < targets.len()
        invariant
            t <= targets@.len(),
            n == leases@.len(),
            leases_fault(leases@, total_slots, n) is None,
            pairs == load_pairs(leases@, n),
            block_ids@.len() == cached@.len(),
            pairs.len() == cached@.len(),
            forall|k: int|
                0 <= k < cached@.len() ==> #[trigger] pairs[k] == (block_ids@[k], cached@[k]),
            targets_fault(targets@, pairs, t as int) is None,
            if pairs.len() == 0 {
                layers@.len() == 0
            } else {
                &&& layers@.len() == t
                &&& forall|k: int|
                    0 <= k < t ==> is_layer_load(#[trigger] layers@[k], targets@[k], pairs)
            },
        decreases targets@.len() - t,
    {
        proof {
            lemma_targets_fault_stays(targets@, pairs, t + 1, targets@.len() as int);
        }
        let target: &LayerTarget = &targets[t];
        let (slot_id, offset): (usize, usize) = match &target.place {
            LayerLookup::Unknown(error) => {
                return Err(same_error(error));
            },
            LayerLookup::Unregistered => {
                let mut m: String = join3("layer ", &target.layer_name, " not registered on device ");
                push_signed(&mut m, device_id as i64);
                return Err(EngineError::InvalidArgument(m));
            },
            LayerLookup::At { slot_id, offset } => (*slot_id, *offset),
        };
        let mut blocks: Vec<LoadBlock> = Vec::new();
        let mut k: usize = 0;
        while k < cached.len()
            invariant
                k <= cached@.len(),
                t < targets@.len(),
                n == leases@.len(),
                leases_fault(leases@, total_slots, n) is None,
                pairs == load_pairs(leases@, n),
                block_ids@.len() == cached@.len(),
                pairs.len() == cached@.len(),
                forall|q: int|
                    0 <= q < cached@.len() ==> #[trigger] pairs[q] == (block_ids@[q], cached@[q]),
                targets_fault(targets@, pairs, t as int) is None,
                *target == targets@[t as int],
                target.place matches LayerLookup::At { slot_id: s, offset: o } && s == slot_id
                    && o == offset,
                targets_fault(targets@, pairs, t + 1) is Some ==> targets_fault(
                    targets@,
                    pairs,
                    targets@.len() as int,
                ) == targets_fault(targets@, pairs, t + 1),
                blocks@.len() == k,
                forall|q: int| 0 <= q < k ==> slot_id < (#[trigger] pairs[q]).1.blocks().len(),
                forall|q: int|
                    0 <= q < k ==> {
                        &&& (#[trigger] blocks@[q]).block_idx == pairs[q].0
                        &&& blocks@[q].sealed == pairs[q].1
                        &&& blocks@[q].slot_id == slot_id
                        &&& blocks@[q].offset == offset
                    },
            decreases cached@.len() - k,
        {
            assert(pairs[k as int] == (block_ids@[k as int], cached@[k as int]));
            if cached[k].get_slot(slot_id).is_none() {
                assert(slot_id >= pairs[k as int].1.blocks().len());
                let mut m: String = String::from_str("stored block is missing slot ");
                push_decimal(&mut m, slot_id as u64);
                m.append(" for layer ");
                m.append(&target.layer_name);
                return Err(EngineError::InvalidArgument(m));
            }
            blocks.push(
                LoadBlock { block_idx: block_ids[k], sealed: share(&cached[k]), slot_id, offset },
            );
            k += 1;
        }
        if blocks.len() > 0 {
            let load: LayerLoad = LayerLoad { layer_name: target.layer_name.clone(), blocks };
            assert(is_layer_load(load, *target, pairs));
            layers.push(load);
        }
        t += 1;
    }
    Ok(layers)
}

/// The keys of some hashes in a namespace.
pub open spec fn keys_in(namespace: Seq<char>, hashes: Seq<Seq<u8>>) -> Seq<KeyView> {
    hashes.map_values(|h: Seq<u8>| (namespace, h))
}

fn keys_for(namespace: &str, block_hashes: &[Vec<u8>]) -> (r: Vec<BlockKey>)
    ensures
        key_views(r@) == keys_in(namespace@, byte_views(block_hashes@)),
{
    let mut keys: Vec<BlockKey> = Vec::new();
    let ghost wanted = keys_in(namespace@, byte_views(block_hashes@));
    let mut i: usize = 0;
    assert(key_views(keys@) =~= wanted.take(0));
    while i < block_hashes.len()
        invariant
            i <= block_hashes@.len(),
            wanted == keys_in(namespace@, byte_views(block_hashes@)),
            key_views(keys@) == wanted.take(i as int),
        decreases block_hashes@.len() - i,
    {
        let ghost shown = key_views(keys@);
        let key: BlockKey = BlockKey::new(
            String::from_str(namespace),
            copy_bytes(&block_hashes[i]),
        );
        let ghost view = key@;
        keys.push(key);
        i += 1;
        assert(key_views(keys@) =~= shown.push(view));
        assert(wanted.take(i as int) =~= wanted.take(i - 1).push(view));
    }
    assert(wanted.take(i as int) =~= wanted);
    keys
}

impl PegaEngine {
    /// Whether a lease on blocks can be made for an instance: for how many devices.
    pub fn check_query_lease(&self, instance_id: &str, blocks: usize) -> (r: Result<
        usize,
        EngineError,
    >)
        requires
            self.wf(),
        ensures
            match lookup(self.by_name(), instance_id@) {
                None => r matches Err(e) && missing_instance(e, instance_id@),
                Some((_, shape)) => if blocks == 0 {
                    r matches Err(e) && invalid(e, "query lease requires at least one block"@)
                } else {
                    r matches Ok(n) && n == shape.1
                },
            },
    {
        match self.get_instance(instance_id) {
            Ok(instance) => {
                if blocks == 0 {
                    return Err(
                        EngineError::InvalidArgument(
                            String::from_str("query lease requires at least one block"),
                        ),
                    );
                }
                Ok(instance.world_size)
            },
            Err(e) => Err(e),
        }
    }

    /// Whether blocks can be loaded for a device of an instance: how many slots its blocks
    /// have. `slots` is that number where all devices of the instance are registered, or why
    /// it is not known.
    pub fn check_load(
        &self,
        instance_id: &str,
        device_id: i32,
        slots: Result<usize, EngineError>,
        has_device: bool,
    ) -> (r: Result<usize, EngineError>)
        requires
            self.wf(),
        ensures
            if !has_key(self.by_name(), instance_id@) {
                r matches Err(e) && missing_instance(e, instance_id@)
            } else {
                match slots {
                    Err(e) => r == Err::<usize, EngineError>(e),
                    Ok(n) => if has_device {
                        r == Ok::<usize, EngineError>(n)
                    } else {
                        r matches Err(EngineError::WorkerMissing(id, d)) && id@ == instance_id@ && d
                            == device_id
                    },
                }
            },
    {
        match self.get_instance(instance_id) {
            Ok(_) => {},
            Err(e) => {
                return Err(e);
            },
        }
        match slots {
            Err(e) => Err(e),
            Ok(n) => {
                if !has_device {
                    return Err(
                        EngineError::WorkerMissing(String::from_str(instance_id), device_id),
                    );
                }
                Ok(n)
            },
        }
    }

    /// What a load for a device of an instance transfers. `slots` is the number of slots of
    /// the instance's blocks where all its devices are registered, or why it is not known.
    pub fn batch_load_kv_blocks_multi_layer(
        &self,
        instance_id: &str,
        device_id: i32,
        slots: Result<usize, EngineError>,
        has_device: bool,
        leases: &[LeasedBlocks],
        targets: &[LayerTarget],
    ) -> (r: Result<Vec<LayerLoad>, EngineError>)
        requires
            self.wf(),
        ensures
            if !has_key(self.by_name(), instance_id@) {
                r matches Err(e) && missing_instance(e, instance_id@)
            } else {
                match slots {
                    Err(e) => r == Err::<Vec<LayerLoad>, EngineError>(e),
                    Ok(n) => if has_device {
                        loads_layers(instance_id@, device_id, n, leases@, targets@, r)
                    } else {
                        r matches Err(EngineError::WorkerMissing(id, d)) && id@ == instance_id@ && d
                            == device_id
                    },
                }
            },
    {
        match self.check_load(instance_id, device_id, slots, has_device) {
            Ok(total_slots) => plan_load(instance_id, device_id, total_slots, leases, targets),
            Err(e) => Err(e),
        }
    }

    /// Evicts every block from memory.
    pub fn cleanup_memory_cache(&mut self) -> (r: MemoryCacheCleanupStats)
        requires
            old(self).wf(),
        ensures
            final(self).wf(),
            final(self).same_but_storage(*old(self)),
            final(self).storage.same_setup(old(self).storage),
            final(self).storage.evicted_from(old(self).storage),
            final(self).storage.read_cache.entries().len() == 0,
            r.evicted_blocks == old(self).storage.read_cache.entries().len(),
            r.evicted_bytes == capped(footprints(old(self).storage.read_cache.entries())),
            r.reclaimed_bytes == old(self).storage.allocator.used_bytes()
                - final(self).storage.allocator.used_bytes(),
            r.still_referenced_blocks <= r.evicted_blocks,
            frees_some(
                old(self).storage.allocator,
                final(self).storage.allocator,
                entry_handles(old(self).storage.read_cache.entries()),
            ),
    {
        self.storage.cleanup_memory_cache()
    }

    /// How long blocks stay locked for another node, in nanoseconds.
    pub fn transfer_lock_timeout(&self) -> (r: u64)
        ensures
            r == self.storage.transfer_lock.timeout(),
    {
        self.storage.transfer_lock_timeout()
    }

    /// Ends a session of another node, and returns how many blocks it held.
    pub fn release_transfer_lock(&mut self, session_id: &str) -> (r: usize)
        requires
            old(self).wf(),
        ensures
            final(self).wf(),
            final(self).same_but_storage(*old(self)),
            final(self).storage.same_but_locks(old(self).storage),
            as_map(final(self).storage.transfer_lock.sessions()) == as_map(
                old(self).storage.transfer_lock.sessions(),
            ).remove(session_id@),
            ({
                let held = match lookup(old(self).storage.transfer_lock.sessions(), session_id@) {
                    Some(s) => s.blocks,
                    None => Seq::empty(),
                };
                &&& r == held.len()
                &&& frees_some(
                    old(self).storage.allocator,
                    final(self).storage.allocator,
                    entry_handles(held),
                )
            }),
    {
        self.storage.release_transfer_lock(session_id)
    }

    /// Ends the sessions that have been held for the whole timeout, and returns how many
    /// that were.
    pub fn gc_expired_transfer_locks(&mut self, now: u64) -> (r: usize)
        requires
            old(self).wf(),
        ensures
            final(self).wf(),
            final(self).same_but_storage(*old(self)),
            final(self).storage.same_but_locks(old(self).storage),
            final(self).storage.transfer_lock.sessions() == live(
                old(self).storage.transfer_lock.sessions(),
                old(self).storage.transfer_lock.timeout(),
                now,
            ),
            r == old(self).storage.transfer_lock.sessions().len()
                - final(self).storage.transfer_lock.sessions().len(),
            frees_some(
                old(self).storage.allocator,
                final(self).storage.allocator,
                entry_handles(
                    freed(
                        old(self).storage.transfer_lock.sessions(),
                        old(self).storage.transfer_lock.timeout(),
                        now,
                    ),
                ),
            ),
    {
        self.storage.gc_expired_transfer_locks(now)
    }

    /// Where the pinned memory starts, and its length, for each contiguous piece.
    pub fn pinned_memory_regions(&self) -> (r: Vec<(u64, u64)>)
        ensures
            r@ == self.storage.allocator.regions(),
    {
        self.storage.pinned_memory_regions()
    }

    /// Looks up the blocks of a prefix that are cached for an instance: they are ready, and
    /// the rest is missing. Returns how many hit and how many miss.
    pub fn query_prefix(&mut self, instance_id: &str, block_hashes: &[Vec<u8>]) -> (r: Result<
        (Vec<Arc<SealedBlock>>, usize),
        EngineError,
    >)
        requires
            old(self).wf(),
        ensures
            final(self).wf(),
            final(self).instances == old(self).instances,
            final(self).topology == old(self).topology,
            final(self).rdma == old(self).rdma,
            final(self).storage.allocator == old(self).storage.allocator,
            final(self).storage.same_setup(old(self).storage),
            final(self).storage.removals == old(self).storage.removals,
            match lookup(old(self).by_name(), instance_id@) {
                None => {
                    &&& r matches Err(e) && missing_instance(e, instance_id@)
                    &&& final(self).storage == old(self).storage
                },
                Some((namespace, _)) => {
                    let keys = keys_in(namespace, byte_views(block_hashes@));
                    let n = prefix_len(old(self).storage.read_cache.entries(), keys);
                    &&& r matches Ok((blocks, missing)) && blocks@.len() == n && missing
                        == block_hashes@.len() - n && forall|k: int|
                        0 <= k < n ==> Some(#[trigger] blocks@[k]) == lookup(
                            old(self).storage.read_cache.entries(),
                            keys[k],
                        )
                    &&& final(self).storage.read_cache.entries() == touch_all(
                        old(self).storage.read_cache.entries(),
                        keys.take(n as int),
                    )
                },
            },
    {
        let namespace: String = match self.get_instance(instance_id) {
            Ok(instance) => instance.namespace.clone(),
            Err(e) => {
                return Err(e);
            },
        };
        let keys: Vec<BlockKey> = keys_for(namespace.as_str(), block_hashes);
        let ghost wanted = keys_in(namespace@, byte_views(block_hashes@));
        let (hit, blocks): (usize, Vec<Arc<SealedBlock>>) = self.storage.read_cache.get_prefix_blocks(
            keys.as_slice(),
        );
        proof {
            assert(key_views(keys@).len() == keys@.len());
            assert forall|k: int| 0 <= k < hit implies Some(#[trigger] blocks@[k]) == lookup(
                old(self).storage.read_cache.entries(),
                wanted[k],
            ) by {
                assert(key_views(keys@)[k] == keys@[k]@);
            }
        }
        Ok((blocks, block_hashes.len() - hit))
    }

    /// Looks blocks up and locks them for another node. Returns the name of the session
    /// and the blocks that were found.
    pub fn query_blocks_for_transfer(
        &mut self,
        namespace: &str,
        block_hashes: &[Vec<u8>],
        requester_id: &str,
        now: u64,
    ) -> (r: (String, Vec<(BlockKey, Arc<SealedBlock>)>))
        requires
            old(self).wf(),
        ensures
            final(self).wf(),
            final(self).instances == old(self).instances,
            final(self).topology == old(self).topology,
            final(self).rdma == old(self).rdma,
            final(self).storage.allocator == old(self).storage.allocator,
            final(self).storage.removals == old(self).storage.removals,
            final(self).storage.registers_blocks == old(self).storage.registers_blocks,
            final(self).storage.ssd_enabled == old(self).storage.ssd_enabled,
            final(self).storage.blockwise_alloc == old(self).storage.blockwise_alloc,
            final(self).storage.transfer_lock.timeout()
                == old(self).storage.transfer_lock.timeout(),
            final(self).storage.read_cache.policy() == old(self).storage.read_cache.policy(),
            final(self).storage.read_cache.entries() == touch_all(
                old(self).storage.read_cache.entries(),
                keys_in(namespace@, byte_views(block_hashes@)),
            ),
            is_uuid_text(r.0@),
            entry_views(r.1@) == found(
                old(self).storage.read_cache.entries(),
                keys_in(namespace@, byte_views(block_hashes@)),
            ),
            as_map(final(self).storage.transfer_lock.sessions()) == as_map(
                old(self).storage.transfer_lock.sessions(),
            ).insert(
                r.0@,
                (SessionView {
                    requester_id: requester_id@,
                    blocks: entry_views(r.1@),
                    locked_at: now,
                }),
            ),
    {
        let keys: Vec<BlockKey> = keys_for(namespace, block_hashes);
        let blocks: Vec<(BlockKey, Arc<SealedBlock>)> = self.storage.get_blocks_for_transfer(
            keys.as_slice(),
        );
        let session: String = self.storage.lock_blocks_for_transfer(
            requester_id,
            blocks.as_slice(),
            now,
        );
        (session, blocks)
    }
}

proof fn lemma_pair_there(leases: Seq<LeasedBlocks>, n: int, j: int, k: int) -> (p: int)
    requires
        0 <= j < n <= leases.len(),
        0 <= k < leases[j].block_ids@.len(),
    ensures
        0 <= p < load_pairs(leases, n).len(),
        load_pairs(leases, n)[p] == (leases[j].block_ids@[k], (leases[j].blocks->Ok_0)@[k]),
    decreases n,
{
    if j < n - 1 {
        lemma_pair_there(leases, n - 1, j, k)
    } else {
        load_pairs(leases, n - 1).len() + k
    }
}

/// A load that is planned brings every leased block into every layer: each layer has, for each
/// block of each lease, the block under the place that the lease names for it, in the slot and at
/// the offset of the layer. It brings no other blocks, and keeps the order of leases and blocks.
pub proof fn law_every_leased_block_is_loaded(
    instance_id: Seq<char>,
    device_id: i32,
    total_slots: usize,
    leases: Seq<LeasedBlocks>,
    targets: Seq<LayerTarget>,
    layers: Vec<LayerLoad>,
    t: int,
    j: int,
    k: int,
)
    requires
        loads_layers(instance_id, device_id, total_slots, leases, targets, Ok(layers)),
        0 <= t < targets.len(),
        0 <= j < leases.len(),
        0 <= k < leases[j].block_ids@.len(),
    ensures
        layers@.len() == targets.len(),
        layers@[t].layer_name@ == targets[t].layer_name@,
        exists|p: int|
            0 <= p < layers@[t].blocks@.len() && (#[trigger] layers@[t].blocks@[p]).block_idx
                == leases[j].block_ids@[k] && layers@[t].blocks@[p].sealed
                == (leases[j].blocks->Ok_0)@[k] && (targets[t].place matches LayerLookup::At {
                slot_id,
                offset,
            } && layers@[t].blocks@[p].slot_id == slot_id && layers@[t].blocks@[p].offset
                == offset),
        layers@[t].blocks@.len() == load_pairs(leases, leases.len() as int).len(),
        load_pairs(leases, j + 1).len() == load_pairs(leases, j).len() + leases[j].block_ids@.len(),
        load_pairs(leases, 0).len() == 0,
{
    let pairs = load_pairs(leases, leases.len() as int);
    let p = lemma_pair_there(leases, leases.len() as int, j, k);
    assert(is_layer_load(layers@[t], targets[t], pairs));
    assert(layers@[t].blocks@[p].block_idx == pairs[p].0);
}

/// A load can be planned exactly if every lease holds, has as many blocks as places, and each of
/// these has all slots of the instance, and every layer is on the device with a slot that every
/// block has.
pub proof fn law_loads_are_refused_for_a_reason(
    total_slots: usize,
    leases: Seq<LeasedBlocks>,
    targets: Seq<LayerTarget>,
)
    ensures
        leases_fault(leases, total_slots, leases.len() as int) is None <==> forall|j: int|
            0 <= j < leases.len() ==> lease_holds(#[trigger] leases[j], total_slots),
        load_fault(total_slots, leases, targets) is None <==> (forall|j: int|
            0 <= j < leases.len() ==> lease_holds(#[trigger] leases[j], total_slots)) && (forall|
            t: int,
        |
            0 <= t < targets.len() ==> layer_fits(
                #[trigger] targets[t],
                load_pairs(leases, leases.len() as int),
            )),
{
    lemma_leases_hold(leases, total_slots, leases.len() as int);
    lemma_layers_fit(targets, load_pairs(leases, leases.len() as int), targets.len() as int);
}

/// Whether a lease holds, has as many blocks as places, and each block has `total_slots` slots.
pub open spec fn lease_holds(l: LeasedBlocks, total_slots: usize) -> bool {
    l.blocks matches Ok(blocks) && blocks@.len() == l.block_ids@.len() && forall|k: int|
        0 <= k < blocks@.len() ==> (#[trigger] blocks@[k]).blocks().len() == total_slots
}

/// Whether a layer is on the device, in a slot that every block has.
pub open spec fn layer_fits(t: LayerTarget, pairs: Seq<(usize, Arc<SealedBlock>)>) -> bool {
    t.place matches LayerLookup::At { slot_id, .. } && forall|k: int|
        0 <= k < pairs.len() ==> slot_id < (#[trigger] pairs[k]).1.blocks().len()
}

proof fn lemma_right_slots(blocks: Seq<Arc<SealedBlock>>, total_slots: usize)
    ensures
        wrong_slots(blocks, total_slots) is None <==> forall|k: int|
            0 <= k < blocks.len() ==> (#[trigger] blocks[k]).blocks().len() == total_slots,
    decreases blocks.len(),
{
    if blocks.len() > 0 {
        let front = blocks.drop_last();
        lemma_right_slots(front, total_slots);
        assert(blocks[blocks.len() - 1] == blocks.last());
        assert forall|k: int| 0 <= k < front.len() implies front[k] == #[trigger] blocks[k] by {}
    }
}

proof fn lemma_leases_hold(leases: Seq<LeasedBlocks>, total_slots: usize, n: int)
    requires
        0 <= n <= leases.len(),
    ensures
        leases_fault(leases, total_slots, n) is None <==> forall|j: int|
            0 <= j < n ==> lease_holds(#[trigger] leases[j], total_slots),
    decreases n,
{
    if n > 0 {
        lemma_leases_hold(leases, total_slots, n - 1);
        if let Ok(blocks) = leases[n - 1].blocks {
            lemma_right_slots(blocks@, total_slots);
        }
    }
}

proof fn lemma_layers_fit(
    targets: Seq<LayerTarget>,
    pairs: Seq<(usize, Arc<SealedBlock>)>,
    n: int,
)
    requires
        0 <= n <= targets.len(),
    ensures
        targets_fault(targets, pairs, n) is None <==> forall|t: int|
            0 <= t < n ==> layer_fits(#[trigger] targets[t], pairs),
    decreases n,
{
    if n > 0 {
        lemma_layers_fit(targets, pairs, n - 1);
    }
}

/// Layers can be registered exactly if their lists are all as long as their names, no layer has a
/// fault or a name twice, the instance is new with a shape or has the same shape, and the device
/// may be used, with a known node where memory is divided by node.
pub proof fn law_registrations_are_refused_for_a_reason(
    engine: PegaEngine,
    id: Seq<char>,
    device_id: i32,
    shape: Shape,
    names: Seq<String>,
    lists: LayerLists,
    faults: Seq<Option<String>>,
    numa_node: NumaNode,
)
    requires
        faults.len() == names.len(),
    ensures
        registration_fault(engine, id, device_id, shape, names, lists, faults, numa_node) is None
            <==> {
            &&& lists.data_ptrs.len() == names.len()
            &&& lists.size_bytes.len() == names.len()
            &&& lists.num_blocks.len() == names.len()
            &&& lists.bytes_per_block.len() == names.len()
            &&& lists.kv_stride_bytes.len() == names.len()
            &&& lists.segments.len() == names.len()
            &&& lists.block_strides matches Some(s) ==> s.len() == names.len()
            &&& forall|i: int| 0 <= i < names.len() ==> (#[trigger] faults[i]) is None
            &&& forall|i: int, j: int|
                0 <= i < j < names.len() ==> (#[trigger] names[i])@ != (#[trigger] names[j])@
            &&& match lookup(engine.by_name(), id) {
                Some((_, known)) => known == shape,
                None => shape.0 > 0 && shape.1 > 0,
            }
            &&& engine.storage.allocator is Numa ==> numa_node.known()
            &&& engine.topology.allows(device_id)
        },
{
    lemma_layers_in_order(names, faults, names.len() as int);
}

proof fn lemma_layers_in_order(names: Seq<String>, faults: Seq<Option<String>>, n: int)
    requires
        0 <= n <= names.len(),
    ensures
        first_layer_fault(names, faults, n) is None <==> (forall|i: int|
            0 <= i < n ==> (#[trigger] faults[i]) is None) && (forall|i: int, j: int|
            0 <= i < j < n ==> (#[trigger] names[i])@ != (#[trigger] names[j])@),
    decreases n,
{
    if n > 0 {
        lemma_layers_in_order(names, faults, n - 1);
        if repeats(names, n - 1) {
            let k = choose|k: int| 0 <= k < n - 1 && (#[trigger] names[k])@ == names[n - 1]@;
            assert(names[k]@ == names[n - 1]@);
        } else {
            assert forall|i: int| 0 <= i < n - 1 implies (#[trigger] names[i])@ != names[n - 1]@ by {
            }
        }
    }
}

/// What is registered of a layer is what its lists say of it.
pub proof fn law_layers_are_registered_as_described(
    names: Seq<String>,
    lists: LayerLists,
    ssd_padding: bool,
    i: int,
)
    requires
        0 <= i < names.len(),
    ensures
        all_layers(names, lists, ssd_padding).len() == names.len(),
        all_layers(names, lists, ssd_padding)[i].0 == names[i]@,
        ({
            let l = all_layers(names, lists, ssd_padding)[i].1;
            &&& l.data_ptr == lists.data_ptrs[i]
            &&& l.size_bytes == lists.size_bytes[i]
            &&& l.num_blocks == lists.num_blocks[i]
            &&& l.bytes_per_block == lists.bytes_per_block[i]
            &&& l.kv_stride_bytes == lists.kv_stride_bytes[i]
            &&& l.segments == lists.segments[i]
            &&& l.ssd_padding == ssd_padding
            &&& match lists.block_strides {
                Some(s) => l.block_stride_bytes == Some(s[i]),
                None => l.block_stride_bytes is None,
            }
        }),
{
}

/// An instance that is known stays as it is; a new one is added under its name with its namespace
/// and shape, and no other is touched.
pub proof fn law_instances_are_added_once(
    before: PegaEngine,
    after: PegaEngine,
    id: Seq<char>,
    namespace: Seq<char>,
    shape: Shape,
    other: Seq<char>,
)
    requires
        before.wf(),
        after.wf(),
        instance_ensured(before, after, id, namespace, shape),
        other != id,
    ensures
        lookup(before.by_name(), id) is Some ==> after.instances == before.instances,
        lookup(before.by_name(), id) is None ==> as_map(after.by_name()).contains_key(id) && as_map(
            after.by_name(),
        )[id] == (namespace, shape),
        as_map(after.by_name()).contains_key(other) == as_map(before.by_name()).contains_key(other),
        as_map(before.by_name()).contains_key(other) ==> as_map(after.by_name())[other] == as_map(
            before.by_name(),
        )[other],
{
}

/// Layers are registered exactly where nothing is wrong with them, and the instance is there then;
/// storage, devices and transport stay as they are in any case.
pub proof fn law_registering_adds_the_instance(
    before: PegaEngine,
    after: PegaEngine,
    id: Seq<char>,
    namespace: Seq<char>,
    device_id: i32,
    shape: Shape,
    names: Seq<String>,
    lists: LayerLists,
    faults: Seq<Option<String>>,
    numa_node: NumaNode,
    r: Result<RegisteredLayers, EngineError>,
)
    requires
        registers(
            before,
            after,
            id,
            namespace,
            device_id,
            shape,
            names,
            lists,
            faults,
            numa_node,
            r,
        ),
    ensures
        after.storage == before.storage,
        after.topology == before.topology,
        after.rdma == before.rdma,
        r is Ok <==> registration_fault(
            before,
            id,
            device_id,
            shape,
            names,
            lists,
            faults,
            numa_node,
        ) is None,
        r matches Ok(registered) ==> instance_ensured(before, after, id, namespace, shape)
            && layer_views(registered.layers@) == all_layers(
            names,
            lists,
            before.storage.ssd_enabled,
        ),
        refuses_shape(before, id, shape) ==> after.instances == before.instances && r is Err,
{
}

/// Instances and layers are shown whole and in order, and the keys of hashes are those in their
/// namespace.
pub proof fn law_instances_are_shown_whole(
    instances: Seq<(String, InstanceInfo)>,
    layers: Seq<(String, LayerLayout)>,
    namespace: Seq<char>,
    hashes: Seq<Seq<u8>>,
    a: PegaEngine,
    b: PegaEngine,
    i: int,
)
    ensures
        instance_views(instances).len() == instances.len(),
        0 <= i < instances.len() ==> instance_views(instances)[i].0 == instances[i].0@
            && instance_views(instances)[i].1.0 == instances[i].1.namespace@ && instance_views(
            instances,
        )[i].1.1 == (instances[i].1.tp_size, instances[i].1.world_size, instances[i].1.page_first),
        layer_views(layers).len() == layers.len(),
        0 <= i < layers.len() ==> layer_views(layers)[i] == (layers[i].0@, layers[i].1),
        keys_in(namespace, hashes).len() == hashes.len(),
        0 <= i < hashes.len() ==> keys_in(namespace, hashes)[i] == (namespace, hashes[i]),
        a.same_but_storage(b) ==> a.instances == b.instances && a.topology == b.topology && a.rdma
            == b.rdma,
{
}

} // verus!
