//! The requests of clients and of other nodes: which are accepted, and what is answered.

use std::sync::Arc;
use vstd::prelude::*;
use vstd::string::*;
use crate::block::{
    copy_bytes, BlockKey, LayerBlock, LayerSave, PrefetchStatus, RawBlock, SealedBlock,
};
use crate::engine::{
    all_layers, error_text, instance_ensured, layer_views, layers_in_order, refuses_shape,
    registration_fault, EngineError, LayerLists, PegaEngine, RegisteredLayers, Shape,
};
use crate::keyed::{
    as_map, find_named, has_key, lemma_place, lemma_push, lemma_remove, lemma_update, lookup, named,
    unique_keys,
};
use crate::numa::NumaNode;
use crate::rdma_fetch::rebuild::{made_of, rebuilt};
use crate::rdma_fetch::segments::{
    lemma_segments_before, segments_before, segments_of, slot_segments, TransferBlockInfo,
    TransferSlotInfo,
};
use crate::rdma_fetch::staging::{stages, stands_for, StagedSegment};
use crate::read_cache::{entry_views, EntryView};
use crate::server::registry::{
    context_fault, first_tensor_fault, handles_under, layer_names, layer_tensors, others,
    ContextView, CudaTensorRegistry, LayerResult, LayerTensor, TensorMetadata,
};
use crate::storage::config::texts;
use crate::text::{
    decimal, join2, join3, lemma_decimal_digits, lemma_decimal_injective,
    lemma_split_at_last_separator, push_decimal, push_signed, same_text, signed_decimal,
};

verus! {

/// What kind of error a request is answered with.
#[derive(Clone, Copy, Debug, PartialEq, Eq, Structural)]
pub enum Code {
    InvalidArgument,
    FailedPrecondition,
    NotFound,
    Internal,
}

/// An error that a request is answered with.
#[derive(Debug, PartialEq, Eq)]
pub struct Status {
    pub code: Code,
    pub message: String,
}

/// Whether an error is of a kind and says something.
pub open spec fn is_status(s: Status, code: Code, message: Seq<char>) -> bool {
    s.code == code && s.message@ == message
}

fn invalid_argument(message: String) -> (r: Status)
    ensures
        is_status(r, Code::InvalidArgument, message@),
{
    Status { code: Code::InvalidArgument, message }
}

/// What kind of error an error of the engine is for a client.
pub open spec fn code_of(e: EngineError) -> Code {
    match e {
        EngineError::InvalidArgument(_) => Code::InvalidArgument,
        EngineError::InstanceMissing(_) => Code::FailedPrecondition,
        EngineError::WorkerMissing(_, _) => Code::FailedPrecondition,
        EngineError::TopologyMismatch(_) => Code::FailedPrecondition,
        EngineError::DeviceInit(_) => Code::Internal,
        EngineError::Storage(_) => Code::Internal,
        EngineError::Poisoned(_) => Code::Internal,
    }
}

/// What a client is told of an error of the engine.
pub fn map_engine_error(err: EngineError) -> (r: Status)
    ensures
        is_status(r, code_of(err), error_text(err)),
{
    let message: String = err.message();
    let code: Code = match err {
        EngineError::InvalidArgument(_) => Code::InvalidArgument,
        EngineError::InstanceMissing(_) => Code::FailedPrecondition,
        EngineError::WorkerMissing(_, _) => Code::FailedPrecondition,
        EngineError::TopologyMismatch(_) => Code::FailedPrecondition,
        EngineError::DeviceInit(_) => Code::Internal,
        EngineError::Storage(_) => Code::Internal,
        EngineError::Poisoned(_) => Code::Internal,
    };
    Status { code, message }
}

/// What is said of a number that is too large.
pub open spec fn too_large_text(value: u64, field: Seq<char>) -> Seq<char> {
    field + "="@ + decimal(value as nat) + " does not fit into usize"@
}

/// A number as a size.
pub fn usize_from_u64(value: u64, field: &str) -> (r: Result<usize, Status>)
    ensures
        if value <= usize::MAX {
            r matches Ok(n) && n == value
        } else {
            r matches Err(s) && is_status(s, Code::InvalidArgument, too_large_text(value, field@))
        },
{
    if value > usize::MAX as u64 {
        let mut m: String = join2(field, "=");
        push_decimal(&mut m, value);
        m.append(" does not fit into usize");
        return Err(invalid_argument(m));
    }
    Ok(value as usize)
}

/// The first of the first `n` numbers that is too large.
pub open spec fn first_too_large(values: Seq<u64>, n: int) -> Option<u64>
    decreases n,
{
    if n <= 0 {
        None
    } else if first_too_large(values, n - 1) is Some {
        first_too_large(values, n - 1)
    } else if values[n - 1] > usize::MAX {
        Some(values[n - 1])
    } else {
        None
    }
}

proof fn lemma_too_large_stays(values: Seq<u64>, m: int, n: int)
    requires
        m <= n,
    ensures
        first_too_large(values, m) is Some ==> first_too_large(values, n) == first_too_large(
            values,
            m,
        ),
    decreases n - m,
{
    if m < n {
        lemma_too_large_stays(values, m, n - 1);
    }
}

/// Numbers as sizes.
pub open spec fn sizes_of(values: Seq<u64>) -> Seq<usize> {
    values.map_values(|v: u64| v as usize)
}

fn sizes_from(values: &[u64], field: &str) -> (r: Result<Vec<usize>, Status>)
    ensures
        match first_too_large(values@, values@.len() as int) {
            None => r matches Ok(v) && v@ == sizes_of(values@),
            Some(value) => r matches Err(s) && is_status(
                s,
                Code::InvalidArgument,
                too_large_text(value, field@),
            ),
        },
{
    let mut r: Vec<usize> = Vec::new();
    let mut i: usize = 0;
    while i < values.len()
        invariant
            i <= values@.len(),
            first_too_large(values@, i as int) is None,
            r@ == sizes_of(values@).take(i as int),
        decreases values@.len() - i,
    {
        proof {
            lemma_too_large_stays(values@, i + 1, values@.len() as int);
        }
        match usize_from_u64(values[i], field) {
            Ok(n) => {
                r.push(n);
            },
            Err(s) => {
                return Err(s);
            },
        }
        i += 1;
        assert(r@ =~= sizes_of(values@).take(i as int));
    }
    assert(r@ =~= sizes_of(values@));
    Ok(r)
}

/// Refuses a negative device.
pub fn validate_device_id(device_id: i32) -> (r: Result<(), Status>)
    ensures
        if device_id < 0 {
            r matches Err(s) && is_status(
                s,
                Code::InvalidArgument,
                "device_id "@ + signed_decimal(device_id as int) + " must be >= 0"@,
            )
        } else {
            r is Ok
        },
{
    if device_id < 0 {
        let mut m: String = String::from_str("device_id ");
        push_signed(&mut m, device_id as i64);
        m.append(" must be >= 0");
        return Err(invalid_argument(m));
    }
    Ok(())
}

/// The registration of a device's layers.
#[derive(Debug)]
pub struct RegisterContextRequest {
    pub instance_id: String,
    pub namespace: String,
    pub client_version: String,
    pub tp_rank: u32,
    pub pp_rank: u32,
    pub tp_size: u32,
    pub world_size: u32,
    pub device_id: i32,
    pub layer_names: Vec<String>,
    pub wrapper_count: usize,
    pub num_blocks: Vec<u64>,
    pub bytes_per_block: Vec<u64>,
    pub kv_stride_bytes: Vec<u64>,
    pub segments: Vec<u32>,
    pub page_first: bool,
}

/// The version that a client names, or that it names none.
pub open spec fn shown_version(version: Seq<char>) -> Seq<char> {
    if version.len() == 0 {
        "<missing>"@
    } else {
        version
    }
}

/// Why a registration is refused for its arguments alone.
pub open spec fn request_fault(req: RegisterContextRequest, version: Seq<char>) -> Option<
    (Code, Seq<char>),
> {
    if req.client_version@ != version {
        Some(
            (
                Code::FailedPrecondition,
                "PegaFlow version mismatch: client="@ + shown_version(req.client_version@)
                    + " server="@ + version,
            ),
        )
    } else if req.device_id < 0 {
        Some(
            (
                Code::InvalidArgument,
                "device_id "@ + signed_decimal(req.device_id as int) + " must be >= 0"@,
            ),
        )
    } else if req.tp_size == 0 {
        Some((Code::InvalidArgument, "tp_size must be > 0"@))
    } else if req.world_size == 0 {
        Some((Code::InvalidArgument, "world_size must be > 0"@))
    } else if req.tp_rank >= req.tp_size {
        Some(
            (
                Code::InvalidArgument,
                "tp_rank "@ + decimal(req.tp_rank as nat) + " out of range (tp_size "@ + decimal(
                    req.tp_size as nat,
                ) + ")"@,
            ),
        )
    } else {
        None
    }
}

/// Refuses a registration for its arguments alone: a client of another version, a negative
/// device, and ranks that do not fit.
pub fn validate_register_context_request(req: &RegisterContextRequest, version: &str) -> (r: Result<
    (),
    Status,
>)
    ensures
        match request_fault(*req, version@) {
            Some((code, text)) => r matches Err(s) && is_status(s, code, text),
            None => r is Ok,
        },
{
    if !same_text(req.client_version.as_str(), version) {
        let shown: &str = if req.client_version.as_str().is_empty() {
            "<missing>"
        } else {
            req.client_version.as_str()
        };
        let mut m: String = join3("PegaFlow version mismatch: client=", shown, " server=");
        m.append(version);
        return Err(Status { code: Code::FailedPrecondition, message: m });
    }
    match validate_device_id(req.device_id) {
        Ok(_) => {},
        Err(s) => {
            return Err(s);
        },
    }
    if req.tp_size == 0 {
        return Err(invalid_argument(String::from_str("tp_size must be > 0")));
    }
    if req.world_size == 0 {
        return Err(invalid_argument(String::from_str("world_size must be > 0")));
    }
    if req.tp_rank >= req.tp_size {
        let mut m: String = String::from_str("tp_rank ");
        push_decimal(&mut m, req.tp_rank as u64);
        m.append(" out of range (tp_size ");
        push_decimal(&mut m, req.tp_size as u64);
        m.append(")");
        return Err(invalid_argument(m));
    }
    Ok(())
}

/// What a client saves of one layer.
#[derive(Debug)]
pub struct SaveLayer {
    pub layer_name: String,
    pub block_ids: Vec<u32>,
    pub block_hashes: Vec<Vec<u8>>,
}

/// Whether a layer has a hash for each block.
pub open spec fn layer_matches(l: SaveLayer) -> bool {
    l.block_ids@.len() == l.block_hashes@.len()
}

/// What is said of a layer that has not a hash for each block.
pub open spec fn save_fault(l: SaveLayer) -> Seq<char> {
    "block_ids length "@ + decimal(l.block_ids@.len()) + " does not match block_hashes "@
        + decimal(l.block_hashes@.len()) + " for layer "@ + l.layer_name@
}

/// Refuses layers that have not a hash for each block; the first of them is named.
pub fn validate_save_layers(saves: &[SaveLayer]) -> (r: Result<(), Status>)
    ensures
        match r {
            Ok(_) => forall|k: int| 0 <= k < saves@.len() ==> layer_matches(#[trigger] saves@[k]),
            Err(s) => exists|k: int|
                0 <= k < saves@.len() && !layer_matches(#[trigger] saves@[k]) && (forall|j: int|
                    0 <= j < k ==> layer_matches(#[trigger] saves@[j])) && is_status(
                    s,
                    Code::InvalidArgument,
                    save_fault(saves@[k]),
                ),
        },
{
    let mut i: usize = 0;
    while i < saves.len()
        invariant
            i <= saves@.len(),
            forall|k: int| 0 <= k < i ==> layer_matches(#[trigger] saves@[k]),
        decreases saves@.len() - i,
    {
        let layer: &SaveLayer = &saves[i];
        if layer.block_ids.len() != layer.block_hashes.len() {
            let mut m: String = String::from_str("block_ids length ");
            push_decimal(&mut m, layer.block_ids.len() as u64);
            m.append(" does not match block_hashes ");
            push_decimal(&mut m, layer.block_hashes.len() as u64);
            m.append(" for layer ");
            m.append(&layer.layer_name);
            assert(!layer_matches(saves@[i as int]));
            return Err(invalid_argument(m));
        }
        i += 1;
    }
    Ok(())
}

/// A question which blocks of a prefix are cached.
#[derive(Debug)]
pub struct QueryRequest {
    pub instance_id: String,
    pub block_hashes: Vec<Vec<u8>>,
    pub req_id: String,
}

/// Refuses a question without a name. One about no blocks is in order.
pub fn validate_query_prefetch_request(req: &QueryRequest) -> (r: Result<(), Status>)
    ensures
        if req.req_id@.len() == 0 {
            r matches Err(s) && is_status(s, Code::InvalidArgument, "req_id must not be empty"@)
        } else {
            r is Ok
        },
{
    if req.req_id.as_str().is_empty() {
        return Err(invalid_argument(String::from_str("req_id must not be empty")));
    }
    Ok(())
}

/// Refuses a session without an instance.
pub fn validate_session(instance_id: &str) -> (r: Result<(), Status>)
    ensures
        if instance_id@.len() == 0 {
            r matches Err(s) && is_status(
                s,
                Code::InvalidArgument,
                "instance_id must not be empty"@,
            )
        } else {
            r is Ok
        },
{
    if instance_id.is_empty() {
        return Err(invalid_argument(String::from_str("instance_id must not be empty")));
    }
    Ok(())
}

/// The key of the context of a device of an instance.
pub open spec fn key_text(
    instance_id: Seq<char>,
    tp_rank: u32,
    pp_rank: u32,
    device_id: i32,
) -> Seq<char> {
    instance_id + ":tp"@ + decimal(tp_rank as nat) + ":pp"@ + decimal(pp_rank as nat) + ":dev"@
        + signed_decimal(device_id as int)
}

/// The key of the context of a device of an instance.
pub fn context_key(instance_id: &str, tp_rank: u32, pp_rank: u32, device_id: i32) -> (r: String)
    ensures
        r@ == key_text(instance_id@, tp_rank, pp_rank, device_id),
{
    let mut m: String = join2(instance_id, ":tp");
    push_decimal(&mut m, tp_rank as u64);
    m.append(":pp");
    push_decimal(&mut m, pp_rank as u64);
    m.append(":dev");
    push_signed(&mut m, device_id as i64);
    m
}

proof fn lemma_no_colon(prefix: Seq<char>, n: nat)
    requires
        !prefix.contains(':'),
    ensures
        !(prefix + decimal(n)).contains(':'),
{
    lemma_decimal_digits(n);
    let s = prefix + decimal(n);
    if s.contains(':') {
        let k = choose|k: int| 0 <= k < s.len() && s[k] == ':';
        if k < prefix.len() {
            assert(prefix[k] == ':');
        } else {
            assert(s[k] == decimal(n)[k - prefix.len()]);
        }
    }
}

proof fn lemma_signed_no_colon(n: int)
    ensures
        !("dev"@ + signed_decimal(n)).contains(':'),
{
    reveal_strlit("dev");
    assert(!"dev"@.contains(':'));
    if n < 0 {
        let s = "dev"@ + signed_decimal(n);
        let p = "dev"@ + seq!['-'];
        assert(s =~= p + decimal((-n) as nat));
        assert(!p.contains(':')) by {
            if p.contains(':') {
                let k = choose|k: int| 0 <= k < p.len() && p[k] == ':';
                if k < 3 {
                    assert("dev"@[k] == ':');
                }
            }
        }
        lemma_no_colon(p, (-n) as nat);
    } else {
        lemma_no_colon("dev"@, n as nat);
    }
}

/// Different devices of instances have different contexts, whatever the instances are
/// called.
pub proof fn law_context_keys_are_unique(
    a: (Seq<char>, u32, u32, i32),
    b: (Seq<char>, u32, u32, i32),
)
    requires
        key_text(a.0, a.1, a.2, a.3) == key_text(b.0, b.1, b.2, b.3),
    ensures
        a == b,
{
    reveal_strlit(":tp");
    reveal_strlit(":pp");
    reveal_strlit(":dev");
    reveal_strlit("dev");
    let tp = seq!['t', 'p'];
    let pp = seq!['p', 'p'];
    let sep = seq![':'];
    let x0 = a.0 + sep + (tp + decimal(a.1 as nat));
    let y0 = b.0 + sep + (tp + decimal(b.1 as nat));
    let x1 = x0 + sep + (pp + decimal(a.2 as nat));
    let y1 = y0 + sep + (pp + decimal(b.2 as nat));
    let x2 = x1 + sep + ("dev"@ + signed_decimal(a.3 as int));
    let y2 = y1 + sep + ("dev"@ + signed_decimal(b.3 as int));
    assert(key_text(a.0, a.1, a.2, a.3) =~= x2);
    assert(key_text(b.0, b.1, b.2, b.3) =~= y2);
    lemma_signed_no_colon(a.3 as int);
    lemma_signed_no_colon(b.3 as int);
    lemma_split_at_last_separator(
        x1,
        "dev"@ + signed_decimal(a.3 as int),
        y1,
        "dev"@ + signed_decimal(b.3 as int),
        ':',
    );
    assert(!pp.contains(':') && !tp.contains(':'));
    lemma_no_colon(pp, a.2 as nat);
    lemma_no_colon(pp, b.2 as nat);
    lemma_split_at_last_separator(
        x0,
        pp + decimal(a.2 as nat),
        y0,
        pp + decimal(b.2 as nat),
        ':',
    );
    lemma_no_colon(tp, a.1 as nat);
    lemma_no_colon(tp, b.1 as nat);
    lemma_split_at_last_separator(
        a.0,
        tp + decimal(a.1 as nat),
        b.0,
        tp + decimal(b.1 as nat),
        ':',
    );
    assert(decimal(a.1 as nat) =~= (tp + decimal(a.1 as nat)).skip(2));
    assert(decimal(b.1 as nat) =~= (tp + decimal(b.1 as nat)).skip(2));
    lemma_decimal_injective(a.1 as nat, b.1 as nat);
    assert(decimal(a.2 as nat) =~= (pp + decimal(a.2 as nat)).skip(2));
    assert(decimal(b.2 as nat) =~= (pp + decimal(b.2 as nat)).skip(2));
    lemma_decimal_injective(a.2 as nat, b.2 as nat);
    lemma_signed_injective(a.3 as int, b.3 as int);
}

proof fn lemma_signed_injective(a: int, b: int)
    requires
        "dev"@ + signed_decimal(a) == "dev"@ + signed_decimal(b),
    ensures
        a == b,
{
    let n = "dev"@.len() as int;
    let x = signed_decimal(a);
    let y = signed_decimal(b);
    assert(x =~= ("dev"@ + x).skip(n));
    assert(y =~= ("dev"@ + y).skip(n));
    lemma_decimal_digits(if a < 0 {
        (-a) as nat
    } else {
        a as nat
    });
    lemma_decimal_digits(if b < 0 {
        (-b) as nat
    } else {
        b as nat
    });
    if a < 0 {
        assert(x[0] == '-');
    } else {
        assert(x[0] == decimal(a as nat)[0]);
    }
    if b < 0 {
        assert(y[0] == '-');
    } else {
        assert(y[0] == decimal(b as nat)[0]);
    }
    if a < 0 && b < 0 {
        assert(decimal((-a) as nat) =~= x.skip(1));
        assert(decimal((-b) as nat) =~= y.skip(1));
        lemma_decimal_injective((-a) as nat, (-b) as nat);
    } else if a >= 0 && b >= 0 {
        lemma_decimal_injective(a as nat, b as nat);
    }
}

/// Removing an instance removes the contexts of all its devices.
pub proof fn law_instances_own_their_contexts(
    instance_id: Seq<char>,
    tp_rank: u32,
    pp_rank: u32,
    device_id: i32,
)
    ensures
        crate::text::has_prefix(
            key_text(instance_id, tp_rank, pp_rank, device_id),
            instance_id + ":"@,
        ),
{
    reveal_strlit(":tp");
    reveal_strlit(":");
    let key = key_text(instance_id, tp_rank, pp_rank, device_id);
    let prefix = instance_id + ":"@;
    assert(key.take(prefix.len() as int) =~= prefix);
}

/// Removing an instance leaves the contexts of another alone, where neither name has a
/// colon.
pub proof fn law_other_instances_keep_their_contexts(
    removed: Seq<char>,
    other: Seq<char>,
    tp_rank: u32,
    pp_rank: u32,
    device_id: i32,
)
    requires
        removed != other,
        !other.contains(':'),
        !removed.contains(':'),
    ensures
        !crate::text::has_prefix(
            key_text(other, tp_rank, pp_rank, device_id),
            removed + ":"@,
        ),
{
    reveal_strlit(":tp");
    reveal_strlit(":");
    let key = key_text(other, tp_rank, pp_rank, device_id);
    let prefix = removed + ":"@;
    if crate::text::has_prefix(key, prefix) {
        let rest = key.skip(prefix.len() as int);
        let tail = key.skip(other.len() as int + 1);
        assert(key =~= key.take(prefix.len() as int) + rest);
        assert(key =~= removed + seq![':'] + rest);
        assert(key =~= other + seq![':'] + tail);
        crate::text::lemma_split_at_separator(removed, rest, other, tail, ':');
    }
}

/// Where a slot of a block lies, for another node.
pub open spec fn slot_info(raw: RawBlock, numa_node: NumaNode) -> TransferSlotInfo {
    let split = raw.segments().len() > 1;
    TransferSlotInfo {
        k_ptr: raw.segments()[0].ptr.host,
        k_size: raw.segments()[0].size as u64,
        v_ptr: if split {
            raw.segments()[1].ptr.host
        } else {
            0
        },
        v_size: if split {
            raw.segments()[1].size as u64
        } else {
            0
        },
        numa_node: numa_node.0,
    }
}

/// Where a slot of a block lies, for another node.
pub fn build_transfer_slot_info(raw_block: &RawBlock, numa_node: NumaNode) -> (r: TransferSlotInfo)
    ensures
        r == slot_info(*raw_block, numa_node),
{
    let layer: LayerBlock = LayerBlock::new(raw_block);
    match layer.v_ptr() {
        Some(v_ptr) => TransferSlotInfo {
            k_ptr: layer.k_ptr(),
            k_size: layer.k_size() as u64,
            v_ptr,
            v_size: match layer.v_size() {
                Some(n) => n as u64,
                None => 0,
            },
            numa_node: numa_node.0,
        },
        None => TransferSlotInfo {
            k_ptr: layer.k_ptr(),
            k_size: layer.k_size() as u64,
            v_ptr: 0,
            v_size: 0,
            numa_node: numa_node.0,
        },
    }
}

/// Whether a description tells where every slot of a block lies.
pub open spec fn describes(info: TransferBlockInfo, entry: EntryView) -> bool {
    &&& info.block_hash@ == entry.0.1
    &&& info.slots@.len() == entry.1.blocks().len()
    &&& forall|k: int|
        0 <= k < info.slots@.len() ==> #[trigger] info.slots@[k] == slot_info(
            entry.1.blocks()[k],
            entry.1.numas()[k],
        )
}

/// Where blocks lie, for another node.
pub fn transfer_blocks(found: &[(BlockKey, Arc<SealedBlock>)]) -> (r: Vec<TransferBlockInfo>)
    ensures
        r@.len() == found@.len(),
        forall|k: int|
            0 <= k < r@.len() ==> describes(#[trigger] r@[k], entry_views(found@)[k]),
{
    let mut r: Vec<TransferBlockInfo> = Vec::new();
    let mut i: usize = 0;
    while i < found.len()
        invariant
            i <= found@.len(),
            r@.len() == i,
            forall|k: int|
                0 <= k < i ==> describes(#[trigger] r@[k], entry_views(found@)[k]),
        decreases found@.len() - i,
    {
        let block: &SealedBlock = &found[i].1;
        let raw: &[RawBlock] = block.slots();
        let numas: &[NumaNode] = block.slot_numas();
        let mut slots: Vec<TransferSlotInfo> = Vec::new();
        let mut k: usize = 0;
        while k < raw.len()
            invariant
                k <= raw@.len(),
                raw@ == block.blocks(),
                numas@ == block.numas(),
                numas@.len() == raw@.len(),
                slots@.len() == k,
                forall|q: int|
                    0 <= q < k ==> #[trigger] slots@[q] == slot_info(raw@[q], numas@[q]),
            decreases raw@.len() - k,
        {
            slots.push(build_transfer_slot_info(&raw[k], numas[k]));
            k += 1;
        }
        r.push(TransferBlockInfo { block_hash: copy_bytes(&found[i].0.hash), slots });
        i += 1;
    }
    r
}

/// Whether a slot can be fetched by another node as it is: keys, or keys and values, none of
/// them empty or without an address.
pub open spec fn fetchable(raw: RawBlock) -> bool {
    &&& 1 <= raw.segments().len() <= 2
    &&& forall|q: int|
        0 <= q < raw.segments().len() ==> (#[trigger] raw.segments()[q]).size > 0
            && raw.segments()[q].ptr.host != 0
}

/// A slot of a block that is served.
pub open spec fn served_slot(entry: EntryView, i: int) -> RawBlock {
    entry.1.blocks()[i]
}

/// The NUMA node of a slot of a block that is served.
pub open spec fn served_node(entry: EntryView, i: int) -> NumaNode {
    entry.1.numas()[i]
}

/// A block that another node has fetched is the block that was served: it has the same slots
/// on the same NUMA nodes, each with the same segments, and every segment was read from where
/// it lies on the node that served it.
pub proof fn law_fetched_blocks_are_those_served(
    infos: Seq<TransferBlockInfo>,
    served: Seq<EntryView>,
    staged: Seq<StagedSegment>,
    fetched: SealedBlock,
    b: int,
    i: int,
)
    requires
        infos.len() == served.len(),
        0 <= b < served.len(),
        describes(infos[b], served[b]),
        stages(staged, segments_of(infos)),
        rebuilt(fetched, infos, staged, b),
        served[b].1.numas().len() == served[b].1.blocks().len(),
        0 <= i < served[b].1.blocks().len(),
        fetchable(served_slot(served[b], i)),
    ensures
        ({
            let there = served_slot(served[b], i).segments();
            let here = fetched.blocks()[i].segments();
            let start = segments_before(infos, b, i).len() as int;
            &&& fetched.blocks().len() == served[b].1.blocks().len()
            &&& fetched.numas().len() == served[b].1.numas().len()
            &&& fetched.numas()[i] == served_node(served[b], i)
            &&& here.len() == there.len()
            &&& forall|q: int|
                0 <= q < here.len() ==> {
                    &&& (#[trigger] here[q]).size == there[q].size
                    &&& here[q].ptr.host == staged[start + q].local
                    &&& staged[start + q].remote == there[q].ptr.host
                    &&& staged[start + q].len == there[q].size
                }
        }),
{
    let raw = served_slot(served[b], i);
    let slot = infos[b].slots@[i];
    assert(slot == slot_info(raw, served_node(served[b], i)));
    let own = slot_segments(slot, b, i);
    let all = segments_of(infos);
    let start = segments_before(infos, b, i).len() as int;
    assert(raw.segments()[0].size > 0);
    if raw.segments().len() == 2 {
        assert(raw.segments()[1].size > 0);
    }
    lemma_segments_before(infos, b, i);
    assert(made_of(fetched.blocks()[i], staged, start, own.len() as int));
    let here = fetched.blocks()[i].segments();
    assert forall|q: int| 0 <= q < here.len() implies {
        &&& (#[trigger] here[q]).size == raw.segments()[q].size
        &&& here[q].ptr.host == staged[start + q].local
        &&& staged[start + q].remote == raw.segments()[q].ptr.host
        &&& staged[start + q].len == raw.segments()[q].size
    } by {
        assert(all.subrange(start, start + own.len())[q] == own[q]);
        assert(all[start + q] == own[q]);
        assert(stands_for(staged[start + q], all[start + q]));
    }
}

/// How long another node has for a transfer, in whole seconds.
pub fn lock_timeout_secs(timeout_ns: u64) -> (r: u32)
    ensures
        r == (timeout_ns / 1_000_000_000) % 0x1_0000_0000,
{
    let secs: u64 = timeout_ns / 1_000_000_000;
    (secs % 0x1_0000_0000) as u32
}

/// A registration that is in order for its arguments alone.
#[derive(Debug)]
pub struct RegisterPlan {
    pub context_key: String,
    pub tp_size: usize,
    pub world_size: usize,
    pub num_blocks: Vec<usize>,
    pub bytes_per_block: Vec<usize>,
    pub kv_stride_bytes: Vec<usize>,
    pub segments: Vec<usize>,
}

/// Whether there are layers, and each list has an entry for each.
pub open spec fn arrays_match(req: RegisterContextRequest) -> bool {
    let n = req.layer_names@.len();
    &&& n > 0
    &&& req.wrapper_count == n
    &&& req.num_blocks@.len() == n
    &&& req.bytes_per_block@.len() == n
    &&& req.kv_stride_bytes@.len() == n
    &&& req.segments@.len() == n
}

/// Why a registration is refused before any tensor is made.
pub open spec fn plan_fault(req: RegisterContextRequest, version: Seq<char>) -> Option<
    (Code, Seq<char>),
> {
    let n = req.layer_names@.len() as int;
    if request_fault(req, version) is Some {
        request_fault(req, version)
    } else if !arrays_match(req) {
        Some(
            (
                Code::InvalidArgument,
                "all layer arrays must have the same non-zero length (got layer_names="@
                    + decimal(n as nat) + ")"@,
            ),
        )
    } else if first_too_large(req.num_blocks@, n) is Some {
        Some(
            (
                Code::InvalidArgument,
                too_large_text(first_too_large(req.num_blocks@, n)->0, "num_blocks"@),
            ),
        )
    } else if first_too_large(req.bytes_per_block@, n) is Some {
        Some(
            (
                Code::InvalidArgument,
                too_large_text(first_too_large(req.bytes_per_block@, n)->0, "bytes_per_block"@),
            ),
        )
    } else if first_too_large(req.kv_stride_bytes@, n) is Some {
        Some(
            (
                Code::InvalidArgument,
                too_large_text(first_too_large(req.kv_stride_bytes@, n)->0, "kv_stride_bytes"@),
            ),
        )
    } else {
        None
    }
}

/// Whether a plan holds what a request asks for.
pub open spec fn is_plan(p: RegisterPlan, req: RegisterContextRequest) -> bool {
    &&& p.context_key@ == key_text(req.instance_id@, req.tp_rank, req.pp_rank, req.device_id)
    &&& p.tp_size == req.tp_size
    &&& p.world_size == req.world_size
    &&& p.num_blocks@ == sizes_of(req.num_blocks@)
    &&& p.bytes_per_block@ == sizes_of(req.bytes_per_block@)
    &&& p.kv_stride_bytes@ == sizes_of(req.kv_stride_bytes@)
    &&& p.segments@ == req.segments@.map_values(|v: u32| v as usize)
}

/// Checks a registration before any tensor is made for it.
pub fn register_plan(req: &RegisterContextRequest, version: &str) -> (r: Result<
    RegisterPlan,
    Status,
>)
    ensures
        match plan_fault(*req, version@) {
            Some((code, text)) => r matches Err(s) && is_status(s, code, text),
            None => r matches Ok(p) && is_plan(p, *req),
        },
{
    match validate_register_context_request(req, version) {
        Ok(_) => {},
        Err(s) => {
            return Err(s);
        },
    }
    let n: usize = req.layer_names.len();
    if n == 0 || req.wrapper_count != n || req.num_blocks.len() != n || req.bytes_per_block.len()
        != n || req.kv_stride_bytes.len() != n || req.segments.len() != n {
        let mut m: String = String::from_str(
            "all layer arrays must have the same non-zero length (got layer_names=",
        );
        push_decimal(&mut m, n as u64);
        m.append(")");
        return Err(invalid_argument(m));
    }
    let num_blocks: Vec<usize> = match sizes_from(req.num_blocks.as_slice(), "num_blocks") {
        Ok(v) => v,
        Err(s) => {
            return Err(s);
        },
    };
    let bytes_per_block: Vec<usize> = match sizes_from(
        req.bytes_per_block.as_slice(),
        "bytes_per_block",
    ) {
        Ok(v) => v,
        Err(s) => {
            return Err(s);
        },
    };
    let kv_stride_bytes: Vec<usize> = match sizes_from(
        req.kv_stride_bytes.as_slice(),
        "kv_stride_bytes",
    ) {
        Ok(v) => v,
        Err(s) => {
            return Err(s);
        },
    };
    let mut segments: Vec<usize> = Vec::new();
    let ghost wanted = req.segments@.map_values(|v: u32| v as usize);
    let mut i: usize = 0;
    while i < req.segments.len()
        invariant
            i <= req.segments@.len(),
            wanted == req.segments@.map_values(|v: u32| v as usize),
            segments@ == wanted.take(i as int),
        decreases req.segments@.len() - i,
    {
        segments.push(req.segments[i] as usize);
        i += 1;
        assert(segments@ =~= wanted.take(i as int));
    }
    assert(wanted.take(i as int) =~= wanted);
    Ok(
        RegisterPlan {
            context_key: context_key(
                req.instance_id.as_str(),
                req.tp_rank,
                req.pp_rank,
                req.device_id,
            ),
            tp_size: req.tp_size as usize,
            world_size: req.world_size as usize,
            num_blocks,
            bytes_per_block,
            kv_stride_bytes,
            segments,
        },
    )
}

/// The lists of a registration, with where its tensors lie.
pub open spec fn registered_lists(req: RegisterContextRequest, layers: Seq<LayerResult>) -> LayerLists {
    let tensors = layer_tensors(layers);
    LayerLists {
        data_ptrs: tensors.map_values(|t: (Seq<char>, LayerTensor)| t.1.metadata.data_ptr),
        size_bytes: tensors.map_values(|t: (Seq<char>, LayerTensor)| t.1.metadata.size_bytes),
        num_blocks: sizes_of(req.num_blocks@),
        bytes_per_block: sizes_of(req.bytes_per_block@),
        kv_stride_bytes: sizes_of(req.kv_stride_bytes@),
        segments: req.segments@.map_values(|v: u32| v as usize),
        block_strides: None,
    }
}

/// Why the engine does not take a registration, and whether that is because the instance has
/// another shape.
pub open spec fn engine_fault(
    engine: PegaEngine,
    req: RegisterContextRequest,
    layers: Seq<LayerResult>,
    layout_faults: Seq<Option<String>>,
    numa_node: NumaNode,
) -> Option<(bool, Seq<char>)> {
    registration_fault(
        engine,
        req.instance_id@,
        req.device_id,
        (req.tp_size as usize, req.world_size as usize, req.page_first),
        req.layer_names@,
        registered_lists(req, layers),
        layout_faults,
        numa_node,
    )
}

/// Registers the layers of a device, with the tensors that were made for them. Where the
/// engine does not take them, the context is removed again, and the handles of its tensors
/// come back, which are to be given up.
pub fn register_context_batch(
    engine: &mut PegaEngine,
    registry: &mut CudaTensorRegistry,
    req: &RegisterContextRequest,
    version: &str,
    layers: &Vec<LayerResult>,
    layout_faults: &[Option<String>],
    numa_node: NumaNode,
) -> (r: (Result<RegisteredLayers, Status>, Vec<u64>))
    requires
        old(engine).wf(),
        old(registry).wf(),
        layer_names(layers@) == texts(req.layer_names@),
        layout_faults@.len() == req.layer_names@.len(),
    ensures
        final(engine).wf(),
        final(registry).wf(),
        final(engine).storage == old(engine).storage,
        final(engine).topology == old(engine).topology,
        final(engine).rdma == old(engine).rdma,
        r.0 is Err ==> as_map(final(registry).contexts()) == as_map(old(registry).contexts()),
        ({
            let key = key_text(req.instance_id@, req.tp_rank, req.pp_rank, req.device_id);
            let early = context_fault(old(registry).contexts(), key, texts(req.layer_names@));
            let late = first_tensor_fault(layers@, key, req.device_id, layers@.len() as int);
            let shape: Shape = (req.tp_size as usize, req.world_size as usize, req.page_first);
            if plan_fault(*req, version@) is Some {
                let (code, text) = plan_fault(*req, version@)->0;
                &&& r.0 matches Err(s) && is_status(s, code, text)
                &&& r.1@.len() == 0
                &&& *final(engine) == *old(engine)
            } else if early is Some {
                &&& r.0 matches Err(s) && is_status(
                    s,
                    Code::Internal,
                    "register tensor failed: "@ + early->0,
                )
                &&& r.1@.len() == 0
                &&& *final(engine) == *old(engine)
            } else if late is Some {
                &&& r.0 matches Err(s) && is_status(
                    s,
                    Code::Internal,
                    "register tensor failed: "@ + late->0,
                )
                &&& r.1@.len() == 0
                &&& *final(engine) == *old(engine)
            } else if engine_fault(*old(engine), *req, layers@, layout_faults@, numa_node) is None {
                &&& r.0 matches Ok(registered) && layer_views(registered.layers@) == all_layers(
                    req.layer_names@,
                    registered_lists(*req, layers@),
                    old(engine).storage.ssd_enabled,
                )
                &&& r.1@.len() == 0
                &&& instance_ensured(
                    *old(engine),
                    *final(engine),
                    req.instance_id@,
                    req.namespace@,
                    shape,
                )
                &&& as_map(final(registry).contexts()) == as_map(old(registry).contexts()).insert(
                    key,
                    (ContextView { device_id: req.device_id, tensors: layer_tensors(layers@) }),
                )
            } else {
                let (mismatch, text) = engine_fault(
                    *old(engine),
                    *req,
                    layers@,
                    layout_faults@,
                    numa_node,
                )->0;
                &&& r.0 matches Err(s) && if mismatch {
                    is_status(s, Code::FailedPrecondition, "topology mismatch: "@ + text)
                } else {
                    is_status(s, Code::InvalidArgument, "invalid argument: "@ + text)
                }
                &&& r.1@ == layer_tensors(layers@).map_values(
                    |t: (Seq<char>, LayerTensor)| t.1.handle,
                )
                &&& if layers_in_order(
                    req.layer_names@,
                    registered_lists(*req, layers@),
                    layout_faults@,
                ) && !refuses_shape(*old(engine), req.instance_id@, shape) {
                    instance_ensured(
                        *old(engine),
                        *final(engine),
                        req.instance_id@,
                        req.namespace@,
                        shape,
                    )
                } else {
                    final(engine).instances == old(engine).instances
                }
            }
        }),
{
    let plan: RegisterPlan = match register_plan(req, version) {
        Ok(p) => p,
        Err(s) => {
            return (Err(s), Vec::new());
        },
    };
    let ghost key = plan.context_key@;
    let ghost before = registry.contexts();
    let metadatas: Vec<TensorMetadata> = match registry.register_layers(
        plan.context_key.as_str(),
        req.device_id,
        layers,
    ) {
        Ok(m) => m,
        Err(m) => {
            return (
                Err(
                    Status {
                        code: Code::Internal,
                        message: join2("register tensor failed: ", m.as_str()),
                    },
                ),
                Vec::new(),
            );
        },
    };
    let ghost registered = registry.contexts();
    let ghost value = ContextView { device_id: req.device_id, tensors: layer_tensors(layers@) };
    let mut data_ptrs: Vec<u64> = Vec::new();
    let mut size_bytes: Vec<usize> = Vec::new();
    let ghost tensors = layer_tensors(layers@);
    let mut i: usize = 0;
    while i < metadatas.len()
        invariant
            i <= metadatas@.len(),
            tensors == layer_tensors(layers@),
            metadatas@ == tensors.map_values(|t: (Seq<char>, LayerTensor)| t.1.metadata),
            data_ptrs@.len() == i,
            size_bytes@.len() == i,
            forall|k: int| 0 <= k < i ==> #[trigger] data_ptrs@[k] == tensors[k].1.metadata.data_ptr,
            forall|k: int|
                0 <= k < i ==> #[trigger] size_bytes@[k] == tensors[k].1.metadata.size_bytes,
        decreases metadatas@.len() - i,
    {
        data_ptrs.push(metadatas[i].data_ptr);
        size_bytes.push(metadatas[i].size_bytes);
        i += 1;
    }
    proof {
        let lists = registered_lists(*req, layers@);
        assert(layers@.len() == layer_names(layers@).len());
        assert(req.layer_names@.len() == texts(req.layer_names@).len());
        assert(data_ptrs@ =~= lists.data_ptrs);
        assert(size_bytes@ =~= lists.size_bytes);
        assert(as_map(registered).dom().contains(key));
        assert(as_map(registered)[key] == value);
        assert(lookup(registered, key) == Some(value));
    }
    match engine.register_context_layer_batch(
        req.instance_id.as_str(),
        req.namespace.as_str(),
        req.device_id,
        plan.tp_size,
        plan.world_size,
        req.layer_names.as_slice(),
        data_ptrs.as_slice(),
        size_bytes.as_slice(),
        plan.num_blocks.as_slice(),
        plan.bytes_per_block.as_slice(),
        plan.kv_stride_bytes.as_slice(),
        plan.segments.as_slice(),
        req.page_first,
        layout_faults,
        numa_node,
    ) {
        Ok(done) => (Ok(done), Vec::new()),
        Err(e) => {
            let status: Status = map_engine_error(e);
            let handles: Vec<u64> = registry.drop_context(plan.context_key.as_str());
            proof {
                assert(!as_map(before).dom().contains(key));
                assert(as_map(registry.contexts()) =~= as_map(before));
                assert(handles@ =~= tensors.map_values(
                    |t: (Seq<char>, LayerTensor)| t.1.handle,
                ));
            }
            (Err(status), handles)
        },
    }
}

/// Removes an instance and its tensors. The handles of the tensors come back, which are to
/// be given up, also where the engine does not know the instance.
pub fn unregister_context(
    engine: &mut PegaEngine,
    registry: &mut CudaTensorRegistry,
    instance_id: &str,
) -> (r: (Result<(), Status>, Vec<u64>))
    requires
        old(engine).wf(),
        old(registry).wf(),
    ensures
        final(engine).wf(),
        final(registry).wf(),
        final(engine).storage == old(engine).storage,
        final(engine).topology == old(engine).topology,
        final(engine).rdma == old(engine).rdma,
        r.1@ == handles_under(old(registry).contexts(), instance_id@ + ":"@),
        final(registry).contexts() == others(old(registry).contexts(), instance_id@ + ":"@),
        as_map(final(engine).by_name()) == as_map(old(engine).by_name()).remove(instance_id@),
        if has_key(old(engine).by_name(), instance_id@) {
            r.0 is Ok
        } else {
            r.0 matches Err(s) && is_status(
                s,
                Code::FailedPrecondition,
                "instance "@ + instance_id@ + " not found"@,
            )
        },
{
    let handles: Vec<u64> = registry.drop_instance(instance_id);
    match engine.unregister_instance(instance_id) {
        Ok(_) => (Ok(()), handles),
        Err(e) => (Err(map_engine_error(e)), handles),
    }
}

/// What a cleanup removed.
#[derive(Debug)]
pub struct CleanupResponse {
    pub removed_instances: Vec<String>,
    pub removed_tensors: usize,
}

/// Removes one instance and its tensors, or all of them where none is named. An instance
/// that neither the engine nor the registry knows is not found.
pub fn cleanup(
    engine: &mut PegaEngine,
    registry: &mut CudaTensorRegistry,
    id: Option<&str>,
) -> (r: (Result<CleanupResponse, Status>, Vec<u64>))
    requires
        old(engine).wf(),
        old(registry).wf(),
    ensures
        final(engine).wf(),
        final(registry).wf(),
        final(engine).storage == old(engine).storage,
        final(engine).topology == old(engine).topology,
        final(engine).rdma == old(engine).rdma,
        match id {
            None => {
                &&& final(engine).instances@.len() == 0
                &&& final(registry).contexts().len() == 0
                &&& r.1@ == handles_under(old(registry).contexts(), Seq::empty())
                &&& r.0 matches Ok(c) && c.removed_tensors == r.1@.len()
                    && c.removed_instances@.len() == old(engine).instances@.len() && forall|k: int|
                    0 <= k < c.removed_instances@.len() ==> (
                    #[trigger] c.removed_instances@[k])@ == old(engine).instances@[k].0@
            },
            Some(name) => {
                &&& r.1@ == handles_under(old(registry).contexts(), name@ + ":"@)
                &&& final(registry).contexts() == others(old(registry).contexts(), name@ + ":"@)
                &&& as_map(final(engine).by_name()) == as_map(old(engine).by_name()).remove(name@)
                &&& if has_key(old(engine).by_name(), name@) || r.1@.len() > 0 {
                    r.0 matches Ok(c) && c.removed_tensors == r.1@.len()
                        && c.removed_instances@.len() == 1 && c.removed_instances@[0]@ == name@
                } else {
                    r.0 matches Err(s) && is_status(
                        s,
                        Code::NotFound,
                        "instance "@ + name@ + " not found"@,
                    )
                }
            },
        },
{
    match id {
        None => {
            let handles: Vec<u64> = registry.clear_and_count();
            let removed_instances: Vec<String> = engine.unregister_all_instances();
            let removed_tensors: usize = handles.len();
            (Ok(CleanupResponse { removed_instances, removed_tensors }), handles)
        },
        Some(name) => {
            let handles: Vec<u64> = registry.drop_instance(name);
            let removed_tensors: usize = handles.len();
            match engine.unregister_instance(name) {
                Err(e) => {
                    if removed_tensors == 0 {
                        return (
                            Err(Status { code: Code::NotFound, message: e.message() }),
                            handles,
                        );
                    }
                },
                Ok(_) => {},
            }
            let mut removed_instances: Vec<String> = Vec::new();
            removed_instances.push(String::from_str(name));
            (Ok(CleanupResponse { removed_instances, removed_tensors }), handles)
        },
    }
}

/// The sessions of clients: for each instance the last one that was opened.
#[derive(Debug)]
pub struct SessionRegistry {
    sessions: Vec<(String, u64)>,
    next_token: u64,
}

impl SessionRegistry {
    /// The token of each instance's session.
    pub closed spec fn sessions(self) -> Seq<(Seq<char>, u64)> {
        named(self.sessions@)
    }

    /// The token of the next session.
    pub closed spec fn next(self) -> u64 {
        self.next_token
    }

    /// No instance has two sessions.
    pub open spec fn wf(self) -> bool {
        unique_keys(self.sessions())
    }

    /// No sessions yet.
    pub fn new() -> (r: Self)
        ensures
            r.wf(),
            r.sessions().len() == 0,
            r.next() == 1,
    {
        SessionRegistry { sessions: Vec::new(), next_token: 1 }
    }

    /// Opens a session for an instance, and returns its token. An earlier session of the
    /// instance is superseded.
    pub fn install(&mut self, instance_id: &str) -> (r: u64)
        requires
            old(self).wf(),
        ensures
            final(self).wf(),
            r == old(self).next(),
            final(self).next() == if r == u64::MAX {
                0
            } else {
                (r + 1) as u64
            },
            as_map(final(self).sessions()) == as_map(old(self).sessions()).insert(instance_id@, r),
    {
        let token: u64 = self.next_token;
        self.next_token = self.next_token.wrapping_add(1);
        let ghost before = self.sessions();
        match find_named(&self.sessions, instance_id) {
            Some(i) => {
                self.sessions[i].1 = token;
                proof {
                    lemma_update(before, i as int, token);
                    assert(self.sessions() =~= before.update(i as int, (instance_id@, token)));
                }
            },
            None => {
                self.sessions.push((String::from_str(instance_id), token));
                proof {
                    lemma_push(before, instance_id@, token);
                    assert(self.sessions() =~= before.push((instance_id@, token)));
                }
            },
        }
        token
    }

    /// Closes a session. Says whether it was the instance's last one: one that was
    /// superseded leaves the instance alone.
    pub fn take(&mut self, instance_id: &str, token: u64) -> (r: bool)
        requires
            old(self).wf(),
        ensures
            final(self).wf(),
            final(self).next() == old(self).next(),
            r == (lookup(old(self).sessions(), instance_id@) == Some(token)),
            as_map(final(self).sessions()) == if r {
                as_map(old(self).sessions()).remove(instance_id@)
            } else {
                as_map(old(self).sessions())
            },
    {
        let ghost before = self.sessions();
        match find_named(&self.sessions, instance_id) {
            Some(i) => {
                proof {
                    lemma_place(before, instance_id@, i as int);
                }
                if self.sessions[i].1 != token {
                    return false;
                }
                self.sessions.remove(i);
                proof {
                    lemma_remove(before, i as int);
                    assert(self.sessions() =~= before.remove(i as int));
                }
                true
            },
            None => false,
        }
    }
}

/// A session that was superseded closes without effect: after a second one is opened, only
/// that one is the instance's.
pub proof fn law_superseded_sessions_close_without_effect(
    before: Seq<(Seq<char>, u64)>,
    once: Seq<(Seq<char>, u64)>,
    twice: Seq<(Seq<char>, u64)>,
    name: Seq<char>,
    first: u64,
    second: u64,
)
    requires
        first != second,
        as_map(once) == as_map(before).insert(name, first),
        as_map(twice) == as_map(once).insert(name, second),
    ensures
        lookup(once, name) == Some(first),
        lookup(twice, name) == Some(second),
        lookup(twice, name) != Some(first),
{
    assert(as_map(once).dom().contains(name));
    assert(as_map(once)[name] == first);
    assert(as_map(twice).dom().contains(name));
    assert(as_map(twice)[name] == second);
}

/// What is saved of a layer.
pub open spec fn saves_layer(l: LayerSave, s: SaveLayer) -> bool {
    &&& l.layer_name@ == s.layer_name@
    &&& l.block_ids@ == s.block_ids@.map_values(|id: u32| id as usize)
    &&& l.block_hashes@ == s.block_hashes@
}

/// Numbers of blocks as they are used.
fn widen(ids: &Vec<u32>) -> (r: Vec<usize>)
    ensures
        r@ == ids@.map_values(|id: u32| id as usize),
{
    let ghost wanted = ids@.map_values(|id: u32| id as usize);
    let mut out: Vec<usize> = Vec::new();
    let mut i: usize = 0;
    while i < ids.len()
        invariant
            i <= ids@.len(),
            wanted == ids@.map_values(|id: u32| id as usize),
            out@ == wanted.take(i as int),
        decreases ids@.len() - i,
    {
        out.push(ids[i] as usize);
        i += 1;
        assert(out@ =~= wanted.take(i as int));
    }
    assert(wanted.take(i as int) =~= wanted);
    out
}

/// What a client saves, layer by layer. A negative device and layers that have not a hash
/// for each block are refused.
pub fn save_request(device_id: i32, saves: Vec<SaveLayer>) -> (r: Result<Vec<LayerSave>, Status>)
    ensures
        match r {
            Ok(layers) => {
                &&& device_id >= 0
                &&& layers@.len() == saves@.len()
                &&& forall|k: int|
                    0 <= k < saves@.len() ==> layer_matches(#[trigger] saves@[k]) && saves_layer(
                        layers@[k],
                        saves@[k],
                    )
            },
            Err(s) => if device_id < 0 {
                is_status(
                    s,
                    Code::InvalidArgument,
                    "device_id "@ + signed_decimal(device_id as int) + " must be >= 0"@,
                )
            } else {
                exists|k: int|
                    0 <= k < saves@.len() && !layer_matches(#[trigger] saves@[k]) && (forall|j: int|
                        0 <= j < k ==> layer_matches(#[trigger] saves@[j])) && is_status(
                        s,
                        Code::InvalidArgument,
                        save_fault(saves@[k]),
                    )
            },
        },
{
    match validate_device_id(device_id) {
        Ok(_) => {},
        Err(s) => {
            return Err(s);
        },
    }
    match validate_save_layers(saves.as_slice()) {
        Ok(_) => {},
        Err(s) => {
            return Err(s);
        },
    }
    let mut layers: Vec<LayerSave> = Vec::new();
    let ghost all = saves@;
    for save in it: saves
        invariant
            it.seq() == all,
            layers@.len() == it.index(),
            forall|k: int| 0 <= k < it.index() ==> saves_layer(#[trigger] layers@[k], all[k]),
    {
        let block_ids: Vec<usize> = widen(&save.block_ids);
        layers.push(
            LayerSave { layer_name: save.layer_name, block_ids, block_hashes: save.block_hashes },
        );
    }
    Ok(layers)
}

/// Blocks to load: the lease on them, or why what was sent is none, and where they go.
#[derive(Debug)]
pub struct LoadItem {
    pub lease: Result<u128, String>,
    pub block_ids: Vec<u32>,
}

/// Whether a load is what was asked for.
pub open spec fn loads_item(load: (u128, Vec<usize>), item: LoadItem) -> bool {
    &&& item.lease == Ok::<u128, String>(load.0)
    &&& load.1@ == item.block_ids@.map_values(|id: u32| id as usize)
}

/// What a client loads. A negative device is refused, and so is what is no lease; the first
/// of those counts.
pub fn load_request(device_id: i32, items: Vec<LoadItem>) -> (r: Result<
    Vec<(u128, Vec<usize>)>,
    Status,
>)
    ensures
        match r {
            Ok(loads) => {
                &&& device_id >= 0
                &&& loads@.len() == items@.len()
                &&& forall|k: int|
                    0 <= k < items@.len() ==> loads_item(loads@[k], #[trigger] items@[k])
            },
            Err(s) => if device_id < 0 {
                is_status(
                    s,
                    Code::InvalidArgument,
                    "device_id "@ + signed_decimal(device_id as int) + " must be >= 0"@,
                )
            } else {
                exists|k: int|
                    0 <= k < items@.len() && (forall|j: int|
                        0 <= j < k ==> (#[trigger] items@[j]).lease is Ok) && (
                    #[trigger] items@[k].lease matches Err(m) && is_status(
                        s,
                        Code::InvalidArgument,
                        m@,
                    ))
            },
        },
{
    match validate_device_id(device_id) {
        Ok(_) => {},
        Err(s) => {
            return Err(s);
        },
    }
    let mut loads: Vec<(u128, Vec<usize>)> = Vec::new();
    let ghost all = items@;
    for item in it: items
        invariant
            device_id >= 0,
            it.seq() == all,
            all == items@,
            loads@.len() == it.index(),
            forall|k: int| 0 <= k < it.index() ==> loads_item(loads@[k], #[trigger] all[k]),
    {
        let ghost n = it.index();
        let lease: u128 = match item.lease {
            Ok(lease) => lease,
            Err(message) => {
                assert(all[n].lease is Err);
                return Err(Status { code: Code::InvalidArgument, message });
            },
        };
        let block_ids: Vec<usize> = widen(&item.block_ids);
        loads.push((lease, block_ids));
    }
    Ok(loads)
}

/// What a client is told of a prefix.
#[derive(Clone, Copy, Debug, PartialEq, Eq, Structural)]
pub enum QueryOutcome {
    /// So many blocks are ready, and whether a lease on them is needed.
    Ready { num_hit_blocks: u64, lease: bool },
    /// Blocks are being brought in.
    Loading,
}

/// What a client is told of a prefix: there is a lease only where there are blocks.
pub fn query_outcome(status: &PrefetchStatus) -> (r: QueryOutcome)
    ensures
        match *status {
            PrefetchStatus::Loading => r == QueryOutcome::Loading,
            PrefetchStatus::Ready { blocks, .. } => r == (QueryOutcome::Ready {
                num_hit_blocks: blocks@.len() as u64,
                lease: blocks@.len() > 0,
            }),
        },
{
    match status {
        PrefetchStatus::Loading => QueryOutcome::Loading,
        PrefetchStatus::Ready { blocks, .. } => QueryOutcome::Ready {
            num_hit_blocks: blocks.len() as u64,
            lease: blocks.len() > 0,
        },
    }
}

/// Refuses what needs transfers between nodes where there are none.
pub fn require_transport(configured: bool) -> (r: Result<(), Status>)
    ensures
        if configured {
            r is Ok
        } else {
            r matches Err(s) && is_status(
                s,
                Code::FailedPrecondition,
                "RDMA transfer engine is not configured"@,
            )
        },
{
    if configured {
        return Ok(());
    }
    Err(
        Status {
            code: Code::FailedPrecondition,
            message: String::from_str("RDMA transfer engine is not configured"),
        },
    )
}

/// What a client is told that gives a lease back.
pub fn release_outcome(known: bool) -> (r: Result<(), Status>)
    ensures
        if known {
            r is Ok
        } else {
            r matches Err(s) && is_status(
                s,
                Code::FailedPrecondition,
                "query lease is unknown or expired"@,
            )
        },
{
    if known {
        return Ok(());
    }
    Err(
        Status {
            code: Code::FailedPrecondition,
            message: String::from_str("query lease is unknown or expired"),
        },
    )
}

/// A request to register is in order exactly if the client has this version, its device, sizes and
/// rank are in range, its lists are all as long as its names and not empty, and all their numbers
/// fit.
pub proof fn law_requests_are_refused_for_a_reason(req: RegisterContextRequest, version: Seq<char>)
    ensures
        plan_fault(req, version) is None <==> {
            let n = req.layer_names@.len();
            &&& req.client_version@ == version
            &&& req.device_id >= 0
            &&& req.tp_size > 0
            &&& req.world_size > 0
            &&& req.tp_rank < req.tp_size
            &&& n > 0
            &&& req.wrapper_count == n
            &&& req.num_blocks@.len() == n
            &&& req.bytes_per_block@.len() == n
            &&& req.kv_stride_bytes@.len() == n
            &&& req.segments@.len() == n
            &&& forall|i: int|
                0 <= i < n ==> (#[trigger] req.num_blocks@[i]) <= usize::MAX
            &&& forall|i: int|
                0 <= i < n ==> (#[trigger] req.bytes_per_block@[i]) <= usize::MAX
            &&& forall|i: int|
                0 <= i < n ==> (#[trigger] req.kv_stride_bytes@[i]) <= usize::MAX
        },
        plan_fault(req, version) matches Some((code, _)) ==> (code == Code::FailedPrecondition
            <==> req.client_version@ != version) && (code == Code::InvalidArgument
            <==> req.client_version@ == version),
{
    let n = req.layer_names@.len() as int;
    lemma_none_too_large(req.num_blocks@, n);
    lemma_none_too_large(req.bytes_per_block@, n);
    lemma_none_too_large(req.kv_stride_bytes@, n);
}

proof fn lemma_none_too_large(values: Seq<u64>, n: int)
    ensures
        first_too_large(values, n) is None <==> forall|i: int|
            0 <= i < n ==> (#[trigger] values[i]) <= usize::MAX,
    decreases n,
{
    if n > 0 {
        lemma_none_too_large(values, n - 1);
    }
}

/// What the client has done wrong is told apart from what does not fit the state of the server and
/// from what has failed here.
pub proof fn law_errors_are_told_apart(e: EngineError)
    ensures
        code_of(e) == Code::InvalidArgument <==> e is InvalidArgument,
        code_of(e) == Code::FailedPrecondition <==> e is InstanceMissing || e is WorkerMissing
            || e is TopologyMismatch,
        code_of(e) == Code::Internal <==> e is DeviceInit || e is Storage || e is Poisoned,
{
}

/// A block is described slot by slot, each with where its parts lie and how long they are.
pub proof fn law_blocks_are_described_as_they_lie(info: TransferBlockInfo, entry: EntryView, k: int)
    requires
        describes(info, entry),
        0 <= k < entry.1.blocks().len(),
        entry.1.blocks()[k].segments().len() > 0,
    ensures
        info.block_hash@ == entry.0.1,
        info.slots@.len() == entry.1.blocks().len(),
        info.slots@[k].k_ptr == entry.1.blocks()[k].segments()[0].ptr.host,
        info.slots@[k].k_size == entry.1.blocks()[k].segments()[0].size as u64,
        info.slots@[k].numa_node == entry.1.numas()[k].0,
        entry.1.blocks()[k].segments().len() > 1 ==> info.slots@[k].v_ptr
            == entry.1.blocks()[k].segments()[1].ptr.host && info.slots@[k].v_size
            == entry.1.blocks()[k].segments()[1].size as u64,
        entry.1.blocks()[k].segments().len() == 1 ==> info.slots@[k].v_ptr == 0
            && info.slots@[k].v_size == 0,
{
    assert(info.slots@[k] == slot_info(entry.1.blocks()[k], entry.1.numas()[k]));
}

/// What is planned, saved and loaded is what was asked for, number by number.
pub proof fn law_requests_are_carried_out_as_asked(
    p: RegisterPlan,
    req: RegisterContextRequest,
    layers: Seq<LayerResult>,
    l: LayerSave,
    s: SaveLayer,
    load: (u128, Vec<usize>),
    item: LoadItem,
    i: int,
)
    ensures
        is_plan(p, req) ==> {
            &&& p.tp_size == req.tp_size
            &&& p.world_size == req.world_size
            &&& p.num_blocks@.len() == req.num_blocks@.len()
            &&& 0 <= i < req.num_blocks@.len() && req.num_blocks@[i] <= usize::MAX
                ==> p.num_blocks@[i] == req.num_blocks@[i]
            &&& p.bytes_per_block@.len() == req.bytes_per_block@.len()
            &&& 0 <= i < req.bytes_per_block@.len() && req.bytes_per_block@[i] <= usize::MAX
                ==> p.bytes_per_block@[i] == req.bytes_per_block@[i]
            &&& p.kv_stride_bytes@.len() == req.kv_stride_bytes@.len()
            &&& 0 <= i < req.kv_stride_bytes@.len() && req.kv_stride_bytes@[i] <= usize::MAX
                ==> p.kv_stride_bytes@[i] == req.kv_stride_bytes@[i]
            &&& p.segments@.len() == req.segments@.len()
            &&& 0 <= i < req.segments@.len() ==> p.segments@[i] == req.segments@[i]
        },
        saves_layer(l, s) ==> l.layer_name@ == s.layer_name@ && l.block_hashes@ == s.block_hashes@
            && l.block_ids@.len() == s.block_ids@.len() && (0 <= i < s.block_ids@.len()
            ==> l.block_ids@[i] == s.block_ids@[i]),
        loads_item(load, item) ==> item.lease == Ok::<u128, String>(load.0) && load.1@.len()
            == item.block_ids@.len() && (0 <= i < item.block_ids@.len() ==> load.1@[i]
            == item.block_ids@[i]),
        layer_matches(s) <==> s.block_ids@.len() == s.block_hashes@.len(),
        ({
            let lists = registered_lists(req, layers);
            &&& lists.data_ptrs.len() == layers.len()
            &&& 0 <= i < layers.len() ==> (layers[i].tensor matches Ok(t) ==> lists.data_ptrs[i]
                == t.metadata.data_ptr && lists.size_bytes[i] == t.metadata.size_bytes)
            &&& lists.size_bytes.len() == layers.len()
            &&& lists.num_blocks.len() == req.num_blocks@.len()
            &&& lists.block_strides is None
        }),
{
}

} // verus!
