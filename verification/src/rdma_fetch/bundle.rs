//! The transfers that bring staged segments: plain ones, or the operations of a bundle in an
//! experiment.

use vstd::prelude::*;
use vstd::string::*;
use crate::hex::{encode_hex, hex_text};
use crate::issue23::experiment::{
    captured, source_of, Issue23CausalExperiment, ObservedOperation,
};
use crate::issue23::identity::{operation_id, operation_identity};
use crate::issue23::plan::Issue23Backend;
use crate::rdma_fetch::segments::{
    is_home, lemma_all_home, segments_of, slot_segments, TransferBlockInfo, TransferSlotInfo,
};
use crate::rdma_fetch::staging::{
    all_remote, lays_out, lemma_laid_out_is_staged, stands_for, StagedFetch, StagedSegment,
};
use crate::transfer::types::TransferDesc;

verus! {

/// The remote address that a transfer of the plain path reads a segment from: a
/// slot's first segment is read from the address of its keys.
pub open spec fn read_address(slot: TransferSlotInfo, is_k: bool) -> u64 {
    if is_k || slot.k_size == 0 {
        slot.k_ptr
    } else {
        slot.v_ptr
    }
}

/// The transfers that bring staged segments, on the plain path.
pub open spec fn plain_descs(blocks: Seq<TransferBlockInfo>, staged: Seq<StagedSegment>) -> Seq<
    TransferDesc,
> {
    staged.map_values(
        |s: StagedSegment|
            TransferDesc {
                local_ptr: s.local,
                remote_ptr: read_address(blocks[s.block as int].slots@[s.slot as int], s.is_k),
                len: s.len,
            },
    )
}

/// The transfers that bring staged segments, on the plain path.
pub fn transfer_descs(blocks: &[TransferBlockInfo], staged: &Vec<StagedSegment>) -> (r: Vec<
    TransferDesc,
>)
    requires
        forall|j: int|
            0 <= j < staged@.len() ==> (#[trigger] staged@[j]).block < blocks@.len()
                && staged@[j].slot < blocks@[staged@[j].block as int].slots@.len(),
        forall|j: int|
            0 <= j < staged@.len() ==> read_address(
                blocks@[staged@[j].block as int].slots@[staged@[j].slot as int],
                (#[trigger] staged@[j]).is_k,
            ) != 0,
    ensures
        r@ == plain_descs(blocks@, staged@),
{
    let mut out: Vec<TransferDesc> = Vec::new();
    let mut j: usize = 0;
    while j < staged.len()
        invariant
            j <= staged@.len(),
            forall|j: int|
                0 <= j < staged@.len() ==> (#[trigger] staged@[j]).block < blocks@.len()
                    && staged@[j].slot < blocks@[staged@[j].block as int].slots@.len(),
            out@ == plain_descs(blocks@, staged@).take(j as int),
        decreases staged@.len() - j,
    {
        let s: &StagedSegment = &staged[j];
        assert(staged@[j as int].block < blocks@.len());
        let slot: TransferSlotInfo = blocks[s.block].slots[s.slot];
        let remote_ptr: u64 = if s.is_k || slot.k_size == 0 {
            slot.k_ptr
        } else {
            slot.v_ptr
        };
        out.push(TransferDesc { local_ptr: s.local, remote_ptr, len: s.len });
        j += 1;
        assert(out@ =~= plain_descs(blocks@, staged@).take(j as int));
    }
    assert(plain_descs(blocks@, staged@).take(j as int) =~= plain_descs(blocks@, staged@));
    out
}

/// Whether a slot takes the segment's own address on the plain path: it does
/// wherever the keys of the slot are there.
pub proof fn law_plain_path_reads_each_segment(
    blocks: Seq<TransferBlockInfo>,
    b: int,
    i: int,
    q: int,
)
    requires
        0 <= b < blocks.len(),
        0 <= i < blocks[b].slots@.len(),
        blocks[b].slots@[i].k_size > 0,
        0 <= q < slot_segments(blocks[b].slots@[i], b, i).len(),
    ensures
        ({
            let seg = slot_segments(blocks[b].slots@[i], b, i)[q];
            read_address(blocks[b].slots@[i], seg.is_k) == seg.remote
        }),
{
}

/// Whether `op` is the operation that brings a staged segment of a request.
pub open spec fn brings(
    op: ObservedOperation,
    staged: StagedSegment,
    hash: Seq<u8>,
    request: Seq<char>,
    source: Seq<char>,
    destination: Seq<char>,
    index: int,
) -> bool {
    let segment = if staged.is_k {
        "k"@
    } else {
        "v"@
    };
    &&& op.operation_id@ == operation_identity(request, hash, staged.slot as nat, segment)
    &&& op.block_hash_hex@ == hex_text(hash)
    &&& op.slot_index == staged.slot
    &&& op.segment@ == segment
    &&& op.source@ == source
    &&& op.destination@ == destination
    &&& op.transfer_type@ == "load"@
    &&& op.logical_payload_bytes == staged.len
    &&& op.qp_index == index % 2
    &&& op.local_addr == staged.local
    &&& op.remote_addr == staged.remote
}

/// The operations that bring the staged segments of a request, one for each, in
/// order, alternating between the two queue pairs.
pub fn observed_operations(
    request: &str,
    blocks: &[TransferBlockInfo],
    staged: &Vec<StagedSegment>,
    source: &str,
    destination: &str,
) -> (r: Vec<ObservedOperation>)
    requires
        forall|j: int|
            0 <= j < staged@.len() ==> (#[trigger] staged@[j]).block < blocks@.len(),
    ensures
        r@.len() == staged@.len(),
        forall|j: int|
            0 <= j < r@.len() ==> brings(
                #[trigger] r@[j],
                staged@[j],
                blocks@[staged@[j].block as int].block_hash@,
                request@,
                source@,
                destination@,
                j,
            ),
{
    let mut out: Vec<ObservedOperation> = Vec::new();
    let mut j: usize = 0;
    while j < staged.len()
        invariant
            j <= staged@.len(),
            out@.len() == j,
            forall|j: int|
                0 <= j < staged@.len() ==> (#[trigger] staged@[j]).block < blocks@.len(),
            forall|k: int|
                0 <= k < j ==> brings(
                    #[trigger] out@[k],
                    staged@[k],
                    blocks@[staged@[k].block as int].block_hash@,
                    request@,
                    source@,
                    destination@,
                    k,
                ),
        decreases staged@.len() - j,
    {
        let s: &StagedSegment = &staged[j];
        assert(staged@[j as int].block < blocks@.len());
        let hash: &Vec<u8> = &blocks[s.block].block_hash;
        let segment: &str = if s.is_k {
            "k"
        } else {
            "v"
        };
        let op: ObservedOperation = ObservedOperation {
            operation_id: operation_id(request, hash, s.slot, segment),
            block_hash_hex: encode_hex(hash),
            slot_index: s.slot,
            segment: String::from_str(segment),
            source: String::from_str(source),
            destination: String::from_str(destination),
            transfer_type: String::from_str("load"),
            logical_payload_bytes: s.len,
            qp_index: j % 2,
            local_addr: s.local,
            remote_addr: s.remote,
        };
        out.push(op);
        j += 1;
    }
    out
}

/// The transfers that carry out operations.
pub fn operation_descs(operations: &Vec<ObservedOperation>) -> (r: Vec<TransferDesc>)
    ensures
        r@ == operations@.map_values(
            |o: ObservedOperation|
                TransferDesc {
                    local_ptr: o.local_addr,
                    remote_ptr: o.remote_addr,
                    len: o.logical_payload_bytes,
                },
        ),
{
    let ghost all = operations@.map_values(
        |o: ObservedOperation|
            TransferDesc {
                local_ptr: o.local_addr,
                remote_ptr: o.remote_addr,
                len: o.logical_payload_bytes,
            },
    );
    let mut out: Vec<TransferDesc> = Vec::new();
    let mut j: usize = 0;
    while j < operations.len()
        invariant
            j <= operations@.len(),
            all.len() == operations@.len(),
            forall|k: int|
                0 <= k < all.len() ==> #[trigger] all[k] == (TransferDesc {
                    local_ptr: operations@[k].local_addr,
                    remote_ptr: operations@[k].remote_addr,
                    len: operations@[k].logical_payload_bytes,
                }),
            out@ == all.take(j as int),
        decreases operations@.len() - j,
    {
        out.push(
            TransferDesc {
                local_ptr: operations[j].local_addr,
                remote_ptr: operations[j].remote_addr,
                len: operations[j].logical_payload_bytes,
            },
        );
        j += 1;
        assert(out@ =~= all.take(j as int));
    }
    assert(all.take(j as int) =~= all);
    out
}

/// Whether a slot whose values alone are fetched has an address for its keys all the same.
pub open spec fn plain_readable(blocks: Seq<TransferBlockInfo>) -> bool {
    forall|b: int, i: int|
        0 <= b < blocks.len() && 0 <= i < blocks[b].slots@.len() && (
        #[trigger] blocks[b].slots@[i]).k_size == 0 && blocks[b].slots@[i].v_size > 0
            && blocks[b].slots@[i].v_ptr != 0 ==> blocks[b].slots@[i].k_ptr != 0
}

/// Whether the plain path has an address to read every segment from.
pub fn is_plain_readable(blocks: &[TransferBlockInfo]) -> (r: bool)
    ensures
        r == plain_readable(blocks@),
{
    let mut b: usize = 0;
    while b < blocks.len()
        invariant
            b <= blocks@.len(),
            forall|c: int, i: int|
                0 <= c < b && 0 <= i < blocks@[c].slots@.len() && (
                #[trigger] blocks@[c].slots@[i]).k_size == 0 && blocks@[c].slots@[i].v_size > 0
                    && blocks@[c].slots@[i].v_ptr != 0 ==> blocks@[c].slots@[i].k_ptr != 0,
        decreases blocks@.len() - b,
    {
        let slots: &Vec<TransferSlotInfo> = &blocks[b].slots;
        let mut i: usize = 0;
        while i < slots.len()
            invariant
                b < blocks@.len(),
                slots@ == blocks@[b as int].slots@,
                i <= slots@.len(),
                forall|k: int|
                    0 <= k < i && (#[trigger] slots@[k]).k_size == 0 && slots@[k].v_size > 0
                        && slots@[k].v_ptr != 0 ==> slots@[k].k_ptr != 0,
            decreases slots@.len() - i,
        {
            let slot: TransferSlotInfo = slots[i];
            if slot.k_size == 0 && slot.v_size > 0 && slot.v_ptr != 0 && slot.k_ptr == 0 {
                assert(blocks@[b as int].slots@[i as int].k_ptr == 0);
                return false;
            }
            i += 1;
        }
        b += 1;
    }
    true
}

/// What brings staged blocks.
#[derive(Debug)]
pub enum FetchWork {
    /// There is nothing to transfer.
    Nothing,
    /// Plain transfers.
    Plain(Vec<TransferDesc>),
    /// The operations of a bundle.
    Bundle(Vec<ObservedOperation>),
}

/// Whether `operations` bring the staged segments, one each, in order.
pub open spec fn bring_all(
    operations: Seq<ObservedOperation>,
    staged: Seq<StagedSegment>,
    blocks: Seq<TransferBlockInfo>,
    request: Seq<char>,
    source: Seq<char>,
    destination: Seq<char>,
) -> bool {
    operations.len() == staged.len() && forall|j: int|
        0 <= j < operations.len() ==> brings(
            #[trigger] operations[j],
            staged[j],
            blocks[staged[j].block as int].block_hash@,
            request,
            source,
            destination,
            j,
        )
}

/// What brings staged blocks: plain transfers, or the operations of a bundle for a request in
/// an experiment.
pub fn fetch_work(
    blocks: &[TransferBlockInfo],
    staged: &StagedFetch,
    source: &str,
    destination: &str,
) -> (r: FetchWork)
    requires
        lays_out(staged.segments@, staged.slabs@, blocks@, staged.request is Some),
        all_remote(segments_of(blocks@)),
        staged.request is None ==> plain_readable(blocks@),
    ensures
        match r {
            FetchWork::Nothing => segments_of(blocks@).len() == 0,
            FetchWork::Plain(descs) => {
                &&& segments_of(blocks@).len() > 0
                &&& staged.request is None
                &&& descs@ == plain_descs(blocks@, staged.segments@)
            },
            FetchWork::Bundle(operations) => {
                &&& segments_of(blocks@).len() > 0
                &&& staged.request is Some
                &&& bring_all(
                    operations@,
                    staged.segments@,
                    blocks@,
                    staged.request->0@,
                    source@,
                    destination@,
                )
            },
        },
{
    if staged.segments.len() == 0 {
        return FetchWork::Nothing;
    }
    let ghost segs = segments_of(blocks@);
    proof {
        lemma_laid_out_is_staged(
            staged.segments@,
            staged.slabs@,
            blocks@,
            staged.request is Some,
        );
        lemma_all_home(blocks@, blocks@.len() as int);
        assert forall|j: int| 0 <= j < staged.segments@.len() implies (
        #[trigger] staged.segments@[j]).block < blocks@.len() && staged.segments@[j].slot
            < blocks@[staged.segments@[j].block as int].slots@.len() by {
            assert(stands_for(staged.segments@[j], segs[j]));
            assert(is_home(blocks@, blocks@.len() as int, segs[j]));
        }
    }
    match &staged.request {
        Some(id) => FetchWork::Bundle(
            observed_operations(id, blocks, &staged.segments, source, destination),
        ),
        None => {
            proof {
                assert forall|j: int| 0 <= j < staged.segments@.len() implies read_address(
                    blocks@[staged.segments@[j].block as int].slots@[staged.segments@[j].slot as int],
                    (#[trigger] staged.segments@[j]).is_k,
                ) != 0 by {
                    assert(stands_for(staged.segments@[j], segs[j]));
                    assert(is_home(blocks@, blocks@.len() as int, segs[j]));
                    assert(segs[j].remote != 0);
                }
            }
            FetchWork::Plain(transfer_descs(blocks, &staged.segments))
        },
    }
}

/// The operations of a bundle as they are carried out.
#[derive(Debug)]
pub struct SealedBundle {
    /// The identity of the request.
    pub request: String,
    pub operations: Vec<ObservedOperation>,
    /// Whether the bundle waits for its cohort.
    pub gated: bool,
}

/// Where an operation reads from within the hidden snapshot.
pub open spec fn hidden_source(
    experiment: Issue23CausalExperiment,
    op: ObservedOperation,
) -> Result<u64, Seq<char>> {
    source_of(
        experiment.hidden(),
        op.block_hash_hex@,
        op.slot_index as nat,
        op.segment@,
        op.logical_payload_bytes as nat,
    )
}

/// Whether an experiment that is active copies from its hidden snapshot.
pub open spec fn copies_locally(experiment: Issue23CausalExperiment) -> bool {
    experiment.active() && experiment.config().backend == Issue23Backend::LocalCopy
}

/// The first of the first `n` operations that has no source within the hidden snapshot, and
/// why.
pub open spec fn first_unsourced(
    experiment: Issue23CausalExperiment,
    operations: Seq<ObservedOperation>,
    n: int,
) -> Option<Seq<char>>
    decreases n,
{
    if n <= 0 {
        None
    } else if first_unsourced(experiment, operations, n - 1) is Some {
        first_unsourced(experiment, operations, n - 1)
    } else {
        match hidden_source(experiment, operations[n - 1]) {
            Ok(_) => None,
            Err(e) => Some(e),
        }
    }
}

/// Why a bundle is refused, if it is.
pub open spec fn bundle_error(
    experiment: Issue23CausalExperiment,
    raw: Seq<char>,
    operations: Seq<ObservedOperation>,
) -> Option<Seq<char>> {
    match captured(experiment.plan(), raw, operations) {
        Err(e) => Some(e),
        Ok(_) => if copies_locally(experiment) {
            first_unsourced(experiment, operations, operations.len() as int)
        } else {
            None
        },
    }
}

/// An operation as it is carried out: a local copy reads from the hidden snapshot.
pub open spec fn carried_out(
    experiment: Issue23CausalExperiment,
    op: ObservedOperation,
) -> ObservedOperation {
    if copies_locally(experiment) {
        ObservedOperation { remote_addr: hidden_source(experiment, op)->Ok_0, ..op }
    } else {
        op
    }
}

proof fn lemma_first_unsourced(
    experiment: Issue23CausalExperiment,
    operations: Seq<ObservedOperation>,
    n: int,
    m: int,
)
    requires
        0 <= n <= m,
        first_unsourced(experiment, operations, n) is Some,
    ensures
        first_unsourced(experiment, operations, m) == first_unsourced(experiment, operations, n),
    decreases m - n,
{
    if n < m {
        lemma_first_unsourced(experiment, operations, n, m - 1);
    }
}

/// Fixes the bundle of a request: it has to be the planned one where there is a plan, and a
/// local copy has to find every segment in the hidden snapshot. While the experiment is
/// active the bundle waits for its cohort.
pub fn seal_bundle(
    experiment: &Issue23CausalExperiment,
    raw_request_id: &str,
    operations: Vec<ObservedOperation>,
) -> (r: Result<SealedBundle, String>)
    requires
        experiment.wf(),
    ensures
        match bundle_error(*experiment, raw_request_id@, operations@) {
            Some(e) => r matches Err(m) && m@ == e,
            None => {
                &&& r matches Ok(bundle)
                &&& captured(experiment.plan(), raw_request_id@, operations@) == Ok::<
                    Seq<char>,
                    Seq<char>,
                >(bundle.request@)
                &&& bundle.gated == experiment.active()
                &&& bundle.operations@ == operations@.map_values(
                    |op: ObservedOperation| carried_out(*experiment, op),
                )
            },
        },
{
    let ghost all = operations@;
    let ghost wanted = all.map_values(|op: ObservedOperation| carried_out(*experiment, op));
    let request: String = match experiment.capture_bundle(raw_request_id, &operations) {
        Ok(id) => id,
        Err(m) => {
            return Err(m);
        },
    };
    let gated: bool = experiment.is_active();
    let backend: Issue23Backend = experiment.backend();
    if !(gated && backend == Issue23Backend::LocalCopy) {
        assert(wanted =~= all);
        return Ok(SealedBundle { request, operations, gated });
    }
    let mut out: Vec<ObservedOperation> = Vec::new();
    for op in it: operations
        invariant
            experiment.wf(),
            it.seq() == all,
            wanted == all.map_values(|op: ObservedOperation| carried_out(*experiment, op)),
            copies_locally(*experiment),
            captured(experiment.plan(), raw_request_id@, all) is Ok,
            first_unsourced(*experiment, all, it.index()) is None,
            out@ == wanted.take(it.index()),
    {
        let ghost k = it.index();
        match experiment.local_source(
            &op.block_hash_hex,
            op.slot_index,
            &op.segment,
            op.logical_payload_bytes,
        ) {
            Ok(remote_addr) => {
                let ghost done = out@;
                out.push(ObservedOperation { remote_addr, ..op });
                proof {
                    assert(wanted[k] == carried_out(*experiment, all[k]));
                    assert(wanted.take(k + 1) =~= done.push(wanted[k]));
                }
            },
            Err(m) => {
                proof {
                    assert(first_unsourced(*experiment, all, k + 1) == Some(m@));
                    lemma_first_unsourced(*experiment, all, k + 1, all.len() as int);
                }
                return Err(m);
            },
        }
    }
    assert(wanted.take(all.len() as int) =~= wanted);
    Ok(SealedBundle { request, operations: out, gated })
}

/// The operations of a bundle bring what is staged: each moves the bytes of its segment from the
/// peer to where the segment is staged, under the hash of its block, and they take the two queue
/// pairs in turn.
pub proof fn law_operations_bring_what_is_staged(
    operations: Seq<ObservedOperation>,
    staged: Seq<StagedSegment>,
    blocks: Seq<TransferBlockInfo>,
    request: Seq<char>,
    source: Seq<char>,
    destination: Seq<char>,
    j: int,
)
    requires
        bring_all(operations, staged, blocks, request, source, destination),
        0 <= j < operations.len(),
    ensures
        operations.len() == staged.len(),
        operations[j].local_addr == staged[j].local,
        operations[j].remote_addr == staged[j].remote,
        operations[j].logical_payload_bytes == staged[j].len,
        operations[j].slot_index == staged[j].slot,
        operations[j].block_hash_hex@ == hex_text(blocks[staged[j].block as int].block_hash@),
        operations[j].segment@ == (if staged[j].is_k {
            "k"@
        } else {
            "v"@
        }),
        operations[j].source@ == source,
        operations[j].destination@ == destination,
        operations[j].qp_index < 2,
        operations[0].qp_index == 0,
        j > 0 ==> operations[j].qp_index + operations[j - 1].qp_index == 1,
{
    assert(brings(
        operations[j],
        staged[j],
        blocks[staged[j].block as int].block_hash@,
        request,
        source,
        destination,
        j,
    ));
    assert(brings(
        operations[0],
        staged[0],
        blocks[staged[0].block as int].block_hash@,
        request,
        source,
        destination,
        0,
    ));
    if j > 0 {
        assert(brings(
            operations[j - 1],
            staged[j - 1],
            blocks[staged[j - 1].block as int].block_hash@,
            request,
            source,
            destination,
            j - 1,
        ));
    }
}

/// Without an experiment each staged segment is one transfer, from where it is read at the peer to
/// where it is staged, of its length.
pub proof fn law_plain_transfers_are_those_staged(
    blocks: Seq<TransferBlockInfo>,
    staged: Seq<StagedSegment>,
    j: int,
)
    requires
        0 <= j < staged.len(),
    ensures
        plain_descs(blocks, staged).len() == staged.len(),
        plain_descs(blocks, staged)[j].local_ptr == staged[j].local,
        plain_descs(blocks, staged)[j].len == staged[j].len,
        ({
            let slot = blocks[staged[j].block as int].slots@[staged[j].slot as int];
            let at = plain_descs(blocks, staged)[j].remote_ptr;
            &&& staged[j].is_k ==> at == slot.k_ptr
            &&& !staged[j].is_k && slot.k_size > 0 ==> at == slot.v_ptr
        }),
{
}

/// An operation is carried out as it was observed; only where an experiment has begun to copy
/// locally does it read from the hidden block instead of the peer.
pub proof fn law_local_copies_read_hidden_blocks(
    experiment: Issue23CausalExperiment,
    op: ObservedOperation,
)
    ensures
        !(experiment.active() && experiment.config().backend == Issue23Backend::LocalCopy)
            ==> carried_out(experiment, op) == op,
        experiment.active() && experiment.config().backend == Issue23Backend::LocalCopy
            && hidden_source(experiment, op) is Ok ==> carried_out(experiment, op).remote_addr
            == hidden_source(experiment, op)->Ok_0,
        carried_out(experiment, op).local_addr == op.local_addr,
        carried_out(experiment, op).logical_payload_bytes == op.logical_payload_bytes,
        carried_out(experiment, op).operation_id == op.operation_id,
        carried_out(experiment, op).qp_index == op.qp_index,
        hidden_source(experiment, op) == source_of(
            experiment.hidden(),
            op.block_hash_hex@,
            op.slot_index as nat,
            op.segment@,
            op.logical_payload_bytes as nat,
        ),
{
}

/// A bundle is refused exactly if it is not captured, or an experiment has begun to copy locally
/// and one of its segments is not hidden, for the first that is not.
pub proof fn law_bundles_are_refused_for_a_reason(
    experiment: Issue23CausalExperiment,
    raw: Seq<char>,
    operations: Seq<ObservedOperation>,
)
    ensures
        bundle_error(experiment, raw, operations) is None <==> captured(
            experiment.plan(),
            raw,
            operations,
        ) is Ok && (experiment.active() && experiment.config().backend == Issue23Backend::LocalCopy
            ==> forall|j: int|
            0 <= j < operations.len() ==> hidden_source(experiment, #[trigger] operations[j]) is Ok),
{
    lemma_all_sourced(experiment, operations, operations.len() as int);
}

proof fn lemma_all_sourced(
    experiment: Issue23CausalExperiment,
    operations: Seq<ObservedOperation>,
    n: int,
)
    requires
        0 <= n <= operations.len(),
    ensures
        first_unsourced(experiment, operations, n) is None <==> forall|j: int|
            0 <= j < n ==> hidden_source(experiment, #[trigger] operations[j]) is Ok,
    decreases n,
{
    if n > 0 {
        lemma_all_sourced(experiment, operations, n - 1);
    }
}

} // verus!
