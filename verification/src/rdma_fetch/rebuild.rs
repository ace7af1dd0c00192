//! Rebuilding blocks from the segments that were fetched.

use std::sync::Arc;
use vstd::prelude::*;
use vstd::string::*;
use crate::block::{copy_bytes, BlockKey, RawBlock, SealedBlock, Segment};
use crate::numa::NumaNode;
use crate::rdma_fetch::segments::{
    all_segments, lemma_segments_before, segments_before, segments_of, slot_segments,
    TransferBlockInfo, TransferSlotInfo,
};
use crate::rdma_fetch::staging::{
    fits_with_next, lemma_laid_out_is_staged, lays_out, lies_inside, stages, stands_for,
    StagedFetch, StagedSegment,
};
use crate::shared::share;

verus! {

/// Whether `raw` is made of the staged segments from `start` on, in order.
pub open spec fn made_of(raw: RawBlock, staged: Seq<StagedSegment>, start: int, n: int) -> bool {
    raw.segments().len() == n && forall|q: int|
        0 <= q < n ==> {
            &&& (#[trigger] raw.segments()[q]).ptr.host == staged[start + q].local
            &&& raw.segments()[q].ptr.device == staged[start + q].alloc.device_ptr + (staged[start
                + q].local - staged[start + q].alloc.ptr)
            &&& raw.segments()[q].size == staged[start + q].len
            &&& raw.segments()[q].allocation == staged[start + q].alloc
        }
}

/// Whether `sealed` is block `b`, rebuilt from the staged segments.
pub open spec fn rebuilt(
    sealed: SealedBlock,
    blocks: Seq<TransferBlockInfo>,
    staged: Seq<StagedSegment>,
    b: int,
) -> bool {
    let slots = blocks[b].slots@;
    &&& sealed.blocks().len() == slots.len()
    &&& sealed.numas().len() == slots.len()
    &&& forall|i: int|
        0 <= i < slots.len() ==> {
            &&& made_of(
                #[trigger] sealed.blocks()[i],
                staged,
                segments_before(blocks, b, i).len() as int,
                slot_segments(slots[i], b, i).len() as int,
            )
            &&& sealed.numas()[i] == NumaNode(slots[i].numa_node)
        }
}

/// Whether every slot has a segment.
pub open spec fn slots_filled(blocks: Seq<TransferBlockInfo>) -> bool {
    forall|b: int, i: int|
        0 <= b < blocks.len() && 0 <= i < blocks[b].slots@.len() ==> #[trigger] slot_segments(
            blocks[b].slots@[i],
            b,
            i,
        ).len() > 0
}

fn rebuild_slot(staged: &Vec<StagedSegment>, start: usize, n: usize) -> (r: RawBlock)
    requires
        0 < n <= 2,
        start + n <= staged.len(),
        forall|q: int| start <= q < start + n ==> lies_inside(#[trigger] staged@[q]),
        n == 2 ==> staged@[start as int].len + staged@[start + 1].len <= usize::MAX,
    ensures
        made_of(r, staged@, start as int, n as int),
{
    let first: &StagedSegment = &staged[start];
    let k: Segment = Segment::new(first.local, first.len, share(&first.alloc));
    if n == 1 {
        return RawBlock::single_segment(k);
    }
    let second: &StagedSegment = &staged[start + 1];
    let v: Segment = Segment::new(second.local, second.len, share(&second.alloc));
    RawBlock::two_segments(k, v)
}

/// Rebuilds the blocks from the segments that were fetched. Each slot keeps its
/// NUMA node, so that a block that is served on advertises where it lies.
pub fn rebuild_blocks(
    namespace: &str,
    blocks: &[TransferBlockInfo],
    staged: &Vec<StagedSegment>,
    now: u64,
) -> (r: Vec<(BlockKey, Arc<SealedBlock>)>)
    requires
        slots_filled(blocks@),
        stages(staged@, segments_of(blocks@)),
    ensures
        r@.len() == blocks@.len(),
        forall|b: int|
            0 <= b < r@.len() ==> {
                &&& (#[trigger] r@[b]).0@ == (namespace@, blocks@[b].block_hash@)
                &&& rebuilt(*r@[b].1, blocks@, staged@, b)
                &&& r@[b].1.sealed_at() == now
            },
{
    let ghost segs = segments_of(blocks@);
    let mut out: Vec<(BlockKey, Arc<SealedBlock>)> = Vec::new();
    let mut cursor: usize = 0;
    let mut b: usize = 0;
    while b < blocks.len()
        invariant
            b <= blocks@.len(),
            segs == segments_of(blocks@),
            slots_filled(blocks@),
            stages(staged@, segs),
            cursor == all_segments(blocks@, b as int).len(),
            out@.len() == b,
            forall|k: int|
                0 <= k < b ==> {
                    &&& (#[trigger] out@[k]).0@ == (namespace@, blocks@[k].block_hash@)
                    &&& rebuilt(*out@[k].1, blocks@, staged@, k)
                    &&& out@[k].1.sealed_at() == now
                },
        decreases blocks@.len() - b,
    {
        let slots: &Vec<TransferSlotInfo> = &blocks[b].slots;
        let mut parts: Vec<(RawBlock, NumaNode)> = Vec::new();
        let mut i: usize = 0;
        assert(segments_before(blocks@, b as int, 0) =~= all_segments(blocks@, b as int));
        while i < slots.len()
            invariant
                b < blocks@.len(),
                slots@ == blocks@[b as int].slots@,
                i <= slots@.len(),
                segs == segments_of(blocks@),
                slots_filled(blocks@),
                stages(staged@, segs),
                cursor == segments_before(blocks@, b as int, i as int).len(),
                parts@.len() == i,
                forall|k: int|
                    0 <= k < i ==> {
                        &&& made_of(
                            (#[trigger] parts@[k]).0,
                            staged@,
                            segments_before(blocks@, b as int, k).len() as int,
                            slot_segments(slots@[k], b as int, k).len() as int,
                        )
                        &&& parts@[k].1 == NumaNode(slots@[k].numa_node)
                    },
            decreases slots@.len() - i,
        {
            let slot: TransferSlotInfo = slots[i];
            let ghost own = slot_segments(slot, b as int, i as int);
            let mut n: usize = 0;
            if slot.k_size > 0 {
                n += 1;
            }
            if slot.v_size > 0 && slot.v_ptr != 0 {
                n += 1;
            }
            proof {
                lemma_segments_before(blocks@, b as int, i as int);
                assert(own.len() == n);
                assert forall|q: int| 0 <= q < n implies segs[cursor + q] == #[trigger]
                    own[q] by {
                    assert(segs.subrange(cursor as int, cursor + n)[q] == own[q]);
                }
                assert(slot_segments(slots@[i as int], b as int, i as int).len() > 0);
                assert forall|q: int| cursor <= q < cursor + n implies lies_inside(
                    #[trigger] staged@[q],
                ) by {
                    assert(stands_for(staged@[q], segs[q]));
                }
                assert(own[0] == segs[cursor as int]);
                assert(stands_for(staged@[cursor as int], segs[cursor as int]));
                if n == 2 {
                    assert(own[1] == segs[cursor + 1]);
                    assert(stands_for(staged@[cursor + 1], segs[cursor + 1]));
                    assert(fits_with_next(staged@, cursor as int));
                }
            }
            let available: usize = staged.len();
            assert(cursor + n <= available);
            let raw: RawBlock = rebuild_slot(staged, cursor, n);
            parts.push((raw, NumaNode(slot.numa_node)));
            cursor += n;
            i += 1;
        }
        let ghost pieces = parts@;
        let sealed: SealedBlock = SealedBlock::from_slots(parts, now);
        proof {
            assert forall|k: int| 0 <= k < slots@.len() implies {
                &&& made_of(
                    #[trigger] sealed.blocks()[k],
                    staged@,
                    segments_before(blocks@, b as int, k).len() as int,
                    slot_segments(slots@[k], b as int, k).len() as int,
                )
                &&& sealed.numas()[k] == NumaNode(slots@[k].numa_node)
            } by {
                assert(sealed.blocks()[k] == pieces[k].0);
                assert(sealed.numas()[k] == pieces[k].1);
            }
        }
        let key: BlockKey = BlockKey::new(
            String::from_str(namespace),
            copy_bytes(&blocks[b].block_hash),
        );
        out.push((key, Arc::new(sealed)));
        b += 1;
    }
    out
}

/// What a fetch brings once its transfers are done: the blocks, rebuilt from their staged
/// segments, or nothing where there was nothing to transfer.
pub fn finish_fetch(
    namespace: &str,
    blocks: &[TransferBlockInfo],
    staged: &StagedFetch,
    now: u64,
) -> (r: Vec<(BlockKey, Arc<SealedBlock>)>)
    requires
        lays_out(staged.segments@, staged.slabs@, blocks@, staged.request is Some),
        slots_filled(blocks@),
    ensures
        if segments_of(blocks@).len() == 0 {
            r@.len() == 0
        } else {
            &&& r@.len() == blocks@.len()
            &&& forall|b: int|
                0 <= b < r@.len() ==> {
                    &&& (#[trigger] r@[b]).0@ == (namespace@, blocks@[b].block_hash@)
                    &&& rebuilt(*r@[b].1, blocks@, staged.segments@, b)
                    &&& r@[b].1.sealed_at() == now
                }
        },
{
    if staged.segments.len() == 0 {
        return Vec::new();
    }
    proof {
        lemma_laid_out_is_staged(
            staged.segments@,
            staged.slabs@,
            blocks@,
            staged.request is Some,
        );
    }
    rebuild_blocks(namespace, blocks, &staged.segments, now)
}

/// A fetched block has a slot for each of those at the peer, on the same node, made of exactly the
/// staged segments of the slot.
pub proof fn law_rebuilt_blocks_hold_what_is_staged(
    sealed: SealedBlock,
    blocks: Seq<TransferBlockInfo>,
    staged: Seq<StagedSegment>,
    b: int,
    i: int,
    q: int,
)
    requires
        rebuilt(sealed, blocks, staged, b),
        0 <= i < blocks[b].slots@.len(),
        0 <= q < slot_segments(blocks[b].slots@[i], b, i).len(),
    ensures
        sealed.blocks().len() == blocks[b].slots@.len(),
        sealed.numas()[i].0 == blocks[b].slots@[i].numa_node,
        sealed.blocks()[i].segments().len() == slot_segments(blocks[b].slots@[i], b, i).len(),
        ({
            let at = segments_before(blocks, b, i).len() + q;
            let segment = sealed.blocks()[i].segments()[q];
            &&& segment.ptr.host == staged[at].local
            &&& segment.size == staged[at].len
            &&& segment.allocation == staged[at].alloc
            &&& segment.ptr.device - staged[at].alloc.device_ptr == staged[at].local
                - staged[at].alloc.ptr
        }),
{
    assert(made_of(
        sealed.blocks()[i],
        staged,
        segments_before(blocks, b, i).len() as int,
        slot_segments(blocks[b].slots@[i], b, i).len() as int,
    ));
}

} // verus!
