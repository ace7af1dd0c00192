//! The segments of blocks that are fetched, and how many bytes of them go to each NUMA node.

use vstd::prelude::*;
use vstd::string::*;
use crate::keyed::{has_key, is_entry, lemma_place, lemma_push, lemma_update, unique_keys};
use crate::numa::NumaNode;
use crate::text::join2;

verus! {

/// Where one slot of a remote block lies, and on which NUMA node.
#[derive(Clone, Copy, Debug, PartialEq, Eq, Structural)]
pub struct TransferSlotInfo {
    pub k_ptr: u64,
    pub k_size: u64,
    pub v_ptr: u64,
    pub v_size: u64,
    pub numa_node: u32,
}

/// A remote block.
#[derive(Debug)]
pub struct TransferBlockInfo {
    pub block_hash: Vec<u8>,
    pub slots: Vec<TransferSlotInfo>,
}

/// A segment to fetch.
pub struct SegmentView {
    pub block: int,
    pub slot: int,
    pub is_k: bool,
    pub remote: u64,
    pub len: u64,
    pub numa: NumaNode,
}

/// The segments of a slot: the keys where there are any, and the values where
/// they are split off.
pub open spec fn slot_segments(s: TransferSlotInfo, block: int, slot: int) -> Seq<SegmentView> {
    let numa = NumaNode(s.numa_node);
    let k = if s.k_size > 0 {
        seq![SegmentView { block, slot, is_k: true, remote: s.k_ptr, len: s.k_size, numa }]
    } else {
        Seq::empty()
    };
    if s.v_size > 0 && s.v_ptr != 0 {
        k.push(SegmentView { block, slot, is_k: false, remote: s.v_ptr, len: s.v_size, numa })
    } else {
        k
    }
}

/// The segments of the first `n` slots of a block.
pub open spec fn block_segments(slots: Seq<TransferSlotInfo>, block: int, n: int) -> Seq<
    SegmentView,
>
    decreases n,
{
    if n <= 0 {
        Seq::empty()
    } else {
        block_segments(slots, block, n - 1) + slot_segments(slots[n - 1], block, n - 1)
    }
}

/// The segments of the first `n` blocks.
pub open spec fn all_segments(blocks: Seq<TransferBlockInfo>, n: int) -> Seq<SegmentView>
    decreases n,
{
    if n <= 0 {
        Seq::empty()
    } else {
        all_segments(blocks, n - 1) + block_segments(
            blocks[n - 1].slots@,
            n - 1,
            blocks[n - 1].slots@.len() as int,
        )
    }
}

/// The segments of all blocks.
pub open spec fn segments_of(blocks: Seq<TransferBlockInfo>) -> Seq<SegmentView> {
    all_segments(blocks, blocks.len() as int)
}

/// The bytes of the segments on a NUMA node.
pub open spec fn bytes_on(segs: Seq<SegmentView>, numa: NumaNode) -> int
    decreases segs.len(),
{
    if segs.len() == 0 {
        0
    } else {
        bytes_on(segs.drop_last(), numa) + if segs.last().numa == numa {
            segs.last().len as int
        } else {
            0
        }
    }
}

/// Whether a segment is on a NUMA node.
pub open spec fn uses_node(segs: Seq<SegmentView>, numa: NumaNode) -> bool {
    exists|i: int| 0 <= i < segs.len() && (#[trigger] segs[i]).numa == numa
}

/// The first segment with which the bytes of its node no longer fit into 64 bits.
pub open spec fn sum_error(segs: Seq<SegmentView>) -> Option<Seq<char>>
    decreases segs.len(),
{
    if segs.len() == 0 {
        None
    } else if sum_error(segs.drop_last()) is Some {
        sum_error(segs.drop_last())
    } else if bytes_on(segs, segs.last().numa) > u64::MAX {
        Some(
            if segs.last().is_k {
                "numa bytes overflow while summing K segments on "@
            } else {
                "numa bytes overflow while summing V segments on "@
            } + segs.last().numa.text(),
        )
    } else {
        None
    }
}

/// Whether `totals` list each node that segments are on once, with its bytes.
pub open spec fn is_totals(totals: Seq<(NumaNode, u64)>, segs: Seq<SegmentView>) -> bool {
    &&& unique_keys(totals)
    &&& forall|n: NumaNode| #[trigger] has_key(totals, n) <==> uses_node(segs, n)
    &&& forall|i: int|
        0 <= i < totals.len() ==> (#[trigger] totals[i]).1 == bytes_on(segs, totals[i].0)
}

proof fn lemma_uses_node_push(segs: Seq<SegmentView>, seg: SegmentView)
    ensures
        forall|n: NumaNode| #[trigger]
            uses_node(segs.push(seg), n) <==> uses_node(segs, n) || n == seg.numa,
{
    let more = segs.push(seg);
    assert forall|n: NumaNode| #[trigger] uses_node(more, n) <==> uses_node(segs, n) || n
        == seg.numa by {
        if uses_node(segs, n) {
            let i = choose|i: int| 0 <= i < segs.len() && (#[trigger] segs[i]).numa == n;
            assert(more[i].numa == n);
        }
        if n == seg.numa {
            assert(more[segs.len() as int].numa == n);
        }
        if uses_node(more, n) && n != seg.numa {
            let i = choose|i: int| 0 <= i < more.len() && (#[trigger] more[i]).numa == n;
            assert(segs[i].numa == n);
        }
    }
}

proof fn lemma_unused_node(segs: Seq<SegmentView>, n: NumaNode)
    requires
        !uses_node(segs, n),
    ensures
        bytes_on(segs, n) == 0,
    decreases segs.len(),
{
    if segs.len() > 0 {
        let front = segs.drop_last();
        if uses_node(front, n) {
            let i = choose|i: int| 0 <= i < front.len() && (#[trigger] front[i]).numa == n;
            assert(segs[i].numa == n);
        }
        lemma_unused_node(front, n);
        assert(segs[segs.len() - 1].numa != n);
    }
}

/// More segments have no fewer bytes.
pub proof fn lemma_bytes_grow(segs: Seq<SegmentView>, k: int, n: NumaNode)
    requires
        0 <= k <= segs.len(),
    ensures
        0 <= bytes_on(segs.take(k), n) <= bytes_on(segs, n),
    decreases segs.len(),
{
    if segs.len() > 0 {
        let front = segs.drop_last();
        if k == segs.len() {
            assert(segs.take(k) =~= segs);
            lemma_bytes_grow(front, k - 1, n);
        } else {
            lemma_bytes_grow(front, k, n);
            assert(front.take(k) =~= segs.take(k));
        }
    } else {
        assert(segs.take(k) =~= segs);
    }
}

fn find_total(totals: &Vec<(NumaNode, u64)>, numa: NumaNode) -> (r: Option<usize>)
    requires
        unique_keys(totals@),
    ensures
        match r {
            Some(i) => i < totals@.len() && totals@[i as int].0 == numa && has_key(totals@, numa),
            None => !has_key(totals@, numa),
        },
{
    let mut i: usize = 0;
    while i < totals.len()
        invariant
            i <= totals@.len(),
            unique_keys(totals@),
            forall|k: int| 0 <= k < i ==> !#[trigger] is_entry(totals@, numa, k),
        decreases totals@.len() - i,
    {
        if totals[i].0.0 == numa.0 {
            proof {
                lemma_place(totals@, numa, i as int);
            }
            return Some(i);
        }
        i += 1;
    }
    None
}

/// Adds a segment's bytes to the total of its node.
fn add_segment(
    totals: &mut Vec<(NumaNode, u64)>,
    numa: NumaNode,
    len: u64,
    is_k: bool,
    Ghost(segs): Ghost<Seq<SegmentView>>,
    Ghost(seg): Ghost<SegmentView>,
) -> (r: Result<(), String>)
    requires
        is_totals(old(totals)@, segs),
        sum_error(segs) is None,
        seg.numa == numa,
        seg.len == len,
        seg.is_k == is_k,
    ensures
        match r {
            Ok(_) => is_totals(final(totals)@, segs.push(seg)) && sum_error(segs.push(seg))
                is None,
            Err(m) => sum_error(segs.push(seg)) == Some(m@),
        },
{
    let ghost before = totals@;
    let ghost more = segs.push(seg);
    proof {
        lemma_uses_node_push(segs, seg);
        assert(more.drop_last() =~= segs);
        if !uses_node(segs, numa) {
            lemma_unused_node(segs, numa);
        }
    }
    match find_total(totals, numa) {
        Some(i) => {
            let sum: u64 = match totals[i].1.checked_add(len) {
                Some(sum) => sum,
                None => {
                    return Err(overflow_text(is_k, numa));
                },
            };
            proof {
                lemma_update(before, i as int, sum);
            }
            totals[i] = (numa, sum);
            proof {
                let after = totals@;
                assert(after =~= before.update(i as int, (numa, sum)));
                assert forall|k: int| 0 <= k < after.len() implies (#[trigger] after[k]).1
                    == bytes_on(more, after[k].0) by {
                    assert(before[k].1 == bytes_on(segs, before[k].0));
                    if k != i {
                        assert(before[k].0 != before[i as int].0);
                    }
                }
                assert forall|n: NumaNode| #[trigger] has_key(after, n) <==> uses_node(
                    more,
                    n,
                ) by {
                    assert(has_key(before, n) <==> uses_node(segs, n));
                    if has_key(after, n) {
                        let k = crate::keyed::place(after, n);
                        assert(is_entry(after, n, k));
                        assert(is_entry(before, n, k));
                    }
                    if has_key(before, n) {
                        let k = crate::keyed::place(before, n);
                        assert(is_entry(before, n, k));
                        assert(is_entry(after, n, k));
                    }
                    if n == numa {
                        assert(is_entry(after, n, i as int));
                    }
                }
            }
        },
        None => {
            proof {
                lemma_push(before, numa, len);
                assert(!uses_node(segs, numa));
            }
            totals.push((numa, len));
            proof {
                let after = totals@;
                assert(after =~= before.push((numa, len)));
                assert forall|k: int| 0 <= k < after.len() implies (#[trigger] after[k]).1
                    == bytes_on(more, after[k].0) by {
                    if k < before.len() {
                        assert(before[k].1 == bytes_on(segs, before[k].0));
                        assert(is_entry(before, before[k].0, k));
                    }
                }
                assert forall|n: NumaNode| #[trigger] has_key(after, n) <==> uses_node(
                    more,
                    n,
                ) by {
                    assert(has_key(before, n) <==> uses_node(segs, n));
                    if has_key(after, n) {
                        let k = crate::keyed::place(after, n);
                        assert(is_entry(after, n, k));
                        if k < before.len() {
                            assert(is_entry(before, n, k));
                        }
                    }
                    if has_key(before, n) {
                        let k = crate::keyed::place(before, n);
                        assert(is_entry(before, n, k));
                        assert(is_entry(after, n, k));
                    }
                    if n == numa {
                        assert(is_entry(after, n, before.len() as int));
                    }
                }
            }
        },
    }
    Ok(())
}

fn overflow_text(is_k: bool, numa: NumaNode) -> (r: String)
    ensures
        r@ == if is_k {
            "numa bytes overflow while summing K segments on "@
        } else {
            "numa bytes overflow while summing V segments on "@
        } + numa.text(),
{
    if is_k {
        join2("numa bytes overflow while summing K segments on ", &numa.name())
    } else {
        join2("numa bytes overflow while summing V segments on ", &numa.name())
    }
}

proof fn lemma_sum_error_stays(segs: Seq<SegmentView>, more: Seq<SegmentView>)
    ensures
        sum_error(segs) is Some ==> sum_error(segs + more) == sum_error(segs),
    decreases more.len(),
{
    if more.len() > 0 {
        lemma_sum_error_stays(segs, more.drop_last());
        assert((segs + more).drop_last() =~= segs + more.drop_last());
    } else {
        assert(segs + more =~= segs);
    }
}

/// The segments of a block behind its first `n` slots.
pub open spec fn remaining_slots(slots: Seq<TransferSlotInfo>, block: int, n: int) -> Seq<
    SegmentView,
>
    decreases slots.len() - n,
{
    if n >= slots.len() {
        Seq::empty()
    } else {
        slot_segments(slots[n], block, n) + remaining_slots(slots, block, n + 1)
    }
}

/// The segments of the blocks behind the first `n`.
pub open spec fn remaining_blocks(blocks: Seq<TransferBlockInfo>, n: int) -> Seq<SegmentView>
    decreases blocks.len() - n,
{
    if n >= blocks.len() {
        Seq::empty()
    } else {
        block_segments(blocks[n].slots@, n, blocks[n].slots@.len() as int) + remaining_blocks(
            blocks,
            n + 1,
        )
    }
}

proof fn lemma_block_split(slots: Seq<TransferSlotInfo>, block: int, n: int)
    requires
        0 <= n <= slots.len(),
    ensures
        block_segments(slots, block, slots.len() as int) == block_segments(slots, block, n)
            + remaining_slots(slots, block, n),
    decreases slots.len() - n,
{
    if n < slots.len() {
        lemma_block_split(slots, block, n + 1);
        assert(block_segments(slots, block, n + 1) + remaining_slots(slots, block, n + 1)
            =~= block_segments(slots, block, n) + remaining_slots(slots, block, n));
    } else {
        assert(block_segments(slots, block, n) + remaining_slots(slots, block, n)
            =~= block_segments(slots, block, n));
    }
}

proof fn lemma_blocks_split(blocks: Seq<TransferBlockInfo>, n: int)
    requires
        0 <= n <= blocks.len(),
    ensures
        segments_of(blocks) == all_segments(blocks, n) + remaining_blocks(blocks, n),
    decreases blocks.len() - n,
{
    if n < blocks.len() {
        lemma_blocks_split(blocks, n + 1);
        assert(all_segments(blocks, n + 1) + remaining_blocks(blocks, n + 1) =~= all_segments(
            blocks,
            n,
        ) + remaining_blocks(blocks, n));
    } else {
        assert(all_segments(blocks, n) + remaining_blocks(blocks, n) =~= all_segments(blocks, n));
    }
}

/// The segments before slot `i` of block `b`.
pub open spec fn segments_before(blocks: Seq<TransferBlockInfo>, b: int, i: int) -> Seq<
    SegmentView,
> {
    all_segments(blocks, b) + block_segments(blocks[b].slots@, b, i)
}

/// The segments before slot `i` of block `b` begin all segments, and the slot's
/// own come next.
pub proof fn lemma_segments_before(blocks: Seq<TransferBlockInfo>, b: int, i: int)
    requires
        0 <= b < blocks.len(),
        0 <= i < blocks[b].slots@.len(),
    ensures
        ({
            let before = segments_before(blocks, b, i);
            let own = slot_segments(blocks[b].slots@[i], b, i);
            let all = segments_of(blocks);
            &&& before.len() + own.len() <= all.len()
            &&& all.take(before.len() as int) == before
            &&& all.subrange(before.len() as int, (before.len() + own.len()) as int) == own
            &&& segments_before(blocks, b, i + 1) == before + own
            &&& all == segments_before(blocks, b, i + 1) + remaining_slots(
                blocks[b].slots@,
                b,
                i + 1,
            ) + remaining_blocks(blocks, b + 1)
        }),
{
    let slots = blocks[b].slots@;
    let before = segments_before(blocks, b, i);
    let own = slot_segments(slots[i], b, i);
    let all = segments_of(blocks);
    lemma_blocks_split(blocks, b);
    lemma_block_split(slots, b, i + 1);
    assert(segments_before(blocks, b, i + 1) =~= before + own);
    let rest = remaining_slots(slots, b, i + 1) + remaining_blocks(blocks, b + 1);
    assert(all =~= before + own + rest);
    assert(all.take(before.len() as int) =~= before);
    assert(all.subrange(before.len() as int, (before.len() + own.len()) as int) =~= own);
    assert(all =~= segments_before(blocks, b, i + 1) + remaining_slots(slots, b, i + 1)
        + remaining_blocks(blocks, b + 1));
}

/// No segment is empty.
pub proof fn lemma_all_positive(blocks: Seq<TransferBlockInfo>, n: int)
    ensures
        forall|j: int|
            0 <= j < all_segments(blocks, n).len() ==> (#[trigger] all_segments(blocks, n)[j]).len
                > 0,
    decreases n,
{
    if n > 0 {
        lemma_all_positive(blocks, n - 1);
        let slots = blocks[n - 1].slots@;
        lemma_block_positive(slots, n - 1, slots.len() as int);
        let front = all_segments(blocks, n - 1);
        let own = block_segments(slots, n - 1, slots.len() as int);
        let all = all_segments(blocks, n);
        assert forall|j: int| 0 <= j < all.len() implies (#[trigger] all[j]).len > 0 by {
            if j < front.len() {
                assert(all[j] == front[j]);
            } else {
                assert(all[j] == own[j - front.len()]);
            }
        }
    }
}

proof fn lemma_block_positive(slots: Seq<TransferSlotInfo>, block: int, n: int)
    ensures
        forall|j: int|
            0 <= j < block_segments(slots, block, n).len() ==> (#[trigger] block_segments(
                slots,
                block,
                n,
            )[j]).len > 0,
    decreases n,
{
    if n > 0 {
        lemma_block_positive(slots, block, n - 1);
        let front = block_segments(slots, block, n - 1);
        let own = slot_segments(slots[n - 1], block, n - 1);
        let all = block_segments(slots, block, n);
        assert forall|j: int| 0 <= j < all.len() implies (#[trigger] all[j]).len > 0 by {
            if j < front.len() {
                assert(all[j] == front[j]);
            } else {
                assert(all[j] == own[j - front.len()]);
            }
        }
    }
}

/// A node that a segment is on has bytes.
pub proof fn lemma_used_node_has_bytes(segs: Seq<SegmentView>, i: int)
    requires
        0 <= i < segs.len(),
        segs[i].len > 0,
    ensures
        bytes_on(segs, segs[i].numa) > 0,
{
    lemma_bytes_grow(segs, i + 1, segs[i].numa);
    lemma_bytes_grow(segs, i, segs[i].numa);
    assert(segs.take(i + 1).drop_last() =~= segs.take(i));
    assert(segs.take(i + 1).last() == segs[i]);
}

/// The segments of the blocks from `lo` to `hi`.
pub open spec fn segments_in(blocks: Seq<TransferBlockInfo>, lo: int, hi: int) -> Seq<SegmentView> {
    all_segments(blocks, hi).skip(all_segments(blocks, lo).len() as int)
}

/// The segments of the first blocks begin those of more blocks.
pub proof fn lemma_blocks_prefix(blocks: Seq<TransferBlockInfo>, lo: int, hi: int)
    requires
        0 <= lo <= hi <= blocks.len(),
    ensures
        all_segments(blocks, lo).len() <= all_segments(blocks, hi).len(),
        all_segments(blocks, hi).take(all_segments(blocks, lo).len() as int) == all_segments(
            blocks,
            lo,
        ),
        all_segments(blocks, hi) == all_segments(blocks, lo) + segments_in(blocks, lo, hi),
    decreases hi - lo,
{
    let head = all_segments(blocks, lo);
    if lo < hi {
        lemma_blocks_prefix(blocks, lo, hi - 1);
        assert(all_segments(blocks, hi).take(head.len() as int) =~= all_segments(
            blocks,
            hi - 1,
        ).take(head.len() as int));
    } else {
        assert(head.take(head.len() as int) =~= head);
    }
    assert(all_segments(blocks, hi) =~= head + segments_in(blocks, lo, hi));
}

/// Where the segments of a slot stand among those of some blocks.
pub proof fn lemma_segments_in(blocks: Seq<TransferBlockInfo>, lo: int, hi: int, b: int, i: int)
    requires
        0 <= lo <= b < hi <= blocks.len(),
        0 <= i < blocks[b].slots@.len(),
    ensures
        ({
            let own = slot_segments(blocks[b].slots@[i], b, i);
            let n = segments_before(blocks, b, i).len() - all_segments(blocks, lo).len();
            let segs = segments_in(blocks, lo, hi);
            &&& 0 <= n
            &&& n + own.len() <= segs.len()
            &&& segs.subrange(n, n + own.len()) == own
            &&& segments_before(blocks, b, i + 1).len() == segments_before(blocks, b, i).len()
                + own.len()
        }),
{
    let slots = blocks[b].slots@;
    let own = slot_segments(slots[i], b, i);
    let before = segments_before(blocks, b, i);
    let base = all_segments(blocks, lo);
    let segs = segments_in(blocks, lo, hi);
    lemma_blocks_prefix(blocks, lo, b);
    lemma_blocks_prefix(blocks, b + 1, hi);
    lemma_blocks_prefix(blocks, lo, hi);
    lemma_block_split(slots, b, i + 1);
    let whole = all_segments(blocks, b + 1);
    assert(whole =~= before + own + remaining_slots(slots, b, i + 1));
    let n = before.len() - base.len();
    assert forall|q: int| 0 <= q < own.len() implies segs.subrange(n, n + own.len())[q]
        == own[q] by {
        assert(all_segments(blocks, hi)[before.len() + q] == whole[before.len() + q]) by {
            assert(all_segments(blocks, hi).take(whole.len() as int)[before.len() + q]
                == whole[before.len() + q]);
        }
    }
    assert(segs.subrange(n, n + own.len()) =~= own);
}

/// Whether a segment is one of its slot's, which is one of the first `n` blocks'.
pub open spec fn is_home(blocks: Seq<TransferBlockInfo>, n: int, seg: SegmentView) -> bool {
    let slot = blocks[seg.block].slots@[seg.slot];
    &&& 0 <= seg.block < n
    &&& 0 <= seg.slot < blocks[seg.block].slots@.len()
    &&& seg.numa == NumaNode(slot.numa_node)
    &&& if seg.is_k {
        slot.k_size > 0 && seg.remote == slot.k_ptr && seg.len == slot.k_size
    } else {
        slot.v_size > 0 && slot.v_ptr != 0 && seg.remote == slot.v_ptr && seg.len == slot.v_size
    }
}

/// Every segment is one of its slot's.
pub proof fn lemma_all_home(blocks: Seq<TransferBlockInfo>, n: int)
    requires
        0 <= n <= blocks.len(),
    ensures
        forall|j: int|
            0 <= j < all_segments(blocks, n).len() ==> is_home(
                blocks,
                n,
                #[trigger] all_segments(blocks, n)[j],
            ),
    decreases n,
{
    if n > 0 {
        lemma_all_home(blocks, n - 1);
        let slots = blocks[n - 1].slots@;
        lemma_block_home(blocks, n - 1, slots.len() as int);
        let front = all_segments(blocks, n - 1);
        let own = block_segments(slots, n - 1, slots.len() as int);
        let all = all_segments(blocks, n);
        assert forall|j: int| 0 <= j < all.len() implies is_home(blocks, n, #[trigger] all[j]) by {
            if j < front.len() {
                assert(all[j] == front[j]);
                assert(is_home(blocks, n - 1, front[j]));
            } else {
                assert(all[j] == own[j - front.len()]);
            }
        }
    }
}

/// Every segment of a block is one of its slot's.
pub proof fn lemma_block_home(blocks: Seq<TransferBlockInfo>, b: int, n: int)
    requires
        0 <= b < blocks.len(),
        0 <= n <= blocks[b].slots@.len(),
    ensures
        forall|j: int|
            0 <= j < block_segments(blocks[b].slots@, b, n).len() ==> is_home(
                blocks,
                b + 1,
                #[trigger] block_segments(blocks[b].slots@, b, n)[j],
            ) && block_segments(blocks[b].slots@, b, n)[j].block == b,
    decreases n,
{
    if n > 0 {
        lemma_block_home(blocks, b, n - 1);
        let slots = blocks[b].slots@;
        let front = block_segments(slots, b, n - 1);
        let own = slot_segments(slots[n - 1], b, n - 1);
        let all = block_segments(slots, b, n);
        assert forall|j: int| 0 <= j < all.len() implies is_home(blocks, b + 1, #[trigger] all[j])
            && all[j].block == b by {
            if j < front.len() {
                assert(all[j] == front[j]);
            } else {
                assert(all[j] == own[j - front.len()]);
            }
        }
    }
}

/// Whether segments are alike but for the blocks that they belong to.
pub open spec fn alike(a: Seq<SegmentView>, b: Seq<SegmentView>) -> bool {
    a.len() == b.len() && forall|i: int|
        0 <= i < a.len() ==> {
            &&& (#[trigger] a[i]).numa == b[i].numa
            &&& a[i].len == b[i].len
            &&& a[i].is_k == b[i].is_k
        }
}

proof fn lemma_alike(a: Seq<SegmentView>, b: Seq<SegmentView>)
    requires
        alike(a, b),
    ensures
        forall|n: NumaNode| #[trigger] bytes_on(a, n) == bytes_on(b, n),
        forall|n: NumaNode| #[trigger] uses_node(a, n) == uses_node(b, n),
        sum_error(a) == sum_error(b),
    decreases a.len(),
{
    if a.len() > 0 {
        let last = a.len() - 1;
        assert(a[last].numa == b[last].numa && a[last].len == b[last].len);
        lemma_alike(a.drop_last(), b.drop_last());
        assert forall|n: NumaNode| #[trigger] bytes_on(a, n) == bytes_on(b, n) by {
            assert(bytes_on(a.drop_last(), n) == bytes_on(b.drop_last(), n));
        }
    }
    assert forall|n: NumaNode| #[trigger] uses_node(a, n) == uses_node(b, n) by {
        if uses_node(a, n) {
            let i = choose|i: int| 0 <= i < a.len() && (#[trigger] a[i]).numa == n;
            assert(b[i].numa == n);
        }
        if uses_node(b, n) {
            let i = choose|i: int| 0 <= i < b.len() && (#[trigger] b[i]).numa == n;
            assert(a[i].numa == n);
        }
    }
    if a.len() > 0 {
        let last = a.last().numa;
        assert(bytes_on(a, last) == bytes_on(b, last));
    }
}

proof fn lemma_block_alike(slots: Seq<TransferSlotInfo>, x: int, y: int, n: int)
    ensures
        alike(block_segments(slots, x, n), block_segments(slots, y, n)),
    decreases n,
{
    if n > 0 {
        lemma_block_alike(slots, x, y, n - 1);
        let a = slot_segments(slots[n - 1], x, n - 1);
        let b = slot_segments(slots[n - 1], y, n - 1);
        assert(alike(a, b));
        let front = block_segments(slots, x, n - 1);
        let whole = block_segments(slots, x, n);
        let other = block_segments(slots, y, n);
        assert forall|i: int| 0 <= i < whole.len() implies {
            &&& (#[trigger] whole[i]).numa == other[i].numa
            &&& whole[i].len == other[i].len
            &&& whole[i].is_k == other[i].is_k
        } by {
            if i < front.len() {
                assert(whole[i] == front[i]);
            } else {
                assert(whole[i] == a[i - front.len()]);
            }
        }
    }
}

/// Adds up the bytes to fetch to each NUMA node for one block.
pub fn sum_block_bytes_by_numa(blocks: &[TransferBlockInfo], b: usize) -> (r: Result<
    Vec<(NumaNode, u64)>,
    String,
>)
    requires
        b < blocks@.len(),
    ensures
        ({
            let segs = segments_in(blocks@, b as int, b + 1);
            match r {
                Ok(totals) => sum_error(segs) is None && is_totals(totals@, segs),
                Err(m) => sum_error(segs) == Some(m@),
            }
        }),
{
    assert(b < blocks.len());
    let one: &[TransferBlockInfo] = vstd::slice::slice_subrange(blocks, b, b + 1);
    proof {
        let slots = blocks@[b as int].slots@;
        let segs = segments_in(blocks@, b as int, b + 1);
        assert(segs =~= block_segments(slots, b as int, slots.len() as int));
        assert(one@.len() == 1 && one@[0] == blocks@[b as int]);
        assert(all_segments(one@, 0) =~= Seq::<SegmentView>::empty());
        assert(segments_of(one@) =~= block_segments(slots, 0, slots.len() as int));
        lemma_block_alike(slots, 0, b as int, slots.len() as int);
        lemma_alike(segments_of(one@), segs);
        assert forall|totals: Seq<(NumaNode, u64)>| #[trigger]
            is_totals(totals, segments_of(one@)) implies is_totals(totals, segs) by {
            assert forall|n: NumaNode| #[trigger] has_key(totals, n) <==> uses_node(segs, n) by {
                assert(has_key(totals, n) <==> uses_node(segments_of(one@), n));
                assert(uses_node(segments_of(one@), n) == uses_node(segs, n));
            }
            assert forall|i: int| 0 <= i < totals.len() implies (#[trigger] totals[i]).1
                == bytes_on(segs, totals[i].0) by {
                assert(bytes_on(segments_of(one@), totals[i].0) == bytes_on(segs, totals[i].0));
            }
        }
    }
    sum_segment_bytes_by_numa(one)
}

/// Adds up the bytes to fetch to each NUMA node.
pub fn sum_segment_bytes_by_numa(blocks: &[TransferBlockInfo]) -> (r: Result<
    Vec<(NumaNode, u64)>,
    String,
>)
    ensures
        match r {
            Ok(totals) => sum_error(segments_of(blocks@)) is None && is_totals(
                totals@,
                segments_of(blocks@),
            ),
            Err(m) => sum_error(segments_of(blocks@)) == Some(m@),
        },
{
    let mut totals: Vec<(NumaNode, u64)> = Vec::new();
    let ghost all = segments_of(blocks@);
    let mut b: usize = 0;
    while b < blocks.len()
        invariant
            b <= blocks@.len(),
            all == segments_of(blocks@),
            is_totals(totals@, all_segments(blocks@, b as int)),
            sum_error(all_segments(blocks@, b as int)) is None,
        decreases blocks@.len() - b,
    {
        let slots: &Vec<TransferSlotInfo> = &blocks[b].slots;
        let mut i: usize = 0;
        assert(segments_before(blocks@, b as int, 0) =~= all_segments(blocks@, b as int));
        while i < slots.len()
            invariant
                b < blocks@.len(),
                slots@ == blocks@[b as int].slots@,
                i <= slots@.len(),
                all == segments_of(blocks@),
                is_totals(totals@, segments_before(blocks@, b as int, i as int)),
                sum_error(segments_before(blocks@, b as int, i as int)) is None,
            decreases slots@.len() - i,
        {
            let slot: TransferSlotInfo = slots[i];
            let numa: NumaNode = NumaNode(slot.numa_node);
            let ghost before = segments_before(blocks@, b as int, i as int);
            let ghost own = slot_segments(slot, b as int, i as int);
            let ghost mut done = before;
            proof {
                lemma_segments_before(blocks@, b as int, i as int);
                assert forall|n: int|
                    0 <= n <= own.len() && sum_error(before + #[trigger] own.take(n))
                        is Some implies sum_error(all) == sum_error(before + own.take(n)) by {
                    let head = before + own.take(n);
                    assert(all =~= head + all.skip(head.len() as int)) by {
                        assert(all.take(head.len() as int) =~= head);
                    }
                    lemma_sum_error_stays(head, all.skip(head.len() as int));
                }
            }
            if slot.k_size > 0 {
                proof {
                    assert(done.push(own[0]) =~= before + own.take(1));
                }
                add_segment(&mut totals, numa, slot.k_size, true, Ghost(done), Ghost(own[0]))?;
                proof {
                    done = done.push(own[0]);
                }
            }
            if slot.v_size > 0 && slot.v_ptr != 0 {
                let ghost last = own.last();
                proof {
                    assert(done.push(last) =~= before + own);
                    assert(own.take(own.len() as int) =~= own);
                }
                add_segment(&mut totals, numa, slot.v_size, false, Ghost(done), Ghost(last))?;
                proof {
                    done = done.push(last);
                }
            }
            assert(done =~= before + own);
            i += 1;
        }
        b += 1;
    }
    Ok(totals)
}

/// A slot has a segment for each of its two parts that is not empty, the first part before the
/// second; a second part without an address has none.
pub proof fn law_slots_have_a_segment_for_each_part(s: TransferSlotInfo, block: int, slot: int)
    ensures
        ({
            let segs = slot_segments(s, block, slot);
            let first = SegmentView {
                block,
                slot,
                is_k: true,
                remote: s.k_ptr,
                len: s.k_size,
                numa: NumaNode(s.numa_node),
            };
            let second = SegmentView {
                block,
                slot,
                is_k: false,
                remote: s.v_ptr,
                len: s.v_size,
                numa: NumaNode(s.numa_node),
            };
            let has_second = s.v_size > 0 && s.v_ptr != 0;
            &&& segs.len() == (if s.k_size > 0 {
                1int
            } else {
                0
            }) + (if has_second {
                1int
            } else {
                0
            })
            &&& s.k_size > 0 ==> segs[0] == first
            &&& has_second ==> segs[segs.len() - 1] == second
        }),
{
}

/// Every segment of every slot is fetched, and in the order of blocks and slots; nothing is
/// fetched that is not a part of a slot, and no part is fetched twice.
pub proof fn law_every_segment_is_fetched_once(
    blocks: Seq<TransferBlockInfo>,
    b: int,
    i: int,
    p: int,
    q: int,
)
    requires
        0 <= b < blocks.len(),
        0 <= i < blocks[b].slots@.len(),
        0 <= p < q < segments_of(blocks).len(),
    ensures
        ({
            let all = segments_of(blocks);
            let own = slot_segments(blocks[b].slots@[i], b, i);
            &&& exists|start: int|
                0 <= start && start + own.len() <= all.len() && #[trigger] all.subrange(
                    start,
                    start + own.len(),
                ) == own
            &&& is_home(blocks, blocks.len() as int, all[p])
            &&& all[p].block <= all[q].block
            &&& all[p].block == all[q].block ==> all[p].slot <= all[q].slot
            &&& all[p].block == all[q].block && all[p].slot == all[q].slot ==> all[p].is_k
                && !all[q].is_k
        }),
{
    let all = segments_of(blocks);
    let own = slot_segments(blocks[b].slots@[i], b, i);
    lemma_all_home(blocks, blocks.len() as int);
    lemma_own_segments(blocks, b, i, blocks.len() as int);
    lemma_in_order(blocks, blocks.len() as int, p, q);
}

proof fn lemma_own_in_block(slots: Seq<TransferSlotInfo>, b: int, i: int, n: int)
    requires
        0 <= i < n <= slots.len(),
    ensures
        ({
            let own = slot_segments(slots[i], b, i);
            let start = block_segments(slots, b, i).len() as int;
            &&& start + own.len() <= block_segments(slots, b, n).len()
            &&& block_segments(slots, b, n).subrange(start, start + own.len()) == own
        }),
    decreases n,
{
    let own = slot_segments(slots[i], b, i);
    let start = block_segments(slots, b, i).len() as int;
    if i < n - 1 {
        lemma_own_in_block(slots, b, i, n - 1);
        let front = block_segments(slots, b, n - 1);
        assert(block_segments(slots, b, n).subrange(start, start + own.len()) =~= front.subrange(
            start,
            start + own.len(),
        ));
    } else {
        assert(block_segments(slots, b, n).subrange(start, start + own.len()) =~= own);
    }
}

proof fn lemma_own_segments(blocks: Seq<TransferBlockInfo>, b: int, i: int, n: int)
    requires
        0 <= b < n <= blocks.len(),
        0 <= i < blocks[b].slots@.len(),
    ensures
        ({
            let own = slot_segments(blocks[b].slots@[i], b, i);
            exists|start: int|
                0 <= start && start + own.len() <= all_segments(blocks, n).len()
                    && #[trigger] all_segments(blocks, n).subrange(start, start + own.len()) == own
        }),
    decreases n,
{
    let own = slot_segments(blocks[b].slots@[i], b, i);
    let all = all_segments(blocks, n);
    let front = all_segments(blocks, n - 1);
    if b < n - 1 {
        lemma_own_segments(blocks, b, i, n - 1);
        let start = choose|start: int|
            0 <= start && start + own.len() <= front.len() && #[trigger] front.subrange(
                start,
                start + own.len(),
            ) == own;
        assert(all.subrange(start, start + own.len()) =~= own) by {
            assert(all.subrange(start, start + own.len()) =~= front.subrange(
                start,
                start + own.len(),
            ));
        }
    } else {
        let slots = blocks[b].slots@;
        lemma_own_in_block(slots, b, i, slots.len() as int);
        let inner = block_segments(slots, b, i).len() as int;
        let start = front.len() + inner;
        assert(all.subrange(start, start + own.len()) =~= block_segments(
            slots,
            b,
            slots.len() as int,
        ).subrange(inner, inner + own.len()));
    }
}

proof fn lemma_block_in_order(slots: Seq<TransferSlotInfo>, b: int, n: int, p: int, q: int)
    requires
        0 <= n <= slots.len(),
        0 <= p < q < block_segments(slots, b, n).len(),
    ensures
        ({
            let all = block_segments(slots, b, n);
            &&& all[p].block == b && all[q].block == b
            &&& all[p].slot <= all[q].slot < n
            &&& all[p].slot == all[q].slot ==> all[p].is_k && !all[q].is_k
        }),
    decreases n,
{
    let front = block_segments(slots, b, n - 1);
    let last = slot_segments(slots[n - 1], b, n - 1);
    if q < front.len() {
        lemma_block_in_order(slots, b, n - 1, p, q);
    } else if p < front.len() {
        lemma_block_slots(slots, b, n - 1, p);
    }
}

proof fn lemma_block_slots(slots: Seq<TransferSlotInfo>, b: int, n: int, p: int)
    requires
        0 <= n <= slots.len(),
        0 <= p < block_segments(slots, b, n).len(),
    ensures
        block_segments(slots, b, n)[p].block == b,
        0 <= block_segments(slots, b, n)[p].slot < n,
    decreases n,
{
    if p < block_segments(slots, b, n - 1).len() {
        lemma_block_slots(slots, b, n - 1, p);
    }
}

proof fn lemma_in_order(blocks: Seq<TransferBlockInfo>, n: int, p: int, q: int)
    requires
        0 <= n <= blocks.len(),
        0 <= p < q < all_segments(blocks, n).len(),
    ensures
        ({
            let all = all_segments(blocks, n);
            &&& all[p].block <= all[q].block < n
            &&& all[p].block == all[q].block ==> all[p].slot <= all[q].slot
            &&& all[p].block == all[q].block && all[p].slot == all[q].slot ==> all[p].is_k
                && !all[q].is_k
        }),
    decreases n,
{
    let front = all_segments(blocks, n - 1);
    let slots = blocks[n - 1].slots@;
    let m = slots.len() as int;
    let f = front.len() as int;
    if q < f {
        lemma_in_order(blocks, n - 1, p, q);
    } else {
        lemma_block_slots(slots, n - 1, m, q - f);
        if p >= f {
            lemma_block_in_order(slots, n - 1, m, p - f, q - f);
        } else {
            lemma_all_home(blocks, n - 1);
            assert(is_home(blocks, n - 1, front[p]));
        }
    }
}

/// The bytes on a node are those of the segments on it.
pub proof fn law_bytes_of_a_node_add_up(
    a: Seq<SegmentView>,
    b: Seq<SegmentView>,
    seg: SegmentView,
    numa: NumaNode,
)
    ensures
        bytes_on(a + b, numa) == bytes_on(a, numa) + bytes_on(b, numa),
        bytes_on(seq![seg], numa) == (if seg.numa == numa {
            seg.len as int
        } else {
            0
        }),
    decreases b.len(),
{
    reveal_with_fuel(bytes_on, 2);
    assert(seq![seg].drop_last() =~= Seq::<SegmentView>::empty());
    if b.len() == 0 {
        assert(a + b =~= a);
    } else {
        assert((a + b).drop_last() =~= a + b.drop_last());
        assert((a + b).last() == b.last());
        law_bytes_of_a_node_add_up(a, b.drop_last(), seg, numa);
    }
}

/// Segments can be summed up exactly if the bytes on each node can be counted.
pub proof fn law_sums_fail_for_want_of_numbers_alone(segs: Seq<SegmentView>, numa: NumaNode)
    ensures
        sum_error(segs) is None ==> bytes_on(segs, numa) <= u64::MAX,
        (forall|n: NumaNode| #[trigger] bytes_on(segs, n) <= u64::MAX) ==> sum_error(segs) is None,
    decreases segs.len(),
{
    if segs.len() > 0 {
        let front = segs.drop_last();
        law_sums_fail_for_want_of_numbers_alone(front, numa);
        if forall|n: NumaNode| #[trigger] bytes_on(segs, n) <= u64::MAX {
            assert forall|n: NumaNode| #[trigger] bytes_on(front, n) <= u64::MAX by {
                assert(bytes_on(segs, n) <= u64::MAX);
            }
        }
    }
}

/// Sums over nodes hold every node that a segment is on, and no other, each once and with all its
/// bytes. The segments of some blocks are those of the blocks up to the end without those before.
pub proof fn law_sums_hold_every_node(
    totals: Seq<(NumaNode, u64)>,
    segs: Seq<SegmentView>,
    i: int,
    j: int,
    blocks: Seq<TransferBlockInfo>,
    lo: int,
    hi: int,
)
    requires
        is_totals(totals, segs),
        0 <= lo <= hi <= blocks.len(),
    ensures
        0 <= j < segs.len() ==> exists|k: int|
            0 <= k < totals.len() && (#[trigger] totals[k]).0 == segs[j].numa,
        0 <= i < totals.len() ==> totals[i].1 == bytes_on(segs, totals[i].0),
        forall|a: int, b: int|
            0 <= a < b < totals.len() ==> (#[trigger] totals[a]).0 != (#[trigger] totals[b]).0,
        all_segments(blocks, hi) == all_segments(blocks, lo) + segments_in(blocks, lo, hi),
{
    if 0 <= j < segs.len() {
        assert(uses_node(segs, segs[j].numa));
        assert(has_key(totals, segs[j].numa));
        let k = crate::keyed::place(totals, segs[j].numa);
        assert(crate::keyed::is_entry(totals, segs[j].numa, k));
        assert(totals[k].0 == segs[j].numa);
    }
    lemma_prefix_of_segments(blocks, lo, hi);
    assert(all_segments(blocks, hi) =~= all_segments(blocks, lo) + segments_in(blocks, lo, hi));
}

proof fn lemma_prefix_of_segments(blocks: Seq<TransferBlockInfo>, lo: int, hi: int)
    requires
        0 <= lo <= hi <= blocks.len(),
    ensures
        all_segments(blocks, lo).len() <= all_segments(blocks, hi).len(),
        all_segments(blocks, hi).take(all_segments(blocks, lo).len() as int) == all_segments(
            blocks,
            lo,
        ),
    decreases hi,
{
    let low = all_segments(blocks, lo);
    let high = all_segments(blocks, hi);
    if lo < hi {
        lemma_prefix_of_segments(blocks, lo, hi - 1);
        let mid = all_segments(blocks, hi - 1);
        assert(high.take(low.len() as int) =~= mid.take(low.len() as int));
    } else {
        assert(high.take(low.len() as int) =~= low);
    }
}

} // verus!
