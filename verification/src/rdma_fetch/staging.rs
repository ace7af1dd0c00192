//! Laying the segments of fetched blocks into slabs.

use std::sync::Arc;
use vstd::prelude::*;
use vstd::string::*;
use crate::issue23::identity::{stable_identity, stable_request_id};
use crate::keyed::{has_key, is_entry, lemma_place, lookup, unique_keys};
use crate::numa::NumaNode;
use crate::pinned_pool::{PinnedAllocation, PinnedMemory};
use crate::rdma_fetch::segments::{
    all_segments, block_segments, bytes_on, is_home, lemma_all_home, lemma_block_home,
    lemma_blocks_prefix, lemma_bytes_grow, lemma_segments_in,
    segments_before, segments_in, segments_of, slot_segments, uses_node, SegmentView,
    TransferBlockInfo, TransferSlotInfo,
};
use crate::rdma_fetch::slabs::{
    alloc_segment_from_slab, all_granted, all_grants, allocate_slab_lists, are_empty, countable,
    gave_back, lemma_all_granted, lemma_same_grants, list_count, lists_fail, list_segments, return_all, room_for_all, slab_grants, took,
    withdrawn, Grant, NumaSlab,
};

verus! {

/// A segment that has a place in local memory.
#[derive(Debug)]
pub struct StagedSegment {
    pub block: usize,
    pub slot: usize,
    pub is_k: bool,
    pub local: u64,
    pub remote: u64,
    pub len: usize,
    pub numa: NumaNode,
    pub alloc: Arc<PinnedAllocation>,
}

/// Whether `staged` is segment `j`, laid behind the earlier segments of its node.
pub open spec fn staged_at(
    staged: StagedSegment,
    slabs: Seq<(NumaNode, NumaSlab)>,
    segs: Seq<SegmentView>,
    j: int,
) -> bool {
    let seg = segs[j];
    &&& staged.block == seg.block
    &&& staged.slot == seg.slot
    &&& staged.is_k == seg.is_k
    &&& staged.remote == seg.remote
    &&& staged.len == seg.len
    &&& staged.numa == seg.numa
    &&& lookup(slabs, seg.numa) is Some
    &&& staged.alloc == lookup(slabs, seg.numa)->0.allocation
    &&& staged.local == staged.alloc.ptr + bytes_on(segs.take(j), seg.numa)
    &&& lies_inside(staged)
}

/// Whether a staged segment lies inside its memory.
pub open spec fn lies_inside(staged: StagedSegment) -> bool {
    &&& staged.alloc.wf()
    &&& staged.alloc.ptr <= staged.local
    &&& staged.local + staged.len <= staged.alloc.ptr + staged.alloc.range.size_bytes
}

/// Whether slabs differ in how much was laid into them alone.
pub open spec fn same_slabs(
    a: Seq<(NumaNode, NumaSlab)>,
    b: Seq<(NumaNode, NumaSlab)>,
) -> bool {
    a.len() == b.len() && forall|i: int|
        0 <= i < a.len() ==> {
            &&& (#[trigger] a[i]).0 == b[i].0
            &&& a[i].1.allocation == b[i].1.allocation
            &&& a[i].1.capacity == b[i].1.capacity
        }
}

/// Whether `slabs` are `fresh` ones into which `done` was laid.
spec fn slabs_after(
    slabs: Seq<(NumaNode, NumaSlab)>,
    fresh: Seq<(NumaNode, NumaSlab)>,
    done: Seq<SegmentView>,
) -> bool {
    &&& unique_keys(slabs)
    &&& same_slabs(slabs, fresh)
    &&& forall|i: int|
        0 <= i < slabs.len() ==> (#[trigger] slabs[i]).1.wf() && slabs[i].1.next_offset
            == bytes_on(done, slabs[i].0)
}

/// Whether every segment has a remote address.
pub open spec fn all_remote(segs: Seq<SegmentView>) -> bool {
    forall|i: int| 0 <= i < segs.len() ==> (#[trigger] segs[i]).remote != 0
}

/// A segment's bytes go into the slab of its node, so they can be addressed.
proof fn lemma_segment_fits(slabs: Seq<(NumaNode, NumaSlab)>, segs: Seq<SegmentView>, k: int)
    requires
        room_for_all(slabs, segs),
        0 <= k < segs.len(),
    ensures
        bytes_on(segs.take(k), segs[k].numa) + segs[k].len <= bytes_on(segs, segs[k].numa)
            <= usize::MAX,
        bytes_on(segs.take(k), segs[k].numa) >= 0,
        has_key(slabs, segs[k].numa),
{
    let numa = segs[k].numa;
    assert(segs.take(k + 1).drop_last() =~= segs.take(k));
    assert(segs.take(k + 1).last() == segs[k]);
    lemma_bytes_grow(segs, k + 1, numa);
    lemma_bytes_grow(segs, k, numa);
    assert(uses_node(segs, numa));
    assert(has_key(slabs, numa));
    let p = crate::keyed::place(slabs, numa);
    assert(is_entry(slabs, numa, p));
    assert(slabs[p].1.capacity == bytes_on(segs, numa));
}

/// Lays the next segment into the slab of its node.
fn stage_segment(
    slabs: &mut Vec<(NumaNode, NumaSlab)>,
    out: &mut Vec<StagedSegment>,
    block: usize,
    slot: usize,
    is_k: bool,
    remote: u64,
    size: u64,
    numa: NumaNode,
    Ghost(fresh): Ghost<Seq<(NumaNode, NumaSlab)>>,
    Ghost(segs): Ghost<Seq<SegmentView>>,
) -> (r: Result<(), String>)
    requires
        room_for_all(fresh, segs),
        old(out)@.len() < segs.len(),
        slabs_after(old(slabs)@, fresh, segs.take(old(out)@.len() as int)),
        forall|j: int|
            0 <= j < old(out)@.len() ==> staged_at(#[trigger] old(out)@[j], fresh, segs, j),
        segs[old(out)@.len() as int] == (SegmentView {
            block: block as int,
            slot: slot as int,
            is_k,
            remote,
            len: size,
            numa,
        }),
        !is_k ==> remote != 0,
    ensures
        same_slabs(final(slabs)@, fresh),
        match r {
            Ok(_) => {
                &&& remote != 0
                &&& final(out)@.len() == old(out)@.len() + 1
                &&& slabs_after(final(slabs)@, fresh, segs.take(final(out)@.len() as int))
                &&& forall|j: int|
                    0 <= j < final(out)@.len() ==> staged_at(
                        #[trigger] final(out)@[j],
                        fresh,
                        segs,
                        j,
                    )
            },
            Err(m) => remote == 0 && m@ == "remote K ptr is null"@,
        },
{
    let ghost k = out@.len() as int;
    let ghost before = slabs@;
    proof {
        lemma_segment_fits(fresh, segs, k);
        assert(segs.take(k + 1).drop_last() =~= segs.take(k));
        assert(segs.take(k + 1).last() == segs[k]);
        let p = crate::keyed::place(fresh, numa);
        assert(is_entry(fresh, numa, p));
        assert(before[p].0 == numa);
        assert(is_entry(before, numa, p));
        lemma_place(before, numa, p);
        lemma_place(fresh, numa, p);
        assert(fresh[p].1.capacity == bytes_on(segs, numa));
    }
    let len: usize = size as usize;
    let kind: &str = if is_k {
        "K"
    } else {
        "V"
    };
    let (local, alloc): (u64, Arc<PinnedAllocation>) = match alloc_segment_from_slab(
        slabs,
        numa,
        len,
        kind,
    ) {
        Ok(got) => got,
        Err(m) => {
            assert(false);
            return Err(m);
        },
    };
    if remote == 0 {
        return Err(String::from_str("remote K ptr is null"));
    }
    let ghost staged0 = out@;
    out.push(StagedSegment { block, slot, is_k, local, remote, len, numa, alloc });
    proof {
        assert forall|i: int| 0 <= i < slabs@.len() implies (#[trigger] slabs@[i]).1.wf()
            && slabs@[i].1.next_offset == bytes_on(segs.take(k + 1), slabs@[i].0) by {
            assert(before[i].1.wf());
        }
        assert forall|j: int| 0 <= j < out@.len() implies staged_at(
            #[trigger] out@[j],
            fresh,
            segs,
            j,
        ) by {
            if j < k {
                assert(out@[j] == staged0[j]);
            }
        }
    }
    Ok(())
}

proof fn lemma_same_place(
    staged: StagedSegment,
    slabs: Seq<(NumaNode, NumaSlab)>,
    fresh: Seq<(NumaNode, NumaSlab)>,
    segs: Seq<SegmentView>,
    j: int,
)
    requires
        unique_keys(slabs),
        unique_keys(fresh),
        same_slabs(slabs, fresh),
        staged_at(staged, fresh, segs, j),
    ensures
        staged_at(staged, slabs, segs, j),
{
    let numa = segs[j].numa;
    let p = crate::keyed::place(fresh, numa);
    assert(is_entry(fresh, numa, p));
    assert(slabs[p].0 == fresh[p].0);
    assert(is_entry(slabs, numa, p));
    lemma_place(slabs, numa, p);
}

proof fn lemma_same_room(
    slabs: Seq<(NumaNode, NumaSlab)>,
    fresh: Seq<(NumaNode, NumaSlab)>,
    segs: Seq<SegmentView>,
)
    requires
        same_slabs(slabs, fresh),
        unique_keys(slabs),
        forall|i: int| 0 <= i < slabs.len() ==> (#[trigger] slabs[i]).1.wf(),
        room_for_all(fresh, segs),
    ensures
        room_for_all(slabs, segs),
        slab_grants(slabs) == slab_grants(fresh),
{
    assert forall|i: int| 0 <= i < slabs.len() implies (#[trigger] slabs[i]).1.capacity
        == bytes_on(segs, slabs[i].0) by {
        assert(fresh[i].1.capacity == bytes_on(segs, fresh[i].0));
    }
    assert forall|n: NumaNode| #[trigger] has_key(slabs, n) <==> uses_node(segs, n) by {
        assert(has_key(fresh, n) <==> uses_node(segs, n));
        if has_key(slabs, n) {
            let i = crate::keyed::place(slabs, n);
            assert(is_entry(slabs, n, i));
            assert(slabs[i].0 == fresh[i].0);
            assert(is_entry(fresh, n, i));
        }
        if has_key(fresh, n) {
            let i = crate::keyed::place(fresh, n);
            assert(is_entry(fresh, n, i));
            assert(slabs[i].0 == fresh[i].0);
            assert(is_entry(slabs, n, i));
        }
    }
    assert(slab_grants(slabs) =~= slab_grants(fresh));
}

/// Lays the segments of the blocks from `lo` to `hi` into slabs that have exactly the room for
/// them. It fails only where the keys of a slot have no remote address.
fn stage_range(
    blocks: &[TransferBlockInfo],
    lo: usize,
    hi: usize,
    slabs: &mut Vec<(NumaNode, NumaSlab)>,
) -> (r: Result<Vec<StagedSegment>, String>)
    requires
        lo <= hi <= blocks@.len(),
        room_for_all(old(slabs)@, segments_in(blocks@, lo as int, hi as int)),
        are_empty(old(slabs)@),
    ensures
        slab_grants(final(slabs)@) == slab_grants(old(slabs)@),
        ({
            let segs = segments_in(blocks@, lo as int, hi as int);
            match r {
                Ok(staged) => {
                    &&& all_remote(segs)
                    &&& room_for_all(final(slabs)@, segs)
                    &&& staged@.len() == segs.len()
                    &&& forall|j: int|
                        0 <= j < staged@.len() ==> staged_at(
                            #[trigger] staged@[j],
                            final(slabs)@,
                            segs,
                            j,
                        )
                },
                Err(m) => !all_remote(segs) && m@ == "remote K ptr is null"@,
            }
        }),
{
    let mut out: Vec<StagedSegment> = Vec::new();
    let ghost segs = segments_in(blocks@, lo as int, hi as int);
    let ghost base = all_segments(blocks@, lo as int).len();
    let ghost fresh = slabs@;
    let mut b: usize = lo;
    proof {
        assert(segs.take(0) =~= Seq::<SegmentView>::empty());
        assert(same_slabs(slabs@, fresh));
    }
    while b < hi
        invariant
            lo <= b <= hi <= blocks@.len(),
            segs == segments_in(blocks@, lo as int, hi as int),
            base == all_segments(blocks@, lo as int).len(),
            fresh == old(slabs)@,
            room_for_all(fresh, segs),
            out@.len() + base == all_segments(blocks@, b as int).len(),
            out@.len() <= segs.len(),
            slabs_after(slabs@, fresh, segs.take(out@.len() as int)),
            forall|j: int|
                0 <= j < out@.len() ==> staged_at(#[trigger] out@[j], fresh, segs, j),
            forall|j: int| 0 <= j < out@.len() ==> (#[trigger] segs[j]).remote != 0,
        decreases hi - b,
    {
        let slots: &Vec<TransferSlotInfo> = &blocks[b].slots;
        let mut i: usize = 0;
        assert(segments_before(blocks@, b as int, 0) =~= all_segments(blocks@, b as int));
        while i < slots.len()
            invariant
                lo <= b < hi <= blocks@.len(),
                slots@ == blocks@[b as int].slots@,
                i <= slots@.len(),
                segs == segments_in(blocks@, lo as int, hi as int),
                base == all_segments(blocks@, lo as int).len(),
                fresh == old(slabs)@,
                room_for_all(fresh, segs),
                out@.len() + base == segments_before(blocks@, b as int, i as int).len(),
                out@.len() <= segs.len(),
                slabs_after(slabs@, fresh, segs.take(out@.len() as int)),
                forall|j: int|
                    0 <= j < out@.len() ==> staged_at(#[trigger] out@[j], fresh, segs, j),
                forall|j: int| 0 <= j < out@.len() ==> (#[trigger] segs[j]).remote != 0,
            decreases slots@.len() - i,
        {
            let slot: TransferSlotInfo = slots[i];
            let numa: NumaNode = NumaNode(slot.numa_node);
            let ghost own = slot_segments(slot, b as int, i as int);
            let ghost n = out@.len() as int;
            proof {
                lemma_segments_in(blocks@, lo as int, hi as int, b as int, i as int);
                assert forall|q: int| 0 <= q < own.len() implies segs[n + q] == #[trigger]
                    own[q] by {
                    assert(segs.subrange(n, n + own.len())[q] == own[q]);
                }
            }
            if slot.k_size > 0 {
                assert(segs[n] == own[0]);
                let staged: Result<(), String> = stage_segment(
                    slabs,
                    &mut out,
                    b,
                    i,
                    true,
                    slot.k_ptr,
                    slot.k_size,
                    numa,
                    Ghost(fresh),
                    Ghost(segs),
                );
                if let Err(m) = staged {
                    assert(slab_grants(slabs@) =~= slab_grants(fresh));
                    return Err(m);
                }
            }
            if slot.v_size > 0 && slot.v_ptr != 0 {
                proof {
                    let q = own.len() - 1;
                    assert(segs[n + q] == own[q]);
                }
                let staged: Result<(), String> = stage_segment(
                    slabs,
                    &mut out,
                    b,
                    i,
                    false,
                    slot.v_ptr,
                    slot.v_size,
                    numa,
                    Ghost(fresh),
                    Ghost(segs),
                );
                if let Err(m) = staged {
                    assert(false);
                    return Err(m);
                }
            }
            i += 1;
        }
        assert(segments_before(blocks@, b as int, i as int) =~= all_segments(blocks@, b + 1));
        b += 1;
    }
    proof {
        lemma_blocks_prefix(blocks@, lo as int, hi as int);
        lemma_same_room(slabs@, fresh, segs);
        assert forall|j: int| 0 <= j < out@.len() implies staged_at(
            #[trigger] out@[j],
            slabs@,
            segs,
            j,
        ) by {
            lemma_same_place(out@[j], slabs@, fresh, segs, j);
        }
    }
    Ok(out)
}

/// Where the segments of list `g` begin among all segments.
pub open spec fn list_base(blocks: Seq<TransferBlockInfo>, apart: bool, g: int) -> int {
    if apart {
        all_segments(blocks, g).len() as int
    } else {
        0
    }
}

/// Whether `segments` are those of `blocks`, laid into lists of slabs that have exactly the
/// room for them.
pub open spec fn lays_out(
    segments: Seq<StagedSegment>,
    lists: Seq<Vec<(NumaNode, NumaSlab)>>,
    blocks: Seq<TransferBlockInfo>,
    apart: bool,
) -> bool {
    &&& lists.len() == list_count(blocks.len() as int, apart)
    &&& segments.len() == segments_of(blocks).len()
    &&& forall|g: int|
        0 <= g < lists.len() ==> list_laid(segments, (#[trigger] lists[g])@, blocks, apart, g)
}

/// Whether the segments of list `g` are laid into its slabs.
pub open spec fn list_laid(
    segments: Seq<StagedSegment>,
    slabs: Seq<(NumaNode, NumaSlab)>,
    blocks: Seq<TransferBlockInfo>,
    apart: bool,
    g: int,
) -> bool {
    let segs = list_segments(blocks, apart, g);
    let base = list_base(blocks, apart, g);
    &&& room_for_all(slabs, segs)
    &&& forall|j: int|
        base <= j < base + segs.len() ==> staged_at(
            #[trigger] segments[j],
            slabs,
            segs,
            j - base,
        )
}

/// Blocks that are to be fetched, with their places in local memory.
#[derive(Debug)]
pub struct StagedFetch {
    pub segments: Vec<StagedSegment>,
    /// The memory: one list for all blocks, or one for each where they are kept apart.
    pub slabs: Vec<Vec<(NumaNode, NumaSlab)>>,
    /// The identity of the request in the experiment, if there is one.
    pub request: Option<String>,
}

/// Why blocks cannot be staged, after the requests for memory in `taken`: memory cannot be
/// had, the request has no identity in the experiment that it is part of, or keys have no
/// remote address.
pub open spec fn staging_fails(
    blocks: Seq<TransferBlockInfo>,
    request: Option<Seq<char>>,
    taken: Seq<Grant>,
    m: Seq<char>,
) -> bool {
    let apart = request is Some;
    ||| lists_fail(blocks, apart, taken, m)
    ||| {
        &&& all_granted(taken)
        &&& countable(blocks, apart, list_count(blocks.len() as int, apart))
        &&& if request is Some && stable_identity(request->0) is Err {
            stable_identity(request->0) == Err::<Seq<char>, Seq<char>>(m)
        } else {
            !all_remote(segments_of(blocks)) && m == "remote K ptr is null"@
        }
    }
}

/// A request as a specification sees it.
pub open spec fn text_of(request: Option<&str>) -> Option<Seq<char>> {
    match request {
        Some(raw) => Some(raw@),
        None => None,
    }
}

/// Where the segments of a list stand among all segments.
proof fn lemma_list_among_all(
    blocks: Seq<TransferBlockInfo>,
    apart: bool,
    g: int,
    lo: int,
    hi: int,
)
    requires
        0 <= g < list_count(blocks.len() as int, apart),
        apart ==> lo == g && hi == g + 1,
        !apart ==> lo == 0 && hi == blocks.len(),
    ensures
        ({
            let segs = list_segments(blocks, apart, g);
            let base = list_base(blocks, apart, g);
            &&& segs == segments_in(blocks, lo, hi)
            &&& base == all_segments(blocks, lo).len()
            &&& base + segs.len() == all_segments(blocks, hi).len()
            &&& base + segs.len() <= segments_of(blocks).len()
            &&& forall|j: int|
                0 <= j < segs.len() ==> #[trigger] segs[j] == segments_of(blocks)[base + j]
        }),
{
    let segs = list_segments(blocks, apart, g);
    let all = segments_of(blocks);
    assert(segments_in(blocks, 0, blocks.len() as int) =~= all);
    lemma_blocks_prefix(blocks, lo, hi);
    lemma_blocks_prefix(blocks, hi, blocks.len() as int);
    let head = all_segments(blocks, hi);
    let base = all_segments(blocks, lo).len();
    assert forall|j: int| 0 <= j < segs.len() implies #[trigger] segs[j] == all[base + j] by {
        assert(head[base + j] == segs[j]);
        assert(all.take(head.len() as int)[base + j] == head[base + j]);
    }
}

/// Stages blocks: takes the memory for them and gives every segment its place. A request
/// that is part of an experiment gets its blocks apart. Where staging fails, all memory is
/// given back.
pub fn stage_fetch<M: PinnedMemory>(
    memory: &mut M,
    blocks: &[TransferBlockInfo],
    request: Option<&str>,
) -> (r: Result<StagedFetch, String>)
    requires
        old(memory).sound(),
    ensures
        final(memory).sound(),
        match r {
            Ok(s) => {
                let apart = request is Some;
                &&& took(*old(memory), *final(memory), all_grants(s.slabs@))
                &&& countable(blocks@, apart, s.slabs@.len() as int)
                &&& all_remote(segments_of(blocks@))
                &&& lays_out(s.segments@, s.slabs@, blocks@, apart)
                &&& match s.request {
                    Some(id) => blocks@.len() > 0 && request is Some && stable_identity(
                        request->0@,
                    ) == Ok::<Seq<char>, Seq<char>>(id@),
                    None => blocks@.len() == 0 || request is None,
                }
            },
            Err(m) => {
                &&& blocks@.len() > 0
                &&& exists|taken: Seq<Grant>| #[trigger]
                    withdrawn(*old(memory), *final(memory), taken) && staging_fails(
                        blocks@,
                        text_of(request),
                        taken,
                        m@,
                    )
            },
        },
{
    let n: usize = blocks.len();
    let apart: bool = request.is_some();
    let mut lists: Vec<Vec<(NumaNode, NumaSlab)>> = match allocate_slab_lists(
        memory,
        blocks,
        apart,
    ) {
        Ok(lists) => lists,
        Err(m) => {
            proof {
                let taken = choose|taken: Seq<Grant>| #[trigger]
                    withdrawn(*old(memory), *memory, taken) && lists_fail(
                        blocks@,
                        apart,
                        taken,
                        m@,
                    );
                assert(staging_fails(blocks@, text_of(request), taken, m@));
            }
            return Err(m);
        },
    };
    let ghost fresh = lists@;
    let ghost staging = *memory;
    proof {
        lemma_all_granted(fresh);
    }
    let mut id: Option<String> = None;
    if n > 0 {
        if let Some(raw) = request {
            match stable_request_id(raw) {
                Ok(text) => {
                    id = Some(text);
                },
                Err(m) => {
                    return_all(memory, &lists);
                    proof {
                        assert(withdrawn(*old(memory), *memory, all_grants(fresh)));
                        assert(staging_fails(blocks@, text_of(request), all_grants(fresh), m@));
                    }
                    return Err(m);
                },
            }
        }
    }
    let mut out: Vec<StagedSegment> = Vec::new();
    let count: usize = lists.len();
    let mut g: usize = 0;
    while g < count
        invariant
            n == blocks@.len(),
            apart == request.is_some(),
            count == lists@.len(),
            count == fresh.len(),
            count == list_count(n as int, apart),
            countable(blocks@, apart, count as int),
            g <= count,
            memory.sound(),
            *memory == staging,
            took(*old(memory), staging, all_grants(fresh)),
            all_granted(all_grants(fresh)),
            request is Some && stable_identity(request->0@) is Err ==> n == 0,
            out@.len() == all_segments(
                blocks@,
                if apart {
                    g as int
                } else if g == 0 {
                    0
                } else {
                    n as int
                },
            ).len(),
            forall|k: int|
                0 <= k < count ==> slab_grants((#[trigger] lists@[k])@) == slab_grants(fresh[k]@),
            forall|k: int|
                g <= k < count ==> room_for_all(
                    (#[trigger] lists@[k])@,
                    list_segments(blocks@, apart, k),
                ) && are_empty(lists@[k]@),
            forall|k: int|
                0 <= k < g ==> list_laid(out@, (#[trigger] lists@[k])@, blocks@, apart, k),
            forall|j: int|
                0 <= j < out@.len() ==> (#[trigger] segments_of(blocks@)[j]).remote != 0,
            out@.len() <= segments_of(blocks@).len(),
        decreases count - g,
    {
        let (lo, hi): (usize, usize) = if apart {
            (g, g + 1)
        } else {
            (0, n)
        };
        let ghost segs = list_segments(blocks@, apart, g as int);
        let ghost before = lists@;
        proof {
            lemma_list_among_all(blocks@, apart, g as int, lo as int, hi as int);
            assert(room_for_all(lists@[g as int]@, segs) && are_empty(lists@[g as int]@));
        }
        let staged: Result<Vec<StagedSegment>, String> = stage_range(
            blocks,
            lo,
            hi,
            &mut lists[g],
        );
        proof {
            assert forall|k: int| 0 <= k < count implies slab_grants((#[trigger] lists@[k])@)
                == slab_grants(fresh[k]@) by {
                assert(slab_grants(before[k]@) == slab_grants(fresh[k]@));
            }
        }
        match staged {
            Ok(mut part) => {
                let ghost done = out@;
                let ghost more = part@;
                let ghost base = done.len() as int;
                out.append(&mut part);
                proof {
                    assert forall|k: int| 0 <= k < g + 1 implies list_laid(
                        out@,
                        (#[trigger] lists@[k])@,
                        blocks@,
                        apart,
                        k,
                    ) by {
                        if k < g {
                            assert(list_laid(done, before[k]@, blocks@, apart, k));
                            lemma_list_among_all(blocks@, apart, k, k, k + 1);
                            lemma_blocks_prefix(blocks@, k + 1, g as int);
                            let own = list_segments(blocks@, apart, k);
                            let start = list_base(blocks@, apart, k);
                            assert forall|j: int| start <= j < start + own.len() implies staged_at(
                                #[trigger] out@[j],
                                lists@[k]@,
                                own,
                                j - start,
                            ) by {
                                assert(out@[j] == done[j]);
                            }
                        } else {
                            assert forall|j: int| base <= j < base + segs.len() implies staged_at(
                                #[trigger] out@[j],
                                lists@[g as int]@,
                                segs,
                                j - base,
                            ) by {
                                assert(out@[j] == more[j - base]);
                            }
                        }
                    }
                    assert forall|j: int| 0 <= j < out@.len() implies (
                    #[trigger] segments_of(blocks@)[j]).remote != 0 by {
                        if j >= base {
                            assert(segs[j - base] == segments_of(blocks@)[j]);
                        }
                    }
                }
            },
            Err(m) => {
                proof {
                    let j = choose|j: int| 0 <= j < segs.len() && (#[trigger] segs[j]).remote == 0;
                    assert(segs[j].remote == 0);
                    let place = list_base(blocks@, apart, g as int) + j;
                    assert(segments_of(blocks@)[place].remote == 0);
                    assert(!all_remote(segments_of(blocks@)));
                    lemma_same_grants(lists@, fresh);
                }
                return_all(memory, &lists);
                proof {
                    assert(withdrawn(*old(memory), *memory, all_grants(fresh)));
                    assert(staging_fails(blocks@, text_of(request), all_grants(fresh), m@));
                }
                return Err(m);
            },
        }
        g += 1;
    }
    proof {
        lemma_same_grants(lists@, fresh);
    }
    Ok(StagedFetch { segments: out, slabs: lists, request: id })
}

/// Whether `staged` is a segment in local memory.
pub open spec fn stands_for(staged: StagedSegment, seg: SegmentView) -> bool {
    &&& lies_inside(staged)
    &&& staged.len == seg.len
    &&& staged.block == seg.block
    &&& staged.slot == seg.slot
    &&& staged.is_k == seg.is_k
    &&& staged.remote == seg.remote
    &&& staged.numa == seg.numa
}

/// Whether the bytes of a segment and of the next one of its slot can be added up.
pub open spec fn fits_with_next(staged: Seq<StagedSegment>, j: int) -> bool {
    j + 1 < staged.len() && staged[j].block == staged[j + 1].block && staged[j].slot == staged[j
        + 1].slot ==> staged[j].len + staged[j + 1].len <= usize::MAX
}

/// Whether `staged` are the segments of `segs` in local memory, in order.
pub open spec fn stages(staged: Seq<StagedSegment>, segs: Seq<SegmentView>) -> bool {
    &&& staged.len() == segs.len()
    &&& forall|j: int| 0 <= j < staged.len() ==> stands_for(#[trigger] staged[j], segs[j])
    &&& forall|j: int| 0 <= j < staged.len() ==> #[trigger] fits_with_next(staged, j)
}

proof fn lemma_list_stages(
    segments: Seq<StagedSegment>,
    slabs: Seq<(NumaNode, NumaSlab)>,
    blocks: Seq<TransferBlockInfo>,
    apart: bool,
    g: int,
    lo: int,
    hi: int,
)
    requires
        0 <= g < list_count(blocks.len() as int, apart),
        apart ==> lo == g && hi == g + 1,
        !apart ==> lo == 0 && hi == blocks.len(),
        segments.len() == segments_of(blocks).len(),
        list_laid(segments, slabs, blocks, apart, g),
        forall|j: int|
            0 <= j < all_segments(blocks, lo).len() ==> stands_for(
                #[trigger] segments[j],
                segments_of(blocks)[j],
            ),
        forall|j: int|
            0 <= j < all_segments(blocks, lo).len() - 1 ==> #[trigger] fits_with_next(segments, j),
    ensures
        all_segments(blocks, hi).len() <= segments.len(),
        forall|j: int|
            0 <= j < all_segments(blocks, hi).len() ==> stands_for(
                #[trigger] segments[j],
                segments_of(blocks)[j],
            ),
        forall|j: int|
            0 <= j < all_segments(blocks, hi).len() - 1 ==> #[trigger] fits_with_next(segments, j),
{
    let segs = list_segments(blocks, apart, g);
    let base = list_base(blocks, apart, g);
    let all = segments_of(blocks);
    lemma_list_among_all(blocks, apart, g, lo, hi);
    assert forall|j: int| 0 <= j < all_segments(blocks, hi).len() implies stands_for(
        #[trigger] segments[j],
        all[j],
    ) by {
        if j >= base {
            assert(staged_at(segments[j], slabs, segs, j - base));
            assert(segs[j - base] == all[j]);
        }
    }
    assert forall|j: int|
        0 <= j < all_segments(blocks, hi).len() - 1 implies #[trigger] fits_with_next(
        segments,
        j,
    ) by {
        if j >= base {
            let k = j + 1 - base;
            assert(staged_at(segments[j], slabs, segs, k - 1));
            assert(staged_at(segments[j + 1], slabs, segs, k));
            lemma_segment_fits(slabs, segs, k);
            lemma_all_home(blocks, blocks.len() as int);
            assert(segs[k] == all[j + 1] && segs[k - 1] == all[j]);
            assert(is_home(blocks, blocks.len() as int, all[j]));
            assert(is_home(blocks, blocks.len() as int, all[j + 1]));
            if segments[j].block == segments[j + 1].block && segments[j].slot == segments[j
                + 1].slot {
                assert(segs.take(k).drop_last() =~= segs.take(k - 1));
                assert(segs.take(k).last() == segs[k - 1]);
                lemma_bytes_grow(segs, k - 1, segs[k].numa);
            }
        } else if j == base - 1 {
            lemma_all_home(blocks, lo);
            lemma_blocks_prefix(blocks, lo, blocks.len() as int);
            let head = all_segments(blocks, lo);
            assert(head[j] == all.take(head.len() as int)[j]);
            assert(is_home(blocks, lo, head[j]));
            assert(segs[0] == all[base]);
            lemma_block_home(blocks, lo, blocks[lo].slots@.len() as int);
            assert(segs =~= block_segments(blocks[lo].slots@, lo, blocks[lo].slots@.len() as int));
            assert(all[base].block == lo);
        }
    }
}

proof fn lemma_lists_stage(
    segments: Seq<StagedSegment>,
    lists: Seq<Vec<(NumaNode, NumaSlab)>>,
    blocks: Seq<TransferBlockInfo>,
    g: int,
)
    requires
        lays_out(segments, lists, blocks, true),
        0 <= g <= lists.len(),
    ensures
        forall|j: int|
            0 <= j < all_segments(blocks, g).len() ==> stands_for(
                #[trigger] segments[j],
                segments_of(blocks)[j],
            ),
        forall|j: int|
            0 <= j < all_segments(blocks, g).len() - 1 ==> #[trigger] fits_with_next(segments, j),
    decreases g,
{
    if g > 0 {
        lemma_lists_stage(segments, lists, blocks, g - 1);
        assert(list_laid(segments, lists[g - 1]@, blocks, true, g - 1));
        lemma_list_stages(segments, lists[g - 1]@, blocks, true, g - 1, g - 1, g);
    }
}

/// Segments that are laid out are staged.
pub proof fn lemma_laid_out_is_staged(
    segments: Seq<StagedSegment>,
    lists: Seq<Vec<(NumaNode, NumaSlab)>>,
    blocks: Seq<TransferBlockInfo>,
    apart: bool,
)
    requires
        lays_out(segments, lists, blocks, apart),
    ensures
        stages(segments, segments_of(blocks)),
{
    let n = blocks.len() as int;
    if apart {
        lemma_lists_stage(segments, lists, blocks, n);
    } else if n > 0 {
        assert(list_laid(segments, lists[0]@, blocks, false, 0));
        lemma_list_stages(segments, lists[0]@, blocks, false, 0, 0, n);
    }
    assert forall|j: int| 0 <= j < segments.len() implies #[trigger] fits_with_next(
        segments,
        j,
    ) by {}
}

/// Gives the memory of a fetch back that came to nothing.
pub fn abandon_fetch<M: PinnedMemory>(memory: &mut M, staged: StagedFetch)
    requires
        old(memory).sound(),
    ensures
        final(memory).sound(),
        gave_back(*old(memory), *final(memory), all_grants(staged.slabs@)),
{
    return_all(memory, &staged.slabs);
}

/// Segments that are laid into the same memory do not meet: each lies behind the
/// earlier ones.
pub proof fn law_segments_do_not_meet(
    a: StagedSegment,
    b: StagedSegment,
    slabs: Seq<(NumaNode, NumaSlab)>,
    segs: Seq<SegmentView>,
    i: int,
    j: int,
)
    requires
        0 <= i < j < segs.len(),
        staged_at(a, slabs, segs, i),
        staged_at(b, slabs, segs, j),
        a.numa == b.numa,
    ensures
        a.local + a.len <= b.local,
{
    let head = segs.take(j);
    lemma_bytes_grow(head, i + 1, a.numa);
    assert(head.take(i + 1) =~= segs.take(i + 1));
    assert(segs.take(i + 1).drop_last() =~= segs.take(i));
    assert(segs.take(i + 1).last() == segs[i]);
}

/// A segment is staged in the slab of its node, right behind the segments of that node before it;
/// it lies in the memory of the slab as a whole and keeps its length, its address at the peer and
/// its place in the blocks.
pub proof fn law_segments_are_staged_one_behind_the_other(
    a: StagedSegment,
    slabs: Seq<(NumaNode, NumaSlab)>,
    segs: Seq<SegmentView>,
    j: int,
)
    requires
        0 <= j < segs.len(),
        staged_at(a, slabs, segs, j),
    ensures
        a.len == segs[j].len,
        a.remote == segs[j].remote,
        a.block == segs[j].block,
        a.slot == segs[j].slot,
        a.is_k == segs[j].is_k,
        exists|p: int|
            0 <= p < slabs.len() && (#[trigger] slabs[p]).0 == segs[j].numa && a.alloc
                == slabs[p].1.allocation,
        a.local - a.alloc.ptr == bytes_on(segs.take(j), segs[j].numa),
        a.local >= a.alloc.ptr,
        a.local + a.len <= a.alloc.ptr + a.alloc.range.size_bytes,
{
    let p = crate::keyed::place(slabs, segs[j].numa);
    assert(crate::keyed::is_entry(slabs, segs[j].numa, p));
    assert(slabs[p].0 == segs[j].numa);
}

/// Every segment of a fetch is staged, in order, with its length and its address at the peer, and
/// inside the memory of its slab.
pub proof fn law_every_segment_is_staged(
    segments: Seq<StagedSegment>,
    lists: Seq<Vec<(NumaNode, NumaSlab)>>,
    blocks: Seq<TransferBlockInfo>,
    apart: bool,
    j: int,
)
    requires
        lays_out(segments, lists, blocks, apart),
        0 <= j < segments_of(blocks).len(),
    ensures
        segments.len() == segments_of(blocks).len(),
        segments[j].len == segments_of(blocks)[j].len,
        segments[j].remote == segments_of(blocks)[j].remote,
        segments[j].block == segments_of(blocks)[j].block,
        segments[j].slot == segments_of(blocks)[j].slot,
        segments[j].is_k == segments_of(blocks)[j].is_k,
        segments[j].numa == segments_of(blocks)[j].numa,
        segments[j].alloc.ptr <= segments[j].local,
        segments[j].local + segments[j].len <= segments[j].alloc.ptr
            + segments[j].alloc.range.size_bytes,
        all_remote(segments_of(blocks)) ==> segments[j].remote != 0,
{
    lemma_laid_out_is_staged(segments, lists, blocks, apart);
    assert(stands_for(segments[j], segments_of(blocks)[j]));
}

} // verus!
