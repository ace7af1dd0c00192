//! Pinned memory that fetched segments are laid into: one slab for each NUMA node.

use std::sync::Arc;
use vstd::prelude::*;
use vstd::string::*;
use crate::keyed::{has_key, is_entry, lemma_place, lookup, unique_keys};
use crate::numa::NumaNode;
use crate::pinned_pool::{PinnedAllocation, PinnedMemory};
use crate::rdma_fetch::segments::{
    all_segments, bytes_on, is_totals, lemma_all_positive, lemma_blocks_prefix, lemma_used_node_has_bytes,
    segments_in, segments_of, sum_block_bytes_by_numa, sum_error, sum_segment_bytes_by_numa, uses_node,
    SegmentView, TransferBlockInfo,
};
use crate::shared::share;
use crate::text::{decimal, decimal_text, join3, join4, join6};

verus! {

/// A piece of pinned memory that segments are laid into one behind the other.
#[derive(Debug)]
pub struct NumaSlab {
    pub allocation: Arc<PinnedAllocation>,
    pub next_offset: usize,
    pub capacity: usize,
}

impl NumaSlab {
    /// The free part begins inside the slab, and the slab is inside its memory.
    pub open spec fn wf(self) -> bool {
        &&& self.allocation.wf()
        &&& self.next_offset <= self.capacity
        &&& self.capacity <= self.allocation.range.size_bytes
    }

    /// Takes the next `len` bytes of the slab.
    pub fn allocate(&mut self, len: usize, segment_kind: &str) -> (r: Result<
        (u64, Arc<PinnedAllocation>),
        String,
    >)
        requires
            old(self).wf(),
        ensures
            final(self).wf(),
            final(self).allocation == old(self).allocation,
            final(self).capacity == old(self).capacity,
            ({
                let place = ": offset="@ + decimal(old(self).next_offset as nat) + " len="@
                    + decimal(len as nat) + " capacity="@ + decimal(old(self).capacity as nat);
                match r {
                    Ok((ptr, allocation)) => {
                        &&& old(self).next_offset + len <= old(self).capacity
                        &&& ptr == old(self).allocation.ptr + old(self).next_offset
                        &&& allocation == old(self).allocation
                        &&& final(self).next_offset == old(self).next_offset + len
                    },
                    Err(m) => {
                        &&& *final(self) == *old(self)
                        &&& old(self).next_offset + len > old(self).capacity
                        &&& m@ == if old(self).next_offset + len > usize::MAX {
                            "slab offset overflow while allocating "@
                        } else {
                            "slab exhausted while allocating "@
                        } + segment_kind@ + place
                    },
                }
            }),
    {
        let end: Option<usize> = self.next_offset.checked_add(len);
        let fits: bool = match end {
            Some(e) => e <= self.capacity,
            None => false,
        };
        if !fits {
            let place: String = join6(
                ": offset=",
                &decimal_text(self.next_offset as u64),
                " len=",
                &decimal_text(len as u64),
                " capacity=",
                &decimal_text(self.capacity as u64),
            );
            return Err(
                if end.is_none() {
                    join3("slab offset overflow while allocating ", segment_kind, &place)
                } else {
                    join3("slab exhausted while allocating ", segment_kind, &place)
                },
            );
        }
        let ptr: u64 = self.allocation.ptr + self.next_offset as u64;
        self.next_offset = self.next_offset + len;
        Ok((ptr, share(&self.allocation)))
    }
}

fn find_slab(slabs: &Vec<(NumaNode, NumaSlab)>, numa: NumaNode) -> (r: Option<usize>)
    requires
        unique_keys(slabs@),
    ensures
        match r {
            Some(i) => i < slabs@.len() && slabs@[i as int].0 == numa && lookup(slabs@, numa)
                == Some(slabs@[i as int].1),
            None => lookup(slabs@, numa) is None && !has_key(slabs@, numa),
        },
{
    let mut i: usize = 0;
    while i < slabs.len()
        invariant
            i <= slabs@.len(),
            unique_keys(slabs@),
            forall|k: int| 0 <= k < i ==> !#[trigger] is_entry(slabs@, numa, k),
        decreases slabs@.len() - i,
    {
        if slabs[i].0.0 == numa.0 {
            proof {
                lemma_place(slabs@, numa, i as int);
            }
            return Some(i);
        }
        i += 1;
    }
    None
}

/// Takes the next `len` bytes of the slab of a node.
pub fn alloc_segment_from_slab(
    slabs: &mut Vec<(NumaNode, NumaSlab)>,
    numa: NumaNode,
    len: usize,
    segment_kind: &str,
) -> (r: Result<(u64, Arc<PinnedAllocation>), String>)
    requires
        unique_keys(old(slabs)@),
        forall|i: int| 0 <= i < old(slabs)@.len() ==> (#[trigger] old(slabs)@[i]).1.wf(),
    ensures
        unique_keys(final(slabs)@),
        final(slabs)@.len() == old(slabs)@.len(),
        forall|i: int|
            0 <= i < old(slabs)@.len() ==> {
                &&& (#[trigger] final(slabs)@[i]).1.wf()
                &&& final(slabs)@[i].0 == old(slabs)@[i].0
                &&& final(slabs)@[i].1.allocation == old(slabs)@[i].1.allocation
                &&& final(slabs)@[i].1.capacity == old(slabs)@[i].1.capacity
                &&& final(slabs)@[i].1.next_offset == old(slabs)@[i].1.next_offset + if r is Ok
                    && old(slabs)@[i].0 == numa {
                    len as int
                } else {
                    0
                }
            },
        match lookup(old(slabs)@, numa) {
            None => r matches Err(m) && m@ == "missing slab for "@ + numa.text()
                + " while allocating "@ + segment_kind@,
            Some(slab) => if slab.next_offset + len <= slab.capacity {
                r matches Ok(got) && got.0 == slab.allocation.ptr + slab.next_offset && got.1
                    == slab.allocation
            } else {
                r matches Err(m) && m@ == if slab.next_offset + len > usize::MAX {
                    "slab offset overflow while allocating "@
                } else {
                    "slab exhausted while allocating "@
                } + segment_kind@ + (": offset="@ + decimal(slab.next_offset as nat) + " len="@
                    + decimal(len as nat) + " capacity="@ + decimal(slab.capacity as nat))
            },
        },
{
    match find_slab(slabs, numa) {
        Some(i) => {
            let ghost before = slabs@;
            assert(slabs@[i as int].1.wf());
            let r: Result<(u64, Arc<PinnedAllocation>), String> = slabs[i].1.allocate(
                len,
                segment_kind,
            );
            proof {
                assert forall|a: int, b: int|
                    0 <= a < slabs@.len() && 0 <= b < slabs@.len() && (#[trigger] slabs@[a]).0 == (
                    #[trigger] slabs@[b]).0 implies a == b by {
                    assert(before[a].0 == before[b].0);
                }
                assert forall|k: int| 0 <= k < before.len() implies {
                    &&& (#[trigger] slabs@[k]).1.wf()
                    &&& slabs@[k].0 == before[k].0
                    &&& slabs@[k].1.allocation == before[k].1.allocation
                    &&& slabs@[k].1.capacity == before[k].1.capacity
                    &&& slabs@[k].1.next_offset == before[k].1.next_offset + if r is Ok
                        && before[k].0 == numa {
                        len as int
                    } else {
                        0
                    }
                } by {
                    assert(before[k].1.wf());
                    if k != i {
                        assert(before[k].0 != before[i as int].0);
                    }
                }
            }
            r
        },
        None => Err(
            join4("missing slab for ", &numa.name(), " while allocating ", segment_kind),
        ),
    }
}

/// A request for memory, and what came of it.
pub struct Grant {
    pub bytes: u64,
    pub node: NumaNode,
    pub allocation: Option<PinnedAllocation>,
}

/// Whether a request turns `before` into `after`.
pub open spec fn grants<M: PinnedMemory>(before: M, after: M, grant: Grant) -> bool {
    M::granted(before, after, grant.bytes as int, grant.node, grant.allocation)
}

/// Whether giving back what was granted turns `before` into `after`.
pub open spec fn takes_back<M: PinnedMemory>(before: M, after: M, grant: Grant) -> bool {
    match grant.allocation {
        Some(a) => exists|r: bool| #[trigger] M::returned(before, after, a, r),
        None => after == before,
    }
}

/// Whether requests are made in these states, one after the other.
pub open spec fn grant_chain<M: PinnedMemory>(states: Seq<M>, list: Seq<Grant>) -> bool {
    states.len() == list.len() + 1 && forall|i: int|
        0 <= i < list.len() ==> grants(states[i], states[i + 1], #[trigger] list[i])
}

/// Whether what was granted is given back in these states, one after the other.
pub open spec fn return_chain<M: PinnedMemory>(states: Seq<M>, list: Seq<Grant>) -> bool {
    states.len() == list.len() + 1 && forall|i: int|
        0 <= i < list.len() ==> takes_back(states[i], states[i + 1], #[trigger] list[i])
}

/// Whether requests, one after the other, lead from `before` to `after`.
pub open spec fn took<M: PinnedMemory>(before: M, after: M, list: Seq<Grant>) -> bool {
    exists|states: Seq<M>| #[trigger]
        grant_chain(states, list) && states.first() == before && states.last() == after
}

/// Whether giving back what was granted, one after the other, leads from `before` to
/// `after`.
pub open spec fn gave_back<M: PinnedMemory>(before: M, after: M, list: Seq<Grant>) -> bool {
    exists|states: Seq<M>| #[trigger]
        return_chain(states, list) && states.first() == before && states.last() == after
}

/// Whether memory was asked for and then, in some order, given back again.
pub open spec fn withdrawn<M: PinnedMemory>(before: M, after: M, taken: Seq<Grant>) -> bool {
    exists|mid: M, back: Seq<Grant>|
        #![trigger took(before, mid, taken), gave_back(mid, after, back)]
        took(before, mid, taken) && gave_back(mid, after, back) && back.to_multiset()
            == taken.to_multiset()
}

/// Whether every request was met.
pub open spec fn all_granted(grants: Seq<Grant>) -> bool {
    forall|i: int| 0 <= i < grants.len() ==> (#[trigger] grants[i]).allocation is Some
}

proof fn lemma_took_nothing<M: PinnedMemory>(a: M)
    ensures
        took(a, a, Seq::<Grant>::empty()),
{
    assert(grant_chain(seq![a], Seq::<Grant>::empty()));
}

proof fn lemma_took_one<M: PinnedMemory>(a: M, b: M, c: M, x: Seq<Grant>, grant: Grant)
    requires
        took(a, b, x),
        grants(b, c, grant),
    ensures
        took(a, c, x.push(grant)),
{
    let states = choose|states: Seq<M>| #[trigger]
        grant_chain(states, x) && states.first() == a && states.last() == b;
    let more = states.push(c);
    let list = x.push(grant);
    assert forall|i: int| 0 <= i < list.len() implies grants(
        more[i],
        more[i + 1],
        #[trigger] list[i],
    ) by {
        if i < x.len() {
            assert(list[i] == x[i]);
        }
    }
    assert(grant_chain(more, list));
    assert(more.first() == a && more.last() == c);
}

proof fn lemma_took_more<M: PinnedMemory>(a: M, b: M, c: M, x: Seq<Grant>, y: Seq<Grant>)
    requires
        took(a, b, x),
        took(b, c, y),
    ensures
        took(a, c, x + y),
{
    let first = choose|states: Seq<M>| #[trigger]
        grant_chain(states, x) && states.first() == a && states.last() == b;
    let second = choose|states: Seq<M>| #[trigger]
        grant_chain(states, y) && states.first() == b && states.last() == c;
    let states = first + second.skip(1);
    let list = x + y;
    assert forall|i: int| 0 <= i < list.len() implies grants(
        states[i],
        states[i + 1],
        #[trigger] list[i],
    ) by {
        if i < x.len() {
            assert(list[i] == x[i]);
        } else {
            assert(list[i] == y[i - x.len()]);
            assert(states[i + 1] == second[i - x.len() + 1]);
            assert(states[i] == second[i - x.len()]);
        }
    }
    assert(grant_chain(states, list));
    assert(states.first() == a);
    assert(states.last() == c);
}

proof fn lemma_gave_nothing<M: PinnedMemory>(a: M)
    ensures
        gave_back(a, a, Seq::<Grant>::empty()),
{
    assert(return_chain(seq![a], Seq::<Grant>::empty()));
}

proof fn lemma_gave_one<M: PinnedMemory>(a: M, b: M, c: M, x: Seq<Grant>, grant: Grant)
    requires
        gave_back(a, b, x),
        takes_back(b, c, grant),
    ensures
        gave_back(a, c, x.push(grant)),
{
    let states = choose|states: Seq<M>| #[trigger]
        return_chain(states, x) && states.first() == a && states.last() == b;
    let more = states.push(c);
    let list = x.push(grant);
    assert forall|i: int| 0 <= i < list.len() implies takes_back(
        more[i],
        more[i + 1],
        #[trigger] list[i],
    ) by {
        if i < x.len() {
            assert(list[i] == x[i]);
        }
    }
    assert(return_chain(more, list));
    assert(more.first() == a && more.last() == c);
}

proof fn lemma_gave_more<M: PinnedMemory>(a: M, b: M, c: M, x: Seq<Grant>, y: Seq<Grant>)
    requires
        gave_back(a, b, x),
        gave_back(b, c, y),
    ensures
        gave_back(a, c, x + y),
{
    let first = choose|states: Seq<M>| #[trigger]
        return_chain(states, x) && states.first() == a && states.last() == b;
    let second = choose|states: Seq<M>| #[trigger]
        return_chain(states, y) && states.first() == b && states.last() == c;
    let states = first + second.skip(1);
    let list = x + y;
    assert forall|i: int| 0 <= i < list.len() implies takes_back(
        states[i],
        states[i + 1],
        #[trigger] list[i],
    ) by {
        if i < x.len() {
            assert(list[i] == x[i]);
        } else {
            assert(list[i] == y[i - x.len()]);
            assert(states[i + 1] == second[i - x.len() + 1]);
            assert(states[i] == second[i - x.len()]);
        }
    }
    assert(return_chain(states, list));
    assert(states.first() == a);
    assert(states.last() == c);
}

/// The requests that slabs were got with.
pub open spec fn slab_grants(slabs: Seq<(NumaNode, NumaSlab)>) -> Seq<Grant> {
    slabs.map_values(
        |s: (NumaNode, NumaSlab)|
            Grant {
                bytes: s.1.capacity as u64,
                node: s.0,
                allocation: Some(*s.1.allocation),
            },
    )
}

/// The requests that lists of slabs were got with.
pub open spec fn all_grants(lists: Seq<Vec<(NumaNode, NumaSlab)>>) -> Seq<Grant>
    decreases lists.len(),
{
    if lists.len() == 0 {
        Seq::empty()
    } else {
        all_grants(lists.drop_last()) + slab_grants(lists.last()@)
    }
}

/// Slabs were granted.
pub proof fn lemma_all_granted(lists: Seq<Vec<(NumaNode, NumaSlab)>>)
    ensures
        all_granted(all_grants(lists)),
    decreases lists.len(),
{
    if lists.len() > 0 {
        lemma_all_granted(lists.drop_last());
        let front = all_grants(lists.drop_last());
        let own = slab_grants(lists.last()@);
        assert forall|i: int| 0 <= i < (front + own).len() implies (#[trigger] (front
            + own)[i]).allocation is Some by {
            if i < front.len() {
                assert((front + own)[i] == front[i]);
            } else {
                assert((front + own)[i] == own[i - front.len()]);
            }
        }
    }
}

/// Lists that were got with the same requests are got with the same requests in all.
pub proof fn lemma_same_grants(
    a: Seq<Vec<(NumaNode, NumaSlab)>>,
    b: Seq<Vec<(NumaNode, NumaSlab)>>,
)
    requires
        a.len() == b.len(),
        forall|g: int| 0 <= g < a.len() ==> slab_grants((#[trigger] a[g])@) == slab_grants(b[g]@),
    ensures
        all_grants(a) == all_grants(b),
    decreases a.len(),
{
    if a.len() > 0 {
        lemma_same_grants(a.drop_last(), b.drop_last());
        assert(slab_grants(a[a.len() - 1]@) == slab_grants(b[a.len() - 1]@));
    }
}

/// Gives slabs back.
pub fn return_slabs<M: PinnedMemory>(memory: &mut M, slabs: &Vec<(NumaNode, NumaSlab)>)
    requires
        old(memory).sound(),
    ensures
        final(memory).sound(),
        gave_back(*old(memory), *final(memory), slab_grants(slabs@)),
{
    let ghost all = slab_grants(slabs@);
    let mut i: usize = 0;
    proof {
        assert(all.take(0) =~= Seq::<Grant>::empty());
        lemma_gave_nothing(*memory);
    }
    while i < slabs.len()
        invariant
            i <= slabs@.len(),
            all == slab_grants(slabs@),
            memory.sound(),
            gave_back(*old(memory), *memory, all.take(i as int)),
        decreases slabs@.len() - i,
    {
        let ghost before = *memory;
        let r: bool = memory.give_back(&slabs[i].1.allocation);
        proof {
            assert(M::returned(before, *memory, all[i as int].allocation->0, r));
            assert(takes_back(before, *memory, all[i as int]));
            lemma_gave_one(
                *old(memory),
                before,
                *memory,
                all.take(i as int),
                all[i as int],
            );
            assert(all.take(i + 1) =~= all.take(i as int).push(all[i as int]));
        }
        i += 1;
    }
    assert(all.take(i as int) =~= all);
}

/// Gives lists of slabs back.
pub fn return_all<M: PinnedMemory>(memory: &mut M, lists: &Vec<Vec<(NumaNode, NumaSlab)>>)
    requires
        old(memory).sound(),
    ensures
        final(memory).sound(),
        gave_back(*old(memory), *final(memory), all_grants(lists@)),
{
    let mut g: usize = 0;
    proof {
        assert(lists@.take(0) =~= Seq::<Vec<(NumaNode, NumaSlab)>>::empty());
        lemma_gave_nothing(*memory);
    }
    while g < lists.len()
        invariant
            g <= lists@.len(),
            memory.sound(),
            gave_back(*old(memory), *memory, all_grants(lists@.take(g as int))),
        decreases lists@.len() - g,
    {
        let ghost before = *memory;
        return_slabs(memory, &lists[g]);
        proof {
            assert(lists@.take(g + 1).drop_last() =~= lists@.take(g as int));
            lemma_gave_more(
                *old(memory),
                before,
                *memory,
                all_grants(lists@.take(g as int)),
                slab_grants(lists@[g as int]@),
            );
        }
        g += 1;
    }
    assert(lists@.take(g as int) =~= lists@);
}

/// The requests among totals: a node that gets no bytes needs no slab.
pub open spec fn asked(totals: Seq<(NumaNode, u64)>) -> Seq<(NumaNode, u64)>
    decreases totals.len(),
{
    if totals.len() == 0 {
        Seq::empty()
    } else if totals.last().1 == 0 {
        asked(totals.drop_last())
    } else {
        asked(totals.drop_last()).push(totals.last())
    }
}

proof fn lemma_asked(totals: Seq<(NumaNode, u64)>, n: int)
    requires
        0 <= n <= totals.len(),
    ensures
        asked(totals.take(n)).len() <= asked(totals).len(),
        asked(totals).take(asked(totals.take(n)).len() as int) == asked(totals.take(n)),
    decreases totals.len() - n,
{
    if n < totals.len() {
        lemma_asked(totals, n + 1);
        let head = asked(totals.take(n));
        let more = asked(totals.take(n + 1));
        assert(totals.take(n + 1).drop_last() =~= totals.take(n));
        assert(more.take(head.len() as int) =~= head);
        assert(asked(totals).take(head.len() as int) =~= asked(totals).take(
            more.len() as int,
        ).take(head.len() as int));
    } else {
        assert(totals.take(n) =~= totals);
        assert(asked(totals).take(asked(totals).len() as int) =~= asked(totals));
    }
}

/// Whether `slabs` are empty slabs for the first of `wanted`.
pub open spec fn are_slabs(
    slabs: Seq<(NumaNode, NumaSlab)>,
    wanted: Seq<(NumaNode, u64)>,
) -> bool {
    slabs.len() <= wanted.len() && forall|i: int|
        0 <= i < slabs.len() ==> {
            &&& (#[trigger] slabs[i]).0 == wanted[i].0
            &&& slabs[i].1.wf()
            &&& slabs[i].1.next_offset == 0
            &&& slabs[i].1.capacity == wanted[i].1
            &&& slabs[i].1.allocation.node == wanted[i].0
        }
}

/// Why a request for a slab failed: there was no memory, or more than can be addressed.
pub open spec fn refusal_text(grant: Grant) -> Seq<char> {
    if grant.allocation is None {
        "failed to allocate slab ("@ + decimal(grant.bytes as nat) + " bytes) for "@
            + grant.node.text()
    } else {
        "slab size exceeds usize for "@ + grant.node.text() + ": "@ + decimal(grant.bytes as nat)
    }
}

/// Whether a request for a slab failed.
pub open spec fn refuses(grant: Grant) -> bool {
    grant.allocation is None || grant.bytes > usize::MAX
}

/// Whether `taken` are the first of `wanted`, all met but the last, which failed.
pub open spec fn refused(taken: Seq<Grant>, wanted: Seq<(NumaNode, u64)>) -> bool {
    &&& 0 < taken.len() <= wanted.len()
    &&& forall|i: int|
        0 <= i < taken.len() ==> (#[trigger] taken[i]).node == wanted[i].0 && taken[i].bytes
            == wanted[i].1
    &&& all_granted(taken.drop_last())
    &&& refuses(taken.last())
}

/// Takes one slab for each NUMA node, as large as the bytes that go there. Where one cannot
/// be had, the others are given back.
pub fn allocate_numa_slabs<M: PinnedMemory>(memory: &mut M, totals: &Vec<(NumaNode, u64)>) -> (r:
    Result<Vec<(NumaNode, NumaSlab)>, String>)
    requires
        old(memory).sound(),
    ensures
        final(memory).sound(),
        match r {
            Ok(slabs) => {
                &&& slabs@.len() == asked(totals@).len()
                &&& are_slabs(slabs@, asked(totals@))
                &&& took(*old(memory), *final(memory), slab_grants(slabs@))
            },
            Err(m) => exists|taken: Seq<Grant>| #[trigger]
                withdrawn(*old(memory), *final(memory), taken) && refused(taken, asked(totals@))
                    && m@ == refusal_text(taken.last()),
        },
{
    let mut slabs: Vec<(NumaNode, NumaSlab)> = Vec::new();
    let mut i: usize = 0;
    let ghost wanted = asked(totals@);
    proof {
        assert(slab_grants(slabs@) =~= Seq::<Grant>::empty());
        assert(totals@.take(0) =~= Seq::<(NumaNode, u64)>::empty());
        lemma_took_nothing(*memory);
    }
    while i < totals.len()
        invariant
            i <= totals@.len(),
            wanted == asked(totals@),
            memory.sound(),
            slabs@.len() == asked(totals@.take(i as int)).len(),
            are_slabs(slabs@, wanted),
            took(*old(memory), *memory, slab_grants(slabs@)),
        decreases totals@.len() - i,
    {
        let numa: NumaNode = totals[i].0;
        let bytes: u64 = totals[i].1;
        proof {
            assert(totals@.take(i + 1).drop_last() =~= totals@.take(i as int));
            assert(totals@.take(i + 1).last() == totals@[i as int]);
            lemma_asked(totals@, i + 1);
            if bytes > 0 {
                assert(wanted[slabs@.len() as int] == wanted.take(
                    asked(totals@.take(i + 1)).len() as int,
                )[slabs@.len() as int]);
            }
        }
        if bytes > 0 {
            let ghost before = *memory;
            let ghost so_far = slab_grants(slabs@);
            match memory.take(bytes, numa) {
                Some(a) => {
                    let ghost grant = Grant { bytes, node: numa, allocation: Some(a) };
                    let ghost after = *memory;
                    proof {
                        lemma_took_one(*old(memory), before, after, so_far, grant);
                    }
                    if bytes > usize::MAX as u64 {
                        return_slabs(memory, &slabs);
                        let ghost mid = *memory;
                        let r: bool = memory.give_back(&a);
                        proof {
                            let taken = so_far.push(grant);
                            assert(taken.drop_last() =~= so_far);
                            assert(M::returned(mid, *memory, a, r));
                            lemma_gave_one(after, mid, *memory, so_far, grant);
                            assert(withdrawn(*old(memory), *memory, taken));
                        }
                        return Err(
                            join4(
                                "slab size exceeds usize for ",
                                &numa.name(),
                                ": ",
                                &decimal_text(bytes),
                            ),
                        );
                    }
                    let slab: NumaSlab = NumaSlab {
                        allocation: Arc::new(a),
                        next_offset: 0,
                        capacity: bytes as usize,
                    };
                    slabs.push((numa, slab));
                    assert(slab_grants(slabs@) =~= so_far.push(grant));
                },
                None => {
                    let ghost grant = Grant { bytes, node: numa, allocation: None };
                    let ghost after = *memory;
                    return_slabs(memory, &slabs);
                    proof {
                        let taken = so_far.push(grant);
                        assert(taken.drop_last() =~= so_far);
                        lemma_took_one(*old(memory), before, after, so_far, grant);
                        lemma_gave_one(after, *memory, *memory, so_far, grant);
                        assert(withdrawn(*old(memory), *memory, taken));
                    }
                    return Err(
                        join4(
                            "failed to allocate slab (",
                            &decimal_text(bytes),
                            " bytes) for ",
                            &numa.name(),
                        ),
                    );
                },
            }
        }
        i += 1;
    }
    assert(totals@.take(i as int) =~= totals@);
    Ok(slabs)
}

/// How many lists of slabs `n` blocks get: one for all of them, or one for each where they
/// are kept apart.
pub open spec fn list_count(n: int, apart: bool) -> int {
    if apart || n == 0 {
        n
    } else {
        1
    }
}

/// The segments that go into list `g`.
pub open spec fn list_segments(blocks: Seq<TransferBlockInfo>, apart: bool, g: int) -> Seq<
    SegmentView,
> {
    if apart {
        segments_in(blocks, g, g + 1)
    } else {
        segments_of(blocks)
    }
}

/// Whether `slabs` have exactly the room that `segs` take.
pub open spec fn room_for_all(slabs: Seq<(NumaNode, NumaSlab)>, segs: Seq<SegmentView>) -> bool {
    &&& unique_keys(slabs)
    &&& forall|i: int|
        0 <= i < slabs.len() ==> (#[trigger] slabs[i]).1.wf() && slabs[i].1.capacity == bytes_on(
            segs,
            slabs[i].0,
        )
    &&& forall|n: NumaNode| #[trigger] has_key(slabs, n) <==> uses_node(segs, n)
}

/// Whether nothing has been laid into `slabs`.
pub open spec fn are_empty(slabs: Seq<(NumaNode, NumaSlab)>) -> bool {
    forall|i: int| 0 <= i < slabs.len() ==> (#[trigger] slabs[i]).1.next_offset == 0
}

/// Whether the bytes of the segments of the first `g` lists can be counted.
pub open spec fn countable(blocks: Seq<TransferBlockInfo>, apart: bool, g: int) -> bool {
    forall|h: int| 0 <= h < g ==> sum_error(#[trigger] list_segments(blocks, apart, h)) is None
}

/// Whether list `g` is the first that cannot be had, after the requests in `taken`, and why:
/// its bytes cannot be counted, or a request failed.
pub open spec fn list_fails(
    blocks: Seq<TransferBlockInfo>,
    apart: bool,
    taken: Seq<Grant>,
    g: int,
    m: Seq<char>,
) -> bool {
    let segs = list_segments(blocks, apart, g);
    &&& 0 <= g < list_count(blocks.len() as int, apart)
    &&& countable(blocks, apart, g)
    &&& if sum_error(segs) is Some {
        all_granted(taken) && sum_error(segs) == Some(m)
    } else {
        &&& taken.len() > 0
        &&& all_granted(taken.drop_last())
        &&& refuses(taken.last())
        &&& uses_node(segs, taken.last().node)
        &&& taken.last().bytes == bytes_on(segs, taken.last().node)
        &&& m == refusal_text(taken.last())
    }
}

/// Whether a list of slabs cannot be had, after the requests in `taken`, and why.
pub open spec fn lists_fail(
    blocks: Seq<TransferBlockInfo>,
    apart: bool,
    taken: Seq<Grant>,
    m: Seq<char>,
) -> bool {
    exists|g: int| #[trigger] list_fails(blocks, apart, taken, g, m)
}

proof fn lemma_totals_are_asked(
    blocks: Seq<TransferBlockInfo>,
    lo: int,
    hi: int,
    totals: Seq<(NumaNode, u64)>,
    n: int,
)
    requires
        0 <= lo <= hi <= blocks.len(),
        is_totals(totals, segments_in(blocks, lo, hi)),
        0 <= n <= totals.len(),
    ensures
        asked(totals.take(n)) == totals.take(n),
    decreases n,
{
    if n > 0 {
        lemma_totals_are_asked(blocks, lo, hi, totals, n - 1);
        let segs = segments_in(blocks, lo, hi);
        let node = totals[n - 1].0;
        assert(is_entry(totals, node, n - 1));
        assert(has_key(totals, node));
        assert(uses_node(segs, node));
        let j = choose|j: int| 0 <= j < segs.len() && (#[trigger] segs[j]).numa == node;
        lemma_all_positive(blocks, hi);
        lemma_blocks_prefix(blocks, lo, hi);
        assert(segs[j] == all_segments(blocks, hi)[all_segments(blocks, lo).len() + j]);
        lemma_used_node_has_bytes(segs, j);
        assert(totals.take(n).drop_last() =~= totals.take(n - 1));
        assert(totals.take(n - 1).push(totals[n - 1]) =~= totals.take(n));
    } else {
        assert(totals.take(0) =~= Seq::<(NumaNode, u64)>::empty());
    }
}

proof fn lemma_slabs_have_room(
    slabs: Seq<(NumaNode, NumaSlab)>,
    totals: Seq<(NumaNode, u64)>,
    segs: Seq<SegmentView>,
)
    requires
        slabs.len() == totals.len(),
        are_slabs(slabs, totals),
        is_totals(totals, segs),
    ensures
        room_for_all(slabs, segs),
        are_empty(slabs),
{
    assert forall|i: int, j: int|
        0 <= i < slabs.len() && 0 <= j < slabs.len() && (#[trigger] slabs[i]).0 == (
        #[trigger] slabs[j]).0 implies i == j by {
        assert(totals[i].0 == totals[j].0);
    }
    assert forall|i: int| 0 <= i < slabs.len() implies (#[trigger] slabs[i]).1.wf()
        && slabs[i].1.capacity == bytes_on(segs, slabs[i].0) by {
        assert(totals[i].1 == bytes_on(segs, totals[i].0));
    }
    assert forall|n: NumaNode| #[trigger] has_key(slabs, n) <==> uses_node(segs, n) by {
        assert(has_key(totals, n) <==> uses_node(segs, n));
        if has_key(slabs, n) {
            let i = crate::keyed::place(slabs, n);
            assert(is_entry(slabs, n, i));
            assert(is_entry(totals, n, i));
        }
        if has_key(totals, n) {
            let i = crate::keyed::place(totals, n);
            assert(is_entry(totals, n, i));
            assert(is_entry(slabs, n, i));
        }
    }
}

proof fn lemma_refused_list<M: PinnedMemory>(
    start: M,
    before: M,
    stop: M,
    end: M,
    lists: Seq<Vec<(NumaNode, NumaSlab)>>,
    own: Seq<Grant>,
)
    requires
        took(start, before, all_grants(lists)),
        withdrawn(before, stop, own),
        gave_back(stop, end, all_grants(lists)),
        own.len() > 0,
        all_granted(own.drop_last()),
    ensures
        withdrawn(start, end, all_grants(lists) + own),
        all_granted((all_grants(lists) + own).drop_last()),
        (all_grants(lists) + own).last() == own.last(),
{
    let first = all_grants(lists);
    let (mid, back) = choose|mid: M, back: Seq<Grant>|
        #![trigger took(before, mid, own), gave_back(mid, stop, back)]
        took(before, mid, own) && gave_back(mid, stop, back) && back.to_multiset()
            == own.to_multiset();
    lemma_took_more(start, before, mid, first, own);
    lemma_gave_more(mid, stop, end, back, first);
    vstd::seq_lib::lemma_multiset_commutative(first, own);
    vstd::seq_lib::lemma_multiset_commutative(back, first);
    assert(own.to_multiset().add(first.to_multiset()) =~= first.to_multiset().add(
        own.to_multiset(),
    ));
    assert((first + own).drop_last() =~= first + own.drop_last());
    lemma_all_granted(lists);
    let head = (first + own).drop_last();
    assert forall|i: int| 0 <= i < head.len() implies (#[trigger] head[i]).allocation is Some by {
        if i < first.len() {
            assert(head[i] == first[i]);
        } else {
            assert(head[i] == own.drop_last()[i - first.len()]);
        }
    }
}

/// Takes the slabs for `blocks`: one for each NUMA node, or, where the blocks are kept apart,
/// one for each block and node, so that a block that is dropped does not pin the memory of
/// others. Where one cannot be had, all others are given back.
pub fn allocate_slab_lists<M: PinnedMemory>(
    memory: &mut M,
    blocks: &[TransferBlockInfo],
    apart: bool,
) -> (r: Result<Vec<Vec<(NumaNode, NumaSlab)>>, String>)
    requires
        old(memory).sound(),
    ensures
        final(memory).sound(),
        match r {
            Ok(lists) => {
                &&& lists@.len() == list_count(blocks@.len() as int, apart)
                &&& countable(blocks@, apart, lists@.len() as int)
                &&& took(*old(memory), *final(memory), all_grants(lists@))
                &&& forall|g: int|
                    0 <= g < lists@.len() ==> room_for_all(
                        (#[trigger] lists@[g])@,
                        list_segments(blocks@, apart, g),
                    ) && are_empty(lists@[g]@)
            },
            Err(m) => exists|taken: Seq<Grant>| #[trigger]
                withdrawn(*old(memory), *final(memory), taken) && lists_fail(
                    blocks@,
                    apart,
                    taken,
                    m@,
                ),
        },
{
    let mut lists: Vec<Vec<(NumaNode, NumaSlab)>> = Vec::new();
    let n: usize = blocks.len();
    let count: usize = if apart || n == 0 {
        n
    } else {
        1
    };
    let mut g: usize = 0;
    proof {
        lemma_took_nothing(*memory);
    }
    while g < count
        invariant
            n == blocks@.len(),
            count == list_count(n as int, apart),
            g <= count,
            memory.sound(),
            lists@.len() == g,
            countable(blocks@, apart, g as int),
            took(*old(memory), *memory, all_grants(lists@)),
            forall|k: int|
                0 <= k < g ==> room_for_all(
                    (#[trigger] lists@[k])@,
                    list_segments(blocks@, apart, k),
                ) && are_empty(lists@[k]@),
        decreases count - g,
    {
        let ghost segs = list_segments(blocks@, apart, g as int);
        let ghost before = *memory;
        assert(segments_in(blocks@, 0, n as int) =~= segments_of(blocks@));
        let summed: Result<Vec<(NumaNode, u64)>, String> = if apart {
            sum_block_bytes_by_numa(blocks, g)
        } else {
            sum_segment_bytes_by_numa(blocks)
        };
        let totals: Vec<(NumaNode, u64)> = match summed {
            Ok(totals) => totals,
            Err(m) => {
                return_all(memory, &lists);
                proof {
                    lemma_all_granted(lists@);
                    let taken = all_grants(lists@);
                    assert(withdrawn(*old(memory), *memory, taken));
                    assert(list_fails(blocks@, apart, taken, g as int, m@));
                    assert(lists_fail(blocks@, apart, taken, m@));
                }
                return Err(m);
            },
        };
        proof {
            lemma_totals_are_asked(
                blocks@,
                g as int,
                if apart {
                    g + 1
                } else {
                    n as int
                },
                totals@,
                totals@.len() as int,
            );
            assert(totals@.take(totals@.len() as int) =~= totals@);
        }
        match allocate_numa_slabs(memory, &totals) {
            Ok(slabs) => {
                proof {
                    lemma_slabs_have_room(slabs@, totals@, segs);
                    lemma_took_more(
                        *old(memory),
                        before,
                        *memory,
                        all_grants(lists@),
                        slab_grants(slabs@),
                    );
                }
                let ghost shorter = lists@;
                lists.push(slabs);
                proof {
                    assert(lists@.drop_last() =~= shorter);
                    assert forall|k: int| 0 <= k < lists@.len() implies room_for_all(
                        (#[trigger] lists@[k])@,
                        list_segments(blocks@, apart, k),
                    ) && are_empty(lists@[k]@) by {
                        if k < g {
                            assert(lists@[k] == shorter[k]);
                        }
                    }
                }
            },
            Err(m) => {
                let ghost stop = *memory;
                return_all(memory, &lists);
                proof {
                    let own = choose|own: Seq<Grant>| #[trigger]
                        withdrawn(before, stop, own) && refused(own, asked(totals@)) && m@
                            == refusal_text(own.last());
                    lemma_refused_list(
                        *old(memory),
                        before,
                        stop,
                        *memory,
                        lists@,
                        own,
                    );
                    let last = own.len() - 1;
                    assert(own[last].node == totals@[last].0);
                    assert(is_entry(totals@, own.last().node, last));
                    assert(has_key(totals@, own.last().node));
                    assert(list_fails(
                        blocks@,
                        apart,
                        all_grants(lists@) + own,
                        g as int,
                        m@,
                    ));
                }
                return Err(m);
            },
        }
        g += 1;
    }
    Ok(lists)
}

/// Memory is asked for on every node that has bytes, for exactly these, and in order; none is on
/// the others.
pub proof fn law_memory_is_asked_for_where_bytes_are(totals: Seq<(NumaNode, u64)>)
    ensures
        asked(totals) == totals.filter(|t: (NumaNode, u64)| t.1 != 0),
    decreases totals.len(),
{
    reveal(Seq::filter);
    let some = |t: (NumaNode, u64)| t.1 != 0;
    if totals.len() > 0 {
        law_memory_is_asked_for_where_bytes_are(totals.drop_last());
    }
    assert(asked(totals) =~= totals.filter(some));
}

/// Memory is asked for and given back piece by piece: a list of one piece is that piece, and what
/// was taken for a fetch that is withdrawn is given back to the last piece.
pub proof fn law_memory_is_taken_piece_by_piece<M: PinnedMemory>(
    before: M,
    after: M,
    grant: Grant,
    taken: Seq<Grant>,
    i: int,
)
    ensures
        took(before, after, seq![grant]) ==> M::granted(
            before,
            after,
            grant.bytes as int,
            grant.node,
            grant.allocation,
        ),
        took(before, after, Seq::empty()) ==> after == before,
        gave_back(before, after, Seq::empty()) ==> after == before,
        gave_back(before, after, seq![grant]) ==> match grant.allocation {
            Some(a) => exists|r: bool| #[trigger] M::returned(before, after, a, r),
            None => after == before,
        },
        withdrawn(before, after, taken) && 0 <= i < taken.len() ==> exists|mid: M, back: Seq<Grant>|
            #![trigger took(before, mid, taken), gave_back(mid, after, back)]
            took(before, mid, taken) && gave_back(mid, after, back) && back.contains(taken[i]) && back.len()
                == taken.len(),
{
    broadcast use vstd::seq_lib::group_to_multiset_ensures;

    let one = seq![grant];
    if took(before, after, one) {
        let states = choose|states: Seq<M>| #[trigger]
            grant_chain(states, one) && states.first() == before && states.last() == after;
        assert(grants(states[0], states[1], one[0]));
    }
    if gave_back(before, after, one) {
        let states = choose|states: Seq<M>| #[trigger]
            return_chain(states, one) && states.first() == before && states.last() == after;
        assert(takes_back(states[0], states[1], one[0]));
    }
    if withdrawn(before, after, taken) && 0 <= i < taken.len() {
        let (mid, back) = choose|mid: M, back: Seq<Grant>|
            #![trigger took(before, mid, taken), gave_back(mid, after, back)]
            took(before, mid, taken) && gave_back(mid, after, back) && back.to_multiset()
                == taken.to_multiset();
        assert(taken.contains(taken[i]));
        assert(taken.to_multiset().count(taken[i]) > 0);
        assert(back.to_multiset().count(taken[i]) > 0);
        assert(back.contains(taken[i]));
        back.to_multiset_ensures();
        taken.to_multiset_ensures();
        assert(back.len() == taken.len());
    }
}

/// The slabs of a list have exactly the room that its segments need on each node, and no other
/// node has one; the memory of a slab is what was granted for it.
pub proof fn law_slabs_have_exactly_the_room(
    slabs: Seq<(NumaNode, NumaSlab)>,
    segs: Seq<SegmentView>,
    i: int,
    j: int,
)
    requires
        room_for_all(slabs, segs),
    ensures
        0 <= i < slabs.len() ==> slabs[i].1.capacity == bytes_on(segs, slabs[i].0) && slabs[i].1.capacity
            <= slabs[i].1.allocation.range.size_bytes,
        0 <= j < segs.len() ==> exists|k: int|
            0 <= k < slabs.len() && (#[trigger] slabs[k]).0 == segs[j].numa,
        0 <= i < slabs.len() ==> exists|k: int|
            0 <= k < segs.len() && (#[trigger] segs[k]).numa == slabs[i].0,
        slab_grants(slabs).len() == slabs.len(),
        0 <= i < slabs.len() ==> slab_grants(slabs)[i].bytes == slabs[i].1.capacity && slab_grants(
            slabs,
        )[i].node == slabs[i].0 && slab_grants(slabs)[i].allocation == Some(
            *slabs[i].1.allocation,
        ),
{
    if 0 <= j < segs.len() {
        assert(uses_node(segs, segs[j].numa));
        assert(has_key(slabs, segs[j].numa));
        let k = crate::keyed::place(slabs, segs[j].numa);
        assert(crate::keyed::is_entry(slabs, segs[j].numa, k));
        assert(slabs[k].0 == segs[j].numa);
    }
    if 0 <= i < slabs.len() {
        assert(crate::keyed::is_entry(slabs, slabs[i].0, i));
        assert(has_key(slabs, slabs[i].0));
        assert(uses_node(segs, slabs[i].0));
    }
}

/// A fetch has one list of slabs, or one for each block where blocks are kept apart, and these have
/// all segments between them.
pub proof fn law_lists_hold_all_segments(blocks: Seq<TransferBlockInfo>, g: int)
    requires
        0 <= g < blocks.len(),
    ensures
        list_count(blocks.len() as int, true) == blocks.len(),
        list_count(blocks.len() as int, false) == 1,
        list_count(0, false) == 0,
        list_segments(blocks, false, g) == segments_of(blocks),
        list_segments(blocks, true, g) == segments_in(blocks, g, g + 1),
{
}

/// A grant is refused exactly if there was no memory for it or it is too large to be addressed.
pub proof fn law_grants_are_refused_for_a_reason(grants: Seq<Grant>, grant: Grant)
    ensures
        refuses(grant) <==> grant.allocation is None || grant.bytes > usize::MAX,
        all_granted(grants) <==> forall|i: int|
            0 <= i < grants.len() ==> (#[trigger] grants[i]).allocation is Some,
{
}

} // verus!
