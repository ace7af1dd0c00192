//! The storage of a node: pinned memory that is shared with the cache of sealed blocks,
//! which gives way where memory is short.

use std::sync::Arc;
use vstd::prelude::*;
use vstd::string::*;
use crate::block::{
    byte_views, capped, copy_bytes, into_allocations, slot_allocations, BlockKey, RawBlock,
    SealedBlock,
};
use crate::keyed::{as_map, has_key, lookup};
use crate::ids::is_uuid_text;
use crate::numa::{NumaNode, UNKNOWN_NODE};
use crate::pinned_pool::{
    allocator_gives_back, allocator_serves, PinnedAllocation, PinnedAllocator, PinnedMemory,
};
use crate::read_cache::{
    entry_views, found, key_views, touch_all, EntryView, KeyView, ReadCache,
};
use crate::shared::{give_up, holders, share};
use crate::storage::locks::{freed, live, SessionView, TransferLockManager};

verus! {

/// How many blocks are evicted at once. Each eviction is one command to the server that
/// knows where blocks are, and many small ones would overflow its queue.
pub const RECLAIM_BATCH_SIZE: usize = 512;

/// What a cleanup of the cache came to.
#[derive(Clone, Copy, Debug, PartialEq, Eq, Structural)]
pub struct MemoryCacheCleanupStats {
    pub evicted_blocks: usize,
    pub evicted_bytes: u64,
    pub reclaimed_bytes: u64,
    pub still_referenced_blocks: u64,
}

impl Default for MemoryCacheCleanupStats {
    fn default() -> (r: Self)
        ensures
            r.evicted_blocks == 0,
            r.evicted_bytes == 0,
            r.reclaimed_bytes == 0,
            r.still_referenced_blocks == 0,
    {
        MemoryCacheCleanupStats {
            evicted_blocks: 0,
            evicted_bytes: 0,
            reclaimed_bytes: 0,
            still_referenced_blocks: 0,
        }
    }
}

/// What was evicted to make room.
#[derive(Clone, Copy, Debug, PartialEq, Eq, Structural)]
pub struct Reclaimed {
    pub freed_blocks: usize,
    pub freed_bytes: u64,
    pub largest_free: u64,
}

/// How many bytes some blocks hold.
pub open spec fn footprints(entries: Seq<EntryView>) -> nat
    decreases entries.len(),
{
    if entries.len() == 0 {
        0
    } else {
        footprints(entries.drop_last()) + entries.last().1.footprint() as nat
    }
}

proof fn lemma_footprints_split(a: Seq<EntryView>, b: Seq<EntryView>)
    ensures
        footprints(a + b) == footprints(a) + footprints(b),
    decreases b.len(),
{
    if b.len() == 0 {
        assert(a + b =~= a);
    } else {
        lemma_footprints_split(a, b.drop_last());
        assert((a + b).drop_last() =~= a + b.drop_last());
        assert((a + b).last() == b.last());
    }
}

/// How many values have more than one holder.
pub open spec fn shared_count(holders: Seq<usize>) -> nat
    decreases holders.len(),
{
    if holders.len() == 0 {
        0
    } else {
        shared_count(holders.drop_last()) + if holders.last() > 1 {
            1nat
        } else {
            0
        }
    }
}

/// How many evicted blocks somebody else still holds, given the number of holders of
/// each.
pub fn still_referenced(holders: &[usize]) -> (r: u64)
    ensures
        r == shared_count(holders@),
        r <= holders@.len(),
{
    let mut count: u64 = 0;
    let mut i: usize = 0;
    assert(holders@.take(0) =~= Seq::<usize>::empty());
    while i < holders.len()
        invariant
            i <= holders@.len(),
            count == shared_count(holders@.take(i as int)),
            count <= i,
        decreases holders@.len() - i,
    {
        assert(holders@.take(i + 1).drop_last() =~= holders@.take(i as int));
        if holders[i] > 1 {
            count = count + 1;
        }
        i += 1;
    }
    assert(holders@.take(i as int) =~= holders@);
    count
}

/// The handles to memory that a block has.
pub open spec fn block_handles(entry: EntryView) -> Seq<Arc<PinnedAllocation>> {
    slot_allocations(entry.1.blocks())
}

/// The handles to memory that some blocks have.
pub open spec fn entry_handles(entries: Seq<EntryView>) -> Seq<Arc<PinnedAllocation>>
    decreases entries.len(),
{
    if entries.len() == 0 {
        Seq::empty()
    } else {
        entry_handles(entries.drop_last()) + block_handles(entries.last())
    }
}

proof fn lemma_entry_handles_split(a: Seq<EntryView>, b: Seq<EntryView>)
    ensures
        entry_handles(a + b) == entry_handles(a) + entry_handles(b),
    decreases b.len(),
{
    if b.len() == 0 {
        assert(a + b =~= a);
        assert(entry_handles(a) + entry_handles(b) =~= entry_handles(a));
    } else {
        lemma_entry_handles_split(a, b.drop_last());
        assert((a + b).drop_last() =~= a + b.drop_last());
        assert((a + b).last() == b.last());
        assert(entry_handles(a + b) =~= entry_handles(a) + entry_handles(b));
    }
}

/// Whether `after` is `before`, perhaps with `a` taken back.
pub open spec fn frees_one(before: PinnedAllocator, after: PinnedAllocator, a: PinnedAllocation) -> bool {
    after == before || exists|r: bool| #[trigger] allocator_gives_back(before, after, a, r)
}

/// Whether some of the memory that `handles` are for is taken back in these states, one after
/// the other.
pub open spec fn free_chain(
    states: Seq<PinnedAllocator>,
    handles: Seq<Arc<PinnedAllocation>>,
) -> bool {
    states.len() == handles.len() + 1 && forall|i: int|
        0 <= i < handles.len() ==> frees_one(states[i], states[i + 1], *#[trigger] handles[i])
}

/// Whether taking back some of the memory that `handles` are for, that is, as far as nobody
/// else has a handle to it, leads from `before` to `after`.
pub open spec fn frees_some(
    before: PinnedAllocator,
    after: PinnedAllocator,
    handles: Seq<Arc<PinnedAllocation>>,
) -> bool {
    exists|states: Seq<PinnedAllocator>| #[trigger]
        free_chain(states, handles) && states.first() == before && states.last() == after
}

/// Whether `after` is `before` with memory taken back, if there is any.
pub open spec fn takes_back(
    before: PinnedAllocator,
    after: PinnedAllocator,
    given: Option<PinnedAllocation>,
) -> bool {
    match given {
        Some(a) => exists|r: bool| #[trigger] allocator_gives_back(before, after, a, r),
        None => after == before,
    }
}

/// Whether memory is taken back in these states, one after the other.
pub open spec fn return_chain(
    states: Seq<PinnedAllocator>,
    given: Seq<Option<PinnedAllocation>>,
) -> bool {
    states.len() == given.len() + 1 && forall|i: int|
        0 <= i < given.len() ==> takes_back(states[i], states[i + 1], #[trigger] given[i])
}

/// Whether taking all memory in `given` back leads from `before` to `after`.
pub open spec fn frees_all(
    before: PinnedAllocator,
    after: PinnedAllocator,
    given: Seq<Option<PinnedAllocation>>,
) -> bool {
    exists|states: Seq<PinnedAllocator>| #[trigger]
        return_chain(states, given) && states.first() == before && states.last() == after
}

proof fn lemma_frees_nothing(a: PinnedAllocator, handles: Seq<Arc<PinnedAllocation>>)
    ensures
        frees_some(a, a, handles),
{
    let states = Seq::new(handles.len() + 1, |i: int| a);
    assert(free_chain(states, handles));
    assert(states.first() == a && states.last() == a);
}

proof fn lemma_frees_more(
    a: PinnedAllocator,
    b: PinnedAllocator,
    c: PinnedAllocator,
    x: Seq<Arc<PinnedAllocation>>,
    y: Seq<Arc<PinnedAllocation>>,
)
    requires
        frees_some(a, b, x),
        frees_some(b, c, y),
    ensures
        frees_some(a, c, x + y),
{
    let first = choose|states: Seq<PinnedAllocator>| #[trigger]
        free_chain(states, x) && states.first() == a && states.last() == b;
    let second = choose|states: Seq<PinnedAllocator>| #[trigger]
        free_chain(states, y) && states.first() == b && states.last() == c;
    let states = first + second.skip(1);
    let list = x + y;
    assert forall|i: int| 0 <= i < list.len() implies frees_one(
        states[i],
        states[i + 1],
        *#[trigger] list[i],
    ) by {
        if i < x.len() {
            assert(list[i] == x[i]);
        } else {
            assert(list[i] == y[i - x.len()]);
            assert(states[i + 1] == second[i - x.len() + 1]);
            assert(states[i] == second[i - x.len()]);
        }
    }
    assert(free_chain(states, list));
    assert(states.first() == a);
    assert(states.last() == c);
}

/// The keys of some entries.
pub open spec fn keys_of(entries: Seq<EntryView>) -> Seq<KeyView> {
    entries.map_values(|e: EntryView| e.0)
}

/// The keys that a command names.
pub open spec fn command_keys(command: Seq<(String, Vec<u8>)>) -> Seq<KeyView> {
    command.map_values(|e: (String, Vec<u8>)| (e.0@, e.1@))
}

/// The keys that some commands name, in order.
pub open spec fn removed_keys(commands: Seq<Vec<(String, Vec<u8>)>>) -> Seq<KeyView>
    decreases commands.len(),
{
    if commands.len() == 0 {
        Seq::empty()
    } else {
        removed_keys(commands.drop_last()) + command_keys(commands.last()@)
    }
}

/// The hashes that are not cached in a namespace.
pub open spec fn uncached(
    entries: Seq<EntryView>,
    namespace: Seq<char>,
    hashes: Seq<Seq<u8>>,
) -> Seq<Seq<u8>>
    decreases hashes.len(),
{
    if hashes.len() == 0 {
        Seq::empty()
    } else if has_key(entries, (namespace, hashes.last())) {
        uncached(entries, namespace, hashes.drop_last())
    } else {
        uncached(entries, namespace, hashes.drop_last()).push(hashes.last())
    }
}

/// The NUMA node that memory is wanted on.
pub open spec fn wanted_node(numa_node: Option<NumaNode>) -> NumaNode {
    match numa_node {
        Some(n) => n,
        None => NumaNode(UNKNOWN_NODE),
    }
}

/// Whether memory is still too short once the oldest `k` of some blocks are evicted, which is
/// after whole batches, with `mid` left to serve from, and evicting the next up to `gone` leads
/// on to `after`.
pub open spec fn still_short(
    before: PinnedAllocator,
    after: PinnedAllocator,
    entries: Seq<EntryView>,
    gone: int,
    size: int,
    node: NumaNode,
    mid: PinnedAllocator,
    k: int,
    longest: int,
) -> bool {
    &&& 0 <= k < gone <= k + RECLAIM_BATCH_SIZE
    &&& k % RECLAIM_BATCH_SIZE as int == 0
    &&& frees_some(before, mid, entry_handles(entries.take(k)))
    &&& mid.largest_free(node, longest)
    &&& longest < size
    &&& frees_some(mid, after, entry_handles(entries.subrange(k, gone)))
}

/// Whether giving up the oldest `gone` of some blocks leads from `before` to `after`, where no
/// batch of them was given up that `size` bytes on `node` could be had without.
pub open spec fn evicts_for(
    before: PinnedAllocator,
    after: PinnedAllocator,
    entries: Seq<EntryView>,
    gone: int,
    size: int,
    node: NumaNode,
) -> bool {
    &&& frees_some(before, after, entry_handles(entries.take(gone)))
    &&& gone > 0 ==> exists|mid: PinnedAllocator, k: int, longest: int| #[trigger]
        still_short(before, after, entries, gone, size, node, mid, k, longest)
}

/// Whether the last attempts at a request lead from `before` to `after`. One that is refused
/// is made `again` where blocks were evicted for it.
pub open spec fn serves_at_last(
    before: PinnedAllocator,
    after: PinnedAllocator,
    size: int,
    node: NumaNode,
    again: bool,
    r: Option<PinnedAllocation>,
) -> bool {
    if r is None && again {
        exists|mid: PinnedAllocator| #[trigger]
            allocator_serves(before, mid, size, node, None) && allocator_serves(
                mid,
                after,
                size,
                node,
                None,
            )
    } else {
        allocator_serves(before, after, size, node, r)
    }
}

/// Whether a request that cannot be met at once is met in the end, or not: after it was
/// refused, as few blocks as need be are evicted, and it is made again.
pub open spec fn serves_after_eviction(
    before: PinnedAllocator,
    after: PinnedAllocator,
    entries: Seq<EntryView>,
    gone: int,
    size: int,
    node: NumaNode,
    r: Option<PinnedAllocation>,
    tried: PinnedAllocator,
    freed: PinnedAllocator,
) -> bool {
    &&& allocator_serves(before, tried, size, node, None)
    &&& evicts_for(tried, freed, entries, gone, size, node)
    &&& r is None == freed.exhausted(size, node)
    &&& serves_at_last(freed, after, size, node, gone > 0, r)
}

/// Whether a request for memory turns `before` into `after` with the answer `r`.
pub open spec fn allocates(
    before: StorageEngine,
    after: StorageEngine,
    size: int,
    node: NumaNode,
    r: Option<PinnedAllocation>,
) -> bool {
    let entries = before.read_cache.entries();
    let gone = entries.len() - after.read_cache.entries().len();
    &&& after.same_setup(before)
    &&& after.evicted_from(before)
    &&& r matches Some(a) ==> a.wf() && a.range.size_bytes >= size && a.node == node
    &&& r is None ==> after.read_cache.entries().len() == 0 && after.allocator.exhausted(
        size,
        node,
    )
    &&& if before.allocator.exhausted(size, node) {
        exists|tried: PinnedAllocator, freed: PinnedAllocator| #[trigger]
            serves_after_eviction(
                before.allocator,
                after.allocator,
                entries,
                gone,
                size,
                node,
                r,
                tried,
                freed,
            )
    } else {
        &&& r is Some
        &&& after.read_cache == before.read_cache
        &&& after.removals == before.removals
        &&& allocator_serves(before.allocator, after.allocator, size, node, r)
    }
}

/// The storage of a node.
#[derive(Debug)]
pub struct StorageEngine {
    pub allocator: PinnedAllocator,
    pub read_cache: ReadCache,
    pub transfer_lock: TransferLockManager,
    /// Whether a server is told where blocks are.
    pub registers_blocks: bool,
    /// Blocks to unregister with it: one command each.
    pub removals: Vec<Vec<(String, Vec<u8>)>>,
    pub ssd_enabled: bool,
    pub blockwise_alloc: bool,
}

impl StorageEngine {
    /// All parts are in order.
    pub open spec fn wf(self) -> bool {
        &&& self.allocator.wf()
        &&& self.read_cache.wf()
        &&& self.transfer_lock.wf()
    }

    /// Whether nothing but memory, cache and commands differs, and the memory is the same
    /// but for what of it is handed out.
    pub open spec fn same_setup(self, other: StorageEngine) -> bool {
        &&& self.transfer_lock == other.transfer_lock
        &&& self.read_cache.policy() == other.read_cache.policy()
        &&& self.registers_blocks == other.registers_blocks
        &&& self.ssd_enabled == other.ssd_enabled
        &&& self.blockwise_alloc == other.blockwise_alloc
        &&& self.allocator.regions() == other.allocator.regions()
        &&& (self.allocator is Numa) == (other.allocator is Numa)
    }

    /// Whether nothing but memory and sessions differs, and the memory is the same but for
    /// what of it is handed out.
    pub open spec fn same_but_locks(self, other: StorageEngine) -> bool {
        &&& self.transfer_lock.timeout() == other.transfer_lock.timeout()
        &&& self.read_cache == other.read_cache
        &&& self.removals == other.removals
        &&& self.registers_blocks == other.registers_blocks
        &&& self.ssd_enabled == other.ssd_enabled
        &&& self.blockwise_alloc == other.blockwise_alloc
        &&& self.allocator.regions() == other.allocator.regions()
        &&& (self.allocator is Numa) == (other.allocator is Numa)
        &&& self.allocator.used_bytes() <= other.allocator.used_bytes()
    }

    /// Whether the least recently used blocks of `before` were evicted to get here, and
    /// the server is to be told of exactly those.
    pub open spec fn evicted_from(self, before: StorageEngine) -> bool {
        let gone = before.read_cache.entries().len() - self.read_cache.entries().len();
        &&& gone >= 0
        &&& self.read_cache.entries() == before.read_cache.entries().skip(gone)
        &&& removed_keys(self.removals@) == removed_keys(before.removals@)
            + if self.registers_blocks {
            keys_of(before.read_cache.entries().take(gone))
        } else {
            Seq::empty()
        }
    }

    /// Storage with an empty cache.
    pub fn new(
        allocator: PinnedAllocator,
        transfer_lock_timeout: u64,
        registers_blocks: bool,
        ssd_enabled: bool,
        blockwise_alloc: bool,
        enable_lfu_admission: bool,
    ) -> (r: Self)
        requires
            allocator.wf(),
        ensures
            r.wf(),
            r.allocator == allocator,
            r.read_cache.entries() == Seq::<EntryView>::empty(),
            r.read_cache.policy() == enable_lfu_admission,
            r.transfer_lock.sessions().len() == 0,
            r.transfer_lock.timeout() == transfer_lock_timeout,
            r.registers_blocks == registers_blocks,
            r.removals@.len() == 0,
            r.ssd_enabled == ssd_enabled,
            r.blockwise_alloc == blockwise_alloc,
    {
        StorageEngine {
            allocator,
            read_cache: ReadCache::new(enable_lfu_admission),
            transfer_lock: TransferLockManager::new(transfer_lock_timeout),
            registers_blocks,
            removals: Vec::new(),
            ssd_enabled,
            blockwise_alloc,
        }
    }

    /// Whether there is a cache on SSD.
    pub fn is_ssd_enabled(&self) -> (r: bool)
        ensures
            r == self.ssd_enabled,
    {
        self.ssd_enabled
    }

    /// Whether there is a pool for each NUMA node.
    pub fn is_numa_enabled(&self) -> (r: bool)
        ensures
            r == (self.allocator is Numa),
    {
        self.allocator.is_numa()
    }

    /// Whether each block is allocated by itself.
    pub fn blockwise_alloc(&self) -> (r: bool)
        ensures
            r == self.blockwise_alloc,
    {
        self.blockwise_alloc
    }

    /// Where the pinned memory starts, and its length, for each contiguous piece.
    pub fn pinned_memory_regions(&self) -> (r: Vec<(u64, u64)>)
        ensures
            r@ == self.allocator.regions(),
    {
        self.allocator.memory_regions()
    }

    /// Takes memory back that the last holder has let go of; there is none where somebody else
    /// holds it.
    pub fn return_memory(&mut self, given: Vec<Option<PinnedAllocation>>)
        requires
            old(self).wf(),
        ensures
            final(self).wf(),
            final(self).same_setup(*old(self)),
            final(self).read_cache == old(self).read_cache,
            final(self).removals == old(self).removals,
            final(self).allocator.used_bytes() <= old(self).allocator.used_bytes(),
            frees_all(old(self).allocator, final(self).allocator, given@),
    {
        let ghost start = *self;
        let ghost mut states: Seq<PinnedAllocator> = seq![start.allocator];
        for one in it: given
            invariant
                start == *old(self),
                it.seq() == given@,
                self.wf(),
                self.same_setup(start),
                self.read_cache == start.read_cache,
                self.removals == start.removals,
                self.allocator.used_bytes() <= start.allocator.used_bytes(),
                states.first() == start.allocator,
                states.last() == self.allocator,
                return_chain(states, given@.take(it.index())),
        {
            let ghost k = it.index();
            let ghost before = self.allocator;
            let ghost so_far = states;
            match &one {
                Some(allocation) => {
                    let r: bool = self.allocator.free(allocation);
                    assert(allocator_gives_back(before, self.allocator, *allocation, r));
                },
                None => {},
            }
            proof {
                states = so_far.push(self.allocator);
                let list = given@.take(k + 1);
                assert(takes_back(before, self.allocator, given@[k]));
                assert forall|i: int| 0 <= i < list.len() implies takes_back(
                    states[i],
                    states[i + 1],
                    #[trigger] list[i],
                ) by {
                    if i < k {
                        assert(list[i] == given@.take(k)[i]);
                    }
                }
            }
        }
        assert(given@.take(given@.len() as int) =~= given@);
    }

    /// Gives handles to memory up. Memory that nobody else has a handle to returns to its
    /// pool.
    fn free_handles(&mut self, handles: Vec<Arc<PinnedAllocation>>)
        requires
            old(self).wf(),
        ensures
            final(self).wf(),
            final(self).same_setup(*old(self)),
            final(self).read_cache == old(self).read_cache,
            final(self).removals == old(self).removals,
            final(self).allocator.used_bytes() <= old(self).allocator.used_bytes(),
            frees_some(old(self).allocator, final(self).allocator, handles@),
    {
        let ghost all = handles@;
        let mut given: Vec<Option<PinnedAllocation>> = Vec::new();
        for handle in it: handles
            invariant
                it.seq() == all,
                given@.len() == it.index(),
                forall|i: int|
                    0 <= i < given@.len() ==> ((#[trigger] given@[i]) matches Some(a) ==> a
                        == *all[i]),
        {
            given.push(give_up(handle));
        }
        let ghost list = given@;
        self.return_memory(given);
        proof {
            let states = choose|states: Seq<PinnedAllocator>| #[trigger]
                return_chain(states, list) && states.first() == old(self).allocator
                    && states.last() == self.allocator;
            assert forall|i: int| 0 <= i < all.len() implies frees_one(
                states[i],
                states[i + 1],
                *#[trigger] all[i],
            ) by {
                assert(takes_back(states[i], states[i + 1], list[i]));
            }
            assert(free_chain(states, all));
        }
    }

    /// Gives slots up that nobody keeps. Their memory returns to its pool, but for what other
    /// slots share.
    pub fn discard_slots(&mut self, slots: Vec<RawBlock>)
        requires
            old(self).wf(),
        ensures
            final(self).wf(),
            final(self).same_setup(*old(self)),
            final(self).read_cache == old(self).read_cache,
            final(self).removals == old(self).removals,
            final(self).allocator.used_bytes() <= old(self).allocator.used_bytes(),
            frees_some(
                old(self).allocator,
                final(self).allocator,
                slot_allocations(slots@),
            ),
    {
        self.free_handles(into_allocations(slots));
    }

    /// Gives a block up. Its memory returns to its pool where nobody else holds it.
    pub fn release_block(&mut self, block: Arc<SealedBlock>)
        requires
            old(self).wf(),
        ensures
            final(self).wf(),
            final(self).same_setup(*old(self)),
            final(self).read_cache == old(self).read_cache,
            final(self).removals == old(self).removals,
            final(self).allocator.used_bytes() <= old(self).allocator.used_bytes(),
            frees_some(
                old(self).allocator,
                final(self).allocator,
                slot_allocations(block.blocks()),
            ),
    {
        proof {
            lemma_frees_nothing(self.allocator, slot_allocations(block@.blocks));
        }
        match give_up(block) {
            Some(sealed) => {
                self.free_handles(sealed.into_allocations());
            },
            None => {},
        }
    }

    /// Gives blocks up. The memory of those that nobody else holds returns to its pool.
    pub fn release_blocks(&mut self, blocks: Vec<(BlockKey, Arc<SealedBlock>)>)
        requires
            old(self).wf(),
        ensures
            final(self).wf(),
            final(self).same_setup(*old(self)),
            final(self).read_cache == old(self).read_cache,
            final(self).removals == old(self).removals,
            final(self).allocator.used_bytes() <= old(self).allocator.used_bytes(),
            frees_some(
                old(self).allocator,
                final(self).allocator,
                entry_handles(entry_views(blocks@)),
            ),
    {
        let ghost start = *self;
        let ghost views = entry_views(blocks@);
        proof {
            assert(views.take(0) =~= Seq::<EntryView>::empty());
            lemma_frees_nothing(start.allocator, entry_handles(views.take(0)));
        }
        for entry in it: blocks
            invariant
                start == *old(self),
                it.seq() == blocks@,
                views == entry_views(blocks@),
                self.wf(),
                self.same_setup(start),
                self.read_cache == start.read_cache,
                self.removals == start.removals,
                self.allocator.used_bytes() <= start.allocator.used_bytes(),
                frees_some(
                    start.allocator,
                    self.allocator,
                    entry_handles(views.take(it.index())),
                ),
        {
            let ghost k = it.index();
            let ghost before = self.allocator;
            let ghost own = block_handles(views[k]);
            self.release_block(entry.1);
            proof {
                assert(frees_some(before, self.allocator, own));
                assert(views.take(k + 1).drop_last() =~= views.take(k));
                assert(views.take(k + 1).last() == views[k]);
                lemma_frees_more(
                    start.allocator,
                    before,
                    self.allocator,
                    entry_handles(views.take(k)),
                    own,
                );
            }
        }
        assert(views.take(views.len() as int) =~= views);
    }

    /// Tells the server of evicted blocks, counts them, and gives them up.
    fn evict(&mut self, evicted: Vec<(BlockKey, Arc<SealedBlock>)>) -> (r: MemoryCacheCleanupStats)
        requires
            old(self).wf(),
        ensures
            final(self).wf(),
            final(self).same_setup(*old(self)),
            final(self).read_cache == old(self).read_cache,
            final(self).allocator.used_bytes() <= old(self).allocator.used_bytes(),
            removed_keys(final(self).removals@) == removed_keys(old(self).removals@) + if old(
                self,
            ).registers_blocks {
                keys_of(entry_views(evicted@))
            } else {
                Seq::empty()
            },
            r.evicted_blocks == evicted@.len(),
            r.evicted_bytes == capped(footprints(entry_views(evicted@))),
            r.reclaimed_bytes == old(self).allocator.used_bytes()
                - final(self).allocator.used_bytes(),
            r.still_referenced_blocks <= evicted@.len(),
            frees_some(
                old(self).allocator,
                final(self).allocator,
                entry_handles(entry_views(evicted@)),
            ),
    {
        let ghost views = entry_views(evicted@);
        let used_before: u64 = self.allocator.usage().0;
        let mut command: Vec<(String, Vec<u8>)> = Vec::new();
        let mut counts: Vec<usize> = Vec::new();
        let mut evicted_bytes: u64 = 0;
        let mut i: usize = 0;
        proof {
            assert(views.take(0) =~= Seq::<EntryView>::empty());
            assert(command_keys(command@) =~= keys_of(views.take(0)));
        }
        while i < evicted.len()
            invariant
                i <= evicted@.len(),
                views == entry_views(evicted@),
                command_keys(command@) == keys_of(views.take(i as int)),
                counts@.len() == i,
                evicted_bytes == capped(footprints(views.take(i as int))),
            decreases evicted@.len() - i,
        {
            let ghost named = command_keys(command@);
            let key: &BlockKey = &evicted[i].0;
            let namespace: String = key.namespace.clone();
            let hash: Vec<u8> = copy_bytes(&key.hash);
            let ghost view = (namespace@, hash@);
            command.push((namespace, hash));
            counts.push(holders(&evicted[i].1));
            evicted_bytes = evicted_bytes.saturating_add(evicted[i].1.memory_footprint());
            proof {
                assert(views[i as int] == (evicted@[i as int].0@, evicted@[i as int].1));
                assert(command_keys(command@) =~= named.push(view));
                assert(keys_of(views.take(i + 1)) =~= keys_of(views.take(i as int)).push(view));
                assert(views.take(i + 1).drop_last() =~= views.take(i as int));
            }
            i += 1;
        }
        assert(views.take(i as int) =~= views);
        let evicted_blocks: usize = evicted.len();
        let still_referenced_blocks: u64 = still_referenced(counts.as_slice());
        let ghost told = self.removals@;
        if self.registers_blocks && evicted_blocks > 0 {
            self.removals.push(command);
            assert(self.removals@.drop_last() =~= told);
        } else if self.registers_blocks {
            assert(keys_of(views) =~= Seq::<KeyView>::empty());
            assert(removed_keys(told) + Seq::<KeyView>::empty() =~= removed_keys(told));
        } else {
            assert(removed_keys(told) + Seq::<KeyView>::empty() =~= removed_keys(told));
        }
        self.release_blocks(evicted);
        let used_after: u64 = self.allocator.usage().0;
        MemoryCacheCleanupStats {
            evicted_blocks,
            evicted_bytes,
            reclaimed_bytes: used_before.saturating_sub(used_after),
            still_referenced_blocks,
        }
    }

    /// Evicts blocks, the least recently used ones first and a batch at a time, until a
    /// request could be met or nothing is left to evict.
    pub fn reclaim_until_allocator_can_allocate(
        &mut self,
        required_bytes: u64,
        target_node: NumaNode,
    ) -> (r: Reclaimed)
        requires
            old(self).wf(),
        ensures
            final(self).wf(),
            final(self).same_setup(*old(self)),
            final(self).evicted_from(*old(self)),
            final(self).allocator.largest_free(target_node, r.largest_free as int),
            r.freed_blocks == old(self).read_cache.entries().len()
                - final(self).read_cache.entries().len(),
            r.freed_bytes == capped(
                footprints(old(self).read_cache.entries().take(r.freed_blocks as int)),
            ),
            r.largest_free >= required_bytes || final(self).read_cache.entries().len() == 0,
            r.freed_blocks % RECLAIM_BATCH_SIZE == 0 || final(self).read_cache.entries().len()
                == 0,
            r.freed_blocks == 0 ==> *final(self) == *old(self),
            required_bytes == 0 || !old(self).allocator.exhausted(
                required_bytes as int,
                target_node,
            ) ==> r.freed_blocks == 0,
            evicts_for(
                old(self).allocator,
                final(self).allocator,
                old(self).read_cache.entries(),
                r.freed_blocks as int,
                required_bytes as int,
                target_node,
            ),
    {
        let ghost start = *self;
        let ghost all = self.read_cache.entries();
        let mut freed_blocks: usize = 0;
        let mut freed_bytes: u64 = 0;
        let mut largest_free: u64 = self.allocator.largest_free_allocation_for_node(target_node);
        let total: usize = self.read_cache.len();
        proof {
            assert(all.skip(0) =~= all);
            assert(keys_of(all.take(0)) =~= Seq::<KeyView>::empty());
            assert(removed_keys(self.removals@) + Seq::<KeyView>::empty() =~= removed_keys(
                self.removals@,
            ));
            assert(all.take(0) =~= Seq::<EntryView>::empty());
            lemma_frees_nothing(start.allocator, entry_handles(all.take(0)));
        }
        while largest_free < required_bytes && self.read_cache.len() > 0
            invariant
                start == *old(self),
                start.wf(),
                self.wf(),
                self.same_setup(start),
                self.evicted_from(start),
                all == start.read_cache.entries(),
                total == all.len(),
                self.allocator.largest_free(target_node, largest_free as int),
                freed_blocks == all.len() - self.read_cache.entries().len(),
                freed_bytes == capped(footprints(all.take(freed_blocks as int))),
                freed_blocks % RECLAIM_BATCH_SIZE == 0 || self.read_cache.entries().len() == 0,
                freed_blocks == 0 ==> *self == start,
                required_bytes == 0 || !start.allocator.exhausted(
                    required_bytes as int,
                    target_node,
                ) ==> freed_blocks == 0,
                evicts_for(
                    start.allocator,
                    self.allocator,
                    all,
                    freed_blocks as int,
                    required_bytes as int,
                    target_node,
                ),
            decreases self.read_cache.entries().len(),
        {
            let ghost before = *self;
            let ghost gone = freed_blocks as int;
            let ghost longest = largest_free as int;
            proof {
                if freed_blocks == 0 {
                    start.allocator.law_exhausted_means_too_short(
                        required_bytes as int,
                        target_node,
                        largest_free as int,
                    );
                }
            }
            let evicted: Vec<(BlockKey, Arc<SealedBlock>)> = self.read_cache.remove_lru_batch(
                RECLAIM_BATCH_SIZE,
            );
            let ghost views = entry_views(evicted@);
            let stats: MemoryCacheCleanupStats = self.evict(evicted);
            proof {
                let n = views.len() as int;
                assert(views =~= all.subrange(gone, gone + n));
                assert(all.take(gone) + views =~= all.take(gone + n));
                lemma_footprints_split(all.take(gone), views);
                lemma_entry_handles_split(all.take(gone), views);
                lemma_frees_more(
                    start.allocator,
                    before.allocator,
                    self.allocator,
                    entry_handles(all.take(gone)),
                    entry_handles(views),
                );
                assert(still_short(
                    start.allocator,
                    self.allocator,
                    all,
                    gone + n,
                    required_bytes as int,
                    target_node,
                    before.allocator,
                    gone,
                    longest,
                ));
                assert(all.skip(gone).skip(n) =~= all.skip(gone + n));
                assert(keys_of(all.take(gone)) + keys_of(views) =~= keys_of(all.take(gone + n)));
                if self.registers_blocks {
                    assert(removed_keys(start.removals@) + keys_of(all.take(gone)) + keys_of(
                        views,
                    ) =~= removed_keys(start.removals@) + keys_of(all.take(gone + n)));
                } else {
                    assert(removed_keys(start.removals@) + Seq::<KeyView>::empty() + Seq::<
                        KeyView,
                    >::empty() =~= removed_keys(start.removals@) + Seq::<KeyView>::empty());
                }
            }
            freed_bytes = freed_bytes.saturating_add(stats.evicted_bytes);
            freed_blocks = freed_blocks + stats.evicted_blocks;
            largest_free = self.allocator.largest_free_allocation_for_node(target_node);
        }
        Reclaimed { freed_blocks, freed_bytes, largest_free }
    }

    /// Hands out pinned memory on a node, or anywhere where none is given. Where memory is
    /// short, blocks are evicted, the least recently used ones first; there is none to be
    /// had only where the cache is empty in the end and the memory still does not suffice.
    pub fn allocate(&mut self, size: u64, numa_node: Option<NumaNode>) -> (r: Option<
        PinnedAllocation,
    >)
        requires
            old(self).wf(),
            size > 0,
        ensures
            final(self).wf(),
            allocates(*old(self), *final(self), size as int, wanted_node(numa_node), r),
    {
        let node: NumaNode = match numa_node {
            Some(n) => n,
            None => NumaNode::unknown(),
        };
        let ghost start = *self;
        let ghost all = self.read_cache.entries();
        proof {
            assert(all.skip(0) =~= all);
            assert(keys_of(all.take(0)) =~= Seq::<KeyView>::empty());
            assert(removed_keys(self.removals@) + Seq::<KeyView>::empty() =~= removed_keys(
                self.removals@,
            ));
        }
        let ghost mut tried: PinnedAllocator = self.allocator;
        loop
            invariant
                start == *old(self),
                start.wf(),
                self.wf(),
                self.same_setup(start),
                self.evicted_from(start),
                size > 0,
                all == start.read_cache.entries(),
                node == wanted_node(numa_node),
                *self == start || {
                    &&& start.allocator.exhausted(size as int, node)
                    &&& all.len() > self.read_cache.entries().len()
                    &&& allocator_serves(start.allocator, tried, size as int, node, None)
                    &&& evicts_for(
                        tried,
                        self.allocator,
                        all,
                        all.len() - self.read_cache.entries().len(),
                        size as int,
                        node,
                    )
                    &&& self.allocator.exhausted(size as int, node)
                        ==> self.read_cache.entries().len() == 0
                },
            decreases self.read_cache.entries().len(),
        {
            let ghost before = *self;
            let ghost gone = all.len() - before.read_cache.entries().len();
            match self.allocator.allocate(size, node) {
                Some(a) => {
                    proof {
                        if before != start {
                            assert(serves_after_eviction(
                                start.allocator,
                                self.allocator,
                                all,
                                gone,
                                size as int,
                                node,
                                Some(a),
                                tried,
                                before.allocator,
                            ));
                        }
                    }
                    return Some(a);
                },
                None => {},
            }
            assert(before.allocator.exhausted(size as int, node));
            let ghost refused = *self;
            let reclaimed: Reclaimed = self.reclaim_until_allocator_can_allocate(size, node);
            proof {
                self.allocator.law_exhausted_means_too_short(
                    size as int,
                    node,
                    reclaimed.largest_free as int,
                );
                lemma_evicted_further(start, refused, *self);
            }
            if reclaimed.freed_blocks == 0 && reclaimed.largest_free < size {
                let last: Option<PinnedAllocation> = self.allocator.allocate(size, node);
                proof {
                    assert(last is None);
                    if before == start {
                        assert(serves_after_eviction(
                            start.allocator,
                            self.allocator,
                            all,
                            0,
                            size as int,
                            node,
                            last,
                            refused.allocator,
                            refused.allocator,
                        ));
                    } else {
                        assert(serves_after_eviction(
                            start.allocator,
                            self.allocator,
                            all,
                            gone,
                            size as int,
                            node,
                            last,
                            tried,
                            before.allocator,
                        ));
                    }
                }
                return last;
            }
            proof {
                assert(before == start);
                tried = refused.allocator;
            }
        }
    }

    /// Evicts every block from memory. Copies elsewhere stay, and blocks that somebody
    /// still holds stay in memory until they let go.
    pub fn cleanup_memory_cache(&mut self) -> (r: MemoryCacheCleanupStats)
        requires
            old(self).wf(),
        ensures
            final(self).wf(),
            final(self).same_setup(*old(self)),
            final(self).evicted_from(*old(self)),
            final(self).read_cache.entries().len() == 0,
            r.evicted_blocks == old(self).read_cache.entries().len(),
            r.evicted_bytes == capped(footprints(old(self).read_cache.entries())),
            r.reclaimed_bytes == old(self).allocator.used_bytes()
                - final(self).allocator.used_bytes(),
            r.still_referenced_blocks <= r.evicted_blocks,
            frees_some(
                old(self).allocator,
                final(self).allocator,
                entry_handles(old(self).read_cache.entries()),
            ),
    {
        let ghost all = self.read_cache.entries();
        let evicted: Vec<(BlockKey, Arc<SealedBlock>)> = self.read_cache.remove_all();
        let ghost n = evicted@.len() as int;
        let stats: MemoryCacheCleanupStats = self.evict(evicted);
        proof {
            assert(all.len() == n);
            assert(all.skip(n) =~= Seq::<EntryView>::empty());
            assert(all.take(n) =~= all);
        }
        stats
    }

    /// Leaves in `hashes` those whose blocks are not cached.
    pub fn filter_hashes_not_in_cache_inplace(&self, namespace: &str, hashes: &mut Vec<Vec<u8>>)
        requires
            self.wf(),
        ensures
            byte_views(final(hashes)@) == uncached(
                self.read_cache.entries(),
                namespace@,
                byte_views(old(hashes)@),
            ),
    {
        let ghost entries = self.read_cache.entries();
        let mut asked: Vec<Vec<u8>> = Vec::new();
        std::mem::swap(&mut asked, hashes);
        let ghost all = asked@;
        let ghost views = byte_views(asked@);
        assert(views.take(0) =~= Seq::<Seq<u8>>::empty());
        assert(byte_views(hashes@) =~= Seq::<Seq<u8>>::empty());
        for hash in it: asked
            invariant
                it.seq() == all,
                views == byte_views(all),
                self.wf(),
                entries == self.read_cache.entries(),
                byte_views(hashes@) == uncached(entries, namespace@, views.take(it.index())),
        {
            let ghost k = it.index();
            let ghost shown = byte_views(hashes@);
            assert(views.take(k + 1).drop_last() =~= views.take(k));
            assert(views.take(k + 1).last() == hash@);
            let key: BlockKey = BlockKey::new(
                String::from_str(namespace),
                copy_bytes(&hash),
            );
            if !self.read_cache.contains_key(&key) {
                let ghost view = hash@;
                hashes.push(hash);
                assert(byte_views(hashes@) =~= shown.push(view));
            }
        }
        assert(views.take(views.len() as int) =~= views);
    }

    /// The blocks of some keys, as far as they are cached, for a transfer to another node.
    pub fn get_blocks_for_transfer(&mut self, keys: &[BlockKey]) -> (r: Vec<
        (BlockKey, Arc<SealedBlock>),
    >)
        requires
            old(self).wf(),
        ensures
            final(self).wf(),
            final(self).same_setup(*old(self)),
            final(self).allocator == old(self).allocator,
            final(self).removals == old(self).removals,
            entry_views(r@) == found(old(self).read_cache.entries(), key_views(keys@)),
            final(self).read_cache.entries() == touch_all(
                old(self).read_cache.entries(),
                key_views(keys@),
            ),
    {
        self.read_cache.get_blocks(keys)
    }

    /// Locks blocks for a transfer, and returns the name of the session.
    pub fn lock_blocks_for_transfer(
        &mut self,
        requester_id: &str,
        blocks: &[(BlockKey, Arc<SealedBlock>)],
        now: u64,
    ) -> (r: String)
        requires
            old(self).wf(),
        ensures
            final(self).wf(),
            final(self).allocator == old(self).allocator,
            final(self).read_cache == old(self).read_cache,
            final(self).removals == old(self).removals,
            final(self).registers_blocks == old(self).registers_blocks,
            final(self).ssd_enabled == old(self).ssd_enabled,
            final(self).blockwise_alloc == old(self).blockwise_alloc,
            final(self).transfer_lock.timeout() == old(self).transfer_lock.timeout(),
            is_uuid_text(r@),
            as_map(final(self).transfer_lock.sessions()) == as_map(
                old(self).transfer_lock.sessions(),
            ).insert(
                r@,
                (SessionView {
                    requester_id: requester_id@,
                    blocks: entry_views(blocks@),
                    locked_at: now,
                }),
            ),
    {
        let mut held: Vec<(BlockKey, Arc<SealedBlock>)> = Vec::new();
        let ghost views = entry_views(blocks@);
        let mut i: usize = 0;
        assert(entry_views(held@) =~= views.take(0));
        while i < blocks.len()
            invariant
                i <= blocks@.len(),
                views == entry_views(blocks@),
                entry_views(held@) == views.take(i as int),
            decreases blocks@.len() - i,
        {
            let ghost shown = entry_views(held@);
            held.push((blocks[i].0.clone(), share(&blocks[i].1)));
            assert(entry_views(held@) =~= shown.push(views[i as int]));
            i += 1;
            assert(views.take(i as int) =~= views.take(i - 1).push(views[i - 1]));
        }
        assert(views.take(i as int) =~= views);
        self.transfer_lock.lock_blocks(requester_id, held, now)
    }

    /// How long blocks stay locked, in nanoseconds.
    pub fn transfer_lock_timeout(&self) -> (r: u64)
        ensures
            r == self.transfer_lock.timeout(),
    {
        self.transfer_lock.lock_timeout()
    }

    /// Ends a session, and returns how many blocks it held. The memory of those that nobody
    /// else holds returns to its pool.
    pub fn release_transfer_lock(&mut self, session_id: &str) -> (r: usize)
        requires
            old(self).wf(),
        ensures
            final(self).wf(),
            final(self).same_but_locks(*old(self)),
            as_map(final(self).transfer_lock.sessions()) == as_map(
                old(self).transfer_lock.sessions(),
            ).remove(session_id@),
            ({
                let held = match lookup(old(self).transfer_lock.sessions(), session_id@) {
                    Some(s) => s.blocks,
                    None => Seq::empty(),
                };
                &&& r == held.len()
                &&& frees_some(old(self).allocator, final(self).allocator, entry_handles(held))
            }),
    {
        let blocks: Vec<(BlockKey, Arc<SealedBlock>)> = self.transfer_lock.release(session_id);
        let count: usize = blocks.len();
        self.release_blocks(blocks);
        count
    }

    /// Ends the sessions that have been held for the whole timeout, and returns how many
    /// that were. The memory of blocks that nobody else holds returns to its pool.
    pub fn gc_expired_transfer_locks(&mut self, now: u64) -> (r: usize)
        requires
            old(self).wf(),
        ensures
            final(self).wf(),
            final(self).same_but_locks(*old(self)),
            final(self).transfer_lock.sessions() == live(
                old(self).transfer_lock.sessions(),
                old(self).transfer_lock.timeout(),
                now,
            ),
            r == old(self).transfer_lock.sessions().len()
                - final(self).transfer_lock.sessions().len(),
            frees_some(
                old(self).allocator,
                final(self).allocator,
                entry_handles(
                    freed(
                        old(self).transfer_lock.sessions(),
                        old(self).transfer_lock.timeout(),
                        now,
                    ),
                ),
            ),
    {
        let (count, blocks): (usize, Vec<(BlockKey, Arc<SealedBlock>)>) =
            self.transfer_lock.gc_expired(now);
        self.release_blocks(blocks);
        count
    }
}

proof fn lemma_evicted_further(a: StorageEngine, b: StorageEngine, c: StorageEngine)
    requires
        b.evicted_from(a),
        c.evicted_from(b),
        b.registers_blocks == a.registers_blocks,
        c.registers_blocks == a.registers_blocks,
    ensures
        c.evicted_from(a),
{
    let all = a.read_cache.entries();
    let m = all.len() - b.read_cache.entries().len();
    let n = b.read_cache.entries().len() - c.read_cache.entries().len();
    assert(all.skip(m).skip(n) =~= all.skip(m + n));
    assert(keys_of(all.take(m)) + keys_of(all.skip(m).take(n)) =~= keys_of(all.take(m + n)));
    if a.registers_blocks {
        assert(removed_keys(a.removals@) + keys_of(all.take(m)) + keys_of(all.skip(m).take(n))
            =~= removed_keys(a.removals@) + keys_of(all.take(m + n)));
    } else {
        assert(removed_keys(a.removals@) + Seq::<KeyView>::empty() + Seq::<KeyView>::empty()
            =~= removed_keys(a.removals@) + Seq::<KeyView>::empty());
    }
}

/// What is left of some hashes is not cached, and nothing that is not cached is lost.
pub proof fn law_filter_keeps_exactly_the_uncached(
    entries: Seq<EntryView>,
    namespace: Seq<char>,
    hashes: Seq<Seq<u8>>,
    hash: Seq<u8>,
)
    ensures
        uncached(entries, namespace, hashes).contains(hash) <==> hashes.contains(hash)
            && !has_key(entries, (namespace, hash)),
    decreases hashes.len(),
{
    if hashes.len() > 0 {
        let front = hashes.drop_last();
        let rest = uncached(entries, namespace, front);
        let all = uncached(entries, namespace, hashes);
        law_filter_keeps_exactly_the_uncached(entries, namespace, front, hash);
        if hashes.contains(hash) && !front.contains(hash) {
            let i = choose|i: int| 0 <= i < hashes.len() && hashes[i] == hash;
            if i < front.len() {
                assert(front[i] == hash);
            }
        }
        if front.contains(hash) {
            let i = choose|i: int| 0 <= i < front.len() && front[i] == hash;
            assert(hashes[i] == hash);
        }
        if hash == hashes.last() {
            assert(hashes[hashes.len() - 1] == hash);
        }
        if !has_key(entries, (namespace, hashes.last())) {
            if rest.contains(hash) {
                let i = choose|i: int| 0 <= i < rest.len() && rest[i] == hash;
                assert(all[i] == hash);
            }
            if hash == hashes.last() {
                assert(all[all.len() - 1] == hash);
            }
            if all.contains(hash) && hash != hashes.last() {
                let i = choose|i: int| 0 <= i < all.len() && all[i] == hash;
                assert(rest[i] == hash);
            }
        }
    }
}

/// Memory that blocks are evicted for where it is short.
impl PinnedMemory for StorageEngine {
    open spec fn sound(&self) -> bool {
        self.wf()
    }

    open spec fn granted(
        before: Self,
        after: Self,
        size: int,
        node: NumaNode,
        r: Option<PinnedAllocation>,
    ) -> bool {
        allocates(before, after, size, node, r)
    }

    open spec fn returned(before: Self, after: Self, a: PinnedAllocation, r: bool) -> bool {
        &&& after.same_setup(before)
        &&& after.read_cache == before.read_cache
        &&& after.removals == before.removals
        &&& allocator_gives_back(before.allocator, after.allocator, a, r)
    }

    fn take(&mut self, size: u64, node: NumaNode) -> (r: Option<PinnedAllocation>) {
        self.allocate(size, Some(node))
    }

    fn give_back(&mut self, allocation: &PinnedAllocation) -> (r: bool) {
        self.allocator.free(allocation)
    }
}

/// Sums over blocks are those of the single blocks: their bytes, the memory that they hold, and the
/// keys that the server is told of.
pub proof fn law_blocks_add_up(
    a: Seq<EntryView>,
    b: Seq<EntryView>,
    e: EntryView,
    told: Seq<Vec<(String, Vec<u8>)>>,
    command: Vec<(String, Vec<u8>)>,
)
    ensures
        footprints(a + b) == footprints(a) + footprints(b),
        footprints(seq![e]) == e.1.footprint(),
        entry_handles(a + b) == entry_handles(a) + entry_handles(b),
        entry_handles(seq![e]) == slot_allocations(e.1.blocks()),
        removed_keys(told.push(command)) == removed_keys(told) + Seq::new(
            command@.len(),
            |i: int| (command@[i].0@, command@[i].1@),
        ),
        removed_keys(Seq::empty()) == Seq::<KeyView>::empty(),
    decreases b.len(),
{
    reveal_with_fuel(footprints, 2);
    reveal_with_fuel(entry_handles, 2);
    assert(seq![e].drop_last() =~= Seq::<EntryView>::empty());
    assert(entry_handles(seq![e]) =~= slot_allocations(e.1.blocks()));
    assert(told.push(command).drop_last() =~= told);
    assert(command_keys(command@) =~= Seq::new(
        command@.len(),
        |i: int| (command@[i].0@, command@[i].1@),
    ));
    if b.len() == 0 {
        assert(a + b =~= a);
        assert(entry_handles(a) + entry_handles(b) =~= entry_handles(a));
    } else {
        assert((a + b).drop_last() =~= a + b.drop_last());
        assert((a + b).last() == b.last());
        law_blocks_add_up(a, b.drop_last(), e, told, command);
        assert(entry_handles(a + b) =~= entry_handles(a) + entry_handles(b));
    }
}

/// A block counts as referenced exactly if somebody else holds it.
pub proof fn law_holders_are_counted_one_by_one(holders: Seq<usize>, n: usize)
    ensures
        shared_count(Seq::empty()) == 0,
        shared_count(holders.push(n)) == shared_count(holders) + (if n > 1 {
            1int
        } else {
            0
        }),
        shared_count(holders) <= holders.len(),
    decreases holders.len(),
{
    assert(holders.push(n).drop_last() =~= holders);
    if holders.len() > 0 {
        law_holders_are_counted_one_by_one(holders.drop_last(), n);
    }
}

/// The least recently used blocks go first: what is left are the blocks that were used last, in
/// their order, and where a server is told of blocks, it is told of exactly those that went.
pub proof fn law_the_least_recently_used_go_first(
    before: StorageEngine,
    after: StorageEngine,
    i: int,
)
    requires
        after.evicted_from(before),
        0 <= i < after.read_cache.entries().len(),
    ensures
        ({
            let all = before.read_cache.entries();
            let left = after.read_cache.entries();
            &&& left.len() <= all.len()
            &&& left[i] == all[all.len() - left.len() + i]
            &&& after.registers_blocks ==> removed_keys(after.removals@) == removed_keys(
                before.removals@,
            ) + Seq::new((all.len() - left.len()) as nat, |k: int| all[k].0)
            &&& !after.registers_blocks ==> removed_keys(after.removals@) == removed_keys(
                before.removals@,
            )
        }),
{
    let all = before.read_cache.entries();
    let gone = all.len() - after.read_cache.entries().len();
    assert(keys_of(all.take(gone)) =~= Seq::new(gone as nat, |k: int| all[k].0));
    assert(removed_keys(before.removals@) + Seq::<KeyView>::empty() =~= removed_keys(
        before.removals@,
    ));
}

/// Whether `mid` is what memory is after the first `k` of some blocks were given up.
pub open spec fn was_short(entries: Seq<EntryView>, mid: PinnedAllocator, k: int) -> bool {
    exists|start: PinnedAllocator| #[trigger]
        frees_some(start, mid, entry_handles(entries.take(k)))
}

/// Blocks are evicted only where memory is short: a request that can be met at once is, and takes
/// nothing out of the cache. It is given up only with an empty cache and still no room; and of
/// the blocks that are evicted, all but those of the last batch went while there was no room.
pub proof fn law_eviction_is_for_want_of_memory(
    before: StorageEngine,
    after: StorageEngine,
    size: int,
    node: NumaNode,
    r: Option<PinnedAllocation>,
)
    requires
        allocates(before, after, size, node, r),
    ensures
        !before.allocator.exhausted(size, node) ==> r is Some && after.read_cache.entries()
            == before.read_cache.entries() && after.removals == before.removals,
        r is None ==> after.read_cache.entries().len() == 0 && after.allocator.exhausted(size, node)
            && before.allocator.exhausted(size, node),
        r matches Some(a) ==> a.range.size_bytes >= size && a.node == node,
        after.read_cache.entries().len() < before.read_cache.entries().len() ==> exists|
            mid: PinnedAllocator,
            k: int,
            longest: int,
        |
            #![trigger was_short(before.read_cache.entries(), mid, k), mid.largest_free(node, longest)]
            {
                let gone = before.read_cache.entries().len() - after.read_cache.entries().len();
                &&& was_short(before.read_cache.entries(), mid, k)
                &&& mid.largest_free(node, longest)
                &&& longest < size
                &&& 0 <= k < gone <= k + 512
            },
{
    let entries = before.read_cache.entries();
    let gone = entries.len() - after.read_cache.entries().len();
    if gone > 0 {
        let (tried, freed) = choose|tried: PinnedAllocator, freed: PinnedAllocator| #[trigger]
            serves_after_eviction(
                before.allocator,
                after.allocator,
                entries,
                gone,
                size,
                node,
                r,
                tried,
                freed,
            );
        let (mid, k, longest) = choose|mid: PinnedAllocator, k: int, longest: int| #[trigger]
            still_short(tried, freed, entries, gone, size, node, mid, k, longest);
        assert(frees_some(tried, mid, entry_handles(entries.take(k))));
        assert(was_short(entries, mid, k));
        assert(mid.largest_free(node, longest));
    }
}

/// The hashes that are not cached are kept, in their order and as often as they are asked for.
pub proof fn law_uncached_hashes_stay_in_order(
    entries: Seq<EntryView>,
    namespace: Seq<char>,
    hashes: Seq<Seq<u8>>,
)
    ensures
        uncached(entries, namespace, hashes) == hashes.filter(
            |h: Seq<u8>| !has_key(entries, (namespace, h)),
        ),
    decreases hashes.len(),
{
    reveal(Seq::filter);
    let missing = |h: Seq<u8>| !has_key(entries, (namespace, h));
    if hashes.len() > 0 {
        law_uncached_hashes_stay_in_order(entries, namespace, hashes.drop_last());
    }
    assert(uncached(entries, namespace, hashes) =~= hashes.filter(missing));
}

/// What storage keeps apart from what it is asked to change: memory is given back and blocks are
/// evicted without touching locks, setup or registered memory, and locks end without touching
/// the cache.
pub proof fn law_the_rest_of_storage_stays(a: StorageEngine, b: StorageEngine)
    ensures
        a.same_setup(b) ==> a.transfer_lock == b.transfer_lock && a.registers_blocks
            == b.registers_blocks && a.ssd_enabled == b.ssd_enabled && a.blockwise_alloc
            == b.blockwise_alloc && a.read_cache.policy() == b.read_cache.policy()
            && a.allocator.regions() == b.allocator.regions(),
        a.same_but_locks(b) ==> a.read_cache == b.read_cache && a.removals == b.removals
            && a.registers_blocks == b.registers_blocks && a.ssd_enabled == b.ssd_enabled
            && a.blockwise_alloc == b.blockwise_alloc && a.transfer_lock.timeout()
            == b.transfer_lock.timeout() && a.allocator.regions() == b.allocator.regions()
            && a.allocator.used_bytes() <= b.allocator.used_bytes(),
{
}

/// Memory that nobody else holds is given back, in turn; what somebody holds stays.
pub proof fn law_memory_is_given_back_in_turn(
    before: PinnedAllocator,
    after: PinnedAllocator,
    a: PinnedAllocation,
)
    ensures
        frees_all(before, after, seq![Some(a)]) ==> exists|r: bool| #[trigger]
            allocator_gives_back(before, after, a, r),
        frees_all(before, after, seq![None::<PinnedAllocation>]) ==> after == before,
        frees_all(before, after, Seq::empty()) ==> after == before,
        wanted_node(None) == NumaNode(UNKNOWN_NODE),
        forall|n: NumaNode| #[trigger] wanted_node(Some(n)) == n,
{
    let one = seq![Some(a)];
    if frees_all(before, after, one) {
        let states = choose|states: Seq<PinnedAllocator>| #[trigger]
            return_chain(states, one) && states.first() == before && states.last() == after;
        assert(takes_back(states[0], states[1], one[0]));
    }
    let none = seq![None::<PinnedAllocation>];
    if frees_all(before, after, none) {
        let states = choose|states: Seq<PinnedAllocator>| #[trigger]
            return_chain(states, none) && states.first() == before && states.last() == after;
        assert(takes_back(states[0], states[1], none[0]));
    }
}

} // verus!
