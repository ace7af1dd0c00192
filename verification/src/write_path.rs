//! The write path: slots arrive in batches, blocks are sealed once all their
//! slots are there, and sealed blocks are published.

use std::sync::Arc;
use vstd::prelude::*;
use crate::block::{
    all_filled, capped, complete_in_order, copy_bytes, filled_blocks, filled_bytes,
    inserted_blocks, lemma_fill, slot_bytes, unwrapped, BlockKey, InflightBlock, RawBlock, SealedBlock,
    SlotInsertResult,
};
use crate::keyed::{
    as_map, has_key, is_entry, lemma_place, lemma_push, lemma_remove, lookup, place, unique_keys,
};
use crate::numa::{NumaNode, UNKNOWN_NODE};
use crate::read_cache::{
    entry_views, insert_all, insert_outcome, kept_out, law_blocks_that_are_let_in_are_cached,
    law_inserted_blocks_are_found, law_outcomes_tell_what_was_cached, lemma_insert_others, lets_in,
    CacheInsertOutcome, EntryView, KeyView, ReadCache,
};

verus! {

/// A block that is being filled.
#[verifier::ext_equal]
pub struct InflightView {
    pub slots: Seq<Option<RawBlock>>,
    pub numas: Seq<NumaNode>,
    pub created_at: u64,
}

/// A sealed block.
#[verifier::ext_equal]
pub struct SealedView {
    pub blocks: Seq<RawBlock>,
    pub numas: Seq<NumaNode>,
    pub footprint: u64,
    pub sealed_at: u64,
}

impl View for InflightBlock {
    type V = InflightView;

    open spec fn view(&self) -> InflightView {
        InflightView { slots: self.slots(), numas: self.numas(), created_at: self.created_at() }
    }
}

impl View for SealedBlock {
    type V = SealedView;

    open spec fn view(&self) -> SealedView {
        SealedView {
            blocks: self.blocks(),
            numas: self.numas(),
            footprint: self.footprint(),
            sealed_at: self.sealed_at(),
        }
    }
}

/// A block of empty slots.
pub open spec fn fresh(total_slots: nat, now: u64) -> InflightView {
    InflightView {
        slots: Seq::new(total_slots, |i: int| None::<RawBlock>),
        numas: Seq::new(total_slots, |i: int| NumaNode(UNKNOWN_NODE)),
        created_at: now,
    }
}

/// A block after a slot was offered to it: an empty slot is filled, a filled one
/// stays.
pub open spec fn put(v: InflightView, slot: (usize, RawBlock), numa: NumaNode) -> InflightView {
    if v.slots[slot.0 as int] is Some {
        v
    } else {
        InflightView {
            slots: v.slots.update(slot.0 as int, Some(slot.1)),
            numas: v.numas.update(slot.0 as int, numa),
            created_at: v.created_at,
        }
    }
}

/// A block after `slots` were offered to it in turn.
pub open spec fn fill(v: InflightView, slots: Seq<(usize, RawBlock)>, numa: NumaNode) -> InflightView
    decreases slots.len(),
{
    if slots.len() == 0 {
        v
    } else {
        put(fill(v, slots.drop_last(), numa), slots.last(), numa)
    }
}

/// The blocks among `slots` that a block does not take up when they are offered to it in turn:
/// those for slots that are filled already.
pub open spec fn spurned(v: InflightView, slots: Seq<(usize, RawBlock)>, numa: NumaNode) -> Seq<
    RawBlock,
>
    decreases slots.len(),
{
    if slots.len() == 0 {
        Seq::empty()
    } else {
        let front = slots.drop_last();
        if fill(v, front, numa).slots[slots.last().0 as int] is Some {
            spurned(v, front, numa).push(slots.last().1)
        } else {
            spurned(v, front, numa)
        }
    }
}

/// A complete block, sealed.
pub open spec fn sealed_from(v: InflightView, now: u64) -> SealedView {
    SealedView {
        blocks: unwrapped(v.slots),
        numas: v.numas,
        footprint: capped(filled_bytes(v.slots)) as u64,
        sealed_at: now,
    }
}

/// A block of slots that came complete and in order, sealed.
pub open spec fn sealed_in_order(
    slots: Seq<(usize, RawBlock)>,
    numa: NumaNode,
    now: u64,
) -> SealedView {
    SealedView {
        blocks: inserted_blocks(slots),
        numas: Seq::new(slots.len(), |i: int| numa),
        footprint: capped(slot_bytes(inserted_blocks(slots))) as u64,
        sealed_at: now,
    }
}

/// What a batch has come to so far.
#[verifier::ext_equal]
pub struct BatchView {
    /// The blocks that are being filled.
    pub inflight: Map<KeyView, InflightView>,
    /// The blocks that the batch sealed.
    pub sealed: Seq<(KeyView, SealedView)>,
    /// The bytes that went into blocks that are being filled.
    pub added: nat,
    /// The bytes of such blocks that were sealed.
    pub removed: nat,
    /// How many blocks came complete and in order.
    pub ordered: nat,
    /// What went nowhere.
    pub dropped: Seq<RawBlock>,
}

/// One block of a batch: its key and its slots.
pub type BatchEntry = (KeyView, Seq<(usize, RawBlock)>);

/// The block that slots for `key` go into.
pub open spec fn target(
    inflight: Map<KeyView, InflightView>,
    key: KeyView,
    total_slots: nat,
    now: u64,
) -> InflightView {
    if inflight.contains_key(key) {
        inflight[key]
    } else {
        fresh(total_slots, now)
    }
}

/// A batch after slots were offered to the block of `key` one by one. Slots for
/// a block with another number of slots are left out.
pub open spec fn partial_step(
    st: BatchView,
    key: KeyView,
    slots: Seq<(usize, RawBlock)>,
    total_slots: nat,
    numa: NumaNode,
    now: u64,
) -> BatchView {
    let before = target(st.inflight, key, total_slots, now);
    let after = fill(before, slots, numa);
    let added = capped((st.added + filled_bytes(after.slots) - filled_bytes(before.slots)) as nat);
    let dropped = st.dropped + spurned(before, slots, numa);
    if before.slots.len() != total_slots {
        BatchView { dropped: st.dropped + inserted_blocks(slots), ..st }
    } else if all_filled(after.slots) {
        BatchView {
            inflight: st.inflight.remove(key),
            sealed: st.sealed.push((key, sealed_from(after, now))),
            added,
            removed: capped(st.removed + filled_bytes(after.slots)),
            ordered: st.ordered,
            dropped,
        }
    } else {
        BatchView { inflight: st.inflight.insert(key, after), added, dropped, ..st }
    }
}

/// A batch after one of its blocks was processed. A block that is cached already
/// is dropped; one that comes complete and in order is sealed at once.
pub open spec fn batch_step(
    st: BatchView,
    entry: BatchEntry,
    resident: Seq<EntryView>,
    total_slots: nat,
    numa: NumaNode,
    now: u64,
) -> BatchView {
    if has_key(resident, entry.0) {
        BatchView { dropped: st.dropped + inserted_blocks(entry.1), ..st }
    } else if !st.inflight.contains_key(entry.0) && complete_in_order(entry.1, total_slots) {
        BatchView {
            sealed: st.sealed.push((entry.0, sealed_in_order(entry.1, numa, now))),
            ordered: st.ordered + 1,
            ..st
        }
    } else {
        partial_step(st, entry.0, entry.1, total_slots, numa, now)
    }
}

/// A batch after all of its blocks were processed in turn.
pub open spec fn batch_run(
    inflight: Map<KeyView, InflightView>,
    entries: Seq<BatchEntry>,
    resident: Seq<EntryView>,
    total_slots: nat,
    numa: NumaNode,
    now: u64,
) -> BatchView
    decreases entries.len(),
{
    if entries.len() == 0 {
        BatchView {
            inflight,
            sealed: Seq::empty(),
            added: 0,
            removed: 0,
            ordered: 0,
            dropped: Seq::empty(),
        }
    } else {
        batch_step(
            batch_run(inflight, entries.drop_last(), resident, total_slots, numa, now),
            entries.last(),
            resident,
            total_slots,
            numa,
            now,
        )
    }
}

/// The blocks of a batch.
pub open spec fn batch_entries(entries: Seq<(BlockKey, Vec<(usize, RawBlock)>)>) -> Seq<BatchEntry> {
    entries.map_values(|e: (BlockKey, Vec<(usize, RawBlock)>)| (e.0@, e.1@))
}

/// Keys with the sealed blocks that they are for.
pub open spec fn sealed_views(blocks: Seq<(BlockKey, Arc<SealedBlock>)>) -> Seq<
    (KeyView, SealedView),
> {
    blocks.map_values(|b: (BlockKey, Arc<SealedBlock>)| (b.0@, b.1@))
}

/// Whether every slot number is below `total_slots`.
pub open spec fn slots_in_range(slots: Seq<(usize, RawBlock)>, total_slots: nat) -> bool {
    forall|i: int| 0 <= i < slots.len() ==> (#[trigger] slots[i]).0 < total_slots
}

/// Offering a slot keeps the number of slots; a block that is complete stays as
/// it is, and the bytes grow by no more than the slot holds.
pub proof fn lemma_put(v: InflightView, slot: (usize, RawBlock), numa: NumaNode)
    requires
        slot.0 < v.slots.len(),
        v.numas.len() == v.slots.len(),
    ensures
        put(v, slot, numa).slots.len() == v.slots.len(),
        put(v, slot, numa).numas.len() == v.slots.len(),
        all_filled(v.slots) ==> put(v, slot, numa) == v,
        filled_bytes(v.slots) <= filled_bytes(put(v, slot, numa).slots) <= filled_bytes(v.slots)
            + slot.1.bytes(),
{
    if v.slots[slot.0 as int] is None {
        lemma_fill(v.slots, slot.0 as int, slot.1);
    }
}

/// The same of several slots.
pub proof fn lemma_fill_slots(v: InflightView, slots: Seq<(usize, RawBlock)>, numa: NumaNode)
    requires
        slots_in_range(slots, v.slots.len()),
        v.numas.len() == v.slots.len(),
    ensures
        fill(v, slots, numa).slots.len() == v.slots.len(),
        fill(v, slots, numa).numas.len() == v.slots.len(),
        all_filled(v.slots) ==> fill(v, slots, numa) == v,
        filled_bytes(v.slots) <= filled_bytes(fill(v, slots, numa).slots) <= filled_bytes(v.slots)
            + slot_bytes(inserted_blocks(slots)),
    decreases slots.len(),
{
    if slots.len() > 0 {
        let front = slots.drop_last();
        assert forall|i: int| 0 <= i < front.len() implies (#[trigger] front[i]).0
            < v.slots.len() by {
            assert(slots[i].0 < v.slots.len());
        }
        lemma_fill_slots(v, front, numa);
        assert(slots[slots.len() - 1].0 < v.slots.len());
        lemma_put(fill(v, front, numa), slots.last(), numa);
        assert(inserted_blocks(slots).drop_last() =~= inserted_blocks(front));
    }
}

/// The blocks that are being filled, by key.
#[derive(Debug)]
pub struct Inflight {
    blocks: Vec<(BlockKey, InflightBlock)>,
}

/// The entries of the list of blocks that are being filled.
pub open spec fn inflight_views(blocks: Seq<(BlockKey, InflightBlock)>) -> Seq<
    (KeyView, InflightView),
> {
    blocks.map_values(|b: (BlockKey, InflightBlock)| (b.0@, b.1@))
}

impl Inflight {
    /// The blocks that are being filled, with their keys.
    pub closed spec fn entries(self) -> Seq<(KeyView, InflightView)> {
        inflight_views(self.blocks@)
    }

    /// The blocks that are being filled, by key.
    pub open spec fn map(self) -> Map<KeyView, InflightView> {
        as_map(self.entries())
    }

    /// No key has two blocks, and every block still has an empty slot.
    pub closed spec fn wf(self) -> bool {
        &&& unique_keys(self.entries())
        &&& forall|i: int|
            0 <= i < self.blocks@.len() ==> (#[trigger] self.blocks@[i]).1.wf() && !all_filled(
                self.blocks@[i].1.slots(),
            ) && self.blocks@[i].1.numas().len() == self.blocks@[i].1.slots().len()
    }

    /// No block is being filled.
    pub fn new() -> (r: Self)
        ensures
            r.wf(),
            r.entries() == Seq::<(KeyView, InflightView)>::empty(),
            r.map() == Map::<KeyView, InflightView>::empty(),
    {
        let r: Inflight = Inflight { blocks: Vec::new() };
        proof {
            assert(r.entries() =~= Seq::<(KeyView, InflightView)>::empty());
            assert(r.map() =~= Map::<KeyView, InflightView>::empty());
        }
        r
    }

    /// How many blocks are being filled.
    pub fn len(&self) -> (r: usize)
        ensures
            r == self.entries().len(),
    {
        self.blocks.len()
    }

    fn find(&self, key: &BlockKey) -> (r: Option<usize>)
        requires
            self.wf(),
        ensures
            match r {
                Some(i) => {
                    &&& i < self.blocks@.len()
                    &&& self.entries()[i as int].0 == key@
                    &&& self.map().contains_key(key@)
                    &&& self.map()[key@] == self.blocks@[i as int].1@
                },
                None => !self.map().contains_key(key@) && !has_key(self.entries(), key@),
            },
    {
        let mut i: usize = 0;
        while i < self.blocks.len()
            invariant
                self.wf(),
                i <= self.blocks@.len(),
                forall|k: int| 0 <= k < i ==> !#[trigger] is_entry(self.entries(), key@, k),
            decreases self.blocks@.len() - i,
        {
            assert(self.entries()[i as int] == (
                self.blocks@[i as int].0@,
                self.blocks@[i as int].1@,
            ));
            if self.blocks[i].0.same(key) {
                proof {
                    lemma_place(self.entries(), key@, i as int);
                }
                return Some(i);
            }
            i += 1;
        }
        None
    }

    /// The block of `key`, if it is being filled.
    pub fn get(&self, key: &BlockKey) -> (r: Option<&InflightBlock>)
        requires
            self.wf(),
        ensures
            match r {
                Some(b) => self.map().contains_key(key@) && b@ == self.map()[key@] && b.wf(),
                None => !self.map().contains_key(key@),
            },
    {
        match self.find(key) {
            Some(i) => {
                assert(self.blocks@[i as int].1.wf());
                Some(&self.blocks[i].1)
            },
            None => None,
        }
    }

    fn insert_partial_slots(
        &mut self,
        key: BlockKey,
        slots: Vec<(usize, RawBlock)>,
        total_slots: usize,
        numa_node: NumaNode,
        now: u64,
        sealed: &mut Vec<(BlockKey, Arc<SealedBlock>)>,
        added: &mut u64,
        removed: &mut u64,
        dropped: &mut Vec<RawBlock>,
        Ghost(ordered): Ghost<nat>,
    )
        requires
            old(self).wf(),
            slots_in_range(slots@, total_slots as nat),
            !(old(self).map().contains_key(key@)) ==> !complete_in_order(
                slots@,
                total_slots as nat,
            ),
        ensures
            final(self).wf(),
            (BatchView {
                inflight: final(self).map(),
                sealed: sealed_views(final(sealed)@),
                added: *final(added) as nat,
                removed: *final(removed) as nat,
                ordered,
                dropped: final(dropped)@,
            }) == partial_step(
                BatchView {
                    inflight: old(self).map(),
                    sealed: sealed_views(old(sealed)@),
                    added: *old(added) as nat,
                    removed: *old(removed) as nat,
                    ordered,
                    dropped: old(dropped)@,
                },
                key@,
                slots@,
                total_slots as nat,
                numa_node,
                now,
            ),
    {
        let ghost map = self.map();
        let ghost before = target(map, key@, total_slots as nat, now);
        let ghost offered = slots@;
        let mut block: InflightBlock = match self.find(&key) {
            Some(i) => {
                assert(self.blocks@[i as int].1.wf());
                if self.blocks[i].1.total_slots() != total_slots {
                    drop_slots(slots, dropped);
                    return;
                }
                proof {
                    lemma_remove(self.entries(), i as int);
                }
                let entry: (BlockKey, InflightBlock) = self.blocks.remove(i);
                assert(self.entries() =~= old(self).entries().remove(i as int));
                entry.1
            },
            None => {
                assert(map.remove(key@) =~= map);
                let block: InflightBlock = InflightBlock::new(total_slots, now);
                assert(block@ =~= fresh(total_slots as nat, now));
                block
            },
        };
        proof {
            assert(self.wf());
            assert(block@ == before);
            assert(self.map() == map.remove(key@));
            if all_filled(before.slots) {
                if total_slots == 0 {
                    assert(offered.len() == 0) by {
                        if offered.len() > 0 {
                            assert(offered[0].0 < total_slots);
                        }
                    }
                    assert(complete_in_order(offered, 0));
                } else {
                    assert(before.slots[0] is Some);
                }
            }
            assert(!all_filled(before.slots));
            assert(offered.take(0) =~= Seq::<(usize, RawBlock)>::empty());
        }
        let mut completed: bool = false;
        let ghost added0 = *added as nat;
        let ghost dropped0 = dropped@;
        assert(dropped0 + spurned(before, offered.take(0), numa_node) =~= dropped0);
        for slot in it: slots
            invariant
                it.seq() == offered,
                slots_in_range(offered, total_slots as nat),
                before.slots.len() == total_slots,
                before.numas.len() == total_slots,
                !all_filled(before.slots),
                block.wf(),
                completed == all_filled(block.slots()),
                block@ == fill(before, offered.take(it.index()), numa_node),
                dropped@ == dropped0 + spurned(before, offered.take(it.index()), numa_node),
                *added == capped(
                    (added0 + filled_bytes(block.slots()) - filled_bytes(before.slots)) as nat,
                ),
        {
            let ghost k = it.index();
            proof {
                let taken = offered.take(k);
                let more = offered.take(k + 1);
                assert(more.drop_last() =~= taken);
                assert(more.last() == offered[k]);
                assert(offered[k].0 < total_slots);
                assert forall|i: int| 0 <= i < more.len() implies (#[trigger] more[i]).0
                    < total_slots by {
                    assert(offered[i].0 < total_slots);
                }
                assert forall|i: int| 0 <= i < taken.len() implies (#[trigger] taken[i]).0
                    < total_slots by {
                    assert(offered[i].0 < total_slots);
                }
                lemma_fill_slots(before, taken, numa_node);
                lemma_fill_slots(before, more, numa_node);
                lemma_put(block@, offered[k], numa_node);
                if block.slots()[offered[k].0 as int] is None {
                    lemma_fill(block.slots(), offered[k].0 as int, offered[k].1);
                }
            }
            let (slot_id, raw): (usize, RawBlock) = slot;
            if completed || block.is_filled(slot_id) {
                let ghost shorter = dropped@;
                dropped.push(raw);
                assert(shorter.push(raw) =~= dropped0 + spurned(
                    before,
                    offered.take(k),
                    numa_node,
                ).push(raw));
            } else {
                match block.insert_slot(slot_id, raw, numa_node) {
                    SlotInsertResult::Inserted { completed: c, footprint_added } => {
                        *added = added.saturating_add(footprint_added);
                        completed = c;
                    },
                    SlotInsertResult::Duplicate => {},
                }
                assert(block@ =~= fill(before, offered.take(k + 1), numa_node));
            }
        }
        proof {
            assert(offered.take(offered.len() as int) =~= offered);
            lemma_fill_slots(before, offered, numa_node);
        }
        if completed {
            *removed = removed.saturating_add(block.footprint());
            let ghost sealed0 = sealed_views(sealed@);
            let ghost view = key@;
            let done: SealedBlock = block.seal(now);
            assert(done@ =~= sealed_from(block@, now));
            sealed.push((key, Arc::new(done)));
            assert(sealed_views(sealed@) =~= sealed0.push((view, sealed_from(block@, now))));
        } else {
            proof {
                assert(!has_key(self.entries(), key@)) by {
                    assert(!self.map().contains_key(key@));
                }
                lemma_push(self.entries(), key@, block@);
                assert(map.remove(key@).insert(key@, block@) =~= map.insert(key@, block@));
            }
            let ghost entries = self.entries();
            let ghost view = key@;
            self.blocks.push((key, block));
            assert(self.entries() =~= entries.push((view, block@)));
        }
    }
}

/// Drops what slots hold.
fn drop_slots(slots: Vec<(usize, RawBlock)>, dropped: &mut Vec<RawBlock>)
    ensures
        final(dropped)@ == old(dropped)@ + inserted_blocks(slots@),
{
    let ghost all = slots@;
    let ghost before = dropped@;
    assert(before + inserted_blocks(all).take(0) =~= before);
    for slot in it: slots
        invariant
            it.seq() == all,
            dropped@ == before + inserted_blocks(all).take(it.index()),
    {
        let ghost k = it.index();
        let ghost shorter = dropped@;
        dropped.push(slot.1);
        assert(inserted_blocks(all)[k] == slot.1);
        assert(shorter.push(slot.1) =~= before + inserted_blocks(all).take(k + 1));
    }
    assert(inserted_blocks(all).take(all.len() as int) =~= inserted_blocks(all));
}

/// Where sealed blocks go.
#[derive(Debug)]
pub struct InsertDeps {
    pub read_cache: ReadCache,
    /// Whether there is an SSD store.
    pub ssd_store: bool,
    /// Whether there is a client of the metadata server.
    pub metaserver_client: bool,
    /// Whether sealed blocks are published at all. A destination with a frozen
    /// transfer plan does not publish what it saves itself: a later request
    /// would find its prefix there and bypass the plan.
    pub publish_sealed_blocks: bool,
}

/// What a batch came to.
#[derive(Debug)]
pub struct InsertReport {
    /// How many blocks came complete and in order.
    pub ordered_fast_path_seals: usize,
    /// The bytes that went into blocks that are being filled.
    pub inflight_bytes_added: u64,
    /// The bytes of such blocks that were sealed.
    pub inflight_bytes_removed: u64,
    /// The blocks that the batch sealed.
    pub sealed: Vec<(BlockKey, Arc<SealedBlock>)>,
    /// What inserting each sealed block into the cache came to; empty where they
    /// are not published.
    pub outcomes: Vec<CacheInsertOutcome>,
    /// Whether the sealed blocks go to the SSD store.
    pub ingest_to_ssd: bool,
    /// The hashes to register with the metadata server, if any.
    pub register_hashes: Option<Vec<Vec<u8>>>,
    /// What went nowhere: its memory is free again.
    pub dropped: Vec<RawBlock>,
}

/// The blocks that are cached, where there is a cache.
pub open spec fn resident_entries(deps: Option<InsertDeps>) -> Seq<EntryView> {
    match deps {
        Some(d) => d.read_cache.entries(),
        None => Seq::empty(),
    }
}

/// Whether `blocks` that a batch sealed are published.
pub open spec fn publishes(deps: Option<InsertDeps>, sealed: nat) -> bool {
    sealed > 0 && deps is Some && deps->0.publish_sealed_blocks
}

proof fn lemma_numas_after_step(
    st: BatchView,
    entry: BatchEntry,
    resident: Seq<EntryView>,
    total_slots: nat,
    numa: NumaNode,
    now: u64,
)
    requires
        slots_in_range(entry.1, total_slots),
        forall|k: KeyView| #[trigger]
            st.inflight.contains_key(k) ==> st.inflight[k].numas.len()
                == st.inflight[k].slots.len(),
    ensures
        forall|k: KeyView| #[trigger]
            batch_step(st, entry, resident, total_slots, numa, now).inflight.contains_key(k)
                ==> batch_step(
                st,
                entry,
                resident,
                total_slots,
                numa,
                now,
            ).inflight[k].numas.len() == batch_step(
                st,
                entry,
                resident,
                total_slots,
                numa,
                now,
            ).inflight[k].slots.len(),
{
    let before = target(st.inflight, entry.0, total_slots, now);
    lemma_fresh(total_slots, now);
    if before.slots.len() == total_slots {
        lemma_fill_slots(before, entry.1, numa);
    }
}

proof fn lemma_fresh(total_slots: nat, now: u64)
    ensures
        filled_bytes(fresh(total_slots, now).slots) == 0,
        fresh(total_slots, now).slots.len() == total_slots,
        fresh(total_slots, now).numas.len() == total_slots,
    decreases total_slots,
{
    if total_slots > 0 {
        lemma_fresh((total_slots - 1) as nat, now);
        assert(fresh(total_slots, now).slots.drop_last() =~= fresh(
            (total_slots - 1) as nat,
            now,
        ).slots);
    }
}

fn hashes_of(blocks: &Vec<(BlockKey, Arc<SealedBlock>)>) -> (r: Vec<Vec<u8>>)
    ensures
        r@.len() == blocks@.len(),
        forall|i: int| 0 <= i < r@.len() ==> (#[trigger] r@[i])@ == blocks@[i].0.hash@,
{
    let mut out: Vec<Vec<u8>> = Vec::new();
    let mut i: usize = 0;
    while i < blocks.len()
        invariant
            i <= blocks@.len(),
            out@.len() == i,
            forall|k: int| 0 <= k < i ==> (#[trigger] out@[k])@ == blocks@[k].0.hash@,
        decreases blocks@.len() - i,
    {
        out.push(copy_bytes(&blocks[i].0.hash));
        i += 1;
    }
    out
}

/// Whether processing a batch turns what is being filled and what is behind it into `after` and
/// `next`, with the report `r`.
pub open spec fn processed(
    before: Map<KeyView, InflightView>,
    deps: Option<InsertDeps>,
    entries: Seq<BatchEntry>,
    total_slots: nat,
    numa: NumaNode,
    now: u64,
    admitted: Seq<bool>,
    after: Map<KeyView, InflightView>,
    next: Option<InsertDeps>,
    r: InsertReport,
) -> bool {
    let run = batch_run(before, entries, resident_entries(deps), total_slots, numa, now);
    let publish = publishes(deps, run.sealed.len());
    &&& after == run.inflight
    &&& sealed_views(r.sealed@) == run.sealed
    &&& r.inflight_bytes_added == run.added
    &&& r.inflight_bytes_removed == run.removed
    &&& r.ordered_fast_path_seals == run.ordered
    &&& r.dropped@ == run.dropped
    &&& r.outcomes@.len() == if publish {
        run.sealed.len()
    } else {
        0
    }
    &&& forall|i: int|
        0 <= i < r.outcomes@.len() ==> #[trigger] r.outcomes@[i] == insert_outcome(
            deps->0.read_cache.entries(),
            entry_views(r.sealed@),
            deps->0.read_cache.policy(),
            admitted,
            i,
        )
    &&& r.ingest_to_ssd == (publish && deps->0.ssd_store)
    &&& r.register_hashes is Some == (publish && deps->0.metaserver_client)
    &&& r.register_hashes matches Some(hashes) ==> {
        &&& hashes@.len() == run.sealed.len()
        &&& forall|i: int|
            0 <= i < hashes@.len() ==> (#[trigger] hashes@[i])@ == run.sealed[i].0.1
    }
    &&& next is Some == deps is Some
    &&& next matches Some(d) ==> {
        &&& d.read_cache.wf()
        &&& d.read_cache.policy() == deps->0.read_cache.policy()
        &&& d.read_cache.entries() == if publish {
            insert_all(
                deps->0.read_cache.entries(),
                entry_views(r.sealed@),
                deps->0.read_cache.policy(),
                admitted,
            )
        } else {
            deps->0.read_cache.entries()
        }
        &&& d.ssd_store == deps->0.ssd_store
        &&& d.metaserver_client == deps->0.metaserver_client
        &&& d.publish_sealed_blocks == deps->0.publish_sealed_blocks
    }
}

/// Whether a block lies under a key.
pub open spec fn is_cached(s: Seq<EntryView>, key: KeyView) -> bool {
    exists|p: int| 0 <= p < s.len() && (#[trigger] s[p]).0 == key
}

/// With publishing on, every block that a batch seals is published, however many it seals: each
/// that the admission policy does not keep out is cached afterwards, what came of each is
/// reported, all are handed to the SSD store where there is one, and all their hashes to the
/// metadata server where there is a client of it. With publishing off, or with nothing behind,
/// none is.
pub proof fn law_sealed_blocks_are_published(
    before: Map<KeyView, InflightView>,
    deps: Option<InsertDeps>,
    entries: Seq<BatchEntry>,
    total_slots: nat,
    numa: NumaNode,
    now: u64,
    admitted: Seq<bool>,
    after: Map<KeyView, InflightView>,
    next: Option<InsertDeps>,
    r: InsertReport,
)
    requires
        processed(before, deps, entries, total_slots, numa, now, admitted, after, next, r),
        deps matches Some(d) ==> d.read_cache.wf(),
    ensures
        deps matches Some(d) ==> d.publish_sealed_blocks ==> {
            let policy = d.read_cache.policy();
            let cached = next->0.read_cache.entries();
            &&& next is Some
            &&& r.outcomes@.len() == r.sealed@.len()
            &&& r.ingest_to_ssd == (d.ssd_store && r.sealed@.len() > 0)
            &&& r.register_hashes is Some == (d.metaserver_client && r.sealed@.len() > 0)
            &&& r.register_hashes matches Some(hashes) ==> {
                &&& hashes@.len() == r.sealed@.len()
                &&& forall|i: int|
                    0 <= i < r.sealed@.len() ==> (#[trigger] hashes@[i])@ == r.sealed@[i].0.hash@
            }
            &&& forall|i: int|
                0 <= i < r.sealed@.len() && (!policy || i >= admitted.len() || admitted[i])
                    ==> is_cached(cached, (#[trigger] r.sealed@[i]).0@)
            &&& forall|p: int|
                0 <= p < d.read_cache.entries().len() ==> cached[p]
                    == #[trigger] d.read_cache.entries()[p]
            &&& forall|i: int|
                0 <= i < r.sealed@.len() && !policy && !is_cached(
                    d.read_cache.entries(),
                    r.sealed@[i].0@,
                ) && (forall|j: int| 0 <= j < i ==> (#[trigger] r.sealed@[j]).0@ != r.sealed@[i].0@)
                    ==> (#[trigger] r.outcomes@[i]) == CacheInsertOutcome::InsertedNew
        },
        deps matches Some(d) ==> !d.publish_sealed_blocks ==> {
            &&& next->0.read_cache.entries() == d.read_cache.entries()
            &&& r.outcomes@.len() == 0
            &&& !r.ingest_to_ssd
            &&& r.register_hashes is None
        },
        deps is None ==> r.outcomes@.len() == 0 && !r.ingest_to_ssd && r.register_hashes is None,
{
    let n = r.sealed@.len();
    assert(sealed_views(r.sealed@).len() == n);
    if deps is Some && deps->0.publish_sealed_blocks {
        let d = deps->0;
        let s = d.read_cache.entries();
        let policy = d.read_cache.policy();
        let list = entry_views(r.sealed@);
        let cached = next->0.read_cache.entries();
        assert forall|i: int| 0 <= i < n implies list[i].0 == (#[trigger] r.sealed@[i]).0@ by {}
        if n > 0 {
            law_blocks_that_are_let_in_are_cached(s, list, policy, admitted);
            assert forall|i: int|
                0 <= i < n && (!policy || i >= admitted.len() || admitted[i]) implies is_cached(
                cached,
                (#[trigger] r.sealed@[i]).0@,
            ) by {
                assert(!kept_out(policy, admitted, i));
                assert(list[i].0 == r.sealed@[i].0@);
                let p = choose|p: int| 0 <= p < cached.len() && (#[trigger] cached[p]).0 == list[i].0;
                assert(cached[p].0 == r.sealed@[i].0@);
            }
            assert forall|p: int| 0 <= p < s.len() implies cached[p] == #[trigger] s[p] by {
                assert(cached.take(s.len() as int)[p] == s[p]);
            }
            assert forall|i: int|
                0 <= i < n && !policy && !is_cached(s, r.sealed@[i].0@) && (forall|j: int|
                    0 <= j < i ==> (#[trigger] r.sealed@[j]).0@
                        != r.sealed@[i].0@) implies (#[trigger] r.outcomes@[i])
                == CacheInsertOutcome::InsertedNew by {
                law_outcomes_tell_what_was_cached(s, list, policy, admitted, i);
                assert(list[i].0 == r.sealed@[i].0@);
                assert forall|j: int| 0 <= j < i implies (#[trigger] list[j]).0 != list[i].0 by {
                    assert(r.sealed@[j].0@ != r.sealed@[i].0@);
                }
            }
        }
        if r.register_hashes is Some {
            let hashes = r.register_hashes->0;
            assert forall|i: int| 0 <= i < n implies (#[trigger] hashes@[i])@
                == r.sealed@[i].0.hash@ by {
                assert(sealed_views(r.sealed@)[i].0 == r.sealed@[i].0@);
            }
        }
    }
}

/// Processes a batch of slots and publishes the blocks that it seals.
///
/// The order within the batch counts: each block is handled against what the
/// blocks before it left. Nothing is published before the whole batch is
/// processed. `admitted` is what the cache's admission policy, where there is
/// one, decided of each block that the batch seals.
pub fn process_insert_batch(
    inflight: &mut Inflight,
    deps: &mut Option<InsertDeps>,
    entries: Vec<(BlockKey, Vec<(usize, RawBlock)>)>,
    total_slots: usize,
    numa_node: NumaNode,
    now: u64,
    admitted: &[bool],
) -> (r: InsertReport)
    requires
        old(inflight).wf(),
        *old(deps) matches Some(d) ==> d.read_cache.wf(),
        forall|i: int|
            0 <= i < entries@.len() ==> slots_in_range(
                (#[trigger] entries@[i]).1@,
                total_slots as nat,
            ),
    ensures
        final(inflight).wf(),
        processed(
            old(inflight).map(),
            *old(deps),
            batch_entries(entries@),
            total_slots as nat,
            numa_node,
            now,
            admitted@,
            final(inflight).map(),
            *final(deps),
            r,
        ),
        *old(deps) matches Some(d) ==> d.publish_sealed_blocks ==> {
            &&& r.outcomes@.len() == r.sealed@.len()
            &&& r.ingest_to_ssd == (d.ssd_store && r.sealed@.len() > 0)
            &&& r.register_hashes is Some == (d.metaserver_client && r.sealed@.len() > 0)
            &&& r.register_hashes matches Some(hashes) ==> hashes@.len() == r.sealed@.len()
                && forall|i: int|
                0 <= i < r.sealed@.len() ==> (#[trigger] hashes@[i])@ == r.sealed@[i].0.hash@
            &&& forall|i: int|
                0 <= i < r.sealed@.len() && (!d.read_cache.policy() || i >= admitted@.len()
                    || admitted@[i]) ==> is_cached(
                    (*final(deps))->0.read_cache.entries(),
                    (#[trigger] r.sealed@[i]).0@,
                )
        },
{
    let ghost map0 = inflight.map();
    let ghost batch = batch_entries(entries@);
    let ghost resident = resident_entries(*deps);
    let mut sealed: Vec<(BlockKey, Arc<SealedBlock>)> = Vec::new();
    let mut added: u64 = 0;
    let mut removed: u64 = 0;
    let mut dropped: Vec<RawBlock> = Vec::new();
    let mut ordered: usize = 0;
    proof {
        assert(batch.take(0) =~= Seq::<BatchEntry>::empty());
        assert(sealed_views(sealed@) =~= Seq::<(KeyView, SealedView)>::empty());
        inflight.lemma_numas();
    }
    let count: usize = entries.len();
    for entry in it: entries
        invariant
            it.seq() == entries@,
            batch == batch_entries(entries@),
            count == entries@.len(),
            ordered <= it.index(),
            inflight.wf(),
            *deps == *old(deps),
            resident == resident_entries(*deps),
            *deps matches Some(d) ==> d.read_cache.wf(),
            forall|i: int|
                0 <= i < entries@.len() ==> slots_in_range(
                    (#[trigger] entries@[i]).1@,
                    total_slots as nat,
                ),
            forall|k: KeyView| #[trigger]
                inflight.map().contains_key(k) ==> inflight.map()[k].numas.len()
                    == inflight.map()[k].slots.len(),
            batch_run(
                map0,
                batch.take(it.index()),
                resident,
                total_slots as nat,
                numa_node,
                now,
            ) == (BatchView {
                inflight: inflight.map(),
                sealed: sealed_views(sealed@),
                added: added as nat,
                removed: removed as nat,
                ordered: ordered as nat,
                dropped: dropped@,
            }),
    {
        let ghost k = it.index();
        let ghost st = batch_run(
            map0,
            batch.take(k),
            resident,
            total_slots as nat,
            numa_node,
            now,
        );
        let ghost view = batch[k];
        proof {
            assert(slots_in_range(entries@[k].1@, total_slots as nat));
            assert(view == (entries@[k].0@, entries@[k].1@));
            assert(batch.take(k + 1).drop_last() =~= batch.take(k));
            assert(batch.take(k + 1).last() == view);
            lemma_numas_after_step(st, view, resident, total_slots as nat, numa_node, now);
            lemma_fresh(total_slots as nat, now);
        }
        let (key, slots): (BlockKey, Vec<(usize, RawBlock)>) = entry;
        let is_resident: bool = match deps {
            Some(d) => d.read_cache.contains_key(&key),
            None => false,
        };
        if is_resident {
            drop_slots(slots, &mut dropped);
        } else {
            let waiting: bool = inflight.find(&key).is_some();
            if waiting {
                inflight.insert_partial_slots(
                    key,
                    slots,
                    total_slots,
                    numa_node,
                    now,
                    &mut sealed,
                    &mut added,
                    &mut removed,
                    &mut dropped,
                    Ghost(ordered as nat),
                );
            } else {
                match SealedBlock::from_ordered_slot_inserts(slots, total_slots, numa_node, now) {
                    Ok(done) => {
                        let ghost sealed0 = sealed_views(sealed@);
                        assert(done@ =~= sealed_in_order(view.1, numa_node, now));
                        sealed.push((key, Arc::new(done)));
                        assert(sealed_views(sealed@) =~= sealed0.push((view.0, done@)));
                        ordered += 1;
                    },
                    Err(back) => {
                        inflight.insert_partial_slots(
                            key,
                            back,
                            total_slots,
                            numa_node,
                            now,
                            &mut sealed,
                            &mut added,
                            &mut removed,
                            &mut dropped,
                            Ghost(ordered as nat),
                        );
                    },
                }
            }
        }
    }
    assert(batch.take(batch.len() as int) =~= batch);
    let mut report: InsertReport = InsertReport {
        ordered_fast_path_seals: ordered,
        inflight_bytes_added: added,
        inflight_bytes_removed: removed,
        sealed,
        outcomes: Vec::new(),
        ingest_to_ssd: false,
        register_hashes: None,
        dropped,
    };
    if report.sealed.len() > 0 {
        match deps {
            Some(d) => {
                if d.publish_sealed_blocks {
                    report.outcomes = d.read_cache.batch_insert_refs(&report.sealed, admitted);
                    report.ingest_to_ssd = d.ssd_store;
                    if d.metaserver_client {
                        report.register_hashes = Some(hashes_of(&report.sealed));
                    }
                }
            },
            None => {},
        }
    }
    proof {
        law_sealed_blocks_are_published(
            map0,
            *old(deps),
            batch,
            total_slots as nat,
            numa_node,
            now,
            admitted@,
            inflight.map(),
            *deps,
            report,
        );
    }
    report
}

impl Inflight {
    /// Every block has a NUMA node for each of its slots.
    proof fn lemma_numas(&self)
        requires
            self.wf(),
        ensures
            forall|k: KeyView| #[trigger]
                self.map().contains_key(k) ==> self.map()[k].numas.len()
                    == self.map()[k].slots.len(),
    {
        assert forall|k: KeyView| #[trigger] self.map().contains_key(k) implies self.map()[k]
            .numas.len() == self.map()[k].slots.len() by {
            let i = place(self.entries(), k);
            assert(is_entry(self.entries(), k, i));
            assert(self.entries()[i] == (self.blocks@[i].0@, self.blocks@[i].1@));
        }
    }
}

/// How old a block is at the time `now`.
pub open spec fn age_at(v: InflightView, now: u64) -> int {
    if now < v.created_at {
        0
    } else {
        now - v.created_at
    }
}

/// Whether a block is not older than `max_age`.
pub open spec fn young(e: (KeyView, InflightView), max_age: u64, now: u64) -> bool {
    age_at(e.1, now) <= max_age
}

/// The entries that are not older than `max_age`, in order.
pub open spec fn survivors(s: Seq<(KeyView, InflightView)>, max_age: u64, now: u64) -> Seq<
    (KeyView, InflightView),
>
    decreases s.len(),
{
    if s.len() == 0 {
        s
    } else {
        let front = survivors(s.drop_last(), max_age, now);
        if young(s.last(), max_age, now) {
            front.push(s.last())
        } else {
            front
        }
    }
}

/// The bytes of the entries that are older than `max_age`.
pub open spec fn stale_bytes(s: Seq<(KeyView, InflightView)>, max_age: u64, now: u64) -> nat
    decreases s.len(),
{
    if s.len() == 0 {
        0
    } else {
        stale_bytes(s.drop_last(), max_age, now) + if young(s.last(), max_age, now) {
            0
        } else {
            filled_bytes(s.last().1.slots)
        }
    }
}

proof fn lemma_survivors(s: Seq<(KeyView, InflightView)>, max_age: u64, now: u64)
    requires
        unique_keys(s),
    ensures
        unique_keys(survivors(s, max_age, now)),
        survivors(s, max_age, now).len() <= s.len(),
        forall|k: KeyView| #[trigger]
            has_key(survivors(s, max_age, now), k) ==> has_key(s, k),
        as_map(survivors(s, max_age, now)) == as_map(s).restrict(
            Set::new(
                |k: KeyView|
                    as_map(s).contains_key(k) && age_at(as_map(s)[k], now) <= max_age,
            ),
        ),
    decreases s.len(),
{
    let t = survivors(s, max_age, now);
    let keep = Set::new(
        |k: KeyView| as_map(s).contains_key(k) && age_at(as_map(s)[k], now) <= max_age,
    );
    if s.len() == 0 {
        assert(as_map(t) =~= as_map(s).restrict(keep));
    } else {
        let front = s.drop_last();
        let rest = survivors(front, max_age, now);
        let last = s.last();
        assert(s =~= front.push(last));
        assert forall|i: int, j: int|
            0 <= i < front.len() && 0 <= j < front.len() && (#[trigger] front[i]).0 == (
            #[trigger] front[j]).0 implies i == j by {
            assert(s[i].0 == s[j].0);
        }
        lemma_survivors(front, max_age, now);
        assert(!has_key(front, last.0)) by {
            if has_key(front, last.0) {
                let i = place(front, last.0);
                assert(is_entry(front, last.0, i));
                assert(s[i].0 == s[s.len() - 1].0);
            }
        }
        assert(!has_key(rest, last.0));
        lemma_push(front, last.0, last.1);
        if young(last, max_age, now) {
            lemma_push(rest, last.0, last.1);
        }
        assert(front.push((last.0, last.1)) =~= s);
        assert(as_map(s) == as_map(front).insert(last.0, last.1));
        assert(!as_map(front).contains_key(last.0));
        assert(as_map(t) =~= as_map(s).restrict(keep));
        assert forall|k: KeyView| #[trigger] has_key(t, k) implies has_key(s, k) by {
            assert(as_map(t).contains_key(k));
            assert(as_map(s).contains_key(k));
        }
    }
}

/// What the entries that are older than `max_age` hold, in order.
pub open spec fn stale_slots(s: Seq<(KeyView, InflightView)>, max_age: u64, now: u64) -> Seq<
    RawBlock,
>
    decreases s.len(),
{
    if s.len() == 0 {
        Seq::empty()
    } else {
        let front = stale_slots(s.drop_last(), max_age, now);
        if young(s.last(), max_age, now) {
            front
        } else {
            front + filled_blocks(s.last().1.slots)
        }
    }
}

/// What a collection of stale blocks came to.
#[derive(Debug)]
pub struct GcReport {
    /// How many blocks were dropped.
    pub cleaned: usize,
    /// How many bytes they held.
    pub bytes: u64,
    /// What they held: its memory is free again.
    pub dropped: Vec<RawBlock>,
}

/// Drops the blocks that have been filling for longer than `max_age`.
pub fn gc_inflight(inflight: &mut Inflight, max_age: u64, now: u64) -> (r: GcReport)
    requires
        old(inflight).wf(),
    ensures
        final(inflight).wf(),
        final(inflight).entries() == survivors(old(inflight).entries(), max_age, now),
        final(inflight).map() == old(inflight).map().restrict(
            Set::new(
                |k: KeyView|
                    old(inflight).map().contains_key(k) && age_at(old(inflight).map()[k], now)
                        <= max_age,
            ),
        ),
        r.cleaned == old(inflight).entries().len() - final(inflight).entries().len(),
        r.bytes == capped(stale_bytes(old(inflight).entries(), max_age, now)),
        r.dropped@ == stale_slots(old(inflight).entries(), max_age, now),
{
    let ghost before = inflight.entries();
    let count: usize = inflight.blocks.len();
    let mut blocks: Vec<(BlockKey, InflightBlock)> = Vec::new();
    std::mem::swap(&mut blocks, &mut inflight.blocks);
    let ghost all = blocks@;
    let mut kept: Vec<(BlockKey, InflightBlock)> = Vec::new();
    let mut dropped: Vec<RawBlock> = Vec::new();
    let mut bytes: u64 = 0;
    proof {
        assert(before == inflight_views(all));
        assert(inflight_views(kept@) =~= Seq::<(KeyView, InflightView)>::empty());
        assert(before.take(0) =~= Seq::<(KeyView, InflightView)>::empty());
    }
    for block in it: blocks
        invariant
            it.seq() == all,
            before == inflight_views(all),
            count == all.len(),
            forall|i: int|
                0 <= i < all.len() ==> (#[trigger] all[i]).1.wf() && !all_filled(all[i].1.slots())
                    && all[i].1.numas().len() == all[i].1.slots().len(),
            forall|i: int|
                0 <= i < kept@.len() ==> (#[trigger] kept@[i]).1.wf() && !all_filled(
                    kept@[i].1.slots(),
                ) && kept@[i].1.numas().len() == kept@[i].1.slots().len(),
            kept@.len() <= it.index(),
            inflight_views(kept@) == survivors(before.take(it.index()), max_age, now),
            bytes == capped(stale_bytes(before.take(it.index()), max_age, now)),
            dropped@ == stale_slots(before.take(it.index()), max_age, now),
    {
        let ghost k = it.index();
        let ghost shown = inflight_views(kept@);
        proof {
            assert(all[k].1.wf());
            assert(before[k] == (all[k].0@, all[k].1@));
            assert(before.take(k + 1).drop_last() =~= before.take(k));
            assert(before.take(k + 1).last() == before[k]);
        }
        if block.1.age(now) > max_age {
            bytes = bytes.saturating_add(block.1.footprint());
            let mut held: Vec<RawBlock> = block.1.into_filled();
            dropped.append(&mut held);
        } else {
            kept.push(block);
            assert(inflight_views(kept@) =~= shown.push(before[k]));
        }
    }
    proof {
        assert(before.take(before.len() as int) =~= before);
        lemma_survivors(before, max_age, now);
    }
    let left: usize = kept.len();
    inflight.blocks = kept;
    GcReport { cleaned: count - left, bytes, dropped }
}

/// Whether a slot with number `i` is among `slots`.
pub open spec fn offers(slots: Seq<(usize, RawBlock)>, i: int) -> bool {
    exists|j: int| 0 <= j < slots.len() && (#[trigger] slots[j]).0 == i
}

/// A slot is filled after `slots` were offered exactly if it was filled before
/// or is among them; a slot that was filled before keeps its block.
pub proof fn law_slots_are_filled_once(
    v: InflightView,
    slots: Seq<(usize, RawBlock)>,
    numa: NumaNode,
    i: int,
)
    requires
        slots_in_range(slots, v.slots.len()),
        v.numas.len() == v.slots.len(),
        0 <= i < v.slots.len(),
    ensures
        fill(v, slots, numa).slots[i] is Some <==> v.slots[i] is Some || offers(slots, i),
        v.slots[i] is Some ==> fill(v, slots, numa).slots[i] == v.slots[i]
            && fill(v, slots, numa).numas[i] == v.numas[i],
    decreases slots.len(),
{
    if slots.len() > 0 {
        let front = slots.drop_last();
        assert forall|j: int| 0 <= j < front.len() implies (#[trigger] front[j]).0
            < v.slots.len() by {
            assert(slots[j].0 < v.slots.len());
        }
        law_slots_are_filled_once(v, front, numa, i);
        lemma_fill_slots(v, front, numa);
        assert(slots[slots.len() - 1].0 < v.slots.len());
        if offers(front, i) {
            let j = choose|j: int| 0 <= j < front.len() && (#[trigger] front[j]).0 == i;
            assert(slots[j].0 == i);
        }
        if offers(slots, i) && slots.last().0 != i {
            let j = choose|j: int| 0 <= j < slots.len() && (#[trigger] slots[j]).0 == i;
            assert(front[j].0 == i);
        }
        if slots.last().0 == i {
            assert(slots[slots.len() - 1].0 == i);
        }
    }
}

/// A new block is sealed by a batch of slots exactly if each of its slot numbers
/// is among them.
pub proof fn law_sealed_once_every_slot_arrived(
    total_slots: nat,
    slots: Seq<(usize, RawBlock)>,
    numa: NumaNode,
    now: u64,
)
    requires
        slots_in_range(slots, total_slots),
    ensures
        all_filled(fill(fresh(total_slots, now), slots, numa).slots) <==> forall|i: int|
            0 <= i < total_slots ==> offers(slots, i),
{
    let v = fresh(total_slots, now);
    lemma_fresh(total_slots, now);
    lemma_fill_slots(v, slots, numa);
    let w = fill(v, slots, numa);
    assert forall|i: int| 0 <= i < total_slots implies (#[trigger] w.slots[i] is Some <==> offers(
        slots,
        i,
    )) by {
        law_slots_are_filled_once(v, slots, numa, i);
    }
    if all_filled(w.slots) {
        assert forall|i: int| 0 <= i < total_slots implies offers(slots, i) by {
            assert(w.slots[i] is Some);
        }
    }
}

/// Offering the same slots again changes nothing.
pub proof fn law_refilling_changes_nothing(
    v: InflightView,
    slots: Seq<(usize, RawBlock)>,
    numa: NumaNode,
)
    requires
        slots_in_range(slots, v.slots.len()),
        v.numas.len() == v.slots.len(),
    ensures
        fill(fill(v, slots, numa), slots, numa) == fill(v, slots, numa),
{
    let w = fill(v, slots, numa);
    lemma_fill_slots(v, slots, numa);
    assert forall|i: int| 0 <= i < slots.len() implies w.slots[(#[trigger] slots[i]).0 as int]
        is Some by {
        law_slots_are_filled_once(v, slots, numa, slots[i].0 as int);
        assert(offers(slots, slots[i].0 as int));
    }
    lemma_filled_slots_stay(w, slots, numa);
}

proof fn lemma_filled_slots_stay(w: InflightView, slots: Seq<(usize, RawBlock)>, numa: NumaNode)
    requires
        forall|i: int|
            0 <= i < slots.len() ==> w.slots[(#[trigger] slots[i]).0 as int] is Some,
    ensures
        fill(w, slots, numa) == w,
    decreases slots.len(),
{
    if slots.len() > 0 {
        let front = slots.drop_last();
        assert forall|i: int| 0 <= i < front.len() implies w.slots[(#[trigger]
        front[i]).0 as int] is Some by {
            assert(slots[i].0 == front[i].0);
        }
        lemma_filled_slots_stay(w, front, numa);
        assert(w.slots[slots[slots.len() - 1].0 as int] is Some);
    }
}

proof fn lemma_filled_update(slots: Seq<Option<RawBlock>>, i: int, raw: RawBlock)
    requires
        0 <= i < slots.len(),
        slots[i] is None,
    ensures
        filled_blocks(slots.update(i, Some(raw))).to_multiset() == filled_blocks(
            slots,
        ).to_multiset().insert(raw),
    decreases slots.len(),
{
    broadcast use vstd::seq_lib::group_to_multiset_ensures;

    let front = slots.drop_last();
    let more = slots.update(i, Some(raw));
    if i == slots.len() - 1 {
        assert(more.drop_last() =~= front);
    } else {
        lemma_filled_update(front, i, raw);
        assert(more.drop_last() =~= front.update(i, Some(raw)));
        assert(more.last() == slots.last());
        if slots.last() is Some {
            let last = slots.last()->0;
            assert(filled_blocks(front).to_multiset().insert(raw).insert(last) =~= filled_blocks(
                front,
            ).to_multiset().insert(last).insert(raw));
        }
    }
}

/// Nothing that is offered to a block is lost: it is taken up or handed back.
pub proof fn law_every_slot_is_kept_or_dropped(
    v: InflightView,
    slots: Seq<(usize, RawBlock)>,
    numa: NumaNode,
)
    requires
        slots_in_range(slots, v.slots.len()),
        v.numas.len() == v.slots.len(),
    ensures
        filled_blocks(fill(v, slots, numa).slots).to_multiset().add(
            spurned(v, slots, numa).to_multiset(),
        ) == filled_blocks(v.slots).to_multiset().add(inserted_blocks(slots).to_multiset()),
    decreases slots.len(),
{
    broadcast use vstd::seq_lib::group_to_multiset_ensures;

    let held = filled_blocks(v.slots).to_multiset();
    if slots.len() == 0 {
        assert(inserted_blocks(slots) =~= Seq::<RawBlock>::empty());
    } else {
        let front = slots.drop_last();
        let last = slots.last();
        assert forall|j: int| 0 <= j < front.len() implies (#[trigger] front[j]).0
            < v.slots.len() by {
            assert(slots[j].0 < v.slots.len());
        }
        law_every_slot_is_kept_or_dropped(v, front, numa);
        lemma_fill_slots(v, front, numa);
        assert(slots[slots.len() - 1].0 < v.slots.len());
        let w = fill(v, front, numa);
        let kept = filled_blocks(w.slots).to_multiset();
        let back = spurned(v, front, numa).to_multiset();
        let given = inserted_blocks(front).to_multiset();
        assert(inserted_blocks(slots) =~= inserted_blocks(front).push(last.1));
        assert(held.add(given.insert(last.1)) =~= held.add(given).insert(last.1));
        if w.slots[last.0 as int] is Some {
            assert(kept.add(back.insert(last.1)) =~= kept.add(back).insert(last.1));
        } else {
            lemma_filled_update(w.slots, last.0 as int, last.1);
            assert(kept.insert(last.1).add(back) =~= kept.add(back).insert(last.1));
        }
    }
}

/// Sealing slots that come complete and in order at once gives the block that
/// offering them one by one gives.
pub proof fn law_ordered_path_agrees(slots: Seq<(usize, RawBlock)>, numa: NumaNode, now: u64)
    requires
        complete_in_order(slots, slots.len()),
    ensures
        all_filled(fill(fresh(slots.len(), now), slots, numa).slots),
        sealed_from(fill(fresh(slots.len(), now), slots, numa), now) == sealed_in_order(
            slots,
            numa,
            now,
        ),
{
    let n = slots.len();
    lemma_fill_in_order(slots, slots.len() as int, numa, now);
    assert(slots.take(n as int) =~= slots);
    let w = fill(fresh(n, now), slots, numa);
    assert forall|i: int| 0 <= i < n implies #[trigger] w.slots[i] == Some(slots[i].1)
        && w.numas[i] == numa by {}
    assert forall|i: int| 0 <= i < n implies #[trigger] w.numas[i] == numa by {
        assert(w.slots[i] == Some(slots[i].1));
    }
    assert(unwrapped(w.slots) =~= inserted_blocks(slots));
    assert(w.numas =~= Seq::new(n, |i: int| numa));
    crate::block::lemma_unwrapped_bytes(w.slots);
    assert(sealed_from(w, now) =~= sealed_in_order(slots, numa, now));
}

proof fn lemma_fill_in_order(slots: Seq<(usize, RawBlock)>, k: int, numa: NumaNode, now: u64)
    requires
        complete_in_order(slots, slots.len()),
        0 <= k <= slots.len(),
    ensures
        ({
            let w = fill(fresh(slots.len(), now), slots.take(k), numa);
            &&& w.slots.len() == slots.len()
            &&& w.numas.len() == slots.len()
            &&& forall|i: int|
                0 <= i < k ==> #[trigger] w.slots[i] == Some(slots[i].1) && w.numas[i] == numa
            &&& forall|i: int| k <= i < slots.len() ==> #[trigger] w.slots[i] is None
        }),
    decreases k,
{
    if k > 0 {
        lemma_fill_in_order(slots, k - 1, numa, now);
        assert(slots.take(k).drop_last() =~= slots.take(k - 1));
        assert(slots.take(k).last() == slots[k - 1]);
        assert(slots[k - 1].0 == k - 1);
    }
}

/// The first block among `slots` for slot `i`.
pub open spec fn first_in(slots: Seq<(usize, RawBlock)>, i: int) -> Option<RawBlock>
    decreases slots.len(),
{
    if slots.len() == 0 {
        None
    } else if first_in(slots.drop_last(), i) is Some {
        first_in(slots.drop_last(), i)
    } else if slots.last().0 == i {
        Some(slots.last().1)
    } else {
        None
    }
}

proof fn lemma_fill_takes_the_first(
    v: InflightView,
    slots: Seq<(usize, RawBlock)>,
    numa: NumaNode,
    i: int,
)
    requires
        slots_in_range(slots, v.slots.len()),
        v.numas.len() == v.slots.len(),
        0 <= i < v.slots.len(),
    ensures
        fill(v, slots, numa).slots[i] == if v.slots[i] is Some {
            v.slots[i]
        } else {
            first_in(slots, i)
        },
        fill(v, slots, numa).numas[i] == if v.slots[i] is None && first_in(slots, i) is Some {
            numa
        } else {
            v.numas[i]
        },
    decreases slots.len(),
{
    if slots.len() > 0 {
        let front = slots.drop_last();
        assert forall|j: int| 0 <= j < front.len() implies (#[trigger] front[j]).0
            < v.slots.len() by {
            assert(slots[j].0 < v.slots.len());
        }
        lemma_fill_takes_the_first(v, front, numa, i);
        lemma_fill_slots(v, front, numa);
        assert(slots[slots.len() - 1].0 < v.slots.len());
    }
}

/// A batch that was saved: its blocks, what the cache's admission policy, where there is one,
/// decided of each block that it seals, and what processing it has led to.
pub struct SavedBatch {
    pub entries: Seq<BatchEntry>,
    pub total_slots: nat,
    pub numa: NumaNode,
    pub now: u64,
    pub admitted: Seq<bool>,
    /// What is being filled right after the batch.
    pub after: Map<KeyView, InflightView>,
    /// What is behind, right after the batch.
    pub deps: Option<InsertDeps>,
    pub report: InsertReport,
}

/// What is being filled, and what is behind.
pub struct SaveState {
    pub inflight: Map<KeyView, InflightView>,
    pub deps: InsertDeps,
}

impl SaveState {
    /// What is cached.
    pub open spec fn resident(self) -> Seq<EntryView> {
        self.deps.read_cache.entries()
    }

    /// Whether the cache has an admission policy.
    pub open spec fn policy(self) -> bool {
        self.deps.read_cache.policy()
    }
}

/// What a batch comes to in a state.
pub open spec fn run_of(st: SaveState, b: SavedBatch) -> BatchView {
    batch_run(st.inflight, b.entries, st.resident(), b.total_slots, b.numa, b.now)
}

/// Whether a batch names `key` at place `i`.
pub open spec fn names_at(b: SavedBatch, key: KeyView, i: int) -> bool {
    0 <= i < b.entries.len() && b.entries[i].0 == key
}

/// Whether a batch names `key`.
pub open spec fn names(b: SavedBatch, key: KeyView) -> bool {
    exists|i: int| names_at(b, key, i)
}

/// The slots that a batch brings for `key`.
pub open spec fn slots_for(b: SavedBatch, key: KeyView) -> Seq<(usize, RawBlock)> {
    if names(b, key) {
        b.entries[choose|i: int| names_at(b, key, i)].1
    } else {
        Seq::empty()
    }
}

/// Whether a batch brings slots of a block with `n` slots, names `key` once at most, and lets
/// the block of `key` into the cache if it seals it.
pub open spec fn fits_key(st: SaveState, b: SavedBatch, key: KeyView, n: nat) -> bool {
    &&& forall|i: int, j: int|
        #[trigger] names_at(b, key, i) && #[trigger] names_at(b, key, j) ==> i == j
    &&& names(b, key) ==> b.total_slots == n && forall|i: int|
        0 <= i < slots_for(b, key).len() ==> (#[trigger] slots_for(b, key)[i]).0 < n
    &&& forall|p: int|
        0 <= p < b.report.sealed@.len() && (#[trigger] b.report.sealed@[p]).0@ == key
            ==> !st.policy() || p >= b.admitted.len() || b.admitted[p]
}

/// Whether processing a batch leads from `st` to `next`, as far as `key` is concerned. Whatever
/// happens to other keys before the next batch, and in which order blocks are used, is left open.
pub open spec fn saves_key(st: SaveState, next: SaveState, b: SavedBatch, key: KeyView) -> bool {
    &&& processed(
        st.inflight,
        Some(st.deps),
        b.entries,
        b.total_slots,
        b.numa,
        b.now,
        b.admitted,
        b.after,
        b.deps,
        b.report,
    )
    &&& unique_keys(next.resident())
    &&& lookup(next.resident(), key) == lookup(b.deps->0.read_cache.entries(), key)
    &&& next.inflight.contains_key(key) == b.after.contains_key(key)
    &&& next.inflight.contains_key(key) ==> next.inflight[key] == b.after[key]
}

/// Whether a batch whose sealed blocks are all put into the cache leads from `st` to `next`, as
/// far as `key` is concerned.
spec fn publishes_key(st: SaveState, next: SaveState, b: SavedBatch, key: KeyView) -> bool {
    let run = run_of(st, b);
    let cached = insert_all(
        st.resident(),
        entry_views(b.report.sealed@),
        st.policy(),
        b.admitted,
    );
    &&& sealed_views(b.report.sealed@) == run.sealed
    &&& unique_keys(next.resident())
    &&& lookup(next.resident(), key) == lookup(cached, key)
    &&& next.inflight.contains_key(key) == run.inflight.contains_key(key)
    &&& next.inflight.contains_key(key) ==> next.inflight[key] == run.inflight[key]
}

proof fn lemma_batch_is_published(st: SaveState, next: SaveState, b: SavedBatch, key: KeyView)
    requires
        saves_key(st, next, b, key),
        st.deps.publish_sealed_blocks,
    ensures
        publishes_key(st, next, b, key),
{
    assert(sealed_views(b.report.sealed@).len() == b.report.sealed@.len());
}

/// The block that was delivered first for slot `i` of `key` by the first `m` batches, and the
/// NUMA node of its batch.
pub open spec fn first_delivery(
    batches: Seq<SavedBatch>,
    key: KeyView,
    m: int,
    i: int,
) -> Option<(RawBlock, NumaNode)>
    decreases m,
{
    if m <= 0 {
        None
    } else if first_delivery(batches, key, m - 1, i) is Some {
        first_delivery(batches, key, m - 1, i)
    } else {
        match first_in(slots_for(batches[m - 1], key), i) {
            Some(raw) => Some((raw, batches[m - 1].numa)),
            None => None,
        }
    }
}

/// Whether every slot of `key` was delivered by the first `m` batches.
pub open spec fn all_delivered(batches: Seq<SavedBatch>, key: KeyView, n: nat, m: int) -> bool {
    forall|i: int| 0 <= i < n ==> (#[trigger] first_delivery(batches, key, m, i)) is Some
}

/// Whether slots are filled with what was delivered first for each of them, and no others.
pub open spec fn holds_deliveries(
    slots: Seq<Option<RawBlock>>,
    numas: Seq<NumaNode>,
    batches: Seq<SavedBatch>,
    key: KeyView,
    n: nat,
    m: int,
) -> bool {
    &&& slots.len() == n
    &&& numas.len() == n
    &&& forall|i: int|
        0 <= i < n ==> match first_delivery(batches, key, m, i) {
            Some((raw, numa)) => #[trigger] slots[i] == Some(raw) && numas[i] == numa,
            None => slots[i] is None && numas[i] == NumaNode(UNKNOWN_NODE),
        }
}

/// Whether the first `m` batches name `key`.
pub open spec fn named_by(batches: Seq<SavedBatch>, key: KeyView, m: int) -> bool {
    exists|j: int| 0 <= j < m && names(#[trigger] batches[j], key)
}

/// How it stands with `key` after `m` batches: once all slots were delivered, a block is cached
/// that holds the first delivery of each; before that, nothing is cached, and exactly what was
/// delivered is held by a block that is being filled, from the first batch on that names the
/// key.
pub open spec fn stands_at(
    st: SaveState,
    batches: Seq<SavedBatch>,
    key: KeyView,
    n: nat,
    m: int,
) -> bool {
    if all_delivered(batches, key, n, m) {
        &&& !st.inflight.contains_key(key)
        &&& lookup(st.resident(), key) matches Some(block) && block@.blocks.len() == n
            && block@.numas.len() == n && forall|i: int|
            0 <= i < n ==> Some((#[trigger] block@.blocks[i], block@.numas[i])) == first_delivery(
                batches,
                key,
                m,
                i,
            )
    } else {
        &&& !has_key(st.resident(), key)
        &&& st.inflight.contains_key(key) == named_by(batches, key, m)
        &&& st.inflight.contains_key(key) ==> holds_deliveries(
            st.inflight[key].slots,
            st.inflight[key].numas,
            batches,
            key,
            n,
            m,
        )
    }
}

proof fn lemma_batch_of_others(
    inflight: Map<KeyView, InflightView>,
    entries: Seq<BatchEntry>,
    resident: Seq<EntryView>,
    total_slots: nat,
    numa: NumaNode,
    now: u64,
    key: KeyView,
)
    requires
        has_key(resident, key) || forall|j: int|
            0 <= j < entries.len() ==> (#[trigger] entries[j]).0 != key,
    ensures
        ({
            let run = batch_run(inflight, entries, resident, total_slots, numa, now);
            &&& run.inflight.contains_key(key) == inflight.contains_key(key)
            &&& inflight.contains_key(key) ==> run.inflight[key] == inflight[key]
            &&& forall|p: int| 0 <= p < run.sealed.len() ==> (#[trigger] run.sealed[p]).0 != key
        }),
    decreases entries.len(),
{
    if entries.len() > 0 {
        let front = entries.drop_last();
        if !has_key(resident, key) {
            assert forall|j: int| 0 <= j < front.len() implies (#[trigger] front[j]).0 != key by {
                assert(entries[j].0 != key);
            }
            assert(entries[entries.len() - 1].0 != key);
        }
        lemma_batch_of_others(inflight, front, resident, total_slots, numa, now, key);
    }
}

/// Whether place `p` alone holds a block that was sealed for `key`, made of `v`.
spec fn sealed_once(
    sealed: Seq<(KeyView, SealedView)>,
    key: KeyView,
    v: InflightView,
    p: int,
) -> bool {
    &&& 0 <= p < sealed.len()
    &&& sealed[p].0 == key
    &&& sealed[p].1.blocks == unwrapped(v.slots)
    &&& sealed[p].1.numas == v.numas
    &&& forall|q: int| 0 <= q < sealed.len() && q != p ==> (#[trigger] sealed[q]).0 != key
}

/// What a batch that names a key once comes to for that key.
spec fn key_outcome(run: BatchView, key: KeyView, v: InflightView) -> bool {
    if all_filled(v.slots) {
        &&& !run.inflight.contains_key(key)
        &&& exists|p: int| #[trigger] sealed_once(run.sealed, key, v, p)
    } else {
        &&& run.inflight.contains_key(key)
        &&& run.inflight[key] == v
        &&& forall|p: int| 0 <= p < run.sealed.len() ==> (#[trigger] run.sealed[p]).0 != key
    }
}

proof fn lemma_key_outcome(
    inflight: Map<KeyView, InflightView>,
    entries: Seq<BatchEntry>,
    resident: Seq<EntryView>,
    total_slots: nat,
    numa: NumaNode,
    now: u64,
    i: int,
)
    requires
        0 <= i < entries.len(),
        forall|j: int|
            0 <= j < entries.len() && j != i ==> (#[trigger] entries[j]).0 != entries[i].0,
        !has_key(resident, entries[i].0),
        inflight.contains_key(entries[i].0) ==> inflight[entries[i].0].slots.len() == total_slots
            && inflight[entries[i].0].numas.len() == total_slots,
        slots_in_range(entries[i].1, total_slots),
    ensures
        key_outcome(
            batch_run(inflight, entries, resident, total_slots, numa, now),
            entries[i].0,
            fill(target(inflight, entries[i].0, total_slots, now), entries[i].1, numa),
        ),
    decreases entries.len(),
{
    let key = entries[i].0;
    let front = entries.drop_last();
    let last = entries.last();
    let st = batch_run(inflight, front, resident, total_slots, numa, now);
    let all = batch_run(inflight, entries, resident, total_slots, numa, now);
    let before = target(inflight, key, total_slots, now);
    let v = fill(before, entries[i].1, numa);
    if i < entries.len() - 1 {
        assert forall|j: int| 0 <= j < front.len() && j != i implies (#[trigger] front[j]).0
            != front[i].0 by {
            assert(entries[j].0 != entries[i].0);
        }
        lemma_key_outcome(inflight, front, resident, total_slots, numa, now, i);
        assert(entries[entries.len() - 1].0 != key);
        assert forall|q: int| 0 <= q < all.sealed.len() && q >= st.sealed.len() implies (
        #[trigger] all.sealed[q]).0 != key by {}
        if all_filled(v.slots) {
            let p = choose|p: int| #[trigger] sealed_once(st.sealed, key, v, p);
            assert forall|q: int| 0 <= q < all.sealed.len() && q != p implies (
            #[trigger] all.sealed[q]).0 != key by {
                if q < st.sealed.len() {
                    assert(all.sealed[q] == st.sealed[q]);
                }
            }
            assert(sealed_once(all.sealed, key, v, p));
        } else {
            assert forall|q: int| 0 <= q < all.sealed.len() implies (#[trigger] all.sealed[q]).0
                != key by {
                if q < st.sealed.len() {
                    assert(all.sealed[q] == st.sealed[q]);
                }
            }
        }
    } else {
        assert forall|j: int| 0 <= j < front.len() implies (#[trigger] front[j]).0 != key by {
            assert(entries[j].0 != entries[i].0);
        }
        lemma_batch_of_others(inflight, front, resident, total_slots, numa, now, key);
        lemma_fresh(total_slots, now);
        lemma_fill_slots(before, entries[i].1, numa);
        assert(target(st.inflight, key, total_slots, now) == before);
        let p = st.sealed.len() as int;
        if !st.inflight.contains_key(key) && complete_in_order(last.1, total_slots) {
            lemma_fill_in_order(last.1, last.1.len() as int, numa, now);
            assert(last.1.take(last.1.len() as int) =~= last.1);
            assert forall|k: int| 0 <= k < total_slots implies #[trigger] v.slots[k] == Some(
                last.1[k].1,
            ) && v.numas[k] == numa by {}
            assert(all_filled(v.slots));
            assert(unwrapped(v.slots) =~= inserted_blocks(last.1));
            assert forall|k: int| 0 <= k < total_slots implies #[trigger] v.numas[k] == numa by {
                assert(v.slots[k] == Some(last.1[k].1));
            }
            assert(v.numas =~= Seq::new(last.1.len(), |k: int| numa));
        }
        if all_filled(v.slots) {
            assert forall|q: int| 0 <= q < all.sealed.len() && q != p implies (
            #[trigger] all.sealed[q]).0 != key by {
                assert(all.sealed[q] == st.sealed[q]);
            }
            assert(sealed_once(all.sealed, key, v, p));
        }
    }
}

proof fn lemma_named_slots(st: SaveState, b: SavedBatch, key: KeyView, n: nat, i: int)
    requires
        fits_key(st, b, key, n),
        names_at(b, key, i),
    ensures
        slots_for(b, key) == b.entries[i].1,
        names(b, key),
        b.total_slots == n,
        slots_in_range(b.entries[i].1, n),
        forall|j: int| 0 <= j < b.entries.len() && j != i ==> (#[trigger] b.entries[j]).0 != key,
{
    let c = choose|c: int| names_at(b, key, c);
    assert(names_at(b, key, c));
    assert forall|j: int| 0 <= j < b.entries.len() && j != i implies (#[trigger] b.entries[j]).0
        != key by {
        if b.entries[j].0 == key {
            assert(names_at(b, key, j));
        }
    }
}

proof fn lemma_nothing_named(b: SavedBatch, key: KeyView)
    requires
        !names(b, key),
    ensures
        forall|j: int| 0 <= j < b.entries.len() ==> (#[trigger] b.entries[j]).0 != key,
{
    assert forall|j: int| 0 <= j < b.entries.len() implies (#[trigger] b.entries[j]).0 != key by {
        if b.entries[j].0 == key {
            assert(names_at(b, key, j));
        }
    }
}

/// The next batch finds the key cached.
proof fn lemma_step_cached(
    st: SaveState,
    next: SaveState,
    batches: Seq<SavedBatch>,
    key: KeyView,
    n: nat,
    m: int,
)
    requires
        0 <= m < batches.len(),
        unique_keys(st.resident()),
        all_delivered(batches, key, n, m),
        stands_at(st, batches, key, n, m),
        fits_key(st, batches[m], key, n),
        publishes_key(st, next, batches[m], key),
    ensures
        stands_at(next, batches, key, n, m + 1),
{
    let b = batches[m];
    lemma_batch_of_others(
        st.inflight,
        b.entries,
        st.resident(),
        b.total_slots,
        b.numa,
        b.now,
        key,
    );
    lemma_insert_others(st.resident(), entry_views(b.report.sealed@), st.policy(), b.admitted, key);
    assert forall|i: int| 0 <= i < n implies #[trigger] first_delivery(batches, key, m + 1, i)
        == first_delivery(batches, key, m, i) && first_delivery(batches, key, m, i) is Some by {}
    let block = lookup(st.resident(), key)->0;
    assert(lookup(next.resident(), key) == Some(block));
}

/// The next batch does not name the key, which is not complete.
proof fn lemma_step_unnamed(
    st: SaveState,
    next: SaveState,
    batches: Seq<SavedBatch>,
    key: KeyView,
    n: nat,
    m: int,
)
    requires
        0 <= m < batches.len(),
        unique_keys(st.resident()),
        !all_delivered(batches, key, n, m),
        stands_at(st, batches, key, n, m),
        !names(batches[m], key),
        publishes_key(st, next, batches[m], key),
    ensures
        stands_at(next, batches, key, n, m + 1),
{
    let b = batches[m];
    lemma_nothing_named(b, key);
    lemma_batch_of_others(
        st.inflight,
        b.entries,
        st.resident(),
        b.total_slots,
        b.numa,
        b.now,
        key,
    );
    let list = entry_views(b.report.sealed@);
    assert forall|p: int| 0 <= p < list.len() implies (#[trigger] list[p]).0 != key by {
        assert(sealed_views(b.report.sealed@)[p].0 != key);
    }
    lemma_insert_others(st.resident(), list, st.policy(), b.admitted, key);
    assert forall|i: int| #[trigger] first_delivery(batches, key, m + 1, i) == first_delivery(
        batches,
        key,
        m,
        i,
    ) by {}
    let i = choose|i: int| 0 <= i < n && (#[trigger] first_delivery(batches, key, m, i)) is None;
    assert(first_delivery(batches, key, m + 1, i) is None);
    assert(named_by(batches, key, m + 1) == named_by(batches, key, m)) by {
        if named_by(batches, key, m + 1) {
            let j = choose|j: int| 0 <= j < m + 1 && names(#[trigger] batches[j], key);
            assert(j < m);
        }
        if named_by(batches, key, m) {
            let j = choose|j: int| 0 <= j < m && names(#[trigger] batches[j], key);
            assert(0 <= j < m + 1 && names(batches[j], key));
        }
    }
}

/// The next batch names the key, which is not complete.
proof fn lemma_step_named(
    st: SaveState,
    next: SaveState,
    batches: Seq<SavedBatch>,
    key: KeyView,
    n: nat,
    m: int,
    e: int,
)
    requires
        0 <= m < batches.len(),
        unique_keys(st.resident()),
        !all_delivered(batches, key, n, m),
        !named_by(batches, key, m) ==> forall|i: int|
            (#[trigger] first_delivery(batches, key, m, i)) is None,
        stands_at(st, batches, key, n, m),
        names_at(batches[m], key, e),
        fits_key(st, batches[m], key, n),
        publishes_key(st, next, batches[m], key),
    ensures
        stands_at(next, batches, key, n, m + 1),
{
    let b = batches[m];
    lemma_named_slots(st, b, key, n, e);
    let slots = b.entries[e].1;
    let before = target(st.inflight, key, n, b.now);
    let v = fill(before, slots, b.numa);
    lemma_fresh(n, b.now);
    assert(holds_deliveries(before.slots, before.numas, batches, key, n, m));
    lemma_key_outcome(
        st.inflight,
        b.entries,
        st.resident(),
        b.total_slots,
        b.numa,
        b.now,
        e,
    );
    lemma_fill_slots(before, slots, b.numa);
    assert forall|i: int| 0 <= i < n implies match first_delivery(batches, key, m + 1, i) {
        Some((raw, numa)) => #[trigger] v.slots[i] == Some(raw) && v.numas[i] == numa,
        None => v.slots[i] is None && v.numas[i] == NumaNode(UNKNOWN_NODE),
    } by {
        lemma_fill_takes_the_first(before, slots, b.numa, i);
        assert(before.slots[i] is Some == (first_delivery(batches, key, m, i) is Some));
    }
    assert(holds_deliveries(v.slots, v.numas, batches, key, n, m + 1));
    let run = run_of(st, b);
    let list = entry_views(b.report.sealed@);
    let views = sealed_views(b.report.sealed@);
    if all_filled(v.slots) {
        assert forall|i: int| 0 <= i < n implies (#[trigger] first_delivery(
            batches,
            key,
            m + 1,
            i,
        )) is Some by {
            assert(v.slots[i] is Some);
        }
        let p = choose|p: int| #[trigger] sealed_once(run.sealed, key, v, p);
        assert(views[p] == (b.report.sealed@[p].0@, b.report.sealed@[p].1@));
        assert(list[p] == (b.report.sealed@[p].0@, b.report.sealed@[p].1));
        assert(b.report.sealed@[p].0@ == key);
        assert forall|j: int| 0 <= j < p && lets_in(st.policy(), b.admitted, j) implies (
        #[trigger] list[j]).0 != list[p].0 by {
            assert(views[j] == (b.report.sealed@[j].0@, b.report.sealed@[j].1@));
            assert(run.sealed[j].0 != key);
        }
        law_inserted_blocks_are_found(st.resident(), list, st.policy(), b.admitted, p);
        lemma_cached_block(next, batches, key, n, m + 1, v, b.report.sealed@, p);
    } else {
        let i = choose|i: int| 0 <= i < v.slots.len() && (#[trigger] v.slots[i]) is None;
        assert(first_delivery(batches, key, m + 1, i) is None);
        assert forall|p: int| 0 <= p < list.len() implies (#[trigger] list[p]).0 != key by {
            assert(views[p] == (b.report.sealed@[p].0@, b.report.sealed@[p].1@));
            assert(run.sealed[p].0 != key);
        }
        lemma_insert_others(st.resident(), list, st.policy(), b.admitted, key);
        assert(names(batches[m], key));
        assert(named_by(batches, key, m + 1));
    }
}

proof fn lemma_cached_block(
    next: SaveState,
    batches: Seq<SavedBatch>,
    key: KeyView,
    n: nat,
    m: int,
    v: InflightView,
    sealed: Seq<(BlockKey, Arc<SealedBlock>)>,
    p: int,
)
    requires
        0 <= p < sealed.len(),
        holds_deliveries(v.slots, v.numas, batches, key, n, m),
        all_delivered(batches, key, n, m),
        sealed_views(sealed)[p].1.blocks == unwrapped(v.slots),
        sealed_views(sealed)[p].1.numas == v.numas,
        !next.inflight.contains_key(key),
        lookup(next.resident(), key) == Some(entry_views(sealed)[p].1),
    ensures
        stands_at(next, batches, key, n, m),
{
    let block = sealed_views(sealed)[p].1;
    assert forall|i: int| 0 <= i < n implies Some((#[trigger] block.blocks[i], block.numas[i]))
        == first_delivery(batches, key, m, i) by {
        assert(first_delivery(batches, key, m, i) is Some);
        assert(v.slots[i] is Some);
    }
}

/// What is saved is read back, in whatever order its slots come and over however many batches
/// they are spread. Of a key that is neither cached nor being filled at first, a block is cached
/// after a batch exactly if all its slots were delivered by then. It holds for each slot the
/// block that was delivered first, with the NUMA node of its batch; later deliveries change
/// nothing. Until then a block that is being filled holds exactly what was delivered. All this
/// is with publishing on; each batch leads to what [`process_insert_batch`] makes of it.
pub proof fn law_saved_blocks_are_read_back(
    states: Seq<SaveState>,
    batches: Seq<SavedBatch>,
    key: KeyView,
    n: nat,
    m: int,
)
    requires
        n > 0,
        states.len() == batches.len() + 1,
        unique_keys(states[0].resident()),
        !has_key(states[0].resident(), key),
        !states[0].inflight.contains_key(key),
        forall|j: int|
            0 <= j < batches.len() ==> (#[trigger] states[j]).deps.publish_sealed_blocks,
        forall|j: int|
            0 <= j < batches.len() ==> fits_key(states[j], #[trigger] batches[j], key, n)
                && saves_key(states[j], states[j + 1], batches[j], key),
        0 <= m <= batches.len(),
    ensures
        has_key(states[m].resident(), key) <==> all_delivered(batches, key, n, m),
        stands_at(states[m], batches, key, n, m),
        unique_keys(states[m].resident()),
    decreases m,
{
    lemma_unnamed_is_undelivered(batches, key, m);
    if m == 0 {
        assert(first_delivery(batches, key, 0, 0) is None);
    } else {
        law_saved_blocks_are_read_back(states, batches, key, n, m - 1);
        lemma_unnamed_is_undelivered(batches, key, m - 1);
        let b = batches[m - 1];
        assert(fits_key(states[m - 1], b, key, n) && saves_key(states[m - 1], states[m], b, key));
        assert(states[m - 1].deps.publish_sealed_blocks);
        lemma_batch_is_published(states[m - 1], states[m], b, key);
        if all_delivered(batches, key, n, m - 1) {
            lemma_step_cached(states[m - 1], states[m], batches, key, n, m - 1);
        } else if names(b, key) {
            let e = choose|e: int| names_at(b, key, e);
            lemma_step_named(states[m - 1], states[m], batches, key, n, m - 1, e);
        } else {
            lemma_step_unnamed(states[m - 1], states[m], batches, key, n, m - 1);
        }
    }
}

proof fn lemma_unnamed_is_undelivered(batches: Seq<SavedBatch>, key: KeyView, m: int)
    requires
        0 <= m <= batches.len(),
    ensures
        !named_by(batches, key, m) ==> forall|i: int|
            (#[trigger] first_delivery(batches, key, m, i)) is None,
    decreases m,
{
    if m > 0 && !named_by(batches, key, m) {
        assert(!named_by(batches, key, m - 1)) by {
            if named_by(batches, key, m - 1) {
                let j = choose|j: int| 0 <= j < m - 1 && names(#[trigger] batches[j], key);
                assert(0 <= j < m && names(batches[j], key));
            }
        }
        lemma_unnamed_is_undelivered(batches, key, m - 1);
        assert(!names(batches[m - 1], key));
        assert forall|i: int| (#[trigger] first_delivery(batches, key, m, i)) is None by {
            assert(first_delivery(batches, key, m - 1, i) is None);
        }
    }
}

/// What a block that is being filled holds under a key, if there is one.
pub open spec fn held_under(inflight: Map<KeyView, InflightView>, key: KeyView) -> Seq<RawBlock> {
    if inflight.contains_key(key) {
        filled_blocks(inflight[key].slots)
    } else {
        Seq::empty()
    }
}

/// The bytes that a block that is being filled holds under a key, if there is one.
pub open spec fn bytes_under(inflight: Map<KeyView, InflightView>, key: KeyView) -> nat {
    if inflight.contains_key(key) {
        filled_bytes(inflight[key].slots)
    } else {
        0
    }
}

proof fn lemma_all_held(slots: Seq<Option<RawBlock>>)
    requires
        all_filled(slots),
    ensures
        filled_blocks(slots) == unwrapped(slots),
    decreases slots.len(),
{
    if slots.len() > 0 {
        let front = slots.drop_last();
        assert forall|i: int| 0 <= i < front.len() implies #[trigger] front[i] is Some by {
            assert(slots[i] is Some);
        }
        lemma_all_held(front);
        assert(slots[slots.len() - 1] is Some);
        assert(unwrapped(slots) =~= unwrapped(front).push(slots.last()->0));
    } else {
        assert(filled_blocks(slots) =~= unwrapped(slots));
    }
}

proof fn lemma_fresh_is_empty(total_slots: nat, now: u64)
    ensures
        filled_blocks(fresh(total_slots, now).slots).len() == 0,
    decreases total_slots,
{
    if total_slots > 0 {
        lemma_fresh_is_empty((total_slots - 1) as nat, now);
        assert(fresh(total_slots, now).slots.drop_last() =~= fresh(
            (total_slots - 1) as nat,
            now,
        ).slots);
    }
}

/// Nothing that is saved is lost, and nothing is made up: what a batch brings for a key is held by
/// the block that is being filled, goes into the block that is sealed, or is dropped. Other keys
/// are not touched, and a block is sealed for the key at most once.
pub proof fn law_what_is_saved_is_held_sealed_or_dropped(
    st: BatchView,
    entry: BatchEntry,
    resident: Seq<EntryView>,
    total_slots: nat,
    numa: NumaNode,
    now: u64,
    other: KeyView,
)
    requires
        slots_in_range(entry.1, total_slots),
        st.inflight.contains_key(entry.0) ==> st.inflight[entry.0].numas.len()
            == st.inflight[entry.0].slots.len(),
        other != entry.0,
    ensures
        ({
            let after = batch_step(st, entry, resident, total_slots, numa, now);
            let sealed = if after.sealed.len() > st.sealed.len() {
                after.sealed.last().1.blocks
            } else {
                Seq::empty()
            };
            &&& after.dropped.to_multiset().add(
                held_under(after.inflight, entry.0).to_multiset(),
            ).add(sealed.to_multiset()) == st.dropped.to_multiset().add(
                held_under(st.inflight, entry.0).to_multiset(),
            ).add(inserted_blocks(entry.1).to_multiset())
            &&& after.sealed.len() <= st.sealed.len() + 1
            &&& after.sealed.take(st.sealed.len() as int) == st.sealed
            &&& after.sealed.len() > st.sealed.len() ==> after.sealed.last().0 == entry.0
                && !after.inflight.contains_key(entry.0)
            &&& after.inflight.contains_key(other) == st.inflight.contains_key(other)
            &&& st.inflight.contains_key(other) ==> after.inflight[other] == st.inflight[other]
        }),
{
    broadcast use vstd::seq_lib::group_to_multiset_ensures;

    let after = batch_step(st, entry, resident, total_slots, numa, now);
    let given = inserted_blocks(entry.1);
    let before = target(st.inflight, entry.0, total_slots, now);
    let none = Seq::<RawBlock>::empty();
    assert(none.to_multiset() =~= vstd::multiset::Multiset::empty());
    assert(after.sealed.take(st.sealed.len() as int) =~= st.sealed);
    lemma_fresh(total_slots, now);
    lemma_fresh_is_empty(total_slots, now);
    assert(held_under(st.inflight, entry.0) =~= filled_blocks(before.slots)) by {
        if !st.inflight.contains_key(entry.0) {
            assert(filled_blocks(before.slots) =~= none);
        }
    }
    let d = st.dropped.to_multiset();
    let h = held_under(st.inflight, entry.0).to_multiset();
    let g = given.to_multiset();
    if has_key(resident, entry.0) || (before.slots.len() != total_slots) {
        if !(has_key(resident, entry.0)) {
            assert(st.inflight.contains_key(entry.0));
        }
        vstd::seq_lib::lemma_multiset_commutative(st.dropped, given);
        assert(after.dropped.to_multiset().add(held_under(after.inflight, entry.0).to_multiset()).add(
            none.to_multiset(),
        ) =~= d.add(h).add(g));
    } else if !st.inflight.contains_key(entry.0) && complete_in_order(entry.1, total_slots) {
        assert(after.sealed.last().1.blocks == given);
        assert(after.dropped.to_multiset().add(held_under(after.inflight, entry.0).to_multiset()).add(
            given.to_multiset(),
        ) =~= d.add(h).add(g));
    } else {
        let v = fill(before, entry.1, numa);
        law_every_slot_is_kept_or_dropped(before, entry.1, numa);
        let back = spurned(before, entry.1, numa);
        vstd::seq_lib::lemma_multiset_commutative(st.dropped, back);
        let kept = filled_blocks(v.slots).to_multiset();
        assert(kept.add(back.to_multiset()) == h.add(g));
        if all_filled(v.slots) {
            lemma_all_held(v.slots);
            assert(after.dropped.to_multiset().add(none.to_multiset()).add(kept) =~= d.add(h).add(
                g,
            )) by {
                assert(d.add(back.to_multiset()).add(none.to_multiset()).add(kept) =~= d.add(
                    kept.add(back.to_multiset()),
                ));
                assert(d.add(h.add(g)) =~= d.add(h).add(g));
            }
        } else {
            assert(after.dropped.to_multiset().add(kept).add(none.to_multiset()) =~= d.add(h).add(
                g,
            )) by {
                assert(d.add(back.to_multiset()).add(kept).add(none.to_multiset()) =~= d.add(
                    kept.add(back.to_multiset()),
                ));
                assert(d.add(h.add(g)) =~= d.add(h).add(g));
            }
        }
    }
}

/// The bytes that are reported are those that are under way: what a batch adds less what it
/// removes is by how much the block of a key has grown. A block that comes complete and in order
/// is never under way. Left out are bytes that cannot be counted.
pub proof fn law_reported_bytes_are_those_under_way(
    st: BatchView,
    entry: BatchEntry,
    resident: Seq<EntryView>,
    total_slots: nat,
    numa: NumaNode,
    now: u64,
)
    requires
        slots_in_range(entry.1, total_slots),
        st.inflight.contains_key(entry.0) ==> st.inflight[entry.0].numas.len()
            == st.inflight[entry.0].slots.len(),
        st.added + slot_bytes(inserted_blocks(entry.1)) <= u64::MAX,
        st.removed + bytes_under(st.inflight, entry.0) + slot_bytes(inserted_blocks(entry.1))
            <= u64::MAX,
    ensures
        ({
            let after = batch_step(st, entry, resident, total_slots, numa, now);
            &&& after.added >= st.added
            &&& after.removed >= st.removed
            &&& (after.added - st.added) - (after.removed - st.removed) == bytes_under(
                after.inflight,
                entry.0,
            ) - bytes_under(st.inflight, entry.0)
            &&& after.sealed.len() == st.sealed.len() ==> after.removed == st.removed
        }),
{
    let before = target(st.inflight, entry.0, total_slots, now);
    lemma_fresh(total_slots, now);
    if before.slots.len() == total_slots {
        lemma_fill_slots(before, entry.1, numa);
    }
}

/// A block that is being filled is given up exactly when it is older than the limit; what it held
/// is handed back and counted, and the others stay in their order.
pub proof fn law_only_old_blocks_are_given_up(
    a: Seq<(KeyView, InflightView)>,
    e: (KeyView, InflightView),
    max_age: u64,
    now: u64,
)
    ensures
        survivors(Seq::empty(), max_age, now).len() == 0,
        stale_bytes(Seq::empty(), max_age, now) == 0,
        stale_slots(Seq::empty(), max_age, now).len() == 0,
        ({
            let old = now > e.1.created_at && now - e.1.created_at > max_age;
            &&& survivors(a.push(e), max_age, now) == (if old {
                survivors(a, max_age, now)
            } else {
                survivors(a, max_age, now).push(e)
            })
            &&& stale_bytes(a.push(e), max_age, now) == stale_bytes(a, max_age, now) + (if old {
                filled_bytes(e.1.slots)
            } else {
                0
            })
            &&& stale_slots(a.push(e), max_age, now) == (if old {
                stale_slots(a, max_age, now) + filled_blocks(e.1.slots)
            } else {
                stale_slots(a, max_age, now)
            })
        }),
{
    assert(a.push(e).drop_last() =~= a);
}

/// Batches and what they seal are shown whole and in order: each entry with its key and all its
/// slots, and each sealed block with its key and all that it holds.
pub proof fn law_batches_are_shown_whole(
    entries: Seq<(BlockKey, Vec<(usize, RawBlock)>)>,
    sealed: Seq<(BlockKey, Arc<SealedBlock>)>,
    waiting: Seq<(BlockKey, InflightBlock)>,
    i: int,
)
    ensures
        batch_entries(entries).len() == entries.len(),
        0 <= i < entries.len() ==> batch_entries(entries)[i].0 == (
            entries[i].0.namespace@,
            entries[i].0.hash@,
        ) && batch_entries(entries)[i].1 == entries[i].1@,
        sealed_views(sealed).len() == sealed.len(),
        0 <= i < sealed.len() ==> sealed_views(sealed)[i].0 == (
            sealed[i].0.namespace@,
            sealed[i].0.hash@,
        ) && sealed_views(sealed)[i].1.blocks == sealed[i].1.blocks() && sealed_views(
            sealed,
        )[i].1.numas == sealed[i].1.numas() && sealed_views(sealed)[i].1.footprint
            == sealed[i].1.footprint(),
        inflight_views(waiting).len() == waiting.len(),
        0 <= i < waiting.len() ==> inflight_views(waiting)[i].0 == (
            waiting[i].0.namespace@,
            waiting[i].0.hash@,
        ) && inflight_views(waiting)[i].1.slots == waiting[i].1.slots() && inflight_views(
            waiting,
        )[i].1.numas == waiting[i].1.numas(),
{
}

/// A batch is processed entry by entry against what is cached when it begins, and a block with
/// another number of slots than a batch brings takes none of them.
pub proof fn law_batches_are_processed_in_order(
    inflight: Map<KeyView, InflightView>,
    entries: Seq<BatchEntry>,
    entry: BatchEntry,
    resident: Seq<EntryView>,
    deps: InsertDeps,
    total_slots: nat,
    numa: NumaNode,
    now: u64,
)
    ensures
        resident_entries(Some(deps)) == deps.read_cache.entries(),
        resident_entries(None).len() == 0,
        batch_run(inflight, entries.push(entry), resident, total_slots, numa, now) == batch_step(
            batch_run(inflight, entries, resident, total_slots, numa, now),
            entry,
            resident,
            total_slots,
            numa,
            now,
        ),
        batch_run(inflight, Seq::empty(), resident, total_slots, numa, now).inflight == inflight,
        batch_run(inflight, Seq::empty(), resident, total_slots, numa, now).sealed.len() == 0,
        ({
            let st = batch_run(inflight, entries, resident, total_slots, numa, now);
            let after = batch_step(st, entry, resident, total_slots, numa, now);
            &&& has_key(resident, entry.0) ==> after.inflight == st.inflight && after.sealed
                == st.sealed
            &&& !has_key(resident, entry.0) && st.inflight.contains_key(entry.0)
                && st.inflight[entry.0].slots.len() != total_slots ==> after.inflight == st.inflight
                && after.sealed == st.sealed
            &&& after.ordered <= st.ordered + 1
            &&& after.ordered > st.ordered ==> after.sealed.len() == st.sealed.len() + 1
        }),
{
    assert(entries.push(entry).drop_last() =~= entries);
}

} // verus!
