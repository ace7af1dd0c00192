//! Cache blocks: segments of pinned memory, blocks that are being filled slot by
//! slot, and sealed blocks.

use std::sync::Arc;
use vstd::prelude::*;
use vstd::string::*;
use crate::hex::{encode_hex, hex_text, law_hex_text_is_injective};
use crate::numa::NumaNode;
use crate::pinned_pool::{MappedPinnedPtr, PinnedAllocation};
use crate::text::{join3, lemma_last_position_is, same_bytes, same_text};

verus! {

/// The content hash of a block.
pub type BlockHash = Vec<u8>;

/// The identity of a block: a namespace and a content hash.
#[derive(Debug, PartialEq, Eq)]
pub struct BlockKey {
    pub namespace: String,
    pub hash: Vec<u8>,
}

impl View for BlockKey {
    type V = (Seq<char>, Seq<u8>);

    open spec fn view(&self) -> (Seq<char>, Seq<u8>) {
        (self.namespace@, self.hash@)
    }
}

/// What a list of byte strings holds.
pub open spec fn byte_views(v: Seq<Vec<u8>>) -> Seq<Seq<u8>> {
    v.map_values(|b: Vec<u8>| b@)
}

/// A copy of a byte string.
pub fn copy_bytes(bytes: &Vec<u8>) -> (r: Vec<u8>)
    ensures
        r@ == bytes@,
{
    let r: Vec<u8> = bytes.clone();
    assert(r@ =~= bytes@);
    r
}

impl Clone for BlockKey {
    fn clone(&self) -> (r: Self)
        ensures
            r@ == self@,
    {
        BlockKey { namespace: self.namespace.clone(), hash: copy_bytes(&self.hash) }
    }
}

impl BlockKey {
    /// The key of `hash` in `namespace`.
    pub fn new(namespace: String, hash: Vec<u8>) -> (r: Self)
        ensures
            r@ == (namespace@, hash@),
    {
        BlockKey { namespace, hash }
    }

    /// Whether both keys name the same block.
    pub fn same(&self, other: &BlockKey) -> (r: bool)
        ensures
            r == (self@ == other@),
    {
        same_bytes(&self.hash, &other.hash) && same_text(&self.namespace, &other.namespace)
    }
}

/// The printable identity of a block: its namespace and its hash in hexadecimal.
pub open spec fn object_text(key: (Seq<char>, Seq<u8>)) -> Seq<char> {
    key.0 + ":"@ + hex_text(key.1)
}

/// Renders the identity of a block for audit logs.
pub fn object_id(key: &BlockKey) -> (r: String)
    ensures
        r@ == object_text(key@),
{
    join3(&key.namespace, ":", &encode_hex(&key.hash))
}

/// Different blocks have different printable identities.
pub proof fn law_object_text_is_unique(a: (Seq<char>, Seq<u8>), b: (Seq<char>, Seq<u8>))
    requires
        object_text(a) == object_text(b),
    ensures
        a == b,
{
    reveal_strlit(":");
    let s = object_text(a);
    let t = object_text(b);
    assert forall|k: int| a.0.len() < k < s.len() implies s[k] != ':' by {
        assert(s[k] == hex_text(a.1)[k - a.0.len() - 1]);
    }
    assert forall|k: int| b.0.len() < k < t.len() implies t[k] != ':' by {
        assert(t[k] == hex_text(b.1)[k - b.0.len() - 1]);
    }
    assert(s[a.0.len() as int] == ':');
    assert(t[b.0.len() as int] == ':');
    lemma_last_position_is(s, ':', a.0.len() as int);
    lemma_last_position_is(t, ':', b.0.len() as int);
    assert(a.0 =~= s.take(a.0.len() as int));
    assert(b.0 =~= t.take(b.0.len() as int));
    assert(hex_text(a.1) =~= s.skip(a.0.len() as int + 1));
    assert(hex_text(b.1) =~= t.skip(b.0.len() as int + 1));
    law_hex_text_is_injective(a.1, b.1);
}

/// What one layer wants saved: block numbers with the hashes of their contents.
#[derive(Debug)]
pub struct LayerSave {
    pub layer_name: String,
    pub block_ids: Vec<usize>,
    pub block_hashes: Vec<Vec<u8>>,
}

/// What a prefix query came to.
#[derive(Debug)]
pub enum PrefetchStatus {
    /// Blocks are being brought in; the caller asks again.
    Loading,
    /// The blocks of the prefix that are ready, and how many are missing.
    Ready { blocks: Vec<Arc<SealedBlock>>, missing: usize },
}

/// A contiguous piece of pinned memory.
#[derive(Debug)]
pub struct Segment {
    pub ptr: MappedPinnedPtr,
    pub size: usize,
    pub allocation: Arc<PinnedAllocation>,
}

impl Segment {
    /// The `size` bytes at the host address `ptr`, which lie in `allocation`.
    pub fn new(ptr: u64, size: usize, allocation: Arc<PinnedAllocation>) -> (r: Self)
        requires
            allocation.wf(),
            allocation.ptr <= ptr,
            ptr + size <= allocation.ptr + allocation.range.size_bytes,
        ensures
            r.ptr.host == ptr,
            r.ptr.device == allocation.device_ptr + (ptr - allocation.ptr),
            r.size == size,
            *r.allocation == *allocation,
    {
        let mapped: MappedPinnedPtr = allocation.mapped_ptr_for_host_range(ptr, size);
        Segment { ptr: mapped, size, allocation }
    }
}

/// How many bytes `segments` hold.
pub open spec fn segment_bytes(segments: Seq<Segment>) -> nat
    decreases segments.len(),
{
    if segments.len() == 0 {
        0
    } else {
        segment_bytes(segments.drop_last()) + segments.last().size as nat
    }
}

/// What one slot of a block holds: segments in order, whatever they mean.
#[derive(Debug)]
pub struct RawBlock {
    segments: Vec<Segment>,
    total_size: usize,
}

impl RawBlock {
    /// The segments.
    pub closed spec fn segments(self) -> Seq<Segment> {
        self.segments@
    }

    /// How many bytes the block holds.
    pub closed spec fn bytes(self) -> nat {
        self.total_size as nat
    }

    #[verifier::type_invariant]
    closed spec fn inv(self) -> bool {
        &&& self.total_size == segment_bytes(self.segments@)
        &&& self.segments@.len() > 0
    }

    /// A block of `segments`, of which there is at least one.
    pub fn new(segments: Vec<Segment>) -> (r: Self)
        requires
            segments@.len() > 0,
            segment_bytes(segments@) <= usize::MAX,
        ensures
            r.segments() == segments@,
            r.bytes() == segment_bytes(segments@),
    {
        let mut total: usize = 0;
        let mut i: usize = 0;
        while i < segments.len()
            invariant
                i <= segments@.len(),
                total == segment_bytes(segments@.take(i as int)),
                segment_bytes(segments@) <= usize::MAX,
            decreases segments@.len() - i,
        {
            proof {
                lemma_segment_bytes_grow(segments@, i + 1, segments@.len() as int);
                assert(segments@.take(i + 1).drop_last() =~= segments@.take(i as int));
                assert(segments@.take(segments@.len() as int) =~= segments@);
            }
            total = total + segments[i].size;
            i += 1;
        }
        assert(segments@.take(i as int) =~= segments@);
        RawBlock { segments, total_size: total }
    }

    /// A block of one segment.
    pub fn single_segment(segment: Segment) -> (r: Self)
        ensures
            r.segments() == seq![segment],
            r.bytes() == segment.size,
    {
        let total_size: usize = segment.size;
        let mut segments: Vec<Segment> = Vec::new();
        segments.push(segment);
        proof {
            reveal_with_fuel(segment_bytes, 2);
            assert(segments@ =~= seq![segment]);
            assert(segments@.drop_last() =~= Seq::<Segment>::empty());
        }
        RawBlock { segments, total_size }
    }

    /// A block of two segments.
    pub fn two_segments(k_segment: Segment, v_segment: Segment) -> (r: Self)
        requires
            k_segment.size + v_segment.size <= usize::MAX,
        ensures
            r.segments() == seq![k_segment, v_segment],
            r.bytes() == k_segment.size + v_segment.size,
    {
        let total_size: usize = k_segment.size + v_segment.size;
        let mut segments: Vec<Segment> = Vec::new();
        segments.push(k_segment);
        segments.push(v_segment);
        proof {
            reveal_with_fuel(segment_bytes, 3);
            assert(segments@ =~= seq![k_segment, v_segment]);
            assert(segments@.drop_last() =~= seq![k_segment]);
            assert(segments@.drop_last().drop_last() =~= Seq::<Segment>::empty());
        }
        RawBlock { segments, total_size }
    }

    /// How many segments there are.
    pub fn num_segments(&self) -> (r: usize)
        ensures
            r == self.segments().len(),
            r > 0,
    {
        proof {
            use_type_invariant(self);
        }
        self.segments.len()
    }

    /// The host address of a segment.
    pub fn segment_ptr(&self, index: usize) -> (r: Option<u64>)
        ensures
            r == if index < self.segments().len() {
                Some(self.segments()[index as int].ptr.host)
            } else {
                None
            },
    {
        if index < self.segments.len() {
            Some(self.segments[index].ptr.host)
        } else {
            None
        }
    }

    /// Both addresses of a segment.
    pub fn segment_mapped_ptr(&self, index: usize) -> (r: Option<MappedPinnedPtr>)
        ensures
            r == if index < self.segments().len() {
                Some(self.segments()[index as int].ptr)
            } else {
                None
            },
    {
        if index < self.segments.len() {
            Some(self.segments[index].ptr)
        } else {
            None
        }
    }

    /// The length of a segment.
    pub fn segment_size(&self, index: usize) -> (r: Option<usize>)
        ensures
            r == if index < self.segments().len() {
                Some(self.segments()[index as int].size)
            } else {
                None
            },
    {
        if index < self.segments.len() {
            Some(self.segments[index].size)
        } else {
            None
        }
    }

    /// The address and the length of each segment.
    pub fn segment_iovecs(&self) -> (r: Vec<(u64, usize)>)
        ensures
            r@ == self.segments().map_values(|s: Segment| (s.ptr.host, s.size)),
    {
        let mut out: Vec<(u64, usize)> = Vec::new();
        let mut i: usize = 0;
        while i < self.segments.len()
            invariant
                i <= self.segments@.len(),
                out@ == self.segments@.take(i as int).map_values(
                    |s: Segment| (s.ptr.host, s.size),
                ),
            decreases self.segments@.len() - i,
        {
            out.push((self.segments[i].ptr.host, self.segments[i].size));
            i += 1;
            assert(out@ =~= self.segments@.take(i as int).map_values(
                |s: Segment| (s.ptr.host, s.size),
            ));
        }
        assert(self.segments@.take(i as int) =~= self.segments@);
        out
    }

    /// How many bytes the block holds.
    pub fn memory_footprint(&self) -> (r: u64)
        ensures
            r == self.bytes(),
            r == segment_bytes(self.segments()),
    {
        proof {
            use_type_invariant(self);
        }
        self.total_size as u64
    }
}

/// The allocations that some segments lie in.
pub open spec fn segment_allocations(segments: Seq<Segment>) -> Seq<Arc<PinnedAllocation>> {
    segments.map_values(|s: Segment| s.allocation)
}

/// The allocations that the segments of some slots lie in.
pub open spec fn slot_allocations(slots: Seq<RawBlock>) -> Seq<Arc<PinnedAllocation>>
    decreases slots.len(),
{
    if slots.len() == 0 {
        Seq::empty()
    } else {
        slot_allocations(slots.drop_last()) + segment_allocations(slots.last().segments())
    }
}

/// Gives slots up, and returns their handles to the allocations that they lie in.
pub fn into_allocations(slots: Vec<RawBlock>) -> (r: Vec<Arc<PinnedAllocation>>)
    ensures
        r@ == slot_allocations(slots@),
{
    let ghost all = slots@;
    let mut out: Vec<Arc<PinnedAllocation>> = Vec::new();
    assert(all.take(0) =~= Seq::<RawBlock>::empty());
    for slot in it: slots
        invariant
            it.seq() == all,
            out@ == slot_allocations(all.take(it.index())),
    {
        let ghost k = it.index();
        let ghost before = out@;
        let ghost own = slot.segments();
        assert(all.take(k + 1).drop_last() =~= all.take(k));
        assert(all.take(k + 1).last() == slot);
        let segments: Vec<Segment> = slot.segments;
        assert(segment_allocations(own.take(0)) =~= Seq::<Arc<PinnedAllocation>>::empty());
        assert(before + segment_allocations(own.take(0)) =~= before);
        for segment in each: segments
            invariant
                each.seq() == own,
                out@ == before + segment_allocations(own.take(each.index())),
        {
            let ghost j = each.index();
            out.push(segment.allocation);
            assert(out@ =~= before + segment_allocations(own.take(j + 1)));
        }
        assert(own.take(own.len() as int) =~= own);
    }
    assert(all.take(all.len() as int) =~= all);
    out
}

proof fn lemma_segment_bytes_grow(segments: Seq<Segment>, m: int, n: int)
    requires
        0 <= m <= n <= segments.len(),
    ensures
        segment_bytes(segments.take(m)) <= segment_bytes(segments.take(n)),
    decreases n,
{
    if m < n {
        lemma_segment_bytes_grow(segments, m, n - 1);
        assert(segments.take(n).drop_last() =~= segments.take(n - 1));
    }
}

/// A slot's block read as key and value data: segment zero holds the keys, and
/// segment one the values where they are split.
#[derive(Debug)]
pub struct LayerBlock<'a> {
    raw: &'a RawBlock,
}

impl<'a> LayerBlock<'a> {
    /// The block that is read.
    pub closed spec fn raw(self) -> RawBlock {
        *self.raw
    }

    /// Reads `raw` as key and value data.
    pub fn new(raw: &'a RawBlock) -> (r: Self)
        ensures
            r.raw() == *raw,
    {
        LayerBlock { raw }
    }

    /// The host address of the keys.
    pub fn k_ptr(&self) -> (r: u64)
        ensures
            r == self.raw().segments()[0].ptr.host,
    {
        let count: usize = self.raw.num_segments();
        assert(count > 0);
        match self.raw.segment_ptr(0) {
            Some(p) => p,
            None => 0,
        }
    }

    /// The length of the keys.
    pub fn k_size(&self) -> (r: usize)
        ensures
            r == self.raw().segments()[0].size,
    {
        let count: usize = self.raw.num_segments();
        assert(count > 0);
        match self.raw.segment_size(0) {
            Some(n) => n,
            None => 0,
        }
    }

    /// The host address of the values, where they are split.
    pub fn v_ptr(&self) -> (r: Option<u64>)
        ensures
            r == if self.raw().segments().len() > 1 {
                Some(self.raw().segments()[1].ptr.host)
            } else {
                None
            },
    {
        self.raw.segment_ptr(1)
    }

    /// The length of the values, where they are split.
    pub fn v_size(&self) -> (r: Option<usize>)
        ensures
            r == if self.raw().segments().len() > 1 {
                Some(self.raw().segments()[1].size)
            } else {
                None
            },
    {
        self.raw.segment_size(1)
    }

    /// How many bytes all segments hold.
    pub fn size(&self) -> (r: usize)
        ensures
            r == self.raw().bytes(),
    {
        let bytes: u64 = self.raw.memory_footprint();
        proof {
            use_type_invariant(self.raw);
        }
        bytes as usize
    }
}

/// How many bytes `slots` hold.
pub open spec fn slot_bytes(slots: Seq<RawBlock>) -> nat
    decreases slots.len(),
{
    if slots.len() == 0 {
        0
    } else {
        slot_bytes(slots.drop_last()) + slots.last().bytes()
    }
}

/// `n`, or the largest 64-bit number where `n` is larger.
pub open spec fn capped(n: nat) -> nat {
    if n > u64::MAX {
        u64::MAX as nat
    } else {
        n
    }
}

/// The blocks of `slots` without their second parts.
pub open spec fn blocks_of(slots: Seq<(RawBlock, NumaNode)>) -> Seq<RawBlock> {
    slots.map_values(|s: (RawBlock, NumaNode)| s.0)
}

/// The blocks of `slots` without their slot numbers.
pub open spec fn inserted_blocks(slots: Seq<(usize, RawBlock)>) -> Seq<RawBlock> {
    slots.map_values(|s: (usize, RawBlock)| s.1)
}

/// Whether `slots` are slots zero to `total_slots`, each once and in order.
pub open spec fn complete_in_order(slots: Seq<(usize, RawBlock)>, total_slots: nat) -> bool {
    slots.len() == total_slots && forall|i: int|
        0 <= i < slots.len() ==> (#[trigger] slots[i]).0 == i
}

/// A block all of whose slots are filled. It does not change any more.
#[derive(Debug)]
pub struct SealedBlock {
    slots: Vec<RawBlock>,
    footprint: u64,
    materialized_at: u64,
    slot_numas: Vec<NumaNode>,
}

impl SealedBlock {
    /// Gives the block up, and returns its handles to the allocations that it lies in.
    pub fn into_allocations(self) -> (r: Vec<Arc<PinnedAllocation>>)
        ensures
            r@ == slot_allocations(self.blocks()),
    {
        into_allocations(self.slots)
    }

    /// What each slot holds.
    pub closed spec fn blocks(self) -> Seq<RawBlock> {
        self.slots@
    }

    /// The NUMA node of each slot.
    pub closed spec fn numas(self) -> Seq<NumaNode> {
        self.slot_numas@
    }

    /// How many bytes the block holds.
    pub closed spec fn footprint(self) -> u64 {
        self.footprint
    }

    /// When the block was sealed, in nanoseconds.
    pub closed spec fn sealed_at(self) -> u64 {
        self.materialized_at
    }

    #[verifier::type_invariant]
    closed spec fn inv(self) -> bool {
        &&& self.slot_numas@.len() == self.slots@.len()
        &&& self.footprint == capped(slot_bytes(self.slots@))
    }

    /// A slot, where the block has it.
    pub fn get_slot(&self, slot_id: usize) -> (r: Option<&RawBlock>)
        ensures
            match r {
                Some(slot) => slot_id < self.blocks().len() && *slot
                    == self.blocks()[slot_id as int],
                None => slot_id >= self.blocks().len(),
            },
    {
        if slot_id < self.slots.len() {
            Some(&self.slots[slot_id])
        } else {
            None
        }
    }

    /// How many bytes the block holds.
    pub fn memory_footprint(&self) -> (r: u64)
        ensures
            r == self.footprint(),
            r == capped(slot_bytes(self.blocks())),
    {
        proof {
            use_type_invariant(self);
        }
        self.footprint
    }

    /// How long the block has been sealed at the time `now`, in nanoseconds.
    pub fn materialized_age(&self, now: u64) -> (r: u64)
        ensures
            r == if now < self.sealed_at() {
                0
            } else {
                now - self.sealed_at()
            },
    {
        now.saturating_sub(self.materialized_at)
    }

    /// What each slot holds.
    pub fn slots(&self) -> (r: &[RawBlock])
        ensures
            r@ == self.blocks(),
    {
        self.slots.as_slice()
    }

    /// The NUMA node of each slot.
    pub fn slot_numas(&self) -> (r: &[NumaNode])
        ensures
            r@ == self.numas(),
            r@.len() == self.blocks().len(),
    {
        proof {
            use_type_invariant(self);
        }
        self.slot_numas.as_slice()
    }

    /// A block of slots, each with its NUMA node.
    pub fn from_slots(slots: Vec<(RawBlock, NumaNode)>, now: u64) -> (r: Self)
        ensures
            r.blocks() == blocks_of(slots@),
            r.numas() == slots@.map_values(|s: (RawBlock, NumaNode)| s.1),
            r.footprint() == capped(slot_bytes(r.blocks())),
            r.sealed_at() == now,
    {
        let mut blocks: Vec<RawBlock> = Vec::new();
        let mut slot_numas: Vec<NumaNode> = Vec::new();
        let mut footprint: u64 = 0;
        for slot in it: slots
            invariant
                it.seq() == slots@,
                blocks@ == blocks_of(slots@.take(it.index())),
                slot_numas@ == slots@.take(it.index()).map_values(
                    |s: (RawBlock, NumaNode)| s.1,
                ),
                footprint == capped(slot_bytes(blocks@)),
        {
            let (block, numa): (RawBlock, NumaNode) = slot;
            footprint = footprint.saturating_add(block.memory_footprint());
            let ghost before = blocks@;
            blocks.push(block);
            slot_numas.push(numa);
            assert(blocks@.drop_last() =~= before);
            assert(blocks@ =~= blocks_of(slots@.take(it.index() + 1)));
            assert(slot_numas@ =~= slots@.take(it.index() + 1).map_values(
                |s: (RawBlock, NumaNode)| s.1,
            ));
        }
        assert(slots@.take(slots@.len() as int) =~= slots@);
        SealedBlock { slots: blocks, footprint, materialized_at: now, slot_numas }
    }

    /// A block of slots that come complete and in order, all of one NUMA node.
    /// Other slots are handed back.
    pub fn from_ordered_slot_inserts(
        slots: Vec<(usize, RawBlock)>,
        total_slots: usize,
        numa_node: NumaNode,
        now: u64,
    ) -> (r: Result<Self, Vec<(usize, RawBlock)>>)
        ensures
            match r {
                Ok(sealed) => {
                    &&& complete_in_order(slots@, total_slots as nat)
                    &&& sealed.blocks() == inserted_blocks(slots@)
                    &&& sealed.numas() == Seq::new(total_slots as nat, |i: int| numa_node)
                    &&& sealed.footprint() == capped(slot_bytes(sealed.blocks()))
                    &&& sealed.sealed_at() == now
                },
                Err(back) => !complete_in_order(slots@, total_slots as nat) && back == slots,
            },
    {
        if slots.len() != total_slots {
            return Err(slots);
        }
        let mut i: usize = 0;
        while i < slots.len()
            invariant
                i <= slots@.len(),
                forall|k: int| 0 <= k < i ==> (#[trigger] slots@[k]).0 == k,
            decreases slots@.len() - i,
        {
            if slots[i].0 != i {
                assert(slots@[i as int].0 != i);
                return Err(slots);
            }
            i += 1;
        }
        let mut blocks: Vec<RawBlock> = Vec::new();
        let mut slot_numas: Vec<NumaNode> = Vec::new();
        let mut footprint: u64 = 0;
        for slot in it: slots
            invariant
                it.seq() == slots@,
                slots@.len() == total_slots,
                blocks@ == inserted_blocks(slots@.take(it.index())),
                slot_numas@ == Seq::new(it.index() as nat, |i: int| numa_node),
                footprint == capped(slot_bytes(blocks@)),
        {
            let (_, block): (usize, RawBlock) = slot;
            footprint = footprint.saturating_add(block.memory_footprint());
            let ghost before = blocks@;
            blocks.push(block);
            slot_numas.push(numa_node);
            assert(blocks@.drop_last() =~= before);
            assert(blocks@ =~= inserted_blocks(slots@.take(it.index() + 1)));
            assert(slot_numas@ =~= Seq::new((it.index() + 1) as nat, |i: int| numa_node));
        }
        assert(slots@.take(slots@.len() as int) =~= slots@);
        Ok(SealedBlock { slots: blocks, footprint, materialized_at: now, slot_numas })
    }
}

/// What inserting a slot into a block came to.
#[derive(Clone, Copy, Debug, PartialEq, Eq, Structural)]
pub enum SlotInsertResult {
    /// The slot was empty and is filled now.
    Inserted { completed: bool, footprint_added: u64 },
    /// The slot was filled before; nothing changed.
    Duplicate,
}

/// How many of `slots` are empty.
pub open spec fn missing(slots: Seq<Option<RawBlock>>) -> nat
    decreases slots.len(),
{
    if slots.len() == 0 {
        0
    } else {
        missing(slots.drop_last()) + if slots.last() is None {
            1nat
        } else {
            0nat
        }
    }
}

/// How many bytes the filled ones of `slots` hold.
pub open spec fn filled_bytes(slots: Seq<Option<RawBlock>>) -> nat
    decreases slots.len(),
{
    if slots.len() == 0 {
        0
    } else {
        filled_bytes(slots.drop_last()) + match slots.last() {
            Some(block) => block.bytes(),
            None => 0,
        }
    }
}

/// Whether every slot is filled.
pub open spec fn all_filled(slots: Seq<Option<RawBlock>>) -> bool {
    forall|i: int| 0 <= i < slots.len() ==> #[trigger] slots[i] is Some
}

/// What the filled slots hold, in order.
pub open spec fn filled_blocks(slots: Seq<Option<RawBlock>>) -> Seq<RawBlock>
    decreases slots.len(),
{
    if slots.len() == 0 {
        Seq::empty()
    } else {
        match slots.last() {
            Some(raw) => filled_blocks(slots.drop_last()).push(raw),
            None => filled_blocks(slots.drop_last()),
        }
    }
}

/// What the slots hold, once they are filled.
pub open spec fn unwrapped(slots: Seq<Option<RawBlock>>) -> Seq<RawBlock> {
    slots.map_values(|s: Option<RawBlock>| s->0)
}

pub proof fn lemma_missing(slots: Seq<Option<RawBlock>>)
    ensures
        missing(slots) <= slots.len(),
        missing(slots) == 0 <==> all_filled(slots),
    decreases slots.len(),
{
    if slots.len() > 0 {
        let front = slots.drop_last();
        lemma_missing(front);
        if all_filled(slots) {
            assert(slots[slots.len() - 1] is Some);
            assert forall|i: int| 0 <= i < front.len() implies #[trigger] front[i] is Some by {
                assert(slots[i] is Some);
            }
        }
        if missing(slots) == 0 {
            assert forall|i: int| 0 <= i < slots.len() implies #[trigger] slots[i] is Some by {
                if i < front.len() {
                    assert(front[i] is Some);
                }
            }
        }
    }
}

pub proof fn lemma_fill(slots: Seq<Option<RawBlock>>, i: int, block: RawBlock)
    requires
        0 <= i < slots.len(),
        slots[i] is None,
    ensures
        missing(slots.update(i, Some(block))) + 1 == missing(slots),
        filled_bytes(slots.update(i, Some(block))) == filled_bytes(slots) + block.bytes(),
    decreases slots.len(),
{
    let after = slots.update(i, Some(block));
    if i == slots.len() - 1 {
        assert(after.drop_last() =~= slots.drop_last());
    } else {
        lemma_fill(slots.drop_last(), i, block);
        assert(after.drop_last() =~= slots.drop_last().update(i, Some(block)));
        assert(after.last() == slots.last());
    }
}

pub proof fn lemma_unwrapped_bytes(slots: Seq<Option<RawBlock>>)
    requires
        all_filled(slots),
    ensures
        filled_bytes(slots) == slot_bytes(unwrapped(slots)),
    decreases slots.len(),
{
    if slots.len() > 0 {
        let front = slots.drop_last();
        assert forall|i: int| 0 <= i < front.len() implies #[trigger] front[i] is Some by {
            assert(slots[i] is Some);
        }
        lemma_unwrapped_bytes(front);
        assert(slots[slots.len() - 1] is Some);
        assert(unwrapped(slots).drop_last() =~= unwrapped(front));
    }
}

proof fn lemma_all_empty(slots: Seq<Option<RawBlock>>)
    requires
        forall|i: int| 0 <= i < slots.len() ==> slots[i] is None,
    ensures
        missing(slots) == slots.len(),
        filled_bytes(slots) == 0,
    decreases slots.len(),
{
    if slots.len() > 0 {
        lemma_all_empty(slots.drop_last());
    }
}

/// A block whose slots are still being filled.
#[derive(Debug)]
pub struct InflightBlock {
    slots: Vec<Option<RawBlock>>,
    remaining: usize,
    total_slots: usize,
    footprint: u64,
    created_at: u64,
    slot_numas: Vec<NumaNode>,
}

impl InflightBlock {
    /// What each slot holds, if anything.
    pub closed spec fn slots(self) -> Seq<Option<RawBlock>> {
        self.slots@
    }

    /// The NUMA node of each slot.
    pub closed spec fn numas(self) -> Seq<NumaNode> {
        self.slot_numas@
    }

    /// When the block was created, in nanoseconds.
    pub closed spec fn created_at(self) -> u64 {
        self.created_at
    }

    /// The counts agree with the slots.
    pub closed spec fn wf(self) -> bool {
        &&& self.slots@.len() == self.total_slots
        &&& self.slot_numas@.len() == self.total_slots
        &&& self.remaining == missing(self.slots@)
        &&& self.footprint == capped(filled_bytes(self.slots@))
    }

    /// Whether a slot is filled.
    pub fn is_filled(&self, slot_id: usize) -> (r: bool)
        requires
            self.wf(),
            slot_id < self.slots().len(),
        ensures
            r == (self.slots()[slot_id as int] is Some),
    {
        self.slots[slot_id].is_some()
    }

    /// Gives the block up, and returns what its filled slots hold.
    pub fn into_filled(self) -> (r: Vec<RawBlock>)
        ensures
            r@ == filled_blocks(self.slots()),
    {
        let slots: Vec<Option<RawBlock>> = self.slots;
        let ghost all = slots@;
        let mut out: Vec<RawBlock> = Vec::new();
        assert(all.take(0) =~= Seq::<Option<RawBlock>>::empty());
        for slot in it: slots
            invariant
                it.seq() == all,
                out@ == filled_blocks(all.take(it.index())),
        {
            let ghost k = it.index();
            assert(all.take(k + 1).drop_last() =~= all.take(k));
            assert(all.take(k + 1).last() == slot);
            if let Some(raw) = slot {
                out.push(raw);
            }
        }
        assert(all.take(all.len() as int) =~= all);
        out
    }

    /// A block of `total_slots` empty slots.
    pub fn new(total_slots: usize, now: u64) -> (r: Self)
        ensures
            r.wf(),
            r.slots() == Seq::new(total_slots as nat, |i: int| None::<RawBlock>),
            r.numas() == Seq::new(
                total_slots as nat,
                |i: int| NumaNode(crate::numa::UNKNOWN_NODE),
            ),
            r.created_at() == now,
    {
        let mut slots: Vec<Option<RawBlock>> = Vec::new();
        let mut slot_numas: Vec<NumaNode> = Vec::new();
        let mut i: usize = 0;
        while i < total_slots
            invariant
                i <= total_slots,
                slots@ == Seq::new(i as nat, |i: int| None::<RawBlock>),
                slot_numas@ == Seq::new(i as nat, |i: int| NumaNode(crate::numa::UNKNOWN_NODE)),
            decreases total_slots - i,
        {
            slots.push(None);
            slot_numas.push(NumaNode::unknown());
            i += 1;
            assert(slots@ =~= Seq::new(i as nat, |i: int| None::<RawBlock>));
            assert(slot_numas@ =~= Seq::new(
                i as nat,
                |i: int| NumaNode(crate::numa::UNKNOWN_NODE),
            ));
        }
        proof {
            lemma_all_empty(slots@);
        }
        InflightBlock {
            slots,
            remaining: total_slots,
            total_slots,
            footprint: 0,
            created_at: now,
            slot_numas,
        }
    }

    /// How old the block is at the time `now`, in nanoseconds.
    pub fn age(&self, now: u64) -> (r: u64)
        ensures
            r == if now < self.created_at() {
                0
            } else {
                now - self.created_at()
            },
    {
        now.saturating_sub(self.created_at)
    }

    /// How many slots are filled.
    pub fn filled_count(&self) -> (r: usize)
        requires
            self.wf(),
        ensures
            r == self.slots().len() - missing(self.slots()),
    {
        proof {
            lemma_missing(self.slots@);
        }
        self.total_slots - self.remaining
    }

    /// How many slots there are.
    pub fn total_slots(&self) -> (r: usize)
        requires
            self.wf(),
        ensures
            r == self.slots().len(),
    {
        self.total_slots
    }

    /// How many bytes the filled slots hold, as far as they can be counted.
    pub fn footprint(&self) -> (r: u64)
        requires
            self.wf(),
        ensures
            r == capped(filled_bytes(self.slots())),
    {
        self.footprint
    }

    /// Fills a slot. One that is filled already stays as it is.
    pub fn insert_slot(&mut self, slot_id: usize, block: RawBlock, numa_node: NumaNode) -> (r:
        SlotInsertResult)
        requires
            old(self).wf(),
            slot_id < old(self).slots().len(),
        ensures
            final(self).wf(),
            final(self).created_at() == old(self).created_at(),
            old(self).slots()[slot_id as int] is Some ==> {
                &&& r is Duplicate
                &&& final(self).slots() == old(self).slots()
                &&& final(self).numas() == old(self).numas()
            },
            old(self).slots()[slot_id as int] is None ==> {
                &&& final(self).slots() == old(self).slots().update(slot_id as int, Some(block))
                &&& final(self).numas() == old(self).numas().update(slot_id as int, numa_node)
                &&& r matches SlotInsertResult::Inserted { completed, footprint_added } && completed
                    == all_filled(final(self).slots()) && footprint_added == block.bytes()
            },
    {
        if self.slots[slot_id].is_some() {
            return SlotInsertResult::Duplicate;
        }
        let footprint_added: u64 = block.memory_footprint();
        proof {
            lemma_missing(self.slots@);
            lemma_fill(self.slots@, slot_id as int, block);
            lemma_missing(self.slots@.update(slot_id as int, Some(block)));
        }
        self.footprint = self.footprint.saturating_add(footprint_added);
        self.slots[slot_id] = Some(block);
        self.slot_numas[slot_id] = numa_node;
        self.remaining = self.remaining - 1;
        SlotInsertResult::Inserted { completed: self.remaining == 0, footprint_added }
    }

    /// Seals the block, all of whose slots are filled.
    pub fn seal(self, now: u64) -> (r: SealedBlock)
        requires
            self.wf(),
            all_filled(self.slots()),
        ensures
            r.blocks() == unwrapped(self.slots()),
            r.numas() == self.numas(),
            r.footprint() == capped(filled_bytes(self.slots())),
            r.sealed_at() == now,
    {
        let mut blocks: Vec<RawBlock> = Vec::new();
        let ghost filled = self.slots@;
        let slots: Vec<Option<RawBlock>> = self.slots;
        for slot in it: slots
            invariant
                it.seq() == filled,
                all_filled(filled),
                blocks@ == unwrapped(filled.take(it.index())),
        {
            match slot {
                Some(block) => {
                    blocks.push(block);
                },
                None => {
                    assert(filled[it.index()] is Some);
                },
            }
            assert(blocks@ =~= unwrapped(filled.take(it.index() + 1)));
        }
        proof {
            assert(filled.take(filled.len() as int) =~= filled);
            lemma_unwrapped_bytes(filled);
        }
        SealedBlock {
            slots: blocks,
            footprint: self.footprint,
            materialized_at: now,
            slot_numas: self.slot_numas,
        }
    }
}

/// What is counted is exact up to the largest number, and that number beyond it.
pub proof fn law_counts_are_exact_as_far_as_they_go(n: nat)
    ensures
        n <= u64::MAX ==> capped(n) == n,
        n > u64::MAX ==> capped(n) == u64::MAX,
{
}

/// Bytes and memory add up over segments, slots and what is filled of a block, and a block lacks
/// as many slots as are not filled.
pub proof fn law_parts_of_blocks_add_up(
    segments: Seq<Segment>,
    segment: Segment,
    slots: Seq<RawBlock>,
    slot: RawBlock,
    partly: Seq<Option<RawBlock>>,
)
    ensures
        segment_bytes(Seq::empty()) == 0,
        segment_bytes(segments.push(segment)) == segment_bytes(segments) + segment.size,
        slot_bytes(Seq::empty()) == 0,
        slot_bytes(slots.push(slot)) == slot_bytes(slots) + slot.bytes(),
        slot_allocations(Seq::empty()).len() == 0,
        slot_allocations(slots.push(slot)) == slot_allocations(slots) + Seq::new(
            slot.segments().len(),
            |i: int| slot.segments()[i].allocation,
        ),
        filled_bytes(partly.push(Some(slot))) == filled_bytes(partly) + slot.bytes(),
        filled_bytes(partly.push(None)) == filled_bytes(partly),
        filled_blocks(partly.push(Some(slot))) == filled_blocks(partly).push(slot),
        filled_blocks(partly.push(None)) == filled_blocks(partly),
        missing(partly.push(Some(slot))) == missing(partly),
        missing(partly.push(None)) == missing(partly) + 1,
{
    assert(segments.push(segment).drop_last() =~= segments);
    assert(slots.push(slot).drop_last() =~= slots);
    assert(partly.push(Some(slot)).drop_last() =~= partly);
    assert(partly.push(None).drop_last() =~= partly);
    assert(segment_allocations(slot.segments()) =~= Seq::new(
        slot.segments().len(),
        |i: int| slot.segments()[i].allocation,
    ));
}

/// Lists of bytes and of slots are shown whole and in order.
pub proof fn law_slots_are_shown_whole(
    bytes: Seq<Vec<u8>>,
    pairs: Seq<(RawBlock, NumaNode)>,
    slots: Seq<(usize, RawBlock)>,
    filled: Seq<Option<RawBlock>>,
    i: int,
)
    ensures
        byte_views(bytes).len() == bytes.len(),
        0 <= i < bytes.len() ==> byte_views(bytes)[i] == bytes[i]@,
        blocks_of(pairs).len() == pairs.len(),
        0 <= i < pairs.len() ==> blocks_of(pairs)[i] == pairs[i].0,
        inserted_blocks(slots).len() == slots.len(),
        0 <= i < slots.len() ==> inserted_blocks(slots)[i] == slots[i].1,
        unwrapped(filled).len() == filled.len(),
        0 <= i < filled.len() && filled[i] is Some ==> Some(unwrapped(filled)[i]) == filled[i],
        all_filled(filled) && 0 <= i < filled.len() ==> filled[i] is Some,
        complete_in_order(slots, slots.len()) <==> forall|k: int|
            0 <= k < slots.len() ==> (#[trigger] slots[k]).0 == k,
{
}

} // verus!
