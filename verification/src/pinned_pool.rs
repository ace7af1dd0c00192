//! Pools of pinned host memory: sharded, one set for each NUMA node.

use vstd::prelude::*;
use vstd::string::*;
use crate::numa::NumaNode;
use crate::range_alloc::{
    gap, lemma_round_up, lemma_sum_sizes_bound, lemma_sum_sizes_remove, round_up, sum_sizes, takes,
    ByteRange, RangeAllocator,
};

verus! {

/// How many allocations a pool keeps at a time.
pub const MAX_ALLOCS: usize = 4_000_000;

/// What unit sizes are a multiple of, so that direct I/O accepts them.
pub const UNIT_ALIGNMENT: u64 = 512;

/// The host address and the device address of the same byte.
#[derive(Clone, Copy, Debug, PartialEq, Eq, Structural)]
pub struct MappedPinnedPtr {
    pub host: u64,
    pub device: u64,
}

impl MappedPinnedPtr {
    /// The pair of `host` and `device`.
    pub fn new(host: u64, device: u64) -> (r: Self)
        ensures
            r == (MappedPinnedPtr { host, device }),
    {
        Self { host, device }
    }

    /// The host address.
    pub fn host(self) -> (r: u64)
        ensures
            r == self.host,
    {
        self.host
    }

    /// The device address.
    pub fn device(self) -> (r: u64)
        ensures
            r == self.device,
    {
        self.device
    }

    /// The pair `offset` bytes further on.
    pub fn add(self, offset: usize) -> (r: Self)
        requires
            self.host + offset <= u64::MAX,
            self.device + offset <= u64::MAX,
        ensures
            r.host == self.host + offset,
            r.device == self.device + offset,
    {
        Self { host: self.host + offset as u64, device: self.device + offset as u64 }
    }
}

/// A region of pinned memory: where it starts for the host and for the device,
/// and its length.
#[derive(Clone, Copy, Debug, PartialEq, Eq, Structural)]
pub struct PinnedBacking {
    pub host: u64,
    pub device: u64,
    pub size: u64,
}

impl PinnedBacking {
    /// Whether the region has a length and ends inside both address spaces.
    pub open spec fn wf(self) -> bool {
        &&& self.host > 0
        &&& self.device > 0
        &&& self.size > 0
        &&& self.host + self.size <= u64::MAX
        &&& self.device + self.size <= u64::MAX
    }
}

/// A range of a pool, with the addresses at which it starts.
#[derive(Clone, Copy, Debug, PartialEq, Eq, Structural)]
pub struct PinnedAllocation {
    pub range: ByteRange,
    pub ptr: u64,
    pub device_ptr: u64,
    pub shard: usize,
    pub node: NumaNode,
}

impl PinnedAllocation {
    /// Whether the range ends inside both address spaces.
    pub open spec fn wf(self) -> bool {
        &&& self.ptr > 0
        &&& self.device_ptr > 0
        &&& self.ptr + self.range.size_bytes <= u64::MAX
        &&& self.device_ptr + self.range.size_bytes <= u64::MAX
    }

    /// The host address at which the range starts.
    pub fn as_ptr(&self) -> (r: u64)
        ensures
            r == self.ptr,
    {
        self.ptr
    }

    /// The addresses at which the range starts.
    pub fn mapped_ptr(&self) -> (r: MappedPinnedPtr)
        ensures
            r == (MappedPinnedPtr { host: self.ptr, device: self.device_ptr }),
    {
        MappedPinnedPtr { host: self.ptr, device: self.device_ptr }
    }

    /// The addresses of the `size` bytes at `offset`, which lie in the range.
    pub fn mapped_ptr_at(&self, offset: usize, size: usize) -> (r: MappedPinnedPtr)
        requires
            self.wf(),
            offset + size <= self.range.size_bytes,
        ensures
            r.host == self.ptr + offset,
            r.device == self.device_ptr + offset,
    {
        self.mapped_ptr().add(offset)
    }

    /// The addresses of the `size` bytes at the host address `host_ptr`, which
    /// lie in the range.
    pub fn mapped_ptr_for_host_range(&self, host_ptr: u64, size: usize) -> (r: MappedPinnedPtr)
        requires
            self.wf(),
            self.ptr <= host_ptr,
            host_ptr + size <= self.ptr + self.range.size_bytes,
        ensures
            r.host == host_ptr,
            r.device == self.device_ptr + (host_ptr - self.ptr),
    {
        let offset: u64 = host_ptr - self.ptr;
        MappedPinnedPtr { host: host_ptr, device: self.device_ptr + offset }
    }
}

/// The larger of two numbers.
pub open spec fn larger(a: int, b: int) -> int {
    if a < b {
        b
    } else {
        a
    }
}

/// The smallest number of units of `b` that hold `a`.
pub open spec fn ceiling(a: int, b: int) -> int {
    (a + b - 1) / b
}

/// The unit of a pool: the hint, or the alignment without one, raised until the
/// units of the pool can be counted in 32 bits, and rounded up to the alignment.
pub open spec fn unit_size(pool_size: int, hint: Option<u64>) -> int {
    let base = match hint {
        Some(h) => h as int,
        None => UNIT_ALIGNMENT as int,
    };
    round_up(larger(base, ceiling(pool_size, 0xffff_ffff)), UNIT_ALIGNMENT as int)
}

/// What kind of memory a pool is made of.
#[derive(Clone, Copy, Debug, PartialEq, Eq, Structural)]
pub enum BackingKind {
    /// Huge pages, first touched on the pool's node.
    HugePages,
    /// Regular pages, first touched on the pool's node.
    Regular,
    /// Mapped pages of the device runtime.
    CudaHostAlloc,
    /// Pages that are registered with the Ascend runtime.
    AscendRegistered,
}

/// Which memory a pool is made of. Huge pages are to be had with CUDA only; with
/// an SSD cache the pages have to be quick to read back.
pub fn backing_kind(use_hugepages: bool, ssd_enabled: bool, cuda: bool) -> (r: Result<
    BackingKind,
    String,
>)
    ensures
        match r {
            Ok(kind) => kind == (if !cuda {
                BackingKind::AscendRegistered
            } else if use_hugepages {
                BackingKind::HugePages
            } else if ssd_enabled {
                BackingKind::Regular
            } else {
                BackingKind::CudaHostAlloc
            }),
            Err(m) => m@ == "HugePages require CUDA feature; use --features ascend"@,
        },
        r is Err == (use_hugepages && !cuda),
{
    if use_hugepages {
        if cuda {
            Ok(BackingKind::HugePages)
        } else {
            Err(String::from_str("HugePages require CUDA feature; use --features ascend"))
        }
    } else if !cuda {
        Ok(BackingKind::AscendRegistered)
    } else if ssd_enabled {
        Ok(BackingKind::Regular)
    } else {
        Ok(BackingKind::CudaHostAlloc)
    }
}

/// One region of pinned memory and the allocator of its bytes.
#[derive(Debug)]
pub struct PinnedMemoryPool {
    backing: PinnedBacking,
    allocator: RangeAllocator,
}

impl PinnedMemoryPool {
    /// The memory of the pool.
    pub closed spec fn backing(self) -> PinnedBacking {
        self.backing
    }

    /// The allocator of the pool's bytes.
    pub closed spec fn ranges(self) -> RangeAllocator {
        self.allocator
    }

    /// The allocator is in order and inside the memory.
    pub open spec fn wf(self) -> bool {
        &&& self.backing().wf()
        &&& self.ranges().wf()
        &&& self.ranges().total() <= self.backing().size
    }

    /// How many bytes are handed out.
    pub open spec fn used_bytes(self) -> int {
        sum_sizes(self.ranges().used())
    }

    /// How many bytes can be handed out.
    pub open spec fn total_bytes(self) -> int {
        self.ranges().total()
    }

    /// The longest range that can be handed out.
    pub open spec fn largest_free(self) -> int {
        self.ranges().largest()
    }

    /// The unit size of a pool of `pool_size` bytes.
    pub fn compute_unit_size(pool_size: u64, hint: Option<u64>) -> (r: u64)
        requires
            hint matches Some(h) ==> 0 < h <= u64::MAX - 511,
        ensures
            r == unit_size(pool_size as int, hint),
            r > 0,
            r % UNIT_ALIGNMENT == 0,
            hint matches Some(h) ==> r >= h,
            pool_size as int / r as int <= 0xffff_ffff,
    {
        let max_units: u64 = 0xffff_ffff;
        let quotient: u64 = pool_size / max_units;
        let min_unit: u64 = if pool_size % max_units == 0 {
            quotient
        } else {
            quotient + 1
        };
        let base: u64 = match hint {
            Some(h) => h,
            None => UNIT_ALIGNMENT,
        };
        let unit: u64 = if base < min_unit {
            min_unit
        } else {
            base
        };
        assert(min_unit == ceiling(pool_size as int, 0xffff_ffff));
        proof {
            lemma_round_up(unit as int, UNIT_ALIGNMENT as int);
        }
        let r: u64 = (unit + (UNIT_ALIGNMENT - 1)) / UNIT_ALIGNMENT * UNIT_ALIGNMENT;
        assert(pool_size <= min_unit * 0xffff_ffff);
        assert(pool_size as int / r as int <= 0xffff_ffff) by (nonlinear_arith)
            requires
                0 < r,
                min_unit <= r,
                pool_size <= min_unit * 0xffff_ffff,
                0 <= pool_size,
        ;
        r
    }

    /// A pool on `backing`, with nothing handed out.
    pub fn new(backing: PinnedBacking, unit_size_hint: Option<u64>) -> (r: Self)
        requires
            backing.wf(),
            unit_size_hint matches Some(h) ==> 0 < h <= u64::MAX - 511,
        ensures
            r.wf(),
            r.backing() == backing,
            r.ranges().used() == Seq::<ByteRange>::empty(),
            r.ranges().unit() == unit_size(backing.size as int, unit_size_hint),
            r.ranges().total() == backing.size as int / r.ranges().unit() * r.ranges().unit(),
            r.ranges().max_allocs() == MAX_ALLOCS,
    {
        let unit: u64 = Self::compute_unit_size(backing.size, unit_size_hint);
        let allocator: RangeAllocator = RangeAllocator::new_with_unit_size_and_max_allocs(
            backing.size,
            unit,
            MAX_ALLOCS,
        );
        assert(backing.size as int / unit as int * unit as int <= backing.size) by (nonlinear_arith)
            requires
                unit > 0,
        ;
        PinnedMemoryPool { backing, allocator }
    }

    /// Hands out the first range that holds `size` bytes; none where no gap does.
    pub fn allocate(&mut self, size: u64, shard: usize, node: NumaNode) -> (r: Option<
        PinnedAllocation,
    >)
        requires
            old(self).wf(),
            size > 0,
        ensures
            final(self).wf(),
            final(self).backing() == old(self).backing(),
            final(self).ranges().total() == old(self).ranges().total(),
            final(self).ranges().unit() == old(self).ranges().unit(),
            final(self).ranges().max_allocs() == old(self).ranges().max_allocs(),
            r is Some == old(self).ranges().fits(size as int),
            match r {
                Some(a) => {
                    &&& takes(old(self).ranges(), final(self).ranges(), size as int, a.range)
                    &&& a.ptr == old(self).backing().host + a.range.offset_bytes
                    &&& a.device_ptr == old(self).backing().device + a.range.offset_bytes
                    &&& a.shard == shard
                    &&& a.node == node
                    &&& a.wf()
                    &&& a.range.offset_bytes + a.range.size_bytes <= old(self).backing().size
                    &&& a.range.size_bytes >= size
                },
                None => *final(self) == *old(self),
            },
    {
        proof {
            lemma_round_up(size as int, self.allocator.unit());
        }
        let before: Ghost<RangeAllocator> = Ghost(self.allocator);
        match self.allocator.allocate(size) {
            Some(range) => {
                proof {
                    let i = choose|i: int|
                        0 <= i <= before@.used().len() && #[trigger] crate::range_alloc::gap(
                            before@.used(),
                            before@.total(),
                            i,
                        ) >= round_up(size as int, before@.unit()) && self.allocator.used()
                            == before@.used().insert(i, range);
                    assert(self.allocator.used()[i] == range);
                }
                Some(
                    PinnedAllocation {
                        range,
                        ptr: self.backing.host + range.offset_bytes,
                        device_ptr: self.backing.device + range.offset_bytes,
                        shard,
                        node,
                    },
                )
            },
            None => None,
        }
    }

    /// Takes an allocation back.
    pub fn free(&mut self, allocation: &PinnedAllocation) -> (r: bool)
        requires
            old(self).wf(),
        ensures
            final(self).wf(),
            final(self).backing() == old(self).backing(),
            final(self).ranges().total() == old(self).ranges().total(),
            final(self).ranges().unit() == old(self).ranges().unit(),
            final(self).ranges().max_allocs() == old(self).ranges().max_allocs(),
            r == old(self).ranges().used().contains(allocation.range),
            !r ==> final(self).ranges().used() == old(self).ranges().used(),
            r ==> exists|i: int|
                0 <= i < old(self).ranges().used().len() && #[trigger] old(self).ranges().used()[i]
                    == allocation.range && final(self).ranges().used()
                    == old(self).ranges().used().remove(i),
    {
        self.allocator.free(allocation.range)
    }

    /// How many bytes are handed out, and how many can be.
    pub fn usage(&self) -> (r: (u64, u64))
        requires
            self.wf(),
        ensures
            r.0 == self.used_bytes(),
            r.1 == self.total_bytes(),
            r.0 <= r.1,
    {
        proof {
            let used = self.ranges().used();
            lemma_sum_sizes_bound(used, self.ranges().total(), used.len() as int);
            assert(used.take(used.len() as int) =~= used);
        }
        let total: u64 = self.allocator.total_bytes();
        let free: u64 = self.allocator.total_free_bytes();
        (total - free, total)
    }

    /// The longest range that can be handed out.
    pub fn largest_free_allocation(&self) -> (r: u64)
        requires
            self.wf(),
        ensures
            r == self.largest_free(),
    {
        self.allocator.largest_free_allocation_bytes()
    }

    /// Where the memory starts, and its length.
    pub fn memory_region(&self) -> (r: (u64, u64))
        ensures
            r == (self.backing().host, self.backing().size),
    {
        (self.backing.host, self.backing.size)
    }
}

/// How many bytes of the first `n` shards are handed out.
pub open spec fn shards_used(shards: Seq<PinnedMemoryPool>, n: int) -> int
    decreases n,
{
    if n <= 0 {
        0
    } else {
        shards_used(shards, n - 1) + shards[n - 1].used_bytes()
    }
}

/// How many bytes the first `n` shards can hand out.
pub open spec fn shards_total(shards: Seq<PinnedMemoryPool>, n: int) -> int
    decreases n,
{
    if n <= 0 {
        0
    } else {
        shards_total(shards, n - 1) + shards[n - 1].total_bytes()
    }
}

/// The longest range that one of the first `n` shards can hand out.
pub open spec fn shards_largest(shards: Seq<PinnedMemoryPool>, n: int) -> int
    decreases n,
{
    if n <= 0 {
        0
    } else {
        larger(shards_largest(shards, n - 1), shards[n - 1].largest_free())
    }
}

proof fn lemma_shards_total(shards: Seq<PinnedMemoryPool>, m: int, n: int)
    requires
        0 <= m <= n <= shards.len(),
        forall|i: int| 0 <= i < shards.len() ==> (#[trigger] shards[i]).wf(),
    ensures
        0 <= shards_used(shards, m) <= shards_total(shards, m) <= shards_total(shards, n),
    decreases n,
{
    if m < n {
        lemma_shards_total(shards, m, n - 1);
        assert(shards[n - 1].wf());
    } else if n > 0 {
        lemma_shards_total(shards, n - 1, n - 1);
        assert(shards[n - 1].wf());
        let used = shards[n - 1].ranges().used();
        lemma_sum_sizes_bound(used, shards[n - 1].ranges().total(), used.len() as int);
        assert(used.take(used.len() as int) =~= used);
    }
}

proof fn lemma_same_totals(a: Seq<PinnedMemoryPool>, b: Seq<PinnedMemoryPool>, n: int)
    requires
        a.len() == b.len(),
        0 <= n <= a.len(),
        forall|i: int| 0 <= i < a.len() ==> (#[trigger] a[i]).total_bytes() == b[i].total_bytes(),
    ensures
        shards_total(a, n) == shards_total(b, n),
    decreases n,
{
    if n > 0 {
        lemma_same_totals(a, b, n - 1);
        assert(a[n - 1].total_bytes() == b[n - 1].total_bytes());
    }
}

/// A pool that is split into shards, each with memory and an allocator of its
/// own. Requests start at the next shard in turn.
#[derive(Debug)]
pub struct ShardedPinnedPool {
    shards: Vec<PinnedMemoryPool>,
    cursor: usize,
}

/// The shard that the `k`th attempt of a request is made on.
pub open spec fn attempt(cursor: int, n: int, k: int) -> int {
    (cursor % n + k) % n
}

/// Whether `after` is `before` with `a` handed out for a request of `size` bytes
/// by the shard of the `k`th attempt, where the attempts before it failed.
pub open spec fn served_at(
    before: ShardedPinnedPool,
    after: ShardedPinnedPool,
    size: int,
    node: NumaNode,
    a: PinnedAllocation,
    k: int,
) -> bool {
    let n = before.shards().len() as int;
    let s = attempt(before.cursor(), n, k);
    let pool = before.shards()[s];
    &&& 0 <= k < n
    &&& 0 <= s < n
    &&& forall|j: int|
        0 <= j < k ==> !before.shards()[#[trigger] attempt(before.cursor(), n, j)].ranges().fits(
            size,
        )
    &&& pool.ranges().fits(size)
    &&& takes(pool.ranges(), after.shards()[s].ranges(), size, a.range)
    &&& a.ptr == pool.backing().host + a.range.offset_bytes
    &&& a.device_ptr == pool.backing().device + a.range.offset_bytes
    &&& a.shard == s
    &&& a.node == node
    &&& a.wf()
    &&& a.range.size_bytes >= size
    &&& a.range.offset_bytes + a.range.size_bytes <= pool.backing().size
    &&& after.shards().len() == n
    &&& after.shards()[s].backing() == pool.backing()
    &&& after.shards()[s].ranges().total() == pool.ranges().total()
    &&& after.shards()[s].ranges().unit() == pool.ranges().unit()
    &&& after.shards()[s].ranges().max_allocs() == pool.ranges().max_allocs()
    &&& forall|j: int| 0 <= j < n && j != s ==> after.shards()[j] == before.shards()[j]
}

/// Whether a request of `size` bytes turns `before` into `after` with the answer
/// `r`: the next turn comes, and the first shard that has the bytes serves it.
pub open spec fn serves(
    before: ShardedPinnedPool,
    after: ShardedPinnedPool,
    size: int,
    node: NumaNode,
    r: Option<PinnedAllocation>,
) -> bool {
    &&& after.cursor() == if before.cursor() == usize::MAX {
        0
    } else {
        before.cursor() + 1
    }
    &&& match r {
        Some(a) => exists|k: int| #[trigger] served_at(before, after, size, node, a, k),
        None => {
            &&& after.shards() == before.shards()
            &&& forall|j: int|
                0 <= j < before.shards().len() ==> !(#[trigger] before.shards()[j]).ranges().fits(
                    size,
                )
        },
    }
}

/// Whether `after` is `before` with `a` taken back by the shard that it is from, where
/// that had handed it out, which `r` says.
pub open spec fn gives_back(
    before: ShardedPinnedPool,
    after: ShardedPinnedPool,
    a: PinnedAllocation,
    r: bool,
) -> bool {
    let n = before.shards().len();
    &&& after.shards().len() == n
    &&& after.cursor() == before.cursor()
    &&& r == (a.shard < n && before.shards()[a.shard as int].ranges().used().contains(a.range))
    &&& forall|j: int|
        0 <= j < n && j != a.shard ==> #[trigger] after.shards()[j] == before.shards()[j]
    &&& a.shard < n ==> {
        let was = before.shards()[a.shard as int];
        let is = after.shards()[a.shard as int];
        &&& is.backing() == was.backing()
        &&& is.ranges().total() == was.ranges().total()
        &&& is.ranges().unit() == was.ranges().unit()
        &&& is.ranges().max_allocs() == was.ranges().max_allocs()
        &&& !r ==> is.ranges().used() == was.ranges().used()
        &&& r ==> exists|i: int|
            0 <= i < was.ranges().used().len() && #[trigger] was.ranges().used()[i] == a.range
                && is.ranges().used() == was.ranges().used().remove(i)
    }
}

proof fn lemma_shards_largest(shards: Seq<PinnedMemoryPool>, size: int, n: int)
    requires
        0 <= n <= shards.len(),
        size > 0,
        forall|i: int| 0 <= i < shards.len() ==> (#[trigger] shards[i]).wf(),
    ensures
        size <= shards_largest(shards, n) <==> exists|i: int|
            0 <= i < n && (#[trigger] shards[i]).ranges().fits(size),
    decreases n,
{
    if n > 0 {
        lemma_shards_largest(shards, size, n - 1);
        assert(shards[n - 1].wf());
        shards[n - 1].ranges().law_largest_is_what_fits(size);
        if size <= shards_largest(shards, n) && size > shards_largest(shards, n - 1) {
            assert(shards[n - 1].ranges().fits(size));
        }
    }
}

proof fn lemma_shards_used_change(
    a: Seq<PinnedMemoryPool>,
    b: Seq<PinnedMemoryPool>,
    k: int,
    n: int,
)
    requires
        a.len() == b.len(),
        0 <= n <= a.len(),
        0 <= k < a.len(),
        forall|j: int| 0 <= j < a.len() && j != k ==> #[trigger] b[j] == a[j],
    ensures
        shards_used(b, n) == shards_used(a, n) + if k < n {
            b[k].used_bytes() - a[k].used_bytes()
        } else {
            0
        },
    decreases n,
{
    if n > 0 {
        lemma_shards_used_change(a, b, k, n - 1);
        if n - 1 != k {
            assert(b[n - 1] == a[n - 1]);
        }
    }
}

/// Taking an allocation back frees as many bytes as it has.
proof fn lemma_gives_back(
    before: ShardedPinnedPool,
    after: ShardedPinnedPool,
    a: PinnedAllocation,
    r: bool,
)
    requires
        gives_back(before, after, a, r),
    ensures
        after.used_bytes() == before.used_bytes() - if r {
            a.range.size_bytes as int
        } else {
            0
        },
{
    let n = before.shards().len() as int;
    if a.shard < n {
        let k = a.shard as int;
        let was = before.shards()[k].ranges().used();
        let is = after.shards()[k].ranges().used();
        lemma_shards_used_change(before.shards(), after.shards(), k, n);
        if r {
            let i = choose|i: int|
                0 <= i < was.len() && #[trigger] was[i] == a.range && is == was.remove(i);
            lemma_sum_sizes_remove(was, i);
        }
    } else {
        assert(after.shards() =~= before.shards());
    }
}

proof fn lemma_pools_total_change(
    a: Seq<(u32, ShardedPinnedPool)>,
    b: Seq<(u32, ShardedPinnedPool)>,
    k: int,
    n: int,
)
    requires
        a.len() == b.len(),
        0 <= n <= a.len(),
        0 <= k < a.len(),
        forall|j: int| 0 <= j < a.len() && j != k ==> #[trigger] b[j] == a[j],
    ensures
        pools_total(b, n) == pools_total(a, n) + if k < n {
            b[k].1.total_bytes() - a[k].1.total_bytes()
        } else {
            0
        },
    decreases n,
{
    if n > 0 {
        lemma_pools_total_change(a, b, k, n - 1);
        if n - 1 != k {
            assert(b[n - 1] == a[n - 1]);
        }
    }
}

proof fn lemma_pools_used_change(
    a: Seq<(u32, ShardedPinnedPool)>,
    b: Seq<(u32, ShardedPinnedPool)>,
    k: int,
    n: int,
)
    requires
        a.len() == b.len(),
        0 <= n <= a.len(),
        0 <= k < a.len(),
        forall|j: int| 0 <= j < a.len() && j != k ==> #[trigger] b[j] == a[j],
    ensures
        pools_used(b, n) == pools_used(a, n) + if k < n {
            b[k].1.used_bytes() - a[k].1.used_bytes()
        } else {
            0
        },
    decreases n,
{
    if n > 0 {
        lemma_pools_used_change(a, b, k, n - 1);
        if n - 1 != k {
            assert(b[n - 1] == a[n - 1]);
        }
    }
}

impl ShardedPinnedPool {
    /// A pool is exhausted for a request exactly if the longest range that it can hand
    /// out is shorter.
    pub proof fn law_exhausted_means_too_short(self, size: int)
        requires
            self.wf(),
            size > 0,
        ensures
            self.exhausted(size) <==> self.largest_free() < size,
    {
        lemma_shards_largest(self.shards(), size, self.shards().len() as int);
    }

    /// The shards.
    pub closed spec fn shards(self) -> Seq<PinnedMemoryPool> {
        self.shards@
    }

    /// How many requests were made, modulo the word size.
    pub closed spec fn cursor(self) -> int {
        self.cursor as int
    }

    /// There are shards, each in order, and their bytes can be counted.
    pub open spec fn wf(self) -> bool {
        &&& self.shards().len() > 0
        &&& self.shards().len() <= usize::MAX
        &&& 0 <= self.cursor() <= usize::MAX
        &&& forall|i: int| 0 <= i < self.shards().len() ==> (#[trigger] self.shards()[i]).wf()
        &&& shards_total(self.shards(), self.shards().len() as int) <= u64::MAX
    }

    /// Whether no shard has `size` bytes left in one piece.
    pub open spec fn exhausted(self, size: int) -> bool {
        forall|j: int| 0 <= j < self.shards().len() ==> !(#[trigger] self.shards()[j]).ranges().fits(size)
    }

    /// How many bytes all shards can hand out.
    pub open spec fn total_bytes(self) -> int {
        shards_total(self.shards(), self.shards().len() as int)
    }

    /// How many bytes are handed out.
    pub open spec fn used_bytes(self) -> int {
        shards_used(self.shards(), self.shards().len() as int)
    }

    /// The longest range that a shard can hand out.
    pub open spec fn largest_free(self) -> int {
        shards_largest(self.shards(), self.shards().len() as int)
    }

    /// How many shards a pool has, at least one, and the bytes of each.
    pub fn layout(total_capacity: usize, num_shards: usize) -> (r: (usize, usize))
        ensures
            r.0 == larger(num_shards as int, 1),
            r.1 == total_capacity as int / r.0 as int,
    {
        let count: usize = if num_shards < 1 {
            1
        } else {
            num_shards
        };
        (count, total_capacity / count)
    }

    /// A pool of `shards`.
    pub fn from_shards(shards: Vec<PinnedMemoryPool>) -> (r: Self)
        requires
            shards@.len() > 0,
            forall|i: int| 0 <= i < shards@.len() ==> (#[trigger] shards@[i]).wf(),
            shards_total(shards@, shards@.len() as int) <= u64::MAX,
        ensures
            r.wf(),
            r.shards() == shards@,
            r.cursor() == 0,
    {
        let count: usize = shards.len();
        assert(count == shards@.len());
        ShardedPinnedPool { shards, cursor: 0 }
    }

    /// Hands out `size` bytes of the first shard that has them, starting at the
    /// shard whose turn it is. There are none only where no shard has them.
    pub fn allocate(&mut self, size: u64, node: NumaNode) -> (r: Option<PinnedAllocation>)
        requires
            old(self).wf(),
            size > 0,
        ensures
            final(self).wf(),
            serves(*old(self), *final(self), size as int, node, r),
    {
        let n: usize = self.shards.len();
        let start: usize = self.cursor % n;
        self.cursor = self.cursor.wrapping_add(1);
        let ghost cursor = old(self).cursor();
        let mut k: usize = 0;
        while k < n
            invariant
                k <= n,
                n == self.shards@.len(),
                n > 0,
                0 <= cursor,
                cursor == old(self).cursor(),
                start == cursor % n as int,
                start < n,
                old(self).wf(),
                self.wf(),
                self.shards@ == old(self).shards(),
                self.cursor() == if cursor == usize::MAX {
                    0
                } else {
                    cursor + 1
                },
                size > 0,
                forall|j: int|
                    0 <= j < k ==> !old(self).shards()[#[trigger] attempt(
                        cursor,
                        n as int,
                        j,
                    )].ranges().fits(size as int),
            decreases n - k,
        {
            let index: usize = if k < n - start {
                start + k
            } else {
                k - (n - start)
            };
            assert(index == attempt(cursor, n as int, k as int)) by {
                if k < n - start {
                    vstd::arithmetic::div_mod::lemma_small_mod((start + k) as nat, n as nat);
                } else {
                    vstd::arithmetic::div_mod::lemma_mod_add_multiples_vanish(
                        (start + k - n) as int,
                        n as int,
                    );
                    vstd::arithmetic::div_mod::lemma_small_mod((start + k - n) as nat, n as nat);
                }
            }
            assert(self.shards()[index as int].wf());
            let found: Option<PinnedAllocation> = self.shards[index].allocate(size, index, node);
            match found {
                Some(a) => {
                    proof {
                        assert forall|i: int| 0 <= i < n implies (#[trigger]
                        self.shards()[i]).wf() by {
                            assert(old(self).shards()[i].wf());
                        }
                        lemma_same_totals(self.shards(), old(self).shards(), n as int);
                        assert(served_at(*old(self), *self, size as int, node, a, k as int));
                    }
                    return Some(a);
                },
                None => {
                    assert(self.shards@ =~= old(self).shards());
                },
            }
            k += 1;
        }
        proof {
            assert forall|j: int| 0 <= j < n implies !(#[trigger] old(self).shards()[j]).ranges().fits(size as int) by {
                let k0 = if j >= start {
                    j - start
                } else {
                    j - start + n
                };
                if j >= start {
                    vstd::arithmetic::div_mod::lemma_small_mod(j as nat, n as nat);
                } else {
                    vstd::arithmetic::div_mod::lemma_mod_add_multiples_vanish(j, n as int);
                    vstd::arithmetic::div_mod::lemma_small_mod(j as nat, n as nat);
                }
                assert(attempt(cursor, n as int, k0) == j);
            }
        }
        None
    }

    /// Gives an allocation back to the shard that it is from.
    pub fn free(&mut self, allocation: &PinnedAllocation) -> (r: bool)
        requires
            old(self).wf(),
        ensures
            final(self).wf(),
            gives_back(*old(self), *final(self), *allocation, r),
    {
        if allocation.shard >= self.shards.len() {
            return false;
        }
        assert(self.shards()[allocation.shard as int].wf());
        let known: bool = self.shards[allocation.shard].free(allocation);
        proof {
            let n = self.shards().len() as int;
            assert forall|i: int| 0 <= i < n implies (#[trigger] self.shards()[i]).wf() by {
                assert(old(self).shards()[i].wf());
            }
            lemma_same_totals(self.shards(), old(self).shards(), n);
        }
        known
    }

    /// How many bytes are handed out, and how many can be, over all shards.
    pub fn usage(&self) -> (r: (u64, u64))
        requires
            self.wf(),
        ensures
            r.0 == self.used_bytes(),
            r.1 == self.total_bytes(),
            r.0 <= r.1,
    {
        let mut used: u64 = 0;
        let mut total: u64 = 0;
        let mut i: usize = 0;
        while i < self.shards.len()
            invariant
                self.wf(),
                i <= self.shards@.len(),
                used == shards_used(self.shards(), i as int),
                total == shards_total(self.shards(), i as int),
                used <= total,
            decreases self.shards@.len() - i,
        {
            assert(self.shards()[i as int].wf());
            let (u, t): (u64, u64) = self.shards[i].usage();
            proof {
                lemma_shards_total(self.shards(), i + 1, self.shards().len() as int);
            }
            used = used + u;
            total = total + t;
            i += 1;
        }
        (used, total)
    }

    /// The longest range that a shard can hand out.
    pub fn largest_free_allocation(&self) -> (r: u64)
        requires
            self.wf(),
        ensures
            r == self.largest_free(),
    {
        let mut best: u64 = 0;
        let mut i: usize = 0;
        while i < self.shards.len()
            invariant
                self.wf(),
                i <= self.shards@.len(),
                best == shards_largest(self.shards(), i as int),
            decreases self.shards@.len() - i,
        {
            assert(self.shards()[i as int].wf());
            let length: u64 = self.shards[i].largest_free_allocation();
            if best < length {
                best = length;
            }
            i += 1;
        }
        best
    }

    /// Where the memory of each shard starts, and its length.
    pub fn memory_regions(&self) -> (r: Vec<(u64, u64)>)
        ensures
            r@ == shard_regions(*self),
    {
        let mut out: Vec<(u64, u64)> = Vec::new();
        let mut i: usize = 0;
        while i < self.shards.len()
            invariant
                i <= self.shards@.len(),
                out@ == self.shards().take(i as int).map_values(
                    |p: PinnedMemoryPool| (p.backing().host, p.backing().size),
                ),
            decreases self.shards@.len() - i,
        {
            out.push(self.shards[i].memory_region());
            i += 1;
            assert(out@ =~= self.shards().take(i as int).map_values(
                |p: PinnedMemoryPool| (p.backing().host, p.backing().size),
            ));
        }
        assert(self.shards().take(i as int) =~= self.shards());
        out
    }
}

/// How many bytes the first `n` pools can hand out.
pub open spec fn pools_total(pools: Seq<(u32, ShardedPinnedPool)>, n: int) -> int
    decreases n,
{
    if n <= 0 {
        0
    } else {
        pools_total(pools, n - 1) + pools[n - 1].1.total_bytes()
    }
}

/// How many bytes of the first `n` pools are handed out.
pub open spec fn pools_used(pools: Seq<(u32, ShardedPinnedPool)>, n: int) -> int
    decreases n,
{
    if n <= 0 {
        0
    } else {
        pools_used(pools, n - 1) + pools[n - 1].1.used_bytes()
    }
}

proof fn lemma_pools_total(pools: Seq<(u32, ShardedPinnedPool)>, m: int, n: int)
    requires
        0 <= m <= n <= pools.len(),
        forall|i: int| 0 <= i < pools.len() ==> (#[trigger] pools[i]).1.wf(),
    ensures
        0 <= pools_used(pools, m) <= pools_total(pools, m) <= pools_total(pools, n),
    decreases n,
{
    if n > 0 {
        let last = pools[n - 1].1;
        assert(last.wf());
        lemma_shards_total(last.shards(), last.shards().len() as int, last.shards().len() as int);
        if m < n {
            lemma_pools_total(pools, m, n - 1);
        } else {
            lemma_pools_total(pools, n - 1, n - 1);
        }
    }
}

proof fn lemma_same_pool_totals(
    a: Seq<(u32, ShardedPinnedPool)>,
    b: Seq<(u32, ShardedPinnedPool)>,
    n: int,
)
    requires
        a.len() == b.len(),
        0 <= n <= a.len(),
        forall|i: int|
            0 <= i < a.len() ==> (#[trigger] a[i]).1.total_bytes() == b[i].1.total_bytes(),
    ensures
        pools_total(a, n) == pools_total(b, n),
    decreases n,
{
    if n > 0 {
        lemma_same_pool_totals(a, b, n - 1);
        assert(a[n - 1].1.total_bytes() == b[n - 1].1.total_bytes());
    }
}

/// Where the memory of each shard of a pool starts, and its length.
pub open spec fn shard_regions(pool: ShardedPinnedPool) -> Seq<(u64, u64)> {
    pool.shards().map_values(|p: PinnedMemoryPool| (p.backing().host, p.backing().size))
}

/// The memory of the first `n` pools.
pub open spec fn pool_regions(pools: Seq<(u32, ShardedPinnedPool)>, n: int) -> Seq<(u64, u64)>
    decreases n,
{
    if n <= 0 {
        Seq::empty()
    } else {
        pool_regions(pools, n - 1) + shard_regions(pools[n - 1].1)
    }
}

/// One pool for each NUMA node. There is no pool for an unknown node.
#[derive(Debug)]
pub struct NumaAwarePinnedPools {
    pools: Vec<(u32, ShardedPinnedPool)>,
}

/// The nodes among the first `n` that get a pool, with the bytes of each.
pub open spec fn node_shares(nodes: Seq<NumaNode>, share: usize, n: int) -> Seq<(NumaNode, usize)>
    decreases n,
{
    if n <= 0 {
        Seq::empty()
    } else if nodes[n - 1].known() {
        node_shares(nodes, share, n - 1).push((nodes[n - 1], share))
    } else {
        node_shares(nodes, share, n - 1)
    }
}

impl NumaAwarePinnedPools {
    /// The pools with their nodes.
    pub closed spec fn pools(self) -> Seq<(u32, ShardedPinnedPool)> {
        self.pools@
    }

    /// No node has two pools, the pools are in order, and their bytes can be
    /// counted.
    pub open spec fn wf(self) -> bool {
        &&& forall|i: int| 0 <= i < self.pools().len() ==> (#[trigger] self.pools()[i]).1.wf()
        &&& forall|i: int, j: int|
            0 <= i < j < self.pools().len() ==> (#[trigger] self.pools()[i]).0 != (
            #[trigger] self.pools()[j]).0
        &&& pools_total(self.pools(), self.pools().len() as int) <= u64::MAX
    }

    /// Whether pool `i` belongs to `node`.
    pub open spec fn serves_node(self, node: NumaNode, i: int) -> bool {
        node.known() && 0 <= i < self.pools().len() && self.pools()[i].0 == node.0
    }

    /// How the capacity is divided: every known node gets the same share of the
    /// whole, counted over all nodes.
    pub fn shares(total_capacity: usize, numa_nodes: &[NumaNode]) -> (r: Vec<(NumaNode, usize)>)
        ensures
            numa_nodes@.len() == 0 ==> r@.len() == 0,
            numa_nodes@.len() > 0 ==> r@ == node_shares(
                numa_nodes@,
                (total_capacity as int / numa_nodes@.len() as int) as usize,
                numa_nodes@.len() as int,
            ),
    {
        let mut out: Vec<(NumaNode, usize)> = Vec::new();
        let count: usize = numa_nodes.len();
        if count == 0 {
            return out;
        }
        let share: usize = total_capacity / count;
        let mut i: usize = 0;
        while i < count
            invariant
                i <= count,
                count == numa_nodes@.len(),
                out@ == node_shares(numa_nodes@, share, i as int),
            decreases count - i,
        {
            let node: NumaNode = numa_nodes[i];
            if node.is_valid() {
                out.push((node, share));
            }
            i += 1;
        }
        out
    }

    /// Pools for no node.
    pub fn empty() -> (r: Self)
        ensures
            r.wf(),
            r.pools().len() == 0,
    {
        NumaAwarePinnedPools { pools: Vec::new() }
    }

    /// Sets up the pool of a node; one that it has already is replaced.
    pub fn insert(&mut self, node: NumaNode, pool: ShardedPinnedPool)
        requires
            old(self).wf(),
            pool.wf(),
            node.known(),
            pools_total(old(self).pools(), old(self).pools().len() as int) + pool.total_bytes()
                <= u64::MAX,
        ensures
            final(self).wf(),
            forall|i: int| #[trigger]
                old(self).serves_node(node, i) ==> final(self).pools() == old(
                    self,
                ).pools().update(i, (node.0, pool)),
            (forall|i: int| !#[trigger] old(self).serves_node(node, i)) ==> final(self).pools()
                == old(self).pools().push((node.0, pool)),
            pools_total(final(self).pools(), final(self).pools().len() as int) <= pools_total(
                old(self).pools(),
                old(self).pools().len() as int,
            ) + pool.total_bytes(),
    {
        let ghost before = self.pools();
        let ghost n = before.len() as int;
        match self.find(node) {
            Some(i) => {
                assert(before[i as int].1.wf());
                proof {
                    let was = before[i as int].1;
                    lemma_shards_total(
                        was.shards(),
                        was.shards().len() as int,
                        was.shards().len() as int,
                    );
                }
                self.pools.set(i, (node.0, pool));
                proof {
                    lemma_pools_total_change(before, self.pools(), i as int, n);
                    assert forall|k: int| #[trigger] old(self).serves_node(node, k) implies k
                        == i by {
                        if k < i {
                            assert(before[k].0 != before[i as int].0);
                        } else if i < k {
                            assert(before[i as int].0 != before[k].0);
                        }
                    }
                }
            },
            None => {
                self.pools.push((node.0, pool));
                proof {
                    lemma_pools_total_prefix(self.pools(), before, n);
                    assert forall|k: int, j: int| 0 <= k < j < self.pools().len() implies (
                    #[trigger] self.pools()[k]).0 != (#[trigger] self.pools()[j]).0 by {
                        assert(!old(self).serves_node(node, k));
                        if j < n {
                            assert(before[k].0 != before[j].0);
                        }
                    }
                }
            },
        }
    }

    fn find(&self, node: NumaNode) -> (r: Option<usize>)
        ensures
            match r {
                Some(i) => self.serves_node(node, i as int),
                None => forall|i: int| !self.serves_node(node, i),
            },
    {
        if node.is_unknown() {
            return None;
        }
        let mut i: usize = 0;
        while i < self.pools.len()
            invariant
                i <= self.pools@.len(),
                node.known(),
                forall|k: int| 0 <= k < i ==> !self.serves_node(node, k),
            decreases self.pools@.len() - i,
        {
            if self.pools[i].0 == node.0 {
                return Some(i);
            }
            i += 1;
        }
        None
    }

    /// Hands out `size` bytes of the pool of `numa_node`. There are none where the
    /// node is unknown, has no pool, or its pool is exhausted.
    pub fn allocate(&mut self, numa_node: NumaNode, size: u64) -> (r: Option<PinnedAllocation>)
        requires
            old(self).wf(),
            size > 0,
        ensures
            final(self).wf(),
            final(self).pools().len() == old(self).pools().len(),
            forall|i: int|
                0 <= i < old(self).pools().len() ==> (#[trigger] final(self).pools()[i]).0 == old(self).pools()[i].0,
            forall|i: int|
                #[trigger] old(self).serves_node(numa_node, i) ==> serves(
                    old(self).pools()[i].1,
                    final(self).pools()[i].1,
                    size as int,
                    numa_node,
                    r,
                ),
            forall|i: int|
                0 <= i < old(self).pools().len() && !old(self).serves_node(numa_node, i)
                    ==> #[trigger] final(self).pools()[i] == old(self).pools()[i],
            (forall|i: int| !#[trigger] old(self).serves_node(numa_node, i)) ==> r is None,
    {
        match self.find(numa_node) {
            None => None,
            Some(i) => {
                assert(self.pools()[i as int].1.wf());
                let r: Option<PinnedAllocation> = self.pools[i].1.allocate(size, numa_node);
                proof {
                    let n = self.pools().len() as int;
                    assert forall|k: int| 0 <= k < n implies (#[trigger] self.pools()[k]).1.wf()
                        && self.pools()[k].0 == old(self).pools()[k].0
                        && self.pools()[k].1.total_bytes() == old(self).pools()[k].1.total_bytes() by {
                        assert(old(self).pools()[k].1.wf());
                        if k == i {
                            let before = old(self).pools()[k].1;
                            let after = self.pools()[k].1;
                            lemma_same_totals(
                                after.shards(),
                                before.shards(),
                                before.shards().len() as int,
                            );
                        }
                    }
                    lemma_same_pool_totals(self.pools(), old(self).pools(), n);
                }
                r
            },
        }
    }

    /// Gives an allocation back to the pool of its node.
    pub fn free(&mut self, allocation: &PinnedAllocation) -> (r: bool)
        requires
            old(self).wf(),
        ensures
            final(self).wf(),
            final(self).pools().len() == old(self).pools().len(),
            forall|i: int|
                0 <= i < old(self).pools().len() ==> (#[trigger] final(self).pools()[i]).0 == old(self).pools()[i].0,
            forall|i: int|
                #[trigger] old(self).serves_node(allocation.node, i) ==> gives_back(
                    old(self).pools()[i].1,
                    final(self).pools()[i].1,
                    *allocation,
                    r,
                ),
            forall|i: int|
                0 <= i < old(self).pools().len() && !old(self).serves_node(allocation.node, i)
                    ==> #[trigger] final(self).pools()[i] == old(self).pools()[i],
            (forall|i: int| !#[trigger] old(self).serves_node(allocation.node, i)) ==> !r,
    {
        match self.find(allocation.node) {
            None => false,
            Some(i) => {
                assert(self.pools()[i as int].1.wf());
                let r: bool = self.pools[i].1.free(allocation);
                proof {
                    let n = self.pools().len() as int;
                    assert forall|k: int| 0 <= k < n implies (#[trigger] self.pools()[k]).1.wf()
                        && self.pools()[k].0 == old(self).pools()[k].0
                        && self.pools()[k].1.total_bytes() == old(self).pools()[k].1.total_bytes() by {
                        assert(old(self).pools()[k].1.wf());
                        if k == i {
                            let before = old(self).pools()[k].1;
                            let after = self.pools()[k].1;
                            lemma_same_totals(
                                after.shards(),
                                before.shards(),
                                before.shards().len() as int,
                            );
                        }
                    }
                    lemma_same_pool_totals(self.pools(), old(self).pools(), n);
                }
                r
            },
        }
    }

    /// Where the memory of each shard of each pool starts, and its length.
    pub fn memory_regions(&self) -> (r: Vec<(u64, u64)>)
        ensures
            r@ == pool_regions(self.pools(), self.pools().len() as int),
    {
        let mut out: Vec<(u64, u64)> = Vec::new();
        let mut i: usize = 0;
        while i < self.pools.len()
            invariant
                i <= self.pools@.len(),
                out@ == pool_regions(self.pools(), i as int),
            decreases self.pools@.len() - i,
        {
            let mut own: Vec<(u64, u64)> = self.pools[i].1.memory_regions();
            out.append(&mut own);
            i += 1;
        }
        out
    }

    /// The longest range of the pool of `numa_node`; zero where it has none.
    pub fn largest_free_allocation_for_node(&self, numa_node: NumaNode) -> (r: u64)
        requires
            self.wf(),
        ensures
            forall|i: int| #[trigger]
                self.serves_node(numa_node, i) ==> r == self.pools()[i].1.largest_free(),
            (forall|i: int| !#[trigger] self.serves_node(numa_node, i)) ==> r == 0,
    {
        match self.find(numa_node) {
            None => 0,
            Some(i) => {
                assert(self.pools()[i as int].1.wf());
                self.pools[i].1.largest_free_allocation()
            },
        }
    }

    /// How many bytes are handed out, and how many can be, over all pools.
    pub fn total_usage(&self) -> (r: (u64, u64))
        requires
            self.wf(),
        ensures
            r.0 == pools_used(self.pools(), self.pools().len() as int),
            r.1 == pools_total(self.pools(), self.pools().len() as int),
            r.0 <= r.1,
    {
        let mut used: u64 = 0;
        let mut total: u64 = 0;
        let mut i: usize = 0;
        while i < self.pools.len()
            invariant
                self.wf(),
                i <= self.pools@.len(),
                used == pools_used(self.pools(), i as int),
                total == pools_total(self.pools(), i as int),
                used <= total,
            decreases self.pools@.len() - i,
        {
            assert(self.pools()[i as int].1.wf());
            let (u, t): (u64, u64) = self.pools[i].1.usage();
            proof {
                lemma_pools_total(self.pools(), i + 1, self.pools().len() as int);
            }
            used = used + u;
            total = total + t;
            i += 1;
        }
        (used, total)
    }
}

proof fn lemma_pools_total_prefix(
    a: Seq<(u32, ShardedPinnedPool)>,
    b: Seq<(u32, ShardedPinnedPool)>,
    n: int,
)
    requires
        0 <= n <= b.len() <= a.len(),
        forall|i: int| 0 <= i < n ==> a[i] == b[i],
    ensures
        pools_total(a, n) == pools_total(b, n),
    decreases n,
{
    if n > 0 {
        lemma_pools_total_prefix(a, b, n - 1);
    }
}

/// Pinned memory for the whole process: one pool, or one for each NUMA node.
#[derive(Debug)]
pub enum PinnedAllocator {
    Global(ShardedPinnedPool),
    Numa(NumaAwarePinnedPools),
}

/// Whether a request of `size` bytes turns `before` into `after` with the answer `r`:
/// the one pool serves it whatever the node, or the pool of `node` does.
pub open spec fn allocator_serves(
    before: PinnedAllocator,
    after: PinnedAllocator,
    size: int,
    node: NumaNode,
    r: Option<PinnedAllocation>,
) -> bool {
    match (before, after) {
        (PinnedAllocator::Global(x), PinnedAllocator::Global(y)) => serves(x, y, size, node, r),
        (PinnedAllocator::Numa(x), PinnedAllocator::Numa(y)) => {
            &&& y.pools().len() == x.pools().len()
            &&& forall|i: int|
                0 <= i < x.pools().len() ==> (#[trigger] y.pools()[i]).0 == x.pools()[i].0
            &&& forall|i: int| #[trigger]
                x.serves_node(node, i) ==> serves(x.pools()[i].1, y.pools()[i].1, size, node, r)
            &&& forall|i: int|
                0 <= i < x.pools().len() && !x.serves_node(node, i) ==> #[trigger] y.pools()[i]
                    == x.pools()[i]
            &&& (forall|i: int| !#[trigger] x.serves_node(node, i)) ==> r is None
        },
        _ => false,
    }
}

proof fn lemma_serves_regions(
    before: ShardedPinnedPool,
    after: ShardedPinnedPool,
    size: int,
    node: NumaNode,
    r: Option<PinnedAllocation>,
)
    requires
        serves(before, after, size, node, r),
    ensures
        shard_regions(after) == shard_regions(before),
{
    assert(shard_regions(after) =~= shard_regions(before));
}

proof fn lemma_allocator_serves(
    before: PinnedAllocator,
    after: PinnedAllocator,
    size: int,
    node: NumaNode,
    r: Option<PinnedAllocation>,
)
    requires
        allocator_serves(before, after, size, node, r),
    ensures
        after.regions() == before.regions(),
{
    match (before, after) {
        (PinnedAllocator::Global(x), PinnedAllocator::Global(y)) => {
            lemma_serves_regions(x, y, size, node, r);
        },
        (PinnedAllocator::Numa(x), PinnedAllocator::Numa(y)) => {
            assert forall|i: int| 0 <= i < y.pools().len() implies shard_regions(
                (#[trigger] y.pools()[i]).1,
            ) == shard_regions(x.pools()[i].1) by {
                if x.serves_node(node, i) {
                    lemma_serves_regions(x.pools()[i].1, y.pools()[i].1, size, node, r);
                }
            }
            lemma_same_regions(y.pools(), x.pools(), x.pools().len() as int);
        },
        _ => {},
    }
}

/// Whether `after` is `before` with `a` taken back by the pool that it is from.
pub open spec fn allocator_gives_back(
    before: PinnedAllocator,
    after: PinnedAllocator,
    a: PinnedAllocation,
    r: bool,
) -> bool {
    match (before, after) {
        (PinnedAllocator::Global(x), PinnedAllocator::Global(y)) => gives_back(x, y, a, r),
        (PinnedAllocator::Numa(x), PinnedAllocator::Numa(y)) => {
            &&& y.pools().len() == x.pools().len()
            &&& forall|i: int|
                0 <= i < x.pools().len() ==> (#[trigger] y.pools()[i]).0 == x.pools()[i].0
            &&& forall|i: int| #[trigger]
                x.serves_node(a.node, i) ==> gives_back(x.pools()[i].1, y.pools()[i].1, a, r)
            &&& forall|i: int|
                0 <= i < x.pools().len() && !x.serves_node(a.node, i) ==> #[trigger] y.pools()[i]
                    == x.pools()[i]
            &&& (forall|i: int| !#[trigger] x.serves_node(a.node, i)) ==> !r
        },
        _ => false,
    }
}

proof fn lemma_same_regions(
    a: Seq<(u32, ShardedPinnedPool)>,
    b: Seq<(u32, ShardedPinnedPool)>,
    n: int,
)
    requires
        a.len() == b.len(),
        0 <= n <= a.len(),
        forall|i: int|
            0 <= i < a.len() ==> shard_regions((#[trigger] a[i]).1) == shard_regions(b[i].1),
    ensures
        pool_regions(a, n) == pool_regions(b, n),
    decreases n,
{
    if n > 0 {
        lemma_same_regions(a, b, n - 1);
        assert(shard_regions(a[n - 1].1) == shard_regions(b[n - 1].1));
    }
}

proof fn lemma_allocator_gives_back(
    before: PinnedAllocator,
    after: PinnedAllocator,
    a: PinnedAllocation,
    r: bool,
)
    requires
        before.wf(),
        allocator_gives_back(before, after, a, r),
    ensures
        after.regions() == before.regions(),
        after.used_bytes() == before.used_bytes() - if r {
            a.range.size_bytes as int
        } else {
            0
        },
{
    match (before, after) {
        (PinnedAllocator::Global(x), PinnedAllocator::Global(y)) => {
            lemma_gives_back(x, y, a, r);
            assert(shard_regions(y) =~= shard_regions(x));
        },
        (PinnedAllocator::Numa(x), PinnedAllocator::Numa(y)) => {
            if exists|i: int| #[trigger] x.serves_node(a.node, i) {
                let i = choose|i: int| #[trigger] x.serves_node(a.node, i);
                lemma_gives_back(x.pools()[i].1, y.pools()[i].1, a, r);
                assert forall|j: int| 0 <= j < x.pools().len() && j != i implies #[trigger]
                y.pools()[j] == x.pools()[j] by {
                    if j < i {
                        assert(x.pools()[j].0 != x.pools()[i].0);
                    } else {
                        assert(x.pools()[i].0 != x.pools()[j].0);
                    }
                }
                lemma_pools_used_change(x.pools(), y.pools(), i, x.pools().len() as int);
                assert(shard_regions(y.pools()[i].1) =~= shard_regions(x.pools()[i].1));
                lemma_same_regions(y.pools(), x.pools(), x.pools().len() as int);
            } else {
                assert(y.pools() =~= x.pools());
            }
        },
        _ => {},
    }
}

impl PinnedAllocator {
    /// Whether the pools are in order.
    pub open spec fn wf(self) -> bool {
        match self {
            PinnedAllocator::Global(pool) => pool.wf(),
            PinnedAllocator::Numa(pools) => pools.wf(),
        }
    }

    /// Whether no pool that serves `numa_node` has `size` bytes left in one piece.
    pub open spec fn exhausted(self, size: int, numa_node: NumaNode) -> bool {
        match self {
            PinnedAllocator::Global(pool) => pool.exhausted(size),
            PinnedAllocator::Numa(pools) => forall|i: int| #[trigger]
                pools.serves_node(numa_node, i) ==> pools.pools()[i].1.exhausted(size),
        }
    }

    /// The longest range that a request for `numa_node` could be met with.
    pub open spec fn largest_free(self, numa_node: NumaNode, r: int) -> bool {
        match self {
            PinnedAllocator::Global(pool) => r == pool.largest_free(),
            PinnedAllocator::Numa(pools) => {
                &&& forall|i: int| #[trigger]
                    pools.serves_node(numa_node, i) ==> r == pools.pools()[i].1.largest_free()
                &&& (forall|i: int| !#[trigger] pools.serves_node(numa_node, i)) ==> r == 0
            },
        }
    }

    /// How many bytes are handed out.
    pub open spec fn used_bytes(self) -> int {
        match self {
            PinnedAllocator::Global(pool) => pool.used_bytes(),
            PinnedAllocator::Numa(pools) => pools_used(pools.pools(), pools.pools().len() as int),
        }
    }

    /// How many bytes can be handed out.
    pub open spec fn total_bytes(self) -> int {
        match self {
            PinnedAllocator::Global(pool) => pool.total_bytes(),
            PinnedAllocator::Numa(pools) => pools_total(pools.pools(), pools.pools().len() as int),
        }
    }

    /// Where the memory starts, and its length, for each contiguous piece.
    pub open spec fn regions(self) -> Seq<(u64, u64)> {
        match self {
            PinnedAllocator::Global(pool) => shard_regions(pool),
            PinnedAllocator::Numa(pools) => pool_regions(
                pools.pools(),
                pools.pools().len() as int,
            ),
        }
    }

    /// Hands out `size` bytes: of the one pool whatever the node, or of the pool
    /// of `numa_node`.
    pub fn allocate(&mut self, size: u64, numa_node: NumaNode) -> (r: Option<PinnedAllocation>)
        requires
            old(self).wf(),
            size > 0,
        ensures
            final(self).wf(),
            r is None == old(self).exhausted(size as int, numa_node),
            r is None ==> final(self).exhausted(size as int, numa_node),
            r matches Some(a) ==> a.wf() && a.range.size_bytes >= size && a.node == numa_node,
            final(self).regions() == old(self).regions(),
            allocator_serves(*old(self), *final(self), size as int, numa_node, r),
    {
        let r: Option<PinnedAllocation> = match self {
            PinnedAllocator::Global(pool) => pool.allocate(size, numa_node),
            PinnedAllocator::Numa(pools) => pools.allocate(numa_node, size),
        };
        proof {
            lemma_allocator_serves(*old(self), *self, size as int, numa_node, r);
        }
        r
    }

    /// Takes an allocation back. Says whether it was handed out.
    pub fn free(&mut self, allocation: &PinnedAllocation) -> (r: bool)
        requires
            old(self).wf(),
        ensures
            final(self).wf(),
            final(self).used_bytes() == old(self).used_bytes() - if r {
                allocation.range.size_bytes as int
            } else {
                0
            },
            final(self).regions() == old(self).regions(),
            allocator_gives_back(*old(self), *final(self), *allocation, r),
    {
        let r: bool = match self {
            PinnedAllocator::Global(pool) => pool.free(allocation),
            PinnedAllocator::Numa(pools) => pools.free(allocation),
        };
        proof {
            lemma_allocator_gives_back(*old(self), *self, *allocation, r);
        }
        r
    }

    /// Where the memory starts, and its length, for each contiguous piece.
    pub fn memory_regions(&self) -> (r: Vec<(u64, u64)>)
        ensures
            r@ == self.regions(),
    {
        match self {
            PinnedAllocator::Global(pool) => pool.memory_regions(),
            PinnedAllocator::Numa(pools) => pools.memory_regions(),
        }
    }

    /// A request is refused exactly if the longest range that could be handed out for it
    /// is too short.
    pub proof fn law_exhausted_means_too_short(self, size: int, numa_node: NumaNode, longest: int)
        requires
            self.wf(),
            size > 0,
            self.largest_free(numa_node, longest),
        ensures
            self.exhausted(size, numa_node) <==> longest < size,
    {
        match self {
            PinnedAllocator::Global(pool) => {
                pool.law_exhausted_means_too_short(size);
            },
            PinnedAllocator::Numa(pools) => {
                if exists|i: int| #[trigger] pools.serves_node(numa_node, i) {
                    let i = choose|i: int| #[trigger] pools.serves_node(numa_node, i);
                    assert(pools.pools()[i].1.wf());
                    pools.pools()[i].1.law_exhausted_means_too_short(size);
                    assert forall|k: int| #[trigger] pools.serves_node(numa_node, k) implies k
                        == i by {
                        if k < i {
                            assert(pools.pools()[k].0 != pools.pools()[i].0);
                        } else if i < k {
                            assert(pools.pools()[i].0 != pools.pools()[k].0);
                        }
                    }
                }
            },
        }
    }

    /// How many bytes are handed out, and how many can be.
    pub fn usage(&self) -> (r: (u64, u64))
        requires
            self.wf(),
        ensures
            r.0 == self.used_bytes(),
            r.1 == self.total_bytes(),
            r.0 <= r.1,
    {
        match self {
            PinnedAllocator::Global(pool) => pool.usage(),
            PinnedAllocator::Numa(pools) => pools.total_usage(),
        }
    }

    /// The longest range that a request for `numa_node` could be met with.
    pub fn largest_free_allocation_for_node(&self, numa_node: NumaNode) -> (r: u64)
        requires
            self.wf(),
        ensures
            self.largest_free(numa_node, r as int),
    {
        match self {
            PinnedAllocator::Global(pool) => pool.largest_free_allocation(),
            PinnedAllocator::Numa(pools) => pools.largest_free_allocation_for_node(numa_node),
        }
    }

    /// Whether there is a pool for each NUMA node.
    pub fn is_numa(&self) -> (r: bool)
        ensures
            r == (*self is Numa),
    {
        match self {
            PinnedAllocator::Global(_) => false,
            PinnedAllocator::Numa(_) => true,
        }
    }
}

/// Where pinned memory is taken from and given back to.
pub trait PinnedMemory: Sized {
    /// Whether it is in order.
    spec fn sound(&self) -> bool;

    /// Whether a request for `size` bytes on `node` turns `before` into `after` with the
    /// answer `r`.
    spec fn granted(
        before: Self,
        after: Self,
        size: int,
        node: NumaNode,
        r: Option<PinnedAllocation>,
    ) -> bool;

    /// Whether `after` is `before` with an allocation taken back, if it was handed out.
    spec fn returned(before: Self, after: Self, a: PinnedAllocation, r: bool) -> bool;

    /// Hands out `size` bytes on a node, if it can.
    fn take(&mut self, size: u64, node: NumaNode) -> (r: Option<PinnedAllocation>)
        requires
            old(self).sound(),
            size > 0,
        ensures
            final(self).sound(),
            Self::granted(*old(self), *final(self), size as int, node, r),
            r matches Some(a) ==> a.wf() && a.range.size_bytes >= size && a.node == node,
    ;

    /// Takes an allocation back. Says whether it was handed out.
    fn give_back(&mut self, allocation: &PinnedAllocation) -> (r: bool)
        requires
            old(self).sound(),
        ensures
            final(self).sound(),
            Self::returned(*old(self), *final(self), *allocation, r),
    ;
}

impl PinnedMemory for PinnedAllocator {
    open spec fn sound(&self) -> bool {
        self.wf()
    }

    open spec fn granted(
        before: Self,
        after: Self,
        size: int,
        node: NumaNode,
        r: Option<PinnedAllocation>,
    ) -> bool {
        &&& allocator_serves(before, after, size, node, r)
        &&& r is None == before.exhausted(size, node)
    }

    open spec fn returned(before: Self, after: Self, a: PinnedAllocation, r: bool) -> bool {
        allocator_gives_back(before, after, a, r)
    }

    fn take(&mut self, size: u64, node: NumaNode) -> (r: Option<PinnedAllocation>) {
        self.allocate(size, node)
    }

    fn give_back(&mut self, allocation: &PinnedAllocation) -> (r: bool) {
        self.free(allocation)
    }
}

/// A request is tried on every shard, once, beginning with the one whose turn it is and going on
/// to the next; the next request begins one shard further. Left out is the turn at which the
/// count wraps around.
pub proof fn law_every_shard_is_tried(cursor: int, n: int, s: int, i: int, k: int)
    requires
        0 <= cursor,
        0 <= s < n,
        0 <= i < k < n,
    ensures
        attempt(cursor, n, 0) == cursor % n,
        0 <= attempt(cursor, n, k) < n,
        attempt(cursor, n, i) != attempt(cursor, n, k),
        exists|t: int| 0 <= t < n && #[trigger] attempt(cursor, n, t) == s,
        attempt(cursor + 1, n, 0) == attempt(cursor, n, 1),
{
    let c = cursor % n;
    vstd::arithmetic::div_mod::lemma_mod_bound(cursor, n);
    lemma_attempt(cursor, n, i);
    lemma_attempt(cursor, n, k);
    lemma_attempt(cursor, n, 0);
    let t = if s >= c {
        s - c
    } else {
        s - c + n
    };
    lemma_attempt(cursor, n, t);
    assert(attempt(cursor, n, t) == s);
    lemma_attempt(cursor + 1, n, 0);
    vstd::arithmetic::div_mod::lemma_mod_bound(cursor + 1, n);
    vstd::arithmetic::div_mod::lemma_add_mod_noop(cursor, 1, n);
    vstd::arithmetic::div_mod::lemma_add_mod_noop(cursor % n, 1, n);
    vstd::arithmetic::div_mod::lemma_mod_twice(cursor, n);
    vstd::arithmetic::div_mod::lemma_mod_twice(cursor + 1, n);
}

proof fn lemma_attempt(cursor: int, n: int, k: int)
    requires
        0 <= k < n,
    ensures
        0 <= cursor % n < n,
        attempt(cursor, n, k) == if cursor % n + k < n {
            cursor % n + k
        } else {
            cursor % n + k - n
        },
{
    let c = cursor % n;
    vstd::arithmetic::div_mod::lemma_mod_bound(cursor, n);
    if c + k < n {
        vstd::arithmetic::div_mod::lemma_small_mod((c + k) as nat, n as nat);
    } else {
        vstd::arithmetic::div_mod::lemma_fundamental_div_mod_converse(c + k, n, 1, c + k - n);
    }
}

/// A request is met exactly if one of the shards has room for it. The memory that is handed out
/// lies in the memory of its shard, where both addresses of it are the same way in, and it is
/// counted as used; the other shards stay as they are. A request that is not met changes nothing
/// but the turn.
pub proof fn law_requests_are_met_where_there_is_room(
    before: ShardedPinnedPool,
    after: ShardedPinnedPool,
    size: int,
    node: NumaNode,
    r: Option<PinnedAllocation>,
    j: int,
)
    requires
        before.wf(),
        size > 0,
        serves(before, after, size, node, r),
        0 <= j < before.shards().len(),
    ensures
        before.shards()[j].ranges().fits(size) ==> r is Some,
        before.cursor() < usize::MAX ==> after.cursor() == before.cursor() + 1,
        match r {
            Some(a) => {
                let pool = before.shards()[a.shard as int];
                &&& a.shard < before.shards().len()
                &&& pool.ranges().fits(size)
                &&& a.node == node
                &&& a.range.size_bytes >= size
                &&& a.ptr - pool.backing().host == a.range.offset_bytes
                &&& a.device_ptr - pool.backing().device == a.range.offset_bytes
                &&& a.range.offset_bytes + a.range.size_bytes <= pool.backing().size
                &&& after.used_bytes() == before.used_bytes() + a.range.size_bytes
                &&& j != a.shard ==> after.shards()[j] == before.shards()[j]
            },
            None => after.shards() == before.shards() && after.used_bytes()
                == before.used_bytes() && !before.shards()[j].ranges().fits(size),
        },
{
    if let Some(a) = r {
        let k = choose|k: int| #[trigger] served_at(before, after, size, node, a, k);
        let n = before.shards().len() as int;
        let s = attempt(before.cursor(), n, k);
        assert forall|q: int| 0 <= q < n && q != s implies #[trigger] after.shards()[q]
            == before.shards()[q] by {}
        lemma_shards_used_change(before.shards(), after.shards(), s, n);
        lemma_takes_bytes(
            before.shards()[s].ranges(),
            after.shards()[s].ranges(),
            size,
            a.range,
        );
    }
}

proof fn lemma_takes_bytes(before: RangeAllocator, after: RangeAllocator, size: int, a: ByteRange)
    requires
        takes(before, after, size, a),
    ensures
        sum_sizes(after.used()) == sum_sizes(before.used()) + a.size_bytes,
{
    let i = choose|i: int|
        {
            &&& 0 <= i <= before.used().len()
            &&& #[trigger] gap(before.used(), before.total(), i) >= round_up(size, before.unit())
            &&& after.used() == before.used().insert(i, a)
        };
    assert(after.used().remove(i) =~= before.used());
    lemma_sum_sizes_remove(after.used(), i);
}

/// Memory that is given back is no longer counted as used, and nothing else changes; memory that
/// is not handed out cannot be given back.
pub proof fn law_memory_comes_back(
    before: ShardedPinnedPool,
    after: ShardedPinnedPool,
    a: PinnedAllocation,
    r: bool,
    j: int,
)
    requires
        gives_back(before, after, a, r),
        a.shard < before.shards().len(),
        0 <= j < before.shards().len(),
    ensures
        r <==> before.shards()[a.shard as int].ranges().used().contains(a.range),
        after.used_bytes() == before.used_bytes() - (if r {
            a.range.size_bytes as int
        } else {
            0
        }),
        after.cursor() == before.cursor(),
        j != a.shard ==> after.shards()[j] == before.shards()[j],
        after.shards()[j].backing() == before.shards()[j].backing(),
{
    let n = before.shards().len() as int;
    let s = a.shard as int;
    lemma_shards_used_change(before.shards(), after.shards(), s, n);
    if r {
        let was = before.shards()[s].ranges().used();
        let i = choose|i: int|
            0 <= i < was.len() && #[trigger] was[i] == a.range
                && after.shards()[s].ranges().used() == was.remove(i);
        lemma_sum_sizes_remove(was, i);
    }
}

/// Where memory is divided by node, only the memory of the wanted node is touched, and a node
/// that has none is not served; otherwise all memory serves every node.
pub proof fn law_memory_is_taken_on_the_wanted_node(
    before: PinnedAllocator,
    after: PinnedAllocator,
    size: int,
    node: NumaNode,
    r: Option<PinnedAllocation>,
    i: int,
)
    requires
        allocator_serves(before, after, size, node, r),
    ensures
        match (before, after) {
            (PinnedAllocator::Numa(x), PinnedAllocator::Numa(y)) => {
                &&& 0 <= i < x.pools().len() && x.pools()[i].0 != node.0 ==> y.pools()[i]
                    == x.pools()[i]
                &&& !node.known() ==> r is None && (0 <= i < x.pools().len() ==> y.pools()[i]
                    == x.pools()[i])
                &&& (forall|k: int| 0 <= k < x.pools().len() ==> (#[trigger] x.pools()[k]).0 != node.0)
                    ==> r is None
                &&& node.known() && 0 <= i < x.pools().len() && x.pools()[i].0 == node.0 ==> serves(
                    x.pools()[i].1,
                    y.pools()[i].1,
                    size,
                    node,
                    r,
                )
            },
            (PinnedAllocator::Global(x), PinnedAllocator::Global(y)) => serves(x, y, size, node, r),
            _ => false,
        },
{
    match (before, after) {
        (PinnedAllocator::Numa(x), PinnedAllocator::Numa(y)) => {
            if node.known() && 0 <= i < x.pools().len() && x.pools()[i].0 == node.0 {
                assert(x.serves_node(node, i));
            }
        },
        _ => {},
    }
}

/// The unit of a pool is a whole number of 512 bytes, is no smaller than the hint, and is large
/// enough for 32 bits to number the units of the pool; no smaller one is all this.
pub proof fn law_units_are_aligned_and_enough(pool_size: int, hint: Option<u64>, least: int)
    requires
        pool_size > 0,
    ensures
        unit_size(pool_size, hint) % 512 == 0,
        unit_size(pool_size, hint) >= 512,
        hint matches Some(h) ==> unit_size(pool_size, hint) >= h,
        unit_size(pool_size, hint) * 0xffff_ffff >= pool_size,
        least > 0 && least % 512 == 0 && least * 0xffff_ffff >= pool_size && (match hint {
            Some(h) => least >= h,
            None => true,
        }) ==> unit_size(pool_size, hint) <= least,
{
    let base = match hint {
        Some(h) => h as int,
        None => 512,
    };
    let c = ceiling(pool_size, 0xffff_ffff);
    assert(c * 0xffff_ffff >= pool_size && (c - 1) * 0xffff_ffff < pool_size && c >= 1);
    let want = larger(base, c);
    lemma_round_up(want, 512);
    let u = unit_size(pool_size, hint);
    assert(u >= want && u < want + 512 && u % 512 == 0);
    if least > 0 && least % 512 == 0 && least * 0xffff_ffff >= pool_size && (match hint {
        Some(h) => least >= h,
        None => true,
    }) {
        assert(least >= c);
        assert(least >= want);
    }
}

/// The memory of shards and of pools adds up, in use and in all, and every shard is a region.
pub proof fn law_shards_and_pools_add_up(
    shards: Seq<PinnedMemoryPool>,
    pools: Seq<(u32, ShardedPinnedPool)>,
    pool: ShardedPinnedPool,
    n: int,
    i: int,
)
    requires
        n > 0,
    ensures
        shards_used(shards, 0) == 0,
        shards_used(shards, n) == shards_used(shards, n - 1) + shards[n - 1].used_bytes(),
        shards_total(shards, 0) == 0,
        shards_total(shards, n) == shards_total(shards, n - 1) + shards[n - 1].total_bytes(),
        pools_used(pools, 0) == 0,
        pools_used(pools, n) == pools_used(pools, n - 1) + pools[n - 1].1.used_bytes(),
        pools_total(pools, 0) == 0,
        pools_total(pools, n) == pools_total(pools, n - 1) + pools[n - 1].1.total_bytes(),
        shard_regions(pool).len() == pool.shards().len(),
        0 <= i < pool.shards().len() ==> shard_regions(pool)[i] == (
            pool.shards()[i].backing().host,
            pool.shards()[i].backing().size,
        ),
        pool_regions(pools, 0).len() == 0,
        pool_regions(pools, n) == pool_regions(pools, n - 1) + shard_regions(pools[n - 1].1),
        pool.used_bytes() == shards_used(pool.shards(), pool.shards().len() as int),
        pool.total_bytes() == shards_total(pool.shards(), pool.shards().len() as int),
{
}

/// Where memory is divided by node, what is given back goes to the pool of the node that it was
/// taken on, and the others stay as they are.
pub proof fn law_memory_goes_back_to_its_node(
    before: PinnedAllocator,
    after: PinnedAllocator,
    a: PinnedAllocation,
    r: bool,
    i: int,
)
    requires
        allocator_gives_back(before, after, a, r),
    ensures
        match (before, after) {
            (PinnedAllocator::Numa(x), PinnedAllocator::Numa(y)) => {
                &&& 0 <= i < x.pools().len() && x.pools()[i].0 != a.node.0 ==> y.pools()[i]
                    == x.pools()[i]
                &&& a.node.known() && 0 <= i < x.pools().len() && x.pools()[i].0 == a.node.0
                    ==> gives_back(x.pools()[i].1, y.pools()[i].1, a, r)
                &&& (forall|k: int|
                    0 <= k < x.pools().len() ==> (#[trigger] x.pools()[k]).0 != a.node.0) ==> !r
            },
            (PinnedAllocator::Global(x), PinnedAllocator::Global(y)) => gives_back(x, y, a, r),
            _ => false,
        },
{
    match (before, after) {
        (PinnedAllocator::Numa(x), PinnedAllocator::Numa(y)) => {
            if a.node.known() && 0 <= i < x.pools().len() && x.pools()[i].0 == a.node.0 {
                assert(x.serves_node(a.node, i));
            }
        },
        _ => {},
    }
}

} // verus!
