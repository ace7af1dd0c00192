use pegaflow::numa::NumaNode;
use pegaflow::pinned_pool::{
    backing_kind, BackingKind, NumaAwarePinnedPools, PinnedAllocator, PinnedBacking,
    PinnedMemoryPool, ShardedPinnedPool,
};
use pegaflow::range_alloc::{ByteRange, RangeAllocator};
use pegaflow::storage::config::build_pool;

fn pool(size: u64, hint: Option<u64>) -> ShardedPinnedPool {
    build_pool(&vec![PinnedBacking { host: 0x1_0000, device: 0x8_0000, size }], hint)
}

#[test]
fn numa_largest_free_for_node_is_not_global_min() {
    let mut pools = NumaAwarePinnedPools::empty();
    pools.insert(NumaNode(0), pool(4096, Some(512)));
    pools.insert(NumaNode(1), pool(4096, Some(512)));
    let _held = pools.allocate(NumaNode(0), 3584).unwrap();
    let global_min = (0..2)
        .map(|node| pools.largest_free_allocation_for_node(NumaNode(node)))
        .min()
        .unwrap_or(0);
    let allocator = PinnedAllocator::Numa(pools);
    let node1_largest = allocator.largest_free_allocation_for_node(NumaNode(1));

    assert_eq!(global_min, 512);
    assert_eq!(node1_largest, 4096);
}

#[test]
fn numa_largest_free_for_unknown_node_is_zero() {
    let mut pools = NumaAwarePinnedPools::empty();
    pools.insert(NumaNode(0), pool(4096, Some(512)));
    let allocator = PinnedAllocator::Numa(pools);

    assert_eq!(allocator.largest_free_allocation_for_node(NumaNode::unknown()), 0);
}

#[test]
fn unit_sizes_are_rounded_and_countable() {
    assert_eq!(PinnedMemoryPool::compute_unit_size(4096, None), 512);
    assert_eq!(PinnedMemoryPool::compute_unit_size(4096, Some(513)), 1024);
    assert_eq!(PinnedMemoryPool::compute_unit_size(1 << 42, None), 1536);
}

#[test]
fn freeing_undoes_allocating() {
    let mut allocator = PinnedAllocator::Global(pool(4096, Some(512)));
    let a = allocator.allocate(100, NumaNode::unknown()).unwrap();
    let b = allocator.allocate(600, NumaNode::unknown()).unwrap();
    assert_eq!(allocator.usage(), (512 + 1024, 4096));
    assert_eq!(b.as_ptr(), a.as_ptr() + 512);
    assert!(allocator.free(&a));
    assert!(!allocator.free(&a));
    assert_eq!(allocator.usage(), (1024, 4096));
    let c = allocator.allocate(512, NumaNode::unknown()).unwrap();
    assert_eq!(c.as_ptr(), a.as_ptr());
    assert!(allocator.allocate(4096, NumaNode::unknown()).is_none());
    assert_eq!(allocator.largest_free_allocation_for_node(NumaNode(3)), 2560);
}

#[test]
fn requests_take_turns_among_shards() {
    let backings = vec![
        PinnedBacking { host: 0x1_0000, device: 0x1_0000, size: 1024 },
        PinnedBacking { host: 0x2_0000, device: 0x2_0000, size: 1024 },
    ];
    let mut sharded = build_pool(&backings, None);
    let a = sharded.allocate(1024, NumaNode::unknown()).unwrap();
    let b = sharded.allocate(512, NumaNode::unknown()).unwrap();
    let c = sharded.allocate(512, NumaNode::unknown()).unwrap();
    assert_eq!((a.shard, b.shard, c.shard), (0, 1, 1));
    assert!(sharded.allocate(512, NumaNode::unknown()).is_none());
    assert_eq!(sharded.memory_regions(), vec![(0x1_0000, 1024), (0x2_0000, 1024)]);
    assert_eq!(ShardedPinnedPool::layout(1000, 0), (1, 1000));
    assert_eq!(ShardedPinnedPool::layout(1000, 3), (3, 333));
}

#[test]
fn nodes_without_a_pool_get_nothing() {
    let mut pools = NumaAwarePinnedPools::empty();
    pools.insert(NumaNode(2), pool(4096, None));
    assert!(pools.allocate(NumaNode(1), 64).is_none());
    assert!(pools.allocate(NumaNode::unknown(), 64).is_none());
    let a = pools.allocate(NumaNode(2), 64).unwrap();
    assert!(pools.free(&a));
    assert_eq!(pools.total_usage(), (0, 4096));
    assert_eq!(
        NumaAwarePinnedPools::shares(100, &[NumaNode(0), NumaNode::unknown(), NumaNode(1)]),
        vec![(NumaNode(0), 33), (NumaNode(1), 33)]
    );
}

#[test]
fn the_kind_of_memory_follows_the_options() {
    assert_eq!(backing_kind(true, false, true), Ok(BackingKind::HugePages));
    assert_eq!(backing_kind(false, true, true), Ok(BackingKind::Regular));
    assert_eq!(backing_kind(false, false, true), Ok(BackingKind::CudaHostAlloc));
    assert_eq!(backing_kind(false, false, false), Ok(BackingKind::AscendRegistered));
    assert!(backing_kind(true, false, false).unwrap_err().contains("HugePages require CUDA"));
}

#[test]
fn ranges_come_from_the_lowest_gap() {
    let mut ranges = RangeAllocator::new_with_unit_size_and_max_allocs(1000, 100, 3);
    assert_eq!(ranges.allocate(150), Some(ByteRange { offset_bytes: 0, size_bytes: 200 }));
    assert_eq!(ranges.allocate(100), Some(ByteRange { offset_bytes: 200, size_bytes: 100 }));
    assert!(ranges.free(ByteRange { offset_bytes: 0, size_bytes: 200 }));
    assert_eq!(ranges.largest_free_allocation_bytes(), 700);
    assert_eq!(ranges.allocate(50), Some(ByteRange { offset_bytes: 0, size_bytes: 100 }));
    assert_eq!(ranges.allocate(701), None);
    assert_eq!(ranges.allocate(700), Some(ByteRange { offset_bytes: 300, size_bytes: 700 }));
    assert_eq!(ranges.allocate(1), None);
    assert_eq!(ranges.largest_free_allocation_bytes(), 0);
    assert_eq!(ranges.total_free_bytes(), 100);
}
