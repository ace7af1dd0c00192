use pegaflow::block::{BlockKey, RawBlock, SealedBlock, Segment};
use pegaflow::metrics::cache_tier_block_requests;
use pegaflow::numa::NumaNode;
use pegaflow::pinned_pool::PinnedBacking;
use pegaflow::storage::config::{
    build_allocator, plan_storage, PoolPlan, StorageConfig, DEFAULT_RDMA_QPS_PER_PEER,
};
use pegaflow::storage::engine::{still_referenced, MemoryCacheCleanupStats, StorageEngine};
use pegaflow::storage::locks::TransferLockManager;
use pegaflow::write_path::{gc_inflight, Inflight};
use std::sync::Arc;

fn engine_of(capacity: usize, registers_blocks: bool) -> StorageEngine {
    let config = StorageConfig::default();
    let plan = plan_storage(capacity, &config, &[]);
    let mut host = 0x10_0000;
    let groups: Vec<Vec<PinnedBacking>> = plan
        .pools
        .iter()
        .map(|p| {
            (0..p.shards)
                .map(|_| {
                    let backing = PinnedBacking { host, device: host, size: p.shard_bytes as u64 };
                    host += p.shard_bytes as u64;
                    backing
                })
                .collect()
        })
        .collect();
    let allocator = build_allocator(&plan, &groups);
    StorageEngine::new(
        allocator,
        config.transfer_lock_timeout,
        registers_blocks,
        config.ssd_cache_config.is_some(),
        config.blockwise_alloc,
        config.enable_lfu_admission,
    )
}

fn make_engine() -> StorageEngine {
    engine_of(1 << 20, false)
}

fn empty_block() -> Arc<SealedBlock> {
    Arc::new(SealedBlock::from_slots(Vec::new(), 0))
}

fn key(hash: u8) -> BlockKey {
    BlockKey::new("ns".into(), vec![hash])
}

fn cached_block(storage: &mut StorageEngine, hash: u8, size: u64) {
    let a = Arc::new(storage.allocate(size, None).expect("space"));
    let ptr = a.as_ptr();
    let raw = RawBlock::single_segment(Segment::new(ptr, size as usize, a));
    let block = Arc::new(SealedBlock::from_slots(vec![(raw, NumaNode::unknown())], 0));
    storage.read_cache.batch_insert(vec![(key(hash), block)], &[]);
}

#[test]
fn filter_hashes_not_in_cache_inplace_handles_empty_input() {
    let storage = make_engine();
    let mut hashes: Vec<Vec<u8>> = Vec::new();

    storage.filter_hashes_not_in_cache_inplace("ns", &mut hashes);
    assert!(hashes.is_empty());
}

#[test]
fn cleanup_memory_cache_evicts_all_resident_blocks() {
    let mut storage = make_engine();
    let block1 = empty_block();
    let block2 = empty_block();

    storage.read_cache.batch_insert(vec![(key(1), Arc::clone(&block1))], &[]);
    storage.read_cache.batch_insert(vec![(key(2), block2)], &[]);

    let stats = storage.cleanup_memory_cache();
    assert_eq!(stats.evicted_blocks, 2);
    assert_eq!(stats.still_referenced_blocks, 1);
    assert_eq!(stats.reclaimed_bytes, 0);

    let stats = storage.cleanup_memory_cache();
    assert_eq!(stats, MemoryCacheCleanupStats::default());
}

#[test]
fn allocate_bounded_reclaim_terminates() {
    let mut storage = engine_of(4096, false);

    let result = storage.allocate(1 << 30, None);
    assert!(result.is_none(), "should fail, not loop forever");
}

#[test]
fn gc_stale_inflight_returns_zero_when_empty() {
    let mut inflight = Inflight::new();
    let report = gc_inflight(&mut inflight, 60_000_000_000, 5);
    assert_eq!(report.cleaned, 0);
    assert_eq!(report.bytes, 0);
}

#[test]
fn filter_hashes_not_in_cache_removes_cached() {
    let mut storage = make_engine();
    let block = empty_block();
    storage.read_cache.batch_insert(vec![(key(1), Arc::clone(&block))], &[]);
    storage.read_cache.batch_insert(vec![(key(2), block)], &[]);

    let mut hashes = vec![vec![1], vec![2], vec![3]];
    storage.filter_hashes_not_in_cache_inplace("ns", &mut hashes);

    assert_eq!(hashes.len(), 1);
    assert!(hashes.contains(&vec![3]));
}

#[test]
fn get_blocks_for_transfer_returns_correct_blocks() {
    let mut storage = make_engine();
    let block = empty_block();
    storage.read_cache.batch_insert(vec![(key(1), Arc::clone(&block))], &[]);
    storage.read_cache.batch_insert(vec![(key(3), block)], &[]);

    let result = storage.get_blocks_for_transfer(&[key(1), key(2), key(3)]);
    assert_eq!(result.len(), 2);
    assert_eq!(result[0].0, key(1));
    assert_eq!(result[1].0, key(3));
}

#[test]
fn get_blocks_for_transfer_empty_keys() {
    let mut storage = make_engine();
    let result = storage.get_blocks_for_transfer(&[]);
    assert!(result.is_empty());
}

#[test]
fn pinned_memory_regions_returns_non_empty() {
    let storage = make_engine();
    let regions = storage.pinned_memory_regions();
    assert!(!regions.is_empty(), "pinned_memory_regions should return at least one region");
    for (_ptr, size) in &regions {
        assert!(*size > 0, "region size should be non-zero");
    }
}

#[test]
fn lock_and_release_transfer_when_enabled() {
    let mut storage = make_engine();
    let block = empty_block();
    storage.read_cache.batch_insert(vec![(key(1), Arc::clone(&block))], &[]);

    let session_id = storage.lock_blocks_for_transfer("node-a", &[(key(1), block)], 0);
    assert!(!session_id.is_empty(), "lock_blocks_for_transfer should return a UUID when enabled");

    let released = storage.release_transfer_lock(&session_id);
    assert_eq!(released, 1);
    assert_eq!(storage.release_transfer_lock(&session_id), 0);
}

#[test]
fn memory_is_reclaimed_from_the_oldest_blocks() {
    let mut storage = engine_of(4096, true);
    for hash in 0..4 {
        cached_block(&mut storage, hash, 1024);
    }
    assert_eq!(storage.allocator.usage(), (4096, 4096));
    let held = storage.read_cache.get(&key(0)).unwrap();
    let got = storage.allocate(1024, None).expect("evicted to make room");
    assert_eq!(got.range.size_bytes, 1024);
    assert_eq!(storage.read_cache.len(), 0);
    assert_eq!(storage.removals.len(), 1);
    let told: Vec<u8> = storage.removals[0].iter().map(|(_, hash)| hash[0]).collect();
    assert_eq!(told, vec![1, 2, 3, 0]);
    assert_eq!(storage.allocator.usage().0, 2048);
    drop(held);
    assert!(storage.allocate(4096, None).is_none());
}

#[test]
fn a_cleanup_returns_what_nobody_holds() {
    let mut storage = engine_of(4096, false);
    cached_block(&mut storage, 1, 1000);
    cached_block(&mut storage, 2, 500);
    let held = storage.read_cache.get(&key(2)).unwrap();
    let stats = storage.cleanup_memory_cache();
    assert_eq!(stats.evicted_bytes, 1500);
    assert_eq!(stats.reclaimed_bytes, 1024);
    assert_eq!(stats.still_referenced_blocks, 1);
    assert!(storage.removals.is_empty());
    drop(held);
    assert_eq!(still_referenced(&[1, 2, 3, 1]), 2);
}

#[test]
fn locks_expire_after_their_timeout() {
    let mut locks = TransferLockManager::new(100);
    locks.lock_blocks_as("a".to_string(), "node", vec![(key(1), empty_block())], 0);
    locks.lock_blocks_as("b".to_string(), "node", Vec::new(), 50);
    assert_eq!(locks.gc_expired(99).0, 0);
    assert_eq!(locks.gc_expired(100).0, 1);
    assert!(locks.release("a").is_empty());
    assert_eq!(locks.gc_expired(149).0, 0);
    assert_eq!(locks.gc_expired(150).0, 1);
    assert_eq!(locks.lock_timeout(), 100);
}

#[test]
fn memory_returns_once_the_last_holder_lets_go() {
    let mut storage = engine_of(4096, false);
    cached_block(&mut storage, 1, 1024);
    let found = storage.get_blocks_for_transfer(&[key(1)]);
    let session = storage.lock_blocks_for_transfer("node", &found, 0);
    storage.cleanup_memory_cache();
    assert_eq!(storage.allocator.usage().0, 1024);
    storage.release_blocks(found);
    assert_eq!(storage.allocator.usage().0, 1024);
    assert_eq!(storage.release_transfer_lock(&session), 1);
    assert_eq!(storage.allocator.usage().0, 0);

    cached_block(&mut storage, 2, 1024);
    let found = storage.get_blocks_for_transfer(&[key(2)]);
    storage.lock_blocks_for_transfer("node", &found, 0);
    storage.release_blocks(found);
    storage.cleanup_memory_cache();
    assert_eq!(storage.gc_expired_transfer_locks(u64::MAX), 1);
    assert_eq!(storage.allocator.usage().0, 0);
}

#[test]
fn storage_is_planned_from_its_configuration() {
    let config = StorageConfig::default();
    assert_eq!(config.max_prefetch_blocks, 1500);
    assert_eq!(config.rdma_qps_per_peer, DEFAULT_RDMA_QPS_PER_PEER);
    let plan = plan_storage(1000, &config, &[]);
    assert!(!plan.numa);
    assert_eq!(
        plan.pools,
        vec![PoolPlan { node: NumaNode::unknown(), shards: 1, shard_bytes: 1000 }]
    );
    assert!(plan.metaserver.is_none() && plan.rdma_nics.is_none() && plan.fetch_as.is_none());

    let config = StorageConfig {
        hint_value_size_bytes: Some(0),
        pool_shards: 2,
        metaserver_addr: Some("http://m".to_string()),
        rdma_nic_names: Some(vec!["mlx5_0".to_string()]),
        ..StorageConfig::default()
    };
    let plan = plan_storage(1000, &config, &[NumaNode(0), NumaNode(4)]);
    assert!(plan.numa);
    assert_eq!(plan.value_size_hint, None);
    assert_eq!(
        plan.pools,
        vec![
            PoolPlan { node: NumaNode(0), shards: 2, shard_bytes: 250 },
            PoolPlan { node: NumaNode(4), shards: 2, shard_bytes: 250 },
        ]
    );
    assert_eq!(plan.metaserver.unwrap().advertise_addr, "127.0.0.1:50055");
    assert_eq!(plan.fetch_as.as_deref(), Some("127.0.0.1:50055"));

    let config =
        StorageConfig { rdma_nic_names: Some(Vec::new()), ..StorageConfig::default() };
    assert!(plan_storage(1000, &config, &[]).rdma_nics.is_none());
}

#[test]
fn tiers_add_up_to_the_blocks_of_a_query() {
    assert_eq!(cache_tier_block_requests(3, 0, 2, 1), vec![("ram", 3), ("ssd", 2), ("miss", 1)]);
    assert_eq!(cache_tier_block_requests(0, 4, 0, 0), vec![("rdma", 4)]);
    assert!(cache_tier_block_requests(0, 0, 0, 0).is_empty());
}

#[test]
fn memory_that_was_let_go_of_returns() {
    let mut storage = engine_of(4096, false);
    let a = storage.allocate(1024, None).unwrap();
    let b = storage.allocate(1024, None).unwrap();
    storage.return_memory(vec![Some(a), None]);
    assert_eq!(storage.allocator.usage().0, 1024);
    storage.return_memory(vec![Some(b)]);
    assert_eq!(storage.allocator.usage().0, 0);
}

#[test]
fn no_more_batches_are_evicted_than_need_be() {
    let mut storage = engine_of(700 * 512, true);
    for hash in 0..700u32 {
        let a = Arc::new(storage.allocate(512, None).expect("memory"));
        let raw = RawBlock::single_segment(Segment::new(a.as_ptr(), 512, a));
        let block = Arc::new(SealedBlock::from_slots(vec![(raw, NumaNode(0))], 0));
        let key = BlockKey::new("ns".into(), hash.to_le_bytes().to_vec());
        storage.read_cache.batch_insert(vec![(key, block)], &[]);
    }
    assert!(storage.allocate(512, None).is_some());
    assert_eq!(storage.read_cache.len(), 700 - 512);
    assert_eq!(storage.removals.len(), 1);
    assert_eq!(storage.allocator.usage().0, (700 - 512 + 1) * 512);
}
