use pegaflow::block::{object_id, BlockKey, InflightBlock, LayerBlock, RawBlock, SealedBlock, Segment, SlotInsertResult};
use pegaflow::numa::NumaNode;
use pegaflow::pinned_pool::{PinnedAllocator, PinnedBacking};
use pegaflow::read_cache::{CacheInsertOutcome, ReadCache};
use pegaflow::storage::config::build_pool;
use std::sync::Arc;

fn allocator(size: u64) -> PinnedAllocator {
    let backing = PinnedBacking { host: 0x10_0000, device: 0x90_0000, size };
    PinnedAllocator::Global(build_pool(&vec![backing], None))
}

fn raw_block(pool: &mut PinnedAllocator, size: u64) -> RawBlock {
    let a = Arc::new(pool.allocate(size, NumaNode::unknown()).expect("space"));
    let ptr = a.as_ptr();
    RawBlock::new(vec![Segment::new(ptr, size as usize, a)])
}

fn make_block() -> Arc<SealedBlock> {
    Arc::new(SealedBlock::from_slots(Vec::new(), 0))
}

fn key(ns: &str, hash: u8) -> BlockKey {
    BlockKey::new(ns.to_string(), vec![hash])
}

#[test]
fn object_identity_contains_full_namespace_and_hash() {
    let key = BlockKey::new("model/instance".to_string(), vec![0x00, 0x0f, 0xa5, 0xff]);
    assert_eq!(object_id(&key), "model/instance:000fa5ff");
}

#[test]
fn sealed_block_tracks_local_materialization_age() {
    let block = SealedBlock::from_slots(Vec::new(), 5_000);
    assert!(block.materialized_age(5_000) <= 1_000_000_000);
    assert_eq!(block.materialized_age(7_500), 2_500);
    assert_eq!(block.materialized_age(4_000), 0);
}

#[test]
fn layer_blocks_read_keys_and_values() {
    let mut pool = allocator(1 << 20);
    let a = Arc::new(pool.allocate(1024, NumaNode::unknown()).unwrap());
    let k = Segment::new(a.as_ptr(), 600, Arc::clone(&a));
    let v = Segment::new(a.as_ptr() + 600, 400, Arc::clone(&a));
    let raw = RawBlock::two_segments(k, v);
    let layer = LayerBlock::new(&raw);
    assert_eq!(layer.k_ptr(), a.as_ptr());
    assert_eq!(layer.k_size(), 600);
    assert_eq!(layer.v_ptr(), Some(a.as_ptr() + 600));
    assert_eq!(layer.v_size(), Some(400));
    assert_eq!(layer.size(), 1000);
    assert_eq!(raw.segment_iovecs(), vec![(a.as_ptr(), 600), (a.as_ptr() + 600, 400)]);
    assert_eq!(raw.segment_mapped_ptr(1).unwrap().device(), 0x90_0000 + 600);
    assert_eq!(raw.segment_ptr(2), None);
}

#[test]
fn inflight_blocks_fill_each_slot_once() {
    let mut pool = allocator(1 << 20);
    let mut block = InflightBlock::new(2, 10);
    let first = block.insert_slot(1, raw_block(&mut pool, 64), NumaNode(3));
    assert!(matches!(first, SlotInsertResult::Inserted { completed: false, footprint_added: 64 }));
    let again = block.insert_slot(1, raw_block(&mut pool, 128), NumaNode(4));
    assert!(matches!(again, SlotInsertResult::Duplicate));
    assert_eq!(block.filled_count(), 1);
    let last = block.insert_slot(0, raw_block(&mut pool, 32), NumaNode(5));
    assert!(matches!(last, SlotInsertResult::Inserted { completed: true, footprint_added: 32 }));
    assert_eq!(block.age(25), 15);
    let sealed = block.seal(40);
    assert_eq!(sealed.memory_footprint(), 96);
    assert_eq!(sealed.slot_numas(), &[NumaNode(5), NumaNode(3)]);
    assert!(sealed.get_slot(2).is_none());
}

#[test]
fn get_blocks_returns_existing_skips_missing() {
    let mut cache = ReadCache::new(false);
    let key1 = key("ns", 1);
    let key2 = key("ns", 2);
    let key3 = key("ns", 3);

    cache.batch_insert(vec![(key1.clone(), make_block()), (key3.clone(), make_block())], &[]);

    let result = cache.get_blocks(&[key1.clone(), key2.clone(), key3.clone()]);
    assert_eq!(result.len(), 2);
    assert_eq!(result[0].0, key1);
    assert_eq!(result[1].0, key3);
}

#[test]
fn get_blocks_empty_input_returns_empty() {
    let mut cache = ReadCache::new(false);
    let result = cache.get_blocks(&[]);
    assert!(result.is_empty());
}

#[test]
fn get_blocks_all_missing_returns_empty() {
    let mut cache = ReadCache::new(false);
    let result = cache.get_blocks(&[key("ns", 10), key("ns", 20)]);
    assert!(result.is_empty());
}

#[test]
fn get_blocks_is_idempotent() {
    let mut cache = ReadCache::new(false);
    let key = key("ns", 1);
    cache.batch_insert(vec![(key.clone(), make_block())], &[]);

    let result1 = cache.get_blocks(std::slice::from_ref(&key));
    let result2 = cache.get_blocks(std::slice::from_ref(&key));
    assert_eq!(result1.len(), 1);
    assert_eq!(result2.len(), 1);
    assert_eq!(result1[0].0, result2[0].0);
    assert!(Arc::ptr_eq(&result1[0].1, &result2[0].1));
}

#[test]
fn get_blocks_does_not_break_at_first_miss() {
    let mut cache = ReadCache::new(false);
    let keys: Vec<BlockKey> = (0u8..5).map(|i| key("ns", i)).collect();

    for key in keys.iter().step_by(2) {
        cache.batch_insert(vec![(key.clone(), make_block())], &[]);
    }

    let result = cache.get_blocks(&keys);
    assert_eq!(result.len(), 3);

    let (prefix_hit, _) = cache.get_prefix_blocks(&keys);
    assert_eq!(prefix_hit, 1);
}

#[test]
fn remove_all_evicts_resident_blocks() {
    let mut cache = ReadCache::new(false);
    let key1 = key("ns", 1);
    let key2 = key("ns", 2);

    cache.batch_insert(vec![(key1.clone(), make_block()), (key2.clone(), make_block())], &[]);

    let removed = cache.remove_all();
    assert_eq!(removed.len(), 2);
    assert_eq!(cache.get_blocks(&[key1, key2]).len(), 0);
    assert!(cache.remove_all().is_empty());
}

#[test]
fn least_recently_used_blocks_leave_first() {
    let mut cache = ReadCache::new(false);
    for i in 0..4 {
        cache.batch_insert(vec![(key("ns", i), make_block())], &[]);
    }
    assert!(cache.get(&key("ns", 0)).is_some());
    let gone = cache.remove_lru_batch(2);
    assert_eq!(gone[0].0, key("ns", 1));
    assert_eq!(gone[1].0, key("ns", 2));
    assert_eq!(cache.len(), 2);
    assert_eq!(cache.contains_keys(&[key("ns", 0), key("ns", 1)]), vec![true, false]);
    let rest: Vec<BlockKey> = cache.snapshot_all().into_iter().map(|e| e.0).collect();
    assert_eq!(rest, vec![key("ns", 3), key("ns", 0)]);
}

#[test]
fn a_cached_block_is_not_replaced() {
    let mut cache = ReadCache::new(true);
    let first = make_block();
    let outcome = cache.insert_block(key("ns", 1), Arc::clone(&first), true);
    assert_eq!(outcome, CacheInsertOutcome::InsertedNew);
    let outcome = cache.insert_block(key("ns", 1), make_block(), true);
    assert_eq!(outcome, CacheInsertOutcome::AlreadyExists);
    assert!(Arc::ptr_eq(&cache.get(&key("ns", 1)).unwrap(), &first));
    let outcome = cache.insert_block(key("ns", 2), make_block(), false);
    assert_eq!(outcome, CacheInsertOutcome::Rejected);
    assert!(!cache.contains_key(&key("ns", 2)));
}

#[test]
fn a_block_gives_back_the_allocations_it_lies_in() {
    let mut pool = allocator(1 << 20);
    let sealed = SealedBlock::from_slots(
        vec![(raw_block(&mut pool, 64), NumaNode(0)), (raw_block(&mut pool, 64), NumaNode(1))],
        0,
    );
    let allocations = sealed.into_allocations();
    assert_eq!(allocations.len(), 2);
    assert_ne!(allocations[0].as_ptr(), allocations[1].as_ptr());
}

#[test]
fn an_admission_policy_decides_on_each_block() {
    let blocks = || (0..4).map(|i| (key("ns", i % 3), make_block())).collect::<Vec<_>>();
    let mut cache = ReadCache::new(true);
    let outcomes = cache.batch_insert(blocks(), &[false, true, false]);
    assert_eq!(
        outcomes,
        vec![
            CacheInsertOutcome::Rejected,
            CacheInsertOutcome::InsertedNew,
            CacheInsertOutcome::Rejected,
            CacheInsertOutcome::InsertedNew,
        ]
    );
    assert_eq!(cache.contains_keys(&[key("ns", 0), key("ns", 1), key("ns", 2)]), [true, true, false]);
    let mut open = ReadCache::new(false);
    let outcomes = open.batch_insert(blocks(), &[false, false, false]);
    assert_eq!(outcomes[3], CacheInsertOutcome::AlreadyExists);
    assert_eq!(open.len(), 3);
}
