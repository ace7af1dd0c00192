use pegaflow::block::{BlockKey, RawBlock, Segment};
use pegaflow::numa::NumaNode;
use pegaflow::pinned_pool::{PinnedAllocator, PinnedBacking};
use pegaflow::read_cache::{CacheInsertOutcome, ReadCache};
use pegaflow::storage::config::build_pool;
use pegaflow::storage::engine::StorageEngine;
use pegaflow::write_path::{gc_inflight, process_insert_batch, Inflight, InsertDeps};
use std::sync::Arc;

fn allocator() -> PinnedAllocator {
    let backing = PinnedBacking { host: 0x10_0000, device: 0x90_0000, size: 1 << 20 };
    PinnedAllocator::Global(build_pool(&vec![backing], None))
}

fn make_raw_block(pool: &mut PinnedAllocator, size: u64) -> RawBlock {
    let a = Arc::new(pool.allocate(size, NumaNode::unknown()).expect("test pool should have space"));
    let ptr = a.as_ptr();
    RawBlock::new(vec![Segment::new(ptr, size as usize, a)])
}

fn make_deps(publish_sealed_blocks: bool) -> Option<InsertDeps> {
    Some(InsertDeps {
        read_cache: ReadCache::new(false),
        ssd_store: false,
        metaserver_client: false,
        publish_sealed_blocks,
    })
}

fn is_cached(deps: &Option<InsertDeps>, key: &BlockKey) -> bool {
    deps.as_ref().unwrap().read_cache.contains_keys(std::slice::from_ref(key))[0]
}

#[test]
fn frozen_destination_save_is_not_published_to_read_cache() {
    let mut pool = allocator();
    let mut deps = make_deps(false);
    let key = BlockKey::new("ns".into(), vec![8, 8, 8]);
    let entries = vec![(key.clone(), vec![(0, make_raw_block(&mut pool, 64))])];
    let mut inflight = Inflight::new();

    let report = process_insert_batch(&mut inflight, &mut deps, entries, 1, NumaNode::unknown(), 0, &[]);

    assert_eq!(inflight.len(), 0);
    assert!(!is_cached(&deps, &key));
    assert_eq!(report.sealed.len(), 1);
    assert!(report.outcomes.is_empty());
}

#[test]
fn single_slot_seals_immediately() {
    let mut pool = allocator();
    let mut deps = make_deps(true);
    let key = BlockKey::new("ns".into(), vec![1, 2, 3]);
    let entries = vec![(key.clone(), vec![(0, make_raw_block(&mut pool, 64))])];
    let mut inflight = Inflight::new();

    process_insert_batch(&mut inflight, &mut deps, entries, 1, NumaNode::unknown(), 0, &[]);

    assert_eq!(inflight.len(), 0, "block should have been sealed");
    assert!(is_cached(&deps, &key), "sealed block should be in cache");
}

#[test]
fn ordered_multi_slot_batch_seals_immediately() {
    let mut pool = allocator();
    let mut deps = make_deps(true);
    let key = BlockKey::new("ns".into(), vec![4, 5, 6]);
    let block0 = make_raw_block(&mut pool, 64);
    let block1 = make_raw_block(&mut pool, 96);
    let block2 = make_raw_block(&mut pool, 128);
    let expected_footprint =
        block0.memory_footprint() + block1.memory_footprint() + block2.memory_footprint();

    let entries = vec![(key.clone(), vec![(0, block0), (1, block1), (2, block2)])];
    let mut inflight = Inflight::new();

    let report = process_insert_batch(&mut inflight, &mut deps, entries, 3, NumaNode(1), 0, &[]);

    assert_eq!(report.ordered_fast_path_seals, 1);
    assert_eq!(inflight.len(), 0, "ordered complete batch should skip inflight storage");
    let cached = deps.as_mut().unwrap().read_cache.get_blocks(std::slice::from_ref(&key));
    assert_eq!(cached.len(), 1, "sealed block should be in read cache");

    let sealed = &cached[0].1;
    assert_eq!(sealed.memory_footprint(), expected_footprint);
    assert_eq!(sealed.slots().len(), 3);
    assert_eq!(sealed.slot_numas(), &[NumaNode(1); 3]);
}

#[test]
fn multi_slot_partial_then_complete() {
    let mut pool = allocator();
    let mut deps = make_deps(true);
    let key = BlockKey::new("ns".into(), vec![1]);
    let mut inflight = Inflight::new();

    let entries = vec![(key.clone(), vec![(0, make_raw_block(&mut pool, 64))])];
    process_insert_batch(&mut inflight, &mut deps, entries, 3, NumaNode::unknown(), 0, &[]);
    assert_eq!(inflight.len(), 1, "block should still be inflight");
    assert!(!is_cached(&deps, &key));

    let entries = vec![(key.clone(), vec![(1, make_raw_block(&mut pool, 64))])];
    process_insert_batch(&mut inflight, &mut deps, entries, 3, NumaNode::unknown(), 0, &[]);
    assert_eq!(inflight.len(), 1, "still inflight after 2/3 slots");

    let entries = vec![(key.clone(), vec![(2, make_raw_block(&mut pool, 64))])];
    let report = process_insert_batch(&mut inflight, &mut deps, entries, 3, NumaNode::unknown(), 0, &[]);
    assert_eq!(inflight.len(), 0, "block should be sealed after 3/3 slots");
    assert!(is_cached(&deps, &key));
    assert_eq!(report.inflight_bytes_added, 64);
    assert_eq!(report.inflight_bytes_removed, 192);
}

#[test]
fn duplicate_slot_is_idempotent() {
    let mut pool = allocator();
    let mut deps = make_deps(true);
    let key = BlockKey::new("ns".into(), vec![1]);
    let mut inflight = Inflight::new();

    let block_a = make_raw_block(&mut pool, 64);
    let block_b = make_raw_block(&mut pool, 64);
    let entries = vec![(key.clone(), vec![(0, block_a), (0, block_b)])];
    process_insert_batch(&mut inflight, &mut deps, entries, 2, NumaNode::unknown(), 0, &[]);

    assert_eq!(inflight.len(), 1);
    assert_eq!(inflight.get(&key).unwrap().filled_count(), 1);
}

#[test]
fn slot_count_mismatch_skips_key() {
    let mut pool = allocator();
    let mut deps = make_deps(true);
    let key = BlockKey::new("ns".into(), vec![1]);
    let mut inflight = Inflight::new();

    let entries = vec![(key.clone(), vec![(0, make_raw_block(&mut pool, 64))])];
    process_insert_batch(&mut inflight, &mut deps, entries, 2, NumaNode::unknown(), 0, &[]);
    assert_eq!(inflight.len(), 1);

    let entries = vec![(key.clone(), vec![(1, make_raw_block(&mut pool, 64))])];
    process_insert_batch(&mut inflight, &mut deps, entries, 4, NumaNode::unknown(), 0, &[]);

    assert_eq!(inflight.get(&key).unwrap().filled_count(), 1);
}

#[test]
fn late_save_for_resident_block_is_dropped() {
    let mut pool = allocator();
    let mut deps = make_deps(true);
    let key = BlockKey::new("ns".into(), vec![9]);
    let mut inflight = Inflight::new();

    let block0 = make_raw_block(&mut pool, 64);
    let block1 = make_raw_block(&mut pool, 64);
    let entries = vec![(key.clone(), vec![(0, block0), (1, block1)])];
    process_insert_batch(&mut inflight, &mut deps, entries, 2, NumaNode::unknown(), 0, &[]);
    assert_eq!(inflight.len(), 0, "block should be sealed into read cache");
    assert!(is_cached(&deps, &key));

    let entries = vec![(key.clone(), vec![(0, make_raw_block(&mut pool, 64))])];
    process_insert_batch(&mut inflight, &mut deps, entries, 2, NumaNode::unknown(), 0, &[]);
    assert_eq!(
        inflight.len(),
        0,
        "late save for an already-resident block must not leak a partial inflight block"
    );
}

#[test]
fn gc_inflight_removes_old_blocks() {
    let mut pool = allocator();
    let mut deps = make_deps(true);
    let key = BlockKey::new("ns".into(), vec![1]);
    let mut inflight = Inflight::new();
    let entries = vec![(key.clone(), vec![(0, make_raw_block(&mut pool, 64))])];
    process_insert_batch(&mut inflight, &mut deps, entries, 2, NumaNode::unknown(), 1_000, &[]);

    let report = gc_inflight(&mut inflight, 60_000_000_000, 2_000);
    assert_eq!(report.cleaned, 0);
    assert_eq!(inflight.len(), 1);

    let report = gc_inflight(&mut inflight, 0, 2_000);
    assert_eq!(report.cleaned, 1);
    assert_eq!(report.bytes, 64);
    assert_eq!(inflight.len(), 0);
}

#[test]
fn send_backing_batches_no_stores_is_noop() {
    let mut pool = allocator();
    let mut deps = make_deps(true);
    let key = BlockKey::new("ns".into(), vec![7]);
    let entries = vec![(key.clone(), vec![(0, make_raw_block(&mut pool, 64))])];
    let mut inflight = Inflight::new();

    let report = process_insert_batch(&mut inflight, &mut deps, entries, 1, NumaNode::unknown(), 0, &[]);

    assert_eq!(inflight.len(), 0);
    assert!(is_cached(&deps, &key));
    assert!(!report.ingest_to_ssd);
    assert!(report.register_hashes.is_none());
}

#[test]
fn sealed_blocks_go_to_every_store_there_is() {
    let mut pool = allocator();
    let mut deps = make_deps(true);
    deps.as_mut().unwrap().ssd_store = true;
    deps.as_mut().unwrap().metaserver_client = true;
    let key = BlockKey::new("ns".into(), vec![7]);
    let entries = vec![(key.clone(), vec![(0, make_raw_block(&mut pool, 64))])];
    let mut inflight = Inflight::new();
    let report = process_insert_batch(&mut inflight, &mut deps, entries, 1, NumaNode::unknown(), 0, &[]);
    assert!(report.ingest_to_ssd);
    assert_eq!(report.register_hashes, Some(vec![vec![7]]));
}

#[test]
fn what_goes_nowhere_is_handed_back() {
    let mut storage = StorageEngine::new(allocator(), 0, false, false, false, false);
    let mut deps = make_deps(true);
    let mut inflight = Inflight::new();
    let pool = &mut storage.allocator;
    let (a, b) = (BlockKey::new("ns".into(), vec![1]), BlockKey::new("ns".into(), vec![2]));
    let entries = vec![
        (a.clone(), vec![(0, make_raw_block(pool, 512)), (0, make_raw_block(pool, 512))]),
        (a.clone(), vec![(1, make_raw_block(pool, 512)), (1, make_raw_block(pool, 512))]),
        (b.clone(), vec![(0, make_raw_block(pool, 512))]),
    ];
    let report = process_insert_batch(&mut inflight, &mut deps, entries, 2, NumaNode(0), 0, &[]);
    assert_eq!(report.sealed.len(), 1);
    assert_eq!(report.dropped.len(), 2);
    assert_eq!(storage.allocator.usage().0, 5 * 512);
    storage.discard_slots(report.dropped);
    assert_eq!(storage.allocator.usage().0, 3 * 512);

    let late = vec![(a, vec![(0, make_raw_block(&mut storage.allocator, 512))])];
    let report = process_insert_batch(&mut inflight, &mut deps, late, 2, NumaNode(0), 0, &[]);
    assert_eq!(report.dropped.len(), 1);
    storage.discard_slots(report.dropped);
    let odd = vec![(b, vec![(0, make_raw_block(&mut storage.allocator, 512))])];
    let report = process_insert_batch(&mut inflight, &mut deps, odd, 3, NumaNode(0), 0, &[]);
    assert_eq!(report.dropped.len(), 1);
    storage.discard_slots(report.dropped);
    assert_eq!(storage.allocator.usage().0, 3 * 512);

    let stale = gc_inflight(&mut inflight, 0, 10);
    assert_eq!((stale.cleaned, stale.dropped.len()), (1, 1));
    storage.discard_slots(stale.dropped);
    assert_eq!(storage.allocator.usage().0, 2 * 512);
}

#[test]
fn slots_come_in_any_order_and_split() {
    let mut pool = allocator();
    let mut deps = make_deps(true);
    let mut inflight = Inflight::new();
    let key = BlockKey::new("ns".into(), vec![9]);
    let first = make_raw_block(&mut pool, 512);
    let kept = first.segment_ptr(0);
    let batches = vec![
        (vec![(2, first)], NumaNode(1)),
        (vec![(2, make_raw_block(&mut pool, 512)), (0, make_raw_block(&mut pool, 512))], NumaNode(2)),
        (vec![(1, make_raw_block(&mut pool, 512)), (0, make_raw_block(&mut pool, 512))], NumaNode(3)),
    ];
    for (i, (slots, numa)) in batches.into_iter().enumerate() {
        assert!(!is_cached(&deps, &key));
        let entries = vec![(key.clone(), slots)];
        process_insert_batch(&mut inflight, &mut deps, entries, 3, numa, 0, &[]);
        if i < 2 {
            assert_eq!(inflight.get(&key).unwrap().filled_count(), i + 1);
        }
    }
    assert_eq!(inflight.len(), 0);
    let block = deps.as_mut().unwrap().read_cache.get(&key).expect("cached");
    assert_eq!(block.slot_numas(), &[NumaNode(2), NumaNode(3), NumaNode(1)]);
    assert_eq!(block.slots()[2].segment_ptr(0), kept);
}

#[test]
fn a_sealed_block_may_be_kept_out_of_the_cache() {
    let mut pool = allocator();
    let mut deps = make_deps(true);
    deps.as_mut().unwrap().read_cache = ReadCache::new(true);
    let mut inflight = Inflight::new();
    let key = BlockKey::new("ns".into(), vec![9]);
    let entries = vec![(key.clone(), vec![(0, make_raw_block(&mut pool, 64))])];
    let report = process_insert_batch(&mut inflight, &mut deps, entries, 1, NumaNode(0), 0, &[false]);
    assert_eq!(report.outcomes, vec![CacheInsertOutcome::Rejected]);
    assert_eq!(report.sealed.len(), 1);
    assert!(!is_cached(&deps, &key));
}
