use pegaflow::block::{BlockKey, LayerBlock, RawBlock, SealedBlock, Segment};
use pegaflow::issue23::experiment::Issue23CausalExperiment;
use pegaflow::issue23::plan::{Issue23Backend, Issue23ExperimentConfig, Issue23Schedule};
use pegaflow::numa::NumaNode;
use pegaflow::pinned_pool::{PinnedAllocator, PinnedBacking};
use pegaflow::rdma_fetch::bundle::{
    fetch_work, is_plain_readable, operation_descs, seal_bundle, FetchWork,
};
use pegaflow::rdma_fetch::rebuild::finish_fetch;
use pegaflow::rdma_fetch::segments::{
    sum_segment_bytes_by_numa, TransferBlockInfo, TransferSlotInfo,
};
use pegaflow::rdma_fetch::slabs::{alloc_segment_from_slab, allocate_numa_slabs};
use pegaflow::rdma_fetch::staging::{abandon_fetch, stage_fetch};
use pegaflow::rdma_fetch::task::{
    best_remote, channel_url, check_reply, fetch_step, remote_prefix,
    transfer_timeout_from_server, wait_for_rdma, FetchEvent, FetchState, FetchStatus, NodePrefix,
    ReplyStatus,
};
use pegaflow::server::service::transfer_blocks;
use pegaflow::storage::engine::StorageEngine;
use pegaflow::storage::config::build_pool;
use pegaflow::transfer::types::TransferOutcome;
use std::sync::Arc;

fn slot(k_size: u64, v_ptr: u64, v_size: u64, numa: u32) -> TransferSlotInfo {
    TransferSlotInfo { k_ptr: 0x1000, k_size, v_ptr, v_size, numa_node: numa }
}

fn allocator() -> PinnedAllocator {
    PinnedAllocator::Global(build_pool(
        &vec![PinnedBacking { host: 0x100_0000, device: 0x900_0000, size: 32 * 1024 * 1024 }],
        None,
    ))
}

#[test]
fn sum_segment_bytes_by_numa_aggregates_k_and_v() {
    let blocks = vec![
        TransferBlockInfo {
            block_hash: vec![1],
            slots: vec![slot(100, 0, 0, 0), slot(200, 0x2000, 300, 0)],
        },
        TransferBlockInfo { block_hash: vec![2], slots: vec![slot(400, 0x3000, 500, 1)] },
    ];

    let totals = sum_segment_bytes_by_numa(&blocks).expect("sum bytes");
    let get = |node: NumaNode| totals.iter().find(|(n, _)| *n == node).map(|(_, bytes)| *bytes);
    assert_eq!(get(NumaNode(0)), Some(600));
    assert_eq!(get(NumaNode(1)), Some(900));
}

#[test]
fn allocate_numa_slabs_calls_allocator_once_per_numa() {
    let mut allocator = allocator();
    let totals = vec![(NumaNode(0), 1024_u64), (NumaNode(1), 2048_u64)];
    let slabs = allocate_numa_slabs(&mut allocator, &totals).expect("allocate slabs");

    assert_eq!(slabs.len(), 2);
    assert_eq!(allocator.usage().0, 1024 + 2048);
}

#[test]
fn slab_allocation_is_contiguous_and_bounded() {
    let mut allocator = allocator();
    let mut slabs =
        allocate_numa_slabs(&mut allocator, &vec![(NumaNode(0), 1024_u64)]).expect("allocate slabs");

    assert_eq!(slabs.len(), 1);
    assert_eq!(allocator.usage().0, 1024);

    let (p1, _a1) = alloc_segment_from_slab(&mut slabs, NumaNode(0), 256, "K").expect("alloc p1");
    let (p2, _a2) = alloc_segment_from_slab(&mut slabs, NumaNode(0), 128, "V").expect("alloc p2");
    assert_eq!(p2 - p1, 256);

    let overflow = alloc_segment_from_slab(&mut slabs, NumaNode(0), 1024, "K");
    assert!(overflow.is_err());
}

#[test]
fn nodes_without_bytes_get_no_slab() {
    let mut allocator = allocator();
    let totals = vec![(NumaNode(0), 0_u64), (NumaNode(1), 2048_u64)];
    let slabs = allocate_numa_slabs(&mut allocator, &totals).expect("allocate slabs");
    assert_eq!(slabs.len(), 1);
    assert_eq!((slabs[0].0, slabs[0].1.capacity), (NumaNode(1), 2048));
}

#[test]
fn fetched_blocks_are_rebuilt_where_they_were_read() {
    let mut allocator = allocator();
    let blocks = vec![
        TransferBlockInfo { block_hash: vec![1], slots: vec![slot(200, 0x2000, 300, 0)] },
        TransferBlockInfo { block_hash: vec![2], slots: vec![slot(400, 0, 0, 1)] },
    ];
    let staged = stage_fetch(&mut allocator, &blocks, None).expect("plan");
    assert_eq!(staged.slabs.len(), 1);
    assert_eq!(staged.request, None);
    assert!(is_plain_readable(&blocks));
    let descs = match fetch_work(&blocks, &staged, "a", "b") {
        FetchWork::Plain(descs) => descs,
        other => panic!("{other:?}"),
    };
    assert_eq!(descs.len(), 3);
    assert_eq!((descs[0].remote_ptr, descs[0].len), (0x1000, 200));
    assert_eq!((descs[1].remote_ptr, descs[1].len), (0x2000, 300));
    assert_eq!(descs[1].local_ptr, descs[0].local_ptr + 200);
    let rebuilt = finish_fetch("ns", &blocks, &staged, 9);
    assert_eq!(rebuilt.len(), 2);
    assert_eq!(rebuilt[0].0.hash, vec![1]);
    assert_eq!(rebuilt[0].1.memory_footprint(), 500);
    let layer = LayerBlock::new(&rebuilt[0].1.slots()[0]);
    assert_eq!(layer.k_ptr(), descs[0].local_ptr);
    assert_eq!(layer.v_ptr(), Some(descs[1].local_ptr));
    assert_eq!(rebuilt[1].1.slot_numas(), &[NumaNode(1)]);
}

#[test]
fn a_fetch_that_fails_gives_its_memory_back() {
    let mut allocator = allocator();
    let mut blocks = vec![
        TransferBlockInfo { block_hash: vec![1], slots: vec![slot(1024, 0, 0, 0)] },
        TransferBlockInfo { block_hash: vec![2], slots: vec![slot(1024, 0, 0, 1)] },
    ];
    blocks[1].slots[0].k_ptr = 0;
    for request in [None, Some("cmpl-r-0-deadbeef")] {
        let error = stage_fetch(&mut allocator, &blocks, request).unwrap_err();
        assert_eq!(error, "remote K ptr is null");
        assert_eq!(allocator.usage().0, 0);
    }

    blocks[1].slots[0].k_size = 1 << 40;
    for request in [None, Some("cmpl-r-0-deadbeef")] {
        let error = stage_fetch(&mut allocator, &blocks, request).unwrap_err();
        assert!(error.starts_with("failed to allocate slab (1099511627776 bytes) for "), "{error}");
        assert_eq!(allocator.usage().0, 0);
    }

    blocks[1].slots[0].k_size = 1024;
    let error = stage_fetch(&mut allocator, &blocks, Some("odd")).unwrap_err();
    assert!(!error.contains("null"), "{error}");
    assert_eq!(allocator.usage().0, 0);

    blocks[1].slots[0].k_ptr = 0x4000;
    let staged = stage_fetch(&mut allocator, &blocks, None).expect("plan");
    assert_eq!(allocator.usage().0, 2048);
    abandon_fetch(&mut allocator, staged);
    assert_eq!(allocator.usage().0, 0);
}

#[test]
fn nothing_is_fetched_where_there_is_nothing_to_fetch() {
    let mut allocator = allocator();
    let staged = stage_fetch(&mut allocator, &[], Some("odd")).expect("plan");
    assert!(matches!(fetch_work(&[], &staged, "a", "b"), FetchWork::Nothing));
    assert!(finish_fetch("ns", &[], &staged, 0).is_empty());
    let blocks = vec![TransferBlockInfo { block_hash: vec![1], slots: vec![] }];
    let staged = stage_fetch(&mut allocator, &blocks, None).expect("plan");
    assert!(finish_fetch("ns", &blocks, &staged, 0).is_empty());
}

#[test]
fn memory_for_a_fetch_is_made_by_evicting_blocks() {
    let mut storage = StorageEngine::new(allocator(), 0, true, false, false, false);
    let size = 20 * 1024 * 1024;
    let allocation = Arc::new(storage.allocate(size, None).expect("memory"));
    let segment = Segment::new(allocation.as_ptr(), size as usize, allocation);
    let block = SealedBlock::from_slots(vec![(RawBlock::single_segment(segment), NumaNode(0))], 0);
    storage.read_cache.batch_insert(vec![(BlockKey::new("ns".into(), vec![7]), Arc::new(block))], &[]);
    let blocks = vec![TransferBlockInfo { block_hash: vec![1], slots: vec![slot(size, 0, 0, 0)] }];
    let staged = stage_fetch(&mut storage, &blocks, None).expect("plan");
    assert_eq!(staged.segments.len(), 1);
    assert_eq!(storage.removals, vec![vec![("ns".to_string(), vec![7])]]);
    assert_eq!(storage.read_cache.len(), 0);
}

fn experiment(backend: Issue23Backend) -> Issue23CausalExperiment {
    Issue23CausalExperiment::new(
        Issue23ExperimentConfig {
            plan: None,
            backend,
            schedule: Issue23Schedule::Smooth,
            trace_path: "trace.jsonl".to_string(),
        },
        0,
    )
    .expect("experiment")
}

#[test]
fn bundles_of_an_experiment_keep_their_blocks_apart() {
    let mut allocator = allocator();
    let blocks = vec![
        TransferBlockInfo { block_hash: vec![1], slots: vec![slot(512, 0x2000, 512, 0)] },
        TransferBlockInfo { block_hash: vec![2], slots: vec![slot(0, 0x3000, 512, 0)] },
    ];
    let raw = "cmpl-r-0-deadbeef";
    let staged = stage_fetch(&mut allocator, &blocks, Some(raw)).expect("plan");
    assert_eq!(staged.slabs.len(), 2);
    assert_eq!(staged.request.as_deref(), Some("r"));
    let operations = match fetch_work(&blocks, &staged, "a", "b") {
        FetchWork::Bundle(operations) => operations,
        other => panic!("{other:?}"),
    };
    let named: Vec<(&str, usize)> =
        operations.iter().map(|op| (op.operation_id.as_str(), op.qp_index)).collect();
    assert_eq!(named, vec![("r|01|0|k", 0), ("r|01|0|v", 1), ("r|02|0|v", 0)]);
    assert_eq!((operations[2].source.as_str(), operations[2].destination.as_str()), ("a", "b"));
    let descs = operation_descs(&operations);
    assert_eq!(descs[2].remote_ptr, 0x3000);
    assert_eq!(staged.segments[1].alloc.ptr, staged.segments[0].alloc.ptr);
    assert_ne!(staged.segments[2].alloc.ptr, staged.segments[0].alloc.ptr);

    let bundle = seal_bundle(&experiment(Issue23Backend::Rdma), raw, operations).expect("bundle");
    assert_eq!((bundle.request.as_str(), bundle.gated), ("r", false));
    assert_eq!(bundle.operations[2].remote_addr, 0x3000);
    assert!(seal_bundle(&experiment(Issue23Backend::Rdma), "odd", vec![]).is_err());
}

#[test]
fn peers_may_report_an_error() {
    assert!(check_reply(None).is_ok());
    let mut status = ReplyStatus { ok: true, message: "x".to_string() };
    assert!(check_reply(Some(&status)).is_ok());
    status.ok = false;
    assert_eq!(check_reply(Some(&status)).unwrap_err(), "remote returned error: x");
}

#[test]
fn the_longest_other_prefix_wins() {
    let nodes = |list: &[(&str, usize)]| -> Vec<NodePrefix> {
        list.iter()
            .map(|(node, prefix_len)| NodePrefix { node: node.to_string(), prefix_len: *prefix_len })
            .collect()
    };
    let all = nodes(&[("me", 9), ("a", 3), ("b", 5), ("c", 5)]);
    assert_eq!(best_remote(&all, "me"), Some(3));
    let hashes = vec![vec![1u8]; 6];
    assert_eq!(remote_prefix(None, "r", &hashes, Some(&all), "me"), Some(("c".to_string(), 5)));
    assert_eq!(remote_prefix(None, "r", &[], Some(&all), "me"), None);
    assert_eq!(remote_prefix(None, "r", &hashes, None, "me"), None);
    assert_eq!(remote_prefix(None, "r", &hashes, Some(&nodes(&[("me", 4)])), "me"), None);
    assert_eq!(remote_prefix(None, "r", &hashes, Some(&nodes(&[("a", 0)])), "me"), None);
}

#[test]
fn transfers_end_before_the_lock_is_released() {
    assert_eq!(transfer_timeout_from_server(120), 60);
    assert_eq!(transfer_timeout_from_server(65), 10);
    assert_eq!(transfer_timeout_from_server(0), 10);
}

#[test]
fn peers_are_reached_over_http() {
    assert_eq!(channel_url("10.0.0.1:50055"), "http://10.0.0.1:50055");
    assert_eq!(channel_url("https://x"), "https://x");
}

#[test]
fn waiting_reports_a_timeout_or_the_first_failure() {
    assert_eq!(wait_for_rdma(None).unwrap_err(), "RDMA transfer timed out");
    assert!(wait_for_rdma(Some(&vec![TransferOutcome::Completed(3)])).is_ok());
    assert!(wait_for_rdma(Some(&vec![TransferOutcome::Closed])).is_err());
}

#[test]
fn every_end_of_a_fetch_releases_its_lock() {
    let located = fetch_step(
        FetchState::Querying,
        FetchEvent::Located { session: "s".to_string(), permit: None },
    );
    assert!(located.status.is_none() && located.release_lock.is_none());
    let done = fetch_step(located.next, FetchEvent::Transferred);
    assert_eq!(done.release_lock.as_deref(), Some("s"));
    assert_eq!(done.status, Some(FetchStatus::Fetched));
    assert!(!done.invalidate_connection);

    let failed = fetch_step(
        FetchState::Transferring { session: "t".to_string(), permit: None },
        FetchEvent::TransferFailed,
    );
    assert!(failed.invalidate_connection);
    assert_eq!(failed.release_lock.as_deref(), Some("t"));
    assert_eq!(failed.status, Some(FetchStatus::Missing));

    let denied = fetch_step(FetchState::Querying, FetchEvent::Denied { session: "u".to_string() });
    assert_eq!(denied.release_lock.as_deref(), Some("u"));
    assert!(!denied.invalidate_connection);
    assert_eq!(denied.status, Some(FetchStatus::Missing));

    let refused = fetch_step(FetchState::Connecting, FetchEvent::ConnectFailed);
    assert!(refused.release_lock.is_none());
    assert_eq!(refused.status, Some(FetchStatus::Missing));

    let cancelled = fetch_step(
        FetchState::Transferring { session: "v".to_string(), permit: None },
        FetchEvent::Cancelled,
    );
    assert!(cancelled.release_lock.is_none() && !cancelled.invalidate_connection);
    assert!(matches!(cancelled.next, FetchState::Done));
}

#[test]
fn a_fetched_block_is_the_block_that_was_served() {
    let mut there = allocator();
    let a = Arc::new(there.allocate(1024, NumaNode(3)).expect("memory"));
    let (k, v) = (a.as_ptr(), a.as_ptr() + 600);
    let raw = RawBlock::two_segments(
        Segment::new(k, 600, Arc::clone(&a)),
        Segment::new(v, 200, Arc::clone(&a)),
    );
    let sealed = Arc::new(SealedBlock::from_slots(vec![(raw, NumaNode(3))], 0));
    let infos = transfer_blocks(&[(BlockKey::new("ns".into(), vec![5]), sealed)]);

    let mut here = allocator();
    let staged = stage_fetch(&mut here, &infos, None).expect("plan");
    let reads: Vec<(u64, usize)> = staged.segments.iter().map(|s| (s.remote, s.len)).collect();
    assert_eq!(reads, vec![(k, 600), (v, 200)]);
    let fetched = finish_fetch("ns", &infos, &staged, 1);
    assert_eq!(fetched[0].0.hash, vec![5]);
    assert_eq!(fetched[0].1.slot_numas(), &[NumaNode(3)]);
    let layer = LayerBlock::new(&fetched[0].1.slots()[0]);
    assert_eq!((layer.k_size(), layer.v_size()), (600, Some(200)));
    assert_eq!(layer.k_ptr(), staged.segments[0].local);
}
