use pegaflow::block::{BlockKey, PrefetchStatus, RawBlock, SealedBlock, Segment};
use pegaflow::engine::{
    plan_load, pool_nodes, EngineError, LayerLookup, LayerTarget, LeasedBlocks, PegaEngine,
};
use pegaflow::numa::NumaNode;
use pegaflow::pinned_pool::{PinnedAllocator, PinnedBacking};
use pegaflow::server::registry::{CudaTensorRegistry, LayerResult, LayerTensor, TensorMetadata};
use pegaflow::server::service::{
    cleanup, context_key, load_request, lock_timeout_secs, map_engine_error, query_outcome,
    register_context_batch, release_outcome, require_transport, save_request, transfer_blocks,
    unregister_context, usize_from_u64, validate_device_id, validate_query_prefetch_request,
    validate_register_context_request, validate_save_layers, validate_session, Code, LoadItem,
    QueryOutcome, QueryRequest, RegisterContextRequest, SaveLayer, SessionRegistry,
};
use pegaflow::storage::config::build_pool;
use pegaflow::storage::engine::StorageEngine;
use pegaflow::transfer::accept::{AcceptStep, HandshakeFault};
use pegaflow::transfer::engine::TransferEngine;
use pegaflow::topology::{configure_device_scope, DeviceTopology};
use std::sync::Arc;

const VERSION: &str = "0.1.0";

fn engine() -> PegaEngine {
    let backing = PinnedBacking { host: 0x1000, device: 0x9000, size: 1 << 16 };
    let allocator = PinnedAllocator::Global(build_pool(&vec![backing], None));
    let mut topology = DeviceTopology::new();
    configure_device_scope(&mut topology, &[0, 1]).unwrap();
    let storage = StorageEngine::new(allocator, 120_000_000_000, false, false, false, false);
    PegaEngine::new(storage, topology, Some(TransferEngine::new(&[NumaNode(0)], 1)))
}

fn request() -> RegisterContextRequest {
    RegisterContextRequest {
        instance_id: "instance".to_string(),
        namespace: "namespace".to_string(),
        client_version: VERSION.to_string(),
        tp_rank: 0,
        pp_rank: 0,
        tp_size: 1,
        world_size: 1,
        device_id: 0,
        layer_names: Vec::new(),
        wrapper_count: 0,
        num_blocks: Vec::new(),
        bytes_per_block: Vec::new(),
        kv_stride_bytes: Vec::new(),
        segments: Vec::new(),
        page_first: false,
    }
}

fn layered(device_id: i32) -> RegisterContextRequest {
    RegisterContextRequest {
        device_id,
        layer_names: vec!["l0".to_string(), "l1".to_string()],
        wrapper_count: 2,
        num_blocks: vec![4, 4],
        bytes_per_block: vec![64, 64],
        kv_stride_bytes: vec![0, 0],
        segments: vec![1, 1],
        ..request()
    }
}

fn tensor(handle: u64, device_id: i32) -> LayerTensor {
    LayerTensor {
        handle,
        metadata: TensorMetadata { data_ptr: 0x100 * handle, size_bytes: 256, device_id },
    }
}

fn tensors(device_id: i32, first: u64) -> Vec<LayerResult> {
    vec![
        LayerResult { layer_name: "l0".to_string(), tensor: Ok(tensor(first, device_id)) },
        LayerResult { layer_name: "l1".to_string(), tensor: Ok(tensor(first + 1, device_id)) },
    ]
}

#[test]
fn validate_query_prefetch_rejects_empty_req_id() {
    let err = validate_query_prefetch_request(&QueryRequest {
        instance_id: "instance".to_string(),
        block_hashes: Vec::new(),
        req_id: String::new(),
    })
    .expect_err("empty req_id must be rejected before engine lookup");

    assert_eq!(err.code, Code::InvalidArgument);
    assert!(err.message.contains("req_id"));
}

#[test]
fn validate_query_prefetch_allows_empty_hashes() {
    validate_query_prefetch_request(&QueryRequest {
        instance_id: "instance".to_string(),
        block_hashes: Vec::new(),
        req_id: "request".to_string(),
    })
    .expect("empty block_hashes are a valid zero-hit query");
}

#[test]
fn validate_register_context_rejects_pure_argument_errors() {
    let req = RegisterContextRequest { tp_rank: 1, ..request() };
    let err = validate_register_context_request(&req, VERSION)
        .expect_err("tp_rank outside tp_size must be rejected at RPC boundary");

    assert_eq!(err.code, Code::InvalidArgument);
    assert!(err.message.contains("tp_rank"));
}

#[test]
fn validate_register_context_rejects_client_version_mismatch() {
    let req =
        RegisterContextRequest { client_version: "0.0.0-test-mismatch".to_string(), ..request() };
    let err = validate_register_context_request(&req, VERSION)
        .expect_err("client/server version mismatch must be rejected before registration");

    assert_eq!(err.code, Code::FailedPrecondition);
    assert!(err.message.contains("PegaFlow version mismatch"));
    assert!(err.message.contains("client=0.0.0-test-mismatch"));
    assert!(err.message.contains("server=0.1.0"));
    let none = RegisterContextRequest { client_version: String::new(), ..request() };
    let err = validate_register_context_request(&none, VERSION).unwrap_err();
    assert!(err.message.contains("client=<missing>"));
}

#[test]
fn validate_save_layers_rejects_mismatched_block_shapes() {
    let err = validate_save_layers(&[SaveLayer {
        layer_name: "layer_0".to_string(),
        block_ids: vec![0, 1],
        block_hashes: vec![vec![1]],
    }])
    .expect_err("service must reject malformed save shape");

    assert_eq!(err.code, Code::InvalidArgument);
    assert!(err.message.contains("does not match"));
}

#[test]
fn validate_device_id_rejects_negative_values() {
    let err =
        validate_device_id(-1).expect_err("negative device_id must be rejected at RPC boundary");

    assert_eq!(err.code, Code::InvalidArgument);
    assert!(err.message.contains("device_id"));
}

#[test]
fn other_register_arguments_are_checked() {
    let check = |req: RegisterContextRequest| {
        validate_register_context_request(&req, VERSION).unwrap_err().message
    };
    assert_eq!(check(RegisterContextRequest { tp_size: 0, ..request() }), "tp_size must be > 0");
    assert_eq!(
        check(RegisterContextRequest { world_size: 0, ..request() }),
        "world_size must be > 0"
    );
    assert_eq!(
        check(RegisterContextRequest { tp_rank: 3, tp_size: 2, ..request() }),
        "tp_rank 3 out of range (tp_size 2)"
    );
    assert_eq!(validate_session("").unwrap_err().message, "instance_id must not be empty");
    assert_eq!(usize_from_u64(7, "x"), Ok(7));
}

#[test]
fn drop_context_removes_only_that_context() {
    let mut registry = CudaTensorRegistry::empty();
    registry.register_layers("instance-a:tp0:pp0:dev0", 0, &Vec::new()).unwrap();
    registry.register_layers("instance-a:tp0:pp1:dev1", 1, &Vec::new()).unwrap();

    assert_eq!(registry.drop_context("instance-a:tp0:pp0:dev0").len(), 0);

    assert!(registry.context("instance-a:tp0:pp0:dev0").is_none());
    assert!(registry.context("instance-a:tp0:pp1:dev1").is_some());
}

#[test]
fn register_layers_rejects_existing_context_before_materializing() {
    let mut registry = CudaTensorRegistry::empty();
    registry.register_layers("instance-a:tp0:pp0:dev0", 7, &Vec::new()).unwrap();

    let err = registry
        .check_layers("instance-a:tp0:pp0:dev0", &[])
        .expect_err("existing context must be rejected");
    assert!(err.contains("already registered"));
    let err = registry
        .register_layers("instance-a:tp0:pp0:dev0", 0, &Vec::new())
        .expect_err("existing context must be rejected");
    assert!(err.contains("already registered"));
    assert_eq!(
        registry
            .context("instance-a:tp0:pp0:dev0")
            .expect("existing context remains")
            .device_id,
        7
    );
}

#[test]
fn a_context_is_registered_whole_or_not_at_all() {
    let mut registry = CudaTensorRegistry::empty();
    let mut layers = tensors(0, 1);
    layers[1].tensor = Err("no memory".to_string());
    assert_eq!(registry.register_layers("c", 0, &layers).unwrap_err(), "no memory");
    assert!(registry.context("c").is_none());
    layers[1].tensor = Ok(tensor(2, 3));
    assert_eq!(
        registry.register_layers("c", 0, &layers).unwrap_err(),
        "context c is pinned to device 0 but got 3"
    );
    layers[1] = LayerResult { layer_name: "l0".to_string(), tensor: Ok(tensor(2, 0)) };
    assert_eq!(
        registry.register_layers("c", 0, &layers).unwrap_err(),
        "layer l0 appears more than once in context c"
    );
    let metadatas = registry.register_layers("c", 0, &tensors(0, 1)).unwrap();
    assert_eq!(metadatas[1].data_ptr, 0x200);
    registry.register_layers("d:tp0", 0, &tensors(0, 5)).unwrap();
    assert_eq!(registry.drop_instance("d"), vec![5, 6]);
    assert_eq!(registry.clear_and_count(), vec![1, 2]);
}

#[test]
fn context_keys_name_every_part() {
    assert_eq!(context_key("inst", 1, 2, 3), "inst:tp1:pp2:dev3");
    assert_ne!(context_key("inst:tp1", 1, 2, 3), context_key("inst", 1, 2, 3));
}

#[test]
fn a_failed_registration_is_rolled_back() {
    let mut engine = engine();
    let mut registry = CudaTensorRegistry::empty();
    let none = [None, None];
    let node = NumaNode::unknown();

    let (done, handles) = register_context_batch(
        &mut engine, &mut registry, &layered(0), VERSION, &tensors(0, 1), &none, node,
    );
    let done = done.unwrap();
    assert_eq!(done.layers[1].0, "l1");
    assert_eq!(done.layers[1].1.data_ptr, 0x200);
    assert!(handles.is_empty());
    assert_eq!(engine.list_instance_ids(), vec!["instance".to_string()]);

    let (refused, handles) = register_context_batch(
        &mut engine, &mut registry, &layered(5), VERSION, &tensors(5, 10), &none, node,
    );
    let refused = refused.unwrap_err();
    assert_eq!(refused.code, Code::InvalidArgument);
    assert_eq!(
        refused.message,
        "invalid argument: device 5 is outside the configured device scope"
    );
    assert_eq!(handles, vec![10, 11]);
    assert!(registry.context(&context_key("instance", 0, 0, 5)).is_none());
    assert!(registry.context(&context_key("instance", 0, 0, 0)).is_some());

    let other_shape = RegisterContextRequest { tp_size: 2, world_size: 2, ..layered(1) };
    let (refused, handles) = register_context_batch(
        &mut engine, &mut registry, &other_shape, VERSION, &tensors(1, 20), &none, node,
    );
    let refused = refused.unwrap_err();
    assert_eq!(refused.code, Code::FailedPrecondition);
    assert!(refused.message.starts_with("topology mismatch: instance instance"));
    assert_eq!(handles, vec![20, 21]);

    let faults = [None, Some("bad stride".to_string())];
    let (refused, _) = register_context_batch(
        &mut engine, &mut registry, &layered(1), VERSION, &tensors(1, 30), &faults, node,
    );
    assert_eq!(refused.unwrap_err().message, "invalid argument: layer l1: bad stride");

    let uneven = RegisterContextRequest { num_blocks: vec![4], ..layered(1) };
    let (refused, handles) = register_context_batch(
        &mut engine, &mut registry, &uneven, VERSION, &tensors(1, 40), &none, node,
    );
    assert_eq!(
        refused.unwrap_err().message,
        "all layer arrays must have the same non-zero length (got layer_names=2)"
    );
    assert!(handles.is_empty());

    let (again, _) = register_context_batch(
        &mut engine, &mut registry, &layered(0), VERSION, &tensors(0, 50), &none, node,
    );
    let again = again.unwrap_err();
    assert_eq!(again.code, Code::Internal);
    assert!(again.message.starts_with("register tensor failed: context "));
}

#[test]
fn instances_are_removed_with_their_tensors() {
    let mut engine = engine();
    let mut registry = CudaTensorRegistry::empty();
    let none = [None, None];
    let (done, _) = register_context_batch(
        &mut engine, &mut registry, &layered(0), VERSION, &tensors(0, 1), &none, NumaNode(0),
    );
    assert!(done.is_ok());
    let (gone, handles) = unregister_context(&mut engine, &mut registry, "instance");
    assert!(gone.is_ok());
    assert_eq!(handles, vec![1, 2]);
    let (gone, handles) = unregister_context(&mut engine, &mut registry, "instance");
    assert_eq!(gone.unwrap_err().message, "instance instance not found");
    assert!(handles.is_empty());

    registry.register_layers("stray:tp0:pp0:dev0", 0, &tensors(0, 8)).unwrap();
    let (cleaned, handles) = cleanup(&mut engine, &mut registry, Some("stray"));
    let cleaned = cleaned.unwrap();
    assert_eq!((cleaned.removed_instances, cleaned.removed_tensors), (vec!["stray".to_string()], 2));
    assert_eq!(handles, vec![8, 9]);
    let (missing, _) = cleanup(&mut engine, &mut registry, Some("stray"));
    assert_eq!(missing.unwrap_err().code, Code::NotFound);
    engine.get_or_create_instance("a", "ns", 1, 1, false).unwrap();
    registry.register_layers("b:tp0", 0, &tensors(0, 3)).unwrap();
    let (cleaned, handles) = cleanup(&mut engine, &mut registry, None);
    assert_eq!(cleaned.unwrap().removed_instances, vec!["a".to_string()]);
    assert_eq!(handles, vec![3, 4]);
    assert!(engine.list_instance_ids().is_empty());
}

#[test]
fn only_the_last_session_of_an_instance_cleans_up() {
    let mut sessions = SessionRegistry::new();
    let first = sessions.install("a");
    let second = sessions.install("a");
    assert_ne!(first, second);
    assert!(!sessions.take("a", first));
    assert!(sessions.take("a", second));
    assert!(!sessions.take("a", second));
}

#[test]
fn errors_of_the_engine_are_told_apart() {
    let cases = vec![
        (EngineError::InstanceMissing("i".to_string()), Code::FailedPrecondition, "instance i not found"),
        (
            EngineError::WorkerMissing("i".to_string(), -2),
            Code::FailedPrecondition,
            "device -2 not found in instance i",
        ),
        (EngineError::InvalidArgument("x".to_string()), Code::InvalidArgument, "invalid argument: x"),
        (EngineError::DeviceInit("x".to_string()), Code::Internal, "failed to initialize device: x"),
        (EngineError::Storage("x".to_string()), Code::Internal, "storage error: x"),
        (EngineError::Poisoned("x"), Code::Internal, "internal lock poisoned: x"),
        (
            EngineError::TopologyMismatch("x".to_string()),
            Code::FailedPrecondition,
            "topology mismatch: x",
        ),
    ];
    for (error, code, message) in cases {
        let status = map_engine_error(error);
        assert_eq!((status.code, status.message.as_str()), (code, message));
    }
}

fn stored(engine: &mut PegaEngine, hash: u8, slots: usize) -> Arc<SealedBlock> {
    let mut parts = Vec::new();
    for _ in 0..slots {
        let a = Arc::new(engine.storage.allocate(512, None).unwrap());
        let ptr = a.as_ptr();
        let k = Segment::new(ptr, 300, Arc::clone(&a));
        let v = Segment::new(ptr + 300, 200, a);
        parts.push((RawBlock::two_segments(k, v), NumaNode(hash as u32)));
    }
    let block = Arc::new(SealedBlock::from_slots(parts, 0));
    let key = BlockKey::new("ns".to_string(), vec![hash]);
    engine.storage.read_cache.batch_insert(vec![(key, Arc::clone(&block))], &[]);
    block
}

#[test]
fn other_nodes_get_locked_blocks_and_where_they_lie() {
    let mut engine = engine();
    let block = stored(&mut engine, 1, 2);
    let (session, found) =
        engine.query_blocks_for_transfer("ns", &[vec![9], vec![1]], "node-b", 5);
    assert_eq!(found.len(), 1);
    let infos = transfer_blocks(&found);
    assert_eq!(infos[0].block_hash, vec![1]);
    assert_eq!(infos[0].slots.len(), 2);
    assert_eq!(infos[0].slots[1].k_ptr, block.slots()[1].segment_ptr(0).unwrap());
    assert_eq!((infos[0].slots[1].k_size, infos[0].slots[1].v_size), (300, 200));
    assert_eq!(infos[0].slots[0].numa_node, 1);
    assert_eq!(engine.storage.release_transfer_lock(&session), 1);
    assert_eq!(lock_timeout_secs(engine.storage.transfer_lock_timeout()), 120);
    assert!(require_transport(true).is_ok());
    assert_eq!(
        require_transport(false).unwrap_err().message,
        "RDMA transfer engine is not configured"
    );
}

#[test]
fn handshakes_need_a_transport() {
    let mut engine = engine();
    assert!(engine.has_rdma_transport());
    assert!(matches!(engine.rdma_accept_handshake("peer", &[]), Ok(AcceptStep::Reply(b)) if b.is_empty()));
    engine.rdma = None;
    assert!(!engine.has_rdma_transport());
    let fault = engine.rdma_accept_handshake("peer", &[1]).unwrap_err();
    assert_eq!(fault, HandshakeFault::NotConfigured);
    assert_eq!(fault.accept_message("peer", ""), "RDMA transport not configured");
}

#[test]
fn prefixes_are_counted_for_known_instances() {
    let mut engine = engine();
    assert!(engine.query_prefix("i", &[]).is_err());
    engine.get_or_create_instance("i", "ns", 1, 2, false).unwrap();
    stored(&mut engine, 1, 1);
    stored(&mut engine, 3, 1);
    let (blocks, missing) = engine.query_prefix("i", &[vec![1], vec![2], vec![3]]).unwrap();
    assert_eq!((blocks.len(), missing), (1, 2));
    assert_eq!(
        query_outcome(&PrefetchStatus::Ready { blocks, missing }),
        QueryOutcome::Ready { num_hit_blocks: 1, lease: true }
    );
    assert_eq!(query_outcome(&PrefetchStatus::Loading), QueryOutcome::Loading);
    assert_eq!(engine.check_query_lease("i", 1), Ok(2));
    assert!(engine.check_query_lease("i", 0).is_err());
    assert!(engine.check_query_lease("j", 1).is_err());
    assert_eq!(release_outcome(false).unwrap_err().message, "query lease is unknown or expired");
    assert_eq!(
        engine.check_load("i", 4, Ok(2), false),
        Err(EngineError::WorkerMissing("i".to_string(), 4))
    );
    assert_eq!(engine.check_load("i", 4, Ok(2), true), Ok(2));
}

#[test]
fn loads_move_every_leased_block_of_every_layer() {
    let mut engine = engine();
    let a = stored(&mut engine, 1, 2);
    let b = stored(&mut engine, 2, 2);
    let lease = |blocks: Vec<&Arc<SealedBlock>>, block_ids: Vec<usize>| LeasedBlocks {
        blocks: Ok(blocks.into_iter().map(Arc::clone).collect()),
        block_ids,
    };
    let at = |name: &str, slot_id: usize| LayerTarget {
        layer_name: name.to_string(),
        place: LayerLookup::At { slot_id, offset: 16 },
    };
    let leases = [lease(vec![&a], vec![7]), lease(vec![&b], vec![9])];
    let layers = plan_load("i", 0, 2, &leases, &[at("l0", 0), at("l1", 1)]).unwrap();
    assert_eq!(layers.len(), 2);
    assert_eq!(layers[1].layer_name, "l1");
    assert_eq!((layers[1].blocks[1].block_idx, layers[1].blocks[1].slot_id), (9, 1));
    assert!(Arc::ptr_eq(&layers[1].blocks[1].sealed, &b));
    assert_eq!(layers[1].blocks[1].offset, 16);
    assert!(plan_load("i", 0, 2, &[], &[at("l0", 0)]).unwrap().is_empty());

    let message = |leases: &[LeasedBlocks], targets: &[LayerTarget], slots: usize| {
        plan_load("i", 3, slots, leases, targets).unwrap_err().message()
    };
    assert_eq!(
        message(&[lease(vec![&a], vec![1, 2])], &[], 2),
        "invalid argument: query lease block count 1 does not match destination block count 2"
    );
    assert_eq!(
        message(&[lease(vec![&a], vec![1])], &[], 3),
        "invalid argument: stored block has 2 slots but instance i expects 3: namespace is shared by incompatible KV layouts"
    );
    let expired = LeasedBlocks { blocks: Err("lease expired".to_string()), block_ids: vec![1] };
    assert_eq!(message(&[expired], &[], 2), "storage error: lease expired");
    let good = [lease(vec![&a], vec![1])];
    assert_eq!(
        message(&good, &[at("l", 5)], 2),
        "invalid argument: stored block is missing slot 5 for layer l"
    );
    let absent =
        LayerTarget { layer_name: "l".to_string(), place: LayerLookup::Unregistered };
    assert_eq!(message(&good, &[absent], 2), "invalid argument: layer l not registered on device 3");
    let unknown = LayerTarget {
        layer_name: "l".to_string(),
        place: LayerLookup::Unknown(EngineError::InvalidArgument("no layer l".to_string())),
    };
    assert_eq!(message(&good, &[unknown], 2), "invalid argument: no layer l");
}

#[test]
fn saves_are_converted_layer_by_layer() {
    let layer = |ids: Vec<u32>, hashes: Vec<Vec<u8>>| SaveLayer {
        layer_name: "l".to_string(),
        block_ids: ids,
        block_hashes: hashes,
    };
    let saved = save_request(0, vec![layer(vec![4, 5], vec![vec![1], vec![2]])]).unwrap();
    assert_eq!(saved[0].block_ids, vec![4, 5]);
    assert_eq!(saved[0].block_hashes, vec![vec![1], vec![2]]);
    let err = save_request(0, vec![layer(vec![4], Vec::new())]).unwrap_err();
    assert_eq!(err.message, "block_ids length 1 does not match block_hashes 0 for layer l");
    assert_eq!(save_request(-1, Vec::new()).unwrap_err().message, "device_id -1 must be >= 0");
}

#[test]
fn pools_are_made_on_the_nodes_of_devices() {
    let gpu = [NumaNode(2)];
    let all = [NumaNode(0), NumaNode(2)];
    assert_eq!(pool_nodes(true, true, &gpu, &all), vec![NumaNode(2)]);
    assert_eq!(pool_nodes(true, true, &[], &all), all.to_vec());
    assert!(pool_nodes(false, true, &gpu, &all).is_empty());
    assert!(pool_nodes(true, false, &gpu, &all).is_empty());
}

#[test]
fn loads_need_a_device_and_leases() {
    let items = |faulty: bool| {
        vec![
            LoadItem { lease: Ok(7), block_ids: vec![1, 2] },
            LoadItem {
                lease: if faulty { Err("bad lease".to_string()) } else { Ok(8) },
                block_ids: vec![],
            },
        ]
    };
    assert_eq!(load_request(0, items(false)).unwrap(), vec![(7, vec![1, 2]), (8, vec![])]);
    let refused = load_request(0, items(true)).unwrap_err();
    assert_eq!((refused.code, refused.message.as_str()), (Code::InvalidArgument, "bad lease"));
    assert_eq!(load_request(-1, items(true)).unwrap_err().message, "device_id -1 must be >= 0");
}

#[test]
fn loads_are_checked_against_the_instance_first() {
    let mut engine = engine();
    let block = stored(&mut engine, 1, 2);
    let leases = [LeasedBlocks { blocks: Ok(vec![block]), block_ids: vec![4] }];
    let targets = [LayerTarget {
        layer_name: "l".to_string(),
        place: LayerLookup::At { slot_id: 1, offset: 0 },
    }];
    let load = |engine: &PegaEngine, slots, has_device| {
        engine.batch_load_kv_blocks_multi_layer("i", 0, slots, has_device, &leases, &targets)
    };
    assert!(load(&engine, Ok(2), true).unwrap_err().message().contains("i not found"));
    engine.get_or_create_instance("i", "ns", 1, 1, false).unwrap();
    assert!(matches!(load(&engine, Ok(2), false), Err(EngineError::WorkerMissing(_, 0))));
    let unsealed = Err(EngineError::InvalidArgument("not sealed".to_string()));
    assert_eq!(load(&engine, unsealed, true).unwrap_err().message(), "invalid argument: not sealed");
    let layers = load(&engine, Ok(2), true).unwrap();
    assert_eq!((layers.len(), layers[0].blocks[0].block_idx), (1, 4));
}

#[test]
fn the_engine_ends_sessions_and_cleans_up() {
    let mut engine = engine();
    stored(&mut engine, 1, 1);
    assert_eq!(engine.transfer_lock_timeout(), 120_000_000_000);
    assert_eq!(engine.pinned_memory_regions(), vec![(0x1000, 1 << 16)]);
    let (session, found) = engine.query_blocks_for_transfer("ns", &[vec![1]], "node", 0);
    let held = found.len();
    engine.storage.release_blocks(found);
    assert_eq!(engine.gc_expired_transfer_locks(1), 0);
    assert_eq!(engine.release_transfer_lock(&session), held);
    engine.cleanup_memory_cache();
    assert_eq!(engine.storage.read_cache.len(), 0);
}
