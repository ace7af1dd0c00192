use pegaflow::numa::NumaNode;
use pegaflow::transfer::accept::{connect_step, read_reply, AcceptStep, HandshakeFault};
use pegaflow::transfer::batch::RdmaOp;
use pegaflow::transfer::engine::{
    count_queue_pairs, validate_config, CompleteStep, ConnectionStatus, MrKeys, PrepareStep, TransferEngine,
};
use pegaflow::transfer::handshake::{
    HandshakeMetadata, NicHandshake, RcEndpoint, RegisteredMemoryRegion, TransferError,
};
use pegaflow::transfer::metrics::{
    record_batch_complete, record_completion, record_dequeue, record_enqueue,
    record_enqueue_failure, record_post, result_attributes, transfer_instruments, InstrumentKind,
};
use pegaflow::transfer::nics::NumaRoundRobin;
use pegaflow::transfer::session::{
    batch_shape, connect, local_endpoint, nic_outcomes, submit_prepared_batch, BatchRun, BatchShape,
    LinkLayer, SessionStep, Submission,
};
use pegaflow::transfer::state::PerNicState;
use pegaflow::transfer::types::{MemoryRegion, TransferDesc, TransferOp, TransferOutcome};

fn endpoint(qp_num: u32) -> RcEndpoint {
    RcEndpoint { gid: [qp_num as u8; 16], lid: 1, qp_num, psn: qp_num * 3 }
}

#[test]
fn handshake_metadata_roundtrip() {
    let meta = HandshakeMetadata {
        nics: vec![NicHandshake {
            endpoints: vec![RcEndpoint { gid: [7u8; 16], lid: 0, qp_num: 200, psn: 0x1111 }],
            memory_regions: vec![RegisteredMemoryRegion { base_ptr: 0x1000, len: 0x2000, rkey: 42 }],
        }],
    };
    let bytes = meta.to_bytes();
    let decoded = HandshakeMetadata::from_bytes(&bytes).expect("decode");
    assert_eq!(decoded.nics.len(), 1);
    assert_eq!(decoded.nics[0].endpoints, meta.nics[0].endpoints);
    assert_eq!(decoded.nics[0].memory_regions, meta.nics[0].memory_regions);
}

#[test]
fn handshake_metadata_multi_nic_multi_qp_roundtrip() {
    let nic = |gid: u8, first: u32, psn: u32, rkey: u32| NicHandshake {
        endpoints: vec![
            RcEndpoint { gid: [gid; 16], lid: 0, qp_num: first, psn },
            RcEndpoint { gid: [gid; 16], lid: 0, qp_num: first + 1, psn: psn + 1 },
        ],
        memory_regions: vec![RegisteredMemoryRegion { base_ptr: 0x1000, len: 0x2000, rkey }],
    };
    let meta = HandshakeMetadata { nics: vec![nic(1, 100, 0x1000, 10), nic(2, 200, 0x2000, 20)] };
    let bytes = meta.to_bytes();
    let decoded = HandshakeMetadata::from_bytes(&bytes).expect("decode");
    assert_eq!(decoded.nics.len(), 2);
    assert_eq!(decoded.nics[0].endpoints.len(), 2);
    assert_eq!(decoded.nics[0].endpoints[0].qp_num, 100);
    assert_eq!(decoded.nics[0].endpoints[1].qp_num, 101);
    assert_eq!(decoded.nics[1].endpoints[0].qp_num, 200);
    assert_eq!(decoded.nics[1].endpoints[1].qp_num, 201);
}

#[test]
fn handshake_metadata_is_written_field_by_field() {
    let meta = HandshakeMetadata {
        nics: vec![NicHandshake {
            endpoints: vec![RcEndpoint { gid: [7u8; 16], lid: 0, qp_num: 200, psn: 0x1111 }],
            memory_regions: vec![RegisteredMemoryRegion { base_ptr: 0x1000, len: 0x2000, rkey: 42 }],
        }],
    };
    let mut expected = vec![1, 1];
    expected.extend([7u8; 16]);
    expected.extend([0, 200, 251, 0x11, 0x11]);
    expected.extend([1, 251, 0x00, 0x10, 251, 0x00, 0x20, 42]);
    assert_eq!(meta.to_bytes(), expected);
}

#[test]
fn handshake_metadata_rejects_garbage() {
    assert!(HandshakeMetadata::from_bytes(&[1, 2, 3]).is_err());
}

#[test]
fn bytes_behind_the_metadata_are_refused() {
    let mut bytes = HandshakeMetadata { nics: Vec::new() }.to_bytes();
    bytes.push(0);
    assert_eq!(
        HandshakeMetadata::from_bytes(&bytes).unwrap_err(),
        TransferError::InvalidArgument("trailing bytes in handshake metadata")
    );
}

#[test]
fn result_labels_keep_operation_and_status_distinct() {
    let cases = [
        (TransferOp::Read, true, "read", "ok"),
        (TransferOp::Read, false, "read", "error"),
        (TransferOp::Write, true, "write", "ok"),
        (TransferOp::Write, false, "write", "error"),
    ];
    for (op, succeeded, expected_op, expected_status) in cases {
        let attributes = result_attributes(op, succeeded);
        assert_eq!(attributes[0], ("op", expected_op));
        assert_eq!(attributes[1], ("status", expected_status));
    }
}

#[test]
fn instrument_names_do_not_preapply_prometheus_unit_or_counter_suffixes() {
    let instruments = transfer_instruments();
    let named = |kind: InstrumentKind, name: &str| {
        instruments.iter().any(|i| i.kind == kind && i.name == name)
    };
    for forbidden in [
        "pegaflow_rdma_batches_enqueued_total",
        "pegaflow_rdma_batches_dequeued_total",
        "pegaflow_rdma_batch_enqueue_failures_total",
        "pegaflow_rdma_batches_completed_total",
        "pegaflow_rdma_descriptors_posted_total",
        "pegaflow_rdma_bytes_posted_total",
        "pegaflow_rdma_descriptors_completed_total",
        "pegaflow_rdma_bytes_completed_total",
    ] {
        assert!(!named(InstrumentKind::Counter, forbidden));
        assert!(named(InstrumentKind::Counter, forbidden.strip_suffix("_total").unwrap()));
    }
    for forbidden in [
        "pegaflow_rdma_queue_delay_seconds",
        "pegaflow_rdma_service_duration_seconds",
        "pegaflow_rdma_cq_completion_delay_seconds",
    ] {
        assert!(!named(InstrumentKind::Histogram, forbidden));
        assert!(named(InstrumentKind::Histogram, forbidden.strip_suffix("_seconds").unwrap()));
    }
    assert_eq!(instruments.len(), 13);
}

#[test]
fn gauges_follow_the_life_of_a_batch() {
    let life = [record_enqueue(), record_dequeue(), record_batch_complete()];
    assert_eq!(life.iter().map(|d| d.queued).sum::<i64>(), 0);
    assert_eq!(life.iter().map(|d| d.active).sum::<i64>(), 0);
    let lost = [record_enqueue(), record_enqueue_failure()];
    assert_eq!(lost.iter().map(|d| d.queued).sum::<i64>(), 0);
    assert_eq!(record_post(3, 70).bytes_posted, 70);
    assert_eq!(record_completion(9).descriptors_completed, 1);
}

#[test]
fn batch_shape_counts_descriptors_and_bytes_without_overflow() {
    assert_eq!(
        batch_shape(&[4096, 8192, 16_384]),
        BatchShape { descriptors: 3, bytes: 28_672 }
    );
    assert_eq!(
        batch_shape(&[usize::MAX, 1]),
        BatchShape { descriptors: 2, bytes: usize::MAX }
    );
}

#[test]
fn cache_remote_memory_rejects_overlapping_regions() {
    let mut nic = PerNicState::new();
    let regions = vec![
        RegisteredMemoryRegion { base_ptr: 0x1000, len: 0x200, rkey: 1 },
        RegisteredMemoryRegion { base_ptr: 0x1100, len: 0x100, rkey: 2 },
    ];

    let error = nic.cache_remote_memory(1, &regions).expect_err("overlap should fail");
    assert_eq!(
        error,
        TransferError::Backend("handshake response contains overlapping memory regions".to_string())
    );
}

#[test]
fn find_remote_rkey_uses_sorted_snapshot() {
    let mut nic = PerNicState::new();
    let remote_qpn = 42;
    let regions = vec![
        RegisteredMemoryRegion { base_ptr: 0x3000, len: 0x100, rkey: 3 },
        RegisteredMemoryRegion { base_ptr: 0x1000, len: 0x100, rkey: 1 },
        RegisteredMemoryRegion { base_ptr: 0x2000, len: 0x100, rkey: 2 },
    ];
    nic.cache_remote_memory(remote_qpn, &regions).expect("snapshot cache");

    let hit = nic.find_remote_rkey(remote_qpn, 0x2080, 0x10);
    assert_eq!(hit, Some(2));

    let miss = nic.find_remote_rkey(remote_qpn, 0x2500, 0x10);
    assert!(miss.is_none());
}

#[test]
fn queue_pair_count_includes_every_session_in_one_nic() {
    assert_eq!(count_queue_pairs(&[2, 2, 2]), 6);
    assert_eq!(count_queue_pairs(&[4, 4]), 8);
}

#[test]
fn queue_pair_count_includes_every_session_across_nics() {
    assert_eq!(count_queue_pairs(&[2, 2]), 4);
    assert_eq!(count_queue_pairs(&[4, 4, 4, 4]), 16);
}

fn keys(nics: usize, first: u32) -> Vec<MrKeys> {
    (0..nics as u32).map(|k| MrKeys { lkey: first + k, rkey: 100 + first + k }).collect()
}

fn remote_nic(qpns: &[u32], rkey: u32) -> NicHandshake {
    NicHandshake {
        endpoints: qpns.iter().map(|q| endpoint(*q)).collect(),
        memory_regions: vec![RegisteredMemoryRegion { base_ptr: 0x8000, len: 0x1000, rkey }],
    }
}

fn connected(nodes: &[NumaNode], qps: usize, addr: &str) -> TransferEngine {
    let mut engine = TransferEngine::new(nodes, qps);
    let region = MemoryRegion { ptr: 0x1000, len: 0x1000 };
    engine.register_memory(&[region], vec![keys(nodes.len(), 7)]).unwrap();
    connect_peer(&mut engine, nodes.len(), qps, addr, 0);
    engine
}

fn connect_peer(engine: &mut TransferEngine, nics: usize, qps: usize, addr: &str, base: u32) {
    assert_eq!(engine.get_or_prepare(addr), PrepareStep::Prepare);
    assert_eq!(engine.get_or_prepare(addr), PrepareStep::AlreadyConnecting);
    let local: Vec<Vec<RcEndpoint>> = (0..nics)
        .map(|n| (0..qps).map(|q| endpoint(base + (n * 10 + q) as u32 + 1)).collect())
        .collect();
    let meta = match engine.connection_status(PrepareStep::Prepare, local) {
        ConnectionStatus::Prepared(meta) => meta,
        other => panic!("{other:?}"),
    };
    let remote: Vec<NicHandshake> = (0..nics)
        .map(|n| {
            let qpns: Vec<u32> =
                (0..qps).map(|q| base + 500 + (n * 10 + q) as u32).collect();
            remote_nic(&qpns, 900 + n as u32)
        })
        .collect();
    match engine.complete_handshake(addr, &meta.nics, &remote).unwrap() {
        CompleteStep::Connect(pairs) => assert_eq!(pairs.len(), nics * qps),
        other => panic!("{other:?}"),
    }
    engine.establish_connection(addr, meta.nics, &remote).unwrap();
    assert_eq!(engine.get_or_prepare(addr), PrepareStep::Existing);
}

#[test]
fn connection_count_uses_established_remote_addresses() {
    let nodes = [NumaNode(0), NumaNode(0)];
    let mut engine = TransferEngine::new(&nodes, 2);
    for (i, address) in ["10.0.0.1:1234", "10.0.0.2:1234"].into_iter().enumerate() {
        connect_peer(&mut engine, 2, 2, address, 1000 * i as u32);
    }

    assert_eq!(engine.num_connections(), 2);
    assert_eq!(engine.num_qps(), 8);
    engine.invalidate_connection("10.0.0.1:1234");
    assert_eq!(engine.num_connections(), 1);
    assert_eq!(engine.num_qps(), 4);
    assert!(engine.local_meta_for("10.0.0.1:1234").is_none());
    assert!(engine.local_meta_for("10.0.0.2:1234").is_some());
}

fn desc(local_ptr: u64, remote_ptr: u64, len: usize) -> TransferDesc {
    TransferDesc { local_ptr, remote_ptr, len }
}

#[test]
fn batches_are_spread_over_queue_pairs_with_their_keys() {
    let mut engine = connected(&[NumaNode(0)], 2, "peer");
    assert!(engine.is_ready("peer"));
    let descs: Vec<TransferDesc> =
        (0..3).map(|i| desc(0x1000 + i * 16, 0x8000 + i * 16, 16)).collect();
    let batch =
        engine.prepare_batch_transfer(TransferOp::Read, "peer", &descs, &[], None).unwrap();
    assert_eq!(batch.descriptor_count, 3);
    assert_eq!(batch.work.len(), 2);
    assert_eq!(batch.work[0].ops.len(), 2);
    assert_eq!(
        batch.work[0].ops[1],
        RdmaOp {
            local_lkey: 7,
            local_ptr: 0x1020,
            remote_ptr: 0x8020,
            len: 16,
            remote_rkey: 900
        }
    );
    let next =
        engine.prepare_batch_transfer(TransferOp::Read, "peer", &descs[..1], &[], None).unwrap();
    assert_eq!(next.work[0].qp_num, batch.work[1].qp_num);
    let fixed =
        engine.prepare_batch_transfer(TransferOp::Read, "peer", &descs[..1], &[], Some(0)).unwrap();
    assert_eq!(fixed.work[0].qp_num, batch.work[0].qp_num);

    let taken = submit_prepared_batch(&batch, &[true, false]);
    assert_eq!(taken[0], Submission::Queued(BatchShape { descriptors: 2, bytes: 32 }));
    assert_eq!(
        taken[1],
        Submission::Refused(TransferError::Backend("session worker channel disconnected".to_string()))
    );
}

#[test]
fn transfers_that_cannot_be_made_are_refused() {
    let mut engine = connected(&[NumaNode(0)], 1, "peer");
    let mut prepare = |addr: &str, d: TransferDesc| {
        engine.prepare_batch_transfer(TransferOp::Write, addr, &[d], &[], None).unwrap_err()
    };
    assert_eq!(
        prepare("nobody", desc(0x1000, 0x8000, 1)),
        TransferError::Backend("no connection for remote addr nobody".to_string())
    );
    assert_eq!(
        prepare("peer", desc(0x1000, 0x8000, 0)),
        TransferError::InvalidArgument("len must be non-zero")
    );
    assert_eq!(
        prepare("peer", desc(0x1ff0, 0x8000, 17)),
        TransferError::MemoryNotRegistered { ptr: 0x1ff0 }
    );
    assert_eq!(
        prepare("peer", desc(0x1000, 0x8ff0, 17)),
        TransferError::InvalidArgument("remote memory not found in handshake snapshot")
    );
    let none = engine.prepare_batch_transfer(TransferOp::Read, "nobody", &[], &[], None).unwrap();
    assert_eq!(none.work.len(), 0);
}

#[test]
fn transfers_go_to_a_nic_on_their_node() {
    let nodes = [NumaNode(0), NumaNode(1)];
    let mut engine = connected(&nodes, 1, "peer");
    let descs = [desc(0x1000, 0x8000, 8), desc(0x1008, 0x8008, 8), desc(0x1010, 0x8010, 8)];
    let on = [NumaNode(1), NumaNode(1), NumaNode(0)];
    let batch = engine.prepare_batch_transfer(TransferOp::Read, "peer", &descs, &on, None).unwrap();
    assert_eq!(batch.work.len(), 2);
    assert_eq!((batch.work[0].nic, batch.work[0].ops.len()), (0, 1));
    assert_eq!((batch.work[1].nic, batch.work[1].ops.len()), (1, 2));
    assert_eq!(batch.work[1].ops[0].local_lkey, 8);
    assert_eq!(batch.work[1].ops[0].remote_rkey, 901);
}

#[test]
fn outcomes_are_reported_for_each_nic() {
    let mut engine = connected(&[NumaNode(0), NumaNode(0)], 2, "peer");
    let descs: Vec<TransferDesc> =
        (0..8).map(|i| desc(0x1000 + i * 16, 0x8000 + i * 16, 16)).collect();
    let batch =
        engine.prepare_batch_transfer(TransferOp::Read, "peer", &descs, &[], None).unwrap();
    assert_eq!(batch.work.len(), 4);
    let per_nic = nic_outcomes(
        &batch,
        vec![
            TransferOutcome::Completed(32),
            TransferOutcome::Completed(32),
            TransferOutcome::Completed(32),
            TransferOutcome::Failed("x".to_string()),
        ],
    );
    assert_eq!(per_nic.len(), 2);
    assert_eq!(per_nic[0].0, 0);
    assert!(matches!(per_nic[0].1, TransferOutcome::Completed(64)));
    assert!(matches!(&per_nic[1].1, TransferOutcome::Failed(m) if m == "x"));

    let per_nic = nic_outcomes(
        &batch,
        vec![
            TransferOutcome::Completed(usize::MAX),
            TransferOutcome::Completed(1),
            TransferOutcome::Closed,
            TransferOutcome::Failed("y".to_string()),
        ],
    );
    assert!(matches!(per_nic[0], (0, TransferOutcome::Completed(usize::MAX))));
    assert!(matches!(per_nic[1], (1, TransferOutcome::Closed)));
}

#[test]
fn transfers_are_spread_evenly_over_queue_pairs() {
    let mut engine = connected(&[NumaNode(0)], 3, "peer");
    for rotation in 0..5 {
        for count in 1..11u64 {
            let descs: Vec<TransferDesc> =
                (0..count).map(|i| desc(0x1000 + i * 16, 0x8000 + i * 16, 16)).collect();
            let batch = engine
                .prepare_batch_transfer(TransferOp::Read, "peer", &descs, &[], Some(rotation))
                .unwrap();
            assert_eq!(batch.work.len() as u64, count.min(3));
            for work in &batch.work {
                let n = work.ops.len() as u64;
                assert!(count / 3 <= n && n <= (count + 2) / 3);
            }
        }
    }
}

#[test]
fn a_batch_is_posted_in_chains_and_counts_every_byte() {
    let ops: Vec<RdmaOp> = (0..6)
        .map(|i| RdmaOp {
            local_lkey: 1,
            local_ptr: i,
            remote_ptr: 100 + i,
            len: 10 + i as usize,
            remote_rkey: 2,
        })
        .collect();
    let mut run = BatchRun::new(77, TransferOp::Read, ops);
    let mut posted = Vec::new();
    loop {
        match run.next_step() {
            SessionStep::Post { from, to } => {
                let chain = run.work_requests(from, to).unwrap();
                assert!(chain.len() <= 4);
                posted.extend(chain.iter().map(|w| w.wr_id));
                run.posted(to);
            }
            SessionStep::Poll => {
                let id = posted.pop().unwrap();
                assert_eq!(run.completed(9999, 5, 0, 0), Ok(false));
                assert_eq!(run.completed(id, 0, 1, 0), Ok(true));
            }
            SessionStep::Done(bytes) => {
                assert_eq!(bytes, 10 + 11 + 12 + 13 + 14 + 15);
                break;
            }
        }
    }
}

#[test]
fn a_failed_work_request_ends_its_batch() {
    let op = RdmaOp { local_lkey: 1, local_ptr: 0, remote_ptr: 0, len: 5, remote_rkey: 2 };
    let mut run = BatchRun::new(77, TransferOp::Write, vec![op]);
    run.posted(1);
    assert_eq!(
        run.completed(1, 12, 3, 129).unwrap_err(),
        TransferError::Backend(
            "send completion failed: local_qpn=77, status=12, opcode=3, vendor_err=129".to_string()
        )
    );
    assert_eq!(
        run.poll_failed("broken"),
        TransferError::Backend("poll send CQ failed: local_qpn=77, broken".to_string())
    );
    let large = RdmaOp { len: u32::MAX as usize + 1, ..op };
    let run = BatchRun::new(77, TransferOp::Write, vec![large]);
    assert_eq!(
        run.work_requests(0, 1).unwrap_err(),
        TransferError::InvalidArgument("len exceeds RDMA SGE length limit")
    );
}

#[test]
fn queue_pairs_are_connected_by_link_layer() {
    let local = local_endpoint([1; 16], 3, 10, 0x1_0200_0005);
    assert_eq!(local.psn, 5);
    let remote = RcEndpoint { gid: [9; 16], lid: 4, qp_num: 20, psn: 6 };
    let a = connect(LinkLayer::InfiniBand, 1, 2, &local, &remote).unwrap();
    assert_eq!((a.address.dest_lid, a.address.service_level), (4, Some(0)));
    assert!(a.address.global.is_none());
    assert_eq!((a.dest_qp_num, a.rq_psn, a.sq_psn), (20, 6, 5));
    let b = connect(LinkLayer::Ethernet, 1, 2, &local, &remote).unwrap();
    assert_eq!(b.address.dest_lid, 0);
    assert_eq!(b.address.global.unwrap().dest_gid, [9; 16]);
    assert_eq!(b.address.global.unwrap().hop_limit, 64);
    let no_lid = RcEndpoint { lid: 0, ..remote };
    assert_eq!(
        connect(LinkLayer::InfiniBand, 1, 2, &local, &no_lid).unwrap_err(),
        TransferError::InvalidArgument("remote LID is zero for InfiniBand connection")
    );
    assert_eq!(
        connect(LinkLayer::Unspecified, 1, 2, &local, &remote).unwrap_err(),
        TransferError::Backend(
            "unsupported link layer for RC connection: Unspecified".to_string()
        )
    );
}

#[test]
fn handshakes_are_accepted_and_reused() {
    let mut engine = connected(&[NumaNode(0)], 1, "peer");
    match engine.accept_handshake("peer", &[]).unwrap() {
        AcceptStep::Reply(bytes) => {
            let meta = HandshakeMetadata::from_bytes(&bytes).unwrap();
            assert_eq!(meta.nics[0].endpoints[0].qp_num, 1);
            assert_eq!(meta.nics[0].memory_regions[0].rkey, 107);
        }
        other => panic!("{other:?}"),
    }
    assert!(matches!(engine.accept_handshake("stranger", &[]), Ok(AcceptStep::Reply(b)) if b.is_empty()));
    let fault = engine.accept_handshake("peer", &[1, 2, 3]).unwrap_err();
    assert!(matches!(fault, HandshakeFault::InvalidMetadata(_)));
    assert_eq!(
        fault.accept_message("peer", "cause"),
        "invalid client handshake metadata: cause"
    );
    let client = HandshakeMetadata { nics: vec![remote_nic(&[77], 5)] };
    match engine.accept_handshake("peer", &client.to_bytes()).unwrap() {
        AcceptStep::Prepare(meta) => assert_eq!(meta.nics[0].endpoints[0].qp_num, 77),
        other => panic!("{other:?}"),
    }
    assert_eq!(engine.num_connections(), 0);
    let again = engine.accept_handshake("peer", &client.to_bytes()).unwrap_err();
    assert_eq!(again.accept_message("peer", ""), "handshake to peer already in progress");
}

#[test]
fn a_handshake_that_does_not_fit_is_given_up() {
    let mut engine = TransferEngine::new(&[NumaNode(0)], 1);
    assert_eq!(connect_step(engine.get_or_prepare("peer")), Ok(true));
    assert_eq!(
        connect_step(engine.get_or_prepare("peer")).unwrap_err().connect_message(""),
        "handshake to this peer already in progress"
    );
    let local = engine.prepare_handshake(vec![vec![endpoint(1)]]);
    let remote = HandshakeMetadata { nics: Vec::new() };
    assert!(engine.complete_or_abort("peer", &local, &remote).is_err());
    assert_eq!(connect_step(engine.get_or_prepare("peer")), Ok(true));
    assert_eq!(
        read_reply(&[]).unwrap_err().connect_message(""),
        "server returned empty handshake_metadata"
    );
    assert!(matches!(read_reply(&[1, 2, 3]), Err(HandshakeFault::InvalidMetadata(_))));
}

#[test]
fn names_of_nics_are_checked() {
    assert!(validate_config(&["mlx5_0".to_string(), "mlx5_1".to_string()], 2).is_ok());
    assert!(validate_config(&[], 2).is_err());
    assert!(validate_config(&["mlx5_0".to_string()], 0).is_err());
}

#[test]
fn memory_is_registered_once_and_found_by_range() {
    let mut engine = TransferEngine::new(&[NumaNode(0)], 1);
    let regions = [
        MemoryRegion { ptr: 0x1000, len: 0x100 },
        MemoryRegion { ptr: 0x3000, len: 0 },
        MemoryRegion { ptr: 0x4000, len: 1 },
    ];
    assert_eq!(
        engine.register_memory(&regions, vec![keys(1, 7), keys(1, 8), keys(1, 9)]).unwrap_err(),
        TransferError::InvalidArgument("len must be non-zero")
    );
    assert_eq!(engine.find_local_mr(0, 0x10f0, 0x10).unwrap().lkey, 7);
    assert!(engine.find_local_mr(0, 0x10f0, 0x11).is_none());
    assert!(engine.find_local_mr(0, 0x4000, 1).is_none());
    assert_eq!(engine.snapshot_registered_memory(0).len(), 1);
    assert_eq!(
        engine.unregister_memory(&[0x1000, 0x2000]).unwrap_err(),
        TransferError::MemoryNotRegistered { ptr: 0x2000 }
    );
    assert!(engine.find_local_mr(0, 0x1000, 1).is_none());
}

#[test]
fn nics_of_one_node_take_turns() {
    let mut turns = NumaRoundRobin::from_nodes(&[NumaNode(0), NumaNode(0), NumaNode(0)]);
    let order: Vec<usize> = (0..4).map(|_| turns.fallback.next()).collect();
    assert_eq!(order, vec![0, 1, 2, 0]);
    assert!(turns.single_numa);
    assert!(!NumaRoundRobin::from_nodes(&[NumaNode(0), NumaNode(1)]).single_numa);
}

#[test]
fn a_failed_handshake_does_not_stop_the_next() {
    let mut engine = connected(&[NumaNode(0)], 1, "other");
    let client = |regions: usize| HandshakeMetadata {
        nics: vec![NicHandshake {
            endpoints: vec![endpoint(77)],
            memory_regions: vec![
                RegisteredMemoryRegion { base_ptr: 0x8000, len: 0x1000, rkey: 5 };
                regions
            ],
        }],
    };
    let begin = |engine: &mut TransferEngine, client: &HandshakeMetadata, qpn: u32| {
        let step = engine.accept_handshake("peer", &client.to_bytes()).unwrap();
        assert!(matches!(step, AcceptStep::Prepare(_)));
        engine.prepare_handshake(vec![vec![endpoint(qpn)]])
    };

    let local = begin(&mut engine, &client(1), 30);
    let none = HandshakeMetadata { nics: Vec::new() };
    assert!(engine.complete_or_abort("peer", &local, &none).is_err());

    let local = begin(&mut engine, &client(2), 31);
    assert!(engine.complete_or_abort("peer", &local, &client(2)).is_ok());
    let fault = engine.establish_or_abort("peer", local, &client(2)).unwrap_err();
    assert!(matches!(fault, HandshakeFault::Refused(_)));

    let local = begin(&mut engine, &client(1), 32);
    let step = engine.complete_or_abort("peer", &local, &client(1)).unwrap();
    assert!(matches!(step, CompleteStep::Connect(pairs) if pairs.len() == 1));
    engine.establish_or_abort("peer", local, &client(1)).unwrap();
    assert_eq!(engine.num_connections(), 2);
    assert_eq!(engine.local_meta_for("peer").unwrap().nics[0].endpoints[0].qp_num, 32);

    let again = engine.accept_handshake("peer", &client(1).to_bytes()).unwrap();
    assert!(matches!(again, AcceptStep::Prepare(_)));
    assert_eq!(engine.num_connections(), 1);
    assert_eq!(engine.num_qps(), 1);
    assert!(engine.local_meta_for("other").is_some());
}

#[test]
fn queue_pairs_with_equal_numbers_are_connected_in_turn() {
    let mut engine = TransferEngine::new(&[NumaNode(0)], 2);
    let client = HandshakeMetadata {
        nics: vec![NicHandshake {
            endpoints: vec![endpoint(77), endpoint(78)],
            memory_regions: vec![RegisteredMemoryRegion { base_ptr: 0x8000, len: 16, rkey: 5 }],
        }],
    };
    let step = engine.accept_handshake("peer", &client.to_bytes()).unwrap();
    assert!(matches!(step, AcceptStep::Prepare(_)));
    let local = engine.prepare_handshake(vec![vec![endpoint(9), endpoint(9)]]);
    let step = engine.complete_or_abort("peer", &local, &client).unwrap();
    assert!(matches!(step, CompleteStep::Connect(pairs) if pairs.len() == 2));
}

#[test]
fn an_engine_groups_its_nics_by_node() {
    let nodes = [NumaNode(1), NumaNode(0), NumaNode(1), NumaNode::unknown()];
    let engine = TransferEngine::new(&nodes, 1);
    let groups: Vec<(NumaNode, Vec<usize>)> =
        engine.numa_rr.groups.iter().map(|(n, g)| (*n, g.nic_indices.clone())).collect();
    assert_eq!(groups, vec![(NumaNode(1), vec![0, 2]), (NumaNode(0), vec![1])]);
    assert_eq!(engine.numa_rr.fallback.nic_indices, vec![0, 1, 2, 3]);
    assert!(!engine.numa_rr.single_numa);
    assert!(engine.nics.iter().all(|n| n.remote_memory.is_empty()));
}
