use pegaflow::block::{BlockKey, RawBlock, SealedBlock, Segment};
use pegaflow::hex::{decode_hex, encode_hex};
use pegaflow::issue23::experiment::{Issue23CausalExperiment, ObservedOperation};
use pegaflow::issue23::gate::{
    bundle_timing_event, completion_status, finish_post, post_bundle, posting_spread, rdma_result,
    run_cohort, scheduled_offset_ms, CohortGate, GatedBundle, PendingBundle, PostStep,
};
use pegaflow::issue23::identity::{operation_id, stable_request_id};
use pegaflow::issue23::layout::expected_hidden_layout;
use pegaflow::issue23::plan::{
    Issue23Backend, Issue23ExperimentConfig, Issue23OperationPlan, Issue23RequestPlan,
    Issue23Schedule, Issue23TransferPlan,
};
use pegaflow::numa::NumaNode;
use pegaflow::pinned_pool::{PinnedAllocator, PinnedBacking};
use pegaflow::storage::config::build_pool;
use pegaflow::transfer::types::TransferOutcome;
use std::sync::Arc;

fn operation(request: &str, hash: &str, index: usize) -> Issue23OperationPlan {
    Issue23OperationPlan {
        operation_id: format!("{request}|{hash}|0|k"),
        block_hash_hex: hash.into(),
        slot_index: 0,
        segment: "k".into(),
        source: "10.17.119.1:50055".into(),
        destination: "10.17.119.71:50055".into(),
        transfer_type: "load".into(),
        logical_payload_bytes: 64,
        qp_index: index % 2,
    }
}

fn valid_plan() -> Issue23TransferPlan {
    Issue23TransferPlan {
        schema_version: 1,
        protocol_id: "p".into(),
        block_id: "b".into(),
        qps_per_peer: 2,
        requests: (0..4)
            .map(|slot| {
                let request = format!("req-{slot}");
                Issue23RequestPlan {
                    request_id: request.clone(),
                    cohort_id: "c0".into(),
                    smooth_slot: slot,
                    operations: vec![operation(&request, &format!("{slot:02x}"), 0)],
                }
            })
            .collect(),
        freeze_provenance: None,
    }
}

fn experiment(plan: Option<Issue23TransferPlan>) -> Issue23CausalExperiment {
    Issue23CausalExperiment::new(
        Issue23ExperimentConfig {
            plan,
            backend: Issue23Backend::Rdma,
            schedule: Issue23Schedule::Smooth,
            trace_path: "trace.jsonl".to_string(),
        },
        1_000,
    )
    .unwrap()
}

fn observed(operation: &Issue23OperationPlan) -> ObservedOperation {
    ObservedOperation {
        operation_id: operation.operation_id.clone(),
        block_hash_hex: operation.block_hash_hex.clone(),
        slot_index: operation.slot_index,
        segment: operation.segment.clone(),
        source: operation.source.clone(),
        destination: operation.destination.clone(),
        transfer_type: operation.transfer_type.clone(),
        logical_payload_bytes: operation.logical_payload_bytes,
        qp_index: operation.qp_index,
        local_addr: 1,
        remote_addr: 2,
    }
}

#[test]
fn stable_request_identity_strips_only_frozen_vllm_affixes() {
    assert_eq!(
        stable_request_id("cmpl-issue23-measure-0007-0-a26e1651").unwrap(),
        "issue23-measure-0007"
    );
    assert!(stable_request_id("cmpl-issue23-measure-0007").is_err());
}

#[test]
fn plan_requires_one_of_each_smooth_slot() {
    let mut plan = valid_plan();
    assert!(plan.validate().is_ok());
    plan.requests[3].smooth_slot = 2;
    assert!(plan.validate().unwrap_err().contains("smooth slots"));
}

#[test]
fn hidden_layout_deduplicates_objects_across_requests() {
    let mut plan = valid_plan();
    plan.requests[1].operations[0].block_hash_hex = "00".into();
    plan.requests[1].operations[0].operation_id = "req-1|00|0|k".into();
    let layout = expected_hidden_layout(Some(&plan)).unwrap();
    assert_eq!(layout.len(), 3);
    assert_eq!(layout.iter().find(|(hash, _)| hash == &vec![0]), Some(&(vec![0], 64)));
}

#[test]
fn frozen_remote_prefix_uses_the_request_manifest_before_transfer() {
    let mut plan = valid_plan();
    plan.requests[0].operations.push(operation("req-0", "01", 1));
    let experiment = experiment(Some(plan));

    let requested = vec![vec![0], vec![1], vec![2]];
    assert_eq!(
        experiment.frozen_remote_prefix_len("cmpl-req-0-0-deadbeef", &requested, 3).unwrap(),
        2
    );
    assert!(experiment
        .frozen_remote_prefix_len("cmpl-req-0-0-deadbeef", &requested, 1)
        .unwrap_err()
        .contains("shorter than the frozen plan"));
    assert!(experiment
        .frozen_remote_prefix_len("cmpl-req-0-0-deadbeef", &[vec![0], vec![2], vec![1]], 3)
        .unwrap_err()
        .contains("hashes differ"));
}

#[test]
fn timing_event_size_is_independent_of_operation_identity_volume() {
    let mut plan = valid_plan().requests.remove(0);
    plan.operations =
        (0..2304).map(|index| operation("req-0", &format!("{index:064x}"), index)).collect();
    let event = bundle_timing_event("bundle_posted", "req-0", "raw-0", &plan, Some(10));
    assert_eq!(event.operation_count, 2304);
    assert_eq!(event.logical_payload_bytes, 2304 * 64);
    assert_eq!(event.scheduled_offset_ms, Some(10));
    let shown = format!("{event:?}");
    assert!(!shown.contains("operation_ids"));
    assert!(shown.len() < 512);
}

#[test]
fn trace_event_uses_the_captured_event_instant() {
    let experiment = experiment(None);
    let captured_at = 1_000 + 7_000_000;
    assert_eq!(experiment.monotonic_ns(captured_at), 7_000_000);
}

#[test]
fn frozen_restore_rejects_operation_manifest_drift() {
    let plan = valid_plan();
    let request_plan = plan.requests[0].clone();
    let experiment = experiment(Some(plan));
    let mut operations: Vec<ObservedOperation> =
        request_plan.operations.iter().map(observed).collect();
    assert!(experiment.capture_bundle("cmpl-req-0-0-deadbeef", &operations).is_ok());
    operations[0].logical_payload_bytes += 1;
    assert!(experiment
        .capture_bundle("cmpl-req-0-0-deadbeef", &operations)
        .unwrap_err()
        .contains("manifest drift"));
}

#[test]
fn operations_are_named_by_request_hash_slot_and_segment() {
    assert_eq!(operation_id("req-1", &[0xab, 0x01], 12, "v"), "req-1|ab01|12|v");
    assert_eq!(decode_hex(&encode_hex(&[0, 9, 10, 255])).unwrap(), vec![0, 9, 10, 255]);
    assert!(decode_hex("0").is_err());
    assert!(decode_hex("zz").is_err());
}

#[test]
fn smooth_cohorts_are_spread_and_bursts_are_not() {
    let offsets: Vec<u64> =
        (0..4).map(|slot| scheduled_offset_ms(Issue23Schedule::Smooth, slot)).collect();
    assert!(offsets.windows(2).all(|pair| pair[0] < pair[1]));
    for slot in 0..4 {
        assert_eq!(scheduled_offset_ms(Issue23Schedule::Burst, slot), scheduled_offset_ms(Issue23Schedule::Burst, 0));
    }
}

fn bundle(slot: usize, ticket: u64) -> GatedBundle {
    GatedBundle {
        stable_request_id: format!("req-{slot}"),
        raw_request_id: format!("raw-{slot}"),
        cohort_id: "c0".to_string(),
        smooth_slot: slot,
        eligible_at: 100 + ticket,
        operations: Vec::new(),
        ticket,
    }
}

#[test]
fn the_fourth_bundle_releases_its_cohort() {
    let mut waiting = CohortGate::new();
    for (ticket, slot) in [2, 0, 3].into_iter().enumerate() {
        assert!(waiting.gate_bundle(bundle(slot, ticket as u64)).unwrap().is_none());
    }
    assert!(waiting.gate_bundle(bundle(0, 9)).is_err());
    let cohort = waiting.gate_bundle(bundle(1, 3)).unwrap().expect("complete");
    assert_eq!(cohort.len(), 4);
    let releases = run_cohort(Issue23Schedule::Smooth, &cohort);
    let order: Vec<usize> = releases.iter().map(|r| cohort[r.member].smooth_slot).collect();
    assert_eq!(order, vec![0, 1, 2, 3]);
}

#[test]
fn bursts_have_to_be_posted_close_together() {
    let tight = posting_spread(&[Some(1_000), Some(1_500), Some(1_200), Some(1_001)]).unwrap();
    assert_eq!(tight.spread_ns, 500);
    assert!(tight.pass);
    let wide = posting_spread(&[Some(0), Some(60_000_000_000), Some(0), Some(0)]).unwrap();
    assert!(!wide.pass);
}

#[test]
fn transfers_report_bytes_or_the_first_failure() {
    let ok = [TransferOutcome::Completed(5), TransferOutcome::Completed(7)];
    assert_eq!(rdma_result(&ok), Ok(12));
    let bad = [
        TransferOutcome::Completed(5),
        TransferOutcome::Failed("cq".to_string()),
        TransferOutcome::Closed,
    ];
    assert_eq!(rdma_result(&bad).unwrap_err(), "RDMA transfer failed: cq");
    assert_eq!(rdma_result(&[TransferOutcome::Closed]).unwrap_err(), "RDMA transfer channel closed");
    assert_eq!(completion_status(&Ok(12)).1, 12);
    let pending =
        PendingBundle { eligible_at: 10, posted_at: 30, submit_ns: 5, trace_error: None };
    assert!(finish_post(&pending, &Ok(12), 100, &Ok(())).is_ok());
    assert!(finish_post(&pending, &Err("x".to_string()), 100, &Ok(())).is_err());
    assert!(matches!(post_bundle(Issue23Backend::Rdma, false, &Vec::new()), PostStep::Fail(_)));
}

#[test]
fn hidden_blocks_have_to_be_all_there_and_of_the_right_size() {
    let mut pool = PinnedAllocator::Global(build_pool(
        &vec![PinnedBacking { host: 0x1000, device: 0x9000, size: 1 << 16 }],
        None,
    ));
    let mut block = |hash: u8, size: u64| {
        let a = Arc::new(pool.allocate(size, NumaNode::unknown()).unwrap());
        let ptr = a.as_ptr();
        let raw = RawBlock::single_segment(Segment::new(ptr, size as usize, a));
        (
            BlockKey::new("ns".to_string(), vec![hash]),
            Arc::new(SealedBlock::from_slots(vec![(raw, NumaNode(0))], 0)),
        )
    };
    let mut all = vec![block(0, 64), block(1, 64), block(2, 64)];
    let mut experiment = experiment(Some(valid_plan()));
    assert!(experiment.stage_hidden_blocks(&all).is_err() || experiment.staged_hidden().is_err());
    all.push(block(3, 64));
    let mut experiment = self::experiment(Some(valid_plan()));
    experiment.stage_hidden_blocks(&all).unwrap();
    let stats = experiment.activate_staged_hidden().unwrap();
    assert_eq!((stats.hidden_blocks, stats.hidden_bytes), (4, 256));
    assert!(experiment.is_active());
    let source = experiment.local_source("02", 0, "k", 64).unwrap();
    assert_eq!(source, all[2].1.slots()[0].segment_ptr(0).unwrap());
    assert!(experiment.local_source("02", 0, "v", 64).is_err());
    assert!(experiment.local_source("02", 0, "k", 65).is_err());
}

#[test]
fn planned_requests_wait_for_their_cohort() {
    let plan = valid_plan();
    let experiment = experiment(Some(plan.clone()));
    let mut waiting = CohortGate::new();
    for (slot, request) in plan.requests.iter().enumerate() {
        let operations: Vec<ObservedOperation> = request.operations.iter().map(observed).collect();
        let id = &request.request_id;
        let refused = waiting.gate_request(&experiment, "raw", id, Vec::new(), 5, 0);
        assert!(refused.unwrap_err().contains("transfer manifest drift"));
        let released =
            waiting.gate_request(&experiment, "raw", id, operations, slot as u64, 0).unwrap();
        assert_eq!(released.is_some(), slot == 3);
        if let Some(cohort) = released {
            let releases = run_cohort(Issue23Schedule::Burst, &cohort);
            assert!(releases.iter().all(|r| r.release_at == 3 + 15_000_000));
        }
    }
    let unknown = waiting.gate_request(&experiment, "raw", "x", Vec::new(), 5, 0).unwrap_err();
    assert_eq!(unknown, "request x is absent from the frozen transfer plan");
}

#[test]
fn without_a_plan_no_request_is_planned() {
    let experiment = experiment(None);
    let absent = "request y is absent from the frozen transfer plan";
    assert_eq!(experiment.request_plan("y", &[]).unwrap_err(), absent);
    let mut waiting = CohortGate::new();
    let refused = waiting.gate_request(&experiment, "raw", "y", Vec::new(), 5, 0);
    assert_eq!(refused.unwrap_err(), absent);
}
