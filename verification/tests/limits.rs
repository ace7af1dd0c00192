use pegaflow::rdma_fetch::segments::{TransferBlockInfo, TransferSlotInfo};
use pegaflow::rdma_fetch::task::{
    admit_read, bundle_bytes, end_read, fetch_step, located, Admission, DeniedReads, FetchEvent,
    FetchState, FetchStatus,
};
use pegaflow::tailguard::{
    remote_read_limits, AdmissionDenial, TailGuardRemoteReadConfig, TailGuardRemoteReadController,
};

const SECOND: u64 = 1_000_000_000;

fn controller() -> TailGuardRemoteReadController {
    TailGuardRemoteReadController::new(
        TailGuardRemoteReadConfig {
            bytes_per_second: 100,
            burst_bytes: 100,
            max_inflight_bytes: 100,
        },
        5 * SECOND,
    )
    .unwrap()
}

#[test]
fn permit_releases_inflight_bytes_but_not_spent_tokens() {
    let mut controller = controller();
    let now = 5 * SECOND;
    let first = controller.try_reserve_at(80, now).unwrap();
    assert_eq!(controller.try_reserve_at(30, now).err(), Some(AdmissionDenial::InflightLimit));
    controller.release(first);
    assert_eq!(controller.try_reserve_at(30, now).err(), Some(AdmissionDenial::RateLimit));
    let next = controller.try_reserve_at(30, now + SECOND).unwrap();
    controller.release(next);
    assert_eq!(controller.inflight_bytes(), 0);
}

#[test]
fn oversized_read_is_denied_without_reservation() {
    let mut controller = controller();
    assert_eq!(
        controller.try_reserve_at(101, 5 * SECOND).err(),
        Some(AdmissionDenial::BurstLimit)
    );
    assert_eq!(controller.inflight_bytes(), 0);
}

#[test]
fn invalid_config_is_rejected() {
    assert!(TailGuardRemoteReadController::new(
        TailGuardRemoteReadConfig {
            bytes_per_second: 0,
            burst_bytes: 100,
            max_inflight_bytes: 100,
        },
        0
    )
    .is_err());
}

#[test]
fn tokens_come_back_with_time_and_in_fractions() {
    let mut controller = controller();
    let first = controller.try_reserve_at(100, 5 * SECOND).unwrap();
    controller.release(first);
    assert!(controller.try_reserve_at(1, 5 * SECOND + 9_999_999).is_err());
    assert!(controller.try_reserve_at(1, 5 * SECOND + 10_000_000).is_ok());
    assert_eq!(AdmissionDenial::RateLimit.as_str(), "rate_limit");
    assert_eq!(AdmissionDenial::BurstLimit.as_str(), "burst_limit");
    assert_eq!(AdmissionDenial::InflightLimit.as_str(), "inflight_limit");
}

#[test]
fn limits_are_given_together_or_not_at_all() {
    assert_eq!(remote_read_limits(None, None, None, true), Ok(None));
    assert_eq!(
        remote_read_limits(Some(8), Some(2), Some(3), false),
        Ok(Some(TailGuardRemoteReadConfig {
            bytes_per_second: 8,
            burst_bytes: 2,
            max_inflight_bytes: 3
        }))
    );
    assert!(remote_read_limits(Some(8), None, Some(2), false).unwrap_err().contains("together"));
    assert!(remote_read_limits(Some(8), Some(2), Some(2), true).unwrap_err().contains("frozen"));
    assert!(remote_read_limits(Some(8), Some(0), Some(2), false).unwrap_err().contains("positive"));
}

#[test]
fn reads_reserve_exactly_what_they_read() {
    let slot = |k_size, v_size| TransferSlotInfo { k_ptr: 1, k_size, v_ptr: 2, v_size, numa_node: 0 };
    let blocks = vec![
        TransferBlockInfo { block_hash: vec![1], slots: vec![slot(30, 0), slot(10, 20)] },
        TransferBlockInfo { block_hash: vec![2], slots: vec![slot(5, 0)] },
    ];
    assert_eq!(bundle_bytes(&blocks), 65);
    assert!(matches!(admit_read(None, &blocks, 0), Admission::Unlimited));
    let mut controller = controller();
    let admitted = admit_read(Some(&mut controller), &blocks, 5 * SECOND);
    assert!(matches!(admitted, Admission::Admitted(_)));
    assert_eq!(controller.inflight_bytes(), 65);
    let denied = admit_read(Some(&mut controller), &blocks, 5 * SECOND);
    assert!(matches!(denied, Admission::Denied(AdmissionDenial::InflightLimit)));
    assert_eq!(controller.inflight_bytes(), 65);
}

#[test]
fn a_denied_request_stays_denied() {
    let slot =
        TransferSlotInfo { k_ptr: 0x1000, k_size: 80, v_ptr: 0, v_size: 0, numa_node: 0 };
    let blocks = vec![TransferBlockInfo { block_hash: vec![1], slots: vec![slot] }];
    let mut controller = controller();
    let mut denied = DeniedReads::new();
    let first = denied.admit_request(Some(&mut controller), "a", &blocks, 5 * SECOND);
    assert!(matches!(first, Admission::Admitted(_)));
    let second = denied.admit_request(Some(&mut controller), "b", &blocks, 5 * SECOND);
    assert!(matches!(second, Admission::Denied(AdmissionDenial::InflightLimit)));
    if let Admission::Admitted(permit) = first {
        controller.release(permit);
    }
    let again = denied.admit_request(Some(&mut controller), "b", &blocks, 9 * SECOND);
    assert!(matches!(again, Admission::Denied(AdmissionDenial::InflightLimit)));
    assert_eq!(controller.inflight_bytes(), 0);
    denied.forget("b");
    let later = denied.admit_request(Some(&mut controller), "b", &blocks, 9 * SECOND);
    assert!(matches!(later, Admission::Admitted(_)));
}

#[test]
fn no_window_admits_more_than_a_burst_and_its_rate() {
    let mut controller = controller();
    let step = SECOND / 10;
    let mut admitted: Vec<(u64, u64)> = Vec::new();
    for i in 0..60u64 {
        let now = 5 * SECOND + i * step;
        let bytes = 7 + (i * 13) % 40;
        if let Ok(permit) = controller.try_reserve_at(bytes, now) {
            admitted.push((now, bytes));
            controller.release(permit);
        }
    }
    assert!(admitted.len() > 10);
    for a in 0..60u64 {
        for b in a..60u64 {
            let (from, to) = (5 * SECOND + a * step, 5 * SECOND + b * step);
            let sum: u64 =
                admitted.iter().filter(|(t, _)| from <= *t && *t <= to).map(|(_, n)| n).sum();
            assert!(sum * SECOND <= 100 * SECOND + 100 * (to - from));
        }
    }
}

#[test]
fn live_permits_make_up_what_is_under_way() {
    let mut controller = controller();
    let now = 5 * SECOND;
    let a = controller.try_reserve_at(30, now).unwrap();
    let b = controller.try_reserve_at(20, now).unwrap();
    let c = controller.try_reserve_at(50, now).unwrap();
    assert_eq!(controller.inflight_bytes(), 100);
    controller.release(b);
    assert_eq!(controller.inflight_bytes(), 80);
    assert!(controller.try_reserve_at(21, now + SECOND).is_err());
    let d = controller.try_reserve_at(20, now + SECOND).unwrap();
    controller.release(a);
    controller.release(c);
    assert_eq!(controller.inflight_bytes(), 20);
    controller.release(d);
    assert_eq!(controller.inflight_bytes(), 0);
}

#[test]
fn every_end_of_a_fetch_gives_its_permit_back() {
    let slot =
        TransferSlotInfo { k_ptr: 0x1000, k_size: 40, v_ptr: 0, v_size: 0, numa_node: 0 };
    let blocks = vec![TransferBlockInfo { block_hash: vec![1], slots: vec![slot] }];
    let mut controller = controller();
    let other = controller.try_reserve_at(10, 5 * SECOND).unwrap();
    let ends = [FetchEvent::Transferred, FetchEvent::TransferFailed, FetchEvent::Cancelled];
    for (i, end) in ends.into_iter().enumerate() {
        let now = (5 + i as u64) * SECOND;
        let admission = admit_read(Some(&mut controller), &blocks, now);
        assert_eq!(controller.inflight_bytes(), 50);
        let first = fetch_step(FetchState::Querying, located("s".to_string(), admission));
        assert!(first.permit.is_none() && first.status.is_none());
        let last = fetch_step(first.next, end);
        assert!(matches!(last.next, FetchState::Done));
        assert!(last.permit.is_some());
        end_read(Some(&mut controller), last.permit);
        assert_eq!(controller.inflight_bytes(), 10);
    }

    controller.release(other);
    let held = controller.try_reserve_at(90, 9 * SECOND).unwrap();
    let denied = admit_read(Some(&mut controller), &blocks, 9 * SECOND);
    let over = fetch_step(FetchState::Querying, located("t".to_string(), denied));
    assert_eq!(over.status, Some(FetchStatus::Missing));
    assert_eq!(over.release_lock.as_deref(), Some("t"));
    end_read(Some(&mut controller), over.permit);
    assert_eq!(controller.inflight_bytes(), 90);
    controller.release(held);

    let free = fetch_step(FetchState::Querying, located("u".to_string(), Admission::Unlimited));
    let done = fetch_step(free.next, FetchEvent::Transferred);
    assert!(done.permit.is_none());
    end_read(None, done.permit);
}
