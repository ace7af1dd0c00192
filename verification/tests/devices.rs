use pegaflow::numa::NumaNode;
use pegaflow::topology::{
    configure_device_scope, normalized_scope, select_device, validate_device_scope, DeviceTopology,
};

#[test]
fn device_scope_rejects_empty_negative_and_duplicate_ids() {
    for devices in [&[][..], &[-1], &[0, 0]] {
        assert!(normalized_scope(devices).is_err());
    }
    assert_eq!(normalized_scope(&[2, 0]).unwrap(), vec![0, 2]);
}

#[test]
fn pinned_pool_devices_stay_in_scope_without_dropping_numa_nodes() {
    let map = vec![
        (0, NumaNode(6)),
        (2, NumaNode(6)),
        (1, NumaNode(0)),
        (5, NumaNode(2)),
        (4, NumaNode(4)),
    ];
    for node in [NumaNode(0), NumaNode(2), NumaNode(4), NumaNode(6), NumaNode::unknown()] {
        assert!([0, 2].contains(&select_device(Some(&map), Some(&vec![0, 2]), node)));
        assert_eq!(select_device(Some(&map), Some(&vec![2]), node), 2);
    }
    assert_eq!(select_device(None, Some(&vec![2]), NumaNode::unknown()), 2);
    assert_eq!(select_device(Some(&map), None, NumaNode(4)), 4);
    assert_eq!(select_device(None, None, NumaNode::unknown()), 0);
    let local_map = vec![(0, NumaNode(6)), (2, NumaNode(4))];
    assert_eq!(select_device(Some(&local_map), Some(&vec![0, 2]), NumaNode(4)), 2);
}

#[test]
fn process_device_scope_is_immutable_and_rejects_unlisted_devices() {
    let mut topology = DeviceTopology::new();
    assert!(configure_device_scope(&mut topology, &[]).is_err());
    assert!(configure_device_scope(&mut topology, &[-1]).is_err());
    configure_device_scope(&mut topology, &[2, 0]).unwrap();
    configure_device_scope(&mut topology, &[0, 2]).unwrap();
    assert!(configure_device_scope(&mut topology, &[0, 1, 2]).is_err());
    assert!(configure_device_scope(&mut topology, &[0, 0]).is_err());
    for device in [0, 2] {
        validate_device_scope(&topology, device).unwrap();
    }
    for device in [-1, 1, 3, 4, 5, 6, 7] {
        assert!(validate_device_scope(&topology, device).is_err());
    }
}

#[test]
fn unlisted_devices_are_named() {
    let mut topology = DeviceTopology::new();
    assert!(validate_device_scope(&topology, 9).is_ok());
    configure_device_scope(&mut topology, &[1]).unwrap();
    assert_eq!(
        validate_device_scope(&topology, -3).unwrap_err(),
        "device -3 is outside the configured device scope"
    );
    topology.init_device_numa_map(vec![(1, NumaNode(0)), (3, NumaNode(1))]);
    assert_eq!(topology.resolve_device_for_numa(NumaNode(1)), 1);
}

#[test]
fn nodes_have_names() {
    assert_eq!(NumaNode(3).name(), "NUMA3");
    assert_eq!(NumaNode::unknown().name(), "UNKNOWN");
}
