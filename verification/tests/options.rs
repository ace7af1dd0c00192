use pegaflow::server::args::{
    format_hll_window_label, parse_hll_bucket_bits, parse_hll_windows, parse_hll_windows_arg,
    parse_humantime, parse_memory_size, parse_nic_name,
};
use pegaflow::server::setup::{
    choose_devices, first_device, p2p_incomplete, parse_nics, storage_config, ServerOptions,
};

fn expected_hll_windows() -> Vec<(String, u64)> {
    vec![
        ("15m".to_string(), 15 * 60),
        ("1h".to_string(), 60 * 60),
        ("1d".to_string(), 24 * 60 * 60),
    ]
}

#[test]
fn parse_hll_windows_canonicalizes_labels() {
    let windows = parse_hll_windows("15m,60m,24h").unwrap();

    assert_eq!(windows, expected_hll_windows());
}

#[test]
fn cli_default_metric_hll_windows_parses_without_panic() {
    let default = parse_hll_windows_arg("15m,1h,24h").unwrap();
    assert_eq!(parse_hll_windows(&default).unwrap(), expected_hll_windows());
}

#[test]
fn cli_explicit_metric_hll_windows_parses_without_panic() {
    let given = parse_hll_windows_arg("15m,1h,24h").unwrap();
    assert_eq!(given, "15m,1h,24h");
    assert_eq!(parse_hll_windows(&given).unwrap(), expected_hll_windows());
}

#[test]
fn cli_rejects_invalid_metric_hll_windows() {
    let err = parse_hll_windows_arg("15m,,1h").unwrap_err();

    assert!(err.contains("empty window"), "{err}");
}

#[test]
fn parse_hll_windows_rejects_empty_tokens() {
    let err = parse_hll_windows("15m,,1h").unwrap_err();

    assert!(err.contains("empty window"), "{err}");
}

#[test]
fn parse_hll_windows_rejects_duplicate_durations() {
    let err = parse_hll_windows("1h,60m").unwrap_err();

    assert!(err.contains("duplicate HLL window duration"), "{err}");
}

fn nics(args: &[&str]) -> Result<Vec<String>, String> {
    let args: Vec<String> = args.iter().map(|a| a.to_string()).collect();
    parse_nics(&args)
}

#[test]
fn cli_nics_accepts_comma_separated_values() {
    assert_eq!(nics(&["mlx5_0,mlx5_1,mlx5_2"]).unwrap(), ["mlx5_0", "mlx5_1", "mlx5_2"]);
}

#[test]
fn cli_nics_trims_comma_separated_values() {
    assert_eq!(nics(&["mlx5_0, mlx5_1, mlx5_2"]).unwrap(), ["mlx5_0", "mlx5_1", "mlx5_2"]);
}

#[test]
fn cli_nics_rejects_empty_comma_separated_values() {
    let err = nics(&["mlx5_0,,mlx5_1"]).unwrap_err();
    assert!(err.contains("empty NIC name"), "{err}");
}

#[test]
fn cli_nics_accepts_repeated_values_after_flag() {
    assert_eq!(nics(&["mlx5_0", "mlx5_1", "mlx5_2"]).unwrap(), ["mlx5_0", "mlx5_1", "mlx5_2"]);
}

#[test]
fn window_errors_say_what_is_wrong() {
    let err = |s: &str| parse_hll_windows(s).unwrap_err();
    assert_eq!(err("1h, "), "--metric-hll-windows contains an empty window at position 2");
    assert_eq!(err(""), "--metric-hll-windows contains an empty window at position 1");
    assert_eq!(err("59s"), "HLL window 59s must be at least 1 minute");
    assert_eq!(err("1h,60m"), "duplicate HLL window duration: 60m (1h)");
    assert_eq!(err("1w"), format!("unknown time unit {:?} in 1w; use s/m/h/d", "w"));
    assert_eq!(err("1\"m"), format!("unknown time unit {:?} in 1\"m; use s/m/h/d", "\"m"));
    assert_eq!(err("15"), "missing time unit in 15");
    let too_large = "99999999999999999999".parse::<u64>().unwrap_err();
    assert_eq!(
        err("99999999999999999999s"),
        format!("invalid number in 99999999999999999999s: {too_large}")
    );
    let empty = "".parse::<u64>().unwrap_err();
    assert_eq!(err("h"), format!("invalid number in h: {empty}"));
    assert_eq!(
        err("18446744073709551615d"),
        "duration overflows seconds in 18446744073709551615d"
    );
    assert_eq!(parse_humantime("2d"), Ok(172_800));
    assert_eq!(parse_humantime("18446744073709551615s"), Ok(u64::MAX));
}

#[test]
fn labels_use_the_largest_whole_unit() {
    for (secs, label) in [(86_400, "1d"), (90_000, "25h"), (5_400, "90m"), (61, "61s"), (0, "0d")] {
        assert_eq!(format_hll_window_label(secs), label);
        assert_eq!(parse_humantime(label), Ok(secs));
    }
}

#[test]
fn bucket_bits_are_read_as_the_standard_library_reads_them() {
    for good in ["4", "18", "+7", "014"] {
        assert_eq!(parse_hll_bucket_bits(good).unwrap(), good.parse::<u8>().unwrap());
    }
    for bad in ["", "+", "-", "-5", "3x", "256", "2567x", "1 "] {
        let wanted = bad.parse::<u8>().unwrap_err().to_string();
        assert_eq!(parse_hll_bucket_bits(bad).unwrap_err(), wanted, "{bad:?}");
    }
    assert_eq!(
        parse_hll_bucket_bits("3").unwrap_err(),
        "HLL bucket_bits must be in 4..=18, got 3"
    );
    assert_eq!(
        parse_hll_bucket_bits("19").unwrap_err(),
        "HLL bucket_bits must be in 4..=18, got 19"
    );
    assert_eq!(parse_nic_name("  mlx5_0\t").unwrap(), "mlx5_0");
    assert!(parse_nic_name(" \n").is_err());
}

fn options() -> ServerOptions {
    ServerOptions {
        hint_value_size: None,
        enable_lfu_admission: true,
        disable_numa_affinity: true,
        ssd_cache_path: Vec::new(),
        ssd_cache_capacity: 512,
        ssd_cache_shards: 1,
        ssd_write_queue_depth: 8,
        ssd_prefetch_queue_depth: 2,
        ssd_write_inflight: 2,
        ssd_prefetch_inflight: 16,
        max_prefetch_blocks: 1500,
        pool_shards: 4,
        blockwise_alloc: true,
        nics: None,
        qps_per_peer: 2,
        metaserver_addr: None,
        metaserver_queue_depth: 4096,
        transfer_lock_timeout_secs: 120,
    }
}

#[test]
fn options_become_the_configuration_of_storage() {
    let config = storage_config(options(), "1.2.3.4:5").unwrap();
    assert!(config.ssd_cache_config.is_none());
    assert!(config.advertise_addr.is_none());
    assert!(!config.enable_numa_affinity);
    assert_eq!(config.transfer_lock_timeout, 120_000_000_000);
    let mut more = options();
    more.ssd_cache_path = vec!["/ssd".to_string()];
    more.metaserver_addr = Some("http://m".to_string());
    more.transfer_lock_timeout_secs = u64::MAX;
    assert!(p2p_incomplete(&more));
    let config = storage_config(more, "1.2.3.4:5").unwrap();
    assert_eq!(config.advertise_addr.as_deref(), Some("1.2.3.4:5"));
    assert_eq!(config.ssd_cache_config.unwrap().prefetch_inflight, 16);
    assert_eq!(config.transfer_lock_timeout, u64::MAX);
    let mut zero = options();
    zero.hint_value_size = Some(0);
    assert_eq!(
        storage_config(zero, "").unwrap_err(),
        "--hint-value-size must be greater than zero when set"
    );
}

#[test]
fn devices_are_those_asked_for_or_found() {
    assert_eq!(choose_devices(vec![3], vec![0, 1]), Ok(vec![3]));
    assert_eq!(choose_devices(Vec::new(), vec![0, 1]), Ok(vec![0, 1]));
    assert_eq!(choose_devices(Vec::new(), Vec::new()).unwrap_err(), "No devices available");
    assert_eq!((first_device(&[5, 6]), first_device(&[])), (5, 0));
}

#[test]
fn sizes_have_units() {
    assert_eq!(parse_memory_size("30gb"), Ok(30 << 30));
    assert_eq!(parse_memory_size("500mb"), Ok(500 << 20));
    assert_eq!(parse_memory_size("1tb"), Ok(1 << 40));
    assert_eq!(parse_memory_size("7kb"), Ok(7 << 10));
    assert_eq!(parse_memory_size("512"), Ok(512));
    assert_eq!(
        parse_memory_size("1gib").unwrap_err(),
        format!("unknown size unit {:?} in 1gib; use kb/mb/gb/tb", "gib")
    );
    assert!(parse_memory_size("gb").unwrap_err().starts_with("invalid number in gb"));
    assert_eq!(parse_memory_size("99999999tb").unwrap_err(), "size overflows bytes in 99999999tb");
}
