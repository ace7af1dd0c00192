//! What the server starts with: its devices, its NICs and its storage.

use vstd::prelude::*;
use vstd::string::*;
use crate::server::args::{comma_parts, parse_nic_name, split_commas};
use crate::storage::config::{texts, SsdCacheConfig, StorageConfig};
use crate::text::trimmed;

verus! {

/// The options that storage depends on.
#[derive(Debug)]
pub struct ServerOptions {
    pub hint_value_size: Option<usize>,
    pub enable_lfu_admission: bool,
    pub disable_numa_affinity: bool,
    pub ssd_cache_path: Vec<String>,
    pub ssd_cache_capacity: usize,
    pub ssd_cache_shards: usize,
    pub ssd_write_queue_depth: usize,
    pub ssd_prefetch_queue_depth: usize,
    pub ssd_write_inflight: usize,
    pub ssd_prefetch_inflight: usize,
    pub max_prefetch_blocks: usize,
    pub pool_shards: usize,
    pub blockwise_alloc: bool,
    pub nics: Option<Vec<String>>,
    pub qps_per_peer: usize,
    pub metaserver_addr: Option<String>,
    pub metaserver_queue_depth: usize,
    pub transfer_lock_timeout_secs: u64,
}

/// Seconds in nanoseconds, as far as they can be counted.
pub open spec fn nanoseconds(secs: u64) -> u64 {
    if secs * 1_000_000_000 > u64::MAX {
        u64::MAX
    } else {
        (secs * 1_000_000_000) as u64
    }
}

fn in_nanoseconds(secs: u64) -> (r: u64)
    ensures
        r == nanoseconds(secs),
{
    let exact: u128 = secs as u128 * 1_000_000_000;
    if exact > u64::MAX as u128 {
        u64::MAX
    } else {
        exact as u64
    }
}

/// The configuration of storage for some options. The node is reached by others under
/// `addr`, where there is a server that tells them of it. A size hint of zero is refused.
pub fn storage_config(options: ServerOptions, addr: &str) -> (r: Result<StorageConfig, String>)
    ensures
        match r {
            Err(m) => {
                &&& options.hint_value_size == Some(0usize)
                &&& m@ == "--hint-value-size must be greater than zero when set"@
            },
            Ok(c) => {
                &&& options.hint_value_size != Some(0usize)
                &&& c.enable_lfu_admission == options.enable_lfu_admission
                &&& c.hint_value_size_bytes == options.hint_value_size
                &&& c.max_prefetch_blocks == options.max_prefetch_blocks
                &&& match c.ssd_cache_config {
                    None => options.ssd_cache_path@.len() == 0,
                    Some(ssd) => options.ssd_cache_path@.len() > 0 && ssd == (SsdCacheConfig {
                        cache_paths: options.ssd_cache_path,
                        capacity_bytes: options.ssd_cache_capacity as u64,
                        shards: options.ssd_cache_shards,
                        write_queue_depth: options.ssd_write_queue_depth,
                        prefetch_queue_depth: options.ssd_prefetch_queue_depth,
                        write_inflight: options.ssd_write_inflight,
                        prefetch_inflight: options.ssd_prefetch_inflight,
                    }),
                }
                &&& c.rdma_nic_names == options.nics
                &&& c.rdma_qps_per_peer == options.qps_per_peer
                &&& c.enable_numa_affinity == !options.disable_numa_affinity
                &&& c.blockwise_alloc == options.blockwise_alloc
                &&& c.transfer_lock_timeout == nanoseconds(options.transfer_lock_timeout_secs)
                &&& c.metaserver_addr == options.metaserver_addr
                &&& match c.advertise_addr {
                    Some(a) => options.metaserver_addr is Some && a@ == addr@,
                    None => options.metaserver_addr is None,
                }
                &&& c.metaserver_queue_depth == options.metaserver_queue_depth
                &&& c.pool_shards == options.pool_shards
            },
        },
{
    match options.hint_value_size {
        Some(size) => {
            if size == 0 {
                return Err(
                    String::from_str("--hint-value-size must be greater than zero when set"),
                );
            }
        },
        None => {},
    }
    let advertise_addr: Option<String> = match &options.metaserver_addr {
        Some(_) => Some(String::from_str(addr)),
        None => None,
    };
    let ssd_cache_config: Option<SsdCacheConfig> = if options.ssd_cache_path.len() == 0 {
        None
    } else {
        Some(
            SsdCacheConfig {
                cache_paths: options.ssd_cache_path,
                capacity_bytes: options.ssd_cache_capacity as u64,
                shards: options.ssd_cache_shards,
                write_queue_depth: options.ssd_write_queue_depth,
                prefetch_queue_depth: options.ssd_prefetch_queue_depth,
                write_inflight: options.ssd_write_inflight,
                prefetch_inflight: options.ssd_prefetch_inflight,
            },
        )
    };
    Ok(
        StorageConfig {
            enable_lfu_admission: options.enable_lfu_admission,
            hint_value_size_bytes: options.hint_value_size,
            max_prefetch_blocks: options.max_prefetch_blocks,
            ssd_cache_config,
            rdma_nic_names: options.nics,
            rdma_qps_per_peer: options.qps_per_peer,
            enable_numa_affinity: !options.disable_numa_affinity,
            blockwise_alloc: options.blockwise_alloc,
            transfer_lock_timeout: in_nanoseconds(options.transfer_lock_timeout_secs),
            metaserver_addr: options.metaserver_addr,
            advertise_addr,
            metaserver_queue_depth: options.metaserver_queue_depth,
            pool_shards: options.pool_shards,
        },
    )
}

/// Whether only one of the two options for transfers between nodes is given.
pub fn p2p_incomplete(options: &ServerOptions) -> (r: bool)
    ensures
        r == (options.metaserver_addr is Some != (options.nics matches Some(n) && n@.len() > 0)),
{
    let has_metaserver: bool = options.metaserver_addr.is_some();
    let has_nics: bool = match &options.nics {
        Some(n) => n.len() > 0,
        None => false,
    };
    has_metaserver != has_nics
}

/// The devices to use: those that were asked for, or all that were found.
pub fn choose_devices(asked: Vec<i32>, found: Vec<i32>) -> (r: Result<Vec<i32>, String>)
    ensures
        if asked@.len() > 0 {
            r == Ok::<Vec<i32>, String>(asked)
        } else if found@.len() > 0 {
            r == Ok::<Vec<i32>, String>(found)
        } else {
            r matches Err(m) && m@ == "No devices available"@
        },
{
    if asked.len() > 0 {
        return Ok(asked);
    }
    if found.len() == 0 {
        return Err(String::from_str("No devices available"));
    }
    Ok(found)
}

/// The device that the runtime is initialized on first.
pub fn first_device(asked: &[i32]) -> (r: i32)
    ensures
        r == if asked@.len() > 0 {
            asked@[0]
        } else {
            0
        },
{
    if asked.len() > 0 {
        asked[0]
    } else {
        0
    }
}

/// The parts of the first `n` arguments between commas.
pub open spec fn all_parts(args: Seq<String>, n: int) -> Seq<Seq<char>>
    decreases n,
{
    if n <= 0 {
        Seq::empty()
    } else {
        all_parts(args, n - 1) + comma_parts(args[n - 1]@)
    }
}

/// Reads the names of NICs: one in each argument, or several with commas between them, with
/// or without white space around them.
pub fn parse_nics(args: &[String]) -> (r: Result<Vec<String>, String>)
    ensures
        ({
            let parts = all_parts(args@, args@.len() as int);
            match r {
                Ok(names) => {
                    &&& texts(names@) == parts.map_values(|p: Seq<char>| trimmed(p))
                    &&& forall|k: int| 0 <= k < parts.len() ==> trimmed(#[trigger] parts[k]).len()
                        > 0
                },
                Err(m) => {
                    &&& m@ == "--nics contains an empty NIC name"@
                    &&& exists|k: int|
                        0 <= k < parts.len() && trimmed(#[trigger] parts[k]).len() == 0
                },
            }
        }),
{
    let mut names: Vec<String> = Vec::new();
    let mut parts: Vec<String> = Vec::new();
    let mut i: usize = 0;
    assert(texts(parts@) =~= all_parts(args@, 0));
    while i < args.len()
        invariant
            i <= args@.len(),
            texts(parts@) == all_parts(args@, i as int),
        decreases args@.len() - i,
    {
        let ghost shown = texts(parts@);
        let mut more: Vec<String> = split_commas(args[i].as_str());
        let ghost added = texts(more@);
        parts.append(&mut more);
        assert(texts(parts@) =~= shown + added);
        i += 1;
    }
    let ghost all = texts(parts@);
    let ghost wanted = all.map_values(|p: Seq<char>| trimmed(p));
    let mut k: usize = 0;
    assert(texts(names@) =~= wanted.take(0));
    while k < parts.len()
        invariant
            k <= parts@.len(),
            all == texts(parts@),
            all == all_parts(args@, args@.len() as int),
            wanted == all.map_values(|p: Seq<char>| trimmed(p)),
            texts(names@) == wanted.take(k as int),
            forall|q: int| 0 <= q < k ==> trimmed(#[trigger] all[q]).len() > 0,
        decreases parts@.len() - k,
    {
        assert(all[k as int] == parts@[k as int]@);
        match parse_nic_name(parts[k].as_str()) {
            Ok(name) => {
                let ghost shown = texts(names@);
                let ghost view = name@;
                names.push(name);
                assert(texts(names@) =~= shown.push(view));
                assert(wanted.take(k + 1) =~= wanted.take(k as int).push(view));
            },
            Err(m) => {
                return Err(m);
            },
        }
        k += 1;
    }
    assert(wanted.take(k as int) =~= wanted);
    Ok(names)
}

/// Seconds are a thousand million nanoseconds each, as far as these can be counted; the parts of
/// arguments are those of the single arguments, one after the other.
pub proof fn law_seconds_are_counted_in_nanoseconds(secs: u64, args: Seq<String>, n: int)
    requires
        n > 0,
    ensures
        secs * 1_000_000_000 <= u64::MAX ==> nanoseconds(secs) == secs * 1_000_000_000,
        secs * 1_000_000_000 > u64::MAX ==> nanoseconds(secs) == u64::MAX,
        all_parts(args, 0).len() == 0,
        all_parts(args, n) == all_parts(args, n - 1) + comma_parts(args[n - 1]@),
{
}

} // verus!
