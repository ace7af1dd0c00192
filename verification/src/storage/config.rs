//! How storage is set up: from the configuration to the pools of pinned memory and the
//! peers.

use vstd::prelude::*;
use vstd::string::*;
use crate::keyed::{has_key, is_entry, place};
use crate::metaserver::session::{MetaServerClientConfig, DEFAULT_METASERVER_QUEUE_DEPTH};
use crate::numa::{NumaNode, UNKNOWN_NODE};
use crate::pinned_pool::{
    larger, node_shares, pools_total, shards_total, unit_size, NumaAwarePinnedPools, PinnedAllocator,
    PinnedBacking, PinnedMemoryPool, ShardedPinnedPool,
};

verus! {

/// How many queue pairs there are between two NICs, unless configured otherwise.
pub const DEFAULT_RDMA_QPS_PER_PEER: usize = 2;

/// How many blocks may be on their way into memory, unless configured otherwise.
pub const DEFAULT_MAX_PREFETCH_BLOCKS: usize = 1500;

/// How long blocks stay locked for another node, unless configured otherwise: two
/// minutes, in nanoseconds.
pub const DEFAULT_TRANSFER_LOCK_TIMEOUT: u64 = 120_000_000_000;

/// How many batches wait to be written to SSD, unless configured otherwise.
pub const DEFAULT_SSD_WRITE_QUEUE_DEPTH: usize = 8;

/// How many batches wait to be read from SSD, unless configured otherwise.
pub const DEFAULT_SSD_PREFETCH_QUEUE_DEPTH: usize = 2;

/// How many blocks are written to SSD at a time, unless configured otherwise.
pub const DEFAULT_SSD_WRITE_INFLIGHT: usize = 2;

/// How many blocks are read from SSD at a time, unless configured otherwise.
pub const DEFAULT_SSD_PREFETCH_INFLIGHT: usize = 16;

/// A cache of sealed blocks on SSD.
#[derive(Debug)]
pub struct SsdCacheConfig {
    pub cache_paths: Vec<String>,
    pub capacity_bytes: u64,
    pub shards: usize,
    pub write_queue_depth: usize,
    pub prefetch_queue_depth: usize,
    pub write_inflight: usize,
    pub prefetch_inflight: usize,
}

/// The configuration of storage.
#[derive(Debug)]
pub struct StorageConfig {
    pub enable_lfu_admission: bool,
    /// How large values are expected to be, in bytes.
    pub hint_value_size_bytes: Option<usize>,
    /// How many blocks may be on their way into memory.
    pub max_prefetch_blocks: usize,
    pub ssd_cache_config: Option<SsdCacheConfig>,
    /// The NICs for transfers between nodes.
    pub rdma_nic_names: Option<Vec<String>>,
    /// How many queue pairs there are between two NICs.
    pub rdma_qps_per_peer: usize,
    /// Whether memory is allocated on the node that it is used from.
    pub enable_numa_affinity: bool,
    /// Whether each block is allocated by itself.
    pub blockwise_alloc: bool,
    /// How long blocks stay locked for another node, in nanoseconds.
    pub transfer_lock_timeout: u64,
    /// The server that knows which node has which block.
    pub metaserver_addr: Option<String>,
    /// The address under which other nodes reach this one.
    pub advertise_addr: Option<String>,
    /// How many commands wait for the server.
    pub metaserver_queue_depth: usize,
    /// How many shards a pool of pinned memory has.
    pub pool_shards: usize,
}

impl Default for StorageConfig {
    fn default() -> (r: Self)
        ensures
            !r.enable_lfu_admission,
            r.hint_value_size_bytes is None,
            r.max_prefetch_blocks == DEFAULT_MAX_PREFETCH_BLOCKS,
            r.ssd_cache_config is None,
            r.rdma_nic_names is None,
            r.rdma_qps_per_peer == DEFAULT_RDMA_QPS_PER_PEER,
            r.enable_numa_affinity,
            !r.blockwise_alloc,
            r.transfer_lock_timeout == DEFAULT_TRANSFER_LOCK_TIMEOUT,
            r.metaserver_addr is None,
            r.advertise_addr is None,
            r.metaserver_queue_depth == DEFAULT_METASERVER_QUEUE_DEPTH,
            r.pool_shards == 1,
    {
        StorageConfig {
            enable_lfu_admission: false,
            hint_value_size_bytes: None,
            max_prefetch_blocks: DEFAULT_MAX_PREFETCH_BLOCKS,
            ssd_cache_config: None,
            rdma_nic_names: None,
            rdma_qps_per_peer: DEFAULT_RDMA_QPS_PER_PEER,
            enable_numa_affinity: true,
            blockwise_alloc: false,
            transfer_lock_timeout: DEFAULT_TRANSFER_LOCK_TIMEOUT,
            metaserver_addr: None,
            advertise_addr: None,
            metaserver_queue_depth: DEFAULT_METASERVER_QUEUE_DEPTH,
            pool_shards: 1,
        }
    }
}

/// One pool of pinned memory: its node, and the shards that it is made of.
#[derive(Clone, Copy, Debug, PartialEq, Eq, Structural)]
pub struct PoolPlan {
    pub node: NumaNode,
    pub shards: usize,
    pub shard_bytes: usize,
}

/// What is set up for a configuration.
#[derive(Debug)]
pub struct StoragePlan {
    /// How large values are expected to be, where that is known.
    pub value_size_hint: Option<usize>,
    /// Whether there is a pool for each NUMA node.
    pub numa: bool,
    pub pools: Vec<PoolPlan>,
    pub metaserver: Option<MetaServerClientConfig>,
    /// The NICs, where there are any.
    pub rdma_nics: Option<Vec<String>>,
    /// Under which address blocks are fetched from other nodes, where they are.
    pub fetch_as: Option<String>,
}

/// The pool of a node with so many bytes.
pub open spec fn pool_plan(node: NumaNode, bytes: int, shards: usize) -> PoolPlan {
    let count = larger(shards as int, 1);
    PoolPlan { node, shards: count as usize, shard_bytes: (bytes / count) as usize }
}

/// The pools for some capacity: one for each known node, with an equal share, or one for
/// all where no nodes are given.
pub open spec fn pool_plans(
    capacity_bytes: usize,
    numa_nodes: Seq<NumaNode>,
    shards: usize,
) -> Seq<PoolPlan> {
    if numa_nodes.len() == 0 {
        seq![pool_plan(NumaNode(UNKNOWN_NODE), capacity_bytes as int, shards)]
    } else {
        node_shares(
            numa_nodes,
            (capacity_bytes as int / numa_nodes.len() as int) as usize,
            numa_nodes.len() as int,
        ).map_values(|s: (NumaNode, usize)| pool_plan(s.0, s.1 as int, shards))
    }
}

/// The address under which other nodes reach this one.
pub open spec fn advertised(config: StorageConfig) -> Seq<char> {
    match config.advertise_addr {
        Some(a) => a@,
        None => "127.0.0.1:50055"@,
    }
}

/// The texts of some strings.
pub open spec fn texts(v: Seq<String>) -> Seq<Seq<char>> {
    v.map_values(|s: String| s@)
}

/// A copy of some strings.
pub fn copy_strings(v: &Vec<String>) -> (r: Vec<String>)
    ensures
        texts(r@) == texts(v@),
{
    let mut r: Vec<String> = Vec::new();
    let mut i: usize = 0;
    assert(texts(r@) =~= texts(v@).take(0));
    while i < v.len()
        invariant
            i <= v@.len(),
            texts(r@) == texts(v@).take(i as int),
        decreases v@.len() - i,
    {
        let ghost before = texts(r@);
        let s: String = v[i].clone();
        let ghost shown = s@;
        r.push(s);
        i += 1;
        assert(texts(r@) =~= before.push(shown));
        assert(texts(v@).take(i as int) =~= texts(v@).take(i - 1).push(shown));
    }
    assert(texts(v@).take(i as int) =~= texts(v@));
    r
}

fn advertise(config: &StorageConfig) -> (r: String)
    ensures
        r@ == advertised(*config),
{
    match &config.advertise_addr {
        Some(a) => a.clone(),
        None => String::from_str("127.0.0.1:50055"),
    }
}

/// What is set up for a configuration, with `capacity_bytes` of pinned memory on some
/// nodes. A size hint of zero is none, and so is an empty list of NICs; blocks are
/// fetched from other nodes where there are both NICs and a server to ask.
pub fn plan_storage(
    capacity_bytes: usize,
    config: &StorageConfig,
    numa_nodes: &[NumaNode],
) -> (r: StoragePlan)
    ensures
        r.value_size_hint == (match config.hint_value_size_bytes {
            Some(size) if size > 0 => Some(size),
            _ => None,
        }),
        r.numa == (numa_nodes@.len() > 0),
        r.pools@ == pool_plans(capacity_bytes, numa_nodes@, config.pool_shards),
        r.numa ==> forall|k: int|
            0 <= k < r.pools@.len() ==> (#[trigger] r.pools@[k]).node.known(),
        match r.metaserver {
            Some(m) => {
                &&& config.metaserver_addr matches Some(a) && m.metaserver_addr@ == a@
                &&& m.advertise_addr@ == advertised(*config)
                &&& m.queue_depth == config.metaserver_queue_depth
            },
            None => config.metaserver_addr is None,
        },
        match r.rdma_nics {
            Some(nics) => {
                &&& nics@.len() > 0
                &&& config.rdma_nic_names matches Some(names) && texts(nics@) == texts(names@)
            },
            None => config.rdma_nic_names matches Some(names) ==> names@.len() == 0,
        },
        match r.fetch_as {
            Some(a) => a@ == advertised(*config) && r.rdma_nics is Some && r.metaserver is Some,
            None => r.rdma_nics is None || r.metaserver is None,
        },
{
    let value_size_hint: Option<usize> = match config.hint_value_size_bytes {
        Some(size) => if size > 0 {
            Some(size)
        } else {
            None
        },
        None => None,
    };
    let mut pools: Vec<PoolPlan> = Vec::new();
    if numa_nodes.len() == 0 {
        let (shards, shard_bytes): (usize, usize) = ShardedPinnedPool::layout(
            capacity_bytes,
            config.pool_shards,
        );
        pools.push(PoolPlan { node: NumaNode::unknown(), shards, shard_bytes });
        assert(pools@ =~= pool_plans(capacity_bytes, numa_nodes@, config.pool_shards));
    } else {
        let shares: Vec<(NumaNode, usize)> = NumaAwarePinnedPools::shares(
            capacity_bytes,
            numa_nodes,
        );
        let ghost wanted = pool_plans(capacity_bytes, numa_nodes@, config.pool_shards);
        let mut i: usize = 0;
        while i < shares.len()
            invariant
                i <= shares@.len(),
                wanted == shares@.map_values(
                    |s: (NumaNode, usize)| pool_plan(s.0, s.1 as int, config.pool_shards),
                ),
                pools@ == wanted.take(i as int),
            decreases shares@.len() - i,
        {
            let (shards, shard_bytes): (usize, usize) = ShardedPinnedPool::layout(
                shares[i].1,
                config.pool_shards,
            );
            pools.push(PoolPlan { node: shares[i].0, shards, shard_bytes });
            i += 1;
            assert(pools@ =~= wanted.take(i as int));
        }
        assert(wanted.take(i as int) =~= wanted);
        proof {
            lemma_equal_shares(
                numa_nodes@,
                (capacity_bytes as int / numa_nodes@.len() as int) as usize,
                numa_nodes@.len() as int,
            );
            assert forall|k: int| 0 <= k < pools@.len() implies (#[trigger]
            pools@[k]).node.known() by {
                assert(shares@[k].0.known());
            }
        }
    }
    let metaserver: Option<MetaServerClientConfig> = match &config.metaserver_addr {
        Some(addr) => {
            let client: MetaServerClientConfig = MetaServerClientConfig::new(
                addr.clone(),
                advertise(config),
            );
            Some(client.with_queue_depth(config.metaserver_queue_depth))
        },
        None => None,
    };
    let rdma_nics: Option<Vec<String>> = match &config.rdma_nic_names {
        Some(names) => if names.len() > 0 {
            let nics: Vec<String> = copy_strings(names);
            assert(texts(nics@).len() == texts(names@).len());
            Some(nics)
        } else {
            None
        },
        None => None,
    };
    let fetch_as: Option<String> = if rdma_nics.is_some() && metaserver.is_some() {
        Some(advertise(config))
    } else {
        None
    };
    StoragePlan { value_size_hint, numa: numa_nodes.len() > 0, pools, metaserver, rdma_nics, fetch_as }
}

/// How much memory the first `n` regions have.
pub open spec fn backing_bytes(backings: Seq<PinnedBacking>, n: int) -> int
    decreases n,
{
    if n <= 0 {
        0
    } else {
        backing_bytes(backings, n - 1) + backings[n - 1].size
    }
}

/// How much memory the first `n` groups of regions have.
pub open spec fn group_bytes(groups: Seq<Vec<PinnedBacking>>, n: int) -> int
    decreases n,
{
    if n <= 0 {
        0
    } else {
        group_bytes(groups, n - 1) + backing_bytes(
            groups[n - 1]@,
            groups[n - 1]@.len() as int,
        )
    }
}

/// Whether there is a group of regions for each pool, and in it a region for each shard.
pub open spec fn backs(pools: Seq<PoolPlan>, groups: Seq<Vec<PinnedBacking>>) -> bool {
    &&& groups.len() == pools.len()
    &&& forall|k: int|
        0 <= k < groups.len() ==> (#[trigger] groups[k])@.len() == pools[k].shards
            && groups[k]@.len() > 0
    &&& forall|k: int, j: int|
        0 <= k < groups.len() && 0 <= j < groups[k]@.len() ==> (#[trigger] groups[k]@[j]).wf()
}

/// The memory of a pool's shards.
pub open spec fn shard_backings(pool: ShardedPinnedPool) -> Seq<PinnedBacking> {
    pool.shards().map_values(|p: PinnedMemoryPool| p.backing())
}

/// Whether nothing of a pool is handed out, and its unit is the one for the hint.
pub open spec fn fresh(pool: ShardedPinnedPool, hint: Option<u64>) -> bool {
    forall|k: int|
        0 <= k < pool.shards().len() ==> (#[trigger] pool.shards()[k]).ranges().used().len() == 0
            && pool.shards()[k].ranges().unit() == unit_size(
            pool.shards()[k].backing().size as int,
            hint,
        )
}

/// Pools with the memory of their shards.
pub open spec fn pool_backings(pools: Seq<(u32, ShardedPinnedPool)>) -> Seq<
    (u32, Seq<PinnedBacking>),
> {
    pools.map_values(|p: (u32, ShardedPinnedPool)| (p.0, shard_backings(p.1)))
}

/// The pools of the first `n` plans, by node. A node that comes again has the later one.
pub open spec fn node_backings(
    pools: Seq<PoolPlan>,
    groups: Seq<Vec<PinnedBacking>>,
    n: int,
) -> Seq<(u32, Seq<PinnedBacking>)>
    decreases n,
{
    if n <= 0 {
        Seq::empty()
    } else {
        let front = node_backings(pools, groups, n - 1);
        let entry = (pools[n - 1].node.0, groups[n - 1]@);
        if has_key(front, entry.0) {
            front.update(place(front, entry.0), entry)
        } else {
            front.push(entry)
        }
    }
}

proof fn lemma_backing_bytes(backings: Seq<PinnedBacking>, m: int, n: int)
    requires
        0 <= m <= n,
    ensures
        0 <= backing_bytes(backings, m) <= backing_bytes(backings, n),
    decreases n,
{
    if m < n {
        lemma_backing_bytes(backings, m, n - 1);
    } else if n > 0 {
        lemma_backing_bytes(backings, n - 1, n - 1);
    }
}

proof fn lemma_group_bytes(groups: Seq<Vec<PinnedBacking>>, m: int, n: int)
    requires
        0 <= m <= n,
    ensures
        0 <= group_bytes(groups, m) <= group_bytes(groups, n),
    decreases n,
{
    if n > 0 {
        lemma_backing_bytes(groups[n - 1]@, 0, groups[n - 1]@.len() as int);
        if m < n {
            lemma_group_bytes(groups, m, n - 1);
        } else {
            lemma_group_bytes(groups, n - 1, n - 1);
        }
    }
}

proof fn lemma_fewer_shards(a: Seq<PinnedMemoryPool>, b: Seq<PinnedMemoryPool>, n: int)
    requires
        0 <= n <= a.len() <= b.len(),
        forall|i: int| 0 <= i < n ==> a[i] == b[i],
    ensures
        shards_total(a, n) == shards_total(b, n),
    decreases n,
{
    if n > 0 {
        lemma_fewer_shards(a, b, n - 1);
    }
}

/// A pool on some regions, with nothing handed out.
pub fn build_pool(backings: &Vec<PinnedBacking>, hint: Option<u64>) -> (r: ShardedPinnedPool)
    requires
        backings@.len() > 0,
        forall|k: int| 0 <= k < backings@.len() ==> (#[trigger] backings@[k]).wf(),
        backing_bytes(backings@, backings@.len() as int) <= u64::MAX,
        hint matches Some(h) ==> 0 < h <= u64::MAX - 511,
    ensures
        r.wf(),
        shard_backings(r) == backings@,
        fresh(r, hint),
        r.cursor() == 0,
        r.total_bytes() <= backing_bytes(backings@, backings@.len() as int),
{
    let mut shards: Vec<PinnedMemoryPool> = Vec::new();
    let mut i: usize = 0;
    while i < backings.len()
        invariant
            i <= backings@.len(),
            hint matches Some(h) ==> 0 < h <= u64::MAX - 511,
            forall|k: int| 0 <= k < backings@.len() ==> (#[trigger] backings@[k]).wf(),
            shards@.len() == i,
            forall|k: int|
                0 <= k < i ==> {
                    &&& (#[trigger] shards@[k]).wf()
                    &&& shards@[k].backing() == backings@[k]
                    &&& shards@[k].ranges().used().len() == 0
                    &&& shards@[k].ranges().unit() == unit_size(backings@[k].size as int, hint)
                },
            shards_total(shards@, i as int) <= backing_bytes(backings@, i as int),
        decreases backings@.len() - i,
    {
        let ghost before = shards@;
        assert(backings@[i as int].wf());
        shards.push(PinnedMemoryPool::new(backings[i], hint));
        proof {
            lemma_fewer_shards(before, shards@, i as int);
            assert(forall|k: int| 0 <= k < i ==> shards@[k] == before[k]);
        }
        i += 1;
    }
    let r: ShardedPinnedPool = ShardedPinnedPool::from_shards(shards);
    assert(shard_backings(r) =~= backings@);
    r
}

/// The pinned memory of a plan, on regions that were allocated for it. Nothing of it is
/// handed out.
pub fn build_allocator(plan: &StoragePlan, groups: &Vec<Vec<PinnedBacking>>) -> (r: PinnedAllocator)
    requires
        backs(plan.pools@, groups@),
        !plan.numa ==> plan.pools@.len() == 1,
        plan.numa ==> forall|k: int|
            0 <= k < plan.pools@.len() ==> (#[trigger] plan.pools@[k]).node.known(),
        group_bytes(groups@, groups@.len() as int) <= u64::MAX,
        plan.value_size_hint matches Some(h) ==> 0 < h <= u64::MAX - 511,
    ensures
        r.wf(),
        match r {
            PinnedAllocator::Global(pool) => {
                &&& !plan.numa
                &&& shard_backings(pool) == groups@[0]@
                &&& fresh(pool, unit_hint(plan.value_size_hint))
            },
            PinnedAllocator::Numa(pools) => {
                &&& plan.numa
                &&& pool_backings(pools.pools()) == node_backings(
                    plan.pools@,
                    groups@,
                    groups@.len() as int,
                )
                &&& forall|k: int|
                    0 <= k < pools.pools().len() ==> fresh(
                        (#[trigger] pools.pools()[k]).1,
                        unit_hint(plan.value_size_hint),
                    )
            },
        },
{
    let hint: Option<u64> = match plan.value_size_hint {
        Some(h) => Some(h as u64),
        None => None,
    };
    if !plan.numa {
        assert(groups@[0]@.len() > 0);
        proof {
            lemma_group_bytes(groups@, 0, 0);
            assert(group_bytes(groups@, 1) == group_bytes(groups@, 0) + backing_bytes(
                groups@[0]@,
                groups@[0]@.len() as int,
            ));
            assert forall|k: int| 0 <= k < groups@[0]@.len() implies (#[trigger]
            groups@[0]@[k]).wf() by {}
        }
        return PinnedAllocator::Global(build_pool(&groups[0], hint));
    }
    let mut pools: NumaAwarePinnedPools = NumaAwarePinnedPools::empty();
    let mut i: usize = 0;
    assert(pool_backings(pools.pools()) =~= node_backings(plan.pools@, groups@, 0));
    while i < groups.len()
        invariant
            i <= groups@.len(),
            plan.numa,
            backs(plan.pools@, groups@),
            forall|k: int|
                0 <= k < plan.pools@.len() ==> (#[trigger] plan.pools@[k]).node.known(),
            group_bytes(groups@, groups@.len() as int) <= u64::MAX,
            hint == unit_hint(plan.value_size_hint),
            hint matches Some(h) ==> 0 < h <= u64::MAX - 511,
            pools.wf(),
            pools_total(pools.pools(), pools.pools().len() as int) <= group_bytes(
                groups@,
                i as int,
            ),
            pool_backings(pools.pools()) == node_backings(plan.pools@, groups@, i as int),
            forall|k: int|
                0 <= k < pools.pools().len() ==> fresh((#[trigger] pools.pools()[k]).1, hint),
        decreases groups@.len() - i,
    {
        let ghost before = pools;
        let ghost shown = pool_backings(pools.pools());
        let node: NumaNode = plan.pools[i].node;
        proof {
            assert(groups@[i as int]@.len() > 0);
            lemma_group_bytes(groups@, i + 1, groups@.len() as int);
            lemma_group_bytes(groups@, 0, i as int);
            assert forall|k: int| 0 <= k < groups@[i as int]@.len() implies (#[trigger]
            groups@[i as int]@[k]).wf() by {}
        }
        let pool: ShardedPinnedPool = build_pool(&groups[i], hint);
        pools.insert(node, pool);
        proof {
            let entry = (node.0, groups@[i as int]@);
            assert(forall|k: int|
                0 <= k < shown.len() ==> (#[trigger] shown[k]).0 == before.pools()[k].0);
            if has_key(shown, node.0) {
                let p = place(shown, node.0);
                assert(is_entry(shown, node.0, p));
                assert(before.serves_node(node, p));
                assert(pool_backings(pools.pools()) =~= shown.update(p, entry));
            } else {
                assert forall|k: int| !#[trigger] before.serves_node(node, k) by {
                    if before.serves_node(node, k) {
                        assert(is_entry(shown, node.0, k));
                    }
                }
                assert(pool_backings(pools.pools()) =~= shown.push(entry));
            }
        }
        i += 1;
    }
    PinnedAllocator::Numa(pools)
}

/// The unit hint for a hint at the size of values.
pub open spec fn unit_hint(value_size_hint: Option<usize>) -> Option<u64> {
    match value_size_hint {
        Some(h) => Some(h as u64),
        None => None,
    }
}

/// Memory is divided without loss of more than rounding: the pools of a plan have no more
/// than the capacity, and every node has as much as every other.
pub proof fn law_nodes_share_equally(
    capacity_bytes: usize,
    numa_nodes: Seq<NumaNode>,
    shards: usize,
    i: int,
    j: int,
)
    requires
        0 <= i < pool_plans(capacity_bytes, numa_nodes, shards).len(),
        0 <= j < pool_plans(capacity_bytes, numa_nodes, shards).len(),
    ensures
        ({
            let pools = pool_plans(capacity_bytes, numa_nodes, shards);
            &&& pools[i].shards == pools[j].shards
            &&& pools[i].shard_bytes == pools[j].shard_bytes
            &&& pools[i].shards * pools[i].shard_bytes <= capacity_bytes
        }),
{
    let count = larger(shards as int, 1);
    let share = if numa_nodes.len() == 0 {
        capacity_bytes as int
    } else {
        lemma_equal_shares(
            numa_nodes,
            (capacity_bytes as int / numa_nodes.len() as int) as usize,
            numa_nodes.len() as int,
        );
        capacity_bytes as int / numa_nodes.len() as int
    };
    assert(0 <= share <= capacity_bytes) by (nonlinear_arith)
        requires
            numa_nodes.len() == 0 && share == capacity_bytes || numa_nodes.len() > 0 && share
                == capacity_bytes as int / numa_nodes.len() as int,
    ;
    assert(0 <= share / count && count * (share / count) <= share) by (nonlinear_arith)
        requires
            count > 0,
            share >= 0,
    ;
    assert(share / count <= share) by (nonlinear_arith)
        requires
            count > 0,
            share >= 0,
    ;
}

proof fn lemma_equal_shares(nodes: Seq<NumaNode>, share: usize, n: int)
    requires
        0 <= n <= nodes.len(),
    ensures
        forall|k: int|
            0 <= k < node_shares(nodes, share, n).len() ==> (#[trigger] node_shares(
                nodes,
                share,
                n,
            )[k]).1 == share && node_shares(nodes, share, n)[k].0.known(),
    decreases n,
{
    if n > 0 {
        lemma_equal_shares(nodes, share, n - 1);
        let front = node_shares(nodes, share, n - 1);
        let all = node_shares(nodes, share, n);
        assert forall|k: int| 0 <= k < all.len() implies (#[trigger] all[k]).1 == share
            && all[k].0.known() by {
            if k < front.len() {
                assert(all[k] == front[k]);
            }
        }
    }
}

/// Memory is divided among the known nodes and among the shards of each, with no more left over
/// than rounding leaves: every known node has a pool, in order, and none has more than its share.
/// Without nodes there is one pool of all memory.
pub proof fn law_all_memory_is_divided(
    capacity_bytes: usize,
    numa_nodes: Seq<NumaNode>,
    shards: usize,
    i: int,
)
    requires
        0 <= i < pool_plans(capacity_bytes, numa_nodes, shards).len(),
    ensures
        ({
            let pools = pool_plans(capacity_bytes, numa_nodes, shards);
            let nodes = if numa_nodes.len() == 0 {
                1
            } else {
                numa_nodes.len() as int
            };
            let count = if shards == 0 {
                1
            } else {
                shards as int
            };
            let per_shard = pools[i].shard_bytes as int;
            &&& pools[i].shards == count
            &&& nodes * (count * per_shard) <= capacity_bytes
            &&& capacity_bytes < nodes * (count * (per_shard + 1))
            &&& numa_nodes.len() == 0 ==> pools.len() == 1 && pools[0].node == NumaNode(
                UNKNOWN_NODE,
            )
            &&& numa_nodes.len() > 0 ==> pools.len() == numa_nodes.filter(
                |n: NumaNode| n.known(),
            ).len() && pools[i].node == numa_nodes.filter(|n: NumaNode| n.known())[i]
        }),
{
    let count = larger(shards as int, 1);
    let nodes = if numa_nodes.len() == 0 {
        1
    } else {
        numa_nodes.len() as int
    };
    let cap = capacity_bytes as int;
    let share = cap / nodes;
    assert(0 <= share && nodes * share <= cap < nodes * (share + 1)) by (nonlinear_arith)
        requires
            nodes >= 1,
            cap >= 0,
            share == cap / nodes,
    ;
    assert(share <= cap) by (nonlinear_arith)
        requires
            nodes >= 1,
            nodes * share <= cap,
            share >= 0,
    ;
    if numa_nodes.len() == 0 {
        assert(cap / 1 == cap);
    } else {
        lemma_shares_of_known(numa_nodes, share as usize, numa_nodes.len() as int);
        assert(numa_nodes.take(numa_nodes.len() as int) =~= numa_nodes);
    }
    let per = share / count;
    assert(per >= 0 && count * per <= share < count * (per + 1)) by (nonlinear_arith)
        requires
            count >= 1,
            share >= 0,
            per == share / count,
    ;
    assert(per <= share) by (nonlinear_arith)
        requires
            count >= 1,
            count * per <= share,
            per >= 0,
    ;
    assert(nodes * (count * per) <= cap && cap < nodes * (count * (per + 1))) by (nonlinear_arith)
        requires
            nodes >= 1,
            nodes * share <= cap,
            cap < nodes * (share + 1),
            count * per <= share,
            share + 1 <= count * (per + 1),
    ;
}

proof fn lemma_shares_of_known(nodes: Seq<NumaNode>, share: usize, n: int)
    requires
        0 <= n <= nodes.len(),
    ensures
        node_shares(nodes, share, n) == nodes.take(n).filter(
            |m: NumaNode| m.known(),
        ).map_values(|m: NumaNode| (m, share)),
    decreases n,
{
    reveal(Seq::filter);
    let known = |m: NumaNode| m.known();
    let entry = |m: NumaNode| (m, share);
    if n > 0 {
        lemma_shares_of_known(nodes, share, n - 1);
        assert(nodes.take(n).drop_last() =~= nodes.take(n - 1));
        assert(nodes.take(n).last() == nodes[n - 1]);
    }
    assert(node_shares(nodes, share, n) =~= nodes.take(n).filter(known).map_values(entry));
}

/// The memory of some shards and of some pools adds up, and pools are shown with all their shards.
pub proof fn law_memory_of_pools_adds_up(
    backings: Seq<PinnedBacking>,
    groups: Seq<Vec<PinnedBacking>>,
    pools: Seq<(u32, ShardedPinnedPool)>,
    texts_of: Seq<String>,
    n: int,
    i: int,
)
    requires
        n > 0,
    ensures
        backing_bytes(backings, 0) == 0,
        backing_bytes(backings, n) == backing_bytes(backings, n - 1) + backings[n - 1].size,
        group_bytes(groups, 0) == 0,
        group_bytes(groups, n) == group_bytes(groups, n - 1) + backing_bytes(
            groups[n - 1]@,
            groups[n - 1]@.len() as int,
        ),
        pool_backings(pools).len() == pools.len(),
        0 <= i < pools.len() ==> pool_backings(pools)[i].0 == pools[i].0 && pool_backings(
            pools,
        )[i].1.len() == pools[i].1.shards().len(),
        texts(texts_of).len() == texts_of.len(),
        0 <= i < texts_of.len() ==> texts(texts_of)[i] == texts_of[i]@,
        unit_hint(None) is None,
        forall|h: usize| #[trigger] unit_hint(Some(h)) == Some(h as u64),
{
}

/// The memory of a node is that of the last pool of it in the plan, and every node with a pool has
/// memory.
pub proof fn law_nodes_have_the_memory_of_their_pool(
    pools: Seq<PoolPlan>,
    groups: Seq<Vec<PinnedBacking>>,
    n: int,
)
    requires
        n > 0,
    ensures
        node_backings(pools, groups, 0).len() == 0,
        has_key(node_backings(pools, groups, n), pools[n - 1].node.0),
        exists|k: int|
            0 <= k < node_backings(pools, groups, n).len() && (#[trigger] node_backings(
                pools,
                groups,
                n,
            )[k]) == (pools[n - 1].node.0, groups[n - 1]@),
        !has_key(node_backings(pools, groups, n - 1), pools[n - 1].node.0) ==> node_backings(
            pools,
            groups,
            n,
        ) == node_backings(pools, groups, n - 1).push((pools[n - 1].node.0, groups[n - 1]@)),
        node_backings(pools, groups, n).len() >= node_backings(pools, groups, n - 1).len(),
{
    let front = node_backings(pools, groups, n - 1);
    let all = node_backings(pools, groups, n);
    let node = pools[n - 1].node.0;
    let k = if has_key(front, node) {
        place(front, node)
    } else {
        front.len() as int
    };
    if has_key(front, node) {
        assert(is_entry(front, node, k));
    }
    assert(all[k] == (node, groups[n - 1]@));
    assert(is_entry(all, node, k));
}

} // verus!
