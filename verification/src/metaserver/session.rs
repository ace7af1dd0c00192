//! The session with the metadata server: heartbeats with backoff, calls of
//! bounded size, and the count of publications that were lost.

use vstd::prelude::*;
use vstd::string::*;
use crate::ids::{is_uuid_text, random_uuid};
use crate::block::byte_views;
use crate::metaserver::batch::{group_views, hash_count, GroupView};
use crate::text::{decimal, decimal_text, join3};

verus! {

/// How many commands may wait by default.
pub const DEFAULT_METASERVER_QUEUE_DEPTH: usize = 4096;

/// How many hashes one call carries at most.
pub const MAX_HASHES_PER_RPC: usize = 16_384;

pub const INITIAL_BACKOFF_MS: u64 = 100;

pub const MAX_BACKOFF_MS: u64 = 30_000;

pub const MIN_HEARTBEAT_INTERVAL_SECS: u64 = 1;

/// How long leaving the server may take, in seconds.
pub const UNREGISTER_TIMEOUT_SECS: u64 = 3;

/// Where the metadata server is, and how this node is reached.
#[derive(Debug)]
pub struct MetaServerClientConfig {
    pub metaserver_addr: String,
    pub advertise_addr: String,
    pub queue_depth: usize,
}

impl MetaServerClientConfig {
    /// A configuration with the default queue depth.
    pub fn new(metaserver_addr: String, advertise_addr: String) -> (r: Self)
        ensures
            r.metaserver_addr == metaserver_addr,
            r.advertise_addr == advertise_addr,
            r.queue_depth == DEFAULT_METASERVER_QUEUE_DEPTH,
    {
        MetaServerClientConfig {
            metaserver_addr,
            advertise_addr,
            queue_depth: DEFAULT_METASERVER_QUEUE_DEPTH,
        }
    }

    /// The configuration with another queue depth.
    pub fn with_queue_depth(self, depth: usize) -> (r: Self)
        ensures
            r.metaserver_addr == self.metaserver_addr,
            r.advertise_addr == self.advertise_addr,
            r.queue_depth == depth,
    {
        MetaServerClientConfig {
            metaserver_addr: self.metaserver_addr,
            advertise_addr: self.advertise_addr,
            queue_depth: depth,
        }
    }
}

/// How many hashes did not reach the server when a call failed at an offset in a
/// group: the rest of that group and all later groups.
pub open spec fn unsent(groups: Seq<GroupView>, failed_idx: int, failed_offset: int) -> int {
    let rest = groups[failed_idx].1.len() - failed_offset;
    hash_count(groups.skip(failed_idx + 1)) + if rest < 0 {
        0
    } else {
        rest
    }
}

proof fn lemma_hash_count_split(groups: Seq<GroupView>, n: int)
    requires
        0 <= n <= groups.len(),
    ensures
        hash_count(groups) == hash_count(groups.take(n)) + hash_count(groups.skip(n)),
    decreases groups.len(),
{
    if n == groups.len() {
        assert(groups.take(n) =~= groups);
        assert(groups.skip(n) =~= Seq::<GroupView>::empty());
    } else {
        let front = groups.drop_last();
        lemma_hash_count_split(front, n);
        assert(front.take(n) =~= groups.take(n));
        assert(front.skip(n) =~= groups.skip(n).drop_last());
        assert(groups.skip(n).last() == groups.last());
    }
}

proof fn lemma_hash_count_step(groups: Seq<GroupView>, n: int)
    requires
        0 <= n < groups.len(),
    ensures
        hash_count(groups.take(n + 1)) == hash_count(groups.take(n)) + groups[n].1.len(),
        hash_count(groups.skip(n)) == groups[n].1.len() + hash_count(groups.skip(n + 1)),
        hash_count(groups.take(n + 1)) <= hash_count(groups),
{
    assert(groups.take(n + 1).drop_last() =~= groups.take(n));
    lemma_hash_count_split(groups, n);
    lemma_hash_count_split(groups, n + 1);
}

/// Counts the hashes that did not reach the server when a call failed at
/// `failed_offset` in group `failed_idx`.
pub fn unsent_after_failure(
    namespaces: &[(String, Vec<Vec<u8>>)],
    failed_idx: usize,
    failed_offset: usize,
) -> (r: usize)
    requires
        failed_idx < namespaces@.len(),
        hash_count(group_views(namespaces@)) <= usize::MAX,
    ensures
        r == unsent(group_views(namespaces@), failed_idx as int, failed_offset as int),
{
    let ghost views = group_views(namespaces@);
    let mut later: usize = 0;
    let mut i: usize = namespaces.len();
    proof {
        lemma_hash_count_split(views, failed_idx as int);
        lemma_hash_count_step(views, failed_idx as int);
        assert(views.skip(views.len() as int) =~= Seq::<GroupView>::empty());
        assert(views[failed_idx as int].1.len() == namespaces@[failed_idx as int].1@.len());
    }
    while i > failed_idx + 1
        invariant
            failed_idx + 1 <= i <= namespaces@.len(),
            views == group_views(namespaces@),
            hash_count(views) <= usize::MAX,
            later == hash_count(views.skip(i as int)),
        decreases i,
    {
        i -= 1;
        proof {
            lemma_hash_count_step(views, i as int);
            lemma_hash_count_split(views, i as int);
            assert(views[i as int].1.len() == namespaces@[i as int].1@.len());
        }
        later = later + namespaces[i].1.len();
    }
    let length: usize = namespaces[failed_idx].1.len();
    let rest: usize = if length < failed_offset {
        0
    } else {
        length - failed_offset
    };
    rest + later
}

/// One call: some consecutive hashes of a group.
#[derive(Clone, Copy, Debug, PartialEq, Eq, Structural)]
pub struct RpcChunk {
    pub group: usize,
    pub offset: usize,
    pub len: usize,
}

/// How many hashes the first `k` calls carry.
pub open spec fn sent(chunks: Seq<RpcChunk>, k: int) -> int
    decreases k,
{
    if k <= 0 {
        0
    } else {
        sent(chunks, k - 1) + chunks[k - 1].len
    }
}

/// Whether a call carries as many hashes of its group as a call may, or the rest.
pub open spec fn chunk_in_order(groups: Seq<GroupView>, chunks: Seq<RpcChunk>, k: int) -> bool {
    let c = chunks[k];
    &&& c.group < groups.len()
    &&& c.offset < groups[c.group as int].1.len()
    &&& c.len == if groups[c.group as int].1.len() - c.offset < MAX_HASHES_PER_RPC {
        groups[c.group as int].1.len() - c.offset
    } else {
        MAX_HASHES_PER_RPC as int
    }
    &&& sent(chunks, k) == hash_count(groups.take(c.group as int)) + c.offset
}

/// Whether calls carry every hash of groups once, in order.
pub open spec fn carry_all(groups: Seq<GroupView>, chunks: Seq<RpcChunk>) -> bool {
    &&& sent(chunks, chunks.len() as int) == hash_count(groups)
    &&& forall|k: int| 0 <= k < chunks.len() ==> #[trigger] chunk_in_order(groups, chunks, k)
}

/// Divides groups into calls of bounded size, in order.
pub fn rpc_chunks(groups: &Vec<(String, Vec<Vec<u8>>)>) -> (r: Vec<RpcChunk>)
    ensures
        carry_all(group_views(groups@), r@),
{
    let ghost views = group_views(groups@);
    let mut out: Vec<RpcChunk> = Vec::new();
    let mut g: usize = 0;
    assert(views.take(0) =~= Seq::<GroupView>::empty());
    while g < groups.len()
        invariant
            g <= groups@.len(),
            views == group_views(groups@),
            sent(out@, out@.len() as int) == hash_count(views.take(g as int)),
            forall|k: int| 0 <= k < out@.len() ==> #[trigger] chunk_in_order(views, out@, k),
        decreases groups@.len() - g,
    {
        let length: usize = groups[g].1.len();
        let mut offset: usize = 0;
        assert(views[g as int].1.len() == length);
        while offset < length
            invariant
                g < groups@.len(),
                views == group_views(groups@),
                views[g as int].1.len() == length,
                offset <= length,
                sent(out@, out@.len() as int) == hash_count(views.take(g as int)) + offset,
                forall|k: int| 0 <= k < out@.len() ==> #[trigger] chunk_in_order(views, out@, k),
            decreases length - offset,
        {
            let len: usize = if length - offset < MAX_HASHES_PER_RPC {
                length - offset
            } else {
                MAX_HASHES_PER_RPC
            };
            let ghost before = out@;
            out.push(RpcChunk { group: g, offset, len });
            proof {
                lemma_sent_prefix(before, out@, before.len() as int);
                assert forall|k: int| 0 <= k < out@.len() implies #[trigger] chunk_in_order(
                    views,
                    out@,
                    k,
                ) by {
                    if k < before.len() {
                        assert(chunk_in_order(views, before, k));
                        lemma_sent_prefix(before, out@, k);
                    }
                }
            }
            offset += len;
        }
        proof {
            lemma_hash_count_step(views, g as int);
        }
        g += 1;
    }
    assert(views.take(g as int) =~= views);
    out
}

proof fn lemma_sent_prefix(a: Seq<RpcChunk>, b: Seq<RpcChunk>, k: int)
    requires
        0 <= k <= a.len() <= b.len(),
        forall|i: int| 0 <= i < a.len() ==> a[i] == b[i],
    ensures
        sent(a, k) == sent(b, k),
    decreases k,
{
    if k > 0 {
        lemma_sent_prefix(a, b, k - 1);
    }
}

/// What the calls before a failed one carried and what is counted as unsent make
/// up everything: nothing is lost from the count, and nothing is counted twice.
pub proof fn law_sent_and_unsent_make_up_all(
    groups: Seq<GroupView>,
    chunks: Seq<RpcChunk>,
    k: int,
)
    requires
        0 <= k < chunks.len(),
        chunk_in_order(groups, chunks, k),
    ensures
        sent(chunks, k) + unsent(groups, chunks[k].group as int, chunks[k].offset as int)
            == hash_count(groups),
{
    let g = chunks[k].group as int;
    lemma_hash_count_split(groups, g);
    lemma_hash_count_step(groups, g);
}

/// The hashes that a call carries.
pub fn chunk_hashes(groups: &Vec<(String, Vec<Vec<u8>>)>, chunk: &RpcChunk) -> (r: Vec<Vec<u8>>)
    requires
        chunk.group < groups@.len(),
        chunk.offset + chunk.len <= groups@[chunk.group as int].1@.len(),
    ensures
        byte_views(r@) == byte_views(groups@[chunk.group as int].1@).subrange(
            chunk.offset as int,
            chunk.offset + chunk.len,
        ),
{
    let hashes: &Vec<Vec<u8>> = &groups[chunk.group].1;
    let mut out: Vec<Vec<u8>> = Vec::new();
    let mut i: usize = 0;
    let ghost all = byte_views(hashes@);
    while i < chunk.len
        invariant
            i <= chunk.len,
            all == byte_views(hashes@),
            chunk.offset + chunk.len <= hashes.len(),
            byte_views(out@) == all.subrange(chunk.offset as int, chunk.offset + i),
        decreases chunk.len - i,
    {
        let ghost shown = byte_views(out@);
        out.push(crate::block::copy_bytes(&hashes[chunk.offset + i]));
        i += 1;
        proof {
            assert(byte_views(out@) =~= shown.push(all[chunk.offset + i - 1]));
            assert(all.subrange(chunk.offset as int, chunk.offset + i) =~= shown.push(
                all[chunk.offset + i - 1],
            ));
        }
    }
    out
}

/// How often the node reports: half as often as it would be taken for lost, but
/// not more often than the least interval. In seconds.
pub open spec fn heartbeat_period(stale_after_secs: u64) -> u64 {
    if stale_after_secs / 2 < MIN_HEARTBEAT_INTERVAL_SECS {
        MIN_HEARTBEAT_INTERVAL_SECS
    } else {
        stale_after_secs / 2
    }
}

/// How often the node reports, in seconds.
pub fn heartbeat_period_from_stale_after(stale_after_secs: u64) -> (r: u64)
    ensures
        r == heartbeat_period(stale_after_secs),
{
    let half: u64 = stale_after_secs / 2;
    if half < MIN_HEARTBEAT_INTERVAL_SECS {
        MIN_HEARTBEAT_INTERVAL_SECS
    } else {
        half
    }
}

/// Where the node stands with the server. Times are in milliseconds.
#[derive(Clone, Copy, Debug, PartialEq, Eq, Structural)]
pub struct HeartbeatState {
    /// Whether the server knows this session.
    pub node_registered: bool,
    /// How long to wait after the next failure.
    pub backoff_ms: u64,
    /// How often to report.
    pub period_ms: u64,
    /// When to report next.
    pub next_at: u64,
}

/// The wait after the one of `backoff_ms`.
pub open spec fn next_backoff(backoff_ms: u64) -> u64 {
    if backoff_ms * 2 > MAX_BACKOFF_MS {
        MAX_BACKOFF_MS
    } else {
        (backoff_ms * 2) as u64
    }
}

impl HeartbeatState {
    /// Whether the wait is within its bounds.
    pub open spec fn wf(self) -> bool {
        INITIAL_BACKOFF_MS <= self.backoff_ms <= MAX_BACKOFF_MS
    }

    /// An unknown node that reports at once.
    pub fn new(now: u64) -> (r: Self)
        ensures
            r.wf(),
            !r.node_registered,
            r.backoff_ms == INITIAL_BACKOFF_MS,
            r.period_ms == MIN_HEARTBEAT_INTERVAL_SECS * 1000,
            r.next_at == now,
    {
        HeartbeatState {
            node_registered: false,
            backoff_ms: INITIAL_BACKOFF_MS,
            period_ms: MIN_HEARTBEAT_INTERVAL_SECS * 1000,
            next_at: now,
        }
    }

    /// How long to wait now; the next wait is twice as long, up to the bound.
    pub fn advance_backoff(&mut self) -> (delay_ms: u64)
        requires
            old(self).wf(),
        ensures
            final(self).wf(),
            delay_ms == old(self).backoff_ms,
            *final(self) == (HeartbeatState {
                backoff_ms: next_backoff(old(self).backoff_ms),
                ..*old(self)
            }),
    {
        let delay_ms: u64 = self.backoff_ms;
        let doubled: u64 = delay_ms * 2;
        self.backoff_ms = if doubled > MAX_BACKOFF_MS {
            MAX_BACKOFF_MS
        } else {
            doubled
        };
        delay_ms
    }
}

/// What has to come before hashes can be sent.
#[derive(Clone, Copy, Debug, PartialEq, Eq, Structural)]
pub enum Readiness {
    /// Nothing: the session stands.
    Ready,
    /// A connection, and then a heartbeat.
    Connect,
    /// A heartbeat.
    Heartbeat,
    /// Nothing can be done before the next attempt is due.
    NotYet,
}

/// The session with the metadata server.
#[derive(Debug)]
pub struct MetaServerSession {
    node_id: String,
    heartbeat: HeartbeatState,
    connected: bool,
    publication_failures: u64,
}

/// `a + b`, or the most that can be counted.
pub open spec fn capped_sum(a: u64, b: int) -> u64 {
    if a + b > u64::MAX {
        u64::MAX
    } else {
        (a + b) as u64
    }
}

impl MetaServerSession {
    /// How the server tells this session from others of the node.
    pub closed spec fn node_id(self) -> Seq<char> {
        self.node_id@
    }

    /// Where the node stands with the server.
    pub closed spec fn heartbeat(self) -> HeartbeatState {
        self.heartbeat
    }

    /// Whether there is a connection.
    pub closed spec fn connected(self) -> bool {
        self.connected
    }

    /// How many publications were lost, as far as they can be counted: a loss is never
    /// forgotten.
    pub closed spec fn failures(self) -> u64 {
        self.publication_failures
    }

    /// The session has an identifier, and the wait is within its bounds.
    pub open spec fn wf(self) -> bool {
        self.heartbeat().wf() && is_uuid_text(self.node_id())
    }

    /// A session that the server does not know yet, under a random identifier.
    pub fn new(now: u64) -> (r: Self)
        ensures
            r.wf(),
            is_uuid_text(r.node_id()),
            !r.connected(),
            r.failures() == 0,
            r.heartbeat() == (HeartbeatState {
                node_registered: false,
                backoff_ms: INITIAL_BACKOFF_MS,
                period_ms: (MIN_HEARTBEAT_INTERVAL_SECS * 1000) as u64,
                next_at: now,
            }),
    {
        MetaServerSession {
            node_id: random_uuid(),
            heartbeat: HeartbeatState::new(now),
            connected: false,
            publication_failures: 0,
        }
    }

    /// How the server tells this session from others of the node.
    pub fn session_id(&self) -> (r: &str)
        ensures
            r@ == self.node_id(),
    {
        self.node_id.as_str()
    }

    /// When to report next.
    pub fn next_heartbeat_at(&self) -> (r: u64)
        ensures
            r == self.heartbeat().next_at,
    {
        self.heartbeat.next_at
    }

    /// What a heartbeat that is due starts with.
    pub fn heartbeat_due(&self) -> (r: Readiness)
        ensures
            r == (if self.connected() {
                Readiness::Heartbeat
            } else {
                Readiness::Connect
            }),
    {
        if self.connected {
            Readiness::Heartbeat
        } else {
            Readiness::Connect
        }
    }

    /// What has to come before hashes can be sent at the time `now`. A session
    /// that does not stand is set up at once, unless a wait is running.
    pub fn ensure_heartbeat_registered(&self, now: u64) -> (r: Readiness)
        ensures
            r == (if self.heartbeat().node_registered && self.connected() {
                Readiness::Ready
            } else if now < self.heartbeat().next_at {
                Readiness::NotYet
            } else if self.connected() {
                Readiness::Heartbeat
            } else {
                Readiness::Connect
            }),
    {
        if self.heartbeat.node_registered && self.connected {
            Readiness::Ready
        } else if now < self.heartbeat.next_at {
            Readiness::NotYet
        } else {
            self.heartbeat_due()
        }
    }

    /// A connection was made.
    pub fn on_connected(&mut self)
        requires
            old(self).wf(),
        ensures
            final(self).wf(),
            final(self).connected(),
            final(self).node_id() == old(self).node_id(),
            final(self).failures() == old(self).failures(),
            final(self).heartbeat() == (HeartbeatState {
                backoff_ms: INITIAL_BACKOFF_MS,
                ..old(self).heartbeat()
            }),
    {
        self.connected = true;
        self.heartbeat.backoff_ms = INITIAL_BACKOFF_MS;
    }

    /// No connection could be made at the time `now`.
    pub fn on_connect_failed(&mut self, now: u64)
        requires
            old(self).wf(),
            now + MAX_BACKOFF_MS <= u64::MAX,
        ensures
            final(self).wf(),
            final(self).connected() == old(self).connected(),
            final(self).node_id() == old(self).node_id(),
            final(self).failures() == old(self).failures(),
            final(self).heartbeat() == (HeartbeatState {
                backoff_ms: next_backoff(old(self).heartbeat().backoff_ms),
                next_at: (now + old(self).heartbeat().backoff_ms) as u64,
                ..old(self).heartbeat()
            }),
    {
        let delay: u64 = self.heartbeat.advance_backoff();
        self.heartbeat.next_at = now + delay;
    }

    /// A heartbeat was accepted at the time `now`.
    pub fn on_heartbeat(&mut self, stale_after_secs: u64, now: u64)
        requires
            old(self).wf(),
            now + heartbeat_period(stale_after_secs) * 1000 <= u64::MAX,
        ensures
            final(self).wf(),
            final(self).connected() == old(self).connected(),
            final(self).node_id() == old(self).node_id(),
            final(self).failures() == old(self).failures(),
            final(self).heartbeat() == (HeartbeatState {
                node_registered: true,
                backoff_ms: INITIAL_BACKOFF_MS,
                period_ms: (heartbeat_period(stale_after_secs) * 1000) as u64,
                next_at: (now + heartbeat_period(stale_after_secs) * 1000) as u64,
            }),
    {
        let period_ms: u64 = heartbeat_period_from_stale_after(stale_after_secs) * 1000;
        self.heartbeat.node_registered = true;
        self.heartbeat.backoff_ms = INITIAL_BACKOFF_MS;
        self.heartbeat.period_ms = period_ms;
        self.heartbeat.next_at = now + period_ms;
    }

    /// A heartbeat failed at the time `now`. Where the server rejected the session
    /// it has to be set up anew; the connection is given up in any case.
    pub fn on_heartbeat_failed(&mut self, rejected: bool, now: u64)
        requires
            old(self).wf(),
            now + MAX_BACKOFF_MS <= u64::MAX,
        ensures
            final(self).wf(),
            !final(self).connected(),
            final(self).node_id() == old(self).node_id(),
            final(self).failures() == old(self).failures(),
            final(self).heartbeat() == (HeartbeatState {
                node_registered: old(self).heartbeat().node_registered && !rejected,
                backoff_ms: next_backoff(old(self).heartbeat().backoff_ms),
                next_at: (now + old(self).heartbeat().backoff_ms) as u64,
                ..old(self).heartbeat()
            }),
    {
        if rejected {
            self.heartbeat.node_registered = false;
        }
        self.connected = false;
        let delay: u64 = self.heartbeat.advance_backoff();
        self.heartbeat.next_at = now + delay;
    }

    fn lose(&mut self, count: usize)
        ensures
            final(self).node_id() == old(self).node_id(),
            final(self).heartbeat() == old(self).heartbeat(),
            final(self).connected() == old(self).connected(),
            final(self).failures() == capped_sum(old(self).failures(), count as int),
    {
        self.publication_failures = self.publication_failures.saturating_add(count as u64);
    }

    /// A batch of `count` publications could not be queued.
    pub fn on_register_dropped(&mut self, count: usize)
        requires
            old(self).wf(),
        ensures
            final(self).wf(),
            final(self).node_id() == old(self).node_id(),
            final(self).heartbeat() == old(self).heartbeat(),
            final(self).connected() == old(self).connected(),
            final(self).failures() == capped_sum(old(self).failures(), count as int),
    {
        self.lose(count);
    }

    /// A drain found no session to publish in: its publications are lost, and
    /// those who wait for them are told so.
    pub fn on_not_registered(&mut self, insert_total: usize) -> (r: String)
        requires
            old(self).wf(),
        ensures
            final(self).wf(),
            final(self).node_id() == old(self).node_id(),
            final(self).heartbeat() == old(self).heartbeat(),
            final(self).connected() == old(self).connected(),
            final(self).failures() == capped_sum(old(self).failures(), insert_total as int),
            r@ == "MetaServer node is not registered; publications are not visible"@,
    {
        self.lose(insert_total);
        String::from_str("MetaServer node is not registered; publications are not visible")
    }

    /// A call to insert hashes failed: what was not sent is lost, the connection is
    /// given up, and those who wait are told how much was lost.
    pub fn on_insert_failed(
        &mut self,
        groups: &Vec<(String, Vec<Vec<u8>>)>,
        chunk: &RpcChunk,
        rejected: bool,
    ) -> (r: (usize, String))
        requires
            old(self).wf(),
            chunk.group < groups@.len(),
            hash_count(group_views(groups@)) <= usize::MAX,
        ensures
            final(self).wf(),
            final(self).node_id() == old(self).node_id(),
            !final(self).connected(),
            final(self).heartbeat() == (HeartbeatState {
                node_registered: old(self).heartbeat().node_registered && !rejected,
                ..old(self).heartbeat()
            }),
            r.0 == unsent(group_views(groups@), chunk.group as int, chunk.offset as int),
            final(self).failures() == capped_sum(old(self).failures(), r.0 as int),
            r.1@ == "MetaServer publication failed with "@ + decimal(r.0 as nat)
                + " block hashes unsent"@,
    {
        if rejected {
            self.heartbeat.node_registered = false;
        }
        let dropped: usize = unsent_after_failure(groups, chunk.group, chunk.offset);
        self.lose(dropped);
        self.connected = false;
        (
            dropped,
            join3(
                "MetaServer publication failed with ",
                &decimal_text(dropped as u64),
                " block hashes unsent",
            ),
        )
    }

    /// A call to remove hashes failed. No publication is lost by that.
    pub fn on_remove_failed(
        &mut self,
        groups: &Vec<(String, Vec<Vec<u8>>)>,
        chunk: &RpcChunk,
        rejected: bool,
    ) -> (r: (usize, String))
        requires
            old(self).wf(),
            chunk.group < groups@.len(),
            hash_count(group_views(groups@)) <= usize::MAX,
        ensures
            final(self).wf(),
            final(self).node_id() == old(self).node_id(),
            !final(self).connected(),
            final(self).heartbeat() == (HeartbeatState {
                node_registered: old(self).heartbeat().node_registered && !rejected,
                ..old(self).heartbeat()
            }),
            final(self).failures() == old(self).failures(),
            r.0 == unsent(group_views(groups@), chunk.group as int, chunk.offset as int),
            r.1@ == "MetaServer removal failed with "@ + decimal(r.0 as nat)
                + " block hashes unsent"@,
    {
        if rejected {
            self.heartbeat.node_registered = false;
        }
        let dropped: usize = unsent_after_failure(groups, chunk.group, chunk.offset);
        self.connected = false;
        (
            dropped,
            join3(
                "MetaServer removal failed with ",
                &decimal_text(dropped as u64),
                " block hashes unsent",
            ),
        )
    }

    /// What a barrier that was reached reports: it fails for good once any
    /// publication was lost.
    pub fn flush(&self) -> (r: Result<(), String>)
        ensures
            r is Ok == (self.failures() == 0),
            r matches Err(m) ==> m@ == "MetaServer publication barrier observed "@ + decimal(
                self.failures() as nat,
            ) + " previously lost block hashes"@,
    {
        if self.publication_failures > 0 {
            return Err(
                join3(
                    "MetaServer publication barrier observed ",
                    &decimal_text(self.publication_failures),
                    " previously lost block hashes",
                ),
            );
        }
        Ok(())
    }
}

/// The wait after `n` failures in a row.
pub open spec fn backoff_after(n: nat) -> u64
    decreases n,
{
    if n == 0 {
        INITIAL_BACKOFF_MS
    } else {
        next_backoff(backoff_after((n - 1) as nat))
    }
}

/// Waits never shrink, and never leave their bounds.
pub proof fn law_backoff_grows_to_its_bound(n: nat)
    ensures
        INITIAL_BACKOFF_MS <= backoff_after(n) <= backoff_after(n + 1) <= MAX_BACKOFF_MS,
        n >= 9 ==> backoff_after(n) == MAX_BACKOFF_MS,
    decreases n,
{
    reveal_with_fuel(backoff_after, 11);
    if n > 0 {
        law_backoff_grows_to_its_bound((n - 1) as nat);
    }
}

/// A node reports about twice in the time after which it would be taken for lost, and at least
/// once a second.
pub proof fn law_nodes_report_twice_before_they_are_lost(stale_after_secs: u64)
    ensures
        heartbeat_period(stale_after_secs) >= 1,
        stale_after_secs >= 2 ==> 2 * heartbeat_period(stale_after_secs) <= stale_after_secs
            < 2 * heartbeat_period(stale_after_secs) + 2,
        stale_after_secs < 2 ==> heartbeat_period(stale_after_secs) == 1,
{
}

/// The first wait is a tenth of a second, each further one is twice as long as the one before it,
/// and none is longer than half a minute.
pub proof fn law_waits_double_up_to_half_a_minute(n: nat)
    ensures
        backoff_after(0) == 100,
        backoff_after(n) <= 30_000,
        2 * backoff_after(n) <= 30_000 ==> backoff_after(n + 1) == 2 * backoff_after(n),
        2 * backoff_after(n) > 30_000 ==> backoff_after(n + 1) == 30_000,
        backoff_after(n + 1) == next_backoff(backoff_after(n)),
{
    law_backoff_grows_to_its_bound(n);
}

/// Losses add up exactly, as far as they can be counted, and are never taken back.
pub proof fn law_losses_add_up(a: u64, b: int)
    requires
        b >= 0,
    ensures
        a + b <= u64::MAX ==> capped_sum(a, b) == a + b,
        a + b > u64::MAX ==> capped_sum(a, b) == u64::MAX,
        capped_sum(a, b) >= a,
{
}

proof fn lemma_sent_in_front(chunks: Seq<RpcChunk>, k: int, n: int)
    requires
        0 <= k <= n <= chunks.len(),
    ensures
        sent(chunks, k) <= sent(chunks, n),
    decreases n,
{
    if k < n {
        lemma_sent_in_front(chunks, k, n - 1);
    }
}

proof fn lemma_counted_in_front(groups: Seq<GroupView>, m: int, n: int)
    requires
        0 <= m <= n <= groups.len(),
    ensures
        hash_count(groups.take(m)) <= hash_count(groups.take(n)),
        m < groups.len() ==> hash_count(groups.take(m + 1)) == hash_count(groups.take(m))
            + groups[m].1.len(),
    decreases n,
{
    if m < groups.len() {
        assert(groups.take(m + 1).drop_last() =~= groups.take(m));
        assert(groups.take(m + 1).last() == groups[m]);
    }
    if m < n {
        lemma_counted_in_front(groups, m, n - 1);
        assert(groups.take(n).drop_last() =~= groups.take(n - 1));
    }
}

/// Every call carries at least one hash and no more than the bound, and only the last call of a
/// group carries fewer. No two calls carry the same place of a group, and they go through the
/// groups in order.
pub proof fn law_calls_are_bounded_and_apart(
    groups: Seq<GroupView>,
    chunks: Seq<RpcChunk>,
    i: int,
    j: int,
)
    requires
        carry_all(groups, chunks),
        0 <= i < j < chunks.len(),
    ensures
        0 < chunks[i].len <= 16_384,
        chunks[i].offset + chunks[i].len <= groups[chunks[i].group as int].1.len(),
        chunks[i].len < 16_384 ==> chunks[i].offset + chunks[i].len
            == groups[chunks[i].group as int].1.len(),
        chunks[i].group <= chunks[j].group,
        chunks[i].group == chunks[j].group ==> chunks[i].offset + chunks[i].len <= chunks[j].offset,
{
    assert(chunk_in_order(groups, chunks, i));
    assert(chunk_in_order(groups, chunks, j));
    lemma_sent_in_front(chunks, i + 1, j);
    let a = chunks[i].group as int;
    let b = chunks[j].group as int;
    lemma_counted_in_front(groups, a, a);
    lemma_counted_in_front(groups, b, b);
    if b < a {
        lemma_counted_in_front(groups, b + 1, a);
    }
}

} // verus!
