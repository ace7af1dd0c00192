//! Preparing batches: which NIC and which queue pair carries each transfer, and
//! with which keys.

use vstd::multiset::Multiset;
use vstd::prelude::*;
use vstd::string::*;
use crate::keyed::{as_map, lemma_update, lookup};
use crate::numa::NumaNode;
use crate::text::join2;
use crate::transfer::engine::{
    covering, law_no_region_around_means_none, law_the_first_region_around_counts, peer_added,
    ConnView, MrKeys, TransferEngine,
};
use crate::transfer::handshake::{backend_error, refused, NicHandshake, TransferError};
use crate::transfer::nics::{
    after_pick, current, group_of, groups_below, lemma_group_of, lemma_pick, next_turn, picked,
    turned, RoundRobinView,
};
use crate::transfer::state::{
    access_key, law_key_is_of_the_region_around, law_no_key_outside_regions, sorted_apart,
    PerNicState,
};
use crate::transfer::types::{TransferDesc, TransferOp};

verus! {

/// One transfer with the keys that it needs.
#[derive(Clone, Copy, Debug, PartialEq, Eq, Structural)]
pub struct RdmaOp {
    pub local_lkey: u32,
    pub local_ptr: u64,
    pub remote_ptr: u64,
    pub len: usize,
    pub remote_rkey: u32,
}

/// The transfers of one queue pair.
#[derive(Debug)]
pub struct QpWork {
    pub nic: usize,
    pub qp_num: u32,
    pub ops: Vec<RdmaOp>,
}

/// The transfers of one queue pair.
#[verifier::ext_equal]
pub struct WorkView {
    pub nic: usize,
    pub qp_num: u32,
    pub ops: Seq<RdmaOp>,
}

impl View for QpWork {
    type V = WorkView;

    open spec fn view(&self) -> WorkView {
        WorkView { nic: self.nic, qp_num: self.qp_num, ops: self.ops@ }
    }
}

/// A batch that only has to be posted.
#[derive(Debug)]
pub struct PreparedTransferBatch {
    pub op: TransferOp,
    pub work: Vec<QpWork>,
    pub descriptor_count: usize,
}

/// The work of a batch.
pub open spec fn work_views(work: Seq<QpWork>) -> Seq<WorkView> {
    work.map_values(|w: QpWork| w@)
}

/// The turns after NICs were assigned to the first `n` transfers, whose local
/// memory is on `nodes`.
pub open spec fn turns_after(v: RoundRobinView, nodes: Seq<NumaNode>, n: int) -> RoundRobinView
    decreases n,
{
    if n <= 0 {
        v
    } else {
        let before = turns_after(v, nodes, n - 1);
        if v.single_numa {
            RoundRobinView { fallback: turned(before.fallback), ..before }
        } else {
            after_pick(before, nodes[n - 1])
        }
    }
}

/// The NIC of transfer `i`: the next one in turn where all NICs are on one node,
/// and one on the node of the local memory otherwise.
pub open spec fn nic_for(v: RoundRobinView, nodes: Seq<NumaNode>, i: int) -> usize {
    let before = turns_after(v, nodes, i);
    if v.single_numa {
        current(before.fallback)
    } else {
        picked(before, nodes[i])
    }
}

/// The transfers among the first `n` that a NIC carries.
pub open spec fn carried(
    v: RoundRobinView,
    nodes: Seq<NumaNode>,
    descs: Seq<TransferDesc>,
    nic: int,
    n: int,
) -> Seq<TransferDesc>
    decreases n,
{
    if n <= 0 {
        Seq::empty()
    } else {
        let front = carried(v, nodes, descs, nic, n - 1);
        if nic_for(v, nodes, n - 1) == nic {
            front.push(descs[n - 1])
        } else {
            front
        }
    }
}

/// Why a transfer cannot be made.
pub enum OpFault {
    ZeroLength,
    LocalMemory { ptr: u64 },
    RemoteMemory,
}

/// Whether an error is the one for a fault.
pub open spec fn is_fault(e: TransferError, f: OpFault) -> bool {
    match f {
        OpFault::ZeroLength => refused(e, "len must be non-zero"@),
        OpFault::LocalMemory { ptr } => e == (TransferError::MemoryNotRegistered { ptr }),
        OpFault::RemoteMemory => refused(e, "remote memory not found in handshake snapshot"@),
    }
}

/// The key for access to a peer's memory through a NIC.
pub open spec fn remote_key(nic: PerNicState, first_qpn: u32, ptr: u64, len: nat) -> Option<u32> {
    if nic.memory_map().contains_key(first_qpn) {
        access_key(nic.memory_map()[first_qpn], ptr, len)
    } else {
        None
    }
}

/// Why a transfer cannot be made through a NIC, if it cannot.
pub open spec fn op_fault(
    engine: TransferEngine,
    nic: int,
    first_qpn: u32,
    d: TransferDesc,
) -> Option<OpFault> {
    if d.len == 0 {
        Some(OpFault::ZeroLength)
    } else if covering(engine.regions(), d.local_ptr, d.len as nat) is None {
        Some(OpFault::LocalMemory { ptr: d.local_ptr })
    } else if remote_key(engine.nics@[nic], first_qpn, d.remote_ptr, d.len as nat) is None {
        Some(OpFault::RemoteMemory)
    } else {
        None
    }
}

/// A transfer with its keys.
pub open spec fn op_of(
    engine: TransferEngine,
    nic: int,
    first_qpn: u32,
    d: TransferDesc,
) -> RdmaOp {
    let region = covering(engine.regions(), d.local_ptr, d.len as nat)->0;
    RdmaOp {
        local_lkey: engine.regions()[region].1.mrs[nic].lkey,
        local_ptr: d.local_ptr,
        remote_ptr: d.remote_ptr,
        len: d.len,
        remote_rkey: remote_key(engine.nics@[nic], first_qpn, d.remote_ptr, d.len as nat)->0,
    }
}

/// The first transfer of a NIC that cannot be made.
pub open spec fn first_fault(
    engine: TransferEngine,
    nic: int,
    first_qpn: u32,
    descs: Seq<TransferDesc>,
) -> Option<OpFault>
    decreases descs.len(),
{
    if descs.len() == 0 {
        None
    } else if first_fault(engine, nic, first_qpn, descs.drop_last()) is Some {
        first_fault(engine, nic, first_qpn, descs.drop_last())
    } else {
        op_fault(engine, nic, first_qpn, descs.last())
    }
}

/// The transfers of a NIC with their keys.
pub open spec fn ops_of(
    engine: TransferEngine,
    nic: int,
    first_qpn: u32,
    descs: Seq<TransferDesc>,
) -> Seq<RdmaOp> {
    descs.map_values(|d: TransferDesc| op_of(engine, nic, first_qpn, d))
}

/// The queue pair, of `n`, that transfer `i` of a NIC goes to.
pub open spec fn bucket_of(rotation: usize, i: int, n: int) -> int {
    let sum = rotation + i;
    (if sum > usize::MAX {
        sum - usize::MAX - 1
    } else {
        sum
    }) % n
}

/// The transfers of queue pair `q`.
pub open spec fn bucket(ops: Seq<RdmaOp>, rotation: usize, n: int, q: int) -> Seq<RdmaOp>
    decreases ops.len(),
{
    if ops.len() == 0 {
        Seq::empty()
    } else {
        let front = bucket(ops.drop_last(), rotation, n, q);
        if bucket_of(rotation, ops.len() - 1, n) == q {
            front.push(ops.last())
        } else {
            front
        }
    }
}

/// The work of the first `m` queue pairs of a NIC, without those that have none.
pub open spec fn nic_work(
    nic: int,
    sessions: Seq<u32>,
    ops: Seq<RdmaOp>,
    rotation: usize,
    m: int,
) -> Seq<WorkView>
    decreases m,
{
    if m <= 0 {
        Seq::empty()
    } else {
        let front = nic_work(nic, sessions, ops, rotation, m - 1);
        let own = bucket(ops, rotation, sessions.len() as int, m - 1);
        if own.len() > 0 {
            front.push(
                WorkView { nic: nic as usize, qp_num: sessions[m - 1], ops: own },
            )
        } else {
            front
        }
    }
}

/// At which queue pair the transfers of a NIC begin.
pub open spec fn rotation_of(conn: ConnView, nic: int, qp_rotation: Option<usize>) -> usize {
    match qp_rotation {
        Some(r) => r,
        None => conn.turns[nic],
    }
}

/// The queue pairs that are connected to a peer through a NIC.
pub open spec fn peer_sessions(engine: TransferEngine, conn: ConnView, nic: int) -> Seq<u32> {
    engine.nics@[nic].session_map()[conn.first_qpns[nic]]
}

/// The first transfer that cannot be made through one of the first `k` NICs.
pub open spec fn batch_fault(
    engine: TransferEngine,
    conn: ConnView,
    nodes: Seq<NumaNode>,
    descs: Seq<TransferDesc>,
    k: int,
) -> Option<OpFault>
    decreases k,
{
    if k <= 0 {
        None
    } else if batch_fault(engine, conn, nodes, descs, k - 1) is Some {
        batch_fault(engine, conn, nodes, descs, k - 1)
    } else {
        first_fault(
            engine,
            k - 1,
            conn.first_qpns[k - 1],
            carried(engine.numa_rr@, nodes, descs, k - 1, descs.len() as int),
        )
    }
}

/// The work of the first `k` NICs.
pub open spec fn batch_work(
    engine: TransferEngine,
    conn: ConnView,
    nodes: Seq<NumaNode>,
    descs: Seq<TransferDesc>,
    qp_rotation: Option<usize>,
    k: int,
) -> Seq<WorkView>
    decreases k,
{
    if k <= 0 {
        Seq::empty()
    } else {
        let own = carried(engine.numa_rr@, nodes, descs, k - 1, descs.len() as int);
        batch_work(engine, conn, nodes, descs, qp_rotation, k - 1) + if own.len() == 0 {
            Seq::<WorkView>::empty()
        } else {
            let sessions = peer_sessions(engine, conn, k - 1);
            nic_work(
                k - 1,
                sessions,
                ops_of(engine, k - 1, conn.first_qpns[k - 1], own),
                rotation_of(conn, k - 1, qp_rotation),
                sessions.len() as int,
            )
        }
    }
}

/// Whether a connection, if there is one, has queue pairs on every NIC.
pub open spec fn ready(engine: TransferEngine, addr: Seq<char>) -> bool {
    lookup(engine.conns(), addr) matches Some(conn) ==> forall|k: int|
        0 <= k < engine.nics@.len() ==> {
            &&& (#[trigger] engine.nics@[k]).session_map().contains_key(conn.first_qpns[k])
            &&& engine.nics@[k].session_map()[conn.first_qpns[k]].len() > 0
        }
}

proof fn lemma_turns(v: RoundRobinView, nodes: Seq<NumaNode>, n: int, nics: int)
    requires
        groups_below(v, nics),
        0 <= n,
    ensures
        groups_below(turns_after(v, nodes, n), nics),
        turns_after(v, nodes, n).single_numa == v.single_numa,
    decreases n,
{
    if n > 0 {
        lemma_turns(v, nodes, n - 1, nics);
        let before = turns_after(v, nodes, n - 1);
        lemma_pick(before, nodes[n - 1], nics);
    }
}

proof fn lemma_first_fault_stays(
    engine: TransferEngine,
    nic: int,
    first_qpn: u32,
    descs: Seq<TransferDesc>,
    n: int,
)
    requires
        0 <= n <= descs.len(),
    ensures
        first_fault(engine, nic, first_qpn, descs.take(n)) is Some ==> first_fault(
            engine,
            nic,
            first_qpn,
            descs,
        ) == first_fault(engine, nic, first_qpn, descs.take(n)),
    decreases descs.len() - n,
{
    if n < descs.len() {
        lemma_first_fault_stays(engine, nic, first_qpn, descs, n + 1);
        assert(descs.take(n + 1).drop_last() =~= descs.take(n));
    } else {
        assert(descs.take(n) =~= descs);
    }
}

/// The turn of a NIC's queue pairs after a batch: it is one further where the NIC
/// carries something, unless the rotation was given or a transfer of an earlier NIC
/// cannot be made.
pub open spec fn turned_queue_pairs(
    engine: TransferEngine,
    conn: ConnView,
    nodes: Seq<NumaNode>,
    descs: Seq<TransferDesc>,
    qp_rotation: Option<usize>,
    nic: int,
) -> usize {
    if qp_rotation is None && batch_fault(engine, conn, nodes, descs, nic) is None && carried(
        engine.numa_rr@,
        nodes,
        descs,
        nic,
        descs.len() as int,
    ).len() > 0 {
        next_turn(conn.turns[nic])
    } else {
        conn.turns[nic]
    }
}

impl TransferEngine {
    /// Whether a connection, if there is one, has queue pairs on every NIC.
    pub fn is_ready(&self, remote_addr: &str) -> (r: bool)
        requires
            self.wf(),
        ensures
            r == ready(*self, remote_addr@),
    {
        let i: usize = match self.find_connection(remote_addr) {
            Some(i) => i,
            None => {
                return true;
            },
        };
        assert(self.addr_connections@[i as int].1.remote_first_qpns@.len() == self.nics@.len());
        let ghost conn = lookup(self.conns(), remote_addr@)->0;
        let mut k: usize = 0;
        while k < self.nics.len()
            invariant
                self.wf(),
                k <= self.nics@.len(),
                i < self.addr_connections@.len(),
                conn == self.addr_connections@[i as int].1@,
                lookup(self.conns(), remote_addr@) == Some(conn),
                conn.first_qpns.len() == self.nics@.len(),
                forall|q: int|
                    0 <= q < k ==> {
                        &&& (#[trigger] self.nics@[q]).session_map().contains_key(
                            conn.first_qpns[q],
                        )
                        &&& self.nics@[q].session_map()[conn.first_qpns[q]].len() > 0
                    },
            decreases self.nics@.len() - k,
        {
            assert(self.nics@[k as int].wf());
            let first: u32 = self.addr_connections[i].1.remote_first_qpns[k];
            let present: bool = match self.nics[k].sessions_of(first) {
                Some(sessions) => sessions.len() > 0,
                None => false,
            };
            if !present {
                assert(!(self.nics@[k as int].session_map().contains_key(conn.first_qpns[k as int])
                    && self.nics@[k as int].session_map()[conn.first_qpns[k as int]].len() > 0));
                return false;
            }
            k += 1;
        }
        true
    }

    /// Assigns a NIC to each transfer.
    fn assign_nics(&mut self, descs: &[TransferDesc], nodes: &[NumaNode]) -> (r: Vec<
        Vec<TransferDesc>,
    >)
        requires
            old(self).wf(),
            !old(self).numa_rr.single_numa ==> nodes@.len() == descs@.len(),
        ensures
            final(self).wf(),
            final(self).nics == old(self).nics,
            final(self).registered == old(self).registered,
            final(self).addr_connections == old(self).addr_connections,
            final(self).connecting == old(self).connecting,
            final(self).qps_per_peer == old(self).qps_per_peer,
            final(self).psn_counter == old(self).psn_counter,
            final(self).numa_rr@ == turns_after(old(self).numa_rr@, nodes@, descs@.len() as int),
            r@.len() == old(self).nics@.len(),
            forall|k: int|
                0 <= k < r@.len() ==> (#[trigger] r@[k])@ == carried(
                    old(self).numa_rr@,
                    nodes@,
                    descs@,
                    k,
                    descs@.len() as int,
                ),
    {
        let ghost v = self.numa_rr@;
        let n: usize = self.nics.len();
        let mut per_nic: Vec<Vec<TransferDesc>> = Vec::new();
        let mut k: usize = 0;
        while k < n
            invariant
                k <= n,
                per_nic@.len() == k,
                forall|q: int| 0 <= q < k ==> (#[trigger] per_nic@[q])@.len() == 0,
            decreases n - k,
        {
            per_nic.push(Vec::new());
            k += 1;
        }
        let single: bool = self.numa_rr.single_numa;
        let mut i: usize = 0;
        while i < descs.len()
            invariant
                i <= descs@.len(),
                n == old(self).nics@.len(),
                old(self).wf(),
                v == old(self).numa_rr@,
                single == v.single_numa,
                !single ==> nodes@.len() == descs@.len(),
                self.wf(),
                self.nics == old(self).nics,
                self.registered == old(self).registered,
                self.addr_connections == old(self).addr_connections,
                self.connecting == old(self).connecting,
                self.qps_per_peer == old(self).qps_per_peer,
                self.psn_counter == old(self).psn_counter,
                self.numa_rr@ == turns_after(v, nodes@, i as int),
                per_nic@.len() == n,
                forall|q: int|
                    0 <= q < n ==> (#[trigger] per_nic@[q])@ == carried(
                        v,
                        nodes@,
                        descs@,
                        q,
                        i as int,
                    ),
            decreases descs@.len() - i,
        {
            proof {
                lemma_turns(v, nodes@, i as int, n as int);
                lemma_turns(v, nodes@, i + 1, n as int);
                lemma_pick(self.numa_rr@, nodes@[i as int], n as int);
            }
            let nic: usize = if single {
                let nic: usize = self.numa_rr.fallback.next();
                nic
            } else {
                self.numa_rr.pick(nodes[i], Ghost(n as int))
            };
            assert(self.numa_rr@ =~= turns_after(v, nodes@, i + 1));
            assert(nic == nic_for(v, nodes@, i as int));
            let ghost before = per_nic@;
            per_nic[nic].push(descs[i]);
            assert forall|q: int| 0 <= q < n implies (#[trigger] per_nic@[q])@ == carried(
                v,
                nodes@,
                descs@,
                q,
                i + 1,
            ) by {
                assert(before[q]@ == carried(v, nodes@, descs@, q, i as int));
            }
            i += 1;
        }
        per_nic
    }

    /// Looks up the keys of a NIC's transfers.
    fn look_up(&self, nic: usize, first_qpn: u32, descs: &Vec<TransferDesc>) -> (r: Result<
        Vec<RdmaOp>,
        TransferError,
    >)
        requires
            self.wf(),
            nic < self.nics@.len(),
        ensures
            match r {
                Ok(ops) => first_fault(*self, nic as int, first_qpn, descs@) is None && ops@
                    == ops_of(*self, nic as int, first_qpn, descs@),
                Err(e) => first_fault(*self, nic as int, first_qpn, descs@) is Some && is_fault(
                    e,
                    first_fault(*self, nic as int, first_qpn, descs@)->0,
                ),
            },
    {
        let mut ops: Vec<RdmaOp> = Vec::new();
        let mut i: usize = 0;
        assert(descs@.take(0) =~= Seq::<TransferDesc>::empty());
        while i < descs.len()
            invariant
                i <= descs@.len(),
                self.wf(),
                nic < self.nics@.len(),
                first_fault(*self, nic as int, first_qpn, descs@.take(i as int)) is None,
                ops@ == ops_of(*self, nic as int, first_qpn, descs@).take(i as int),
            decreases descs@.len() - i,
        {
            let d: TransferDesc = descs[i];
            proof {
                assert(descs@.take(i + 1).drop_last() =~= descs@.take(i as int));
                assert(descs@.take(i + 1).last() == d);
                lemma_first_fault_stays(*self, nic as int, first_qpn, descs@, i + 1);
                assert(self.nics@[nic as int].wf());
            }
            if d.len == 0 {
                return Err(TransferError::InvalidArgument("len must be non-zero"));
            }
            let keys: MrKeys = match self.find_local_mr(nic, d.local_ptr, d.len) {
                Some(keys) => keys,
                None => {
                    return Err(TransferError::MemoryNotRegistered { ptr: d.local_ptr });
                },
            };
            let remote_rkey: u32 = match self.nics[nic].find_remote_rkey(
                first_qpn,
                d.remote_ptr,
                d.len,
            ) {
                Some(rkey) => rkey,
                None => {
                    return Err(
                        TransferError::InvalidArgument(
                            "remote memory not found in handshake snapshot",
                        ),
                    );
                },
            };
            ops.push(
                RdmaOp {
                    local_lkey: keys.lkey,
                    local_ptr: d.local_ptr,
                    remote_ptr: d.remote_ptr,
                    len: d.len,
                    remote_rkey,
                },
            );
            i += 1;
            assert(ops@ =~= ops_of(*self, nic as int, first_qpn, descs@).take(i as int));
        }
        assert(descs@.take(i as int) =~= descs@);
        assert(ops@ =~= ops_of(*self, nic as int, first_qpn, descs@));
        Ok(ops)
    }
}

/// Divides the transfers of a NIC among its queue pairs.
fn divide(nic: usize, sessions: &Vec<u32>, ops: &Vec<RdmaOp>, rotation: usize) -> (r: Vec<QpWork>)
    requires
        sessions@.len() > 0,
    ensures
        work_views(r@) == nic_work(
            nic as int,
            sessions@,
            ops@,
            rotation,
            sessions@.len() as int,
        ),
{
    let n: usize = sessions.len();
    let mut buckets: Vec<Vec<RdmaOp>> = Vec::new();
    let mut q: usize = 0;
    while q < n
        invariant
            q <= n,
            buckets@.len() == q,
            forall|k: int| 0 <= k < q ==> (#[trigger] buckets@[k])@.len() == 0,
        decreases n - q,
    {
        buckets.push(Vec::new());
        q += 1;
    }
    let mut i: usize = 0;
    assert(ops@.take(0) =~= Seq::<RdmaOp>::empty());
    while i < ops.len()
        invariant
            i <= ops@.len(),
            n == sessions@.len(),
            n > 0,
            buckets@.len() == n,
            forall|k: int|
                0 <= k < n ==> (#[trigger] buckets@[k])@ == bucket(
                    ops@.take(i as int),
                    rotation,
                    n as int,
                    k,
                ),
        decreases ops@.len() - i,
    {
        let b: usize = rotation.wrapping_add(i) % n;
        assert(b == bucket_of(rotation, i as int, n as int));
        let ghost before = buckets@;
        buckets[b].push(ops[i]);
        proof {
            assert(ops@.take(i + 1).drop_last() =~= ops@.take(i as int));
            assert(ops@.take(i + 1).last() == ops@[i as int]);
            assert forall|k: int| 0 <= k < n implies (#[trigger] buckets@[k])@ == bucket(
                ops@.take(i + 1),
                rotation,
                n as int,
                k,
            ) by {
                assert(before[k]@ == bucket(ops@.take(i as int), rotation, n as int, k));
            }
        }
        i += 1;
    }
    assert(ops@.take(i as int) =~= ops@);
    let ghost all = buckets@;
    let mut work: Vec<QpWork> = Vec::new();
    let mut s: usize = 0;
    assert(work_views(work@) =~= Seq::<WorkView>::empty());
    for own in it: buckets
        invariant
            it.seq() == all,
            s == it.index(),
            n == sessions@.len(),
            all.len() == n,
            forall|k: int|
                0 <= k < n ==> (#[trigger] all[k])@ == bucket(ops@, rotation, n as int, k),
            work_views(work@) == nic_work(nic as int, sessions@, ops@, rotation, s as int),
    {
        let ghost shown = work_views(work@);
        assert(all[s as int]@ == bucket(ops@, rotation, n as int, s as int));
        if own.len() > 0 {
            let ghost mine = own@;
            work.push(QpWork { nic, qp_num: sessions[s], ops: own });
            assert(work_views(work@) =~= shown.push(
                WorkView { nic, qp_num: sessions@[s as int], ops: mine },
            ));
        }
        s += 1;
    }
    work
}

impl TransferEngine {
    /// Prepares a batch: every transfer is assigned to a NIC on the NUMA node of its
    /// local memory and to a queue pair, and gets its keys. `nodes` are the nodes
    /// of the transfers' local memory; they are not looked at where all NICs are on
    /// one node. The transfers of a NIC go to its queue pairs in turn, beginning
    /// with the next one after the last batch, or with `qp_rotation`.
    pub fn prepare_batch_transfer(
        &mut self,
        op: TransferOp,
        remote_addr: &str,
        descs: &[TransferDesc],
        nodes: &[NumaNode],
        qp_rotation: Option<usize>,
    ) -> (r: Result<PreparedTransferBatch, TransferError>)
        requires
            old(self).wf(),
            ready(*old(self), remote_addr@),
            !old(self).numa_rr.single_numa ==> nodes@.len() == descs@.len(),
        ensures
            final(self).wf(),
            final(self).nics == old(self).nics,
            final(self).registered == old(self).registered,
            final(self).connecting == old(self).connecting,
            final(self).qps_per_peer == old(self).qps_per_peer,
            final(self).numa_rr@ == turns_after(old(self).numa_rr@, nodes@, descs@.len() as int),
            ({
                let n = old(self).nics@.len() as int;
                if descs@.len() == 0 {
                    &&& r matches Ok(b) && b.op == op && b.work@.len() == 0 && b.descriptor_count
                        == 0
                    &&& *final(self) == *old(self)
                } else {
                    match lookup(old(self).conns(), remote_addr@) {
                        None => {
                            &&& r matches Err(e) && backend_error(
                                e,
                                "no connection for remote addr "@ + remote_addr@,
                            )
                            &&& final(self).addr_connections == old(self).addr_connections
                        },
                        Some(conn) => {
                            &&& match batch_fault(*old(self), conn, nodes@, descs@, n) {
                                Some(f) => r matches Err(e) && is_fault(e, f),
                                None => r matches Ok(b) && b.op == op && b.descriptor_count
                                    == descs@.len() && work_views(b.work@) == batch_work(
                                    *old(self),
                                    conn,
                                    nodes@,
                                    descs@,
                                    qp_rotation,
                                    n,
                                ),
                            }
                            &&& as_map(final(self).conns()) == as_map(old(self).conns()).insert(
                                remote_addr@,
                                (ConnView {
                                    turns: Seq::new(
                                        n as nat,
                                        |k: int|
                                            turned_queue_pairs(
                                                *old(self),
                                                conn,
                                                nodes@,
                                                descs@,
                                                qp_rotation,
                                                k,
                                            ),
                                    ),
                                    ..conn
                                }),
                            )
                        },
                    }
                }
            }),
    {
        if descs.len() == 0 {
            return Ok(PreparedTransferBatch { op, work: Vec::new(), descriptor_count: 0 });
        }
        let ghost start = *self;
        let n: usize = self.nics.len();
        let per_nic: Vec<Vec<TransferDesc>> = self.assign_nics(descs, nodes);
        let c: usize = match self.find_connection(remote_addr) {
            Some(c) => c,
            None => {
                return Err(
                    TransferError::Backend(join2("no connection for remote addr ", remote_addr)),
                );
            },
        };
        let ghost conn = lookup(start.conns(), remote_addr@)->0;
        proof {
            assert(start.conns() == self.conns());
            assert(self.addr_connections@[c as int].1.remote_first_qpns@.len() == n);
            assert(self.addr_connections@[c as int].1.rr_counters@.len() == n);
            assert(conn == self.addr_connections@[c as int].1@);
        }
        let mut turns: Vec<usize> = Vec::new();
        let mut work: Vec<QpWork> = Vec::new();
        let mut fault: Option<TransferError> = None;
        let mut k: usize = 0;
        assert(work_views(work@) =~= Seq::<WorkView>::empty());
        while k < n
            invariant
                k <= n,
                descs@.len() > 0,
                start == *old(self),
                n == start.nics@.len(),
                start.wf(),
                self.wf(),
                self.nics == start.nics,
                self.registered == start.registered,
                self.connecting == start.connecting,
                self.qps_per_peer == start.qps_per_peer,
                self.addr_connections == start.addr_connections,
                self.numa_rr@ == turns_after(start.numa_rr@, nodes@, descs@.len() as int),
                ready(start, remote_addr@),
                per_nic@.len() == n,
                forall|q: int|
                    0 <= q < n ==> (#[trigger] per_nic@[q])@ == carried(
                        start.numa_rr@,
                        nodes@,
                        descs@,
                        q,
                        descs@.len() as int,
                    ),
                c < self.addr_connections@.len(),
                lookup(start.conns(), remote_addr@) == Some(conn),
                conn == self.addr_connections@[c as int].1@,
                conn.first_qpns.len() == n,
                conn.turns.len() == n,
                match fault {
                    Some(e) => batch_fault(start, conn, nodes@, descs@, k as int) is Some
                        && is_fault(e, batch_fault(start, conn, nodes@, descs@, k as int)->0),
                    None => batch_fault(start, conn, nodes@, descs@, k as int) is None
                        && work_views(work@) == batch_work(
                        start,
                        conn,
                        nodes@,
                        descs@,
                        qp_rotation,
                        k as int,
                    ),
                },
                turns@.len() == k,
                forall|q: int|
                    0 <= q < k ==> #[trigger] turns@[q] == turned_queue_pairs(
                        start,
                        conn,
                        nodes@,
                        descs@,
                        qp_rotation,
                        q,
                    ),
            decreases n - k,
        {
            let own: &Vec<TransferDesc> = &per_nic[k];
            let first: u32 = self.addr_connections[c].1.remote_first_qpns[k];
            let turn: usize = self.addr_connections[c].1.rr_counters[k];
            let ghost shown = work_views(work@);
            proof {
                assert(per_nic@[k as int]@ == own@);
                assert(start.nics@[k as int].wf());
                assert(start.nics@[k as int].session_map().contains_key(
                    conn.first_qpns[k as int],
                ));
                lemma_same_lookup(start, *self, k as int, first, own@);
            }
            if fault.is_some() || own.len() == 0 {
                turns.push(turn);
                assert(work_views(work@) =~= shown + Seq::<WorkView>::empty());
            } else {
                let rotation: usize = match qp_rotation {
                    Some(r) => r,
                    None => turn,
                };
                turns.push(
                    match qp_rotation {
                        Some(_) => turn,
                        None => turn.wrapping_add(1),
                    },
                );
                match self.look_up(k, first, own) {
                    Ok(ops) => match self.nics[k].sessions_of(first) {
                        Some(sessions) => {
                            let mut more: Vec<QpWork> = divide(k, sessions, &ops, rotation);
                            let ghost added = work_views(more@);
                            work.append(&mut more);
                            assert(work_views(work@) =~= shown + added);
                        },
                        None => {
                            assert(false);
                        },
                    },
                    Err(e) => {
                        fault = Some(e);
                    },
                }
            }
            k += 1;
        }
        let ghost before = self.conns();
        let ghost raw = self.addr_connections@;
        let ghost value = ConnView { turns: turns@, ..conn };
        self.addr_connections[c].1.rr_counters = turns;
        proof {
            lemma_update(before, c as int, value);
            assert(self.addr_connections@[c as int].1@ == value);
            assert(self.conns() =~= before.update(c as int, (remote_addr@, value)));
            assert(turns@ =~= Seq::new(
                n as nat,
                |k: int| turned_queue_pairs(start, conn, nodes@, descs@, qp_rotation, k),
            ));
            assert forall|q: int| 0 <= q < self.addr_connections@.len() implies {
                &&& (#[trigger] self.addr_connections@[q]).1.remote_first_qpns@.len() == n
                &&& self.addr_connections@[q].1.rr_counters@.len() == n
            } by {
                if q != c {
                    assert(self.addr_connections@[q] == raw[q]);
                } else {
                    assert(raw[q].1.remote_first_qpns@.len() == n);
                }
            }
        }
        match fault {
            Some(e) => Err(e),
            None => Ok(PreparedTransferBatch { op, work, descriptor_count: descs.len() }),
        }
    }
}

/// Keys do not depend on whose turn it is.
proof fn lemma_same_lookup(
    a: TransferEngine,
    b: TransferEngine,
    nic: int,
    first_qpn: u32,
    descs: Seq<TransferDesc>,
)
    requires
        a.nics == b.nics,
        a.registered == b.registered,
    ensures
        first_fault(a, nic, first_qpn, descs) == first_fault(b, nic, first_qpn, descs),
        ops_of(a, nic, first_qpn, descs) == ops_of(b, nic, first_qpn, descs),
    decreases descs.len(),
{
    assert(ops_of(a, nic, first_qpn, descs) =~= ops_of(b, nic, first_qpn, descs));
    if descs.len() > 0 {
        lemma_same_lookup(a, b, nic, first_qpn, descs.drop_last());
    }
}

/// What a transfer with keys moves.
pub open spec fn desc_of(op: RdmaOp) -> TransferDesc {
    TransferDesc { local_ptr: op.local_ptr, remote_ptr: op.remote_ptr, len: op.len }
}

/// What transfers with keys move.
pub open spec fn descs_of(ops: Seq<RdmaOp>) -> Seq<TransferDesc> {
    ops.map_values(|op: RdmaOp| desc_of(op))
}

/// What is moved altogether, each transfer as often as it is posted.
pub open spec fn posted(work: Seq<WorkView>) -> Multiset<TransferDesc>
    decreases work.len(),
{
    if work.len() == 0 {
        Multiset::empty()
    } else {
        posted(work.drop_last()).add(descs_of(work.last().ops).to_multiset())
    }
}

proof fn lemma_posted_together(a: Seq<WorkView>, b: Seq<WorkView>)
    ensures
        posted(a + b) =~= posted(a).add(posted(b)),
    decreases b.len(),
{
    if b.len() == 0 {
        assert(a + b =~= a);
    } else {
        lemma_posted_together(a, b.drop_last());
        assert((a + b).drop_last() =~= a + b.drop_last());
        assert((a + b).last() == b.last());
    }
}

/// What the first `m` queue pairs of a NIC move.
spec fn bucket_total(ops: Seq<RdmaOp>, rotation: usize, n: int, m: int) -> Multiset<TransferDesc>
    decreases m,
{
    if m <= 0 {
        Multiset::empty()
    } else {
        bucket_total(ops, rotation, n, m - 1).add(
            descs_of(bucket(ops, rotation, n, m - 1)).to_multiset(),
        )
    }
}

proof fn lemma_push_multiset(s: Seq<TransferDesc>, d: TransferDesc)
    ensures
        s.push(d).to_multiset() =~= s.to_multiset().insert(d),
{
    s.to_multiset_ensures();
}

proof fn lemma_nothing_posted()
    ensures
        Seq::<TransferDesc>::empty().to_multiset() =~= Multiset::empty(),
{
    Seq::<TransferDesc>::empty().to_multiset_ensures();
    assert(Seq::<TransferDesc>::empty().to_multiset().len() == 0);
}

proof fn lemma_nic_work_total(
    nic: int,
    sessions: Seq<u32>,
    ops: Seq<RdmaOp>,
    rotation: usize,
    m: int,
)
    ensures
        posted(nic_work(nic, sessions, ops, rotation, m)) =~= bucket_total(
            ops,
            rotation,
            sessions.len() as int,
            m,
        ),
    decreases m,
{
    if m > 0 {
        lemma_nic_work_total(nic, sessions, ops, rotation, m - 1);
        let own = bucket(ops, rotation, sessions.len() as int, m - 1);
        let front = nic_work(nic, sessions, ops, rotation, m - 1);
        if own.len() > 0 {
            let w = WorkView { nic: nic as usize, qp_num: sessions[m - 1], ops: own };
            assert(front.push(w).drop_last() =~= front);
        } else {
            assert(descs_of(own) =~= Seq::empty());
            lemma_nothing_posted();
        }
    }
}

proof fn lemma_bucket_step(ops: Seq<RdmaOp>, rotation: usize, n: int, m: int)
    requires
        ops.len() > 0,
        0 <= bucket_of(rotation, ops.len() - 1, n),
    ensures
        bucket_total(ops, rotation, n, m) =~= if bucket_of(rotation, ops.len() - 1, n) < m {
            bucket_total(ops.drop_last(), rotation, n, m).insert(desc_of(ops.last()))
        } else {
            bucket_total(ops.drop_last(), rotation, n, m)
        },
    decreases m,
{
    if m > 0 {
        lemma_bucket_step(ops, rotation, n, m - 1);
        let front = bucket(ops.drop_last(), rotation, n, m - 1);
        if bucket_of(rotation, ops.len() - 1, n) == m - 1 {
            assert(descs_of(front.push(ops.last())) =~= descs_of(front).push(desc_of(ops.last())));
            lemma_push_multiset(descs_of(front), desc_of(ops.last()));
        }
    }
}

proof fn lemma_buckets_hold_all(ops: Seq<RdmaOp>, rotation: usize, n: int)
    requires
        n > 0,
        ops.len() <= usize::MAX,
    ensures
        bucket_total(ops, rotation, n, n) =~= descs_of(ops).to_multiset(),
    decreases ops.len(),
{
    if ops.len() == 0 {
        assert(descs_of(ops) =~= Seq::empty());
        lemma_nothing_posted();
        lemma_empty_buckets(ops, rotation, n, n);
    } else {
        lemma_buckets_hold_all(ops.drop_last(), rotation, n);
        lemma_bucket_step(ops, rotation, n, n);
        assert(descs_of(ops) =~= descs_of(ops.drop_last()).push(desc_of(ops.last())));
        lemma_push_multiset(descs_of(ops.drop_last()), desc_of(ops.last()));
    }
}

proof fn lemma_empty_buckets(ops: Seq<RdmaOp>, rotation: usize, n: int, m: int)
    requires
        ops.len() == 0,
    ensures
        bucket_total(ops, rotation, n, m) =~= Multiset::empty(),
    decreases m,
{
    if m > 0 {
        lemma_empty_buckets(ops, rotation, n, m - 1);
        assert(descs_of(bucket(ops, rotation, n, m - 1)) =~= Seq::empty());
        lemma_nothing_posted();
    }
}

/// What the first `k` NICs carry of the first `n` transfers.
spec fn carried_total(
    v: RoundRobinView,
    nodes: Seq<NumaNode>,
    descs: Seq<TransferDesc>,
    k: int,
    n: int,
) -> Multiset<TransferDesc>
    decreases k,
{
    if k <= 0 {
        Multiset::empty()
    } else {
        carried_total(v, nodes, descs, k - 1, n).add(
            carried(v, nodes, descs, k - 1, n).to_multiset(),
        )
    }
}

proof fn lemma_carried_step(
    v: RoundRobinView,
    nodes: Seq<NumaNode>,
    descs: Seq<TransferDesc>,
    k: int,
    n: int,
)
    requires
        n > 0,
    ensures
        carried_total(v, nodes, descs, k, n) =~= if nic_for(v, nodes, n - 1) < k {
            carried_total(v, nodes, descs, k, n - 1).insert(descs[n - 1])
        } else {
            carried_total(v, nodes, descs, k, n - 1)
        },
    decreases k,
{
    if k > 0 {
        lemma_carried_step(v, nodes, descs, k - 1, n);
        lemma_push_multiset(carried(v, nodes, descs, k - 1, n - 1), descs[n - 1]);
    }
}

proof fn lemma_nothing_carried(
    v: RoundRobinView,
    nodes: Seq<NumaNode>,
    descs: Seq<TransferDesc>,
    k: int,
)
    ensures
        carried_total(v, nodes, descs, k, 0) =~= Multiset::empty(),
    decreases k,
{
    if k > 0 {
        lemma_nothing_carried(v, nodes, descs, k - 1);
        lemma_nothing_posted();
    }
}

proof fn lemma_all_carried(
    v: RoundRobinView,
    nodes: Seq<NumaNode>,
    descs: Seq<TransferDesc>,
    k: int,
    n: int,
)
    requires
        groups_below(v, k),
        0 <= n <= descs.len(),
    ensures
        carried_total(v, nodes, descs, k, n) =~= descs.take(n).to_multiset(),
    decreases n,
{
    if n == 0 {
        lemma_nothing_carried(v, nodes, descs, k);
        lemma_nothing_posted();
        assert(descs.take(0) =~= Seq::empty());
    } else {
        lemma_all_carried(v, nodes, descs, k, n - 1);
        lemma_carried_step(v, nodes, descs, k, n);
        lemma_turns(v, nodes, n - 1, k);
        lemma_pick(turns_after(v, nodes, n - 1), nodes[n - 1], k);
        assert(descs.take(n) =~= descs.take(n - 1).push(descs[n - 1]));
        lemma_push_multiset(descs.take(n - 1), descs[n - 1]);
    }
}

proof fn lemma_carried_len(
    v: RoundRobinView,
    nodes: Seq<NumaNode>,
    descs: Seq<TransferDesc>,
    nic: int,
    n: int,
)
    requires
        0 <= n,
    ensures
        carried(v, nodes, descs, nic, n).len() <= n,
    decreases n,
{
    if n > 0 {
        lemma_carried_len(v, nodes, descs, nic, n - 1);
    }
}

proof fn lemma_batch_total(
    engine: TransferEngine,
    conn: ConnView,
    nodes: Seq<NumaNode>,
    descs: Seq<TransferDesc>,
    qp_rotation: Option<usize>,
    k: int,
)
    requires
        k <= engine.nics@.len(),
        descs.len() <= usize::MAX,
        forall|q: int|
            0 <= q < engine.nics@.len() ==> (#[trigger] engine.nics@[q]).session_map()[conn.first_qpns[q]].len()
                > 0,
    ensures
        posted(batch_work(engine, conn, nodes, descs, qp_rotation, k)) =~= carried_total(
            engine.numa_rr@,
            nodes,
            descs,
            k,
            descs.len() as int,
        ),
    decreases k,
{
    if k > 0 {
        lemma_batch_total(engine, conn, nodes, descs, qp_rotation, k - 1);
        let v = engine.numa_rr@;
        let own = carried(v, nodes, descs, k - 1, descs.len() as int);
        let front = batch_work(engine, conn, nodes, descs, qp_rotation, k - 1);
        if own.len() == 0 {
            assert(own =~= Seq::empty());
            lemma_nothing_posted();
            assert(front + Seq::<WorkView>::empty() =~= front);
        } else {
            let sessions = peer_sessions(engine, conn, k - 1);
            let ops = ops_of(engine, k - 1, conn.first_qpns[k - 1], own);
            let rotation = rotation_of(conn, k - 1, qp_rotation);
            let n = sessions.len() as int;
            assert(engine.nics@[k - 1].session_map()[conn.first_qpns[k - 1]].len() > 0);
            lemma_carried_len(v, nodes, descs, k - 1, descs.len() as int);
            lemma_posted_together(front, nic_work(k - 1, sessions, ops, rotation, n));
            lemma_nic_work_total(k - 1, sessions, ops, rotation, n);
            lemma_buckets_hold_all(ops, rotation, n);
            assert(descs_of(ops) =~= own);
        }
    }
}

/// A prepared batch moves exactly what was asked for: every transfer is in the work of
/// one queue pair, once.
pub proof fn law_every_transfer_is_posted_once(
    engine: TransferEngine,
    addr: Seq<char>,
    nodes: Seq<NumaNode>,
    descs: Seq<TransferDesc>,
    qp_rotation: Option<usize>,
)
    requires
        engine.wf(),
        engine.connected(addr),
        ready(engine, addr),
        descs.len() <= usize::MAX,
    ensures
        posted(
            batch_work(
                engine,
                lookup(engine.conns(), addr)->0,
                nodes,
                descs,
                qp_rotation,
                engine.nics@.len() as int,
            ),
        ) == descs.to_multiset(),
{
    let conn = lookup(engine.conns(), addr)->0;
    let n = engine.nics@.len() as int;
    assert(lookup(engine.conns(), addr) is Some);
    lemma_batch_total(engine, conn, nodes, descs, qp_rotation, n);
    lemma_all_carried(engine.numa_rr@, nodes, descs, n, descs.len() as int);
    assert(descs.take(descs.len() as int) =~= descs);
}

proof fn lemma_bucket_has(ops: Seq<RdmaOp>, rotation: usize, n: int, q: int, i: int)
    requires
        0 <= i < ops.len(),
        bucket_of(rotation, i, n) == q,
    ensures
        bucket(ops, rotation, n, q).len() > 0,
    decreases ops.len(),
{
    if i < ops.len() - 1 {
        lemma_bucket_has(ops.drop_last(), rotation, n, q, i);
    }
}

/// A batch with at least as many transfers on a NIC as the NIC has queue pairs keeps
/// all of them busy. Left out are the rotations at which the
/// turn wraps around.
pub proof fn law_large_batches_use_every_queue_pair(
    ops: Seq<RdmaOp>,
    rotation: usize,
    n: int,
    q: int,
)
    requires
        0 <= q < n <= ops.len(),
        rotation + n <= usize::MAX,
    ensures
        bucket(ops, rotation, n, q).len() > 0,
{
    let r = rotation as int % n;
    let i: int = if r <= q {
        q - r
    } else {
        q - r + n
    };
    assert(0 <= i < n);
    assert((rotation + i) % n == q) by {
        vstd::arithmetic::div_mod::lemma_fundamental_div_mod(rotation as int, n);
        let d = rotation as int / n;
        if r <= q {
            assert(rotation + i == n * d + q);
            vstd::arithmetic::div_mod::lemma_fundamental_div_mod_converse(
                rotation + i,
                n,
                d,
                q,
            );
        } else {
            assert(rotation + i == n * (d + 1) + q) by (nonlinear_arith)
                requires
                    rotation as int == n * d + r,
                    i == q - r + n,
            ;
            vstd::arithmetic::div_mod::lemma_fundamental_div_mod_converse(
                rotation + i,
                n,
                d + 1,
                q,
            );
        }
    }
    lemma_bucket_has(ops, rotation, n, q, i);
}

/// How many of the first transfers of a NIC pass by queue pair `q`, of `n`, before its turn.
spec fn turn_of(rotation: usize, n: int, q: int) -> int {
    (q - rotation) % n
}

proof fn lemma_turn_comes(rotation: usize, i: int, n: int, q: int)
    requires
        0 <= q < n,
    ensures
        (rotation + i) % n == q <==> (i - turn_of(rotation, n, q) + n) % n == 0,
        0 <= turn_of(rotation, n, q) < n,
{
    let d = turn_of(rotation, n, q);
    let b = (q - rotation) / n;
    let y = rotation + i - q;
    vstd::arithmetic::div_mod::lemma_fundamental_div_mod(q - rotation, n);
    vstd::arithmetic::div_mod::lemma_mod_bound(q - rotation, n);
    assert(i - d + n == n * (b + 1) + y) by (nonlinear_arith)
        requires
            q - rotation == n * b + d,
            y == rotation + i - q,
    ;
    vstd::arithmetic::div_mod::lemma_mod_multiples_vanish(b + 1, y, n);
    if y % n == 0 {
        vstd::arithmetic::div_mod::lemma_fundamental_div_mod(y, n);
        vstd::arithmetic::div_mod::lemma_fundamental_div_mod_converse(
            rotation + i,
            n,
            y / n,
            q,
        );
    }
    if (rotation + i) % n == q {
        let e = (rotation + i) / n;
        vstd::arithmetic::div_mod::lemma_fundamental_div_mod(rotation + i, n);
        vstd::arithmetic::div_mod::lemma_fundamental_div_mod_converse(y, n, e, 0);
    }
}

proof fn lemma_quotient_steps(x: int, n: int)
    requires
        n > 0,
        x > 0,
    ensures
        x / n == (x - 1) / n + (if x % n == 0 {
            1int
        } else {
            0
        }),
{
    let k = x / n;
    let s = x % n;
    vstd::arithmetic::div_mod::lemma_fundamental_div_mod(x, n);
    vstd::arithmetic::div_mod::lemma_mod_bound(x, n);
    if s == 0 {
        assert(x - 1 == n * (k - 1) + (n - 1)) by (nonlinear_arith)
            requires
                x == n * k,
        ;
        vstd::arithmetic::div_mod::lemma_fundamental_div_mod_converse(x - 1, n, k - 1, n - 1);
    } else {
        vstd::arithmetic::div_mod::lemma_fundamental_div_mod_converse(x - 1, n, k, s - 1);
    }
}

proof fn lemma_bucket_len(ops: Seq<RdmaOp>, rotation: usize, n: int, q: int)
    requires
        0 <= q < n,
        rotation + ops.len() <= usize::MAX + 1,
    ensures
        0 <= turn_of(rotation, n, q) < n,
        bucket(ops, rotation, n, q).len() == (ops.len() - turn_of(rotation, n, q) + n - 1) / n,
    decreases ops.len(),
{
    let m = ops.len() as int;
    let d = turn_of(rotation, n, q);
    lemma_turn_comes(rotation, m - 1, n, q);
    if m > 0 {
        lemma_bucket_len(ops.drop_last(), rotation, n, q);
        lemma_quotient_steps(m - d + n - 1, n);
    } else {
        vstd::arithmetic::div_mod::lemma_basic_div(n - 1 - d, n);
    }
}

/// The transfers of a NIC are spread evenly over its queue pairs: each has as many as an even
/// share rounded down or up, and so no two of them differ by more than one. Left out are the
/// rotations at which the turn wraps around.
pub proof fn law_transfers_are_spread_evenly(
    ops: Seq<RdmaOp>,
    rotation: usize,
    n: int,
    p: int,
    q: int,
)
    requires
        0 <= p < n,
        0 <= q < n,
        rotation + ops.len() <= usize::MAX + 1,
    ensures
        ops.len() as int / n <= bucket(ops, rotation, n, q).len() <= (ops.len() + n - 1) / n,
        bucket(ops, rotation, n, p).len() <= bucket(ops, rotation, n, q).len() + 1,
        bucket(ops, rotation, n, q).len() <= bucket(ops, rotation, n, p).len() + 1,
{
    let m = ops.len() as int;
    lemma_bucket_len(ops, rotation, n, p);
    lemma_bucket_len(ops, rotation, n, q);
    let x = m - turn_of(rotation, n, p) + n - 1;
    let y = m - turn_of(rotation, n, q) + n - 1;
    vstd::arithmetic::div_mod::lemma_div_is_ordered(m, y, n);
    vstd::arithmetic::div_mod::lemma_div_is_ordered(y, m + n - 1, n);
    vstd::arithmetic::div_mod::lemma_div_is_ordered(x, y + n, n);
    vstd::arithmetic::div_mod::lemma_div_is_ordered(y, x + n, n);
    vstd::arithmetic::div_mod::lemma_div_plus_one(x, n);
    vstd::arithmetic::div_mod::lemma_div_plus_one(y, n);
}

proof fn lemma_nic_work_of_one(
    nic: int,
    sessions: Seq<u32>,
    ops: Seq<RdmaOp>,
    rotation: usize,
    m: int,
)
    ensures
        forall|i: int|
            0 <= i < nic_work(nic, sessions, ops, rotation, m).len() ==> (#[trigger] nic_work(
                nic,
                sessions,
                ops,
                rotation,
                m,
            )[i]).nic == nic as usize,
    decreases m,
{
    if m > 0 {
        lemma_nic_work_of_one(nic, sessions, ops, rotation, m - 1);
        let front = nic_work(nic, sessions, ops, rotation, m - 1);
        let all = nic_work(nic, sessions, ops, rotation, m);
        assert forall|i: int| 0 <= i < all.len() implies (#[trigger] all[i]).nic
            == nic as usize by {
            if i < front.len() {
                assert(all[i] == front[i]);
            }
        }
    }
}

/// The work of a batch is in the order of the NICs.
pub proof fn law_work_is_in_nic_order(
    engine: TransferEngine,
    conn: ConnView,
    nodes: Seq<NumaNode>,
    descs: Seq<TransferDesc>,
    qp_rotation: Option<usize>,
    k: int,
)
    requires
        0 <= k <= engine.nics@.len() <= usize::MAX,
    ensures
        ({
            let work = batch_work(engine, conn, nodes, descs, qp_rotation, k);
            &&& forall|i: int| 0 <= i < work.len() ==> (#[trigger] work[i]).nic < k
            &&& forall|i: int, j: int|
                0 <= i <= j < work.len() ==> (#[trigger] work[i]).nic <= (#[trigger] work[j]).nic
        }),
    decreases k,
{
    if k > 0 {
        law_work_is_in_nic_order(engine, conn, nodes, descs, qp_rotation, k - 1);
        let front = batch_work(engine, conn, nodes, descs, qp_rotation, k - 1);
        let work = batch_work(engine, conn, nodes, descs, qp_rotation, k);
        let own = carried(engine.numa_rr@, nodes, descs, k - 1, descs.len() as int);
        let sessions = peer_sessions(engine, conn, k - 1);
        let ops = ops_of(engine, k - 1, conn.first_qpns[k - 1], own);
        let rotation = rotation_of(conn, k - 1, qp_rotation);
        lemma_nic_work_of_one(k - 1, sessions, ops, rotation, sessions.len() as int);
        assert forall|i: int| 0 <= i < work.len() implies (#[trigger] work[i]).nic < k && (i
            < front.len() ==> work[i] == front[i]) && (i >= front.len() ==> work[i].nic == k
            - 1) by {
            if i < front.len() {
                assert(work[i] == front[i]);
            } else {
                let tail = nic_work(k - 1, sessions, ops, rotation, sessions.len() as int);
                assert(work[i] == tail[i - front.len()]);
            }
        }
        assert forall|i: int, j: int| 0 <= i <= j < work.len() implies (#[trigger] work[i]).nic
            <= (#[trigger] work[j]).nic by {
            if j < front.len() {
                assert(front[i].nic <= front[j].nic);
            }
        }
    }
}

/// A peer whose connection was established has queue pairs on every NIC, where the
/// handshake had some.
pub proof fn law_established_peers_are_ready(
    before: TransferEngine,
    after: TransferEngine,
    addr: Seq<char>,
    local: Seq<NicHandshake>,
    remote: Seq<NicHandshake>,
    conn: ConnView,
)
    requires
        before.nics@.len() == after.nics@.len(),
        after.wf(),
        local.len() == after.nics@.len(),
        remote.len() == after.nics@.len(),
        forall|k: int| 0 <= k < local.len() ==> (#[trigger] local[k]).endpoints@.len() > 0,
        forall|k: int|
            0 <= k < after.nics@.len() ==> peer_added(
                before.nics@[k],
                #[trigger] after.nics@[k],
                local[k],
                remote[k],
            ),
        conn.first_qpns == Seq::new(
            after.nics@.len(),
            |k: int| remote[k].endpoints@[0].qp_num,
        ),
        as_map(after.conns()) == as_map(before.conns()).insert(addr, conn),
    ensures
        ready(after, addr),
{
    assert(as_map(after.conns()).dom().contains(addr));
    assert(as_map(after.conns())[addr] == conn);
    assert forall|k: int| 0 <= k < after.nics@.len() implies {
        &&& (#[trigger] after.nics@[k]).session_map().contains_key(conn.first_qpns[k])
        &&& after.nics@[k].session_map()[conn.first_qpns[k]].len() > 0
    } by {
        assert(local[k].endpoints@.len() > 0);
    }
}

/// Where nodes need not be told apart, the transfers of a batch take the NICs one after the other,
/// from the one on whose turn it is, and the next batch goes on behind them. Left out are the
/// turns at which the count wraps around.
pub proof fn law_transfers_take_the_nics_in_turn(v: RoundRobinView, nodes: Seq<NumaNode>, i: int)
    requires
        v.single_numa,
        v.fallback.nics.len() > 0,
        0 <= i,
        v.fallback.turn + i <= usize::MAX,
    ensures
        turns_after(v, nodes, i).fallback.turn == v.fallback.turn + i,
        turns_after(v, nodes, i).fallback.nics == v.fallback.nics,
        turns_after(v, nodes, i).groups == v.groups,
        turns_after(v, nodes, i).single_numa,
        nic_for(v, nodes, i) == v.fallback.nics[(v.fallback.turn + i)
            % (v.fallback.nics.len() as int)],
    decreases i,
{
    if i > 0 {
        law_transfers_take_the_nics_in_turn(v, nodes, i - 1);
    }
}

proof fn lemma_carried_in_turn(
    v: RoundRobinView,
    nodes: Seq<NumaNode>,
    descs: Seq<TransferDesc>,
    nic: int,
    m: int,
)
    requires
        v.single_numa,
        0 <= nic < v.fallback.nics.len(),
        forall|k: int| 0 <= k < v.fallback.nics.len() ==> #[trigger] v.fallback.nics[k] == k,
        0 <= m <= descs.len(),
        v.fallback.turn + m <= usize::MAX,
    ensures
        ({
            let n = v.fallback.nics.len() as int;
            &&& 0 <= turn_of(v.fallback.turn, n, nic) < n
            &&& carried(v, nodes, descs, nic, m).len() == (m - turn_of(v.fallback.turn, n, nic) + n
                - 1) / n
        }),
    decreases m,
{
    let n = v.fallback.nics.len() as int;
    let d = turn_of(v.fallback.turn, n, nic);
    lemma_turn_comes(v.fallback.turn, m - 1, n, nic);
    if m > 0 {
        lemma_carried_in_turn(v, nodes, descs, nic, m - 1);
        law_transfers_take_the_nics_in_turn(v, nodes, m - 1);
        vstd::arithmetic::div_mod::lemma_mod_bound(v.fallback.turn + m - 1, n);
        assert(v.fallback.nics[(v.fallback.turn + m - 1) % n] == (v.fallback.turn + m - 1) % n);
        lemma_quotient_steps(m - d + n - 1, n);
    } else {
        vstd::arithmetic::div_mod::lemma_basic_div(n - 1 - d, n);
    }
}

/// Where nodes need not be told apart, the NICs share the transfers of a batch evenly: each has as
/// many as an even share rounded down or up, and so no two differ by more than one. Left out are
/// the turns at which the count wraps around.
pub proof fn law_nics_share_a_batch_evenly(
    v: RoundRobinView,
    nodes: Seq<NumaNode>,
    descs: Seq<TransferDesc>,
    a: int,
    b: int,
)
    requires
        v.single_numa,
        0 <= a < v.fallback.nics.len(),
        0 <= b < v.fallback.nics.len(),
        forall|k: int| 0 <= k < v.fallback.nics.len() ==> #[trigger] v.fallback.nics[k] == k,
        v.fallback.turn + descs.len() <= usize::MAX,
    ensures
        ({
            let n = v.fallback.nics.len() as int;
            let m = descs.len() as int;
            let x = carried(v, nodes, descs, a, m).len();
            let y = carried(v, nodes, descs, b, m).len();
            &&& m / n <= x <= (m + n - 1) / n
            &&& x <= y + 1
            &&& y <= x + 1
        }),
{
    let n = v.fallback.nics.len() as int;
    let m = descs.len() as int;
    lemma_carried_in_turn(v, nodes, descs, a, m);
    lemma_carried_in_turn(v, nodes, descs, b, m);
    let x = m - turn_of(v.fallback.turn, n, a) + n - 1;
    let y = m - turn_of(v.fallback.turn, n, b) + n - 1;
    vstd::arithmetic::div_mod::lemma_div_is_ordered(m, x, n);
    vstd::arithmetic::div_mod::lemma_div_is_ordered(x, m + n - 1, n);
    vstd::arithmetic::div_mod::lemma_div_is_ordered(x, y + n, n);
    vstd::arithmetic::div_mod::lemma_div_is_ordered(y, x + n, n);
    vstd::arithmetic::div_mod::lemma_div_plus_one(x, n);
    vstd::arithmetic::div_mod::lemma_div_plus_one(y, n);
}

/// Where nodes are told apart, the transfers on a node take the NICs of its group one after the
/// other, whatever is transferred on other nodes in between. Left out are the turns at which the
/// count wraps around.
pub proof fn law_transfers_of_a_node_take_its_nics_in_turn(
    v: RoundRobinView,
    nodes: Seq<NumaNode>,
    g: int,
    i: int,
)
    requires
        !v.single_numa,
        0 <= g < v.groups.len(),
        v.groups[g].0.known(),
        v.groups[g].1.nics.len() > 0,
        forall|k: int| 0 <= k < g ==> (#[trigger] v.groups[k]).0 != v.groups[g].0,
        0 <= i <= nodes.len(),
        v.groups[g].1.turn + i <= usize::MAX,
    ensures
        ({
            let before = nodes.take(i).to_multiset().count(v.groups[g].0);
            let after = turns_after(v, nodes, i);
            &&& after.groups.len() == v.groups.len()
            &&& after.groups[g].1.nics == v.groups[g].1.nics
            &&& after.groups[g].1.turn == v.groups[g].1.turn + before
            &&& i < nodes.len() && nodes[i] == v.groups[g].0 ==> nic_for(v, nodes, i)
                == v.groups[g].1.nics[(v.groups[g].1.turn + before)
                % (v.groups[g].1.nics.len() as int)]
        }),
    decreases i,
{
    lemma_node_turns(v, nodes, g, i);
    let after = turns_after(v, nodes, i);
    if i < nodes.len() && nodes[i] == v.groups[g].0 {
        lemma_group_of(after.groups, nodes[i]);
        assert(after.groups[g].0 == nodes[i]);
        match group_of(after.groups, nodes[i]) {
            Some(k) => {
                if k < g {
                    assert(after.groups[k].0 == v.groups[k].0);
                }
            },
            None => {},
        }
    }
}

proof fn lemma_node_turns(v: RoundRobinView, nodes: Seq<NumaNode>, g: int, i: int)
    requires
        !v.single_numa,
        0 <= g < v.groups.len(),
        v.groups[g].0.known(),
        forall|k: int| 0 <= k < g ==> (#[trigger] v.groups[k]).0 != v.groups[g].0,
        0 <= i <= nodes.len(),
        v.groups[g].1.turn + i <= usize::MAX,
    ensures
        ({
            let before = nodes.take(i).to_multiset().count(v.groups[g].0);
            let after = turns_after(v, nodes, i);
            &&& before <= i
            &&& after.groups.len() == v.groups.len()
            &&& forall|k: int|
                0 <= k < v.groups.len() ==> (#[trigger] after.groups[k]).0 == v.groups[k].0
            &&& after.groups[g].1.nics == v.groups[g].1.nics
            &&& after.groups[g].1.turn == v.groups[g].1.turn + before
        }),
    decreases i,
{
    broadcast use vstd::seq_lib::group_to_multiset_ensures;

    if i > 0 {
        lemma_node_turns(v, nodes, g, i - 1);
        let before = turns_after(v, nodes, i - 1);
        let node = nodes[i - 1];
        assert(nodes.take(i) =~= nodes.take(i - 1).push(node));
        lemma_group_of(before.groups, node);
        match group_of(before.groups, node) {
            Some(k) => {
                assert(before.groups[k].0 == v.groups[k].0);
                if node == v.groups[g].0 {
                    assert(before.groups[g].0 == v.groups[g].0);
                }
            },
            None => {
                assert(before.groups[g].0 == v.groups[g].0);
            },
        }
        let after = turns_after(v, nodes, i);
        assert forall|k: int| 0 <= k < v.groups.len() implies (#[trigger] after.groups[k]).0
            == v.groups[k].0 by {
            assert(before.groups[k].0 == v.groups[k].0);
        }
    } else {
        assert(nodes.take(0) =~= Seq::<NumaNode>::empty());
    }
}

/// Every queue pair does its own work: of the work of a NIC each part is for one of its queue
/// pairs, holds exactly the transfers that go there, and a queue pair that has transfers is not
/// left out. The transfers of a NIC go to its queue pairs one after the other.
pub proof fn law_queue_pairs_do_their_own_work(
    nic: int,
    sessions: Seq<u32>,
    ops: Seq<RdmaOp>,
    rotation: usize,
    m: int,
    q: int,
)
    requires
        0 <= q < m <= sessions.len(),
    ensures
        ({
            let work = nic_work(nic, sessions, ops, rotation, m);
            let n = sessions.len() as int;
            &&& bucket(ops, rotation, n, q).len() > 0 ==> exists|w: int|
                0 <= w < work.len() && (#[trigger] work[w]) == (WorkView {
                    nic: nic as usize,
                    qp_num: sessions[q],
                    ops: bucket(ops, rotation, n, q),
                })
            &&& forall|w: int|
                0 <= w < work.len() ==> (#[trigger] work[w]).ops.len() > 0 && is_work_of(
                    work[w],
                    nic,
                    sessions,
                    ops,
                    rotation,
                    m,
                )
            &&& work.len() <= m
        }),
    decreases m,
{
    let front = nic_work(nic, sessions, ops, rotation, m - 1);
    let work = nic_work(nic, sessions, ops, rotation, m);
    let n = sessions.len() as int;
    let own = bucket(ops, rotation, n, m - 1);
    if m > 1 {
        law_queue_pairs_do_their_own_work(
            nic,
            sessions,
            ops,
            rotation,
            m - 1,
            if q < m - 1 {
                q
            } else {
                0
            },
        );
    }
    assert forall|w: int| 0 <= w < front.len() implies work[w] == #[trigger] front[w] by {}
    if bucket(ops, rotation, n, q).len() > 0 {
        if q < m - 1 {
            let w = choose|w: int|
                0 <= w < front.len() && (#[trigger] front[w]) == (WorkView {
                    nic: nic as usize,
                    qp_num: sessions[q],
                    ops: bucket(ops, rotation, n, q),
                });
            assert(work[w] == front[w]);
        } else {
            assert(work[front.len() as int].qp_num == sessions[q]);
        }
    }
    assert forall|w: int| 0 <= w < work.len() implies (#[trigger] work[w]).ops.len() > 0
        && is_work_of(work[w], nic, sessions, ops, rotation, m) by {
        if w < front.len() {
            assert(front[w].ops.len() > 0);
            assert(is_work_of(front[w], nic, sessions, ops, rotation, m - 1));
            let p = choose|p: int|
                0 <= p < m - 1 && front[w].qp_num == sessions[p] && front[w].nic == nic as usize
                    && front[w].ops == #[trigger] bucket(ops, rotation, n, p);
            assert(work[w].ops == bucket(ops, rotation, n, p));
        } else {
            assert(work[w].ops == bucket(ops, rotation, n, m - 1));
        }
    }
}

/// Whether work is that of one of the first `m` queue pairs of a NIC.
pub open spec fn is_work_of(
    work: WorkView,
    nic: int,
    sessions: Seq<u32>,
    ops: Seq<RdmaOp>,
    rotation: usize,
    m: int,
) -> bool {
    exists|p: int|
        0 <= p < m && work.qp_num == sessions[p] && work.nic == nic as usize && work.ops
            == #[trigger] bucket(ops, rotation, sessions.len() as int, p)
}

/// The transfers of a queue pair are those whose turn it is, in their order: transfer `i` of a NIC
/// goes to the queue pair so many places behind the first one that is up, around the end.
pub proof fn law_transfers_go_round_the_queue_pairs(
    ops: Seq<RdmaOp>,
    op: RdmaOp,
    rotation: usize,
    n: int,
    q: int,
)
    requires
        0 <= q < n,
        rotation + ops.len() <= usize::MAX,
    ensures
        bucket(ops.push(op), rotation, n, q) == (if (rotation + ops.len()) % n == q {
            bucket(ops, rotation, n, q).push(op)
        } else {
            bucket(ops, rotation, n, q)
        }),
        bucket(Seq::empty(), rotation, n, q).len() == 0,
{
    assert(ops.push(op).drop_last() =~= ops);
}

/// A batch that takes its own turn on a NIC lets the next one begin one queue pair further; one
/// that is told where to begin, does not use the NIC, or is refused there or before, does not.
/// Left out is the turn at which the count wraps around.
pub proof fn law_the_next_batch_begins_one_queue_pair_further(
    engine: TransferEngine,
    conn: ConnView,
    nodes: Seq<NumaNode>,
    descs: Seq<TransferDesc>,
    rotation: usize,
    nic: int,
)
    requires
        conn.turns[nic] < usize::MAX,
    ensures
        rotation_of(conn, nic, None) == conn.turns[nic],
        rotation_of(conn, nic, Some(rotation)) == rotation,
        turned_queue_pairs(engine, conn, nodes, descs, Some(rotation), nic) == conn.turns[nic],
        batch_fault(engine, conn, nodes, descs, nic) is None && carried(
            engine.numa_rr@,
            nodes,
            descs,
            nic,
            descs.len() as int,
        ).len() > 0 ==> turned_queue_pairs(engine, conn, nodes, descs, None, nic) == conn.turns[nic]
            + 1,
        carried(engine.numa_rr@, nodes, descs, nic, descs.len() as int).len() == 0
            ==> turned_queue_pairs(engine, conn, nodes, descs, None, nic) == conn.turns[nic],
{
}

/// A transfer can be made exactly if it moves something, its local end lies in registered memory
/// as a whole, and its remote end lies in memory that the peer has told of. It then has the keys
/// of these for its NIC, and moves what it was asked to.
pub proof fn law_transfers_need_registered_memory(
    engine: TransferEngine,
    nic: int,
    first_qpn: u32,
    d: TransferDesc,
    i: int,
    j: int,
)
    requires
        0 <= i < engine.regions().len(),
        engine.regions()[i].0 + engine.regions()[i].1.len <= u64::MAX,
        engine.regions()[i].0 <= d.local_ptr,
        d.local_ptr + d.len <= engine.regions()[i].0 + engine.regions()[i].1.len,
        forall|k: int|
            0 <= k < i ==> !((#[trigger] engine.regions()[k]).0 + engine.regions()[k].1.len
                <= u64::MAX && engine.regions()[k].0 <= d.local_ptr && d.local_ptr + d.len
                <= engine.regions()[k].0 + engine.regions()[k].1.len),
        engine.nics@[nic].memory_map().contains_key(first_qpn),
        sorted_apart(engine.nics@[nic].memory_map()[first_qpn]),
        0 <= j < engine.nics@[nic].memory_map()[first_qpn].len(),
        engine.nics@[nic].memory_map()[first_qpn][j].base_ptr <= d.remote_ptr,
        d.remote_ptr + d.len <= engine.nics@[nic].memory_map()[first_qpn][j].end_ptr,
        d.len > 0,
    ensures
        op_fault(engine, nic, first_qpn, d) is None,
        op_of(engine, nic, first_qpn, d) == (RdmaOp {
            local_lkey: engine.regions()[i].1.mrs[nic].lkey,
            local_ptr: d.local_ptr,
            remote_ptr: d.remote_ptr,
            len: d.len,
            remote_rkey: engine.nics@[nic].memory_map()[first_qpn][j].rkey,
        }),
{
    law_the_first_region_around_counts(engine.regions(), d.local_ptr, d.len as nat, i);
    law_key_is_of_the_region_around(
        engine.nics@[nic].memory_map()[first_qpn],
        d.remote_ptr,
        d.len as nat,
        j,
    );
}

/// A transfer of nothing is refused, and so is one whose local end lies in no registered memory or
/// whose remote end lies in no memory of the peer, in this order.
pub proof fn law_other_transfers_are_refused(
    engine: TransferEngine,
    nic: int,
    first_qpn: u32,
    d: TransferDesc,
)
    ensures
        d.len == 0 ==> op_fault(engine, nic, first_qpn, d) == Some(OpFault::ZeroLength),
        d.len > 0 && (forall|k: int|
            0 <= k < engine.regions().len() ==> !((#[trigger] engine.regions()[k]).0
                + engine.regions()[k].1.len <= u64::MAX && engine.regions()[k].0 <= d.local_ptr
                && d.local_ptr + d.len <= engine.regions()[k].0 + engine.regions()[k].1.len))
            ==> op_fault(engine, nic, first_qpn, d) == Some(
            OpFault::LocalMemory { ptr: d.local_ptr },
        ),
        !engine.nics@[nic].memory_map().contains_key(first_qpn) ==> op_fault(
            engine,
            nic,
            first_qpn,
            d,
        ) is Some,
        engine.nics@[nic].memory_map().contains_key(first_qpn) && sorted_apart(
            engine.nics@[nic].memory_map()[first_qpn],
        ) && (forall|k: int|
            0 <= k < engine.nics@[nic].memory_map()[first_qpn].len() ==> !((
            #[trigger] engine.nics@[nic].memory_map()[first_qpn][k]).base_ptr <= d.remote_ptr
                && d.remote_ptr + d.len <= engine.nics@[nic].memory_map()[first_qpn][k].end_ptr))
            ==> op_fault(engine, nic, first_qpn, d) is Some,
{
    law_no_region_around_means_none(engine.regions(), d.local_ptr, d.len as nat);
    let nic_state = engine.nics@[nic];
    if nic_state.memory_map().contains_key(first_qpn) {
        let entries = nic_state.memory_map()[first_qpn];
        if sorted_apart(entries) && (forall|k: int|
            0 <= k < entries.len() ==> !((#[trigger] entries[k]).base_ptr <= d.remote_ptr
                && d.remote_ptr + d.len <= entries[k].end_ptr)) {
            law_no_key_outside_regions(entries, d.remote_ptr, d.len as nat);
        }
    }
}

/// A list of transfers is refused exactly if one of them is, for the first that is.
pub proof fn law_the_first_fault_counts(
    engine: TransferEngine,
    nic: int,
    first_qpn: u32,
    descs: Seq<TransferDesc>,
    i: int,
)
    ensures
        (forall|k: int|
            0 <= k < descs.len() ==> op_fault(engine, nic, first_qpn, #[trigger] descs[k]) is None)
            ==> first_fault(engine, nic, first_qpn, descs) is None,
        0 <= i < descs.len() && op_fault(engine, nic, first_qpn, descs[i]) is Some && (forall|k: int|
            0 <= k < i ==> op_fault(engine, nic, first_qpn, #[trigger] descs[k]) is None)
            ==> first_fault(engine, nic, first_qpn, descs) == op_fault(
            engine,
            nic,
            first_qpn,
            descs[i],
        ),
    decreases descs.len(),
{
    if descs.len() > 0 {
        let front = descs.drop_last();
        law_the_first_fault_counts(engine, nic, first_qpn, front, i);
        assert(descs[descs.len() - 1] == descs.last());
        assert forall|k: int| 0 <= k < front.len() implies front[k] == #[trigger] descs[k] by {}
    }
}

/// A batch is refused exactly if what one of the NICs is to carry is, for the first such NIC.
pub proof fn law_the_first_faulty_nic_counts(
    engine: TransferEngine,
    conn: ConnView,
    nodes: Seq<NumaNode>,
    descs: Seq<TransferDesc>,
    k: int,
    n: int,
)
    requires
        0 <= k < n,
    ensures
        ({
            let fault = |q: int|
                first_fault(
                    engine,
                    q,
                    conn.first_qpns[q],
                    carried(engine.numa_rr@, nodes, descs, q, descs.len() as int),
                );
            &&& batch_fault(engine, conn, nodes, descs, n) is None ==> fault(k) is None
            &&& fault(k) is Some && batch_fault(engine, conn, nodes, descs, k) is None
                ==> batch_fault(engine, conn, nodes, descs, n) == fault(k)
            &&& batch_fault(engine, conn, nodes, descs, 0) is None
            &&& batch_fault(engine, conn, nodes, descs, n - 1) is None && fault(n - 1) is None
                ==> batch_fault(engine, conn, nodes, descs, n) is None
        }),
    decreases n,
{
    if k < n - 1 {
        law_the_first_faulty_nic_counts(engine, conn, nodes, descs, k, n - 1);
    }
}

/// Work is shown whole and in order, and what is posted of it are its transfers.
pub proof fn law_work_is_shown_whole(
    work: Seq<QpWork>,
    ops: Seq<RdmaOp>,
    views: Seq<WorkView>,
    w: WorkView,
    i: int,
)
    ensures
        work_views(work).len() == work.len(),
        0 <= i < work.len() ==> work_views(work)[i].nic == work[i].nic && work_views(work)[i].qp_num
            == work[i].qp_num && work_views(work)[i].ops == work[i].ops@,
        descs_of(ops).len() == ops.len(),
        0 <= i < ops.len() ==> descs_of(ops)[i].local_ptr == ops[i].local_ptr
            && descs_of(ops)[i].remote_ptr == ops[i].remote_ptr && descs_of(ops)[i].len
            == ops[i].len,
        posted(Seq::empty()) == Multiset::<TransferDesc>::empty(),
        posted(views.push(w)) == posted(views).add(descs_of(w.ops).to_multiset()),
{
    assert(views.push(w).drop_last() =~= views);
}

} // verus!
