//! One queue pair: how it is connected, and how a batch of transfers is posted on it
//! and completes.

use std::collections::HashMap;
use vstd::prelude::*;
use vstd::string::*;
use crate::text::{decimal, push_decimal};
use crate::transfer::batch::{PreparedTransferBatch, QpWork, RdmaOp};
use crate::transfer::handshake::{backend_error, refused, RcEndpoint, TransferError};
use crate::transfer::types::{TransferOp, TransferOutcome};

verus! {

broadcast use vstd::std_specs::hash::group_hash_axioms;

/// How many work requests are posted at once.
pub const MAX_WR_CHAIN_OPS: usize = 4;

/// How many work requests may wait for their completion.
pub const MAX_SEND_WR: usize = 128;

/// How many reads a queue pair may have under way at a time.
pub const MAX_RD_ATOMIC: u8 = 16;

/// The largest sequence number of a packet.
pub const PSN_MASK: u32 = 0x00ff_ffff;

/// The status of a work request that completed as it should.
pub const STATUS_SUCCESS: u32 = 0;

/// How many transfers a batch has, and how much they move.
#[derive(Clone, Copy, Debug, PartialEq, Eq, Structural)]
pub struct BatchShape {
    pub descriptors: usize,
    pub bytes: usize,
}

/// The sum of some lengths.
pub open spec fn total(lengths: Seq<usize>) -> nat
    decreases lengths.len(),
{
    if lengths.len() == 0 {
        0
    } else {
        total(lengths.drop_last()) + lengths.last() as nat
    }
}

/// A number, or the largest `usize` where that is less.
pub open spec fn capped(n: int) -> usize {
    if n > usize::MAX {
        usize::MAX
    } else {
        n as usize
    }
}

/// Counts transfers and what they move; a sum that is too large is cut off.
pub fn batch_shape(lengths: &[usize]) -> (r: BatchShape)
    ensures
        r.descriptors == lengths@.len(),
        r.bytes == capped(total(lengths@) as int),
{
    let mut bytes: usize = 0;
    let mut i: usize = 0;
    assert(lengths@.take(0) =~= Seq::<usize>::empty());
    while i < lengths.len()
        invariant
            i <= lengths@.len(),
            bytes == capped(total(lengths@.take(i as int)) as int),
        decreases lengths@.len() - i,
    {
        assert(lengths@.take(i + 1).drop_last() =~= lengths@.take(i as int));
        bytes = bytes.saturating_add(lengths[i]);
        i += 1;
    }
    assert(lengths@.take(i as int) =~= lengths@);
    BatchShape { descriptors: lengths.len(), bytes }
}

/// The lengths of some transfers.
pub open spec fn lengths_of(ops: Seq<RdmaOp>) -> Seq<usize> {
    ops.map_values(|op: RdmaOp| op.len)
}

fn op_lengths(ops: &Vec<RdmaOp>) -> (r: Vec<usize>)
    ensures
        r@ == lengths_of(ops@),
{
    let mut lengths: Vec<usize> = Vec::new();
    let mut i: usize = 0;
    while i < ops.len()
        invariant
            i <= ops@.len(),
            lengths@ == lengths_of(ops@).take(i as int),
        decreases ops@.len() - i,
    {
        lengths.push(ops[i].len);
        i += 1;
        assert(lengths@ =~= lengths_of(ops@).take(i as int));
    }
    assert(lengths@ =~= lengths_of(ops@));
    lengths
}

/// What became of the part of a batch that was handed to a queue pair.
#[derive(Debug, PartialEq, Eq)]
pub enum Submission {
    /// It is queued and will complete.
    Queued(BatchShape),
    /// It was not taken.
    Refused(TransferError),
}

/// Whether a submission is what follows from a queue pair's having taken its part
/// or not.
pub open spec fn is_submission(s: Submission, ops: Seq<RdmaOp>, taken: bool) -> bool {
    if taken {
        s matches Submission::Queued(shape) && shape.descriptors == ops.len() && shape.bytes
            == capped(total(lengths_of(ops)) as int)
    } else {
        s matches Submission::Refused(e) && backend_error(
            e,
            "session worker channel disconnected"@,
        )
    }
}

/// The submissions of a batch, given which queue pairs took their parts. A part that
/// was not taken is an outcome beside the others, so that whoever waits for the batch
/// waits for all that was queued.
pub fn submit_prepared_batch(prepared: &PreparedTransferBatch, taken: &[bool]) -> (r: Vec<
    Submission,
>)
    requires
        taken@.len() == prepared.work@.len(),
    ensures
        r@.len() == prepared.work@.len(),
        forall|k: int|
            0 <= k < r@.len() ==> is_submission(
                #[trigger] r@[k],
                prepared.work@[k].ops@,
                taken@[k],
            ),
{
    let mut r: Vec<Submission> = Vec::new();
    let mut k: usize = 0;
    while k < prepared.work.len()
        invariant
            k <= prepared.work@.len(),
            taken@.len() == prepared.work@.len(),
            r@.len() == k,
            forall|q: int|
                0 <= q < k ==> is_submission(
                    #[trigger] r@[q],
                    prepared.work@[q].ops@,
                    taken@[q],
                ),
        decreases prepared.work@.len() - k,
    {
        let lengths: Vec<usize> = op_lengths(&prepared.work[k].ops);
        r.push(
            if taken[k] {
                Submission::Queued(batch_shape(lengths.as_slice()))
            } else {
                Submission::Refused(
                    TransferError::Backend(
                        String::from_str("session worker channel disconnected"),
                    ),
                )
            },
        );
        k += 1;
    }
    r
}

/// How a part of a transfer ended, as plain values.
pub enum OutcomeView {
    Completed(usize),
    Failed(Seq<char>),
    Closed,
}

/// The plain values of an outcome.
pub open spec fn outcome_view(o: TransferOutcome) -> OutcomeView {
    match o {
        TransferOutcome::Completed(n) => OutcomeView::Completed(n),
        TransferOutcome::Failed(m) => OutcomeView::Failed(m@),
        TransferOutcome::Closed => OutcomeView::Closed,
    }
}

/// How two parts ended together: the first that did not complete decides, and otherwise
/// their bytes add up.
pub open spec fn merged(a: OutcomeView, b: OutcomeView) -> OutcomeView {
    match (a, b) {
        (OutcomeView::Completed(x), OutcomeView::Completed(y)) => OutcomeView::Completed(
            capped(x + y),
        ),
        (OutcomeView::Completed(_), _) => b,
        _ => a,
    }
}

/// How the first `n` parts ended, with the parts of a NIC taken together.
pub open spec fn by_nic(nics: Seq<usize>, outcomes: Seq<OutcomeView>, n: int) -> Seq<
    (usize, OutcomeView),
>
    decreases n,
{
    if n <= 0 {
        Seq::empty()
    } else {
        let front = by_nic(nics, outcomes, n - 1);
        if front.len() > 0 && front.last().0 == nics[n - 1] {
            front.drop_last().push((nics[n - 1], merged(front.last().1, outcomes[n - 1])))
        } else {
            front.push((nics[n - 1], outcomes[n - 1]))
        }
    }
}

/// The NICs that some work is for.
pub open spec fn nics_of(work: Seq<QpWork>) -> Seq<usize> {
    work.map_values(|w: QpWork| w.nic)
}

/// Some outcomes as plain values.
pub open spec fn outcome_views(outcomes: Seq<TransferOutcome>) -> Seq<OutcomeView> {
    outcomes.map_values(|o: TransferOutcome| outcome_view(o))
}

/// The outcomes of NICs as plain values.
pub open spec fn nic_outcome_views(v: Seq<(usize, TransferOutcome)>) -> Seq<(usize, OutcomeView)> {
    v.map_values(|e: (usize, TransferOutcome)| (e.0, outcome_view(e.1)))
}

/// The bytes that the queue pairs of a NIC completed, of the first `n` parts.
pub open spec fn completed_on(
    nics: Seq<usize>,
    outcomes: Seq<OutcomeView>,
    nic: usize,
    n: int,
) -> int
    decreases n,
{
    if n <= 0 {
        0
    } else {
        completed_on(nics, outcomes, nic, n - 1) + match outcomes[n - 1] {
            OutcomeView::Completed(bytes) if nics[n - 1] == nic => bytes as int,
            _ => 0,
        }
    }
}

/// The first of the first `n` parts that did not complete on a NIC.
pub open spec fn failed_on(
    nics: Seq<usize>,
    outcomes: Seq<OutcomeView>,
    nic: usize,
    n: int,
) -> Option<OutcomeView>
    decreases n,
{
    if n <= 0 {
        None
    } else if failed_on(nics, outcomes, nic, n - 1) is Some {
        failed_on(nics, outcomes, nic, n - 1)
    } else if nics[n - 1] == nic && !(outcomes[n - 1] is Completed) {
        Some(outcomes[n - 1])
    } else {
        None
    }
}

/// How the first `n` parts ended on a NIC: the first that did not complete, or else all that was
/// completed, as far as it can be counted.
pub open spec fn outcome_on(
    nics: Seq<usize>,
    outcomes: Seq<OutcomeView>,
    nic: usize,
    n: int,
) -> OutcomeView {
    match failed_on(nics, outcomes, nic, n) {
        Some(failure) => failure,
        None => OutcomeView::Completed(capped(completed_on(nics, outcomes, nic, n))),
    }
}

/// Whether there is one outcome for each NIC that has work among the first `n` parts and for no
/// other, in the order of the NICs, and each is how all the parts on its NIC ended together.
pub open spec fn one_for_each_nic(
    nics: Seq<usize>,
    outcomes: Seq<OutcomeView>,
    n: int,
    r: Seq<(usize, OutcomeView)>,
) -> bool {
    &&& forall|i: int, j: int| 0 <= i < j < r.len() ==> (#[trigger] r[i]).0 < (#[trigger] r[j]).0
    &&& forall|i: int| 0 <= i < r.len() ==> nics.take(n).contains((#[trigger] r[i]).0)
    &&& forall|k: int| 0 <= k < n ==> has_outcome(r, #[trigger] nics[k])
    &&& forall|i: int|
        0 <= i < r.len() ==> (#[trigger] r[i]).1 == outcome_on(nics, outcomes, r[i].0, n)
}

/// Whether a NIC has an outcome.
pub open spec fn has_outcome(r: Seq<(usize, OutcomeView)>, nic: usize) -> bool {
    exists|i: int| 0 <= i < r.len() && (#[trigger] r[i]).0 == nic
}

/// Whether work is in the order of the NICs.
pub open spec fn in_nic_order(nics: Seq<usize>) -> bool {
    forall|i: int, j: int| 0 <= i <= j < nics.len() ==> nics[i] <= nics[j]
}

/// How a batch ended on each NIC that had work, given how it ended on each queue pair: the
/// bytes that were transferred on the NIC, or the first failure.
pub fn nic_outcomes(prepared: &PreparedTransferBatch, outcomes: Vec<TransferOutcome>) -> (r: Vec<
    (usize, TransferOutcome),
>)
    requires
        outcomes@.len() == prepared.work@.len(),
    ensures
        nic_outcome_views(r@) == by_nic(
            nics_of(prepared.work@),
            outcome_views(outcomes@),
            outcomes@.len() as int,
        ),
        in_nic_order(nics_of(prepared.work@)) ==> one_for_each_nic(
            nics_of(prepared.work@),
            outcome_views(outcomes@),
            outcomes@.len() as int,
            nic_outcome_views(r@),
        ),
{
    let mut r: Vec<(usize, TransferOutcome)> = Vec::new();
    let ghost nics = nics_of(prepared.work@);
    let ghost views = outcome_views(outcomes@);
    let ghost all = outcomes@;
    let count: usize = outcomes.len();
    let mut k: usize = 0;
    assert(nic_outcome_views(r@) =~= Seq::<(usize, OutcomeView)>::empty());
    for outcome in it: outcomes
        invariant
            it.seq() == all,
            k == it.index(),
            all.len() == prepared.work@.len(),
            all.len() == count,
            nics == nics_of(prepared.work@),
            views == outcome_views(all),
            nic_outcome_views(r@) == by_nic(nics, views, k as int),
    {
        let ghost shown = nic_outcome_views(r@);
        let ghost view = outcome_view(outcome);
        let nic: usize = prepared.work[k].nic;
        assert(views[k as int] == view);
        let n: usize = r.len();
        if n > 0 && r[n - 1].0 == nic {
            match r.pop() {
                Some(last) => {
                    let ghost before = outcome_view(last.1);
                    let both: TransferOutcome = match (last.1, outcome) {
                        (
                            TransferOutcome::Completed(x),
                            TransferOutcome::Completed(y),
                        ) => TransferOutcome::Completed(x.saturating_add(y)),
                        (TransferOutcome::Completed(_), other) => other,
                        (first, _) => first,
                    };
                    assert(outcome_view(both) == merged(before, view));
                    r.push((nic, both));
                    assert(nic_outcome_views(r@) =~= shown.drop_last().push(
                        (nic, merged(before, view)),
                    ));
                },
                None => {},
            }
        } else {
            r.push((nic, outcome));
            assert(nic_outcome_views(r@) =~= shown.push((nic, view)));
        }
        k += 1;
    }
    proof {
        if in_nic_order(nics) {
            law_one_outcome_for_each_nic(nics, views, all.len() as int);
        }
    }
    r
}

proof fn lemma_nothing_on(nics: Seq<usize>, outcomes: Seq<OutcomeView>, nic: usize, n: int)
    requires
        n <= nics.len(),
        forall|k: int| 0 <= k < n ==> nics[k] != nic,
    ensures
        completed_on(nics, outcomes, nic, n) == 0,
        failed_on(nics, outcomes, nic, n) is None,
    decreases n,
{
    if n > 0 {
        lemma_nothing_on(nics, outcomes, nic, n - 1);
    }
}

proof fn lemma_completed_on(nics: Seq<usize>, outcomes: Seq<OutcomeView>, nic: usize, n: int)
    ensures
        completed_on(nics, outcomes, nic, n) >= 0,
        failed_on(nics, outcomes, nic, n) matches Some(f) ==> !(f is Completed),
    decreases n,
{
    if n > 0 {
        lemma_completed_on(nics, outcomes, nic, n - 1);
    }
}

/// Where work is in the order of the NICs, there is one outcome for each NIC that has work,
/// and for no other. It is the first failure on the NIC, or the bytes that all of its queue
/// pairs completed.
pub proof fn law_one_outcome_for_each_nic(nics: Seq<usize>, outcomes: Seq<OutcomeView>, n: int)
    requires
        0 <= n <= nics.len(),
        in_nic_order(nics),
    ensures
        one_for_each_nic(nics, outcomes, n, by_nic(nics, outcomes, n)),
        n > 0 ==> by_nic(nics, outcomes, n).len() > 0 && by_nic(nics, outcomes, n).last().0
            == nics[n - 1],
    decreases n,
{
    if n > 0 {
        law_one_outcome_for_each_nic(nics, outcomes, n - 1);
        let front = by_nic(nics, outcomes, n - 1);
        let all = by_nic(nics, outcomes, n);
        let m = all.len() - 1;
        assert(nics.take(n)[n - 1] == nics[n - 1]);
        assert forall|i: int, j: int| 0 <= i < j < all.len() implies (#[trigger] all[i]).0 < (
        #[trigger] all[j]).0 by {
            assert(all[i].0 == front[i].0);
            if j < m {
                assert(all[j].0 == front[j].0);
            } else if n > 1 {
                assert(nics[n - 2] <= nics[n - 1]);
                if i < front.len() - 1 {
                    assert(front[i].0 < front[front.len() - 1].0);
                }
            }
        }
        assert forall|i: int| 0 <= i < all.len() implies nics.take(n).contains(
            (#[trigger] all[i]).0,
        ) by {
            if i < m {
                assert(all[i].0 == front[i].0);
                let shorter = nics.take(n - 1);
                let p = choose|p: int| 0 <= p < shorter.len() && #[trigger] shorter[p]
                    == front[i].0;
                assert(nics.take(n)[p] == front[i].0);
            }
        }
        assert forall|k: int| 0 <= k < n implies has_outcome(all, #[trigger] nics[k]) by {
            if k < n - 1 {
                assert(has_outcome(front, nics[k]));
                let i = choose|i: int| 0 <= i < front.len() && (#[trigger] front[i]).0 == nics[k];
                assert(all[i].0 == nics[k]);
            } else {
                assert(all[m].0 == nics[k]);
            }
        }
        assert forall|i: int| 0 <= i < all.len() implies (#[trigger] all[i]).1 == outcome_on(
            nics,
            outcomes,
            all[i].0,
            n,
        ) by {
            let nic = all[i].0;
            lemma_completed_on(nics, outcomes, nic, n - 1);
            if i < m {
                assert(all[i] == front[i]);
                assert(all[i].0 < all[m].0);
            } else if front.len() == all.len() {
                assert(front[m].1 == outcome_on(nics, outcomes, front[m].0, n - 1));
            } else {
                assert forall|k: int| 0 <= k < n - 1 implies nics[k] != nic by {
                    assert(nics[k] <= nics[n - 2]);
                    assert(nics[n - 2] <= nics[n - 1]);
                }
                lemma_nothing_on(nics, outcomes, nic, n - 1);
            }
        }
    }
}

/// The local end of a new queue pair. Packets are numbered from the low 24 bits of
/// the seed on.
pub fn local_endpoint(gid: [u8; 16], lid: u16, qp_num: u32, psn_seed: u64) -> (r: RcEndpoint)
    ensures
        r.gid == gid,
        r.lid == lid,
        r.qp_num == qp_num,
        r.psn == psn_seed % 0x100_0000,
        r.psn <= PSN_MASK,
{
    let psn: u32 = (psn_seed as u32) & PSN_MASK;
    assert((psn_seed as u32) & 0x00ff_ffffu32 == psn_seed % 0x100_0000u64) by (bit_vector);
    RcEndpoint { gid, lid, qp_num, psn }
}

/// What kind of network a NIC is on.
#[derive(Clone, Copy, Debug, PartialEq, Eq, Structural)]
pub enum LinkLayer {
    Unspecified,
    InfiniBand,
    Ethernet,
}

/// The global part of a route.
#[derive(Clone, Copy, Debug, PartialEq, Eq)]
pub struct GlobalRoute {
    pub dest_gid: [u8; 16],
    pub src_gid_index: u8,
    pub hop_limit: u8,
}

/// The route to a peer.
#[derive(Clone, Copy, Debug, PartialEq, Eq)]
pub struct AddressVector {
    pub dest_lid: u16,
    pub service_level: Option<u8>,
    pub port: u8,
    pub global: Option<GlobalRoute>,
}

/// The attributes with which a queue pair is made ready to receive and to send.
#[derive(Clone, Copy, Debug, PartialEq, Eq)]
pub struct ConnectAttributes {
    pub address: AddressVector,
    pub dest_qp_num: u32,
    pub rq_psn: u32,
    pub max_dest_read_atomic: u8,
    pub min_rnr_timer: u8,
    pub sq_psn: u32,
    pub timeout: u8,
    pub retry_cnt: u8,
    pub rnr_retry: u8,
    pub max_read_atomic: u8,
}

/// The route to a peer over a kind of network.
pub open spec fn route(
    link: LinkLayer,
    port: u8,
    gid_index: u8,
    remote: RcEndpoint,
) -> AddressVector {
    if link == LinkLayer::InfiniBand {
        AddressVector { dest_lid: remote.lid, service_level: Some(0), port, global: None }
    } else {
        AddressVector {
            dest_lid: 0,
            service_level: None,
            port,
            global: Some(
                GlobalRoute { dest_gid: remote.gid, src_gid_index: gid_index, hop_limit: 64 },
            ),
        }
    }
}

/// How a queue pair is connected to a remote end. On InfiniBand the remote end needs
/// a local identifier; on Ethernet the route goes by its global one.
pub fn connect(
    link: LinkLayer,
    port: u8,
    gid_index: u8,
    local: &RcEndpoint,
    remote: &RcEndpoint,
) -> (r: Result<ConnectAttributes, TransferError>)
    ensures
        match r {
            Ok(a) => {
                &&& link == LinkLayer::Ethernet || (link == LinkLayer::InfiniBand && remote.lid
                    != 0)
                &&& a == (ConnectAttributes {
                    address: route(link, port, gid_index, *remote),
                    dest_qp_num: remote.qp_num,
                    rq_psn: remote.psn,
                    max_dest_read_atomic: MAX_RD_ATOMIC,
                    min_rnr_timer: 12,
                    sq_psn: local.psn,
                    timeout: 14,
                    retry_cnt: 7,
                    rnr_retry: 7,
                    max_read_atomic: MAX_RD_ATOMIC,
                })
            },
            Err(e) => {
                ||| link == LinkLayer::InfiniBand && remote.lid == 0 && refused(
                    e,
                    "remote LID is zero for InfiniBand connection"@,
                )
                ||| link == LinkLayer::Unspecified && backend_error(
                    e,
                    "unsupported link layer for RC connection: Unspecified"@,
                )
            },
        },
{
    let address: AddressVector = match link {
        LinkLayer::InfiniBand => {
            if remote.lid == 0 {
                return Err(
                    TransferError::InvalidArgument("remote LID is zero for InfiniBand connection"),
                );
            }
            AddressVector { dest_lid: remote.lid, service_level: Some(0), port, global: None }
        },
        LinkLayer::Ethernet => AddressVector {
            dest_lid: 0,
            service_level: None,
            port,
            global: Some(
                GlobalRoute { dest_gid: remote.gid, src_gid_index: gid_index, hop_limit: 64 },
            ),
        },
        LinkLayer::Unspecified => {
            return Err(
                TransferError::Backend(
                    String::from_str("unsupported link layer for RC connection: Unspecified"),
                ),
            );
        },
    };
    Ok(
        ConnectAttributes {
            address,
            dest_qp_num: remote.qp_num,
            rq_psn: remote.psn,
            max_dest_read_atomic: MAX_RD_ATOMIC,
            min_rnr_timer: 12,
            sq_psn: local.psn,
            timeout: 14,
            retry_cnt: 7,
            rnr_retry: 7,
            max_read_atomic: MAX_RD_ATOMIC,
        },
    )
}

/// A work request as it is posted.
#[derive(Clone, Copy, Debug, PartialEq, Eq, Structural)]
pub struct WorkRequest {
    pub wr_id: u64,
    pub op: TransferOp,
    pub remote_rkey: u32,
    pub remote_ptr: u64,
    pub local_lkey: u32,
    pub local_ptr: u64,
    pub len: u32,
}

/// The work request for a transfer.
pub open spec fn request_of(op: RdmaOp, direction: TransferOp, wr_id: u64) -> WorkRequest {
    WorkRequest {
        wr_id,
        op: direction,
        remote_rkey: op.remote_rkey,
        remote_ptr: op.remote_ptr,
        local_lkey: op.local_lkey,
        local_ptr: op.local_ptr,
        len: op.len as u32,
    }
}

/// What to do next for a batch.
#[derive(Clone, Copy, Debug, PartialEq, Eq, Structural)]
pub enum SessionStep {
    /// Post the transfers from one index to another, at once.
    Post { from: usize, to: usize },
    /// Wait for completions.
    Poll,
    /// All has been transferred: so many bytes.
    Done(usize),
}

/// A batch on its way through a queue pair.
#[derive(Debug)]
pub struct BatchRun {
    pub local_qpn: u32,
    pub op: TransferOp,
    pub ops: Vec<RdmaOp>,
    pub next_idx: usize,
    pub inflight: HashMap<u64, usize>,
    pub transferred: usize,
}

/// What the first `n` transfers have moved, without those that are under way. The
/// transfer with index `i` is posted as work request `i + 1`.
pub open spec fn moved(ops: Seq<RdmaOp>, inflight: Map<u64, usize>, n: int) -> nat
    decreases n,
{
    if n <= 0 {
        0
    } else {
        moved(ops, inflight, n - 1) + if inflight.contains_key(n as u64) {
            0
        } else {
            ops[n - 1].len as nat
        }
    }
}

proof fn lemma_moved_outside(
    ops: Seq<RdmaOp>,
    a: Map<u64, usize>,
    b: Map<u64, usize>,
    n: int,
)
    requires
        n <= u64::MAX,
        forall|id: u64| 1 <= id <= n ==> (a.contains_key(id) <==> b.contains_key(id)),
    ensures
        moved(ops, a, n) == moved(ops, b, n),
    decreases n,
{
    if n > 0 {
        lemma_moved_outside(ops, a, b, n - 1);
    }
}

proof fn lemma_moved_completes(ops: Seq<RdmaOp>, inflight: Map<u64, usize>, id: u64, n: int)
    requires
        n <= ops.len(),
        n <= u64::MAX,
        1 <= id <= n,
        inflight.contains_key(id),
    ensures
        moved(ops, inflight.remove(id), n) == moved(ops, inflight, n) + ops[id - 1].len,
    decreases n,
{
    if n > id {
        lemma_moved_completes(ops, inflight, id, n - 1);
    } else {
        lemma_moved_outside(ops, inflight, inflight.remove(id), n - 1);
    }
}

proof fn lemma_all_moved(ops: Seq<RdmaOp>, inflight: Map<u64, usize>, n: int)
    requires
        0 <= n <= ops.len(),
        n <= u64::MAX,
        forall|id: u64| !inflight.contains_key(id),
    ensures
        moved(ops, inflight, n) == total(lengths_of(ops).take(n)),
    decreases n,
{
    if n > 0 {
        lemma_all_moved(ops, inflight, n - 1);
        assert(lengths_of(ops).take(n).drop_last() =~= lengths_of(ops).take(n - 1));
    } else {
        assert(lengths_of(ops).take(0) =~= Seq::empty());
    }
}

impl BatchRun {
    /// Everything that is under way was posted, nothing is posted twice, no more is
    /// under way than the queue pair holds, and the rest is accounted for.
    pub open spec fn wf(self) -> bool {
        &&& self.next_idx <= self.ops@.len() < usize::MAX
        &&& self.inflight@.dom().finite()
        &&& self.inflight@.len() <= MAX_SEND_WR
        &&& forall|id: u64| #[trigger]
            self.inflight@.contains_key(id) ==> 1 <= id <= self.next_idx && self.inflight@[id]
                == self.ops@[id - 1].len
        &&& self.transferred == capped(
            moved(self.ops@, self.inflight@, self.next_idx as int) as int,
        )
    }

    /// A batch of which nothing has been posted.
    pub fn new(local_qpn: u32, op: TransferOp, ops: Vec<RdmaOp>) -> (r: Self)
        requires
            ops@.len() < usize::MAX,
        ensures
            r.wf(),
            r.local_qpn == local_qpn,
            r.op == op,
            r.ops == ops,
            r.next_idx == 0,
            r.inflight@ == Map::<u64, usize>::empty(),
            r.transferred == 0,
    {
        BatchRun {
            local_qpn,
            op,
            ops,
            next_idx: 0,
            inflight: HashMap::new(),
            transferred: 0,
        }
    }

    /// What to do next: post a chain while there is room, then wait, until nothing is
    /// left. In the end every byte of the batch has been counted.
    pub fn next_step(&self) -> (r: SessionStep)
        requires
            self.wf(),
        ensures
            match r {
                SessionStep::Post { from, to } => {
                    &&& self.next_idx < self.ops@.len()
                    &&& self.inflight@.len() < MAX_SEND_WR
                    &&& from == self.next_idx
                    &&& from < to <= self.ops@.len()
                    &&& to - from <= MAX_WR_CHAIN_OPS
                    &&& to - from <= MAX_SEND_WR - self.inflight@.len()
                    &&& to - from == MAX_WR_CHAIN_OPS || to - from == MAX_SEND_WR
                        - self.inflight@.len() || to == self.ops@.len()
                },
                SessionStep::Poll => if self.next_idx < self.ops@.len() {
                    self.inflight@.len() == MAX_SEND_WR
                } else {
                    self.inflight@.len() > 0
                },
                SessionStep::Done(bytes) => {
                    &&& self.next_idx == self.ops@.len()
                    &&& self.inflight@.len() == 0
                    &&& bytes == self.transferred
                    &&& bytes == capped(total(lengths_of(self.ops@)) as int)
                },
            },
    {
        let waiting: usize = self.inflight.len();
        if self.next_idx < self.ops.len() && waiting < MAX_SEND_WR {
            let available: usize = MAX_SEND_WR - waiting;
            let remaining: usize = self.ops.len() - self.next_idx;
            let mut chain: usize = MAX_WR_CHAIN_OPS;
            if available < chain {
                chain = available;
            }
            if remaining < chain {
                chain = remaining;
            }
            return SessionStep::Post { from: self.next_idx, to: self.next_idx + chain };
        }
        if self.next_idx < self.ops.len() || waiting > 0 {
            return SessionStep::Poll;
        }
        proof {
            assert(self.inflight@ =~= Map::<u64, usize>::empty()) by {
                assert(self.inflight@.dom() =~= Set::<u64>::empty());
            }
            lemma_all_moved(self.ops@, self.inflight@, self.next_idx as int);
            assert(lengths_of(self.ops@).take(self.next_idx as int) =~= lengths_of(self.ops@));
        }
        SessionStep::Done(self.transferred)
    }

    /// The work requests of a chain. A transfer that does not fit into one work
    /// request is refused, and then nothing is posted.
    pub fn work_requests(&self, from: usize, to: usize) -> (r: Result<
        Vec<WorkRequest>,
        TransferError,
    >)
        requires
            self.wf(),
            from <= to <= self.ops@.len(),
        ensures
            match r {
                Ok(chain) => {
                    &&& forall|i: int|
                        from <= i < to ==> (#[trigger] self.ops@[i]).len <= u32::MAX
                    &&& chain@ == Seq::new(
                        (to - from) as nat,
                        |i: int|
                            request_of(self.ops@[from + i], self.op, (from + i + 1) as u64),
                    )
                },
                Err(e) => {
                    &&& refused(e, "len exceeds RDMA SGE length limit"@)
                    &&& exists|i: int|
                        from <= i < to && (#[trigger] self.ops@[i]).len > u32::MAX
                },
            },
    {
        let mut chain: Vec<WorkRequest> = Vec::new();
        let mut i: usize = from;
        while i < to
            invariant
                self.wf(),
                from <= i <= to <= self.ops@.len(),
                forall|k: int| from <= k < i ==> (#[trigger] self.ops@[k]).len <= u32::MAX,
                chain@ == Seq::new(
                    (i - from) as nat,
                    |k: int| request_of(self.ops@[from + k], self.op, (from + k + 1) as u64),
                ),
            decreases to - i,
        {
            let op: RdmaOp = self.ops[i];
            if op.len > u32::MAX as usize {
                assert(self.ops@[i as int].len > u32::MAX);
                return Err(TransferError::InvalidArgument("len exceeds RDMA SGE length limit"));
            }
            chain.push(
                WorkRequest {
                    wr_id: i as u64 + 1,
                    op: self.op,
                    remote_rkey: op.remote_rkey,
                    remote_ptr: op.remote_ptr,
                    local_lkey: op.local_lkey,
                    local_ptr: op.local_ptr,
                    len: op.len as u32,
                },
            );
            i += 1;
            assert(chain@ =~= Seq::new(
                (i - from) as nat,
                |k: int| request_of(self.ops@[from + k], self.op, (from + k + 1) as u64),
            ));
        }
        Ok(chain)
    }

    /// Notes that the transfers up to `to` were posted.
    pub fn posted(&mut self, to: usize)
        requires
            old(self).wf(),
            old(self).next_idx <= to <= old(self).ops@.len(),
            to - old(self).next_idx <= MAX_SEND_WR - old(self).inflight@.len(),
        ensures
            final(self).wf(),
            final(self).local_qpn == old(self).local_qpn,
            final(self).op == old(self).op,
            final(self).ops == old(self).ops,
            final(self).next_idx == to,
            final(self).transferred == old(self).transferred,
            forall|id: u64| #[trigger]
                final(self).inflight@.contains_key(id) <==> old(self).inflight@.contains_key(id)
                    || old(self).next_idx < id <= to,
            final(self).inflight@.len() == old(self).inflight@.len() + (to
                - old(self).next_idx),
    {
        while self.next_idx < to
            invariant
                old(self).wf(),
                self.wf(),
                old(self).next_idx <= self.next_idx <= to <= self.ops@.len(),
                to - old(self).next_idx <= MAX_SEND_WR - old(self).inflight@.len(),
                self.local_qpn == old(self).local_qpn,
                self.op == old(self).op,
                self.ops == old(self).ops,
                self.transferred == old(self).transferred,
                self.inflight@.len() == old(self).inflight@.len() + (self.next_idx
                    - old(self).next_idx),
                forall|id: u64| #[trigger]
                    self.inflight@.contains_key(id) <==> old(self).inflight@.contains_key(id)
                        || old(self).next_idx < id <= self.next_idx,
            decreases to - self.next_idx,
        {
            let ghost before = self.inflight@;
            let i: usize = self.next_idx;
            let len: usize = self.ops[i].len;
            self.inflight.insert(i as u64 + 1, len);
            self.next_idx = i + 1;
            proof {
                lemma_moved_outside(self.ops@, before, self.inflight@, i as int);
                assert(!before.contains_key((i + 1) as u64));
                assert(self.inflight@.contains_key((i + 1) as u64));
            }
        }
    }

    /// Notes the completion of a work request, and says whether it was one of this
    /// batch. One that failed ends the batch.
    pub fn completed(&mut self, wr_id: u64, status: u32, opcode: u32, vendor_err: u32) -> (r:
        Result<bool, TransferError>)
        requires
            old(self).wf(),
        ensures
            final(self).local_qpn == old(self).local_qpn,
            final(self).op == old(self).op,
            final(self).ops == old(self).ops,
            final(self).next_idx == old(self).next_idx,
            final(self).inflight@ == old(self).inflight@.remove(wr_id),
            if !old(self).inflight@.contains_key(wr_id) {
                r == Ok::<bool, TransferError>(false) && final(self).wf()
                    && final(self).transferred == old(self).transferred
            } else if status == STATUS_SUCCESS {
                r == Ok::<bool, TransferError>(true) && final(self).wf()
                    && final(self).transferred == capped(
                    old(self).transferred + old(self).ops@[wr_id - 1].len,
                )
            } else {
                &&& final(self).transferred == old(self).transferred
                &&& r matches Err(e) && backend_error(
                    e,
                    "send completion failed: local_qpn="@ + decimal(old(self).local_qpn as nat)
                        + ", status="@ + decimal(status as nat) + ", opcode="@ + decimal(
                        opcode as nat,
                    ) + ", vendor_err="@ + decimal(vendor_err as nat),
                )
            },
    {
        let ghost before = self.inflight@;
        match self.inflight.remove(&wr_id) {
            None => {
                assert(before =~= before.remove(wr_id));
                Ok(false)
            },
            Some(bytes) => {
                if status != STATUS_SUCCESS {
                    let mut m: String = String::from_str("send completion failed: local_qpn=");
                    push_decimal(&mut m, self.local_qpn as u64);
                    m.append(", status=");
                    push_decimal(&mut m, status as u64);
                    m.append(", opcode=");
                    push_decimal(&mut m, opcode as u64);
                    m.append(", vendor_err=");
                    push_decimal(&mut m, vendor_err as u64);
                    return Err(TransferError::Backend(m));
                }
                proof {
                    lemma_moved_completes(self.ops@, before, wr_id, self.next_idx as int);
                }
                self.transferred = self.transferred.saturating_add(bytes);
                Ok(true)
            },
        }
    }

    /// The error for a completion queue that cannot be read.
    pub fn poll_failed(&self, error: &str) -> (r: TransferError)
        ensures
            backend_error(
                r,
                "poll send CQ failed: local_qpn="@ + decimal(self.local_qpn as nat) + ", "@
                    + error@,
            ),
    {
        let mut m: String = String::from_str("poll send CQ failed: local_qpn=");
        push_decimal(&mut m, self.local_qpn as u64);
        m.append(", ");
        m.append(error);
        TransferError::Backend(m)
    }
}

/// A batch whose work requests are all posted and have all succeeded is done, and has
/// moved as many bytes as it asked for, in whatever order they completed.
pub proof fn law_successful_batches_move_every_byte(run: BatchRun)
    requires
        run.wf(),
        run.next_idx == run.ops@.len(),
        run.inflight@.len() == 0,
    ensures
        run.transferred == capped(total(lengths_of(run.ops@)) as int),
{
    assert(run.inflight@.dom() =~= Set::<u64>::empty());
    lemma_all_moved(run.ops@, run.inflight@, run.next_idx as int);
    assert(lengths_of(run.ops@).take(run.next_idx as int) =~= lengths_of(run.ops@));
}

/// Bytes add up, as far as they can be counted.
pub proof fn law_bytes_of_transfers_add_up(lengths: Seq<usize>, len: usize, n: int)
    ensures
        total(Seq::empty()) == 0,
        total(lengths.push(len)) == total(lengths) + len,
        0 <= n <= usize::MAX ==> capped(n) == n,
        n > usize::MAX ==> capped(n) == usize::MAX,
{
    assert(lengths.push(len).drop_last() =~= lengths);
}

/// The outcome of a NIC is that of the first of its parts that did not complete; where all of them
/// did, it is all their bytes, as far as they can be counted. Parts of other NICs do not count.
pub proof fn law_the_first_failure_of_a_nic_counts(
    nics: Seq<usize>,
    outcomes: Seq<OutcomeView>,
    nic: usize,
    n: int,
    i: int,
)
    requires
        0 <= i < n,
    ensures
        nics[i] == nic && !(outcomes[i] is Completed) && (forall|k: int|
            0 <= k < i && nics[k] == nic ==> (#[trigger] outcomes[k]) is Completed) ==> outcome_on(
            nics,
            outcomes,
            nic,
            n,
        ) == outcomes[i],
        (forall|k: int| 0 <= k < n && nics[k] == nic ==> (#[trigger] outcomes[k]) is Completed)
            ==> outcome_on(nics, outcomes, nic, n) == OutcomeView::Completed(
            capped(completed_on(nics, outcomes, nic, n)),
        ),
        completed_on(nics, outcomes, nic, n) == completed_on(nics, outcomes, nic, n - 1) + (if nics[n
            - 1] == nic && outcomes[n - 1] is Completed {
            outcomes[n - 1]->Completed_0 as int
        } else {
            0
        }),
        completed_on(nics, outcomes, nic, 0) == 0,
{
    lemma_none_failed(nics, outcomes, nic, n);
    lemma_none_failed(nics, outcomes, nic, i);
    lemma_failure_stays(nics, outcomes, nic, i + 1, n);
}

proof fn lemma_none_failed(nics: Seq<usize>, outcomes: Seq<OutcomeView>, nic: usize, n: int)
    ensures
        (forall|k: int| 0 <= k < n && nics[k] == nic ==> (#[trigger] outcomes[k]) is Completed)
            ==> failed_on(nics, outcomes, nic, n) is None,
    decreases n,
{
    if n > 0 {
        lemma_none_failed(nics, outcomes, nic, n - 1);
    }
}

proof fn lemma_failure_stays(
    nics: Seq<usize>,
    outcomes: Seq<OutcomeView>,
    nic: usize,
    m: int,
    n: int,
)
    requires
        0 <= m <= n,
    ensures
        failed_on(nics, outcomes, nic, m) is Some ==> failed_on(nics, outcomes, nic, n)
            == failed_on(nics, outcomes, nic, m),
    decreases n,
{
    if m < n {
        lemma_failure_stays(nics, outcomes, nic, m, n - 1);
    }
}

/// A peer is reached by its local number on an InfiniBand network and by its global one on any
/// other; a work request moves exactly the bytes of its transfer, with its keys.
pub proof fn law_peers_are_reached_over_their_network(
    link: LinkLayer,
    port: u8,
    gid_index: u8,
    remote: RcEndpoint,
    op: RdmaOp,
    direction: TransferOp,
    wr_id: u64,
)
    ensures
        ({
            let a = route(link, port, gid_index, remote);
            &&& a.port == port
            &&& link == LinkLayer::InfiniBand ==> a.dest_lid == remote.lid && a.global is None
            &&& link != LinkLayer::InfiniBand ==> (a.global matches Some(g) && g.dest_gid
                == remote.gid && g.src_gid_index == gid_index && g.hop_limit == 64)
        }),
        ({
            let w = request_of(op, direction, wr_id);
            &&& w.wr_id == wr_id
            &&& w.op == direction
            &&& w.local_ptr == op.local_ptr
            &&& w.local_lkey == op.local_lkey
            &&& w.remote_ptr == op.remote_ptr
            &&& w.remote_rkey == op.remote_rkey
            &&& op.len <= u32::MAX ==> w.len == op.len
        }),
{
}

/// Work and outcomes are shown whole and in order, and a part that was taken is queued with all its
/// transfers and bytes.
pub proof fn law_outcomes_are_shown_whole(
    work: Seq<QpWork>,
    outcomes: Seq<TransferOutcome>,
    by_nic_of: Seq<(usize, TransferOutcome)>,
    ops: Seq<RdmaOp>,
    s: Submission,
    i: int,
)
    ensures
        nics_of(work).len() == work.len(),
        0 <= i < work.len() ==> nics_of(work)[i] == work[i].nic,
        outcome_views(outcomes).len() == outcomes.len(),
        0 <= i < outcomes.len() ==> match outcomes[i] {
            TransferOutcome::Completed(n) => outcome_views(outcomes)[i] == OutcomeView::Completed(n),
            TransferOutcome::Failed(m) => outcome_views(outcomes)[i] == OutcomeView::Failed(m@),
            TransferOutcome::Closed => outcome_views(outcomes)[i] == OutcomeView::Closed,
        },
        nic_outcome_views(by_nic_of).len() == by_nic_of.len(),
        0 <= i < by_nic_of.len() ==> nic_outcome_views(by_nic_of)[i].0 == by_nic_of[i].0
            && nic_outcome_views(by_nic_of)[i].1 == outcome_view(by_nic_of[i].1),
        lengths_of(ops).len() == ops.len(),
        0 <= i < ops.len() ==> lengths_of(ops)[i] == ops[i].len,
        is_submission(s, ops, true) ==> (s matches Submission::Queued(shape) && shape.descriptors
            == ops.len() && shape.bytes == capped(total(lengths_of(ops)) as int)),
        is_submission(s, ops, false) ==> s is Refused,
{
}

/// What has been moved of a batch is what was posted and is no longer under way.
pub proof fn law_moved_is_what_is_no_longer_under_way(
    ops: Seq<RdmaOp>,
    inflight: Map<u64, usize>,
    n: int,
)
    requires
        0 < n <= u64::MAX,
    ensures
        moved(ops, inflight, 0) == 0,
        moved(ops, inflight, n) == moved(ops, inflight, n - 1) + (if inflight.contains_key(
            n as u64,
        ) {
            0
        } else {
            ops[n - 1].len as int
        }),
{
}

} // verus!
