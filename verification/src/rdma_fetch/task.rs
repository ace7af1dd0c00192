//! A fetch as a whole: which node is asked, whether the blocks may be read now, how long the
//! transfers may take, and what follows from what happens.

use vstd::prelude::*;
use vstd::string::*;
use crate::block::{byte_views, capped};
use crate::issue23::experiment::{frozen_prefix, Issue23CausalExperiment};
use crate::issue23::gate::first_failure;
use crate::keyed::{as_map, find_named, lemma_place, lemma_push, lemma_remove, named, unique_keys};
use crate::rdma_fetch::segments::{TransferBlockInfo, TransferSlotInfo};
use crate::tailguard::{
    denial, refill, released, reserved, within_limits, AdmissionDenial, BucketState,
    TailGuardRemoteReadConfig, TailGuardRemoteReadController, TailGuardRemoteReadPermit,
};
use crate::text::{has_prefix, join2, same_text, starts_with};
use crate::transfer::types::TransferOutcome;

verus! {

/// The least time that a transfer is given, in seconds.
pub const MIN_TRANSFER_TIMEOUT_SECS: u64 = 10;

/// How long before the server releases its lock a transfer has to be over, in
/// seconds.
pub const LOCK_TIMEOUT_MARGIN_SECS: u64 = 60;

/// A node that has a prefix of the wanted blocks.
#[derive(Debug)]
pub struct NodePrefix {
    pub node: String,
    pub prefix_len: usize,
}

/// Whether node `i` can be asked: it is not this one.
pub open spec fn is_remote(nodes: Seq<NodePrefix>, own: Seq<char>, i: int) -> bool {
    0 <= i < nodes.len() && nodes[i].node@ != own
}

/// Whether node `i` has the longest prefix of all other nodes, and is the last
/// one with it.
pub open spec fn is_best(nodes: Seq<NodePrefix>, own: Seq<char>, i: int) -> bool {
    &&& is_remote(nodes, own, i)
    &&& forall|j: int| #[trigger]
        is_remote(nodes, own, j) ==> nodes[j].prefix_len <= nodes[i].prefix_len && (
        nodes[j].prefix_len == nodes[i].prefix_len ==> j <= i)
}

/// The node to ask for blocks: the one other than this with the longest prefix.
pub fn best_remote(nodes: &[NodePrefix], advertise_addr: &str) -> (r: Option<usize>)
    ensures
        match r {
            Some(i) => is_best(nodes@, advertise_addr@, i as int),
            None => forall|i: int| !#[trigger] is_remote(nodes@, advertise_addr@, i),
        },
{
    let mut best: Option<usize> = None;
    let mut i: usize = 0;
    while i < nodes.len()
        invariant
            i <= nodes@.len(),
            match best {
                Some(b) => {
                    &&& b < i
                    &&& is_remote(nodes@, advertise_addr@, b as int)
                    &&& forall|j: int|
                        j < i && #[trigger] is_remote(nodes@, advertise_addr@, j)
                            ==> nodes@[j].prefix_len <= nodes@[b as int].prefix_len && (
                        nodes@[j].prefix_len == nodes@[b as int].prefix_len ==> j <= b)
                },
                None => forall|j: int| j < i ==> !#[trigger] is_remote(nodes@, advertise_addr@, j),
            },
        decreases nodes@.len() - i,
    {
        if !same_text(&nodes[i].node, advertise_addr) {
            assert(is_remote(nodes@, advertise_addr@, i as int));
            let better: bool = match best {
                Some(b) => nodes[i].prefix_len >= nodes[b].prefix_len,
                None => true,
            };
            if better {
                best = Some(i);
            }
        } else {
            assert(!is_remote(nodes@, advertise_addr@, i as int));
        }
        i += 1;
    }
    best
}

/// How much of a prefix is fetched from a node that has `available` blocks of it; none
/// where that is refused.
pub open spec fn allowed_prefix(
    experiment: Option<&Issue23CausalExperiment>,
    req_id: Seq<char>,
    hashes: Seq<Vec<u8>>,
    available: nat,
) -> nat {
    match experiment {
        None => available,
        Some(e) => match frozen_prefix(e.plan(), req_id, byte_views(hashes), available) {
            Ok(n) => n,
            Err(_) => 0,
        },
    }
}

/// Where a prefix of blocks is fetched from, and how much of it, given what the server
/// knows of the nodes that have it, if it answered. An experiment may allow less than the
/// best node has.
pub fn remote_prefix(
    experiment: Option<&Issue23CausalExperiment>,
    req_id: &str,
    hashes: &[Vec<u8>],
    nodes: Option<&[NodePrefix]>,
    advertise_addr: &str,
) -> (r: Option<(String, usize)>)
    requires
        experiment matches Some(e) ==> e.wf(),
    ensures
        match r {
            Some((node, len)) => {
                &&& hashes@.len() > 0
                &&& len > 0
                &&& nodes matches Some(list) && exists|i: int| #[trigger]
                    is_best(list@, advertise_addr@, i) && node@ == list@[i].node@ && len
                        == allowed_prefix(
                        experiment,
                        req_id@,
                        hashes@,
                        list@[i].prefix_len as nat,
                    )
            },
            None => hashes@.len() == 0 || match nodes {
                None => true,
                Some(list) => forall|i: int| #[trigger]
                    is_best(list@, advertise_addr@, i) ==> allowed_prefix(
                        experiment,
                        req_id@,
                        hashes@,
                        list@[i].prefix_len as nat,
                    ) == 0,
            },
        },
{
    if hashes.len() == 0 {
        return None;
    }
    let list: &[NodePrefix] = match nodes {
        Some(list) => list,
        None => {
            return None;
        },
    };
    let i: usize = match best_remote(list, advertise_addr) {
        Some(i) => i,
        None => {
            return None;
        },
    };
    proof {
        assert forall|j: int| #[trigger] is_best(list@, advertise_addr@, j) implies j == i by {
            assert(is_remote(list@, advertise_addr@, j));
            assert(is_remote(list@, advertise_addr@, i as int));
        }
    }
    let available: usize = list[i].prefix_len;
    let len: usize = match experiment {
        Some(e) => match e.frozen_remote_prefix_len(req_id, hashes, available) {
            Ok(len) => len,
            Err(_) => {
                return None;
            },
        },
        None => available,
    };
    if len == 0 {
        return None;
    }
    assert(is_best(list@, advertise_addr@, i as int));
    Some((list[i].node.clone(), len))
}

/// The time that a transfer is given under a lock, in seconds: the time of the lock less a
/// margin, but the least time in any case.
pub open spec fn transfer_timeout(lock_timeout_secs: u32) -> int {
    if lock_timeout_secs < LOCK_TIMEOUT_MARGIN_SECS + MIN_TRANSFER_TIMEOUT_SECS {
        MIN_TRANSFER_TIMEOUT_SECS as int
    } else {
        lock_timeout_secs - LOCK_TIMEOUT_MARGIN_SECS
    }
}

/// A transfer's time runs out before the server releases its lock, wherever the lock is held
/// for longer than the least time that a transfer is given.
pub proof fn law_transfers_end_before_the_lock(lock_timeout_secs: u32)
    requires
        lock_timeout_secs > MIN_TRANSFER_TIMEOUT_SECS,
    ensures
        transfer_timeout(lock_timeout_secs) < lock_timeout_secs,
{
}

/// The time that a transfer is given: it ends well before the server releases
/// its lock, but is given the least time in any case. In seconds.
pub fn transfer_timeout_from_server(lock_timeout_secs: u32) -> (r: u64)
    ensures
        r == transfer_timeout(lock_timeout_secs),
{
    let server: u64 = lock_timeout_secs as u64;
    let left: u64 = server.saturating_sub(LOCK_TIMEOUT_MARGIN_SECS);
    if left < MIN_TRANSFER_TIMEOUT_SECS {
        MIN_TRANSFER_TIMEOUT_SECS
    } else {
        left
    }
}

/// The URL of a peer: an address that names no scheme is one over HTTP.
pub open spec fn url_of(addr: Seq<char>) -> Seq<char> {
    if has_prefix(addr, "http://"@) || has_prefix(addr, "https://"@) {
        addr
    } else {
        "http://"@ + addr
    }
}

/// The URL of a peer.
pub fn channel_url(addr: &str) -> (r: String)
    ensures
        r@ == url_of(addr@),
{
    if starts_with(addr, "http://") || starts_with(addr, "https://") {
        String::from_str(addr)
    } else {
        join2("http://", addr)
    }
}

/// What a peer says of a query.
#[derive(Debug)]
pub struct ReplyStatus {
    pub ok: bool,
    pub message: String,
}

/// Whether a peer answered a query: an answer that says nothing of how it went did.
pub fn check_reply(status: Option<&ReplyStatus>) -> (r: Result<(), String>)
    ensures
        match status {
            Some(s) => if s.ok {
                r is Ok
            } else {
                r matches Err(m) && m@ == "remote returned error: "@ + s.message@
            },
            None => r is Ok,
        },
{
    match status {
        Some(s) => if s.ok {
            Ok(())
        } else {
            Err(join2("remote returned error: ", &s.message))
        },
        None => Ok(()),
    }
}

/// What waiting for the parts of a transfer came to. Without outcomes the time
/// ran out; otherwise the first part that failed decides, after all have ended.
pub fn wait_for_rdma(outcomes: Option<&Vec<TransferOutcome>>) -> (r: Result<(), String>)
    ensures
        match outcomes {
            None => r matches Err(m) && m@ == "RDMA transfer timed out"@,
            Some(list) => match first_failure(list@) {
                Some(e) => r matches Err(m) && m@ == e,
                None => r is Ok,
            },
        },
{
    match outcomes {
        None => Err(String::from_str("RDMA transfer timed out")),
        Some(list) => match crate::issue23::gate::rdma_result(list) {
            Ok(_) => Ok(()),
            Err(m) => Err(m),
        },
    }
}

/// What a fetch does next, and what it reports.
#[derive(Debug)]
pub struct FetchStep {
    pub next: FetchState,
    /// Whether the connection to the peer is given up.
    pub invalidate_connection: bool,
    /// The transfer lock to release at the peer, if any.
    pub release_lock: Option<String>,
    /// The permit to give back, if the read was made under one.
    pub permit: Option<TailGuardRemoteReadPermit>,
    /// How the fetch ended, once it has.
    pub status: Option<FetchStatus>,
}

/// How a fetch ended.
#[derive(Clone, Copy, Debug, PartialEq, Eq, Structural)]
pub enum FetchStatus {
    /// The blocks were fetched.
    Fetched,
    /// No block was fetched; they are missing.
    Missing,
}

/// Where a fetch stands.
#[derive(Debug)]
pub enum FetchState {
    /// A connection to the peer is made.
    Connecting,
    /// The peer is asked where the blocks lie, and locks them.
    Querying,
    /// The blocks are transferred under the lock of this session, and under a permit where
    /// reads are limited.
    Transferring { session: String, permit: Option<TailGuardRemoteReadPermit> },
    /// The fetch is over.
    Done,
}

/// What happened to a fetch.
#[derive(Debug)]
pub enum FetchEvent {
    Connected,
    ConnectFailed,
    /// The blocks were located and may be read.
    Located { session: String, permit: Option<TailGuardRemoteReadPermit> },
    /// The blocks were located, but may not be read now.
    Denied { session: String },
    QueryFailed,
    Transferred,
    TransferFailed,
    /// Nobody waits for the blocks any more.
    Cancelled,
}

/// The lock of a session, which has to be released; there is none without a
/// session.
pub open spec fn lock_of(session: Seq<char>) -> Option<Seq<char>> {
    if session.len() == 0 {
        None
    } else {
        Some(session)
    }
}

/// The lock that is held when a fetch ends, and that has to be released. That of a fetch that
/// was cancelled is left to run out at the peer.
pub open spec fn held_lock(state: FetchState, event: FetchEvent) -> Option<Seq<char>> {
    match (state, event) {
        (_, FetchEvent::Cancelled) => None,
        (FetchState::Transferring { session, .. }, _) => lock_of(session@),
        (_, FetchEvent::Denied { session }) => lock_of(session@),
        _ => None,
    }
}

fn release(session: String) -> (r: Option<String>)
    ensures
        match r {
            Some(s) => lock_of(session@) == Some(s@),
            None => lock_of(session@) is None,
        },
{
    if session.as_str().is_empty() {
        None
    } else {
        Some(session)
    }
}

/// How many bytes a block has.
pub open spec fn block_bytes(slots: Seq<TransferSlotInfo>) -> nat
    decreases slots.len(),
{
    if slots.len() == 0 {
        0
    } else {
        block_bytes(slots.drop_last()) + slots.last().k_size as nat + slots.last().v_size as nat
    }
}

/// How many bytes some blocks have.
pub open spec fn bundle_size(blocks: Seq<TransferBlockInfo>) -> nat
    decreases blocks.len(),
{
    if blocks.len() == 0 {
        0
    } else {
        bundle_size(blocks.drop_last()) + block_bytes(blocks.last().slots@)
    }
}

/// How many bytes some blocks have, as far as they can be counted.
pub fn bundle_bytes(blocks: &[TransferBlockInfo]) -> (r: u64)
    ensures
        r == capped(bundle_size(blocks@)),
{
    let mut total: u64 = 0;
    let mut i: usize = 0;
    assert(blocks@.take(0) =~= Seq::<TransferBlockInfo>::empty());
    while i < blocks.len()
        invariant
            i <= blocks@.len(),
            total == capped(bundle_size(blocks@.take(i as int))),
        decreases blocks@.len() - i,
    {
        let ghost before = bundle_size(blocks@.take(i as int));
        let slots: &Vec<TransferSlotInfo> = &blocks[i].slots;
        let mut k: usize = 0;
        assert(slots@.take(0) =~= Seq::<TransferSlotInfo>::empty());
        while k < slots.len()
            invariant
                k <= slots@.len(),
                total == capped(before + block_bytes(slots@.take(k as int))),
            decreases slots@.len() - k,
        {
            assert(slots@.take(k + 1).drop_last() =~= slots@.take(k as int));
            total = total.saturating_add(slots[k].k_size);
            total = total.saturating_add(slots[k].v_size);
            k += 1;
        }
        proof {
            assert(slots@.take(k as int) =~= slots@);
            assert(blocks@.take(i + 1).drop_last() =~= blocks@.take(i as int));
        }
        i += 1;
    }
    assert(blocks@.take(i as int) =~= blocks@);
    total
}

/// Whether located blocks may be read.
#[derive(Debug)]
pub enum Admission {
    /// Reads are not limited.
    Unlimited,
    /// They may, under this permit, which is given back when the read has ended.
    Admitted(TailGuardRemoteReadPermit),
    /// They may not.
    Denied(AdmissionDenial),
}

/// Whether a limited read of `bytes` at the time `now` is answered as the limits have it.
pub open spec fn admits(
    c: TailGuardRemoteReadConfig,
    s: BucketState,
    bytes: u64,
    now: u64,
    r: Admission,
) -> bool {
    match r {
        Admission::Admitted(permit) => permit.bytes() == bytes && denial(
            c,
            refill(c, s, now),
            bytes,
        ) is None,
        Admission::Denied(d) => denial(c, refill(c, s, now), bytes) == Some(d),
        Admission::Unlimited => false,
    }
}

/// Whether located blocks may be read, before memory is allocated for them: exactly as many
/// bytes as they have are reserved.
pub fn admit_read(
    controller: Option<&mut TailGuardRemoteReadController>,
    blocks: &[TransferBlockInfo],
    now: u64,
) -> (r: Admission)
    requires
        controller matches Some(c) ==> c.wf(),
    ensures
        match controller {
            None => r is Unlimited,
            Some(c) => {
                let bytes = capped(bundle_size(blocks@)) as u64;
                &&& final(c).wf()
                &&& final(c).config() == c.config()
                &&& final(c).state() == reserved(c.config(), c.state(), bytes, now)
                &&& admits(c.config(), c.state(), bytes, now, r)
            },
        },
{
    match controller {
        None => Admission::Unlimited,
        Some(c) => {
            let bytes: u64 = bundle_bytes(blocks);
            match c.try_reserve_at(bytes, now) {
                Ok(permit) => Admission::Admitted(permit),
                Err(d) => Admission::Denied(d),
            }
        },
    }
}

/// The requests whose reads were denied. A request that asks again is told the same, so that
/// what is missing can be computed.
#[derive(Debug)]
pub struct DeniedReads {
    denied: Vec<(String, AdmissionDenial)>,
}

impl DeniedReads {
    /// Why which requests were denied.
    pub closed spec fn map(self) -> Map<Seq<char>, AdmissionDenial> {
        as_map(named(self.denied@))
    }

    /// No request occurs twice.
    pub closed spec fn wf(self) -> bool {
        unique_keys(named(self.denied@))
    }

    /// No request was denied.
    pub fn new() -> (r: Self)
        ensures
            r.wf(),
            r.map() == Map::<Seq<char>, AdmissionDenial>::empty(),
    {
        let r: DeniedReads = DeniedReads { denied: Vec::new() };
        assert(r.map() =~= Map::<Seq<char>, AdmissionDenial>::empty());
        r
    }

    /// Whether located blocks may be read for a request. What was denied once stays denied;
    /// nothing is reserved for it.
    pub fn admit_request(
        &mut self,
        controller: Option<&mut TailGuardRemoteReadController>,
        request: &str,
        blocks: &[TransferBlockInfo],
        now: u64,
    ) -> (r: Admission)
        requires
            old(self).wf(),
            controller matches Some(c) ==> c.wf(),
        ensures
            final(self).wf(),
            if old(self).map().contains_key(request@) {
                &&& r == Admission::Denied(old(self).map()[request@])
                &&& final(self).map() == old(self).map()
                &&& controller matches Some(c) ==> *final(c) == *c
            } else {
                match controller {
                    None => r is Unlimited && final(self).map() == old(self).map(),
                    Some(c) => {
                        let bytes = capped(bundle_size(blocks@)) as u64;
                        &&& final(c).wf()
                        &&& final(c).config() == c.config()
                        &&& final(c).state() == reserved(c.config(), c.state(), bytes, now)
                        &&& admits(c.config(), c.state(), bytes, now, r)
                        &&& final(self).map() == match r {
                            Admission::Denied(d) => old(self).map().insert(request@, d),
                            _ => old(self).map(),
                        }
                    },
                }
            },
    {
        if let Some(i) = find_named(&self.denied, request) {
            proof {
                lemma_place(named(self.denied@), request@, i as int);
            }
            return Admission::Denied(self.denied[i].1);
        }
        let ghost before = named(self.denied@);
        let r: Admission = admit_read(controller, blocks, now);
        if let Admission::Denied(d) = &r {
            self.denied.push((String::from_str(request), *d));
            proof {
                lemma_push(before, request@, *d);
                assert(named(self.denied@) =~= before.push((request@, *d)));
            }
        }
        r
    }

    /// A request is over.
    pub fn forget(&mut self, request: &str)
        requires
            old(self).wf(),
        ensures
            final(self).wf(),
            final(self).map() == old(self).map().remove(request@),
    {
        let ghost before = named(self.denied@);
        if let Some(i) = find_named(&self.denied, request) {
            self.denied.remove(i);
            proof {
                lemma_remove(before, i as int);
                assert(named(self.denied@) =~= before.remove(i as int));
            }
        } else {
            assert(as_map(before).remove(request@) =~= as_map(before));
        }
    }
}

/// Whether an event can come where a fetch stands.
pub open spec fn can_come(state: FetchState, event: FetchEvent) -> bool {
    match state {
        FetchState::Connecting => event is Connected || event is ConnectFailed || event is Cancelled,
        FetchState::Querying => event is Located || event is Denied || event is QueryFailed
            || event is Cancelled,
        FetchState::Transferring { .. } => event is Transferred || event is TransferFailed
            || event is Cancelled,
        FetchState::Done => false,
    }
}

/// The permit that a fetch holds.
pub open spec fn held_permit(state: FetchState) -> Option<TailGuardRemoteReadPermit> {
    match state {
        FetchState::Transferring { permit, .. } => permit,
        _ => None,
    }
}

/// Whether a step is what follows from an event.
pub open spec fn follows(state: FetchState, event: FetchEvent, r: FetchStep) -> bool {
    &&& match event {
        FetchEvent::Connected => r.next is Querying,
        FetchEvent::Located { session, permit } => r.next matches FetchState::Transferring {
            session: s,
            permit: p,
        } && s@ == session@ && p == permit,
        _ => r.next is Done,
    }
    &&& r.invalidate_connection == (event is TransferFailed)
    &&& match r.release_lock {
        Some(s) => held_lock(state, event) == Some(s@),
        None => held_lock(state, event) is None,
    }
    &&& r.permit == held_permit(state)
    &&& r.status == match event {
        FetchEvent::Connected | FetchEvent::Located { .. } => None::<FetchStatus>,
        FetchEvent::Transferred => Some(FetchStatus::Fetched),
        _ => Some(FetchStatus::Missing),
    }
}

/// What follows from an event: a failed connection or query ends the fetch; after
/// a transfer the lock is released, and a failed one gives the connection up. A read
/// that is denied ends it too, with the lock released and nothing transferred. However
/// a transfer ends, its permit comes back.
pub fn fetch_step(state: FetchState, event: FetchEvent) -> (r: FetchStep)
    requires
        can_come(state, event),
    ensures
        follows(state, event, r),
{
    let (lock, permit): (Option<String>, Option<TailGuardRemoteReadPermit>) = match state {
        FetchState::Transferring { session, permit } => (release(session), permit),
        _ => (None, None),
    };
    match event {
        FetchEvent::Denied { session } => FetchStep {
            next: FetchState::Done,
            invalidate_connection: false,
            release_lock: release(session),
            permit,
            status: Some(FetchStatus::Missing),
        },
        FetchEvent::Connected => FetchStep {
            next: FetchState::Querying,
            invalidate_connection: false,
            release_lock: lock,
            permit,
            status: None,
        },
        FetchEvent::Located { session, permit: granted } => FetchStep {
            next: FetchState::Transferring { session, permit: granted },
            invalidate_connection: false,
            release_lock: lock,
            permit,
            status: None,
        },
        FetchEvent::Transferred => FetchStep {
            next: FetchState::Done,
            invalidate_connection: false,
            release_lock: lock,
            permit,
            status: Some(FetchStatus::Fetched),
        },
        FetchEvent::TransferFailed => FetchStep {
            next: FetchState::Done,
            invalidate_connection: true,
            release_lock: lock,
            permit,
            status: Some(FetchStatus::Missing),
        },
        FetchEvent::ConnectFailed | FetchEvent::QueryFailed => FetchStep {
            next: FetchState::Done,
            invalidate_connection: false,
            release_lock: lock,
            permit,
            status: Some(FetchStatus::Missing),
        },
        FetchEvent::Cancelled => FetchStep {
            next: FetchState::Done,
            invalidate_connection: false,
            release_lock: None,
            permit,
            status: Some(FetchStatus::Missing),
        },
    }
}

/// Whether an event is what located blocks lead to, under an answer to whether they may be read.
pub open spec fn answered(session: Seq<char>, admission: Admission, event: FetchEvent) -> bool {
    match admission {
        Admission::Unlimited => event matches FetchEvent::Located { session: s, permit } && s@
            == session && permit is None,
        Admission::Admitted(p) => event matches FetchEvent::Located { session: s, permit } && s@
            == session && permit == Some(p),
        Admission::Denied(_) => event matches FetchEvent::Denied { session: s } && s@ == session,
    }
}

/// What located blocks lead to: they are read, under the permit if there is one, or the read is
/// denied.
pub fn located(session: String, admission: Admission) -> (r: FetchEvent)
    ensures
        answered(session@, admission, r),
{
    match admission {
        Admission::Unlimited => FetchEvent::Located { session, permit: None },
        Admission::Admitted(p) => FetchEvent::Located { session, permit: Some(p) },
        Admission::Denied(_) => FetchEvent::Denied { session },
    }
}

/// A bucket after the permit of a read, if there is one, was given back.
pub open spec fn given_back(s: BucketState, permit: Option<TailGuardRemoteReadPermit>) -> BucketState {
    match permit {
        Some(p) => released(s, p.bytes()),
        None => s,
    }
}

/// A read has ended: its permit, if there is one, is given back.
pub fn end_read(
    controller: Option<&mut TailGuardRemoteReadController>,
    permit: Option<TailGuardRemoteReadPermit>,
)
    requires
        controller matches Some(c) ==> c.wf(),
    ensures
        match controller {
            Some(c) => {
                &&& final(c).wf()
                &&& final(c).config() == c.config()
                &&& final(c).state() == given_back(c.state(), permit)
            },
            None => true,
        },
{
    if let Some(c) = controller {
        if let Some(p) = permit {
            c.release(p);
        }
    }
}

/// Every end of a fetch leaves as much under way as before its read was asked for. A read that is
/// denied ends the fetch at once and has nothing to give back. One that is admitted ends with the
/// next event, whichever it is, and then its permit comes back: it takes exactly its bytes off
/// what is under way, and so leaves the reads alone that others asked for meanwhile.
pub proof fn law_fetches_leave_nothing_under_way(
    c: TailGuardRemoteReadConfig,
    before: BucketState,
    bytes: u64,
    now: u64,
    admission: Admission,
    session: Seq<char>,
    answer: FetchEvent,
    first: FetchStep,
    end: FetchEvent,
    last: FetchStep,
    meanwhile: BucketState,
)
    requires
        c.valid(),
        within_limits(c, before),
        admits(c, before, bytes, now, admission),
        answered(session, admission, answer),
        follows(FetchState::Querying, answer, first),
        first.next is Transferring ==> can_come(first.next, end) && follows(first.next, end, last),
        meanwhile.inflight_bytes >= bytes,
    ensures
        first.permit is None,
        admission is Denied ==> {
            &&& first.next is Done
            &&& reserved(c, before, bytes, now).inflight_bytes == before.inflight_bytes
        },
        admission is Admitted ==> {
            &&& first.next is Transferring
            &&& last.next is Done
            &&& given_back(reserved(c, before, bytes, now), last.permit).inflight_bytes
                == before.inflight_bytes
            &&& given_back(meanwhile, last.permit) == (BucketState {
                inflight_bytes: (meanwhile.inflight_bytes - bytes) as u64,
                ..meanwhile
            })
        },
{
}

/// Blocks are asked of another node than this, of the one with the longest prefix, and of the last
/// of those; a node that has a longer one is never passed over.
pub proof fn law_the_longest_prefix_is_asked_for(
    nodes: Seq<NodePrefix>,
    own: Seq<char>,
    i: int,
    j: int,
)
    requires
        is_best(nodes, own, i),
        0 <= j < nodes.len(),
        nodes[j].node@ != own,
    ensures
        0 <= i < nodes.len(),
        nodes[i].node@ != own,
        nodes[j].prefix_len <= nodes[i].prefix_len,
        j > i ==> nodes[j].prefix_len < nodes[i].prefix_len,
{
    assert(is_remote(nodes, own, j));
}

/// Without an experiment the whole prefix of a node is fetched.
pub proof fn law_prefixes_are_fetched_whole(req_id: Seq<char>, hashes: Seq<Vec<u8>>, available: nat)
    ensures
        allowed_prefix(None, req_id, hashes, available) == available,
{
}

/// A transfer is given all the time until a minute before the lock runs out, and ten seconds at
/// least.
pub proof fn law_transfers_have_all_but_a_minute(lock_timeout_secs: u32)
    ensures
        lock_timeout_secs >= 70 ==> transfer_timeout(lock_timeout_secs) == lock_timeout_secs - 60,
        lock_timeout_secs < 70 ==> transfer_timeout(lock_timeout_secs) == 10,
{
}

/// The bytes of some blocks are those of both parts of all their slots.
pub proof fn law_bytes_of_blocks_add_up(
    blocks: Seq<TransferBlockInfo>,
    block: TransferBlockInfo,
    slots: Seq<TransferSlotInfo>,
    slot: TransferSlotInfo,
)
    ensures
        bundle_size(Seq::empty()) == 0,
        bundle_size(blocks.push(block)) == bundle_size(blocks) + block_bytes(block.slots@),
        block_bytes(Seq::empty()) == 0,
        block_bytes(slots.push(slot)) == block_bytes(slots) + slot.k_size + slot.v_size,
{
    assert(blocks.push(block).drop_last() =~= blocks);
    assert(slots.push(slot).drop_last() =~= slots);
}

/// However a transfer ends, but for one that is cancelled, its lock is released at the peer, if
/// it has one; so is that of a read that is denied. Only a transfer that failed gives the
/// connection up, and only one that was carried out has fetched anything.
pub proof fn law_ended_fetches_release_their_lock(
    session: String,
    permit: Option<TailGuardRemoteReadPermit>,
    event: FetchEvent,
    r: FetchStep,
)
    requires
        can_come((FetchState::Transferring { session, permit }), event),
        follows((FetchState::Transferring { session, permit }), event, r),
    ensures
        r.next is Done,
        event is Transferred || event is TransferFailed ==> (session@.len() > 0 ==> (
        r.release_lock matches Some(s) && s@ == session@)) && (session@.len() == 0
            ==> r.release_lock is None),
        event is Cancelled ==> r.release_lock is None,
        r.invalidate_connection <==> event is TransferFailed,
        r.permit == permit,
        event is Transferred ==> r.status == Some(FetchStatus::Fetched),
        !(event is Transferred) ==> r.status == Some(FetchStatus::Missing),
{
}

/// Before a transfer is under way, a fetch has no permit to give back and gives no connection up;
/// it goes on from a connection to the query and from the query to the transfer, and ends with
/// anything else. A read that is denied releases the lock that the query has taken.
pub proof fn law_fetches_go_on_step_by_step(state: FetchState, event: FetchEvent, r: FetchStep)
    requires
        state is Connecting || state is Querying,
        can_come(state, event),
        follows(state, event, r),
    ensures
        r.permit is None,
        !r.invalidate_connection,
        event is Connected ==> r.next is Querying && r.status is None && r.release_lock is None,
        event matches FetchEvent::Located { session, permit } ==> (r.next matches
            FetchState::Transferring { session: s, permit: p } && s@ == session@ && p == permit)
            && r.status is None && r.release_lock is None,
        event matches FetchEvent::Denied { session } ==> r.next is Done && r.status == Some(
            FetchStatus::Missing,
        ) && (session@.len() > 0 ==> (r.release_lock matches Some(s) && s@ == session@)),
        event is ConnectFailed || event is QueryFailed || event is Cancelled ==> r.next is Done
            && r.status == Some(FetchStatus::Missing) && r.release_lock is None,
        state is Connecting ==> event is Connected || event is ConnectFailed || event is Cancelled,
{
}

/// A peer is reached over plain HTTP, unless its address says how.
pub proof fn law_addresses_say_how_a_peer_is_reached(addr: Seq<char>)
    ensures
        url_of("http://"@ + addr) == "http://"@ + addr,
        url_of("https://"@ + addr) == "https://"@ + addr,
        !has_prefix(addr, "http://"@) && !has_prefix(addr, "https://"@) ==> url_of(addr)
            == "http://"@ + addr,
{
    let plain = "http://"@ + addr;
    let secure = "https://"@ + addr;
    assert(plain.take("http://"@.len() as int) =~= "http://"@);
    assert(secure.take("https://"@.len() as int) =~= "https://"@);
}

} // verus!
