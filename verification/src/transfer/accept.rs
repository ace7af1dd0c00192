//! Both sides of a handshake: what the answer to a peer is, and what becomes of a peer's
//! answer.

use vstd::prelude::*;
use vstd::string::*;
use crate::keyed::{as_map, has_key, lookup};
use crate::text::{join2, join3};
use crate::transfer::engine::{
    all_waiting, establishes, first_memory_fault, nic_views, prepares,
    handshake_waits, pairs_match, peer_forgotten, remote_fault, same_but_waiting, taken, taken_up_to, width,
    CompleteStep, PrepareStep, TransferEngine,
};
use crate::transfer::handshake::{
    backend_error, handshake_decoding, handshake_encoding, refused, HandshakeMetadata,
    NicHandshake, RcEndpoint, TransferError,
};
use crate::transfer::state::{first_with, PerNicState};

verus! {

/// Why a handshake fails.
#[derive(Debug, PartialEq, Eq)]
pub enum HandshakeFault {
    /// This node has no NICs for transfers.
    NotConfigured,
    /// Another handshake with the peer is under way.
    InProgress,
    /// The peer answered nothing.
    EmptyReply,
    /// What the peer sent cannot be read.
    InvalidMetadata(TransferError),
    /// What the peer sent does not fit.
    Refused(TransferError),
}

/// What is said to a peer whose handshake fails; `cause` is what is said of the error.
pub open spec fn accept_text(f: HandshakeFault, addr: Seq<char>, cause: Seq<char>) -> Seq<char> {
    match f {
        HandshakeFault::NotConfigured => "RDMA transport not configured"@,
        HandshakeFault::InProgress => "handshake to "@ + addr + " already in progress"@,
        HandshakeFault::EmptyReply => "server returned empty handshake_metadata"@,
        HandshakeFault::InvalidMetadata(_) => "invalid client handshake metadata: "@ + cause,
        HandshakeFault::Refused(_) => "complete_handshake failed: "@ + cause,
    }
}

/// What is said where a handshake with a peer fails; `cause` is what is said of the error.
pub open spec fn connect_text(f: HandshakeFault, cause: Seq<char>) -> Seq<char> {
    match f {
        HandshakeFault::NotConfigured => "RDMA transport not configured"@,
        HandshakeFault::InProgress => "handshake to this peer already in progress"@,
        HandshakeFault::EmptyReply => "server returned empty handshake_metadata"@,
        HandshakeFault::InvalidMetadata(_) => "invalid metadata: "@ + cause,
        HandshakeFault::Refused(_) => cause,
    }
}

impl HandshakeFault {
    /// What is said to a peer whose handshake fails.
    pub fn accept_message(&self, addr: &str, cause: &str) -> (r: String)
        ensures
            r@ == accept_text(*self, addr@, cause@),
    {
        match self {
            HandshakeFault::NotConfigured => String::from_str("RDMA transport not configured"),
            HandshakeFault::InProgress => join3("handshake to ", addr, " already in progress"),
            HandshakeFault::EmptyReply => String::from_str(
                "server returned empty handshake_metadata",
            ),
            HandshakeFault::InvalidMetadata(_) => join2(
                "invalid client handshake metadata: ",
                cause,
            ),
            HandshakeFault::Refused(_) => join2("complete_handshake failed: ", cause),
        }
    }

    /// What is said where a handshake with a peer fails.
    pub fn connect_message(&self, cause: &str) -> (r: String)
        ensures
            r@ == connect_text(*self, cause@),
    {
        match self {
            HandshakeFault::NotConfigured => String::from_str("RDMA transport not configured"),
            HandshakeFault::InProgress => String::from_str(
                "handshake to this peer already in progress",
            ),
            HandshakeFault::EmptyReply => String::from_str(
                "server returned empty handshake_metadata",
            ),
            HandshakeFault::InvalidMetadata(_) => join2("invalid metadata: ", cause),
            HandshakeFault::Refused(_) => String::from_str(cause),
        }
    }
}

/// How a peer's handshake is answered.
#[derive(Debug)]
pub enum AcceptStep {
    /// With these bytes.
    Reply(Vec<u8>),
    /// With the metadata of new queue pairs, once they are connected to the peer's.
    Prepare(HandshakeMetadata),
}

/// Whether an error says of bytes why they are no metadata.
pub open spec fn unreadable(bytes: Seq<u8>, e: TransferError) -> bool {
    match handshake_decoding(bytes) {
        None => refused(e, "invalid handshake metadata"@),
        Some((_, taken)) => taken != bytes.len() && refused(
            e,
            "trailing bytes in handshake metadata"@,
        ),
    }
}

/// Whether bytes are metadata.
pub open spec fn readable(bytes: Seq<u8>) -> bool {
    handshake_decoding(bytes) matches Some((_, taken)) && taken == bytes.len()
}

/// The metadata in a peer's answer.
pub fn read_reply(bytes: &[u8]) -> (r: Result<HandshakeMetadata, HandshakeFault>)
    ensures
        match r {
            Ok(m) => bytes@.len() > 0 && readable(bytes@) && m@ == (handshake_decoding(
                bytes@,
            )->0).0,
            Err(HandshakeFault::EmptyReply) => bytes@.len() == 0,
            Err(HandshakeFault::InvalidMetadata(e)) => bytes@.len() > 0 && unreadable(bytes@, e),
            Err(_) => false,
        },
{
    if bytes.len() == 0 {
        return Err(HandshakeFault::EmptyReply);
    }
    match HandshakeMetadata::from_bytes(bytes) {
        Ok(m) => Ok(m),
        Err(e) => Err(HandshakeFault::InvalidMetadata(e)),
    }
}

/// Whether a node goes on with a handshake that it wants: it does not where there is a
/// connection.
pub fn connect_step(step: PrepareStep) -> (r: Result<bool, HandshakeFault>)
    ensures
        match step {
            PrepareStep::Existing => r == Ok::<bool, HandshakeFault>(false),
            PrepareStep::Prepare => r == Ok::<bool, HandshakeFault>(true),
            PrepareStep::AlreadyConnecting => r == Err::<bool, HandshakeFault>(
                HandshakeFault::InProgress,
            ),
        },
{
    match step {
        PrepareStep::Existing => Ok(false),
        PrepareStep::Prepare => Ok(true),
        PrepareStep::AlreadyConnecting => Err(HandshakeFault::InProgress),
    }
}

/// Whether a peer's bytes turn `before` into `after`, with the answer `r`.
pub open spec fn accepts(
    before: TransferEngine,
    after: TransferEngine,
    addr: Seq<char>,
    bytes: Seq<u8>,
    r: Result<AcceptStep, HandshakeFault>,
) -> bool {
    &&& after.registered == before.registered
    &&& after.qps_per_peer == before.qps_per_peer
    &&& after.numa_rr == before.numa_rr
    &&& after.psn_counter == before.psn_counter
    &&& if bytes.len() == 0 {
        &&& after == before
        &&& r matches Ok(AcceptStep::Reply(b)) && match lookup(before.conns(), addr) {
            Some(c) => b@ == handshake_encoding(c.local) && handshake_decoding(b@) == Some(
                (c.local, b@.len()),
            ),
            None => b@.len() == 0,
        }
    } else if !readable(bytes) {
        &&& after == before
        &&& r matches Err(HandshakeFault::InvalidMetadata(e)) && unreadable(bytes, e)
    } else {
        &&& peer_forgotten(before, after, addr)
        &&& if before.connecting@.contains(addr) {
            &&& r matches Err(HandshakeFault::InProgress)
            &&& after.connecting@ == before.connecting@
        } else {
            &&& r matches Ok(AcceptStep::Prepare(m)) && m@ == (handshake_decoding(bytes)->0).0
            &&& after.connecting@ == before.connecting@.insert(addr)
        }
    }
}

/// Whether the queue pairs of a handshake were taken out on every NIC, as far as they waited.
pub open spec fn all_taken(
    before: Seq<PerNicState>,
    after: Seq<PerNicState>,
    local: Seq<NicHandshake>,
) -> bool {
    forall|k: int|
        0 <= k < local.len() ==> (#[trigger] after[k]).pending@ == taken(
            before[k].pending@,
            local[k].endpoints@,
            width(local, k),
        )
}

/// Whether going on with a handshake turns `before` into `after`, with the answer `r`: where
/// the peer's part does not fit, or the queue pairs do not wait, the handshake ends.
pub open spec fn completes(
    before: TransferEngine,
    after: TransferEngine,
    addr: Seq<char>,
    local: Seq<NicHandshake>,
    remote: Seq<NicHandshake>,
    r: Result<CompleteStep, HandshakeFault>,
) -> bool {
    let n = before.nics@.len();
    let fault = remote_fault(remote, n, before.qps_per_peer, n as int);
    &&& same_but_waiting(after, before)
    &&& r is Err ==> after.connecting@ == before.connecting@.remove(addr)
    &&& if remote.len() != n {
        &&& r matches Err(HandshakeFault::Refused(e)) && refused(
            e,
            "remote NIC count mismatch in handshake"@,
        )
        &&& all_taken(before.nics@, after.nics@, local)
    } else if fault is Some {
        &&& r matches Err(HandshakeFault::Refused(e)) && backend_error(e, fault->0)
        &&& all_taken(before.nics@, after.nics@, local)
    } else if before.connected(addr) {
        &&& r matches Ok(CompleteStep::AlreadyConnected)
        &&& after.connecting@ == before.connecting@.remove(addr)
        &&& all_taken(before.nics@, after.nics@, local)
    } else if handshake_waits(before.nics@, local, n as int) {
        &&& after.connecting == before.connecting
        &&& r matches Ok(CompleteStep::Connect(pairs)) && pairs_match(
            pairs@,
            before.nics@,
            local,
            remote,
            n as int,
        )
        &&& all_taken(before.nics@, after.nics@, local)
    } else {
        &&& r matches Err(HandshakeFault::Refused(e)) && backend_error(
            e,
            "no pending session to complete"@,
        )
        &&& exists|mid: Seq<PerNicState>, q: int, m: int| #[trigger]
            taken_up_to(before.nics@, mid, local, q, m) && all_taken(mid, after.nics@, local)
    }
}

/// Whether ending a handshake turns `before` into `after`.
pub open spec fn aborts(
    before: TransferEngine,
    after: TransferEngine,
    addr: Seq<char>,
    local: Seq<NicHandshake>,
) -> bool {
    &&& same_but_waiting(after, before)
    &&& after.connecting@ == before.connecting@.remove(addr)
    &&& all_taken(before.nics@, after.nics@, local)
}

/// Whether noting a connection turns `before` into `after`, with the answer `r`: where the
/// peer's memory is not in order, the handshake ends.
pub open spec fn finishes(
    before: TransferEngine,
    after: TransferEngine,
    addr: Seq<char>,
    local: Seq<NicHandshake>,
    remote: Seq<NicHandshake>,
    r: Result<(), HandshakeFault>,
) -> bool {
    match r {
        Ok(_) => establishes(before, after, addr, local, remote, Ok(())),
        Err(HandshakeFault::Refused(e)) => exists|mid: TransferEngine| #[trigger]
            establishes(before, mid, addr, local, remote, Err(e)) && aborts(
                mid,
                after,
                addr,
                local,
            ),
        Err(_) => false,
    }
}

impl TransferEngine {
    /// How the handshake of a peer is answered. A peer that sends nothing believes that it
    /// is connected: it gets what it was sent before, or nothing where there is no
    /// connection. One that sends metadata has no connection: an old one is given up, and
    /// a new handshake begins.
    pub fn accept_handshake(&mut self, client_addr: &str, bytes: &[u8]) -> (r: Result<
        AcceptStep,
        HandshakeFault,
    >)
        requires
            old(self).wf(),
        ensures
            final(self).wf(),
            accepts(*old(self), *final(self), client_addr@, bytes@, r),
    {
        if bytes.len() == 0 {
            return match self.local_meta_for(client_addr) {
                Some(m) => Ok(AcceptStep::Reply(m.to_bytes())),
                None => Ok(AcceptStep::Reply(Vec::new())),
            };
        }
        let client: HandshakeMetadata = match HandshakeMetadata::from_bytes(bytes) {
            Ok(m) => m,
            Err(e) => {
                return Err(HandshakeFault::InvalidMetadata(e));
            },
        };
        self.invalidate_connection(client_addr);
        proof {
            assert(!as_map(self.conns()).dom().contains(client_addr@));
            assert(!has_key(self.conns(), client_addr@));
        }
        match self.get_or_prepare(client_addr) {
            PrepareStep::Prepare => Ok(AcceptStep::Prepare(client)),
            _ => Err(HandshakeFault::InProgress),
        }
    }

    /// Goes on with a handshake once the peer's metadata is there, and ends it where that
    /// does not fit.
    pub fn complete_or_abort(
        &mut self,
        remote_addr: &str,
        local: &HandshakeMetadata,
        remote: &HandshakeMetadata,
    ) -> (r: Result<CompleteStep, HandshakeFault>)
        requires
            old(self).wf(),
            local.nics@.len() == old(self).nics@.len(),
            forall|k: int|
                0 <= k < local.nics@.len() ==> (#[trigger] local.nics@[k]).endpoints@.len() <= old(
                    self).qps_per_peer,
        ensures
            final(self).wf(),
            completes(
                *old(self),
                *final(self),
                remote_addr@,
                local.nics@,
                remote.nics@,
                r,
            ),
    {
        match self.complete_handshake(remote_addr, &local.nics, &remote.nics) {
            Ok(step) => Ok(step),
            Err(e) => {
                let ghost mid = self.nics@;
                self.abort_handshake(remote_addr, &local.nics);
                assert(all_taken(mid, self.nics@, local.nics@));
                Err(HandshakeFault::Refused(e))
            },
        }
    }

    /// Notes a connection whose queue pairs have been connected, and ends the handshake where
    /// the peer's memory is not in order.
    pub fn establish_or_abort(
        &mut self,
        remote_addr: &str,
        local: HandshakeMetadata,
        remote: &HandshakeMetadata,
    ) -> (r: Result<(), HandshakeFault>)
        requires
            old(self).wf(),
            local.nics@.len() == old(self).nics@.len(),
            remote.nics@.len() == old(self).nics@.len(),
            forall|k: int|
                0 <= k < remote.nics@.len() ==> (#[trigger] remote.nics@[k]).endpoints@.len() > 0,
        ensures
            final(self).wf(),
            finishes(
                *old(self),
                *final(self),
                remote_addr@,
                local.nics@,
                remote.nics@,
                r,
            ),
    {
        let ghost sent = local.nics@;
        let mut copies: Vec<NicHandshake> = Vec::new();
        let mut k: usize = 0;
        while k < local.nics.len()
            invariant
                k <= local.nics@.len(),
                sent == local.nics@,
                copies@.len() == k,
                forall|q: int|
                    0 <= q < k ==> (#[trigger] copies@[q]).endpoints@ == sent[q].endpoints@,
            decreases local.nics@.len() - k,
        {
            copies.push(local.nics[k].duplicate());
            k += 1;
        }
        match self.establish_connection(remote_addr, local.nics, &remote.nics) {
            Ok(_) => Ok(()),
            Err(e) => {
                let ghost mid = *self;
                self.abort_handshake(remote_addr, &copies);
                proof {
                    assert forall|q: int| 0 <= q < sent.len() implies (
                    #[trigger] self.nics@[q]).pending@ == taken(
                        mid.nics@[q].pending@,
                        sent[q].endpoints@,
                        width(sent, q),
                    ) by {
                        assert(copies@[q].endpoints@ == sent[q].endpoints@);
                    }
                    assert(aborts(mid, *self, remote_addr@, sent));
                }
                Err(HandshakeFault::Refused(e))
            },
        }
    }
}

/// How many queue pairs have this number.
spec fn times(ends: Seq<RcEndpoint>, qpn: u32) -> nat
    decreases ends.len(),
{
    if ends.len() == 0 {
        0
    } else {
        times(ends.drop_last(), qpn) + (if ends.last().qp_num == qpn {
            1nat
        } else {
            0
        })
    }
}

proof fn lemma_times_together(a: Seq<RcEndpoint>, b: Seq<RcEndpoint>, qpn: u32)
    ensures
        times(a + b, qpn) == times(a, qpn) + times(b, qpn),
    decreases b.len(),
{
    if b.len() == 0 {
        assert(a + b =~= a);
    } else {
        assert((a + b).drop_last() =~= a + b.drop_last());
        lemma_times_together(a, b.drop_last(), qpn);
    }
}

proof fn lemma_times_without(ends: Seq<RcEndpoint>, i: int, qpn: u32)
    requires
        0 <= i < ends.len(),
    ensures
        times(ends, qpn) == times(ends.remove(i), qpn) + (if ends[i].qp_num == qpn {
            1nat
        } else {
            0
        }),
    decreases ends.len(),
{
    if i == ends.len() - 1 {
        assert(ends.remove(i) =~= ends.drop_last());
    } else {
        let less = ends.remove(i);
        assert(less.drop_last() =~= ends.drop_last().remove(i));
        assert(less.last() == ends.last());
        lemma_times_without(ends.drop_last(), i, qpn);
    }
}

proof fn lemma_first_is_there(pending: Seq<RcEndpoint>, qpn: u32)
    ensures
        first_with(pending, qpn) matches Some(i) ==> 0 <= i < pending.len() && pending[i].qp_num
            == qpn,
        first_with(pending, qpn) is Some == (times(pending, qpn) > 0),
    decreases pending.len(),
{
    if pending.len() > 0 {
        lemma_first_is_there(pending.drop_last(), qpn);
    }
}

/// New queue pairs wait until they are taken out, one after the other: of each number there
/// wait at least as many as are still to be taken out.
proof fn lemma_new_ones_wait(held: Seq<RcEndpoint>, own: Seq<RcEndpoint>, n: int)
    requires
        0 <= n <= own.len(),
    ensures
        all_waiting(held + own, own, n),
        forall|qpn: u32|
            #![trigger times(own.skip(n), qpn)]
            times(taken(held + own, own, n), qpn) >= times(own.skip(n), qpn),
    decreases n,
{
    let all = held + own;
    if n == 0 {
        assert(own.skip(0) =~= own);
        assert forall|qpn: u32|
            #![trigger times(own.skip(0), qpn)]
            times(all, qpn) >= times(own.skip(0), qpn) by {
            lemma_times_together(held, own, qpn);
        }
    } else {
        lemma_new_ones_wait(held, own, n - 1);
        let before = taken(all, own, n - 1);
        let after = taken(all, own, n);
        let rest = own.skip(n - 1);
        let next = own[n - 1].qp_num;
        assert(rest.remove(0) =~= own.skip(n));
        assert(rest[0] == own[n - 1]);
        lemma_times_without(rest, 0, next);
        lemma_first_is_there(before, next);
        assert(times(before, next) >= times(rest, next));
        let f = first_with(before, next)->0;
        assert(after == before.remove(f));
        assert forall|qpn: u32|
            #![trigger times(own.skip(n), qpn)]
            times(after, qpn) >= times(own.skip(n), qpn) by {
            assert(times(before, qpn) >= times(rest, qpn));
            lemma_times_without(before, f, qpn);
            lemma_times_without(rest, 0, qpn);
        }
    }
}

/// A handshake that failed does not stop the next one: readable metadata of the same peer
/// begins a handshake again, whatever the failed one was refused for.
pub proof fn law_failed_handshakes_do_not_block(
    before: TransferEngine,
    failed: TransferEngine,
    after: TransferEngine,
    addr: Seq<char>,
    local: Seq<NicHandshake>,
    remote: Seq<NicHandshake>,
    fault: HandshakeFault,
    bytes: Seq<u8>,
    r: Result<AcceptStep, HandshakeFault>,
)
    requires
        completes(before, failed, addr, local, remote, Err(fault)) || finishes(
            before,
            failed,
            addr,
            local,
            remote,
            Err(fault),
        ) || aborts(before, failed, addr, local),
        bytes.len() > 0,
        readable(bytes),
        accepts(failed, after, addr, bytes, r),
    ensures
        r matches Ok(AcceptStep::Prepare(m)) && m@ == (handshake_decoding(bytes)->0).0,
        !after.connected(addr),
        after.connecting@.contains(addr),
{
    assert(!failed.connecting@.contains(addr));
    assert(!as_map(after.conns()).contains_key(addr));
}

/// A peer whose handshake failed is connected by the next one: where the peer's part fits and
/// its memory is in order, the new queue pairs are handed out to be connected, whatever waits
/// from before, and the connection stands in the end. A peer that asks later gets the metadata
/// that it was sent.
pub proof fn law_next_handshake_connects(
    start: TransferEngine,
    prepared: TransferEngine,
    taken_out: TransferEngine,
    done: TransferEngine,
    addr: Seq<char>,
    endpoints: Seq<Vec<RcEndpoint>>,
    local: HandshakeMetadata,
    remote: HandshakeMetadata,
    step: Result<CompleteStep, HandshakeFault>,
    r: Result<(), HandshakeFault>,
)
    requires
        !start.connected(addr),
        endpoints.len() == start.nics@.len(),
        remote.nics@.len() == start.nics@.len(),
        remote_fault(
            remote.nics@,
            start.nics@.len(),
            start.qps_per_peer,
            start.nics@.len() as int,
        ) is None,
        first_memory_fault(remote.nics@, start.nics@.len() as int) is None,
        prepares(start, prepared, endpoints, local),
        completes(prepared, taken_out, addr, local.nics@, remote.nics@, step),
        finishes(taken_out, done, addr, local.nics@, remote.nics@, r),
    ensures
        step matches Ok(CompleteStep::Connect(_)),
        r is Ok,
        done.connected(addr),
        !done.connecting@.contains(addr),
        lookup(done.conns(), addr)->0.local == local@,
{
    let n = start.nics@.len() as int;
    assert(prepared.conns() == start.conns());
    assert forall|k: int| 0 <= k < n implies all_waiting(
        (#[trigger] prepared.nics@[k]).pending@,
        local.nics@[k].endpoints@,
        width(local.nics@, k),
    ) by {
        assert(local.nics@[k].endpoints@ == endpoints[k]@);
        lemma_new_ones_wait(
            start.nics@[k].pending@,
            endpoints[k]@,
            endpoints[k]@.len() as int,
        );
    }
    assert(handshake_waits(prepared.nics@, local.nics@, n));
    assert(as_map(done.conns()).contains_key(addr));
    assert(as_map(done.conns())[addr].local == nic_views(local.nics@));
}

} // verus!
