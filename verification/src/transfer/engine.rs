//! The transfer engine: registered memory, handshakes, and the preparation of
//! batches. The queue pairs themselves belong to the caller, who knows them by
//! their numbers.

use vstd::prelude::*;
use vstd::hash_set::StringHashSet;
use vstd::string::*;
use crate::keyed::{
    as_map, has_key, is_entry, lemma_place, lemma_push, lemma_remove, lemma_update, lookup, place,
    unique_keys,
};
use crate::numa::NumaNode;
use crate::text::{decimal, decimal_text, join6, same_text, trim, trimmed};
use crate::transfer::handshake::{
    backend_error, refused, HandshakeMetadata, NicHandshake, NicView, RcEndpoint,
    RegisteredMemoryRegion, TransferError,
};
use crate::transfer::nics::{groups_below, groups_nics, NumaRoundRobin};
use crate::transfer::state::{
    first_region_fault, first_with, is_snapshot, law_regions_are_sound_where_each_is,
    law_the_first_with_a_number_counts, meet, overlapping, without, PerNicState,
};
use crate::transfer::types::MemoryRegion;

verus! {

/// The keys for access to a region of memory through one NIC.
#[derive(Clone, Copy, Debug, PartialEq, Eq, Structural)]
pub struct MrKeys {
    pub lkey: u32,
    pub rkey: u32,
}

/// A registered region: its keys, one pair for each NIC.
#[derive(Debug)]
pub struct RegisteredMemoryEntry {
    pub len: usize,
    pub mrs: Vec<MrKeys>,
}

/// A registered region.
#[verifier::ext_equal]
pub struct EntryView {
    pub len: usize,
    pub mrs: Seq<MrKeys>,
}

impl View for RegisteredMemoryEntry {
    type V = EntryView;

    open spec fn view(&self) -> EntryView {
        EntryView { len: self.len, mrs: self.mrs@ }
    }
}

/// The registered regions by their addresses.
pub open spec fn registered_views(v: Seq<(u64, RegisteredMemoryEntry)>) -> Seq<(u64, EntryView)> {
    v.map_values(|e: (u64, RegisteredMemoryEntry)| (e.0, e.1@))
}

/// A connection: for each NIC the number of the peer's first queue pair, what
/// was sent to the peer, and whose turn it is among the queue pairs.
#[derive(Debug)]
pub struct AddrConnection {
    pub remote_first_qpns: Vec<u32>,
    pub local_nics: Vec<NicHandshake>,
    pub rr_counters: Vec<usize>,
}

/// What was sent to a peer.
pub open spec fn nic_views(v: Seq<NicHandshake>) -> Seq<NicView> {
    v.map_values(|n: NicHandshake| n@)
}

/// A connection.
#[verifier::ext_equal]
pub struct ConnView {
    pub first_qpns: Seq<u32>,
    pub local: Seq<NicView>,
    pub turns: Seq<usize>,
}

impl View for AddrConnection {
    type V = ConnView;

    open spec fn view(&self) -> ConnView {
        ConnView {
            first_qpns: self.remote_first_qpns@,
            local: nic_views(self.local_nics@),
            turns: self.rr_counters@,
        }
    }
}

/// The connections by the addresses of the peers.
pub open spec fn conn_views(v: Seq<(String, AddrConnection)>) -> Seq<(Seq<char>, ConnView)> {
    v.map_values(|c: (String, AddrConnection)| (c.0@, c.1@))
}

/// The transfer engine of a node.
pub struct TransferEngine {
    pub nics: Vec<PerNicState>,
    pub registered: Vec<(u64, RegisteredMemoryEntry)>,
    pub addr_connections: Vec<(String, AddrConnection)>,
    pub connecting: StringHashSet,
    pub numa_rr: NumaRoundRobin,
    pub qps_per_peer: usize,
    pub psn_counter: u64,
}

/// How it stands with a peer.
#[derive(Clone, Copy, Debug, PartialEq, Eq, Structural)]
pub enum PrepareStep {
    /// There is a connection.
    Existing,
    /// A handshake with the peer is under way.
    AlreadyConnecting,
    /// A handshake was begun: queue pairs are to be made for it.
    Prepare,
}

/// How it stands with a peer, once queue pairs are made.
#[derive(Debug)]
pub enum ConnectionStatus {
    /// There is a connection.
    Existing,
    /// A handshake with the peer is under way.
    Connecting,
    /// This is to be exchanged with the peer.
    Prepared(HandshakeMetadata),
}

/// A local queue pair and the peer's queue pair that it is connected to.
#[derive(Clone, Copy, Debug)]
pub struct QpPair {
    pub nic: usize,
    pub local: RcEndpoint,
    pub remote: RcEndpoint,
}

/// How a handshake goes on.
#[derive(Debug)]
pub enum CompleteStep {
    /// Another handshake was quicker: there is a connection already.
    AlreadyConnected,
    /// These queue pairs are to be connected.
    Connect(Vec<QpPair>),
}

/// What is wrong with the names of NICs and the number of queue pairs, if
/// anything.
pub open spec fn config_fault(nic_names: Seq<String>, qps_per_peer: usize) -> Option<Seq<char>> {
    if nic_names.len() == 0 {
        Some("nic_names is empty"@)
    } else if qps_per_peer == 0 {
        Some("qps_per_peer must be > 0"@)
    } else if exists|i: int|
        0 <= i < nic_names.len() && trimmed((#[trigger] nic_names[i])@).len() == 0 {
        Some("nic_name is empty"@)
    } else {
        None
    }
}

/// Refuses a configuration without NICs, without queue pairs, or with a NIC that
/// has no name.
pub fn validate_config(nic_names: &[String], qps_per_peer: usize) -> (r: Result<(), TransferError>)
    ensures
        match r {
            Ok(_) => config_fault(nic_names@, qps_per_peer) is None,
            Err(e) => config_fault(nic_names@, qps_per_peer) is Some && refused(
                e,
                config_fault(nic_names@, qps_per_peer)->0,
            ),
        },
{
    if nic_names.len() == 0 {
        return Err(TransferError::InvalidArgument("nic_names is empty"));
    }
    if qps_per_peer == 0 {
        return Err(TransferError::InvalidArgument("qps_per_peer must be > 0"));
    }
    let mut i: usize = 0;
    while i < nic_names.len()
        invariant
            i <= nic_names@.len(),
            nic_names@.len() > 0,
            qps_per_peer > 0,
            forall|k: int| 0 <= k < i ==> trimmed((#[trigger] nic_names@[k])@).len() > 0,
        decreases nic_names@.len() - i,
    {
        if trim(&nic_names[i]).as_str().is_empty() {
            assert(trimmed(nic_names@[i as int]@).len() == 0);
            return Err(TransferError::InvalidArgument("nic_name is empty"));
        }
        i += 1;
    }
    Ok(())
}

/// Whether a registered region holds the `len` bytes at `ptr`.
pub open spec fn covers(base: u64, region: EntryView, ptr: u64, len: nat) -> bool {
    base + region.len <= u64::MAX && base <= ptr && ptr + len <= base + region.len
}

/// The first registered region that holds the `len` bytes at `ptr`.
pub open spec fn covering(regions: Seq<(u64, EntryView)>, ptr: u64, len: nat) -> Option<int>
    decreases regions.len(),
{
    if regions.len() == 0 {
        None
    } else if covering(regions.drop_last(), ptr, len) is Some {
        covering(regions.drop_last(), ptr, len)
    } else if covers(regions.last().0, regions.last().1, ptr, len) {
        Some(regions.len() - 1)
    } else {
        None
    }
}

proof fn lemma_covering(regions: Seq<(u64, EntryView)>, ptr: u64, len: nat, n: int)
    requires
        0 <= n <= regions.len(),
        forall|k: int|
            0 <= k < n ==> !covers((#[trigger] regions[k]).0, regions[k].1, ptr, len),
        n < regions.len() ==> covers(regions[n].0, regions[n].1, ptr, len),
    ensures
        covering(regions, ptr, len) == if n < regions.len() {
            Some(n)
        } else {
            None
        },
    decreases regions.len(),
{
    if regions.len() > 0 {
        let front = regions.drop_last();
        if n < front.len() {
            assert forall|k: int| 0 <= k < n implies !covers(
                (#[trigger] front[k]).0,
                front[k].1,
                ptr,
                len,
            ) by {
                assert(!covers(regions[k].0, regions[k].1, ptr, len));
            }
            lemma_covering(front, ptr, len, n);
        } else {
            assert forall|k: int| 0 <= k < front.len() implies !covers(
                (#[trigger] front[k]).0,
                front[k].1,
                ptr,
                len,
            ) by {
                assert(!covers(regions[k].0, regions[k].1, ptr, len));
            }
            lemma_covering(front, ptr, len, front.len() as int);
            if n == regions.len() {
                assert(!covers(regions[n - 1].0, regions[n - 1].1, ptr, len));
            }
        }
    }
}

/// A region of registered memory as a peer sees it through a NIC.
pub open spec fn exported(e: (u64, EntryView), nic: int) -> RegisteredMemoryRegion {
    RegisteredMemoryRegion { base_ptr: e.0, len: e.1.len as u64, rkey: e.1.mrs[nic].rkey }
}

/// Whether `regions` are the registered memory as a peer sees it through a NIC, by
/// ascending address.
pub open spec fn is_export(
    regions: Seq<RegisteredMemoryRegion>,
    registered: Seq<(u64, EntryView)>,
    nic: int,
) -> bool {
    &&& regions.len() == registered.len()
    &&& forall|i: int, j: int|
        0 <= i < j < regions.len() ==> (#[trigger] regions[i]).base_ptr < (
        #[trigger] regions[j]).base_ptr
    &&& forall|i: int|
        0 <= i < registered.len() ==> regions.contains(exported(#[trigger] registered[i], nic))
}

/// How many of the first `n` regions come before the first of no bytes.
pub open spec fn sound_regions(regions: Seq<MemoryRegion>, n: int) -> int
    decreases n,
{
    if n <= 0 {
        0
    } else if sound_regions(regions, n - 1) == n - 1 && regions[n - 1].len > 0 {
        n
    } else {
        sound_regions(regions, n - 1)
    }
}

/// The registered regions with the first `n` of some more.
pub open spec fn with_regions(
    registered: Map<u64, EntryView>,
    regions: Seq<MemoryRegion>,
    keys: Seq<Vec<MrKeys>>,
    n: int,
) -> Map<u64, EntryView>
    decreases n,
{
    if n <= 0 {
        registered
    } else {
        with_regions(registered, regions, keys, n - 1).insert(
            regions[n - 1].ptr,
            EntryView { len: regions[n - 1].len, mrs: keys[n - 1]@ },
        )
    }
}

/// The registered regions without the first `n` of some.
pub open spec fn without_regions(registered: Map<u64, EntryView>, ptrs: Seq<u64>, n: int) -> Map<
    u64,
    EntryView,
>
    decreases n,
{
    if n <= 0 {
        registered
    } else {
        without_regions(registered, ptrs, n - 1).remove(ptrs[n - 1])
    }
}

/// How many of the first `n` regions come before the first that is not registered any more.
pub open spec fn known_regions(registered: Map<u64, EntryView>, ptrs: Seq<u64>, n: int) -> int
    decreases n,
{
    if n <= 0 {
        0
    } else if known_regions(registered, ptrs, n - 1) == n - 1 && without_regions(
        registered,
        ptrs,
        n - 1,
    ).contains_key(ptrs[n - 1]) {
        n
    } else {
        known_regions(registered, ptrs, n - 1)
    }
}

proof fn lemma_sound_regions_end(regions: Seq<MemoryRegion>, i: int, n: int)
    requires
        0 <= i < n <= regions.len(),
        sound_regions(regions, i) == i,
        regions[i].len == 0,
    ensures
        sound_regions(regions, n) == i,
    decreases n,
{
    if i < n - 1 {
        lemma_sound_regions_end(regions, i, n - 1);
    }
}

proof fn lemma_known_regions_end(
    registered: Map<u64, EntryView>,
    ptrs: Seq<u64>,
    i: int,
    n: int,
)
    requires
        0 <= i < n <= ptrs.len(),
        known_regions(registered, ptrs, i) == i,
        !without_regions(registered, ptrs, i).contains_key(ptrs[i]),
    ensures
        known_regions(registered, ptrs, n) == i,
    decreases n,
{
    if i < n - 1 {
        lemma_known_regions_end(registered, ptrs, i, n - 1);
    }
}

impl TransferEngine {
    /// The registered regions.
    pub open spec fn regions(self) -> Seq<(u64, EntryView)> {
        registered_views(self.registered@)
    }

    /// The connections.
    pub open spec fn conns(self) -> Seq<(Seq<char>, ConnView)> {
        conn_views(self.addr_connections@)
    }

    /// Whether there is a connection to a peer.
    pub open spec fn connected(self, addr: Seq<char>) -> bool {
        has_key(self.conns(), addr)
    }

    /// There are NICs, nothing occurs twice, and everything is there for each NIC.
    pub open spec fn wf(self) -> bool {
        let n = self.nics@.len();
        &&& n > 0
        &&& self.qps_per_peer > 0
        &&& groups_below(self.numa_rr@, n as int)
        &&& forall|i: int| 0 <= i < n ==> (#[trigger] self.nics@[i]).wf()
        &&& unique_keys(self.regions())
        &&& forall|i: int|
            0 <= i < self.registered@.len() ==> (#[trigger] self.registered@[i]).1.mrs@.len() == n
        &&& unique_keys(self.conns())
        &&& forall|i: int|
            0 <= i < self.addr_connections@.len() ==> {
                &&& (#[trigger] self.addr_connections@[i]).1.remote_first_qpns@.len() == n
                &&& self.addr_connections@[i].1.rr_counters@.len() == n
            }
    }

    /// An engine with one NIC on each of `nic_nodes`.
    pub fn new(nic_nodes: &[NumaNode], qps_per_peer: usize) -> (r: Self)
        requires
            nic_nodes@.len() > 0,
            qps_per_peer > 0,
        ensures
            r.wf(),
            r.nics@.len() == nic_nodes@.len(),
            r.qps_per_peer == qps_per_peer,
            r.registered@.len() == 0,
            r.addr_connections@.len() == 0,
            r.connecting@ == Set::<Seq<char>>::empty(),
            r.psn_counter == 1,
            groups_nics(r.numa_rr, nic_nodes@),
            forall|i: int|
                0 <= i < r.nics@.len() ==> (#[trigger] r.nics@[i]).pending@.len() == 0
                    && r.nics@[i].sessions@.len() == 0 && r.nics@[i].remote_memory@.len() == 0,
    {
        let mut nics: Vec<PerNicState> = Vec::new();
        let mut i: usize = 0;
        while i < nic_nodes.len()
            invariant
                i <= nic_nodes@.len(),
                nics@.len() == i,
                forall|k: int|
                    0 <= k < i ==> (#[trigger] nics@[k]).wf() && nics@[k].pending@.len() == 0
                        && nics@[k].sessions@.len() == 0 && nics@[k].remote_memory@.len() == 0,
            decreases nic_nodes@.len() - i,
        {
            nics.push(PerNicState::new());
            i += 1;
        }
        TransferEngine {
            nics,
            registered: Vec::new(),
            addr_connections: Vec::new(),
            connecting: StringHashSet::new(),
            numa_rr: NumaRoundRobin::from_nodes(nic_nodes),
            qps_per_peer,
            psn_counter: 1,
        }
    }

    fn find_region(&self, ptr: u64) -> (r: Option<usize>)
        requires
            self.wf(),
        ensures
            match r {
                Some(i) => i < self.registered@.len() && self.registered@[i as int].0 == ptr
                    && as_map(self.regions()).contains_key(ptr),
                None => !has_key(self.regions(), ptr) && !as_map(self.regions()).contains_key(ptr),
            },
    {
        let mut i: usize = 0;
        while i < self.registered.len()
            invariant
                self.wf(),
                i <= self.registered@.len(),
                forall|k: int| 0 <= k < i ==> !#[trigger] is_entry(self.regions(), ptr, k),
            decreases self.registered@.len() - i,
        {
            assert(self.regions()[i as int].0 == self.registered@[i as int].0);
            if self.registered[i].0 == ptr {
                proof {
                    lemma_place(self.regions(), ptr, i as int);
                }
                return Some(i);
            }
            i += 1;
        }
        None
    }

    /// Notes that the region at `ptr` was registered with each NIC. A region of no
    /// bytes is refused; one that is registered again is replaced.
    pub fn register_region(&mut self, ptr: u64, len: usize, mrs: Vec<MrKeys>) -> (r: Result<
        (),
        TransferError,
    >)
        requires
            old(self).wf(),
            mrs@.len() == old(self).nics@.len(),
        ensures
            final(self).wf(),
            final(self).nics == old(self).nics,
            final(self).addr_connections == old(self).addr_connections,
            final(self).connecting == old(self).connecting,
            final(self).qps_per_peer == old(self).qps_per_peer,
            final(self).numa_rr == old(self).numa_rr,
            final(self).psn_counter == old(self).psn_counter,
            match r {
                Ok(_) => len > 0 && as_map(final(self).regions()) == as_map(
                    old(self).regions(),
                ).insert(ptr, (EntryView { len, mrs: mrs@ })),
                Err(e) => len == 0 && refused(e, "len must be non-zero"@) && *final(self) == *old(
                    self),
            },
    {
        if len == 0 {
            return Err(TransferError::InvalidArgument("len must be non-zero"));
        }
        let ghost before = self.regions();
        let ghost raw = self.registered@;
        let ghost value = EntryView { len, mrs: mrs@ };
        let entry: RegisteredMemoryEntry = RegisteredMemoryEntry { len, mrs };
        assert(entry@ == value);
        match self.find_region(ptr) {
            Some(i) => {
                proof {
                    lemma_update(before, i as int, value);
                }
                self.registered[i] = (ptr, entry);
                proof {
                    assert(self.regions() =~= before.update(i as int, (ptr, value)));
                    assert forall|k: int| 0 <= k < self.registered@.len() implies (#[trigger]
                    self.registered@[k]).1.mrs@.len() == self.nics@.len() by {
                        if k != i {
                            assert(self.registered@[k] == raw[k]);
                        }
                    }
                }
            },
            None => {
                proof {
                    lemma_push(before, ptr, value);
                }
                self.registered.push((ptr, entry));
                proof {
                    assert(self.regions() =~= before.push((ptr, value)));
                    assert forall|k: int| 0 <= k < self.registered@.len() implies (#[trigger]
                    self.registered@[k]).1.mrs@.len() == self.nics@.len() by {
                        if k < raw.len() {
                            assert(self.registered@[k] == raw[k]);
                        }
                    }
                }
            },
        }
        Ok(())
    }

    /// Forgets a region. One that is not registered is reported.
    pub fn unregister_region(&mut self, ptr: u64) -> (r: Result<(), TransferError>)
        requires
            old(self).wf(),
        ensures
            final(self).wf(),
            final(self).nics == old(self).nics,
            final(self).addr_connections == old(self).addr_connections,
            final(self).connecting == old(self).connecting,
            final(self).qps_per_peer == old(self).qps_per_peer,
            final(self).numa_rr == old(self).numa_rr,
            final(self).psn_counter == old(self).psn_counter,
            as_map(final(self).regions()) == as_map(old(self).regions()).remove(ptr),
            match r {
                Ok(_) => as_map(old(self).regions()).contains_key(ptr),
                Err(e) => !as_map(old(self).regions()).contains_key(ptr) && e == (
                TransferError::MemoryNotRegistered { ptr }),
            },
    {
        let ghost before = self.regions();
        let ghost raw = self.registered@;
        match self.find_region(ptr) {
            Some(i) => {
                proof {
                    lemma_remove(before, i as int);
                }
                self.registered.remove(i);
                proof {
                    assert(self.regions() =~= before.remove(i as int));
                    assert forall|k: int| 0 <= k < self.registered@.len() implies (#[trigger]
                    self.registered@[k]).1.mrs@.len() == self.nics@.len() by {
                        let q = if k < i {
                            k
                        } else {
                            k + 1
                        };
                        assert(self.registered@[k] == raw[q]);
                    }
                }
                Ok(())
            },
            None => {
                assert(as_map(before).remove(ptr) =~= as_map(before));
                Err(TransferError::MemoryNotRegistered { ptr })
            },
        }
    }

    /// Notes that regions were registered with each NIC, in turn, up to the first that is
    /// refused.
    pub fn register_memory(&mut self, regions: &[MemoryRegion], keys: Vec<Vec<MrKeys>>) -> (r:
        Result<(), TransferError>)
        requires
            old(self).wf(),
            keys@.len() == regions@.len(),
            forall|k: int|
                0 <= k < keys@.len() ==> (#[trigger] keys@[k])@.len() == old(self).nics@.len(),
        ensures
            final(self).wf(),
            final(self).nics == old(self).nics,
            final(self).addr_connections == old(self).addr_connections,
            final(self).connecting == old(self).connecting,
            final(self).qps_per_peer == old(self).qps_per_peer,
            final(self).numa_rr == old(self).numa_rr,
            final(self).psn_counter == old(self).psn_counter,
            as_map(final(self).regions()) == with_regions(
                as_map(old(self).regions()),
                regions@,
                keys@,
                sound_regions(regions@, regions@.len() as int),
            ),
            if sound_regions(regions@, regions@.len() as int) == regions@.len() {
                r is Ok
            } else {
                r matches Err(e) && refused(e, "len must be non-zero"@)
            },
    {
        let ghost all = keys@;
        let ghost start = as_map(self.regions());
        let mut i: usize = 0;
        for own in it: keys
            invariant
                it.seq() == all,
                i == it.index(),
                all.len() == regions@.len(),
                i <= regions.len(),
                old(self).wf(),
                start == as_map(old(self).regions()),
                self.wf(),
                forall|k: int|
                    0 <= k < all.len() ==> (#[trigger] all[k])@.len() == self.nics@.len(),
                self.nics == old(self).nics,
                self.addr_connections == old(self).addr_connections,
                self.connecting == old(self).connecting,
                self.qps_per_peer == old(self).qps_per_peer,
                self.numa_rr == old(self).numa_rr,
                self.psn_counter == old(self).psn_counter,
                sound_regions(regions@, i as int) == i,
                as_map(self.regions()) == with_regions(start, regions@, all, i as int),
        {
            assert(all[i as int]@.len() == self.nics@.len());
            let region: MemoryRegion = regions[i];
            match self.register_region(region.ptr, region.len, own) {
                Ok(_) => {},
                Err(e) => {
                    proof {
                        lemma_sound_regions_end(regions@, i as int, regions@.len() as int);
                    }
                    return Err(e);
                },
            }
            i += 1;
        }
        Ok(())
    }

    /// Forgets regions, in turn, up to the first that is not registered.
    pub fn unregister_memory(&mut self, ptrs: &[u64]) -> (r: Result<(), TransferError>)
        requires
            old(self).wf(),
        ensures
            final(self).wf(),
            final(self).nics == old(self).nics,
            final(self).addr_connections == old(self).addr_connections,
            final(self).connecting == old(self).connecting,
            final(self).qps_per_peer == old(self).qps_per_peer,
            final(self).numa_rr == old(self).numa_rr,
            final(self).psn_counter == old(self).psn_counter,
            ({
                let before = as_map(old(self).regions());
                let n = known_regions(before, ptrs@, ptrs@.len() as int);
                &&& as_map(final(self).regions()) == without_regions(before, ptrs@, n)
                &&& if n == ptrs@.len() {
                    r is Ok
                } else {
                    r matches Err(e) && e == (TransferError::MemoryNotRegistered { ptr: ptrs@[n] })
                }
            }),
    {
        let ghost start = as_map(self.regions());
        let mut i: usize = 0;
        while i < ptrs.len()
            invariant
                i <= ptrs@.len(),
                old(self).wf(),
                start == as_map(old(self).regions()),
                self.wf(),
                self.nics == old(self).nics,
                self.addr_connections == old(self).addr_connections,
                self.connecting == old(self).connecting,
                self.qps_per_peer == old(self).qps_per_peer,
                self.numa_rr == old(self).numa_rr,
                self.psn_counter == old(self).psn_counter,
                known_regions(start, ptrs@, i as int) == i,
                as_map(self.regions()) == without_regions(start, ptrs@, i as int),
            decreases ptrs@.len() - i,
        {
            let ghost before = as_map(self.regions());
            match self.unregister_region(ptrs[i]) {
                Ok(_) => {},
                Err(e) => {
                    proof {
                        lemma_known_regions_end(start, ptrs@, i as int, ptrs@.len() as int);
                        assert(before.remove(ptrs@[i as int]) =~= before);
                    }
                    return Err(e);
                },
            }
            i += 1;
        }
        Ok(())
    }

    /// The keys for access through a NIC to the `len` bytes at `ptr`, where a
    /// registered region holds them whole.
    pub fn find_local_mr(&self, nic_idx: usize, ptr: u64, len: usize) -> (r: Option<MrKeys>)
        requires
            self.wf(),
            nic_idx < self.nics@.len(),
        ensures
            r == match covering(self.regions(), ptr, len as nat) {
                Some(i) => Some(self.regions()[i].1.mrs[nic_idx as int]),
                None => None,
            },
    {
        let ghost regions = self.regions();
        let mut i: usize = 0;
        while i < self.registered.len()
            invariant
                self.wf(),
                nic_idx < self.nics@.len(),
                regions == self.regions(),
                i <= self.registered@.len(),
                forall|k: int|
                    0 <= k < i ==> !covers(
                        (#[trigger] regions[k]).0,
                        regions[k].1,
                        ptr,
                        len as nat,
                    ),
            decreases self.registered@.len() - i,
        {
            let base: u64 = self.registered[i].0;
            assert(self.registered@[i as int].1.mrs@.len() == self.nics@.len());
            assert(regions[i as int] == (
                self.registered@[i as int].0,
                self.registered@[i as int].1@,
            ));
            let inside: bool = match (
                ptr.checked_add(len as u64),
                base.checked_add(self.registered[i].1.len as u64),
            ) {
                (Some(end), Some(region_end)) => base <= ptr && end <= region_end,
                _ => false,
            };
            if inside {
                proof {
                    lemma_covering(regions, ptr, len as nat, i as int);
                }
                return Some(self.registered[i].1.mrs[nic_idx]);
            }
            i += 1;
        }
        proof {
            lemma_covering(regions, ptr, len as nat, i as int);
        }
        None
    }

    /// The registered memory as a peer sees it through a NIC.
    pub fn snapshot_registered_memory(&self, nic_idx: usize) -> (r: Vec<RegisteredMemoryRegion>)
        requires
            self.wf(),
            nic_idx < self.nics@.len(),
        ensures
            is_export(r@, self.regions(), nic_idx as int),
    {
        let ghost regions = self.regions();
        let mut out: Vec<RegisteredMemoryRegion> = Vec::new();
        let mut i: usize = 0;
        while i < self.registered.len()
            invariant
                self.wf(),
                nic_idx < self.nics@.len(),
                regions == self.regions(),
                i <= self.registered@.len(),
                out@.len() == i,
                forall|a: int, b: int|
                    0 <= a < b < out@.len() ==> (#[trigger] out@[a]).base_ptr < (
                    #[trigger] out@[b]).base_ptr,
                forall|k: int|
                    0 <= k < i ==> out@.contains(
                        exported(#[trigger] regions[k], nic_idx as int),
                    ),
                forall|a: int|
                    0 <= a < out@.len() ==> exists|k: int|
                        0 <= k < i && #[trigger] exported(regions[k], nic_idx as int)
                            == #[trigger] out@[a],
            decreases self.registered@.len() - i,
        {
            assert(self.registered@[i as int].1.mrs@.len() == self.nics@.len());
            assert(regions[i as int] == (
                self.registered@[i as int].0,
                self.registered@[i as int].1@,
            ));
            let region: RegisteredMemoryRegion = RegisteredMemoryRegion {
                base_ptr: self.registered[i].0,
                len: self.registered[i].1.len as u64,
                rkey: self.registered[i].1.mrs[nic_idx].rkey,
            };
            assert(region == exported(regions[i as int], nic_idx as int));
            let mut p: usize = out.len();
            while p > 0 && out[p - 1].base_ptr > region.base_ptr
                invariant
                    p <= out@.len(),
                    forall|k: int|
                        p <= k < out@.len() ==> (#[trigger] out@[k]).base_ptr > region.base_ptr,
                decreases p,
            {
                p -= 1;
            }
            let ghost before = out@;
            proof {
                if p > 0 {
                    let k = choose|k: int|
                        0 <= k < i && #[trigger] exported(regions[k], nic_idx as int)
                            == before[p - 1];
                    assert(regions[k].0 != regions[i as int].0);
                }
            }
            out.insert(p, region);
            proof {
                lemma_export_insert(before, p as int, region);
                assert(out@ == before.insert(p as int, region));
                assert forall|k: int| 0 <= k < i + 1 implies out@.contains(
                    exported(#[trigger] regions[k], nic_idx as int),
                ) by {
                    if k < i {
                        let e = exported(regions[k], nic_idx as int);
                        assert(before.contains(e));
                        let q = before.index_of(e);
                        if q < p {
                            assert(out@[q] == e);
                        } else {
                            assert(out@[q + 1] == e);
                        }
                    } else {
                        assert(out@[p as int] == region);
                    }
                }
                assert forall|a: int| 0 <= a < out@.len() implies exists|k: int|
                    0 <= k < i + 1 && #[trigger] exported(regions[k], nic_idx as int)
                        == #[trigger] out@[a] by {
                    if a == p {
                        assert(exported(regions[i as int], nic_idx as int) == out@[a]);
                    } else {
                        let q = if a < p {
                            a
                        } else {
                            a - 1
                        };
                        assert(out@[a] == before[q]);
                        let k = choose|k: int|
                            0 <= k < i && #[trigger] exported(regions[k], nic_idx as int)
                                == before[q];
                        assert(exported(regions[k], nic_idx as int) == out@[a]);
                    }
                }
            }
            i += 1;
        }
        out
    }
}

proof fn lemma_export_insert(
    before: Seq<RegisteredMemoryRegion>,
    p: int,
    region: RegisteredMemoryRegion,
)
    requires
        0 <= p <= before.len(),
        forall|a: int, b: int|
            0 <= a < b < before.len() ==> (#[trigger] before[a]).base_ptr < (
            #[trigger] before[b]).base_ptr,
        p > 0 ==> before[p - 1].base_ptr < region.base_ptr,
        p < before.len() ==> before[p].base_ptr > region.base_ptr,
    ensures
        forall|a: int, b: int|
            0 <= a < b < before.insert(p, region).len() ==> (#[trigger] before.insert(
                p,
                region,
            )[a]).base_ptr < (#[trigger] before.insert(p, region)[b]).base_ptr,
{
    let after = before.insert(p, region);
    assert forall|a: int, b: int| 0 <= a < b < after.len() implies (#[trigger] after[a]).base_ptr
        < (#[trigger] after[b]).base_ptr by {
        let x = if a < p {
            a
        } else {
            a - 1
        };
        let y = if b < p {
            b
        } else {
            b - 1
        };
        if a == p {
            assert(after[b] == before[y]);
            if p < y {
                assert(before[p].base_ptr < before[y].base_ptr);
            }
        } else if b == p {
            assert(after[a] == before[x]);
            if x < p - 1 {
                assert(before[x].base_ptr < before[p - 1].base_ptr);
            }
        } else {
            assert(after[a] == before[x] && after[b] == before[y]);
        }
    }
}

/// `pending` after the queue pairs of the first `n` endpoints were taken out.
pub open spec fn taken(pending: Seq<RcEndpoint>, endpoints: Seq<RcEndpoint>, n: int) -> Seq<
    RcEndpoint,
>
    decreases n,
{
    if n <= 0 {
        pending
    } else {
        without(taken(pending, endpoints, n - 1), endpoints[n - 1].qp_num)
    }
}

/// Whether the queue pairs of the first `n` endpoints can be taken out in turn.
pub open spec fn all_waiting(pending: Seq<RcEndpoint>, endpoints: Seq<RcEndpoint>, n: int) -> bool
    decreases n,
{
    n <= 0 || (all_waiting(pending, endpoints, n - 1) && first_with(
        taken(pending, endpoints, n - 1),
        endpoints[n - 1].qp_num,
    ) is Some)
}

/// The waiting queue pair that is taken out for endpoint `j`, after those of the endpoints before
/// it.
pub open spec fn waiting_at(
    pending: Seq<RcEndpoint>,
    endpoints: Seq<RcEndpoint>,
    j: int,
) -> RcEndpoint {
    let left = taken(pending, endpoints, j);
    left[first_with(left, endpoints[j].qp_num)->0]
}

/// How many endpoints a NIC's part of a handshake has.
pub open spec fn width(nics: Seq<NicHandshake>, k: int) -> int {
    nics[k].endpoints@.len() as int
}

/// Whether the first `n` NICs have every queue pair of a handshake waiting.
pub open spec fn handshake_waits(
    nics: Seq<PerNicState>,
    local: Seq<NicHandshake>,
    n: int,
) -> bool {
    forall|k: int|
        0 <= k < n ==> all_waiting(
            (#[trigger] nics[k]).pending@,
            local[k].endpoints@,
            width(local, k),
        )
}

/// Whether the queue pairs of a handshake were taken out up to endpoint `m` of NIC `q`, the
/// first that does not wait.
pub open spec fn taken_up_to(
    before: Seq<PerNicState>,
    after: Seq<PerNicState>,
    local: Seq<NicHandshake>,
    q: int,
    m: int,
) -> bool {
    &&& 0 <= q < before.len()
    &&& 0 <= m < width(local, q)
    &&& handshake_waits(before, local, q)
    &&& all_waiting(before[q].pending@, local[q].endpoints@, m)
    &&& !all_waiting(before[q].pending@, local[q].endpoints@, m + 1)
    &&& after[q].pending@ == taken(before[q].pending@, local[q].endpoints@, m)
    &&& forall|k: int|
        0 <= k < q ==> (#[trigger] after[k]).pending@ == taken(
            before[k].pending@,
            local[k].endpoints@,
            width(local, k),
        )
    &&& forall|k: int| q < k < before.len() ==> #[trigger] after[k] == before[k]
}

/// What is wrong with the part of a handshake that the peer has sent, if anything.
pub open spec fn remote_fault(
    remote: Seq<NicHandshake>,
    nic_count: nat,
    qps_per_peer: usize,
    n: int,
) -> Option<Seq<char>>
    decreases n,
{
    if n <= 0 {
        None
    } else if remote_fault(remote, nic_count, qps_per_peer, n - 1) is Some {
        remote_fault(remote, nic_count, qps_per_peer, n - 1)
    } else if remote[n - 1].endpoints@.len() != qps_per_peer {
        Some(
            "remote qps_per_peer mismatch on nic="@ + decimal((n - 1) as nat) + ": local="@
                + decimal(qps_per_peer as nat) + ", remote="@ + decimal(
                remote[n - 1].endpoints@.len(),
            ),
        )
    } else {
        None
    }
}

/// Whether two NICs differ in nothing but the queue pairs that wait.
pub open spec fn same_but_pending(a: PerNicState, b: PerNicState) -> bool {
    a.sessions == b.sessions && a.remote_memory == b.remote_memory
}

/// Whether two engines differ in nothing but the queue pairs that wait.
pub open spec fn same_but_waiting(a: TransferEngine, b: TransferEngine) -> bool {
    &&& a.registered == b.registered
    &&& a.addr_connections == b.addr_connections
    &&& a.numa_rr == b.numa_rr
    &&& a.qps_per_peer == b.qps_per_peer
    &&& a.psn_counter == b.psn_counter
    &&& a.nics@.len() == b.nics@.len()
    &&& forall|k: int| 0 <= k < a.nics@.len() ==> same_but_pending(#[trigger] a.nics@[k], b.nics@[k])
}

/// Whether new queue pairs that wait for their peer turn `before` into `after`, with `meta` to
/// be sent to it.
pub open spec fn prepares(
    before: TransferEngine,
    after: TransferEngine,
    endpoints: Seq<Vec<RcEndpoint>>,
    meta: HandshakeMetadata,
) -> bool {
    &&& same_but_waiting(after, before)
    &&& after.connecting == before.connecting
    &&& meta.nics@.len() == endpoints.len()
    &&& forall|k: int|
        0 <= k < endpoints.len() ==> {
            &&& (#[trigger] meta.nics@[k]).endpoints@ == endpoints[k]@
            &&& is_export(meta.nics@[k].memory_regions@, before.regions(), k)
        }
    &&& forall|k: int|
        0 <= k < endpoints.len() ==> (#[trigger] after.nics@[k]).pending@
            == before.nics@[k].pending@ + endpoints[k]@
}

impl TransferEngine {
    pub(crate) fn find_connection(&self, addr: &str) -> (r: Option<usize>)
        requires
            self.wf(),
        ensures
            match r {
                Some(i) => i < self.addr_connections@.len() && self.addr_connections@[i as int].0@
                    == addr@ && self.connected(addr@) && place(self.conns(), addr@) == i && lookup(
                    self.conns(),
                    addr@,
                ) == Some(self.addr_connections@[i as int].1@),
                None => !self.connected(addr@) && lookup(self.conns(), addr@) is None,
            },
    {
        let mut i: usize = 0;
        while i < self.addr_connections.len()
            invariant
                self.wf(),
                i <= self.addr_connections@.len(),
                forall|k: int| 0 <= k < i ==> !#[trigger] is_entry(self.conns(), addr@, k),
            decreases self.addr_connections@.len() - i,
        {
            assert(self.conns()[i as int] == (
                self.addr_connections@[i as int].0@,
                self.addr_connections@[i as int].1@,
            ));
            if same_text(&self.addr_connections[i].0, addr) {
                proof {
                    lemma_place(self.conns(), addr@, i as int);
                }
                return Some(i);
            }
            i += 1;
        }
        None
    }

    /// How it stands with a peer. Where there is neither a connection nor a
    /// handshake under way, one is begun.
    pub fn get_or_prepare(&mut self, remote_addr: &str) -> (r: PrepareStep)
        requires
            old(self).wf(),
        ensures
            final(self).wf(),
            same_but_waiting(*final(self), *old(self)),
            final(self).nics == old(self).nics,
            r == (if old(self).connected(remote_addr@) {
                PrepareStep::Existing
            } else if old(self).connecting@.contains(remote_addr@) {
                PrepareStep::AlreadyConnecting
            } else {
                PrepareStep::Prepare
            }),
            final(self).connecting@ == if r is Prepare {
                old(self).connecting@.insert(remote_addr@)
            } else {
                old(self).connecting@
            },
    {
        if self.find_connection(remote_addr).is_some() {
            return PrepareStep::Existing;
        }
        if self.connecting.contains(remote_addr) {
            return PrepareStep::AlreadyConnecting;
        }
        self.connecting.insert(String::from_str(remote_addr));
        PrepareStep::Prepare
    }

    /// The queue pairs for a handshake could not be made: it is not under way any
    /// more.
    pub fn prepare_failed(&mut self, remote_addr: &str)
        requires
            old(self).wf(),
        ensures
            final(self).wf(),
            same_but_waiting(*final(self), *old(self)),
            final(self).nics == old(self).nics,
            final(self).connecting@ == old(self).connecting@.remove(remote_addr@),
    {
        self.connecting.remove(remote_addr);
    }

    /// The seed for the packet numbers of the next queue pair.
    pub fn next_psn_seed(&mut self) -> (r: u64)
        requires
            old(self).wf(),
        ensures
            final(self).wf(),
            r == old(self).psn_counter,
            final(self).psn_counter == if r == u64::MAX {
                0
            } else {
                (r + 1) as u64
            },
            final(self).nics == old(self).nics,
            final(self).registered == old(self).registered,
            final(self).addr_connections == old(self).addr_connections,
            final(self).connecting == old(self).connecting,
            final(self).numa_rr == old(self).numa_rr,
            final(self).qps_per_peer == old(self).qps_per_peer,
    {
        let seed: u64 = self.psn_counter;
        self.psn_counter = self.psn_counter.wrapping_add(1);
        seed
    }

    /// Lets new queue pairs wait for their peer. What comes back is to be sent to
    /// it: the endpoints, and the registered memory.
    pub fn prepare_handshake(&mut self, endpoints: Vec<Vec<RcEndpoint>>) -> (r: HandshakeMetadata)
        requires
            old(self).wf(),
            endpoints@.len() == old(self).nics@.len(),
        ensures
            final(self).wf(),
            prepares(*old(self), *final(self), endpoints@, r),
    {
        let mut nics: Vec<NicHandshake> = Vec::new();
        let ghost all = endpoints@;
        for own in it: endpoints
            invariant
                it.seq() == all,
                all.len() == old(self).nics@.len(),
                old(self).wf(),
                self.wf(),
                same_but_waiting(*self, *old(self)),
                self.connecting == old(self).connecting,
                nics@.len() == it.index(),
                forall|k: int|
                    0 <= k < it.index() ==> {
                        &&& (#[trigger] nics@[k]).endpoints@ == all[k]@
                        &&& is_export(nics@[k].memory_regions@, old(self).regions(), k)
                    },
                forall|k: int|
                    0 <= k < it.index() ==> (#[trigger] self.nics@[k]).pending@ == old(
                        self).nics@[k].pending@ + all[k]@,
                forall|k: int|
                    it.index() <= k < all.len() ==> (#[trigger] self.nics@[k]) == old(
                        self).nics@[k],
        {
            let k: usize = nics.len();
            let memory_regions: Vec<RegisteredMemoryRegion> = self.snapshot_registered_memory(k);
            let ghost before = self.nics@;
            let ghost held = self.nics@[k as int].pending@;
            let mut j: usize = 0;
            assert(held + own@.take(0) =~= held);
            while j < own.len()
                invariant
                    j <= own@.len(),
                    k < before.len(),
                    before.len() == self.nics@.len(),
                    self.registered == old(self).registered,
                    self.addr_connections == old(self).addr_connections,
                    self.numa_rr == old(self).numa_rr,
                    self.qps_per_peer == old(self).qps_per_peer,
                    self.psn_counter == old(self).psn_counter,
                    self.connecting == old(self).connecting,
                    forall|i: int|
                        0 <= i < before.len() && i != k ==> (#[trigger] self.nics@[i])
                            == before[i],
                    same_but_pending(self.nics@[k as int], before[k as int]),
                    self.nics@[k as int].pending@ == held + own@.take(j as int),
                decreases own@.len() - j,
            {
                self.nics[k].pending.push(own[j]);
                j += 1;
                assert(self.nics@[k as int].pending@ =~= held + own@.take(j as int));
            }
            proof {
                assert(own@.take(j as int) =~= own@);
                assert forall|i: int| 0 <= i < self.nics@.len() implies (#[trigger]
                self.nics@[i]).wf() by {
                    assert(before[i].wf());
                }
                assert forall|i: int| 0 <= i < self.nics@.len() implies same_but_pending(
                    #[trigger] self.nics@[i],
                    old(self).nics@[i],
                ) by {
                    assert(same_but_pending(before[i], old(self).nics@[i]));
                }
            }
            nics.push(NicHandshake { endpoints: own, memory_regions });
        }
        HandshakeMetadata { nics }
    }

    /// Takes the queue pairs of one NIC's part of a handshake out, as far as they
    /// wait.
    fn take_nic(&mut self, k: usize, endpoints: &Vec<RcEndpoint>, strict: bool) -> (r: Option<
        Vec<RcEndpoint>,
    >)
        requires
            old(self).wf(),
            k < old(self).nics@.len(),
        ensures
            final(self).wf(),
            same_but_waiting(*final(self), *old(self)),
            final(self).connecting == old(self).connecting,
            forall|i: int|
                0 <= i < old(self).nics@.len() && i != k ==> #[trigger] final(self).nics@[i]
                    == old(self).nics@[i],
            !strict ==> r is Some,
            r is Some ==> final(self).nics@[k as int].pending@ == taken(
                old(self).nics@[k as int].pending@,
                endpoints@,
                endpoints@.len() as int,
            ),
            strict ==> (r is Some == all_waiting(
                old(self).nics@[k as int].pending@,
                endpoints@,
                endpoints@.len() as int,
            )),
            strict && r is None ==> exists|m: int|
                {
                    &&& 0 <= m < endpoints@.len()
                    &&& #[trigger] all_waiting(old(self).nics@[k as int].pending@, endpoints@, m)
                    &&& !all_waiting(old(self).nics@[k as int].pending@, endpoints@, m + 1)
                    &&& final(self).nics@[k as int].pending@ == taken(
                        old(self).nics@[k as int].pending@,
                        endpoints@,
                        m,
                    )
                },
            strict ==> (r matches Some(found) ==> {
                &&& found@.len() == endpoints@.len()
                &&& forall|j: int|
                    0 <= j < found@.len() ==> (#[trigger] found@[j]).qp_num
                        == endpoints@[j].qp_num && found@[j] == waiting_at(
                        old(self).nics@[k as int].pending@,
                        endpoints@,
                        j,
                    )
            }),
    {
        let ghost held = self.nics@[k as int].pending@;
        let mut found: Vec<RcEndpoint> = Vec::new();
        let mut j: usize = 0;
        while j < endpoints.len()
            invariant
                j <= endpoints@.len(),
                k < self.nics@.len(),
                held == old(self).nics@[k as int].pending@,
                old(self).wf(),
                self.wf(),
                same_but_waiting(*self, *old(self)),
                self.connecting == old(self).connecting,
                forall|i: int|
                    0 <= i < old(self).nics@.len() && i != k ==> #[trigger] self.nics@[i] == old(
                        self).nics@[i],
                self.nics@[k as int].pending@ == taken(held, endpoints@, j as int),
                strict ==> all_waiting(held, endpoints@, j as int) && found@.len() == j,
                strict ==> forall|q: int|
                    0 <= q < found@.len() ==> (#[trigger] found@[q]).qp_num
                        == endpoints@[q].qp_num && found@[q] == waiting_at(held, endpoints@, q),
            decreases endpoints@.len() - j,
        {
            let ghost before = self.nics@;
            let qpn: u32 = endpoints[j].qp_num;
            let one: Option<RcEndpoint> = self.nics[k].remove_pending_by_qpn(qpn);
            proof {
                assert forall|i: int| 0 <= i < self.nics@.len() implies (#[trigger]
                self.nics@[i]).wf() by {
                    assert(before[i].wf());
                }
                assert forall|i: int| 0 <= i < self.nics@.len() implies same_but_pending(
                    #[trigger] self.nics@[i],
                    old(self).nics@[i],
                ) by {
                    assert(same_but_pending(before[i], old(self).nics@[i]));
                }
            }
            match one {
                Some(e) => {
                    found.push(e);
                },
                None => {
                    if strict {
                        proof {
                            assert(all_waiting(held, endpoints@, j as int));
                            lemma_not_waiting(held, endpoints@, j + 1, endpoints@.len() as int);
                        }
                        return None;
                    }
                },
            }
            j += 1;
        }
        Some(found)
    }

    /// Goes on with a handshake once the peer has answered. An answer that does not
    /// fit this node's NICs and queue pairs is refused. The queue pairs of the
    /// handshake leave the waiting ones: they are to be connected, in order, or are
    /// not needed where another handshake was quicker.
    pub fn complete_handshake(
        &mut self,
        remote_addr: &str,
        local_nics: &Vec<NicHandshake>,
        remote_nics: &Vec<NicHandshake>,
    ) -> (r: Result<CompleteStep, TransferError>)
        requires
            old(self).wf(),
            local_nics@.len() == old(self).nics@.len(),
            forall|k: int|
                0 <= k < local_nics@.len() ==> (#[trigger] local_nics@[k]).endpoints@.len() <= old(
                    self).qps_per_peer,
        ensures
            final(self).wf(),
            same_but_waiting(*final(self), *old(self)),
            ({
                let n = old(self).nics@.len();
                let fault = remote_fault(remote_nics@, n, old(self).qps_per_peer, n as int);
                if remote_nics@.len() != n {
                    &&& r matches Err(e) && refused(e, "remote NIC count mismatch in handshake"@)
                    &&& *final(self) == *old(self)
                } else if fault is Some {
                    &&& r matches Err(e) && backend_error(e, fault->0)
                    &&& *final(self) == *old(self)
                } else if old(self).connected(remote_addr@) {
                    &&& r matches Ok(CompleteStep::AlreadyConnected)
                    &&& final(self).connecting@ == old(self).connecting@.remove(remote_addr@)
                    &&& forall|k: int|
                        0 <= k < n ==> (#[trigger] final(self).nics@[k]).pending@ == taken(
                            old(self).nics@[k].pending@,
                            local_nics@[k].endpoints@,
                            width(local_nics@, k),
                        )
                } else if handshake_waits(old(self).nics@, local_nics@, n as int) {
                    &&& final(self).connecting == old(self).connecting
                    &&& r matches Ok(CompleteStep::Connect(pairs)) && pairs_match(
                        pairs@,
                        old(self).nics@,
                        local_nics@,
                        remote_nics@,
                        n as int,
                    )
                    &&& forall|k: int|
                        0 <= k < n ==> (#[trigger] final(self).nics@[k]).pending@ == taken(
                            old(self).nics@[k].pending@,
                            local_nics@[k].endpoints@,
                            width(local_nics@, k),
                        )
                } else {
                    &&& r matches Err(e) && backend_error(e, "no pending session to complete"@)
                    &&& final(self).connecting == old(self).connecting
                    &&& exists|q: int, m: int| #[trigger]
                        taken_up_to(old(self).nics@, final(self).nics@, local_nics@, q, m)
                }
            }),
    {
        let n: usize = self.nics.len();
        if remote_nics.len() != n {
            return Err(TransferError::InvalidArgument("remote NIC count mismatch in handshake"));
        }
        let mut i: usize = 0;
        while i < n
            invariant
                i <= n,
                old(self).wf(),
                *self == *old(self),
                n == remote_nics@.len(),
                n == self.nics@.len(),
                remote_fault(remote_nics@, n as nat, self.qps_per_peer, i as int) is None,
                forall|k: int|
                    0 <= k < i ==> (#[trigger] remote_nics@[k]).endpoints@.len()
                        == self.qps_per_peer,
            decreases n - i,
        {
            let count: usize = remote_nics[i].endpoints.len();
            if count != self.qps_per_peer {
                proof {
                    lemma_remote_fault_stays(
                        remote_nics@,
                        n as nat,
                        self.qps_per_peer,
                        i + 1,
                        n as int,
                    );
                }
                return Err(
                    TransferError::Backend(
                        join6(
                            "remote qps_per_peer mismatch on nic=",
                            &decimal_text(i as u64),
                            ": local=",
                            &decimal_text(self.qps_per_peer as u64),
                            ", remote=",
                            &decimal_text(count as u64),
                        ),
                    ),
                );
            }
            i += 1;
        }
        let already: bool = self.find_connection(remote_addr).is_some();
        let mut pairs: Vec<QpPair> = Vec::new();
        let mut k: usize = 0;
        while k < n
            invariant
                k <= n,
                n == old(self).nics@.len(),
                n == local_nics@.len(),
                n == remote_nics@.len(),
                old(self).wf(),
                self.wf(),
                same_but_waiting(*self, *old(self)),
                self.connecting == old(self).connecting,
                already == old(self).connected(remote_addr@),
                remote_fault(remote_nics@, n as nat, old(self).qps_per_peer, n as int) is None,
                forall|q: int|
                    0 <= q < n ==> (#[trigger] remote_nics@[q]).endpoints@.len()
                        == self.qps_per_peer,
                forall|q: int|
                    0 <= q < local_nics@.len() ==> (#[trigger] local_nics@[q]).endpoints@.len()
                        <= old(self).qps_per_peer,
                forall|q: int|
                    0 <= q < k ==> (#[trigger] self.nics@[q]).pending@ == taken(
                        old(self).nics@[q].pending@,
                        local_nics@[q].endpoints@,
                        width(local_nics@, q),
                    ),
                forall|q: int| k <= q < n ==> #[trigger] self.nics@[q] == old(self).nics@[q],
                !already ==> handshake_waits(old(self).nics@, local_nics@, k as int)
                    && pairs_match(
                    pairs@,
                    old(self).nics@,
                    local_nics@,
                    remote_nics@,
                    k as int,
                ),
            decreases n - k,
        {
            let ghost before = self.nics@;
            let found: Vec<RcEndpoint> = match self.take_nic(
                k,
                &local_nics[k].endpoints,
                !already,
            ) {
                Some(found) => found,
                None => {
                    assert(!all_waiting(
                        old(self).nics@[k as int].pending@,
                        local_nics@[k as int].endpoints@,
                        width(local_nics@, k as int),
                    ));
                    proof {
                        let held = before[k as int].pending@;
                        let wanted = local_nics@[k as int].endpoints@;
                        let m = choose|m: int|
                            {
                                &&& 0 <= m < wanted.len()
                                &&& #[trigger] all_waiting(held, wanted, m)
                                &&& !all_waiting(held, wanted, m + 1)
                                &&& self.nics@[k as int].pending@ == taken(held, wanted, m)
                            };
                        assert forall|q: int| 0 <= q < k implies (
                        #[trigger] self.nics@[q]).pending@ == taken(
                            old(self).nics@[q].pending@,
                            local_nics@[q].endpoints@,
                            width(local_nics@, q),
                        ) by {
                            assert(self.nics@[q] == before[q]);
                        }
                        assert(taken_up_to(old(self).nics@, self.nics@, local_nics@, k as int, m));
                    }
                    return Err(
                        TransferError::Backend(String::from_str("no pending session to complete")),
                    );
                },
            };
            if !already {
                let ghost done = pairs@;
                let mut j: usize = 0;
                assert(remote_nics@[k as int].endpoints@.len() == self.qps_per_peer);
                assert(width(local_nics@, k as int) <= old(self).qps_per_peer);
                while j < found.len()
                    invariant
                        j <= found@.len(),
                        k < n,
                        n == local_nics@.len(),
                        n == remote_nics@.len(),
                        found@.len() == local_nics@[k as int].endpoints@.len(),
                        found@.len() <= remote_nics@[k as int].endpoints@.len(),
                        forall|q: int|
                            0 <= q < found@.len() ==> (#[trigger] found@[q]) == waiting_at(
                                old(self).nics@[k as int].pending@,
                                local_nics@[k as int].endpoints@,
                                q,
                            ),
                        pairs_match(done, old(self).nics@, local_nics@, remote_nics@, k as int),
                        pairs@.len() == done.len() + j,
                        forall|q: int| 0 <= q < done.len() ==> pairs@[q] == done[q],
                        forall|q: int|
                            0 <= q < j ==> {
                                &&& (#[trigger] pairs@[done.len() + q]).nic == k
                                &&& pairs@[done.len() + q].local == waiting_at(
                                    old(self).nics@[k as int].pending@,
                                    local_nics@[k as int].endpoints@,
                                    q,
                                )
                                &&& pairs@[done.len() + q].remote
                                    == remote_nics@[k as int].endpoints@[q]
                            },
                    decreases found@.len() - j,
                {
                    pairs.push(
                        QpPair { nic: k, local: found[j], remote: remote_nics[k].endpoints[j] },
                    );
                    j += 1;
                }
                proof {
                    lemma_pairs_extend(
                        done,
                        pairs@,
                        old(self).nics@,
                        local_nics@,
                        remote_nics@,
                        k as int,
                    );
                }
            }
            k += 1;
        }
        if already {
            self.connecting.remove(remote_addr);
            return Ok(CompleteStep::AlreadyConnected);
        }
        Ok(CompleteStep::Connect(pairs))
    }
}

proof fn lemma_not_waiting(pending: Seq<RcEndpoint>, endpoints: Seq<RcEndpoint>, m: int, n: int)
    requires
        m <= n,
        !all_waiting(pending, endpoints, m),
    ensures
        !all_waiting(pending, endpoints, n),
    decreases n - m,
{
    if m < n {
        lemma_not_waiting(pending, endpoints, m, n - 1);
    }
}

proof fn lemma_remote_fault_stays(
    remote: Seq<NicHandshake>,
    nic_count: nat,
    qps_per_peer: usize,
    m: int,
    n: int,
)
    requires
        m <= n,
    ensures
        remote_fault(remote, nic_count, qps_per_peer, m) is Some ==> remote_fault(
            remote,
            nic_count,
            qps_per_peer,
            n,
        ) == remote_fault(remote, nic_count, qps_per_peer, m),
    decreases n - m,
{
    if m < n {
        lemma_remote_fault_stays(remote, nic_count, qps_per_peer, m, n - 1);
    }
}

/// How many endpoints the first `n` NICs have.
pub open spec fn total_width(local: Seq<NicHandshake>, n: int) -> int
    decreases n,
{
    if n <= 0 {
        0
    } else {
        total_width(local, n - 1) + width(local, n - 1)
    }
}

/// Whether `pairs` pair the queue pairs of the first `n` NICs with those of the
/// peer, NIC by NIC and in order.
pub open spec fn pairs_match(
    pairs: Seq<QpPair>,
    nics: Seq<PerNicState>,
    local: Seq<NicHandshake>,
    remote: Seq<NicHandshake>,
    n: int,
) -> bool {
    &&& pairs.len() == total_width(local, n)
    &&& forall|k: int, j: int|
        0 <= k < n && 0 <= j < width(local, k) ==> #[trigger] paired(
            pairs,
            nics,
            local,
            remote,
            k,
            j,
        )
}

/// Whether `pairs` pair queue pair `j` of NIC `k`, which waited, with that of the peer.
pub open spec fn paired(
    pairs: Seq<QpPair>,
    nics: Seq<PerNicState>,
    local: Seq<NicHandshake>,
    remote: Seq<NicHandshake>,
    k: int,
    j: int,
) -> bool {
    let pair = pairs[total_width(local, k) + j];
    &&& pair.nic == k
    &&& pair.local == waiting_at(nics[k].pending@, local[k].endpoints@, j)
    &&& pair.remote == remote[k].endpoints@[j]
}

proof fn lemma_width_grows(local: Seq<NicHandshake>, m: int, n: int)
    requires
        m <= n,
    ensures
        total_width(local, m) <= total_width(local, n),
    decreases n - m,
{
    if m < n {
        lemma_width_grows(local, m, n - 1);
    }
}

proof fn lemma_pairs_extend(
    done: Seq<QpPair>,
    pairs: Seq<QpPair>,
    nics: Seq<PerNicState>,
    local: Seq<NicHandshake>,
    remote: Seq<NicHandshake>,
    k: int,
)
    requires
        0 <= k < local.len(),
        pairs_match(done, nics, local, remote, k),
        pairs.len() == done.len() + width(local, k),
        forall|q: int| 0 <= q < done.len() ==> pairs[q] == done[q],
        forall|q: int|
            0 <= q < width(local, k) ==> {
                &&& (#[trigger] pairs[done.len() + q]).nic == k
                &&& pairs[done.len() + q].local == waiting_at(
                    nics[k].pending@,
                    local[k].endpoints@,
                    q,
                )
                &&& pairs[done.len() + q].remote == remote[k].endpoints@[q]
            },
    ensures
        pairs_match(pairs, nics, local, remote, k + 1),
{
    assert forall|a: int, j: int| 0 <= a < k + 1 && 0 <= j < width(local, a) implies #[trigger] paired(
        pairs,
        nics,
        local,
        remote,
        a,
        j,
    ) by {
        if a < k {
            lemma_width_grows(local, a + 1, k);
            lemma_width_grows(local, 0, a);
            let q = total_width(local, a) + j;
            assert(paired(done, nics, local, remote, a, j));
            assert(pairs[q] == done[q]);
        } else {
            assert(pairs[done.len() + j].nic == k);
        }
    }
}

/// The sum of `lengths`.
pub open spec fn sum_of(lengths: Seq<usize>) -> nat
    decreases lengths.len(),
{
    if lengths.len() == 0 {
        0
    } else {
        sum_of(lengths.drop_last()) + lengths.last() as nat
    }
}

proof fn lemma_sum_grows(lengths: Seq<usize>, n: int)
    requires
        0 <= n <= lengths.len(),
    ensures
        sum_of(lengths.take(n)) <= sum_of(lengths),
    decreases lengths.len() - n,
{
    if n < lengths.len() {
        lemma_sum_grows(lengths, n + 1);
        assert(lengths.take(n + 1).drop_last() =~= lengths.take(n));
    } else {
        assert(lengths.take(n) =~= lengths);
    }
}

/// Counts queue pairs from how many each group of sessions has.
pub fn count_queue_pairs(session_group_lengths: &[usize]) -> (r: usize)
    requires
        sum_of(session_group_lengths@) <= usize::MAX,
    ensures
        r == sum_of(session_group_lengths@),
{
    let mut total: usize = 0;
    let mut i: usize = 0;
    assert(session_group_lengths@.take(0) =~= Seq::<usize>::empty());
    while i < session_group_lengths.len()
        invariant
            i <= session_group_lengths@.len(),
            sum_of(session_group_lengths@) <= usize::MAX,
            total == sum_of(session_group_lengths@.take(i as int)),
        decreases session_group_lengths@.len() - i,
    {
        proof {
            lemma_sum_grows(session_group_lengths@, i + 1);
            assert(session_group_lengths@.take(i + 1).drop_last()
                =~= session_group_lengths@.take(i as int));
            assert(session_group_lengths@.take(i + 1).last() == session_group_lengths@[i as int]);
        }
        total = total + session_group_lengths[i];
        i += 1;
    }
    assert(session_group_lengths@.take(i as int) =~= session_group_lengths@);
    total
}

/// How many queue pairs each peer has on a NIC.
pub open spec fn session_lengths(nic: PerNicState) -> Seq<usize> {
    nic.sessions@.map_values(|s: (u32, Vec<u32>)| s.1@.len() as usize)
}

/// How many queue pairs each peer has on each of the first `n` NICs.
pub open spec fn all_lengths(nics: Seq<PerNicState>, n: int) -> Seq<usize>
    decreases n,
{
    if n <= 0 {
        Seq::empty()
    } else {
        all_lengths(nics, n - 1) + session_lengths(nics[n - 1])
    }
}

/// The numbers of the queue pairs of a NIC's part of a handshake.
pub open spec fn qpns_of(nic: NicHandshake) -> Seq<u32> {
    nic.endpoints@.map_values(|e: RcEndpoint| e.qp_num)
}

/// What is wrong with the memory that a peer has sent for one NIC, if anything.
pub open spec fn memory_fault(nic: NicHandshake) -> Option<Seq<char>> {
    match first_region_fault(nic.memory_regions@) {
        Some(m) => Some(m),
        None => if overlapping(nic.memory_regions@) {
            Some("handshake response contains overlapping memory regions"@)
        } else {
            None
        },
    }
}

/// The first thing that is wrong with the memory for the first `n` NICs.
pub open spec fn first_memory_fault(remote: Seq<NicHandshake>, n: int) -> Option<Seq<char>>
    decreases n,
{
    if n <= 0 {
        None
    } else if first_memory_fault(remote, n - 1) is Some {
        first_memory_fault(remote, n - 1)
    } else {
        memory_fault(remote[n - 1])
    }
}

proof fn lemma_memory_fault_stays(remote: Seq<NicHandshake>, m: int, n: int)
    requires
        m <= n,
    ensures
        first_memory_fault(remote, m) is Some ==> first_memory_fault(remote, n)
            == first_memory_fault(remote, m),
    decreases n - m,
{
    if m < n {
        lemma_memory_fault_stays(remote, m, n - 1);
    }
}

/// Whether `after` is `before` without the connection to a peer: each NIC forgets the peer, and
/// nothing else.
pub open spec fn peer_forgotten(
    before: TransferEngine,
    after: TransferEngine,
    addr: Seq<char>,
) -> bool {
    &&& after.nics@.len() == before.nics@.len()
    &&& as_map(after.conns()) == as_map(before.conns()).remove(addr)
    &&& !before.connected(addr) ==> after.nics == before.nics
    &&& before.connected(addr) ==> forall|k: int|
        0 <= k < before.nics@.len() ==> {
            let first = lookup(before.conns(), addr)->0.first_qpns[k];
            &&& (#[trigger] after.nics@[k]).pending == before.nics@[k].pending
            &&& after.nics@[k].session_map() == before.nics@[k].session_map().remove(first)
            &&& after.nics@[k].memory_map() == before.nics@[k].memory_map().remove(first)
        }
}

/// Whether `after` is `before` with a peer connected on it.
pub open spec fn peer_added(
    before: PerNicState,
    after: PerNicState,
    local: NicHandshake,
    remote: NicHandshake,
) -> bool {
    let first = remote.endpoints@[0].qp_num;
    &&& after.pending == before.pending
    &&& after.session_map() == before.session_map().insert(first, qpns_of(local))
    &&& after.memory_map().contains_key(first)
    &&& is_snapshot(after.memory_map()[first], remote.memory_regions@)
    &&& after.memory_map() == before.memory_map().insert(first, after.memory_map()[first])
}

/// Whether a peer was added on the NICs before `q`, the first whose memory is not in order.
pub open spec fn refused_at(
    before: Seq<PerNicState>,
    after: Seq<PerNicState>,
    local: Seq<NicHandshake>,
    remote: Seq<NicHandshake>,
    q: int,
) -> bool {
    &&& 0 <= q < before.len()
    &&& first_memory_fault(remote, q) is None
    &&& memory_fault(remote[q]) is Some
    &&& forall|k: int|
        0 <= k < q ==> peer_added(before[k], #[trigger] after[k], local[k], remote[k])
    &&& forall|k: int| q <= k < before.len() ==> #[trigger] after[k] == before[k]
}

/// Whether noting a connection turns `before` into `after`, with the answer `r`.
pub open spec fn establishes(
    before: TransferEngine,
    after: TransferEngine,
    addr: Seq<char>,
    local: Seq<NicHandshake>,
    remote: Seq<NicHandshake>,
    r: Result<(), TransferError>,
) -> bool {
    let n = before.nics@.len() as int;
    &&& after.registered == before.registered
    &&& after.qps_per_peer == before.qps_per_peer
    &&& after.numa_rr == before.numa_rr
    &&& after.psn_counter == before.psn_counter
    &&& after.nics@.len() == n
    &&& match r {
        Ok(_) => {
            &&& first_memory_fault(remote, n) is None
            &&& forall|k: int|
                0 <= k < n ==> peer_added(
                    before.nics@[k],
                    #[trigger] after.nics@[k],
                    local[k],
                    remote[k],
                )
            &&& after.connecting@ == before.connecting@.remove(addr)
            &&& as_map(after.conns()) == as_map(before.conns()).insert(
                addr,
                (ConnView {
                    first_qpns: Seq::new(n as nat, |k: int| remote[k].endpoints@[0].qp_num),
                    local: nic_views(local),
                    turns: Seq::new(n as nat, |k: int| 0usize),
                }),
            )
        },
        Err(e) => {
            &&& first_memory_fault(remote, n) is Some
            &&& backend_error(e, first_memory_fault(remote, n)->0)
            &&& after.connecting == before.connecting
            &&& after.addr_connections == before.addr_connections
            &&& exists|q: int| #[trigger]
                refused_at(before.nics@, after.nics@, local, remote, q)
        },
    }
}

impl TransferEngine {
    /// Notes a connection whose queue pairs have been connected. Memory of the peer
    /// that is not in order is refused; NICs before the one with such memory keep
    /// what was noted for them.
    pub fn establish_connection(
        &mut self,
        remote_addr: &str,
        local_nics: Vec<NicHandshake>,
        remote_nics: &Vec<NicHandshake>,
    ) -> (r: Result<(), TransferError>)
        requires
            old(self).wf(),
            local_nics@.len() == old(self).nics@.len(),
            remote_nics@.len() == old(self).nics@.len(),
            forall|k: int|
                0 <= k < remote_nics@.len() ==> (#[trigger] remote_nics@[k]).endpoints@.len() > 0,
        ensures
            final(self).wf(),
            establishes(
                *old(self),
                *final(self),
                remote_addr@,
                local_nics@,
                remote_nics@,
                r,
            ),
    {
        let n: usize = self.nics.len();
        let mut first_qpns: Vec<u32> = Vec::new();
        let mut turns: Vec<usize> = Vec::new();
        let mut k: usize = 0;
        while k < n
            invariant
                k <= n,
                n == old(self).nics@.len(),
                n == self.nics@.len(),
                n == local_nics@.len(),
                n == remote_nics@.len(),
                old(self).wf(),
                self.wf(),
                self.registered == old(self).registered,
                self.qps_per_peer == old(self).qps_per_peer,
                self.numa_rr == old(self).numa_rr,
                self.psn_counter == old(self).psn_counter,
                self.addr_connections == old(self).addr_connections,
                self.connecting == old(self).connecting,
                forall|q: int|
                    0 <= q < remote_nics@.len() ==> (#[trigger] remote_nics@[q]).endpoints@.len()
                        > 0,
                first_memory_fault(remote_nics@, k as int) is None,
                forall|q: int|
                    0 <= q < k ==> peer_added(
                        old(self).nics@[q],
                        #[trigger] self.nics@[q],
                        local_nics@[q],
                        remote_nics@[q],
                    ),
                forall|q: int| k <= q < n ==> #[trigger] self.nics@[q] == old(self).nics@[q],
                first_qpns@ == Seq::new(
                    k as nat,
                    |q: int| remote_nics@[q].endpoints@[0].qp_num,
                ),
                turns@ == Seq::new(k as nat, |q: int| 0usize),
            decreases n - k,
        {
            assert(remote_nics@[k as int].endpoints@.len() > 0);
            let first: u32 = remote_nics[k].endpoints[0].qp_num;
            let mut sessions: Vec<u32> = Vec::new();
            let mut j: usize = 0;
            while j < local_nics[k].endpoints.len()
                invariant
                    k < local_nics@.len(),
                    j <= local_nics@[k as int].endpoints@.len(),
                    sessions@ == qpns_of(local_nics@[k as int]).take(j as int),
                decreases local_nics@[k as int].endpoints@.len() - j,
            {
                sessions.push(local_nics[k].endpoints[j].qp_num);
                j += 1;
                assert(sessions@ =~= qpns_of(local_nics@[k as int]).take(j as int));
            }
            assert(sessions@ =~= qpns_of(local_nics@[k as int]));
            let ghost before = self.nics@;
            proof {
                assert(before[k as int].wf());
                lemma_memory_fault_stays(remote_nics@, k + 1, n as int);
            }
            match self.nics[k].cache_remote_memory(first, &remote_nics[k].memory_regions) {
                Ok(_) => {},
                Err(e) => {
                    assert(self.nics@ =~= before);
                    assert(refused_at(old(self).nics@, self.nics@, local_nics@, remote_nics@, k as int));
                    return Err(e);
                },
            }
            let ghost middle = self.nics@[k as int];
            self.nics[k].insert_sessions(first, sessions);
            proof {
                let entries = middle.memory_map()[first];
                assert(middle.memory_map() =~= before[k as int].memory_map().insert(
                    first,
                    entries,
                ));
                assert(self.nics@[k as int].memory_map() == middle.memory_map());
                assert(middle.session_map() == before[k as int].session_map());
                assert forall|i: int| 0 <= i < self.nics@.len() implies (#[trigger]
                self.nics@[i]).wf() by {
                    if i != k {
                        assert(self.nics@[i] == before[i]);
                    }
                }
            }
            first_qpns.push(first);
            turns.push(0);
            k += 1;
            assert(first_qpns@ =~= Seq::new(
                k as nat,
                |q: int| remote_nics@[q].endpoints@[0].qp_num,
            ));
            assert(turns@ =~= Seq::new(k as nat, |q: int| 0usize));
        }
        self.connecting.remove(remote_addr);
        let ghost before = self.conns();
        let ghost raw = self.addr_connections@;
        let ghost value = ConnView {
            first_qpns: first_qpns@,
            local: nic_views(local_nics@),
            turns: turns@,
        };
        let conn: AddrConnection = AddrConnection {
            remote_first_qpns: first_qpns,
            local_nics,
            rr_counters: turns,
        };
        assert(conn@ == value);
        match self.find_connection(remote_addr) {
            Some(i) => {
                proof {
                    lemma_update(before, i as int, value);
                }
                self.addr_connections[i] = (String::from_str(remote_addr), conn);
                proof {
                    assert(self.conns() =~= before.update(i as int, (remote_addr@, value)));
                    assert forall|q: int| 0 <= q < self.addr_connections@.len() implies {
                        &&& (#[trigger] self.addr_connections@[q]).1.remote_first_qpns@.len() == n
                        &&& self.addr_connections@[q].1.rr_counters@.len() == n
                    } by {
                        if q != i {
                            assert(self.addr_connections@[q] == raw[q]);
                        }
                    }
                }
            },
            None => {
                proof {
                    lemma_push(before, remote_addr@, value);
                }
                self.addr_connections.push((String::from_str(remote_addr), conn));
                proof {
                    assert(self.conns() =~= before.push((remote_addr@, value)));
                    assert forall|q: int| 0 <= q < self.addr_connections@.len() implies {
                        &&& (#[trigger] self.addr_connections@[q]).1.remote_first_qpns@.len() == n
                        &&& self.addr_connections@[q].1.rr_counters@.len() == n
                    } by {
                        if q < raw.len() {
                            assert(self.addr_connections@[q] == raw[q]);
                        }
                    }
                }
            },
        }
        Ok(())
    }

    /// Ends a handshake that failed: its queue pairs do not wait any more.
    pub fn abort_handshake(&mut self, remote_addr: &str, local_nics: &Vec<NicHandshake>)
        requires
            old(self).wf(),
            local_nics@.len() <= old(self).nics@.len(),
        ensures
            final(self).wf(),
            same_but_waiting(*final(self), *old(self)),
            final(self).connecting@ == old(self).connecting@.remove(remote_addr@),
            forall|k: int|
                0 <= k < local_nics@.len() ==> (#[trigger] final(self).nics@[k]).pending@ == taken(
                    old(self).nics@[k].pending@,
                    local_nics@[k].endpoints@,
                    width(local_nics@, k),
                ),
            forall|k: int|
                local_nics@.len() <= k < old(self).nics@.len() ==> #[trigger] final(self).nics@[k]
                    == old(self).nics@[k],
    {
        self.connecting.remove(remote_addr);
        let ghost removed = self.connecting;
        let mut k: usize = 0;
        while k < local_nics.len()
            invariant
                k <= local_nics@.len(),
                local_nics@.len() <= old(self).nics@.len(),
                old(self).wf(),
                self.wf(),
                same_but_waiting(*self, *old(self)),
                self.connecting == removed,
                forall|q: int|
                    0 <= q < k ==> (#[trigger] self.nics@[q]).pending@ == taken(
                        old(self).nics@[q].pending@,
                        local_nics@[q].endpoints@,
                        width(local_nics@, q),
                    ),
                forall|q: int|
                    k <= q < old(self).nics@.len() ==> #[trigger] self.nics@[q] == old(
                        self).nics@[q],
            decreases local_nics@.len() - k,
        {
            let _ = self.take_nic(k, &local_nics[k].endpoints, false);
            k += 1;
        }
    }

    /// What was sent to a connected peer.
    pub fn local_meta_for(&self, remote_addr: &str) -> (r: Option<HandshakeMetadata>)
        requires
            self.wf(),
        ensures
            match r {
                Some(m) => self.connected(remote_addr@) && m@ == lookup(
                    self.conns(),
                    remote_addr@,
                )->0.local,
                None => !self.connected(remote_addr@),
            },
    {
        match self.find_connection(remote_addr) {
            Some(i) => {
                let local: &Vec<NicHandshake> = &self.addr_connections[i].1.local_nics;
                let mut nics: Vec<NicHandshake> = Vec::new();
                let mut k: usize = 0;
                while k < local.len()
                    invariant
                        k <= local@.len(),
                        nics@.len() == k,
                        forall|q: int| 0 <= q < k ==> (#[trigger] nics@[q])@ == local@[q]@,
                    decreases local@.len() - k,
                {
                    nics.push(local[k].duplicate());
                    k += 1;
                }
                let m: HandshakeMetadata = HandshakeMetadata { nics };
                assert(m@ =~= nic_views(local@));
                Some(m)
            },
            None => None,
        }
    }

    /// Gives a connection up, and forgets the peer on every NIC.
    pub fn invalidate_connection(&mut self, remote_addr: &str)
        requires
            old(self).wf(),
        ensures
            final(self).wf(),
            final(self).registered == old(self).registered,
            final(self).connecting == old(self).connecting,
            final(self).qps_per_peer == old(self).qps_per_peer,
            final(self).numa_rr == old(self).numa_rr,
            final(self).psn_counter == old(self).psn_counter,
            peer_forgotten(*old(self), *final(self), remote_addr@),
    {
        let ghost before = self.conns();
        let ghost raw = self.addr_connections@;
        let i: usize = match self.find_connection(remote_addr) {
            Some(i) => i,
            None => {
                assert(as_map(before).remove(remote_addr@) =~= as_map(before));
                return ;
            },
        };
        proof {
            lemma_remove(before, i as int);
            assert(raw[i as int].1.remote_first_qpns@.len() == self.nics@.len());
        }
        let (_, conn): (String, AddrConnection) = self.addr_connections.remove(i);
        proof {
            assert(self.conns() =~= before.remove(i as int));
            assert forall|q: int| 0 <= q < self.addr_connections@.len() implies {
                &&& (#[trigger] self.addr_connections@[q]).1.remote_first_qpns@.len()
                    == self.nics@.len()
                &&& self.addr_connections@[q].1.rr_counters@.len() == self.nics@.len()
            } by {
                let p = if q < i {
                    q
                } else {
                    q + 1
                };
                assert(self.addr_connections@[q] == raw[p]);
            }
        }
        let n: usize = self.nics.len();
        let mut k: usize = 0;
        while k < n
            invariant
                k <= n,
                n == self.nics@.len(),
                n == old(self).nics@.len(),
                conn.remote_first_qpns@.len() == n,
                old(self).wf(),
                self.wf(),
                self.registered == old(self).registered,
                self.psn_counter == old(self).psn_counter,
                self.connecting == old(self).connecting,
                self.qps_per_peer == old(self).qps_per_peer,
                self.numa_rr == old(self).numa_rr,
                self.conns() == before.remove(i as int),
                forall|q: int|
                    0 <= q < k ==> {
                        let first = conn.remote_first_qpns@[q];
                        &&& (#[trigger] self.nics@[q]).pending == old(self).nics@[q].pending
                        &&& self.nics@[q].session_map() == old(
                            self).nics@[q].session_map().remove(first)
                        &&& self.nics@[q].memory_map() == old(self).nics@[q].memory_map().remove(
                            first,
                        )
                    },
                forall|q: int| k <= q < n ==> #[trigger] self.nics@[q] == old(self).nics@[q],
            decreases n - k,
        {
            let ghost nics = self.nics@;
            assert(nics[k as int].wf());
            self.nics[k].cleanup_connection(conn.remote_first_qpns[k]);
            assert forall|q: int| 0 <= q < self.nics@.len() implies (#[trigger]
            self.nics@[q]).wf() by {
                if q != k {
                    assert(self.nics@[q] == nics[q]);
                }
            }
            k += 1;
        }
    }

    /// How many queue pairs are connected, over all NICs and peers.
    pub fn num_qps(&self) -> (r: usize)
        requires
            sum_of(all_lengths(self.nics@, self.nics@.len() as int)) <= usize::MAX,
        ensures
            r == sum_of(all_lengths(self.nics@, self.nics@.len() as int)),
    {
        let mut lengths: Vec<usize> = Vec::new();
        let mut k: usize = 0;
        assert(lengths@ =~= all_lengths(self.nics@, 0));
        while k < self.nics.len()
            invariant
                k <= self.nics@.len(),
                lengths@ == all_lengths(self.nics@, k as int),
            decreases self.nics@.len() - k,
        {
            let nic: &PerNicState = &self.nics[k];
            let ghost before = lengths@;
            let mut j: usize = 0;
            assert(before + session_lengths(*nic).take(0) =~= before);
            while j < nic.sessions.len()
                invariant
                    j <= nic.sessions@.len(),
                    lengths@ == before + session_lengths(*nic).take(j as int),
                decreases nic.sessions@.len() - j,
            {
                lengths.push(nic.sessions[j].1.len());
                j += 1;
                assert(lengths@ =~= before + session_lengths(*nic).take(j as int));
            }
            assert(session_lengths(*nic).take(j as int) =~= session_lengths(*nic));
            k += 1;
        }
        count_queue_pairs(&lengths)
    }

    /// How many peers are connected. A connection can have several queue pairs on
    /// each NIC.
    pub fn num_connections(&self) -> (r: usize)
        ensures
            r == self.conns().len(),
    {
        self.addr_connections.len()
    }
}

impl TransferEngine {
    /// How it stands with a peer, once queue pairs were made where a handshake was begun.
    pub fn connection_status(&mut self, step: PrepareStep, endpoints: Vec<Vec<RcEndpoint>>) -> (r:
        ConnectionStatus)
        requires
            old(self).wf(),
            step is Prepare ==> endpoints@.len() == old(self).nics@.len(),
        ensures
            final(self).wf(),
            match step {
                PrepareStep::Existing => r is Existing && *final(self) == *old(self),
                PrepareStep::AlreadyConnecting => r is Connecting && *final(self) == *old(self),
                PrepareStep::Prepare => {
                    &&& same_but_waiting(*final(self), *old(self))
                    &&& final(self).connecting == old(self).connecting
                    &&& r matches ConnectionStatus::Prepared(m) && m.nics@.len()
                        == endpoints@.len() && forall|k: int|
                        0 <= k < endpoints@.len() ==> {
                            &&& (#[trigger] m.nics@[k]).endpoints@ == endpoints@[k]@
                            &&& is_export(m.nics@[k].memory_regions@, old(self).regions(), k)
                        }
                    &&& forall|k: int|
                        0 <= k < endpoints@.len() ==> (#[trigger] final(self).nics@[k]).pending@
                            == old(self).nics@[k].pending@ + endpoints@[k]@
                },
            },
    {
        match step {
            PrepareStep::Existing => ConnectionStatus::Existing,
            PrepareStep::AlreadyConnecting => ConnectionStatus::Connecting,
            PrepareStep::Prepare => ConnectionStatus::Prepared(self.prepare_handshake(endpoints)),
        }
    }
}

/// The first registered region that holds some bytes as a whole is the one that counts.
pub proof fn law_the_first_region_around_counts(
    regions: Seq<(u64, EntryView)>,
    ptr: u64,
    len: nat,
    i: int,
)
    requires
        0 <= i < regions.len(),
        regions[i].0 + regions[i].1.len <= u64::MAX,
        regions[i].0 <= ptr,
        ptr + len <= regions[i].0 + regions[i].1.len,
        forall|k: int|
            0 <= k < i ==> !((#[trigger] regions[k]).0 + regions[k].1.len <= u64::MAX
                && regions[k].0 <= ptr && ptr + len <= regions[k].0 + regions[k].1.len),
    ensures
        covering(regions, ptr, len) == Some(i),
    decreases regions.len(),
{
    let front = regions.drop_last();
    if i < front.len() {
        assert forall|k: int| 0 <= k < i implies !((#[trigger] front[k]).0 + front[k].1.len
            <= u64::MAX && front[k].0 <= ptr && ptr + len <= front[k].0 + front[k].1.len) by {
            assert(regions[k] == front[k]);
        }
        law_the_first_region_around_counts(front, ptr, len, i);
    } else {
        assert forall|k: int| 0 <= k < front.len() implies !((#[trigger] front[k]).0
            + front[k].1.len <= u64::MAX && front[k].0 <= ptr && ptr + len <= front[k].0
            + front[k].1.len) by {
            assert(regions[k] == front[k]);
        }
        law_no_region_around_means_none(front, ptr, len);
    }
}

/// Bytes that no registered region holds as a whole are in none.
pub proof fn law_no_region_around_means_none(regions: Seq<(u64, EntryView)>, ptr: u64, len: nat)
    ensures
        (forall|k: int|
            0 <= k < regions.len() ==> !((#[trigger] regions[k]).0 + regions[k].1.len <= u64::MAX
                && regions[k].0 <= ptr && ptr + len <= regions[k].0 + regions[k].1.len))
            ==> covering(regions, ptr, len) is None,
    decreases regions.len(),
{
    if regions.len() > 0 {
        let front = regions.drop_last();
        law_no_region_around_means_none(front, ptr, len);
        assert(regions[regions.len() - 1] == regions.last());
        assert forall|k: int| 0 <= k < front.len() implies front[k] == #[trigger] regions[k] by {}
    }
}

/// Regions are registered up to the first that is empty; what is registered at an address is the
/// last region that was, and other addresses keep what they have.
pub proof fn law_regions_are_registered_in_turn(
    registered: Map<u64, EntryView>,
    regions: Seq<MemoryRegion>,
    keys: Seq<Vec<MrKeys>>,
    n: int,
    i: int,
    ptr: u64,
)
    requires
        0 <= n <= regions.len(),
        0 <= i < n,
    ensures
        sound_regions(regions, n) <= n,
        sound_regions(regions, n) == n <==> forall|k: int| 0 <= k < n ==> (#[trigger] regions[k]).len > 0,
        regions[i].len == 0 && (forall|k: int| 0 <= k < i ==> (#[trigger] regions[k]).len > 0)
            ==> sound_regions(regions, n) == i,
        (forall|k: int| 0 <= k < n ==> (#[trigger] regions[k]).ptr != ptr) ==> with_regions(
            registered,
            regions,
            keys,
            n,
        ).contains_key(ptr) == registered.contains_key(ptr) && (registered.contains_key(ptr)
            ==> with_regions(registered, regions, keys, n)[ptr] == registered[ptr]),
        (forall|k: int| i < k < n ==> (#[trigger] regions[k]).ptr != regions[i].ptr)
            ==> with_regions(registered, regions, keys, n).contains_key(regions[i].ptr)
            && with_regions(registered, regions, keys, n)[regions[i].ptr] == (EntryView {
            len: regions[i].len,
            mrs: keys[i]@,
        }),
    decreases n,
{
    if n > 1 {
        law_regions_are_registered_in_turn(
            registered,
            regions,
            keys,
            n - 1,
            if i < n - 1 {
                i
            } else {
                0
            },
            ptr,
        );
    }
    reveal_with_fuel(with_regions, 2);
    lemma_sound_all(regions, n);
    lemma_sound_all(regions, n - 1);
    if i == n - 1 {
        lemma_sound_all(regions, i);
    }
}

proof fn lemma_sound_all(regions: Seq<MemoryRegion>, n: int)
    requires
        n <= regions.len(),
    ensures
        n >= 0 ==> 0 <= sound_regions(regions, n) <= n,
        n >= 0 ==> (sound_regions(regions, n) == n <==> forall|k: int|
            0 <= k < n ==> (#[trigger] regions[k]).len > 0),
    decreases n,
{
    if n > 0 {
        lemma_sound_all(regions, n - 1);
    }
}

/// Regions that are given up are no longer registered, and all others still are.
pub proof fn law_only_regions_that_are_given_up_go(
    registered: Map<u64, EntryView>,
    ptrs: Seq<u64>,
    n: int,
    ptr: u64,
)
    requires
        0 <= n <= ptrs.len(),
    ensures
        without_regions(registered, ptrs, n).contains_key(ptr) <==> registered.contains_key(ptr)
            && forall|k: int| 0 <= k < n ==> #[trigger] ptrs[k] != ptr,
        without_regions(registered, ptrs, n).contains_key(ptr) ==> without_regions(
            registered,
            ptrs,
            n,
        )[ptr] == registered[ptr],
    decreases n,
{
    if n > 0 {
        law_only_regions_that_are_given_up_go(registered, ptrs, n - 1, ptr);
    }
}

/// The part of a handshake that a peer has sent fits exactly if it has as many queue pairs on
/// each NIC as are set up here, and its memory is in order exactly if it is on each NIC.
pub proof fn law_peers_fit_where_every_nic_does(
    remote: Seq<NicHandshake>,
    nic_count: nat,
    qps_per_peer: usize,
    n: int,
)
    requires
        0 <= n <= remote.len(),
    ensures
        remote_fault(remote, nic_count, qps_per_peer, n) is None <==> forall|k: int|
            0 <= k < n ==> (#[trigger] remote[k]).endpoints@.len() == qps_per_peer,
        first_memory_fault(remote, n) is None <==> forall|k: int|
            0 <= k < n ==> memory_fault(#[trigger] remote[k]) is None,
    decreases n,
{
    if n > 0 {
        law_peers_fit_where_every_nic_does(remote, nic_count, qps_per_peer, n - 1);
    }
}

/// The memory that a peer tells of is in order exactly if no region is empty or reaches past the
/// end of the addresses, and no two regions have a byte in common.
pub proof fn law_memory_in_order_is_apart(nic: NicHandshake)
    ensures
        memory_fault(nic) is None <==> {
            &&& forall|i: int|
                0 <= i < nic.memory_regions@.len() ==> (#[trigger] nic.memory_regions@[i]).len > 0
                    && nic.memory_regions@[i].base_ptr + nic.memory_regions@[i].len <= u64::MAX
            &&& forall|i: int, j: int|
                0 <= i < j < nic.memory_regions@.len() ==> (#[trigger] nic.memory_regions@[i]).base_ptr
                    + nic.memory_regions@[i].len <= (#[trigger] nic.memory_regions@[j]).base_ptr
                    || nic.memory_regions@[j].base_ptr + nic.memory_regions@[j].len
                    <= nic.memory_regions@[i].base_ptr
        },
{
    let regions = nic.memory_regions@;
    law_regions_are_sound_where_each_is(regions);
    if memory_fault(nic) is None {
        assert forall|i: int, j: int| 0 <= i < j < regions.len() implies (
        #[trigger] regions[i]).base_ptr + regions[i].len <= (#[trigger] regions[j]).base_ptr
            || regions[j].base_ptr + regions[j].len <= regions[i].base_ptr by {
            assert(!meet(regions[i], regions[j]));
        }
    }
}

/// Queue pairs are joined with those of the peer one by one: on each NIC, the waiting one with the
/// number that was sent for place `j` with the one that the peer has sent for it.
pub proof fn law_pairs_join_what_was_exchanged(
    pairs: Seq<QpPair>,
    nics: Seq<PerNicState>,
    local: Seq<NicHandshake>,
    remote: Seq<NicHandshake>,
    n: int,
    k: int,
    j: int,
)
    requires
        pairs_match(pairs, nics, local, remote, n),
        0 <= k < n,
        0 <= j < local[k].endpoints@.len(),
        handshake_waits(nics, local, n),
    ensures
        exists|p: int|
            0 <= p < pairs.len() && (#[trigger] pairs[p]).nic == k && pairs[p].local.qp_num
                == local[k].endpoints@[j].qp_num && pairs[p].remote == remote[k].endpoints@[j],
        pairs.len() == total_width(local, n),
        total_width(local, k + 1) == total_width(local, k) + local[k].endpoints@.len(),
{
    let p = total_width(local, k) + j;
    lemma_widths(local, 0, k);
    lemma_widths(local, k + 1, n);
    assert(paired(pairs, nics, local, remote, k, j));
    let pending = nics[k].pending@;
    let wanted = local[k].endpoints@;
    assert(all_waiting(pending, wanted, width(local, k)));
    lemma_waits_at(pending, wanted, j, width(local, k));
    law_the_first_with_a_number_counts(taken(pending, wanted, j), wanted[j].qp_num);
    assert(pairs[p].nic == k);
}

proof fn lemma_widths(local: Seq<NicHandshake>, m: int, n: int)
    requires
        0 <= m <= n,
    ensures
        total_width(local, m) <= total_width(local, n),
    decreases n,
{
    if m < n {
        lemma_widths(local, m, n - 1);
    }
}

proof fn lemma_waits_at(pending: Seq<RcEndpoint>, wanted: Seq<RcEndpoint>, j: int, n: int)
    requires
        0 <= j < n,
        all_waiting(pending, wanted, n),
    ensures
        first_with(taken(pending, wanted, j), wanted[j].qp_num) is Some,
    decreases n,
{
    if j < n - 1 {
        lemma_waits_at(pending, wanted, j, n - 1);
    }
}

/// The queue pairs of all NICs add up.
pub proof fn law_queue_pairs_add_up(lengths: Seq<usize>, more: usize)
    ensures
        sum_of(Seq::empty()) == 0,
        sum_of(lengths.push(more)) == sum_of(lengths) + more,
{
    assert(lengths.push(more).drop_last() =~= lengths);
}

/// Connections, regions and handshakes are shown whole.
pub proof fn law_connections_are_shown_whole(
    registered: Seq<(u64, RegisteredMemoryEntry)>,
    nics: Seq<NicHandshake>,
    conns: Seq<(String, AddrConnection)>,
    states: Seq<PerNicState>,
    n: int,
    i: int,
)
    requires
        n > 0,
    ensures
        registered_views(registered).len() == registered.len(),
        0 <= i < registered.len() ==> registered_views(registered)[i].0 == registered[i].0
            && registered_views(registered)[i].1.len == registered[i].1.len && registered_views(
            registered,
        )[i].1.mrs == registered[i].1.mrs@,
        nic_views(nics).len() == nics.len(),
        0 <= i < nics.len() ==> nic_views(nics)[i] == nics[i]@,
        conn_views(conns).len() == conns.len(),
        0 <= i < conns.len() ==> conn_views(conns)[i].0 == conns[i].0@ && conn_views(
            conns,
        )[i].1.first_qpns == conns[i].1.remote_first_qpns@ && conn_views(conns)[i].1.turns
            == conns[i].1.rr_counters@ && conn_views(conns)[i].1.local == nic_views(
            conns[i].1.local_nics@,
        ),
        all_lengths(states, 0).len() == 0,
        all_lengths(states, n) == all_lengths(states, n - 1) + Seq::new(
            states[n - 1].sessions@.len(),
            |k: int| states[n - 1].sessions@[k].1@.len() as usize,
        ),
        0 <= i < nics.len() ==> qpns_of(nics[i]) == Seq::new(
            nics[i].endpoints@.len(),
            |k: int| nics[i].endpoints@[k].qp_num,
        ),
{
    assert(session_lengths(states[n - 1]) =~= Seq::new(
        states[n - 1].sessions@.len(),
        |k: int| states[n - 1].sessions@[k].1@.len() as usize,
    ));
    if 0 <= i < nics.len() {
        assert(qpns_of(nics[i]) =~= Seq::new(
            nics[i].endpoints@.len(),
            |k: int| nics[i].endpoints@[k].qp_num,
        ));
    }
}

/// Every registered region is told to a peer, with its length and the key of the NIC, in order.
pub proof fn law_every_region_is_told(
    regions: Seq<RegisteredMemoryRegion>,
    registered: Seq<(u64, EntryView)>,
    nic: int,
    i: int,
)
    requires
        is_export(regions, registered, nic),
        0 <= i < registered.len(),
    ensures
        regions.len() == registered.len(),
        exists|k: int|
            0 <= k < regions.len() && (#[trigger] regions[k]).base_ptr == registered[i].0
                && regions[k].len == registered[i].1.len as u64 && regions[k].rkey
                == registered[i].1.mrs[nic].rkey,
        forall|a: int, b: int|
            0 <= a < b < regions.len() ==> (#[trigger] regions[a]).base_ptr < (
            #[trigger] regions[b]).base_ptr,
{
    let e = exported(registered[i], nic);
    assert(regions.contains(e));
    let k = regions.index_of(e);
    assert(regions[k].base_ptr == registered[i].0);
}

/// A peer that is forgotten is no longer connected, and neither are its queue pairs and memory
/// kept; other peers stay connected as they are.
pub proof fn law_only_one_peer_is_forgotten(
    before: TransferEngine,
    after: TransferEngine,
    addr: Seq<char>,
    other: Seq<char>,
    k: int,
)
    requires
        before.wf(),
        peer_forgotten(before, after, addr),
        other != addr,
        0 <= k < before.nics@.len(),
    ensures
        !as_map(after.conns()).contains_key(addr),
        as_map(after.conns()).contains_key(other) == as_map(before.conns()).contains_key(other),
        as_map(before.conns()).contains_key(other) ==> as_map(after.conns())[other] == as_map(
            before.conns(),
        )[other],
        before.connected(addr) ==> {
            let first = lookup(before.conns(), addr)->0.first_qpns[k];
            &&& !after.nics@[k].session_map().contains_key(first)
            &&& !after.nics@[k].memory_map().contains_key(first)
            &&& forall|q: u32|
                q != first ==> #[trigger] after.nics@[k].session_map().contains_key(q)
                    == before.nics@[k].session_map().contains_key(q)
        },
        !before.connected(addr) ==> after.nics == before.nics,
{
    if before.connected(addr) {
        let first = lookup(before.conns(), addr)->0.first_qpns[k];
        assert(after.nics@[k].session_map() == before.nics@[k].session_map().remove(first));
    }
}

/// A connection that is established has the queue pairs of both sides on every NIC: those of the
/// peer are found by their first number, and its memory is all that it has told of.
pub proof fn law_established_peers_are_complete(
    before: TransferEngine,
    after: TransferEngine,
    addr: Seq<char>,
    local: Seq<NicHandshake>,
    remote: Seq<NicHandshake>,
    k: int,
)
    requires
        establishes(before, after, addr, local, remote, Ok(())),
        0 <= k < before.nics@.len(),
        0 < remote[k].endpoints@.len(),
    ensures
        as_map(after.conns()).contains_key(addr),
        as_map(after.conns())[addr].first_qpns[k] == remote[k].endpoints@[0].qp_num,
        as_map(after.conns())[addr].turns[k] == 0,
        as_map(after.conns())[addr].local == nic_views(local),
        !after.connecting@.contains(addr),
        after.nics@[k].session_map().contains_key(remote[k].endpoints@[0].qp_num),
        after.nics@[k].session_map()[remote[k].endpoints@[0].qp_num] == Seq::new(
            local[k].endpoints@.len(),
            |j: int| local[k].endpoints@[j].qp_num,
        ),
        is_snapshot(
            after.nics@[k].memory_map()[remote[k].endpoints@[0].qp_num],
            remote[k].memory_regions@,
        ),
        after.registered == before.registered,
{
    assert(peer_added(before.nics@[k], after.nics@[k], local[k], remote[k]));
    assert(qpns_of(local[k]) =~= Seq::new(
        local[k].endpoints@.len(),
        |j: int| local[k].endpoints@[j].qp_num,
    ));
}

/// A configuration is in order exactly if it names a NIC, none of the names is blank, and there is
/// at least one queue pair for a peer.
pub proof fn law_configurations_name_nics(nic_names: Seq<String>, qps_per_peer: usize)
    ensures
        config_fault(nic_names, qps_per_peer) is None <==> nic_names.len() > 0 && qps_per_peer > 0
            && forall|i: int|
            0 <= i < nic_names.len() ==> trimmed((#[trigger] nic_names[i])@).len() > 0,
{
    if config_fault(nic_names, qps_per_peer) is None {
        assert forall|i: int| 0 <= i < nic_names.len() implies trimmed(
            (#[trigger] nic_names[i])@,
        ).len() > 0 by {}
    }
}

/// Regions are given up until one is not registered any more: all are exactly if each of them was
/// registered and none is named twice.
pub proof fn law_regions_are_given_up_in_turn(
    registered: Map<u64, EntryView>,
    ptrs: Seq<u64>,
    n: int,
)
    requires
        0 <= n <= ptrs.len(),
    ensures
        0 <= known_regions(registered, ptrs, n) <= n,
        known_regions(registered, ptrs, n) == n <==> (forall|k: int|
            0 <= k < n ==> registered.contains_key(#[trigger] ptrs[k])) && (forall|j: int, k: int|
            0 <= j < k < n ==> #[trigger] ptrs[j] != #[trigger] ptrs[k]),
    decreases n,
{
    if n > 0 {
        law_regions_are_given_up_in_turn(registered, ptrs, n - 1);
        law_only_regions_that_are_given_up_go(registered, ptrs, n - 1, ptrs[n - 1]);
        if known_regions(registered, ptrs, n) == n {
            assert forall|j: int, k: int| 0 <= j < k < n implies #[trigger] ptrs[j]
                != #[trigger] ptrs[k] by {
                if k == n - 1 {
                    assert(ptrs[j] != ptrs[n - 1]);
                }
            }
        }
    }
}

/// Queue pairs wait, or are taken out, without touching anything else.
pub proof fn law_waiting_touches_nothing_else(a: TransferEngine, b: TransferEngine, k: int)
    requires
        same_but_waiting(a, b),
        0 <= k < a.nics@.len(),
    ensures
        a.registered == b.registered,
        a.addr_connections == b.addr_connections,
        a.numa_rr == b.numa_rr,
        a.qps_per_peer == b.qps_per_peer,
        a.nics@.len() == b.nics@.len(),
        a.nics@[k].sessions == b.nics@[k].sessions,
        a.nics@[k].remote_memory == b.nics@[k].remote_memory,
{
    assert(same_but_pending(a.nics@[k], b.nics@[k]));
}

/// Queue pairs that are taken out are taken out one after the other, each with the number that is
/// asked for, and all the others go on waiting in their order.
pub proof fn law_queue_pairs_are_taken_out_in_turn(
    pending: Seq<RcEndpoint>,
    endpoints: Seq<RcEndpoint>,
    n: int,
)
    requires
        0 < n <= endpoints.len(),
    ensures
        taken(pending, endpoints, 0) == pending,
        all_waiting(pending, endpoints, 0),
        ({
            let left = taken(pending, endpoints, n - 1);
            let number = endpoints[n - 1].qp_num;
            &&& (forall|k: int| 0 <= k < left.len() ==> (#[trigger] left[k]).qp_num != number)
                ==> taken(pending, endpoints, n) == left && !all_waiting(pending, endpoints, n)
            &&& forall|k: int|
                0 <= k < left.len() && (#[trigger] left[k]).qp_num == number && (forall|j: int|
                    0 <= j < k ==> (#[trigger] left[j]).qp_num != number) ==> taken(
                    pending,
                    endpoints,
                    n,
                ) == left.remove(k) && (all_waiting(pending, endpoints, n) <==> all_waiting(
                    pending,
                    endpoints,
                    n - 1,
                ))
        }),
{
    let left = taken(pending, endpoints, n - 1);
    let number = endpoints[n - 1].qp_num;
    law_the_first_with_a_number_counts(left, number);
    assert forall|k: int|
        0 <= k < left.len() && (#[trigger] left[k]).qp_num == number && (forall|j: int|
            0 <= j < k ==> (#[trigger] left[j]).qp_num != number) implies taken(
        pending,
        endpoints,
        n,
    ) == left.remove(k) && (all_waiting(pending, endpoints, n) <==> all_waiting(
        pending,
        endpoints,
        n - 1,
    )) by {
        assert(first_with(left, number) == Some(k)) by {
            match first_with(left, number) {
                Some(f) => {
                    if f < k {
                        assert(left[f].qp_num != number);
                    }
                    if k < f {
                        assert(left[k].qp_num != number);
                    }
                },
                None => {},
            }
        }
    }
}

} // verus!
