//! What is known of each NIC and of each peer.

use vstd::prelude::*;
use vstd::string::*;
use crate::keyed::{
    as_map, has_key, is_entry, lemma_place, lemma_push, lemma_remove, lemma_update, unique_keys,
};
use crate::transfer::handshake::{backend_error, RcEndpoint, RegisteredMemoryRegion, TransferError};

verus! {

/// A region of a peer's memory, its end, and the key for access to it.
#[derive(Clone, Copy, Debug, PartialEq, Eq, Structural)]
pub struct RemoteMemoryEntry {
    pub base_ptr: u64,
    pub end_ptr: u64,
    pub rkey: u32,
}

/// Whether the entries lie in order and apart.
pub open spec fn sorted_apart(entries: Seq<RemoteMemoryEntry>) -> bool {
    &&& forall|i: int| 0 <= i < entries.len() ==> (#[trigger] entries[i]).base_ptr
        < entries[i].end_ptr
    &&& forall|i: int, j: int|
        0 <= i < j < entries.len() ==> (#[trigger] entries[i]).end_ptr <= (
        #[trigger] entries[j]).base_ptr
}

/// The entry of a registered region.
pub open spec fn entry_of(r: RegisteredMemoryRegion) -> RemoteMemoryEntry {
    RemoteMemoryEntry {
        base_ptr: r.base_ptr,
        end_ptr: (r.base_ptr + r.len) as u64,
        rkey: r.rkey,
    }
}

/// What is wrong with a region on its own, if anything.
pub open spec fn region_fault(r: RegisteredMemoryRegion) -> Option<Seq<char>> {
    if r.len == 0 {
        Some("handshake response contains zero-length memory region"@)
    } else if r.base_ptr + r.len > u64::MAX {
        Some("handshake response contains memory region overflow"@)
    } else {
        None
    }
}

/// The first thing that is wrong with a region on its own.
pub open spec fn first_region_fault(regions: Seq<RegisteredMemoryRegion>) -> Option<Seq<char>>
    decreases regions.len(),
{
    if regions.len() == 0 {
        None
    } else if first_region_fault(regions.drop_last()) is Some {
        first_region_fault(regions.drop_last())
    } else {
        region_fault(regions.last())
    }
}

/// Whether two regions share a byte.
pub open spec fn meet(a: RegisteredMemoryRegion, b: RegisteredMemoryRegion) -> bool {
    a.base_ptr < b.base_ptr + b.len && b.base_ptr < a.base_ptr + a.len
}

/// Whether two of the regions share a byte.
pub open spec fn overlapping(regions: Seq<RegisteredMemoryRegion>) -> bool {
    exists|i: int, j: int|
        0 <= i < j < regions.len() && meet(#[trigger] regions[i], #[trigger] regions[j])
}

/// Whether `entries` are the regions in order: each region once, and nothing else.
pub open spec fn is_snapshot(
    entries: Seq<RemoteMemoryEntry>,
    regions: Seq<RegisteredMemoryRegion>,
) -> bool {
    &&& sorted_apart(entries)
    &&& entries.len() == regions.len()
    &&& forall|e: RemoteMemoryEntry| #[trigger]
        entries.contains(e) <==> exists|i: int|
            0 <= i < regions.len() && entry_of(#[trigger] regions[i]) == e
}

/// The place of the last entry that begins at or before `ptr`, counted from one;
/// zero where there is none.
pub open spec fn starting_by(entries: Seq<RemoteMemoryEntry>, ptr: u64) -> nat
    decreases entries.len(),
{
    if entries.len() == 0 {
        0
    } else if entries.last().base_ptr <= ptr {
        entries.len()
    } else {
        starting_by(entries.drop_last(), ptr)
    }
}

/// The key for access to the `len` bytes at `ptr`: that of the last region that
/// begins at or before them, where they end inside it.
pub open spec fn access_key(entries: Seq<RemoteMemoryEntry>, ptr: u64, len: nat) -> Option<u32> {
    let n = starting_by(entries, ptr);
    if ptr + len > u64::MAX || n == 0 {
        None
    } else if ptr + len <= entries[n - 1].end_ptr {
        Some(entries[n - 1].rkey)
    } else {
        None
    }
}

proof fn lemma_starting_by(entries: Seq<RemoteMemoryEntry>, ptr: u64, n: int)
    requires
        sorted_apart(entries),
        0 <= n <= entries.len(),
        n > 0 ==> entries[n - 1].base_ptr <= ptr,
        n < entries.len() ==> entries[n].base_ptr > ptr,
    ensures
        starting_by(entries, ptr) == n,
    decreases entries.len(),
{
    if n < entries.len() {
        let last = entries.len() - 1;
        if n < last {
            assert(entries[n].end_ptr <= entries[last].base_ptr);
            assert(entries[n].base_ptr < entries[n].end_ptr);
        }
        let front = entries.drop_last();
        assert(sorted_apart(front)) by {
            assert forall|i: int| 0 <= i < front.len() implies (#[trigger] front[i]).base_ptr
                < front[i].end_ptr by {
                assert(entries[i].base_ptr < entries[i].end_ptr);
            }
            assert forall|i: int, j: int| 0 <= i < j < front.len() implies (#[trigger]
            front[i]).end_ptr <= (#[trigger] front[j]).base_ptr by {
                assert(entries[i].end_ptr <= entries[j].base_ptr);
            }
        }
        lemma_starting_by(front, ptr, n);
    }
}

/// A range of at least one byte has a key exactly where a region holds it whole,
/// and then it is the key of that region.
pub proof fn law_key_is_of_the_region_around(
    entries: Seq<RemoteMemoryEntry>,
    ptr: u64,
    len: nat,
    i: int,
)
    requires
        sorted_apart(entries),
        len > 0,
        0 <= i < entries.len(),
        entries[i].base_ptr <= ptr,
        ptr + len <= entries[i].end_ptr,
    ensures
        access_key(entries, ptr, len) == Some(entries[i].rkey),
{
    if i + 1 < entries.len() {
        assert(entries[i].end_ptr <= entries[i + 1].base_ptr);
    }
    lemma_starting_by(entries, ptr, i + 1);
}

/// Where no region holds a range whole, it has no key.
pub proof fn law_no_key_outside_regions(entries: Seq<RemoteMemoryEntry>, ptr: u64, len: nat)
    requires
        sorted_apart(entries),
        forall|i: int|
            0 <= i < entries.len() ==> !((#[trigger] entries[i]).base_ptr <= ptr && ptr + len
                <= entries[i].end_ptr),
    ensures
        access_key(entries, ptr, len) is None,
{
    let n = starting_by(entries, ptr);
    lemma_starting_by_bound(entries, ptr);
    if n > 0 {
        assert(!(entries[n - 1].base_ptr <= ptr && ptr + len <= entries[n - 1].end_ptr));
    }
}

proof fn lemma_starting_by_bound(entries: Seq<RemoteMemoryEntry>, ptr: u64)
    ensures
        starting_by(entries, ptr) <= entries.len(),
        starting_by(entries, ptr) > 0 ==> entries[starting_by(entries, ptr) - 1].base_ptr <= ptr,
    decreases entries.len(),
{
    if entries.len() > 0 && entries.last().base_ptr > ptr {
        lemma_starting_by_bound(entries.drop_last(), ptr);
    }
}

/// The place of the first endpoint with a queue pair number.
pub open spec fn first_with(endpoints: Seq<RcEndpoint>, qpn: u32) -> Option<int>
    decreases endpoints.len(),
{
    if endpoints.len() == 0 {
        None
    } else if first_with(endpoints.drop_last(), qpn) is Some {
        first_with(endpoints.drop_last(), qpn)
    } else if endpoints.last().qp_num == qpn {
        Some(endpoints.len() - 1)
    } else {
        None
    }
}

/// `endpoints` without the first one with a queue pair number.
pub open spec fn without(endpoints: Seq<RcEndpoint>, qpn: u32) -> Seq<RcEndpoint> {
    match first_with(endpoints, qpn) {
        Some(i) => endpoints.remove(i),
        None => endpoints,
    }
}

proof fn lemma_first_with(endpoints: Seq<RcEndpoint>, qpn: u32, n: int)
    requires
        0 <= n <= endpoints.len(),
        forall|k: int| 0 <= k < n ==> (#[trigger] endpoints[k]).qp_num != qpn,
        n < endpoints.len() ==> endpoints[n].qp_num == qpn,
    ensures
        first_with(endpoints, qpn) == if n < endpoints.len() {
            Some(n)
        } else {
            None
        },
    decreases endpoints.len(),
{
    if endpoints.len() > 0 {
        let front = endpoints.drop_last();
        if n < front.len() {
            assert forall|k: int| 0 <= k < n implies (#[trigger] front[k]).qp_num != qpn by {
                assert(endpoints[k].qp_num != qpn);
            }
            lemma_first_with(front, qpn, n);
        } else {
            assert forall|k: int| 0 <= k < front.len() implies (#[trigger] front[k]).qp_num
                != qpn by {
                assert(endpoints[k].qp_num != qpn);
            }
            lemma_first_with(front, qpn, front.len() as int);
            if n == endpoints.len() {
                assert(endpoints[n - 1].qp_num != qpn);
            }
        }
    }
}

/// What is known of one NIC: the queue pairs that wait for their peers, those
/// that are connected, and the memory of the peers. A peer is known by the number
/// of its first queue pair.
#[derive(Debug)]
pub struct PerNicState {
    pub pending: Vec<RcEndpoint>,
    pub sessions: Vec<(u32, Vec<u32>)>,
    pub remote_memory: Vec<(u32, Vec<RemoteMemoryEntry>)>,
}

/// The queue pairs of each peer.
pub open spec fn session_views(s: Seq<(u32, Vec<u32>)>) -> Seq<(u32, Seq<u32>)> {
    s.map_values(|e: (u32, Vec<u32>)| (e.0, e.1@))
}

/// The memory of each peer.
pub open spec fn memory_views(s: Seq<(u32, Vec<RemoteMemoryEntry>)>) -> Seq<
    (u32, Seq<RemoteMemoryEntry>),
> {
    s.map_values(|e: (u32, Vec<RemoteMemoryEntry>)| (e.0, e.1@))
}

impl PerNicState {
    /// The queue pairs of each peer.
    pub open spec fn session_map(self) -> Map<u32, Seq<u32>> {
        as_map(session_views(self.sessions@))
    }

    /// The memory of each peer.
    pub open spec fn memory_map(self) -> Map<u32, Seq<RemoteMemoryEntry>> {
        as_map(memory_views(self.remote_memory@))
    }

    /// No peer occurs twice, and the memory of each lies in order and apart.
    pub open spec fn wf(self) -> bool {
        &&& unique_keys(session_views(self.sessions@))
        &&& unique_keys(memory_views(self.remote_memory@))
        &&& forall|i: int|
            0 <= i < self.remote_memory@.len() ==> sorted_apart(
                (#[trigger] self.remote_memory@[i]).1@,
            )
    }

    /// A NIC without queue pairs.
    pub fn new() -> (r: Self)
        ensures
            r.wf(),
            r.pending@.len() == 0,
            r.sessions@.len() == 0,
            r.remote_memory@.len() == 0,
            r.session_map() == Map::<u32, Seq<u32>>::empty(),
            r.memory_map() == Map::<u32, Seq<RemoteMemoryEntry>>::empty(),
    {
        let r: PerNicState = PerNicState {
            pending: Vec::new(),
            sessions: Vec::new(),
            remote_memory: Vec::new(),
        };
        proof {
            assert(r.session_map() =~= Map::<u32, Seq<u32>>::empty());
            assert(r.memory_map() =~= Map::<u32, Seq<RemoteMemoryEntry>>::empty());
        }
        r
    }

    fn find_memory(&self, qpn: u32) -> (r: Option<usize>)
        requires
            self.wf(),
        ensures
            match r {
                Some(i) => i < self.remote_memory@.len() && self.remote_memory@[i as int].0 == qpn
                    && self.memory_map().contains_key(qpn) && self.memory_map()[qpn]
                    == self.remote_memory@[i as int].1@,
                None => !self.memory_map().contains_key(qpn) && !has_key(
                    memory_views(self.remote_memory@),
                    qpn,
                ),
            },
    {
        let ghost views = memory_views(self.remote_memory@);
        let mut i: usize = 0;
        while i < self.remote_memory.len()
            invariant
                self.wf(),
                views == memory_views(self.remote_memory@),
                i <= self.remote_memory@.len(),
                forall|k: int| 0 <= k < i ==> !#[trigger] is_entry(views, qpn, k),
            decreases self.remote_memory@.len() - i,
        {
            assert(views[i as int] == (
                self.remote_memory@[i as int].0,
                self.remote_memory@[i as int].1@,
            ));
            if self.remote_memory[i].0 == qpn {
                proof {
                    lemma_place(views, qpn, i as int);
                }
                return Some(i);
            }
            i += 1;
        }
        None
    }

    fn find_sessions(&self, qpn: u32) -> (r: Option<usize>)
        requires
            self.wf(),
        ensures
            match r {
                Some(i) => i < self.sessions@.len() && self.sessions@[i as int].0 == qpn
                    && self.session_map().contains_key(qpn) && self.session_map()[qpn]
                    == self.sessions@[i as int].1@,
                None => !self.session_map().contains_key(qpn) && !has_key(
                    session_views(self.sessions@),
                    qpn,
                ),
            },
    {
        let ghost views = session_views(self.sessions@);
        let mut i: usize = 0;
        while i < self.sessions.len()
            invariant
                self.wf(),
                views == session_views(self.sessions@),
                i <= self.sessions@.len(),
                forall|k: int| 0 <= k < i ==> !#[trigger] is_entry(views, qpn, k),
            decreases self.sessions@.len() - i,
        {
            assert(views[i as int] == (self.sessions@[i as int].0, self.sessions@[i as int].1@));
            if self.sessions[i].0 == qpn {
                proof {
                    lemma_place(views, qpn, i as int);
                }
                return Some(i);
            }
            i += 1;
        }
        None
    }

    /// The queue pairs that are connected to a peer.
    pub fn sessions_of(&self, remote_first_qpn: u32) -> (r: Option<&Vec<u32>>)
        requires
            self.wf(),
        ensures
            match r {
                Some(v) => self.session_map().contains_key(remote_first_qpn)
                    && self.session_map()[remote_first_qpn] == v@,
                None => !self.session_map().contains_key(remote_first_qpn),
            },
    {
        match self.find_sessions(remote_first_qpn) {
            Some(i) => Some(&self.sessions[i].1),
            None => None,
        }
    }

    /// The key for access to `len` bytes of a peer's memory.
    pub fn find_remote_rkey(&self, remote_first_qpn: u32, remote_ptr: u64, len: usize) -> (r:
        Option<u32>)
        requires
            self.wf(),
        ensures
            r == (if self.memory_map().contains_key(remote_first_qpn) {
                access_key(self.memory_map()[remote_first_qpn], remote_ptr, len as nat)
            } else {
                None
            }),
    {
        let k: usize = match self.find_memory(remote_first_qpn) {
            Some(k) => k,
            None => {
                return None;
            },
        };
        let end: u64 = match remote_ptr.checked_add(len as u64) {
            Some(end) => end,
            None => {
                return None;
            },
        };
        let entries: &Vec<RemoteMemoryEntry> = &self.remote_memory[k].1;
        assert(sorted_apart(entries@));
        let mut low: usize = 0;
        let mut high: usize = entries.len();
        while low < high
            invariant
                0 <= low <= high <= entries@.len(),
                sorted_apart(entries@),
                forall|i: int| 0 <= i < low ==> (#[trigger] entries@[i]).base_ptr <= remote_ptr,
                forall|i: int|
                    high <= i < entries@.len() ==> (#[trigger] entries@[i]).base_ptr > remote_ptr,
            decreases high - low,
        {
            let mid: usize = low + (high - low) / 2;
            if entries[mid].base_ptr <= remote_ptr {
                assert forall|i: int| 0 <= i < mid + 1 implies (#[trigger] entries@[i]).base_ptr
                    <= remote_ptr by {
                    if i < mid {
                        assert(entries@[i].end_ptr <= entries@[mid as int].base_ptr);
                        assert(entries@[i].base_ptr < entries@[i].end_ptr);
                    }
                }
                low = mid + 1;
            } else {
                assert forall|i: int| mid <= i < entries@.len() implies (#[trigger]
                entries@[i]).base_ptr > remote_ptr by {
                    if i > mid {
                        assert(entries@[mid as int].end_ptr <= entries@[i].base_ptr);
                        assert(entries@[mid as int].base_ptr < entries@[mid as int].end_ptr);
                    }
                }
                high = mid;
            }
        }
        proof {
            lemma_starting_by(entries@, remote_ptr, low as int);
        }
        if low == 0 {
            return None;
        }
        let entry: RemoteMemoryEntry = entries[low - 1];
        if end <= entry.end_ptr {
            Some(entry.rkey)
        } else {
            None
        }
    }

    /// Takes a waiting queue pair out by its number.
    pub fn remove_pending_by_qpn(&mut self, qpn: u32) -> (r: Option<RcEndpoint>)
        ensures
            final(self).sessions == old(self).sessions,
            final(self).remote_memory == old(self).remote_memory,
            final(self).pending@ == without(old(self).pending@, qpn),
            match r {
                Some(e) => e.qp_num == qpn && first_with(old(self).pending@, qpn) is Some && e
                    == old(self).pending@[first_with(old(self).pending@, qpn)->0],
                None => first_with(old(self).pending@, qpn) is None,
            },
    {
        let mut i: usize = 0;
        while i < self.pending.len()
            invariant
                i <= self.pending@.len(),
                *self == *old(self),
                forall|k: int| 0 <= k < i ==> (#[trigger] self.pending@[k]).qp_num != qpn,
            decreases self.pending@.len() - i,
        {
            if self.pending[i].qp_num == qpn {
                proof {
                    lemma_first_with(self.pending@, qpn, i as int);
                }
                return Some(self.pending.remove(i));
            }
            i += 1;
        }
        proof {
            lemma_first_with(self.pending@, qpn, i as int);
        }
        None
    }

    /// Forgets the queue pairs and the memory of a peer.
    pub fn cleanup_connection(&mut self, remote_first_qpn: u32)
        requires
            old(self).wf(),
        ensures
            final(self).wf(),
            final(self).pending == old(self).pending,
            final(self).session_map() == old(self).session_map().remove(remote_first_qpn),
            final(self).memory_map() == old(self).memory_map().remove(remote_first_qpn),
    {
        match self.find_sessions(remote_first_qpn) {
            Some(i) => {
                let ghost before = session_views(self.sessions@);
                proof {
                    lemma_remove(before, i as int);
                }
                self.sessions.remove(i);
                assert(session_views(self.sessions@) =~= before.remove(i as int));
            },
            None => {
                assert(self.session_map().remove(remote_first_qpn) =~= self.session_map());
            },
        }
        match self.find_memory(remote_first_qpn) {
            Some(i) => {
                let ghost before = memory_views(self.remote_memory@);
                let ghost raw = self.remote_memory@;
                proof {
                    lemma_remove(before, i as int);
                }
                self.remote_memory.remove(i);
                proof {
                    assert(memory_views(self.remote_memory@) =~= before.remove(i as int));
                    assert forall|k: int| 0 <= k < self.remote_memory@.len() implies sorted_apart(
                        (#[trigger] self.remote_memory@[k]).1@,
                    ) by {
                        let q = if k < i {
                            k
                        } else {
                            k + 1
                        };
                        assert(self.remote_memory@[k] == raw[q]);
                    }
                }
            },
            None => {
                assert(self.memory_map().remove(remote_first_qpn) =~= self.memory_map());
            },
        }
    }

    /// Notes the queue pairs that are connected to a peer.
    pub fn insert_sessions(&mut self, remote_first_qpn: u32, sessions: Vec<u32>)
        requires
            old(self).wf(),
        ensures
            final(self).wf(),
            final(self).pending == old(self).pending,
            final(self).remote_memory == old(self).remote_memory,
            final(self).session_map() == old(self).session_map().insert(
                remote_first_qpn,
                sessions@,
            ),
    {
        let ghost before = session_views(self.sessions@);
        let ghost value = sessions@;
        match self.find_sessions(remote_first_qpn) {
            Some(i) => {
                proof {
                    lemma_update(before, i as int, value);
                }
                self.sessions[i] = (remote_first_qpn, sessions);
                assert(session_views(self.sessions@) =~= before.update(
                    i as int,
                    (remote_first_qpn, value),
                ));
            },
            None => {
                proof {
                    lemma_push(before, remote_first_qpn, value);
                }
                self.sessions.push((remote_first_qpn, sessions));
                assert(session_views(self.sessions@) =~= before.push((remote_first_qpn, value)));
            },
        }
    }

    /// Checks the memory that a peer has sent and notes it in order. Empty regions,
    /// regions beyond the address space and regions that overlap are refused, and
    /// then nothing changes.
    pub fn cache_remote_memory(
        &mut self,
        remote_first_qpn: u32,
        remote_memory_regions: &[RegisteredMemoryRegion],
    ) -> (r: Result<(), TransferError>)
        requires
            old(self).wf(),
        ensures
            final(self).wf(),
            final(self).pending == old(self).pending,
            final(self).sessions == old(self).sessions,
            match r {
                Ok(_) => {
                    &&& first_region_fault(remote_memory_regions@) is None
                    &&& !overlapping(remote_memory_regions@)
                    &&& exists|entries: Seq<RemoteMemoryEntry>|
                        is_snapshot(entries, remote_memory_regions@) && final(self).memory_map()
                            == #[trigger] old(self).memory_map().insert(
                            remote_first_qpn,
                            entries,
                        )
                },
                Err(e) => {
                    &&& *final(self) == *old(self)
                    &&& match first_region_fault(remote_memory_regions@) {
                        Some(m) => backend_error(e, m),
                        None => overlapping(remote_memory_regions@) && backend_error(
                            e,
                            "handshake response contains overlapping memory regions"@,
                        ),
                    }
                },
            },
    {
        let entries: Vec<RemoteMemoryEntry> = match snapshot_regions(remote_memory_regions) {
            Ok(entries) => entries,
            Err(e) => {
                return Err(e);
            },
        };
        let ghost before = memory_views(self.remote_memory@);
        let ghost raw = self.remote_memory@;
        let ghost value = entries@;
        match self.find_memory(remote_first_qpn) {
            Some(i) => {
                proof {
                    lemma_update(before, i as int, value);
                }
                self.remote_memory[i] = (remote_first_qpn, entries);
                proof {
                    assert(memory_views(self.remote_memory@) =~= before.update(
                        i as int,
                        (remote_first_qpn, value),
                    ));
                    assert forall|k: int| 0 <= k < self.remote_memory@.len() implies sorted_apart(
                        (#[trigger] self.remote_memory@[k]).1@,
                    ) by {
                        if k != i {
                            assert(self.remote_memory@[k] == raw[k]);
                        }
                    }
                }
            },
            None => {
                proof {
                    lemma_push(before, remote_first_qpn, value);
                }
                self.remote_memory.push((remote_first_qpn, entries));
                proof {
                    assert(memory_views(self.remote_memory@) =~= before.push(
                        (remote_first_qpn, value),
                    ));
                    assert forall|k: int| 0 <= k < self.remote_memory@.len() implies sorted_apart(
                        (#[trigger] self.remote_memory@[k]).1@,
                    ) by {
                        if k < raw.len() {
                            assert(self.remote_memory@[k] == raw[k]);
                        }
                    }
                }
            },
        }
        assert(self.memory_map() == old(self).memory_map().insert(remote_first_qpn, value));
        Ok(())
    }
}

/// Whether `entries` hold the first `n` regions, and nothing else.
spec fn holds_regions(
    entries: Seq<RemoteMemoryEntry>,
    regions: Seq<RegisteredMemoryRegion>,
    n: int,
) -> bool {
    &&& entries.len() == n
    &&& forall|e: RemoteMemoryEntry| #[trigger]
        entries.contains(e) <==> exists|i: int|
            0 <= i < n && entry_of(#[trigger] regions[i]) == e
}

proof fn lemma_fault_stays(regions: Seq<RegisteredMemoryRegion>, n: int)
    requires
        0 <= n <= regions.len(),
    ensures
        first_region_fault(regions.take(n)) is Some ==> first_region_fault(regions)
            == first_region_fault(regions.take(n)),
    decreases regions.len() - n,
{
    if n < regions.len() {
        lemma_fault_stays(regions, n + 1);
        assert(regions.take(n + 1).drop_last() =~= regions.take(n));
    } else {
        assert(regions.take(n) =~= regions);
    }
}

/// The regions that a peer has sent, in order.
fn snapshot_regions(regions: &[RegisteredMemoryRegion]) -> (r: Result<
    Vec<RemoteMemoryEntry>,
    TransferError,
>)
    ensures
        match r {
            Ok(entries) => {
                &&& first_region_fault(regions@) is None
                &&& !overlapping(regions@)
                &&& is_snapshot(entries@, regions@)
            },
            Err(e) => match first_region_fault(regions@) {
                Some(m) => backend_error(e, m),
                None => overlapping(regions@) && backend_error(
                    e,
                    "handshake response contains overlapping memory regions"@,
                ),
            },
        },
{
    let mut i: usize = 0;
    assert(regions@.take(0) =~= Seq::<RegisteredMemoryRegion>::empty());
    while i < regions.len()
        invariant
            i <= regions@.len(),
            first_region_fault(regions@.take(i as int)) is None,
            forall|k: int| 0 <= k < i ==> region_fault(#[trigger] regions@[k]) is None,
        decreases regions@.len() - i,
    {
        proof {
            assert(regions@.take(i + 1).drop_last() =~= regions@.take(i as int));
            assert(regions@.take(i + 1).last() == regions@[i as int]);
            lemma_fault_stays(regions@, i + 1);
        }
        if regions[i].len == 0 {
            return Err(
                TransferError::Backend(
                    String::from_str("handshake response contains zero-length memory region"),
                ),
            );
        }
        if regions[i].base_ptr.checked_add(regions[i].len).is_none() {
            return Err(
                TransferError::Backend(
                    String::from_str("handshake response contains memory region overflow"),
                ),
            );
        }
        i += 1;
    }
    assert(regions@.take(i as int) =~= regions@);
    let mut entries: Vec<RemoteMemoryEntry> = Vec::new();
    let mut n: usize = 0;
    while n < regions.len()
        invariant
            n <= regions@.len(),
            first_region_fault(regions@) is None,
            forall|k: int| 0 <= k < regions@.len() ==> region_fault(#[trigger] regions@[k]) is None,
            sorted_apart(entries@),
            holds_regions(entries@, regions@, n as int),
            forall|a: int, b: int|
                0 <= a < b < n ==> !meet(#[trigger] regions@[a], #[trigger] regions@[b]),
        decreases regions@.len() - n,
    {
        let region: RegisteredMemoryRegion = regions[n];
        assert(region_fault(regions@[n as int]) is None);
        let entry: RemoteMemoryEntry = RemoteMemoryEntry {
            base_ptr: region.base_ptr,
            end_ptr: region.base_ptr + region.len,
            rkey: region.rkey,
        };
        let mut p: usize = entries.len();
        while p > 0 && entries[p - 1].base_ptr > entry.base_ptr
            invariant
                p <= entries@.len(),
                forall|k: int|
                    p <= k < entries@.len() ==> (#[trigger] entries@[k]).base_ptr
                        > entry.base_ptr,
            decreases p,
        {
            p -= 1;
        }
        let meets_before: bool = p > 0 && entries[p - 1].end_ptr > entry.base_ptr;
        let meets_after: bool = p < entries.len() && entries[p].base_ptr < entry.end_ptr;
        if meets_before || meets_after {
            proof {
                let q = if meets_before {
                    p - 1
                } else {
                    p as int
                };
                let other = entries@[q];
                assert(entries@.contains(other));
                let a = choose|a: int| 0 <= a < n && entry_of(#[trigger] regions@[a]) == other;
                assert(region_fault(regions@[a]) is None);
                assert(entries@[q].base_ptr < entries@[q].end_ptr);
                assert(meet(regions@[a], regions@[n as int]));
                assert(overlapping(regions@));
            }
            return Err(
                TransferError::Backend(
                    String::from_str("handshake response contains overlapping memory regions"),
                ),
            );
        }
        let ghost before = entries@;
        entries.insert(p, entry);
        proof {
            lemma_insert_apart(before, p as int, entry);
            assert(entries@ == before.insert(p as int, entry));
            assert(entry == entry_of(region));
            assert forall|e: RemoteMemoryEntry| #[trigger] entries@.contains(e) <==> exists|a: int|
                0 <= a < n + 1 && entry_of(#[trigger] regions@[a]) == e by {
                lemma_insert_contains(before, p as int, entry, e);
                if before.contains(e) {
                    let a = choose|a: int| 0 <= a < n && entry_of(#[trigger] regions@[a]) == e;
                    assert(entry_of(regions@[a]) == e);
                }
                if e == entry {
                    assert(entry_of(regions@[n as int]) == e);
                }
                if exists|a: int| 0 <= a < n + 1 && entry_of(#[trigger] regions@[a]) == e {
                    let a = choose|a: int| 0 <= a < n + 1 && entry_of(#[trigger] regions@[a]) == e;
                    if a < n {
                        assert(before.contains(e));
                    }
                }
            }
            assert forall|a: int, b: int| 0 <= a < b < n + 1 implies !meet(
                #[trigger] regions@[a],
                #[trigger] regions@[b],
            ) by {
                if b == n {
                    let other = entry_of(regions@[a]);
                    assert(before.contains(other));
                    let q = before.index_of(other);
                    assert(region_fault(regions@[a]) is None);
                    if q < p {
                        if q < p - 1 {
                            assert(before[q].end_ptr <= before[p - 1].base_ptr);
                        }
                    } else {
                        if q > p {
                            assert(before[p as int].end_ptr <= before[q].base_ptr);
                            assert(before[p as int].base_ptr < before[p as int].end_ptr);
                        }
                    }
                }
            }
        }
        n += 1;
    }
    proof {
        assert(!overlapping(regions@));
    }
    Ok(entries)
}

proof fn lemma_insert_contains(
    before: Seq<RemoteMemoryEntry>,
    p: int,
    entry: RemoteMemoryEntry,
    e: RemoteMemoryEntry,
)
    requires
        0 <= p <= before.len(),
    ensures
        before.insert(p, entry).contains(e) <==> before.contains(e) || e == entry,
{
    let after = before.insert(p, entry);
    if before.contains(e) {
        let q = before.index_of(e);
        if q < p {
            assert(after[q] == e);
        } else {
            assert(after[q + 1] == e);
        }
    }
    if e == entry {
        assert(after[p] == e);
    }
    if after.contains(e) {
        let q = after.index_of(e);
        if q < p {
            assert(before[q] == e);
        } else if q > p {
            assert(before[q - 1] == e);
        }
    }
}

proof fn lemma_insert_apart(before: Seq<RemoteMemoryEntry>, p: int, entry: RemoteMemoryEntry)
    requires
        sorted_apart(before),
        0 <= p <= before.len(),
        entry.base_ptr < entry.end_ptr,
        p > 0 ==> before[p - 1].end_ptr <= entry.base_ptr,
        p < before.len() ==> entry.end_ptr <= before[p].base_ptr,
    ensures
        sorted_apart(before.insert(p, entry)),
{
    let after = before.insert(p, entry);
    assert forall|i: int| 0 <= i < after.len() implies (#[trigger] after[i]).base_ptr
        < after[i].end_ptr by {
        if i < p {
            assert(after[i] == before[i]);
        } else if i > p {
            assert(after[i] == before[i - 1]);
        }
    }
    assert forall|i: int, j: int| 0 <= i < j < after.len() implies (#[trigger] after[i]).end_ptr
        <= (#[trigger] after[j]).base_ptr by {
        let x = if i < p {
            i
        } else {
            i - 1
        };
        let y = if j < p {
            j
        } else {
            j - 1
        };
        if i == p {
            assert(after[j] == before[y]);
            if p < y {
                assert(before[p].end_ptr <= before[y].base_ptr);
                assert(before[p].base_ptr < before[p].end_ptr);
            }
        } else if j == p {
            assert(after[i] == before[x]);
            if x < p - 1 {
                assert(before[x].end_ptr <= before[p - 1].base_ptr);
                assert(before[p - 1].base_ptr < before[p - 1].end_ptr);
            }
        } else {
            assert(after[i] == before[x] && after[j] == before[y]);
        }
    }
}

/// Regions are in order exactly if each of them is: none is empty, and none reaches past the end
/// of the addresses.
pub proof fn law_regions_are_sound_where_each_is(regions: Seq<RegisteredMemoryRegion>)
    ensures
        first_region_fault(regions) is None <==> forall|i: int|
            0 <= i < regions.len() ==> (#[trigger] regions[i]).len > 0 && regions[i].base_ptr
                + regions[i].len <= u64::MAX,
    decreases regions.len(),
{
    if regions.len() > 0 {
        let front = regions.drop_last();
        law_regions_are_sound_where_each_is(front);
        assert(regions[regions.len() - 1] == regions.last());
        assert forall|i: int| 0 <= i < front.len() implies front[i] == #[trigger] regions[i] by {}
    }
}

/// The first queue pair with a number is the one that is found, and it alone is taken out.
pub proof fn law_the_first_with_a_number_counts(endpoints: Seq<RcEndpoint>, qpn: u32)
    ensures
        match first_with(endpoints, qpn) {
            Some(i) => {
                &&& 0 <= i < endpoints.len()
                &&& endpoints[i].qp_num == qpn
                &&& forall|k: int| 0 <= k < i ==> (#[trigger] endpoints[k]).qp_num != qpn
                &&& without(endpoints, qpn) == endpoints.remove(i)
            },
            None => {
                &&& forall|k: int| 0 <= k < endpoints.len() ==> (#[trigger] endpoints[k]).qp_num
                    != qpn
                &&& without(endpoints, qpn) == endpoints
            },
        },
    decreases endpoints.len(),
{
    if endpoints.len() > 0 {
        let front = endpoints.drop_last();
        law_the_first_with_a_number_counts(front, qpn);
        assert forall|k: int| 0 <= k < front.len() implies front[k] == #[trigger] endpoints[k] by {}
    }
}

/// Queue pairs and remote memory are shown whole.
pub proof fn law_peers_are_shown_whole(
    sessions: Seq<(u32, Vec<u32>)>,
    memory: Seq<(u32, Vec<RemoteMemoryEntry>)>,
    i: int,
)
    ensures
        session_views(sessions).len() == sessions.len(),
        0 <= i < sessions.len() ==> session_views(sessions)[i] == (sessions[i].0, sessions[i].1@),
        memory_views(memory).len() == memory.len(),
        0 <= i < memory.len() ==> memory_views(memory)[i] == (memory[i].0, memory[i].1@),
{
}

/// What is kept of a peer's memory are all its regions, each from its start to its end and with
/// its key, in order and apart.
pub proof fn law_snapshots_hold_every_region(
    entries: Seq<RemoteMemoryEntry>,
    regions: Seq<RegisteredMemoryRegion>,
    i: int,
    j: int,
)
    requires
        is_snapshot(entries, regions),
        0 <= i < regions.len(),
        regions[i].base_ptr + regions[i].len <= u64::MAX,
        0 <= j < entries.len(),
    ensures
        entries.len() == regions.len(),
        exists|k: int|
            0 <= k < entries.len() && (#[trigger] entries[k]).base_ptr == regions[i].base_ptr
                && entries[k].end_ptr == regions[i].base_ptr + regions[i].len && entries[k].rkey
                == regions[i].rkey,
        exists|k: int|
            0 <= k < regions.len() && (#[trigger] regions[k]).base_ptr == entries[j].base_ptr
                && regions[k].rkey == entries[j].rkey,
        j > 0 ==> entries[j - 1].end_ptr <= entries[j].base_ptr,
{
    let e = entry_of(regions[i]);
    assert(entries.contains(e));
    let k = entries.index_of(e);
    assert(entries[k].base_ptr == regions[i].base_ptr);
    assert(entries.contains(entries[j]));
    let m = choose|m: int| 0 <= m < regions.len() && entry_of(#[trigger] regions[m]) == entries[j];
    assert(regions[m].base_ptr == entries[j].base_ptr);
}

} // verus!
