//! Which devices a process may use, and which one serves a NUMA node.

use vstd::prelude::*;
use vstd::string::*;
use crate::numa::NumaNode;
use crate::order::{ascending, ids_of, insert_id, lemma_sorted, sorted};
use crate::text::{join3, signed_decimal, signed_text};

verus! {

/// Whether no device occurs twice.
pub open spec fn distinct(devices: Seq<i32>) -> bool {
    forall|i: int, j: int| 0 <= i < j < devices.len() ==> devices[i] != devices[j]
}

/// Whether there are devices, none of them negative.
pub open spec fn non_negative(devices: Seq<i32>) -> bool {
    devices.len() > 0 && forall|i: int| 0 <= i < devices.len() ==> #[trigger] devices[i] >= 0
}

fn contains_id(list: &[i32], id: i32) -> (r: bool)
    ensures
        r == list@.contains(id),
{
    let mut i: usize = 0;
    while i < list.len()
        invariant
            i <= list@.len(),
            forall|k: int| 0 <= k < i ==> list@[k] != id,
        decreases list@.len() - i,
    {
        if list[i] == id {
            assert(list@[i as int] == id);
            return true;
        }
        i += 1;
    }
    false
}

/// `devices` in ascending order. No device, a negative one, or one that occurs
/// twice is refused.
pub fn normalized_scope(devices: &[i32]) -> (r: Result<Vec<i32>, String>)
    ensures
        match r {
            Ok(scope) => {
                &&& non_negative(devices@)
                &&& distinct(devices@)
                &&& ids_of(scope@) == sorted(ids_of(devices@))
                &&& scope@.len() == devices@.len()
                &&& forall|d: i32| #[trigger] scope@.contains(d) <==> devices@.contains(d)
                &&& forall|i: int, j: int| 0 <= i <= j < scope@.len() ==> scope@[i] <= scope@[j]
            },
            Err(m) => if !non_negative(devices@) {
                m@ == "device scope must contain non-negative device IDs"@
            } else {
                !distinct(devices@) && m@ == "device scope must not contain duplicate IDs"@
            },
        },
{
    let mut i: usize = 0;
    if devices.len() == 0 {
        return Err(String::from_str("device scope must contain non-negative device IDs"));
    }
    while i < devices.len()
        invariant
            i <= devices@.len(),
            forall|k: int| 0 <= k < i ==> #[trigger] devices@[k] >= 0,
        decreases devices@.len() - i,
    {
        if devices[i] < 0 {
            assert(devices@[i as int] < 0);
            return Err(String::from_str("device scope must contain non-negative device IDs"));
        }
        i += 1;
    }
    let mut scope: Vec<i32> = Vec::new();
    let mut n: usize = 0;
    proof {
        assert(ids_of(devices@).take(0) =~= Seq::<int>::empty());
        assert(ids_of(scope@) =~= Seq::<int>::empty());
    }
    while n < devices.len()
        invariant
            n <= devices@.len(),
            non_negative(devices@),
            ids_of(scope@) == sorted(ids_of(devices@).take(n as int)),
            forall|i: int, j: int| 0 <= i < j < n ==> devices@[i] != devices@[j],
        decreases devices@.len() - n,
    {
        let ghost ids = ids_of(devices@);
        proof {
            assert(ids.take(n + 1).drop_last() =~= ids.take(n as int));
            assert(ids.take(n + 1).last() == devices@[n as int]);
            lemma_sorted(ids.take(n as int));
        }
        if contains_id(&scope, devices[n]) {
            proof {
                let k = scope@.index_of(devices@[n as int]);
                assert(ids_of(scope@)[k] == devices@[n as int]);
                assert(ids_of(scope@).contains(devices@[n as int] as int));
                assert(ids.take(n as int).contains(devices@[n as int] as int));
                let q = ids.take(n as int).index_of(devices@[n as int] as int);
                assert(devices@[q] == devices@[n as int]);
            }
            return Err(String::from_str("device scope must not contain duplicate IDs"));
        }
        assert forall|i: int, j: int| 0 <= i < j < n + 1 implies devices@[i] != devices@[j] by {
            if j == n && devices@[i] == devices@[j] {
                assert(ids.take(n as int)[i] == devices@[n as int] as int);
                assert(ids.take(n as int).contains(devices@[n as int] as int));
                assert(ids_of(scope@).contains(devices@[n as int] as int));
                let k = ids_of(scope@).index_of(devices@[n as int] as int);
                assert(scope@[k] == devices@[n as int]);
            }
        }
        insert_id(&mut scope, devices[n]);
        n += 1;
    }
    proof {
        let ids = ids_of(devices@);
        assert(ids.take(n as int) =~= ids);
        lemma_sorted(ids);
        assert(ids_of(scope@).len() == scope@.len());
        assert forall|d: i32| #[trigger] scope@.contains(d) <==> devices@.contains(d) by {
            if scope@.contains(d) {
                let k = scope@.index_of(d);
                assert(ids_of(scope@)[k] == d as int);
                assert(sorted(ids).contains(d as int));
                let q = ids.index_of(d as int);
                assert(devices@[q] == d);
            }
            if devices@.contains(d) {
                let q = devices@.index_of(d);
                assert(ids[q] == d as int);
                assert(ids.contains(d as int));
                assert(sorted(ids).contains(d as int));
                let k = ids_of(scope@).index_of(d as int);
                assert(scope@[k] == d);
            }
        }
        assert forall|i: int, j: int| 0 <= i <= j < scope@.len() implies scope@[i]
            <= scope@[j] by {
            assert(ids_of(scope@)[i] <= ids_of(scope@)[j]);
        }
    }
    Ok(scope)
}

/// What a process knows of its devices: the ones that it may use, and the NUMA
/// node of each. Both are set once.
#[derive(Debug)]
pub struct DeviceTopology {
    scope: Option<Vec<i32>>,
    numa_map: Option<Vec<(i32, NumaNode)>>,
}

impl DeviceTopology {
    /// The devices that may be used, if they were configured.
    pub closed spec fn scope(self) -> Option<Seq<i32>> {
        match self.scope {
            Some(s) => Some(s@),
            None => None,
        }
    }

    /// Whether the process may use a device.
    pub open spec fn allows(self, device: i32) -> bool {
        device >= 0 && match self.scope() {
            Some(s) => s.contains(device),
            None => true,
        }
    }

    /// The NUMA node of each device, if it was stored.
    pub closed spec fn numa_map(self) -> Option<Seq<(i32, NumaNode)>> {
        match self.numa_map {
            Some(m) => Some(m@),
            None => None,
        }
    }

    /// A configured scope is not empty, holds no negative device, and is in
    /// ascending order.
    pub open spec fn wf(self) -> bool {
        self.scope() matches Some(s) ==> non_negative(s) && distinct(s) && ascending(ids_of(s))
    }

    /// Nothing is known yet.
    pub fn new() -> (r: Self)
        ensures
            r.wf(),
            r.scope() is None,
            r.numa_map() is None,
    {
        DeviceTopology { scope: None, numa_map: None }
    }

    /// Stores the NUMA node of each device, unless that was done before.
    pub fn init_device_numa_map(&mut self, map: Vec<(i32, NumaNode)>)
        ensures
            final(self).scope() == old(self).scope(),
            final(self).numa_map() == (if old(self).numa_map() is Some {
                old(self).numa_map()
            } else {
                Some(map@)
            }),
    {
        if self.numa_map.is_none() {
            self.numa_map = Some(map);
        }
    }

    /// The device that serves a NUMA node.
    pub fn resolve_device_for_numa(&self, node: NumaNode) -> (r: i32)
        requires
            self.wf(),
        ensures
            is_selected(
                match self.numa_map() {
                    Some(m) => m,
                    None => Seq::empty(),
                },
                self.scope(),
                node,
                r,
            ),
    {
        match (&self.numa_map, &self.scope) {
            (Some(map), Some(scope)) => select_device(Some(map), Some(scope), node),
            (Some(map), None) => select_device(Some(map), None, node),
            (None, Some(scope)) => select_device(None, Some(scope), node),
            (None, None) => select_device(None, None, node),
        }
    }
}

/// Whether two scopes are the same.
fn same_scope(a: &Vec<i32>, b: &Vec<i32>) -> (r: bool)
    ensures
        r == (a@ == b@),
{
    if a.len() != b.len() {
        return false;
    }
    let mut i: usize = 0;
    while i < a.len()
        invariant
            i <= a@.len(),
            a@.len() == b@.len(),
            forall|k: int| 0 <= k < i ==> a@[k] == b@[k],
        decreases a@.len() - i,
    {
        if a[i] != b[i] {
            return false;
        }
        i += 1;
    }
    assert(a@ =~= b@);
    true
}

/// Restricts the devices that a process may use. The restriction cannot be
/// changed: the same devices may be configured again, in any order, and others
/// are refused.
pub fn configure_device_scope(topology: &mut DeviceTopology, devices: &[i32]) -> (r: Result<
    (),
    String,
>)
    requires
        old(topology).wf(),
    ensures
        final(topology).wf(),
        final(topology).numa_map() == old(topology).numa_map(),
        !non_negative(devices@) ==> (r matches Err(m) && m@
            == "device scope must contain non-negative device IDs"@),
        non_negative(devices@) && !distinct(devices@) ==> (r matches Err(m) && m@
            == "device scope must not contain duplicate IDs"@),
        non_negative(devices@) && distinct(devices@) ==> match old(topology).scope() {
            None => r is Ok && final(topology).scope() is Some && ids_of(
                final(topology).scope()->0,
            ) == sorted(ids_of(devices@)),
            Some(s) => if ids_of(s) == sorted(ids_of(devices@)) {
                r is Ok
            } else {
                r matches Err(m) && m@ == "device scope is already configured differently"@
            },
        },
        old(topology).scope() is Some || r is Err ==> final(topology).scope() == old(
            topology).scope(),
{
    let scope: Vec<i32> = match normalized_scope(devices) {
        Ok(scope) => scope,
        Err(m) => {
            return Err(m);
        },
    };
    proof {
        lemma_sorted(ids_of(devices@));
        assert forall|i: int| 0 <= i < scope@.len() implies #[trigger] scope@[i] >= 0 by {
            assert(scope@.contains(scope@[i]));
            let q = devices@.index_of(scope@[i]);
            assert(devices@[q] >= 0);
        }
        lemma_sorted_distinct(devices@, scope@);
    }
    match &topology.scope {
        None => {
            topology.scope = Some(scope);
            Ok(())
        },
        Some(current) => {
            if same_scope(current, &scope) {
                Ok(())
            } else {
                proof {
                    if ids_of(current@) == ids_of(scope@) {
                        assert forall|i: int| 0 <= i < current@.len() implies current@[i]
                            == scope@[i] by {
                            assert(ids_of(current@)[i] == ids_of(scope@)[i]);
                        }
                        assert(ids_of(current@).len() == current@.len());
                        assert(ids_of(scope@).len() == scope@.len());
                        assert(current@ =~= scope@);
                    }
                }
                Err(String::from_str("device scope is already configured differently"))
            }
        },
    }
}

proof fn lemma_sorted_distinct(devices: Seq<i32>, scope: Seq<i32>)
    requires
        distinct(devices),
        ids_of(scope) == sorted(ids_of(devices)),
    ensures
        distinct(scope),
{
    broadcast use vstd::seq_lib::group_to_multiset_ensures;

    let ids = ids_of(devices);
    lemma_sorted(ids);
    assert(ids.no_duplicates()) by {
        assert forall|i: int, j: int| 0 <= i < ids.len() && 0 <= j < ids.len() && i
            != j implies ids[i] != ids[j] by {
            if i < j {
                assert(devices[i] != devices[j]);
            } else {
                assert(devices[j] != devices[i]);
            }
        }
    }
    ids.lemma_multiset_has_no_duplicates();
    let t = ids_of(scope);
    assert forall|x: int| #[trigger] t.to_multiset().contains(x) implies t.to_multiset().count(x)
        == 1 by {
        assert(ids.to_multiset().contains(x));
    }
    t.lemma_multiset_has_no_duplicates_conv();
    assert forall|i: int, j: int| 0 <= i < j < scope.len() implies scope[i] != scope[j] by {
        assert(t[i] != t[j]);
    }
}

/// Refuses a device that the process may not use.
pub fn validate_device_scope(topology: &DeviceTopology, device: i32) -> (r: Result<(), String>)
    ensures
        r is Ok == topology.allows(device),
        r matches Err(m) ==> m@ == "device "@ + signed_decimal(device as int)
            + " is outside the configured device scope"@,
{
    let allowed: bool = match &topology.scope {
        Some(scope) => contains_id(scope, device),
        None => true,
    };
    if device < 0 || !allowed {
        return Err(
            join3(
                "device ",
                &signed_text(device as i64),
                " is outside the configured device scope",
            ),
        );
    }
    Ok(())
}

/// Whether entry `i` names a device that is on `node` and may be used.
pub open spec fn is_candidate(
    map: Seq<(i32, NumaNode)>,
    scope: Option<Seq<i32>>,
    node: NumaNode,
    i: int,
) -> bool {
    0 <= i < map.len() && map[i].1 == node && match scope {
        Some(s) => s.contains(map[i].0),
        None => true,
    }
}

/// Whether `device` is the lowest device on `node` that may be used; where there
/// is none, the first that may be used; and device zero where any may.
pub open spec fn is_selected(
    map: Seq<(i32, NumaNode)>,
    scope: Option<Seq<i32>>,
    node: NumaNode,
    device: i32,
) -> bool {
    if exists|i: int| is_candidate(map, scope, node, i) {
        &&& exists|i: int| #[trigger] is_candidate(map, scope, node, i) && map[i].0 == device
        &&& forall|i: int| #[trigger] is_candidate(map, scope, node, i) ==> device <= map[i].0
    } else {
        device == match scope {
            Some(s) => s[0] as int,
            None => 0,
        }
    }
}

/// Selects the device for a NUMA node.
pub fn select_device(
    map: Option<&Vec<(i32, NumaNode)>>,
    scope: Option<&Vec<i32>>,
    node: NumaNode,
) -> (r: i32)
    requires
        scope matches Some(s) ==> s@.len() > 0,
    ensures
        is_selected(
            match map {
                Some(m) => m@,
                None => Seq::empty(),
            },
            match scope {
                Some(s) => Some(s@),
                None => None,
            },
            node,
            r,
        ),
{
    let ghost list = match map {
        Some(m) => m@,
        None => Seq::empty(),
    };
    let ghost allowed = match scope {
        Some(s) => Some(s@),
        None => None,
    };
    let mut best: Option<i32> = None;
    if let Some(m) = map {
        let mut i: usize = 0;
        while i < m.len()
            invariant
                i <= m@.len(),
                list == m@,
                allowed == (match scope {
                    Some(s) => Some(s@),
                    None => None,
                }),
                match best {
                    Some(b) => {
                        &&& exists|k: int|
                            k < i && #[trigger] is_candidate(list, allowed, node, k) && list[k].0
                                == b
                        &&& forall|k: int|
                            k < i && #[trigger] is_candidate(list, allowed, node, k) ==> b
                                <= list[k].0
                    },
                    None => forall|k: int|
                        k < i ==> !#[trigger] is_candidate(list, allowed, node, k),
                },
            decreases m@.len() - i,
        {
            let device: i32 = m[i].0;
            let usable: bool = match scope {
                Some(s) => contains_id(s, device),
                None => true,
            };
            if m[i].1.0 == node.0 && usable {
                assert(is_candidate(list, allowed, node, i as int));
                let better: bool = match best {
                    Some(b) => device < b,
                    None => true,
                };
                if better {
                    best = Some(device);
                }
            } else {
                assert(!is_candidate(list, allowed, node, i as int));
            }
            i += 1;
        }
    }
    match best {
        Some(b) => b,
        None => match scope {
            Some(s) => s[0],
            None => 0,
        },
    }
}

/// The device that serves a node is always one that may be used.
pub proof fn law_selected_device_is_in_scope(
    map: Seq<(i32, NumaNode)>,
    scope: Seq<i32>,
    node: NumaNode,
    device: i32,
)
    requires
        scope.len() > 0,
        is_selected(map, Some(scope), node, device),
    ensures
        scope.contains(device),
{
    if !(exists|i: int| is_candidate(map, Some(scope), node, i)) {
        assert(scope[0] == device);
    }
}

/// The device of a node is the one with the lowest number of those that are on the node and may be
/// used; where there is none, it is the first that may be used, or device zero where all may.
pub proof fn law_the_lowest_device_of_a_node_is_selected(
    map: Seq<(i32, NumaNode)>,
    scope: Option<Seq<i32>>,
    node: NumaNode,
    device: i32,
    i: int,
)
    requires
        is_selected(map, scope, node, device),
    ensures
        0 <= i < map.len() && map[i].1 == node && (scope matches Some(s) ==> s.contains(map[i].0))
            ==> device <= map[i].0 && exists|k: int|
            0 <= k < map.len() && (#[trigger] map[k]).0 == device && map[k].1 == node && (
            scope matches Some(s) ==> s.contains(device)),
        (forall|k: int|
            0 <= k < map.len() && (#[trigger] map[k]).1 == node ==> (scope matches Some(s)
                && !s.contains(map[k].0))) ==> device == match scope {
            Some(s) => s[0] as int,
            None => 0,
        },
{
    if 0 <= i < map.len() && map[i].1 == node && (scope matches Some(s) ==> s.contains(map[i].0)) {
        assert(is_candidate(map, scope, node, i));
        let k = choose|k: int| #[trigger] is_candidate(map, scope, node, k) && map[k].0 == device;
        assert(map[k].0 == device);
    }
    if forall|k: int|
        0 <= k < map.len() && (#[trigger] map[k]).1 == node ==> (scope matches Some(s)
            && !s.contains(map[k].0)) {
        assert forall|k: int| !is_candidate(map, scope, node, k) by {
            if is_candidate(map, scope, node, k) {
                assert(map[k].1 == node);
            }
        }
    }
}

/// Without a scope every device may be used that has a number; with one, only those of the scope.
pub proof fn law_the_scope_decides(topology: DeviceTopology, device: i32)
    ensures
        topology.scope() is None ==> (topology.allows(device) <==> device >= 0),
        topology.scope() matches Some(s) ==> (topology.allows(device) <==> device >= 0
            && s.contains(device)),
{
}

/// A scope can be configured exactly if it names at least one device, none of them negative, and
/// none twice.
pub proof fn law_scopes_name_different_devices(devices: Seq<i32>)
    ensures
        non_negative(devices) <==> devices.len() > 0 && forall|i: int|
            0 <= i < devices.len() ==> (#[trigger] devices[i]) >= 0,
        distinct(devices) <==> devices.no_duplicates(),
{
}

} // verus!
