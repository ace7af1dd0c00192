//! Which NIC carries a transfer: one on the NUMA node of the local memory, in
//! turn.

use vstd::prelude::*;
use crate::numa::NumaNode;

verus! {

/// The number after `n`, which is zero after the largest.
pub open spec fn next_turn(n: usize) -> usize {
    if n == usize::MAX {
        0
    } else {
        (n + 1) as usize
    }
}

/// NICs that are used in turn.
#[derive(Debug)]
pub struct NicGroup {
    pub nic_indices: Vec<usize>,
    pub rr_counter: usize,
}

/// NICs that are used in turn, and whose turn it is.
#[verifier::ext_equal]
pub struct GroupView {
    pub nics: Seq<usize>,
    pub turn: usize,
}

impl View for NicGroup {
    type V = GroupView;

    open spec fn view(&self) -> GroupView {
        GroupView { nics: self.nic_indices@, turn: self.rr_counter }
    }
}

/// The NIC whose turn it is.
pub open spec fn current(g: GroupView) -> usize {
    g.nics[g.turn as int % g.nics.len() as int]
}

/// The group after a turn.
pub open spec fn turned(g: GroupView) -> GroupView {
    GroupView { nics: g.nics, turn: next_turn(g.turn) }
}

impl NicGroup {
    /// The NIC whose turn it is; the next one is up after it.
    pub fn next(&mut self) -> (r: usize)
        requires
            old(self)@.nics.len() > 0,
        ensures
            r == current(old(self)@),
            final(self)@ == turned(old(self)@),
            final(self).nic_indices == old(self).nic_indices,
            old(self).rr_counter < usize::MAX ==> final(self).rr_counter == old(self).rr_counter + 1,
    {
        let turn: usize = self.rr_counter;
        self.rr_counter = self.rr_counter.wrapping_add(1);
        self.nic_indices[turn % self.nic_indices.len()]
    }
}

/// The NICs among the first `n` that are on `node`.
pub open spec fn nics_on(nodes: Seq<NumaNode>, node: NumaNode, n: int) -> Seq<usize>
    decreases n,
{
    if n <= 0 {
        Seq::empty()
    } else if nodes[n - 1] == node {
        nics_on(nodes, node, n - 1).push((n - 1) as usize)
    } else {
        nics_on(nodes, node, n - 1)
    }
}

/// The known nodes among those of the first `n` NICs, each once, in order.
pub open spec fn known_nodes(nodes: Seq<NumaNode>, n: int) -> Seq<NumaNode>
    decreases n,
{
    if n <= 0 {
        Seq::empty()
    } else {
        let front = known_nodes(nodes, n - 1);
        if nodes[n - 1].known() && !front.contains(nodes[n - 1]) {
            front.push(nodes[n - 1])
        } else {
            front
        }
    }
}

/// The NICs of each NUMA node in turn, and all NICs in turn for other nodes.
#[derive(Debug)]
pub struct NumaRoundRobin {
    pub groups: Vec<(NumaNode, NicGroup)>,
    pub fallback: NicGroup,
    /// Whether all NICs are on one node, so that nodes need not be told apart.
    pub single_numa: bool,
}

/// The groups, and whose turn it is in each.
#[verifier::ext_equal]
pub struct RoundRobinView {
    pub groups: Seq<(NumaNode, GroupView)>,
    pub fallback: GroupView,
    pub single_numa: bool,
}

impl View for NumaRoundRobin {
    type V = RoundRobinView;

    open spec fn view(&self) -> RoundRobinView {
        RoundRobinView {
            groups: self.groups@.map_values(|g: (NumaNode, NicGroup)| (g.0, g.1@)),
            fallback: self.fallback@,
            single_numa: self.single_numa,
        }
    }
}

/// The first group of `node`.
pub open spec fn group_of(groups: Seq<(NumaNode, GroupView)>, node: NumaNode) -> Option<int>
    decreases groups.len(),
{
    if groups.len() == 0 {
        None
    } else if group_of(groups.drop_last(), node) is Some {
        group_of(groups.drop_last(), node)
    } else if groups.last().0 == node {
        Some(groups.len() - 1)
    } else {
        None
    }
}

/// The NIC for memory on `node`.
pub open spec fn picked(v: RoundRobinView, node: NumaNode) -> usize {
    match group_of(v.groups, node) {
        Some(i) if node.known() => current(v.groups[i].1),
        _ => current(v.fallback),
    }
}

/// The turns after a NIC was picked for memory on `node`.
pub open spec fn after_pick(v: RoundRobinView, node: NumaNode) -> RoundRobinView {
    match group_of(v.groups, node) {
        Some(i) if node.known() => RoundRobinView {
            groups: v.groups.update(i, (v.groups[i].0, turned(v.groups[i].1))),
            ..v
        },
        _ => RoundRobinView { fallback: turned(v.fallback), ..v },
    }
}

/// Whether every group has NICs, all of them below `n`.
pub open spec fn groups_below(v: RoundRobinView, n: int) -> bool {
    &&& v.fallback.nics.len() > 0
    &&& forall|k: int| 0 <= k < v.fallback.nics.len() ==> #[trigger] v.fallback.nics[k] < n
    &&& forall|g: int|
        0 <= g < v.groups.len() ==> (#[trigger] v.groups[g]).1.nics.len() > 0 && forall|k: int|
            0 <= k < v.groups[g].1.nics.len() ==> #[trigger] v.groups[g].1.nics[k] < n
}

/// The NIC that is picked is one of the NICs, and the turns stay in order.
pub proof fn lemma_pick(v: RoundRobinView, node: NumaNode, n: int)
    requires
        groups_below(v, n),
    ensures
        picked(v, node) < n,
        groups_below(after_pick(v, node), n),
        current(v.fallback) < n,
        groups_below((RoundRobinView { fallback: turned(v.fallback), ..v }), n),
{
    lemma_group_of(v.groups, node);
    let f = v.fallback;
    let k = f.turn as int % f.nics.len() as int;
    vstd::arithmetic::div_mod::lemma_mod_bound(f.turn as int, f.nics.len() as int);
    assert(f.nics[k] < n);
    match group_of(v.groups, node) {
        Some(i) => {
            let g = v.groups[i].1;
            vstd::arithmetic::div_mod::lemma_mod_bound(g.turn as int, g.nics.len() as int);
            let q = g.turn as int % g.nics.len() as int;
            assert(v.groups[i].1.nics.len() > 0);
            assert(v.groups[i].1.nics[q] < n);
            let after = v.groups.update(i, (v.groups[i].0, turned(g)));
            assert forall|j: int| 0 <= j < after.len() implies (#[trigger] after[j]).1.nics.len()
                > 0 && forall|k: int|
                0 <= k < after[j].1.nics.len() ==> #[trigger] after[j].1.nics[k] < n by {
                assert(v.groups[j].1.nics.len() > 0);
            }
        },
        None => {},
    }
}

pub proof fn lemma_group_of(groups: Seq<(NumaNode, GroupView)>, node: NumaNode)
    ensures
        match group_of(groups, node) {
            Some(i) => 0 <= i < groups.len() && groups[i].0 == node && forall|k: int|
                0 <= k < i ==> (#[trigger] groups[k]).0 != node,
            None => forall|k: int| 0 <= k < groups.len() ==> (#[trigger] groups[k]).0 != node,
        },
    decreases groups.len(),
{
    if groups.len() > 0 {
        let front = groups.drop_last();
        lemma_group_of(front, node);
        match group_of(front, node) {
            Some(i) => {
                assert(groups[i] == front[i]);
                assert forall|k: int| 0 <= k < i implies (#[trigger] groups[k]).0 != node by {
                    assert(front[k].0 != node);
                }
            },
            None => {
                assert forall|k: int| 0 <= k < groups.len() - 1 implies (#[trigger] groups[k]).0
                    != node by {
                    assert(front[k].0 != node);
                }
            },
        }
    }
}

/// Whether NICs are grouped by the NUMA nodes that they are on, with the first turn in each
/// group to come.
pub open spec fn groups_nics(r: NumaRoundRobin, nodes: Seq<NumaNode>) -> bool {
    let n = nodes.len() as int;
    &&& r@.fallback.nics == Seq::new(nodes.len(), |i: int| i as usize)
    &&& r@.fallback.turn == 0
    &&& r@.groups.len() == known_nodes(nodes, n).len()
    &&& forall|g: int|
        0 <= g < r@.groups.len() ==> {
            &&& (#[trigger] r@.groups[g]).0 == known_nodes(nodes, n)[g]
            &&& r@.groups[g].1 == (GroupView { nics: nics_on(nodes, r@.groups[g].0, n), turn: 0 })
        }
    &&& r.single_numa == (r@.groups.len() <= 1)
}

impl NumaRoundRobin {
    /// Groups NICs by the NUMA nodes they are on.
    pub fn from_nodes(nodes: &[NumaNode]) -> (r: Self)
        requires
            nodes@.len() > 0,
        ensures
            groups_nics(r, nodes@),
            groups_below(r@, nodes@.len() as int),
    {
        let n: usize = nodes.len();
        let mut all: Vec<usize> = Vec::new();
        let mut i: usize = 0;
        while i < n
            invariant
                i <= n,
                all@ == Seq::new(i as nat, |i: int| i as usize),
            decreases n - i,
        {
            all.push(i);
            i += 1;
            assert(all@ =~= Seq::new(i as nat, |i: int| i as usize));
        }
        let mut known: Vec<NumaNode> = Vec::new();
        let mut j: usize = 0;
        assert(known@ =~= known_nodes(nodes@, 0));
        while j < n
            invariant
                j <= n,
                n == nodes@.len(),
                known@ == known_nodes(nodes@, j as int),
            decreases n - j,
        {
            if nodes[j].is_valid() && !contains_node(&known, nodes[j]) {
                known.push(nodes[j]);
            }
            j += 1;
        }
        let mut groups: Vec<(NumaNode, NicGroup)> = Vec::new();
        let mut g: usize = 0;
        while g < known.len()
            invariant
                g <= known@.len(),
                n == nodes@.len(),
                known@ == known_nodes(nodes@, n as int),
                groups@.len() == g,
                forall|k: int|
                    0 <= k < g ==> {
                        &&& (#[trigger] groups@[k]).0 == known@[k]
                        &&& groups@[k].1.nic_indices@ == nics_on(nodes@, known@[k], n as int)
                        &&& groups@[k].1.rr_counter == 0
                    },
            decreases known@.len() - g,
        {
            let nic_indices: Vec<usize> = collect_nics(nodes, known[g]);
            groups.push((known[g], NicGroup { nic_indices, rr_counter: 0 }));
            g += 1;
        }
        let single_numa: bool = groups.len() <= 1;
        let r: NumaRoundRobin = NumaRoundRobin {
            groups,
            fallback: NicGroup { nic_indices: all, rr_counter: 0 },
            single_numa,
        };
        proof {
            assert forall|g: int| 0 <= g < r@.groups.len() implies {
                &&& (#[trigger] r@.groups[g]).0 == known@[g]
                &&& r@.groups[g].1 == (GroupView {
                    nics: nics_on(nodes@, r@.groups[g].0, n as int),
                    turn: 0,
                })
                &&& r@.groups[g].1.nics.len() > 0
                &&& forall|k: int|
                    0 <= k < r@.groups[g].1.nics.len() ==> #[trigger] r@.groups[g].1.nics[k] < n
            } by {
                assert(r@.groups[g] == (groups@[g].0, groups@[g].1@));
                lemma_known_node_has_nics(nodes@, n as int, known@[g]);
                lemma_nics_below(nodes@, known@[g], n as int);
            }
        }
        r
    }

    fn find(&self, node: NumaNode) -> (r: Option<usize>)
        ensures
            match r {
                Some(i) => group_of(self@.groups, node) == Some(i as int) && i < self.groups@.len(),
                None => group_of(self@.groups, node) is None,
            },
    {
        let mut i: usize = 0;
        while i < self.groups.len()
            invariant
                i <= self.groups@.len(),
                forall|k: int| 0 <= k < i ==> (#[trigger] self@.groups[k]).0 != node,
            decreases self.groups@.len() - i,
        {
            assert(self@.groups[i as int].0 == self.groups@[i as int].0);
            if self.groups[i].0.0 == node.0 {
                proof {
                    lemma_group_of(self@.groups, node);
                }
                return Some(i);
            }
            i += 1;
        }
        proof {
            lemma_group_of(self@.groups, node);
        }
        None
    }

    /// Picks a NIC for memory on `numa`: one of that node in turn, or one of all
    /// where the node is unknown or has none.
    pub(crate) fn pick(&mut self, numa: NumaNode, Ghost(n): Ghost<int>) -> (r: usize)
        requires
            groups_below(old(self)@, n),
        ensures
            r == picked(old(self)@, numa),
            r < n,
            final(self)@ == after_pick(old(self)@, numa),
            groups_below(final(self)@, n),
    {
        proof {
            lemma_pick(self@, numa, n);
            lemma_group_of(self@.groups, numa);
        }
        if numa.is_valid() {
            if let Some(i) = self.find(numa) {
                let ghost before = self@;
                assert(self@.groups[i as int] == (
                    self.groups@[i as int].0,
                    self.groups@[i as int].1@,
                ));
                assert(before.groups[i as int].1.nics.len() > 0);
                let nic: usize = self.groups[i].1.next();
                assert(self@.groups =~= before.groups.update(
                    i as int,
                    (before.groups[i as int].0, turned(before.groups[i as int].1)),
                ));
                return nic;
            }
        }
        self.fallback.next()
    }
}

fn contains_node(list: &Vec<NumaNode>, node: NumaNode) -> (r: bool)
    ensures
        r == list@.contains(node),
{
    let mut i: usize = 0;
    while i < list.len()
        invariant
            i <= list@.len(),
            forall|k: int| 0 <= k < i ==> list@[k] != node,
        decreases list@.len() - i,
    {
        if list[i].0 == node.0 {
            assert(list@[i as int] == node);
            return true;
        }
        i += 1;
    }
    false
}

fn collect_nics(nodes: &[NumaNode], node: NumaNode) -> (r: Vec<usize>)
    ensures
        r@ == nics_on(nodes@, node, nodes@.len() as int),
{
    let mut out: Vec<usize> = Vec::new();
    let mut i: usize = 0;
    assert(out@ =~= nics_on(nodes@, node, 0));
    while i < nodes.len()
        invariant
            i <= nodes@.len(),
            out@ == nics_on(nodes@, node, i as int),
        decreases nodes@.len() - i,
    {
        if nodes[i].0 == node.0 {
            out.push(i);
        }
        i += 1;
    }
    out
}

proof fn lemma_nics_below(nodes: Seq<NumaNode>, node: NumaNode, n: int)
    requires
        0 <= n <= usize::MAX,
    ensures
        forall|k: int|
            0 <= k < nics_on(nodes, node, n).len() ==> #[trigger] nics_on(nodes, node, n)[k] < n,
    decreases n,
{
    if n > 0 {
        lemma_nics_below(nodes, node, n - 1);
        let front = nics_on(nodes, node, n - 1);
        let all = nics_on(nodes, node, n);
        assert forall|k: int| 0 <= k < all.len() implies #[trigger] all[k] < n by {
            if k < front.len() {
                assert(front[k] < n - 1);
            }
        }
    }
}

proof fn lemma_nics_on_node(nodes: Seq<NumaNode>, node: NumaNode, n: int)
    requires
        0 <= n <= nodes.len(),
        nodes.len() <= usize::MAX,
    ensures
        forall|k: int|
            0 <= k < nics_on(nodes, node, n).len() ==> nodes[(#[trigger] nics_on(
                nodes,
                node,
                n,
            )[k]) as int] == node,
    decreases n,
{
    if n > 0 {
        lemma_nics_on_node(nodes, node, n - 1);
        let front = nics_on(nodes, node, n - 1);
        let all = nics_on(nodes, node, n);
        assert forall|k: int| 0 <= k < all.len() implies nodes[(#[trigger] all[k]) as int]
            == node by {
            if k < front.len() {
                assert(nodes[front[k] as int] == node);
            }
        }
    }
}

/// Memory on a node that has NICs is carried by one of them.
pub proof fn law_pick_is_local(nodes: Seq<NumaNode>, v: RoundRobinView, node: NumaNode, g: int)
    requires
        nodes.len() <= usize::MAX,
        node.known(),
        group_of(v.groups, node) == Some(g),
        v.groups[g].1.nics == nics_on(nodes, node, nodes.len() as int),
        v.groups[g].1.nics.len() > 0,
    ensures
        nodes[picked(v, node) as int] == node,
{
    let group = v.groups[g].1;
    lemma_nics_on_node(nodes, node, nodes.len() as int);
    vstd::arithmetic::div_mod::lemma_mod_bound(group.turn as int, group.nics.len() as int);
    let k = group.turn as int % group.nics.len() as int;
    assert(nodes[group.nics[k] as int] == node);
}

proof fn lemma_known_node_has_nics(nodes: Seq<NumaNode>, n: int, node: NumaNode)
    requires
        known_nodes(nodes, n).contains(node),
    ensures
        nics_on(nodes, node, n).len() > 0,
    decreases n,
{
    if n > 0 && nodes[n - 1] != node {
        let front = known_nodes(nodes, n - 1);
        let k = known_nodes(nodes, n).index_of(node);
        assert(front[k] == node);
        lemma_known_node_has_nics(nodes, n - 1, node);
    }
}

/// A group takes each of its NICs in turn: as many turns as it has NICs come back
/// to the same NIC, as long as the count does not wrap around.
pub proof fn law_turns_come_round(g: GroupView)
    requires
        g.nics.len() > 0,
        g.turn + g.nics.len() <= usize::MAX,
    ensures
        current((GroupView { turn: (g.turn + g.nics.len()) as usize, ..g })) == current(g),
{
    vstd::arithmetic::div_mod::lemma_mod_add_multiples_vanish(g.turn as int, g.nics.len() as int);
}

/// The NICs that a group picks from each of some states.
pub open spec fn picks(states: Seq<GroupView>) -> Seq<usize> {
    states.map_values(|g: GroupView| current(g))
}

/// Whether states of a group are what picking one NIC after the other leads to.
pub open spec fn turned_in_turn(states: Seq<GroupView>) -> bool {
    forall|k: int| 0 <= k < states.len() - 1 ==> states[k + 1] == turned(#[trigger] states[k])
}

proof fn lemma_turns(states: Seq<GroupView>, k: int)
    requires
        0 <= k < states.len(),
        turned_in_turn(states),
        states[0].turn + states.len() <= usize::MAX + 1,
    ensures
        states[k].nics == states[0].nics,
        states[k].turn == states[0].turn + k,
    decreases k,
{
    if k > 0 {
        lemma_turns(states, k - 1);
        assert(states[k - 1 + 1] == turned(states[k - 1]));
    }
}

proof fn lemma_next_place(a: int, n: int)
    requires
        0 <= a,
        n > 0,
    ensures
        (a + 1) % n == (a % n + 1) % n,
        0 <= a % n < n,
{
    vstd::arithmetic::div_mod::lemma_mod_bound(a, n);
    vstd::arithmetic::div_mod::lemma_add_mod_noop(a, 1, n);
    vstd::arithmetic::div_mod::lemma_add_mod_noop(a % n, 1, n);
    vstd::arithmetic::div_mod::lemma_mod_twice(a, n);
}

/// The NIC that is picked next stands one place further in its group, and the first one comes
/// after the last. The NICs of the group stay as they are. Left out is the turn at which the
/// count wraps around.
pub proof fn law_next_nic_is_one_further(g: GroupView, p: int)
    requires
        g.nics.len() > 0,
        g.turn < usize::MAX,
        0 <= p < g.nics.len(),
        p == g.turn as int % g.nics.len() as int,
    ensures
        current(g) == g.nics[p],
        turned(g).nics == g.nics,
        current(turned(g)) == g.nics[if p + 1 < g.nics.len() {
            p + 1
        } else {
            0
        }],
        turned(g).turn == g.turn + 1,
{
    let n = g.nics.len() as int;
    lemma_next_place(g.turn as int, n);
    if p + 1 < n {
        vstd::arithmetic::div_mod::lemma_small_mod((p + 1) as nat, n as nat);
    } else {
        vstd::arithmetic::div_mod::lemma_mod_self_0(n);
    }
}

/// What a group picks in one round is what it holds, from some place on.
proof fn lemma_one_round(states: Seq<GroupView>)
    requires
        states.len() > 0,
        states[0].nics.len() == states.len(),
        turned_in_turn(states),
        states[0].turn + states.len() <= usize::MAX + 1,
    ensures
        picks(states).to_multiset() == states[0].nics.to_multiset(),
{
    let nics = states[0].nics;
    let n = nics.len() as int;
    let r = states[0].turn as int % n;
    vstd::arithmetic::div_mod::lemma_mod_bound(states[0].turn as int, n);
    assert forall|k: int| 0 <= k < n implies #[trigger] picks(states)[k] == nics[if r + k < n {
        r + k
    } else {
        r + k - n
    }] by {
        lemma_turns(states, k);
        let t = states[0].turn as int;
        vstd::arithmetic::div_mod::lemma_fundamental_div_mod(t, n);
        let d = t / n;
        if r + k < n {
            assert(t + k == n * d + (r + k));
            vstd::arithmetic::div_mod::lemma_fundamental_div_mod_converse(t + k, n, d, r + k);
        } else {
            assert(t + k == (d + 1) * n + (r + k - n)) by (nonlinear_arith)
                requires
                    t == n * d + r,
            ;
            vstd::arithmetic::div_mod::lemma_fundamental_div_mod_converse(
                t + k,
                n,
                d + 1,
                r + k - n,
            );
        }
    }
    assert(picks(states) =~= nics.skip(r) + nics.take(r));
    assert(nics =~= nics.take(r) + nics.skip(r));
    vstd::seq_lib::lemma_multiset_commutative(nics.skip(r), nics.take(r));
    vstd::seq_lib::lemma_multiset_commutative(nics.take(r), nics.skip(r));
    assert(nics.skip(r).to_multiset().add(nics.take(r).to_multiset()) =~= nics.take(
        r,
    ).to_multiset().add(nics.skip(r).to_multiset()));
}

/// A group takes all of its NICs in turn: over so many rounds, wherever they begin, each NIC is
/// picked as often as there are rounds, for every time that it stands in the group. Left out
/// are the turns at which the count wraps around.
pub proof fn law_rounds_take_every_nic_equally(states: Seq<GroupView>, rounds: nat, nic: usize)
    requires
        rounds > 0,
        states.len() == rounds * states[0].nics.len(),
        states[0].nics.len() > 0,
        turned_in_turn(states),
        states[0].turn + states.len() <= usize::MAX + 1,
    ensures
        picks(states).to_multiset().count(nic) == rounds * states[0].nics.to_multiset().count(nic),
    decreases rounds,
{
    let n = states[0].nics.len() as int;
    let all = states.len() as int;
    assert(all >= n) by (nonlinear_arith)
        requires
            all == rounds * n,
            rounds >= 1,
            n > 0,
    ;
    let first = states.take(n);
    assert(turned_in_turn(first)) by {
        assert forall|k: int| 0 <= k < first.len() - 1 implies first[k + 1] == turned(
            #[trigger] first[k],
        ) by {
            assert(states[k + 1] == turned(states[k]));
        }
    }
    lemma_one_round(first);
    let c = states[0].nics.to_multiset().count(nic);
    if rounds == 1 {
        assert(all == n && rounds * c == c) by (nonlinear_arith)
            requires
                all == rounds * n,
                rounds == 1,
        ;
        assert(first =~= states);
    } else {
        let rest = states.skip(n);
        let less = (rounds - 1) as nat;
        assert(rest.len() == less * n) by (nonlinear_arith)
            requires
                rest.len() == rounds * n - n,
                less == rounds - 1,
        ;
        assert(all > n) by (nonlinear_arith)
            requires
                all == rounds * n,
                rounds >= 2,
                n > 0,
        ;
        assert(turned_in_turn(rest)) by {
            assert forall|k: int| 0 <= k < rest.len() - 1 implies rest[k + 1] == turned(
                #[trigger] rest[k],
            ) by {
                assert(states[n + k + 1] == turned(states[n + k]));
            }
        }
        lemma_turns(states, n);
        law_rounds_take_every_nic_equally(rest, less, nic);
        assert(picks(states) =~= picks(first) + picks(rest));
        vstd::seq_lib::lemma_multiset_commutative(picks(first), picks(rest));
        assert(less * c + c == rounds * c) by (nonlinear_arith)
            requires
                less == rounds - 1,
        ;
    }
}

/// Picking a NIC for memory on a node moves on the turn of one group alone: that of the node,
/// where there is one, and else that of all NICs. No group gains or loses a NIC.
pub proof fn law_picking_moves_one_turn(v: RoundRobinView, node: NumaNode, g: int)
    requires
        0 <= g < v.groups.len(),
    ensures
        after_pick(v, node).groups.len() == v.groups.len(),
        after_pick(v, node).groups[g].0 == v.groups[g].0,
        after_pick(v, node).groups[g].1.nics == v.groups[g].1.nics,
        after_pick(v, node).fallback.nics == v.fallback.nics,
        after_pick(v, node).single_numa == v.single_numa,
        v.groups[g].0 != node ==> after_pick(v, node).groups[g] == v.groups[g],
        node.known() && v.groups[g].0 == node && (forall|k: int|
            0 <= k < g ==> (#[trigger] v.groups[k]).0 != node) ==> {
            &&& v.groups[g].1.turn < usize::MAX ==> after_pick(v, node).groups[g].1.turn
                == v.groups[g].1.turn + 1
            &&& picked(v, node) == v.groups[g].1.nics[v.groups[g].1.turn as int
                % v.groups[g].1.nics.len() as int]
            &&& after_pick(v, node).fallback == v.fallback
        },
        !node.known() ==> after_pick(v, node).groups[g] == v.groups[g],
{
    lemma_group_of(v.groups, node);
}

/// Memory on a node that has no NIC, or on an unknown node, is carried by all NICs in turn.
pub proof fn law_other_memory_is_carried_by_all_nics(v: RoundRobinView, node: NumaNode)
    requires
        !node.known() || forall|k: int| 0 <= k < v.groups.len() ==> (#[trigger] v.groups[k]).0
            != node,
        v.fallback.nics.len() > 0,
    ensures
        picked(v, node) == v.fallback.nics[v.fallback.turn as int % v.fallback.nics.len() as int],
        v.fallback.turn < usize::MAX ==> after_pick(v, node).fallback.turn == v.fallback.turn + 1,
        after_pick(v, node).groups == v.groups,
{
    lemma_group_of(v.groups, node);
}

/// Every known node with a NIC has a group of its own, and the group holds exactly the NICs that
/// are on the node, each once. The group of all NICs holds all of them.
pub proof fn law_groups_hold_the_nics_of_their_node(
    r: NumaRoundRobin,
    nodes: Seq<NumaNode>,
    i: int,
)
    requires
        groups_nics(r, nodes),
        0 <= i < nodes.len() <= usize::MAX,
    ensures
        r@.fallback.nics.len() == nodes.len(),
        r@.fallback.nics[i] == i,
        nodes[i].known() ==> exists|g: int|
            0 <= g < r@.groups.len() && (#[trigger] r@.groups[g]).0 == nodes[i],
        forall|g: int|
            0 <= g < r@.groups.len() ==> (#[trigger] r@.groups[g]).0.known() && r@.groups[g]
                .1.nics.no_duplicates() && (r@.groups[g].1.nics.contains(i as usize)
                <==> nodes[i] == r@.groups[g].0),
        forall|g: int, h: int|
            0 <= g < h < r@.groups.len() ==> (#[trigger] r@.groups[g]).0 != (
            #[trigger] r@.groups[h]).0,
{
    let n = nodes.len() as int;
    let known = known_nodes(nodes, n);
    lemma_known_nodes(nodes, n);
    if nodes[i].known() {
        assert(known.contains(nodes[i]));
        let g = known.index_of(nodes[i]);
        assert(r@.groups[g].0 == nodes[i]);
    }
    assert forall|g: int| 0 <= g < r@.groups.len() implies (#[trigger] r@.groups[g]).0.known()
        && r@.groups[g].1.nics.no_duplicates() && (r@.groups[g].1.nics.contains(i as usize)
        <==> nodes[i] == r@.groups[g].0) by {
        let node = r@.groups[g].0;
        assert(node == known[g]);
        lemma_nics_of_node(nodes, node, n);
    }
}

proof fn lemma_known_nodes(nodes: Seq<NumaNode>, n: int)
    requires
        0 <= n <= nodes.len(),
    ensures
        known_nodes(nodes, n).no_duplicates(),
        forall|g: int|
            0 <= g < known_nodes(nodes, n).len() ==> (#[trigger] known_nodes(nodes, n)[g]).known(),
        forall|i: int|
            0 <= i < n && (#[trigger] nodes[i]).known() ==> known_nodes(nodes, n).contains(nodes[i]),
    decreases n,
{
    if n > 0 {
        lemma_known_nodes(nodes, n - 1);
        let front = known_nodes(nodes, n - 1);
        let all = known_nodes(nodes, n);
        assert forall|i: int| 0 <= i < n && (#[trigger] nodes[i]).known() implies all.contains(
            nodes[i],
        ) by {
            if i < n - 1 {
                assert(front.contains(nodes[i]));
                let k = front.index_of(nodes[i]);
                assert(all[k] == nodes[i]);
            } else if !front.contains(nodes[i]) {
                assert(all[front.len() as int] == nodes[i]);
            }
        }
    }
}

proof fn lemma_nics_of_node(nodes: Seq<NumaNode>, node: NumaNode, n: int)
    requires
        0 <= n <= nodes.len() <= usize::MAX,
    ensures
        nics_on(nodes, node, n).no_duplicates(),
        forall|i: int|
            0 <= i < nodes.len() ==> (nics_on(nodes, node, n).contains(i as usize) <==> i < n
                && #[trigger] nodes[i] == node),
    decreases n,
{
    if n > 0 {
        lemma_nics_of_node(nodes, node, n - 1);
        lemma_nics_below(nodes, node, n - 1);
        let front = nics_on(nodes, node, n - 1);
        let all = nics_on(nodes, node, n);
        assert forall|i: int| 0 <= i < nodes.len() implies (all.contains(i as usize) <==> i < n
            && #[trigger] nodes[i] == node) by {
            if all.contains(i as usize) {
                let k = all.index_of(i as usize);
                if k < front.len() {
                    assert(front[k] == i as usize);
                    assert(front.contains(i as usize));
                }
            }
            if i < n && nodes[i] == node {
                if i < n - 1 {
                    assert(front.contains(i as usize));
                    let k = front.index_of(i as usize);
                    assert(all[k] == i as usize);
                } else {
                    assert(all[all.len() - 1] == i as usize);
                }
            }
        }
    }
}

} // verus!
