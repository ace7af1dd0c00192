//! Draining the command queue.

use vstd::prelude::*;
use vstd::hash_map::StringHashMap;
use crate::block::{byte_views, law_object_text_is_unique, object_id, object_text, BlockKey};
use crate::keyed::{has_key, is_entry};
use crate::metaserver::batch::{
    add_entry, barriers, command_ops, drained, flatten, group_views, is_grouping, keys_of, mixed,
    net, ops_of, selected, GroupView, MetaServerCommand,
};
use crate::read_cache::KeyView;

verus! {

/// The operations that are left of mixed ones: the keys in the order of their
/// first operations, and for each the last operation, by the key's printable
/// identity.
struct Net {
    order: Vec<BlockKey>,
    flags: StringHashMap<bool>,
}

impl Net {
    spec fn view(&self) -> Seq<(KeyView, bool)> {
        Seq::new(
            self.order@.len(),
            |i: int| (self.order@[i]@, self.flags@[object_text(self.order@[i]@)]),
        )
    }

    spec fn wf(&self) -> bool {
        &&& forall|i: int|
            0 <= i < self.order@.len() ==> self.flags@.contains_key(
                object_text((#[trigger] self.order@[i])@),
            )
        &&& forall|t: Seq<char>| #[trigger]
            self.flags@.contains_key(t) ==> exists|i: int|
                0 <= i < self.order@.len() && object_text((#[trigger] self.order@[i])@) == t
        &&& forall|i: int, j: int|
            0 <= i < j < self.order@.len() ==> (#[trigger] self.order@[i])@ != (
            #[trigger] self.order@[j])@
    }

    fn new() -> (r: Self)
        ensures
            r.wf(),
            r.view() == Seq::<(KeyView, bool)>::empty(),
    {
        let r: Net = Net { order: Vec::new(), flags: StringHashMap::new() };
        assert(r.view() =~= Seq::<(KeyView, bool)>::empty());
        r
    }

    /// Notes an operation: of a key that has one, the new one counts.
    fn note(&mut self, key: BlockKey, insert: bool)
        requires
            old(self).wf(),
        ensures
            final(self).wf(),
            final(self).view() == (if has_key(old(self).view(), key@) {
                old(self).view().update(
                    crate::keyed::place(old(self).view(), key@),
                    (key@, insert),
                )
            } else {
                old(self).view().push((key@, insert))
            }),
    {
        let text: String = object_id(&key);
        let ghost before = self.view();
        let ghost k = key@;
        if self.flags.contains_key(text.as_str()) {
            proof {
                let i = choose|i: int|
                    0 <= i < self.order@.len() && object_text((#[trigger] self.order@[i])@)
                        == text@;
                law_object_text_is_unique(self.order@[i]@, k);
                assert(is_entry(before, k, i));
            }
            self.flags.insert(text, insert);
            proof {
                let p = crate::keyed::place(before, k);
                assert(is_entry(before, k, p));
                assert forall|i: int| 0 <= i < self.order@.len() implies #[trigger]
                    self.view()[i] == before.update(p, (k, insert))[i] by {
                    if i != p {
                        if object_text(self.order@[i]@) == text@ {
                            law_object_text_is_unique(self.order@[i]@, k);
                            if i < p {
                                assert(self.order@[i]@ != self.order@[p]@);
                            } else {
                                assert(self.order@[p]@ != self.order@[i]@);
                            }
                        }
                    }
                }
                assert(self.view() =~= before.update(p, (k, insert)));
            }
        } else {
            proof {
                if has_key(before, k) {
                    let p = crate::keyed::place(before, k);
                    assert(is_entry(before, k, p));
                    assert(self.order@[p]@ == k);
                }
            }
            let ghost order = self.order@;
            self.order.push(key);
            self.flags.insert(text, insert);
            proof {
                assert(self.order@ == order.push(key));
                assert forall|i: int| 0 <= i < self.order@.len() implies #[trigger]
                    self.view()[i] == before.push((k, insert))[i] by {
                    if i < order.len() {
                        assert(self.order@[i] == order[i]);
                        assert(object_text(order[i]@) != text@);
                    }
                }
                assert(self.view() =~= before.push((k, insert)));
                assert forall|t: Seq<char>| #[trigger] self.flags@.contains_key(t) implies exists|
                    i: int,
                |
                    0 <= i < self.order@.len() && object_text((#[trigger] self.order@[i])@)
                        == t by {
                    if t == text@ {
                        assert(object_text(self.order@[order.len() as int]@) == t);
                    } else {
                        let i = choose|i: int|
                            0 <= i < order.len() && object_text((#[trigger] order[i])@) == t;
                        assert(object_text(self.order@[i]@) == t);
                    }
                }
                assert forall|i: int| 0 <= i < self.order@.len() implies self.flags@.contains_key(
                    object_text((#[trigger] self.order@[i])@),
                ) by {
                    if i < order.len() {
                        assert(self.order@[i] == order[i]);
                    }
                }
            }
        }
    }
}

/// Operations of one kind on keys.
spec fn flagged(keys: Seq<KeyView>, insert: bool) -> Seq<(KeyView, bool)> {
    keys.map_values(|k: KeyView| (k, insert))
}

proof fn lemma_selected_append(ops: Seq<(KeyView, bool)>, keys: Seq<KeyView>, kind: bool)
    ensures
        selected(ops + flagged(keys, kind), kind) == selected(ops, kind) + keys,
        selected(ops + flagged(keys, kind), !kind) == selected(ops, !kind),
    decreases keys.len(),
{
    let all = ops + flagged(keys, kind);
    if keys.len() == 0 {
        assert(all =~= ops);
        assert(selected(ops, kind) + keys =~= selected(ops, kind));
    } else {
        let front = keys.drop_last();
        lemma_selected_append(ops, front, kind);
        assert(all.drop_last() =~= ops + flagged(front, kind));
        assert(all.last() == (keys.last(), kind));
        assert(selected(all, kind) =~= selected(ops, kind) + keys);
    }
}

/// Adds groups to groups.
fn append_groups(
    target: &mut Vec<(String, Vec<Vec<u8>>)>,
    groups: Vec<(String, Vec<Vec<u8>>)>,
    Ghost(entries): Ghost<Seq<KeyView>>,
)
    requires
        is_grouping(group_views(old(target)@), entries),
    ensures
        is_grouping(group_views(final(target)@), entries + flatten(group_views(groups@))),
{
    let ghost views = group_views(groups@);
    proof {
        assert(views.take(0) =~= Seq::<GroupView>::empty());
        assert(entries + flatten(views.take(0)) =~= entries);
    }
    for group in it: groups
        invariant
            it.seq() == groups@,
            views == group_views(groups@),
            is_grouping(group_views(target@), entries + flatten(views.take(it.index()))),
    {
        let ghost g = it.index();
        let (namespace, hashes): (String, Vec<Vec<u8>>) = group;
        let ghost base = entries + flatten(views.take(g));
        let ghost keys = keys_of(views[g]);
        let ghost raw = hashes@;
        proof {
            assert(views[g] == (namespace@, byte_views(raw)));
            assert(views.take(g + 1).drop_last() =~= views.take(g));
            assert(views.take(g + 1).last() == views[g]);
            assert(base + keys.take(0) =~= base);
            assert(entries + flatten(views.take(g + 1)) =~= base + keys);
        }
        for hash in jt: hashes
            invariant
                jt.seq() == raw,
                keys == keys_of((namespace@, byte_views(raw))),
                is_grouping(group_views(target@), base + keys.take(jt.index())),
        {
            let ghost j = jt.index();
            assert(base + keys.take(j + 1) =~= (base + keys.take(j)).push((namespace@, hash@)));
            add_entry(target, &namespace, hash, Ghost(base + keys.take(j)));
        }
        assert(keys.take(keys.len() as int) =~= keys);
    }
    assert(views.take(views.len() as int) =~= views);
}

/// Notes the operations of groups.
fn insert_groups_into_net(
    all: &mut Net,
    groups: Vec<(String, Vec<Vec<u8>>)>,
    is_insert: bool,
    Ghost(ops): Ghost<Seq<(KeyView, bool)>>,
)
    requires
        old(all).wf(),
        old(all).view() == net(ops),
    ensures
        final(all).wf(),
        final(all).view() == net(ops + flagged(flatten(group_views(groups@)), is_insert)),
{
    let ghost views = group_views(groups@);
    proof {
        assert(views.take(0) =~= Seq::<GroupView>::empty());
        assert(ops + flagged(flatten(views.take(0)), is_insert) =~= ops);
    }
    for group in it: groups
        invariant
            it.seq() == groups@,
            views == group_views(groups@),
            all.wf(),
            all.view() == net(ops + flagged(flatten(views.take(it.index())), is_insert)),
    {
        let ghost g = it.index();
        let (namespace, hashes): (String, Vec<Vec<u8>>) = group;
        let ghost base = ops + flagged(flatten(views.take(g)), is_insert);
        let ghost keys = keys_of(views[g]);
        let ghost raw = hashes@;
        proof {
            assert(views[g] == (namespace@, byte_views(raw)));
            assert(views.take(g + 1).drop_last() =~= views.take(g));
            assert(views.take(g + 1).last() == views[g]);
            assert(base + flagged(keys.take(0), is_insert) =~= base);
            assert(ops + flagged(flatten(views.take(g + 1)), is_insert) =~= base + flagged(
                keys,
                is_insert,
            ));
        }
        for hash in jt: hashes
            invariant
                jt.seq() == raw,
                keys == keys_of((namespace@, byte_views(raw))),
                all.wf(),
                all.view() == net(base + flagged(keys.take(jt.index()), is_insert)),
        {
            let ghost j = jt.index();
            let ghost done = base + flagged(keys.take(j), is_insert);
            let ghost more = base + flagged(keys.take(j + 1), is_insert);
            proof {
                assert(more =~= done.push(((namespace@, hash@), is_insert)));
                assert(more.drop_last() =~= done);
            }
            all.note(BlockKey::new(namespace.clone(), hash), is_insert);
        }
        assert(keys.take(keys.len() as int) =~= keys);
    }
    assert(views.take(views.len() as int) =~= views);
}

/// What a drain of the queue comes to.
#[derive(Debug)]
pub enum Drained {
    /// The client is shut down; whatever else was drained is dropped.
    Shutdown(u64),
    /// Hashes to insert, hashes to remove, and the barriers that wait for them.
    Work {
        inserts: Vec<(String, Vec<Vec<u8>>)>,
        removes: Vec<(String, Vec<Vec<u8>>)>,
        waiters: Vec<u64>,
    },
}

/// The ticket of the first shutdown among commands.
pub open spec fn first_shutdown(cmds: Seq<MetaServerCommand>) -> Option<u64>
    decreases cmds.len(),
{
    if cmds.len() == 0 {
        None
    } else {
        match first_shutdown(cmds.drop_last()) {
            Some(ticket) => Some(ticket),
            None => match cmds.last() {
                MetaServerCommand::Shutdown(ticket) => Some(ticket),
                _ => None,
            },
        }
    }
}

/// A drain ends at the first shutdown among its commands, and only where there is one.
pub proof fn law_the_first_shutdown_counts(cmds: Seq<MetaServerCommand>, i: int, ticket: u64)
    ensures
        0 <= i < cmds.len() && cmds[i] == MetaServerCommand::Shutdown(ticket) && (forall|j: int|
            0 <= j < i ==> !(#[trigger] cmds[j] is Shutdown)) ==> first_shutdown(cmds) == Some(
            ticket,
        ),
        (forall|j: int| 0 <= j < cmds.len() ==> !(#[trigger] cmds[j] is Shutdown))
            ==> first_shutdown(cmds) is None,
    decreases cmds.len(),
{
    if cmds.len() > 0 {
        let front = cmds.drop_last();
        law_the_first_shutdown_counts(front, i, ticket);
        assert(cmds[cmds.len() - 1] == cmds.last());
        assert forall|j: int| 0 <= j < front.len() implies front[j] == #[trigger] cmds[j] by {}
    }
}

proof fn lemma_first_shutdown(cmds: Seq<MetaServerCommand>, n: int)
    requires
        0 <= n <= cmds.len(),
    ensures
        first_shutdown(cmds.take(n)) is Some ==> first_shutdown(cmds) == first_shutdown(
            cmds.take(n),
        ),
    decreases cmds.len() - n,
{
    if n < cmds.len() {
        lemma_first_shutdown(cmds, n + 1);
        assert(cmds.take(n + 1).drop_last() =~= cmds.take(n));
    } else {
        assert(cmds.take(n) =~= cmds);
    }
}

/// Sums up the commands of a drain.
pub fn drain(cmds: Vec<MetaServerCommand>) -> (r: Drained)
    ensures
        match r {
            Drained::Shutdown(ticket) => first_shutdown(cmds@) == Some(ticket),
            Drained::Work { inserts, removes, waiters } => {
                &&& first_shutdown(cmds@) is None
                &&& is_grouping(group_views(inserts@), drained(cmds@, true))
                &&& is_grouping(group_views(removes@), drained(cmds@, false))
                &&& waiters@ == barriers(cmds@)
            },
        },
{
    let mut saw_insert: bool = false;
    let mut saw_remove: bool = false;
    let mut i: usize = 0;
    assert(cmds@.take(0) =~= Seq::<MetaServerCommand>::empty());
    while i < cmds.len()
        invariant
            i <= cmds@.len(),
            first_shutdown(cmds@.take(i as int)) is None,
            saw_insert == exists|k: int| 0 <= k < i && #[trigger] cmds@[k] is Insert,
            saw_remove == exists|k: int| 0 <= k < i && #[trigger] cmds@[k] is Remove,
        decreases cmds@.len() - i,
    {
        proof {
            assert(cmds@.take(i + 1).drop_last() =~= cmds@.take(i as int));
            assert(cmds@.take(i + 1).last() == cmds@[i as int]);
            lemma_first_shutdown(cmds@, i + 1);
        }
        match &cmds[i] {
            MetaServerCommand::Insert(_) => {
                saw_insert = true;
                assert(cmds@[i as int] is Insert);
            },
            MetaServerCommand::Remove(_) => {
                saw_remove = true;
                assert(cmds@[i as int] is Remove);
            },
            MetaServerCommand::Flush(_) => {},
            MetaServerCommand::Shutdown(ticket) => {
                return Drained::Shutdown(*ticket);
            },
        }
        i += 1;
    }
    assert(cmds@.take(i as int) =~= cmds@);
    let is_mixed: bool = saw_insert && saw_remove;
    let mut inserts: Vec<(String, Vec<Vec<u8>>)> = Vec::new();
    let mut removes: Vec<(String, Vec<Vec<u8>>)> = Vec::new();
    let mut waiters: Vec<u64> = Vec::new();
    let mut all: Net = Net::new();
    let ghost list = cmds@;
    proof {
        assert(is_mixed == mixed(list));
        assert(group_views(inserts@) =~= Seq::<GroupView>::empty());
        assert(group_views(removes@) =~= Seq::<GroupView>::empty());
        assert(list.take(0) =~= Seq::<MetaServerCommand>::empty());
    }
    for cmd in it: cmds
        invariant
            it.seq() == list,
            all.wf(),
            is_mixed ==> all.view() == net(ops_of(list.take(it.index()))),
            is_mixed ==> is_grouping(group_views(inserts@), Seq::empty()) && is_grouping(
                group_views(removes@),
                Seq::empty(),
            ),
            !is_mixed ==> is_grouping(
                group_views(inserts@),
                selected(ops_of(list.take(it.index())), true),
            ) && is_grouping(
                group_views(removes@),
                selected(ops_of(list.take(it.index())), false),
            ),
            waiters@ == barriers(list.take(it.index())),
            first_shutdown(list) is None,
    {
        let ghost k = it.index();
        let ghost ops = ops_of(list.take(k));
        proof {
            assert(list.take(k + 1).drop_last() =~= list.take(k));
            assert(list.take(k + 1).last() == list[k]);
        }
        match cmd {
            MetaServerCommand::Insert(batch) => {
                let ghost keys = flatten(batch.view());
                proof {
                    lemma_selected_append(ops, keys, true);
                    assert(command_ops(list[k]) =~= flagged(keys, true));
                }
                if is_mixed {
                    insert_groups_into_net(&mut all, batch.groups, true, Ghost(ops));
                } else {
                    append_groups(&mut inserts, batch.groups, Ghost(selected(ops, true)));
                }
            },
            MetaServerCommand::Remove(batch) => {
                let ghost keys = flatten(batch.view());
                proof {
                    lemma_selected_append(ops, keys, false);
                    assert(command_ops(list[k]) =~= flagged(keys, false));
                }
                if is_mixed {
                    insert_groups_into_net(&mut all, batch.groups, false, Ghost(ops));
                } else {
                    append_groups(&mut removes, batch.groups, Ghost(selected(ops, false)));
                }
            },
            MetaServerCommand::Flush(ticket) => {
                waiters.push(ticket);
                assert(ops + command_ops(list[k]) =~= ops);
            },
            MetaServerCommand::Shutdown(_) => {
                assert(ops + command_ops(list[k]) =~= ops);
            },
        }
    }
    assert(list.take(list.len() as int) =~= list);
    if is_mixed {
        let ghost netted = all.view();
        let mut n: usize = 0;
        assert(netted.take(0) =~= Seq::<(KeyView, bool)>::empty());
        while n < all.order.len()
            invariant
                n <= all.order@.len(),
                all.wf(),
                netted == all.view(),
                is_grouping(group_views(inserts@), selected(netted.take(n as int), true)),
                is_grouping(group_views(removes@), selected(netted.take(n as int), false)),
            decreases all.order@.len() - n,
        {
            let key: &BlockKey = &all.order[n];
            let text: String = object_id(key);
            proof {
                assert(netted.take(n + 1).drop_last() =~= netted.take(n as int));
                assert(netted.take(n + 1).last() == netted[n as int]);
                assert(all.flags@.contains_key(object_text(all.order@[n as int]@)));
            }
            let is_insert: bool = match all.flags.get(text.as_str()) {
                Some(flag) => *flag,
                None => false,
            };
            let copy: BlockKey = key.clone();
            if is_insert {
                add_entry(
                    &mut inserts,
                    &copy.namespace,
                    copy.hash,
                    Ghost(selected(netted.take(n as int), true)),
                );
            } else {
                add_entry(
                    &mut removes,
                    &copy.namespace,
                    copy.hash,
                    Ghost(selected(netted.take(n as int), false)),
                );
            }
            n += 1;
        }
        assert(netted.take(n as int) =~= netted);
    }
    Drained::Work { inserts, removes, waiters }
}

} // verus!
