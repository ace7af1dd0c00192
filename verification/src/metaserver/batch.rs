//! Batches of block hashes, grouped by namespace, and what a drain of the
//! command queue comes to.

use vstd::prelude::*;
use vstd::hash_map::StringHashMap;
use vstd::string::*;
use crate::block::byte_views;
use crate::keyed::{has_key, is_entry, lemma_place, lemma_push, lemma_update, lookup, unique_keys};
use crate::read_cache::KeyView;
use crate::text::same_text;

verus! {

/// A namespace with hashes.
pub type GroupView = (Seq<char>, Seq<Seq<u8>>);

/// Namespaces with hashes.
pub open spec fn group_views(groups: Seq<(String, Vec<Vec<u8>>)>) -> Seq<GroupView> {
    groups.map_values(|g: (String, Vec<Vec<u8>>)| (g.0@, byte_views(g.1@)))
}

/// The keys of a namespace's hashes.
pub open spec fn keys_of(group: GroupView) -> Seq<KeyView> {
    group.1.map_values(|h: Seq<u8>| (group.0, h))
}

/// The keys of all groups, in order.
pub open spec fn flatten(groups: Seq<GroupView>) -> Seq<KeyView>
    decreases groups.len(),
{
    if groups.len() == 0 {
        Seq::empty()
    } else {
        flatten(groups.drop_last()) + keys_of(groups.last())
    }
}

/// The hashes of a namespace among `entries`, in order.
pub open spec fn hashes_in(entries: Seq<KeyView>, namespace: Seq<char>) -> Seq<Seq<u8>>
    decreases entries.len(),
{
    if entries.len() == 0 {
        Seq::empty()
    } else {
        let front = hashes_in(entries.drop_last(), namespace);
        if entries.last().0 == namespace {
            front.push(entries.last().1)
        } else {
            front
        }
    }
}

/// Whether a namespace occurs among `entries`.
pub open spec fn mentions(entries: Seq<KeyView>, namespace: Seq<char>) -> bool {
    exists|i: int| 0 <= i < entries.len() && (#[trigger] entries[i]).0 == namespace
}

/// Whether `groups` are `entries` by namespace: each namespace that occurs has
/// one group, with its hashes in order.
pub open spec fn is_grouping(groups: Seq<GroupView>, entries: Seq<KeyView>) -> bool {
    &&& unique_keys(groups)
    &&& forall|ns: Seq<char>| #[trigger] has_key(groups, ns) <==> mentions(entries, ns)
    &&& forall|i: int|
        0 <= i < groups.len() ==> (#[trigger] groups[i]).1 == hashes_in(entries, groups[i].0)
}

/// How many hashes `groups` hold.
pub open spec fn hash_count(groups: Seq<GroupView>) -> nat
    decreases groups.len(),
{
    if groups.len() == 0 {
        0
    } else {
        hash_count(groups.drop_last()) + groups.last().1.len()
    }
}

/// The keys that a list of namespaces and hashes stands for.
pub open spec fn entry_keys(entries: Seq<(String, Vec<u8>)>) -> Seq<KeyView> {
    entries.map_values(|e: (String, Vec<u8>)| (e.0@, e.1@))
}

proof fn lemma_mentions_push(entries: Seq<KeyView>, e: KeyView)
    ensures
        forall|ns: Seq<char>| #[trigger]
            mentions(entries.push(e), ns) <==> mentions(entries, ns) || ns == e.0,
{
    let more = entries.push(e);
    assert forall|ns: Seq<char>| #[trigger] mentions(more, ns) <==> mentions(entries, ns) || ns
        == e.0 by {
        if mentions(entries, ns) {
            let i = choose|i: int| 0 <= i < entries.len() && (#[trigger] entries[i]).0 == ns;
            assert(more[i].0 == ns);
        }
        if ns == e.0 {
            assert(more[entries.len() as int].0 == ns);
        }
        if mentions(more, ns) && ns != e.0 {
            let i = choose|i: int| 0 <= i < more.len() && (#[trigger] more[i]).0 == ns;
            assert(entries[i].0 == ns);
        }
    }
}

proof fn lemma_no_mention(entries: Seq<KeyView>, ns: Seq<char>)
    requires
        !mentions(entries, ns),
    ensures
        hashes_in(entries, ns) == Seq::<Seq<u8>>::empty(),
    decreases entries.len(),
{
    if entries.len() > 0 {
        let front = entries.drop_last();
        if mentions(front, ns) {
            let i = choose|i: int| 0 <= i < front.len() && (#[trigger] front[i]).0 == ns;
            assert(entries[i].0 == ns);
        }
        lemma_no_mention(front, ns);
        assert(entries[entries.len() - 1].0 != ns);
    }
}

proof fn lemma_hashes_in_push(entries: Seq<KeyView>, e: KeyView, ns: Seq<char>)
    ensures
        hashes_in(entries.push(e), ns) == if e.0 == ns {
            hashes_in(entries, ns).push(e.1)
        } else {
            hashes_in(entries, ns)
        },
{
    assert(entries.push(e).drop_last() =~= entries);
}

fn find_group(groups: &Vec<(String, Vec<Vec<u8>>)>, namespace: &str) -> (r: Option<usize>)
    requires
        unique_keys(group_views(groups@)),
    ensures
        match r {
            Some(i) => i < groups@.len() && groups@[i as int].0@ == namespace@ && has_key(
                group_views(groups@),
                namespace@,
            ),
            None => !has_key(group_views(groups@), namespace@),
        },
{
    let mut i: usize = 0;
    while i < groups.len()
        invariant
            i <= groups@.len(),
            unique_keys(group_views(groups@)),
            forall|k: int| 0 <= k < i ==> !#[trigger] is_entry(group_views(groups@), namespace@, k),
        decreases groups@.len() - i,
    {
        assert(group_views(groups@)[i as int].0 == groups@[i as int].0@);
        if same_text(&groups[i].0, namespace) {
            proof {
                lemma_place(group_views(groups@), namespace@, i as int);
            }
            return Some(i);
        }
        i += 1;
    }
    None
}

/// Adds a hash to the group of its namespace.
pub(crate) fn add_entry(
    groups: &mut Vec<(String, Vec<Vec<u8>>)>,
    namespace: &String,
    hash: Vec<u8>,
    Ghost(entries): Ghost<Seq<KeyView>>,
)
    requires
        is_grouping(group_views(old(groups)@), entries),
    ensures
        is_grouping(group_views(final(groups)@), entries.push((namespace@, hash@))),
{
    let ghost before = group_views(groups@);
    let ghost e = (namespace@, hash@);
    let ghost more = entries.push(e);
    proof {
        lemma_mentions_push(entries, e);
    }
    match find_group(groups, namespace) {
        Some(i) => {
            let ghost added = hash@;
            groups[i].1.push(hash);
            proof {
                let after = group_views(groups@);
                let grown = before[i as int].1.push(added);
                assert(byte_views(groups@[i as int].1@) =~= grown);
                assert(after =~= before.update(i as int, (before[i as int].0, grown)));
                lemma_update(before, i as int, grown);
                assert forall|k: int| 0 <= k < after.len() implies (#[trigger] after[k]).1
                    == hashes_in(more, after[k].0) by {
                    assert(before[k].1 == hashes_in(entries, before[k].0));
                    lemma_hashes_in_push(entries, e, after[k].0);
                    if k != i {
                        assert(before[k].0 != before[i as int].0);
                    }
                }
                assert forall|ns: Seq<char>| #[trigger] has_key(after, ns) <==> mentions(
                    more,
                    ns,
                ) by {
                    assert(has_key(before, ns) <==> mentions(entries, ns));
                    if has_key(after, ns) {
                        let k = crate::keyed::place(after, ns);
                        assert(is_entry(after, ns, k));
                        assert(is_entry(before, ns, k));
                    }
                    if has_key(before, ns) {
                        let k = crate::keyed::place(before, ns);
                        assert(is_entry(before, ns, k));
                        assert(is_entry(after, ns, k));
                    }
                    if ns == e.0 {
                        assert(is_entry(after, ns, i as int));
                    }
                }
            }
        },
        None => {
            let ghost added = hash@;
            let mut hashes: Vec<Vec<u8>> = Vec::new();
            hashes.push(hash);
            groups.push((namespace.clone(), hashes));
            proof {
                let after = group_views(groups@);
                assert(byte_views(hashes@) =~= seq![added]);
                assert(after =~= before.push((namespace@, seq![added])));
                lemma_push(before, namespace@, seq![added]);
                assert(!mentions(entries, namespace@));
                lemma_no_mention(entries, namespace@);
                assert forall|k: int| 0 <= k < after.len() implies (#[trigger] after[k]).1
                    == hashes_in(more, after[k].0) by {
                    lemma_hashes_in_push(entries, e, after[k].0);
                    if k < before.len() {
                        assert(before[k].1 == hashes_in(entries, before[k].0));
                        assert(is_entry(before, before[k].0, k));
                    } else {
                        assert(hashes_in(entries, namespace@).push(added) =~= seq![added]);
                    }
                }
                assert forall|ns: Seq<char>| #[trigger] has_key(after, ns) <==> mentions(
                    more,
                    ns,
                ) by {
                    assert(has_key(before, ns) <==> mentions(entries, ns));
                    if has_key(after, ns) {
                        let k = crate::keyed::place(after, ns);
                        assert(is_entry(after, ns, k));
                        if k < before.len() {
                            assert(is_entry(before, ns, k));
                        }
                    }
                    if has_key(before, ns) {
                        let k = crate::keyed::place(before, ns);
                        assert(is_entry(before, ns, k));
                        assert(is_entry(after, ns, k));
                    }
                    if ns == e.0 {
                        assert(is_entry(after, ns, before.len() as int));
                    }
                }
            }
        },
    }
}

/// A batch of block hashes, grouped by namespace.
#[derive(Debug)]
pub struct BlockHashBatch {
    pub groups: Vec<(String, Vec<Vec<u8>>)>,
}

impl BlockHashBatch {
    /// The groups.
    pub open spec fn view(&self) -> Seq<GroupView> {
        group_views(self.groups@)
    }

    /// Groups hashes by namespace.
    pub fn from_entries(entries: Vec<(String, Vec<u8>)>) -> (r: Self)
        ensures
            is_grouping(r.view(), entry_keys(entries@)),
    {
        let mut groups: Vec<(String, Vec<Vec<u8>>)> = Vec::new();
        let ghost keys = entry_keys(entries@);
        proof {
            assert(group_views(groups@) =~= Seq::<GroupView>::empty());
            assert(keys.take(0) =~= Seq::<KeyView>::empty());
        }
        for entry in it: entries
            invariant
                it.seq() == entries@,
                keys == entry_keys(entries@),
                is_grouping(group_views(groups@), keys.take(it.index())),
        {
            let ghost k = it.index();
            let (namespace, hash): (String, Vec<u8>) = entry;
            assert(keys.take(k + 1) =~= keys.take(k).push((namespace@, hash@)));
            add_entry(&mut groups, &namespace, hash, Ghost(keys.take(k)));
        }
        assert(keys.take(keys.len() as int) =~= keys);
        BlockHashBatch { groups }
    }

    /// The hashes of one namespace.
    pub fn single_namespace(namespace: String, hashes: Vec<Vec<u8>>) -> (r: Self)
        ensures
            r.view() == seq![(namespace@, byte_views(hashes@))],
    {
        let mut groups: Vec<(String, Vec<Vec<u8>>)> = Vec::new();
        groups.push((namespace, hashes));
        assert(group_views(groups@) =~= seq![(namespace@, byte_views(hashes@))]);
        BlockHashBatch { groups }
    }

    /// How many hashes the batch holds.
    pub fn count(&self) -> (r: usize)
        requires
            hash_count(self.view()) <= usize::MAX,
        ensures
            r == hash_count(self.view()),
    {
        total_hashes(&self.groups)
    }
}

proof fn lemma_hash_count_grows(groups: Seq<GroupView>, n: int)
    requires
        0 <= n <= groups.len(),
    ensures
        hash_count(groups.take(n)) <= hash_count(groups),
    decreases groups.len() - n,
{
    if n < groups.len() {
        lemma_hash_count_grows(groups, n + 1);
        assert(groups.take(n + 1).drop_last() =~= groups.take(n));
    } else {
        assert(groups.take(n) =~= groups);
    }
}

/// How many hashes groups hold.
pub fn total_hashes(groups: &Vec<(String, Vec<Vec<u8>>)>) -> (r: usize)
    requires
        hash_count(group_views(groups@)) <= usize::MAX,
    ensures
        r == hash_count(group_views(groups@)),
{
    let ghost views = group_views(groups@);
    let mut total: usize = 0;
    let mut i: usize = 0;
    assert(views.take(0) =~= Seq::<GroupView>::empty());
    while i < groups.len()
        invariant
            i <= groups@.len(),
            views == group_views(groups@),
            hash_count(views) <= usize::MAX,
            total == hash_count(views.take(i as int)),
        decreases groups@.len() - i,
    {
        proof {
            lemma_hash_count_grows(views, i + 1);
            assert(views.take(i + 1).drop_last() =~= views.take(i as int));
            assert(views.take(i + 1).last() == views[i as int]);
        }
        total = total + groups[i].1.len();
        i += 1;
    }
    assert(views.take(i as int) =~= views);
    total
}

/// Something to do for the metadata server. A barrier and a shutdown carry the
/// ticket by which the caller finds the task that waits for them.
#[derive(Debug)]
pub enum MetaServerCommand {
    Insert(BlockHashBatch),
    Remove(BlockHashBatch),
    Flush(u64),
    Shutdown(u64),
}

/// The insertions and removals of a command, in order; true is an insertion.
pub open spec fn command_ops(cmd: MetaServerCommand) -> Seq<(KeyView, bool)> {
    match cmd {
        MetaServerCommand::Insert(b) => flatten(b.view()).map_values(|k: KeyView| (k, true)),
        MetaServerCommand::Remove(b) => flatten(b.view()).map_values(|k: KeyView| (k, false)),
        _ => Seq::empty(),
    }
}

/// The insertions and removals of commands, in order.
pub open spec fn ops_of(cmds: Seq<MetaServerCommand>) -> Seq<(KeyView, bool)>
    decreases cmds.len(),
{
    if cmds.len() == 0 {
        Seq::empty()
    } else {
        ops_of(cmds.drop_last()) + command_ops(cmds.last())
    }
}

/// Whether there are both commands to insert and commands to remove.
pub open spec fn mixed(cmds: Seq<MetaServerCommand>) -> bool {
    (exists|i: int| 0 <= i < cmds.len() && #[trigger] cmds[i] is Insert) && (exists|j: int|
        0 <= j < cmds.len() && #[trigger] cmds[j] is Remove)
}

/// What is left of insertions and removals where the last one of a key counts:
/// each key once, in the order of the first, with the last.
pub open spec fn net(ops: Seq<(KeyView, bool)>) -> Seq<(KeyView, bool)>
    decreases ops.len(),
{
    if ops.len() == 0 {
        Seq::empty()
    } else {
        let front = net(ops.drop_last());
        let (key, insert) = ops.last();
        if has_key(front, key) {
            front.update(crate::keyed::place(front, key), (key, insert))
        } else {
            front.push((key, insert))
        }
    }
}

/// The keys that are inserted, or those that are removed.
pub open spec fn selected(ops: Seq<(KeyView, bool)>, insert: bool) -> Seq<KeyView>
    decreases ops.len(),
{
    if ops.len() == 0 {
        Seq::empty()
    } else {
        let front = selected(ops.drop_last(), insert);
        if ops.last().1 == insert {
            front.push(ops.last().0)
        } else {
            front
        }
    }
}

/// The keys that a drain of `cmds` inserts or removes. Commands of one kind are
/// taken as they are; of mixed ones the last one of a key counts.
pub open spec fn drained(cmds: Seq<MetaServerCommand>, insert: bool) -> Seq<KeyView> {
    if mixed(cmds) {
        selected(net(ops_of(cmds)), insert)
    } else {
        selected(ops_of(cmds), insert)
    }
}

/// The tickets of the barriers among commands.
pub open spec fn barriers(cmds: Seq<MetaServerCommand>) -> Seq<u64>
    decreases cmds.len(),
{
    if cmds.len() == 0 {
        Seq::empty()
    } else {
        let front = barriers(cmds.drop_last());
        match cmds.last() {
            MetaServerCommand::Flush(ticket) => front.push(ticket),
            _ => front,
        }
    }
}

/// No key is netted twice, and a key is netted with its last operation.
pub proof fn lemma_net(ops: Seq<(KeyView, bool)>)
    ensures
        unique_keys(net(ops)),
    decreases ops.len(),
{
    if ops.len() > 0 {
        let front = net(ops.drop_last());
        let (key, insert) = ops.last();
        lemma_net(ops.drop_last());
        if has_key(front, key) {
            let i = crate::keyed::place(front, key);
            assert(is_entry(front, key, i));
            lemma_update(front, i, insert);
        } else {
            lemma_push(front, key, insert);
        }
    }
}

/// Whether operation `i` is the last one of `key`.
pub open spec fn is_last_op(ops: Seq<(KeyView, bool)>, key: KeyView, i: int) -> bool {
    0 <= i < ops.len() && ops[i].0 == key && forall|j: int|
        i < j < ops.len() ==> (#[trigger] ops[j]).0 != key
}

/// The last write wins: what is left for a key is its last operation, and there
/// is something left for every key that has one.
pub proof fn law_last_write_wins(ops: Seq<(KeyView, bool)>, key: KeyView, i: int)
    requires
        is_last_op(ops, key, i),
    ensures
        lookup(net(ops), key) == Some(ops[i].1),
    decreases ops.len(),
{
    let front = net(ops.drop_last());
    let (last_key, insert) = ops.last();
    lemma_net(ops);
    lemma_net(ops.drop_last());
    let all = net(ops);
    if i == ops.len() - 1 {
        if has_key(front, key) {
            let p = crate::keyed::place(front, key);
            assert(is_entry(front, key, p));
            lemma_place(all, key, p);
        } else {
            lemma_place(all, key, front.len() as int);
        }
    } else {
        assert(ops[ops.len() - 1].0 != key);
        assert(is_last_op(ops.drop_last(), key, i)) by {
            assert forall|j: int| i < j < ops.drop_last().len() implies (#[trigger]
            ops.drop_last()[j]).0 != key by {
                assert(ops[j].0 != key);
            }
        }
        law_last_write_wins(ops.drop_last(), key, i);
        let p = crate::keyed::place(front, key);
        assert(has_key(front, key));
        assert(is_entry(front, key, p));
        if has_key(front, last_key) {
            let q = crate::keyed::place(front, last_key);
            assert(is_entry(front, last_key, q));
            assert(q != p);
        }
        lemma_place(all, key, p);
        lemma_place(front, key, p);
    }
}

/// Nothing is left for a key that no operation names.
pub proof fn law_net_invents_nothing(ops: Seq<(KeyView, bool)>, key: KeyView)
    requires
        has_key(net(ops), key),
    ensures
        exists|i: int| 0 <= i < ops.len() && (#[trigger] ops[i]).0 == key,
    decreases ops.len(),
{
    if ops.len() > 0 {
        let front = net(ops.drop_last());
        let (last_key, insert) = ops.last();
        if key == last_key {
            assert(ops[ops.len() - 1].0 == key);
        } else {
            let all = net(ops);
            let p = crate::keyed::place(all, key);
            assert(is_entry(all, key, p));
            if has_key(front, last_key) {
                let q = crate::keyed::place(front, last_key);
                assert(is_entry(front, last_key, q));
                assert(is_entry(front, key, p));
            } else {
                assert(is_entry(front, key, p));
            }
            law_net_invents_nothing(ops.drop_last(), key);
            let i = choose|i: int|
                0 <= i < ops.drop_last().len() && (#[trigger] ops.drop_last()[i]).0 == key;
            assert(ops[i].0 == key);
        }
    }
}

/// The hashes of some groups are those of the groups one after the other, each under the namespace
/// of its group; all of them count.
pub proof fn law_groups_are_taken_in_turn(a: Seq<GroupView>, b: Seq<GroupView>, g: GroupView)
    ensures
        flatten(a + b) == flatten(a) + flatten(b),
        flatten(seq![g]) == Seq::new(g.1.len(), |x: int| (g.0, g.1[x])),
        hash_count(a) == flatten(a).len(),
        hash_count(a + b) == hash_count(a) + hash_count(b),
    decreases b.len(),
{
    lemma_count_is_len(a);
    lemma_count_is_len(b);
    lemma_count_is_len(a + b);
    reveal_with_fuel(flatten, 2);
    assert(seq![g].drop_last() =~= Seq::<GroupView>::empty());
    assert(flatten(seq![g]) =~= Seq::new(g.1.len(), |x: int| (g.0, g.1[x])));
    if b.len() == 0 {
        assert(a + b =~= a);
        assert(flatten(a) + flatten(b) =~= flatten(a));
    } else {
        assert((a + b).drop_last() =~= a + b.drop_last());
        law_groups_are_taken_in_turn(a, b.drop_last(), g);
        assert(flatten(a) + (flatten(b.drop_last()) + keys_of(b.last())) =~= (flatten(a) + flatten(
            b.drop_last(),
        )) + keys_of(b.last()));
    }
}

proof fn lemma_count_is_len(groups: Seq<GroupView>)
    ensures
        hash_count(groups) == flatten(groups).len(),
    decreases groups.len(),
{
    if groups.len() > 0 {
        lemma_count_is_len(groups.drop_last());
    }
}

/// What some commands come to is what each of them comes to in turn: an insertion inserts all the
/// hashes of its batch, a removal removes them, and a barrier is waited for; nothing is left out.
pub proof fn law_commands_are_taken_in_turn(
    a: Seq<MetaServerCommand>,
    b: Seq<MetaServerCommand>,
    cmd: MetaServerCommand,
)
    ensures
        ops_of(a + b) == ops_of(a) + ops_of(b),
        barriers(a + b) == barriers(a) + barriers(b),
        match cmd {
            MetaServerCommand::Insert(batch) => {
                &&& ops_of(seq![cmd]) == Seq::new(
                    flatten(batch.view()).len(),
                    |i: int| (flatten(batch.view())[i], true),
                )
                &&& barriers(seq![cmd]) == Seq::<u64>::empty()
            },
            MetaServerCommand::Remove(batch) => {
                &&& ops_of(seq![cmd]) == Seq::new(
                    flatten(batch.view()).len(),
                    |i: int| (flatten(batch.view())[i], false),
                )
                &&& barriers(seq![cmd]) == Seq::<u64>::empty()
            },
            MetaServerCommand::Flush(ticket) => {
                &&& ops_of(seq![cmd]) == Seq::<(KeyView, bool)>::empty()
                &&& barriers(seq![cmd]) == seq![ticket]
            },
            MetaServerCommand::Shutdown(_) => {
                &&& ops_of(seq![cmd]) == Seq::<(KeyView, bool)>::empty()
                &&& barriers(seq![cmd]) == Seq::<u64>::empty()
            },
        },
    decreases b.len(),
{
    reveal_with_fuel(ops_of, 2);
    reveal_with_fuel(barriers, 2);
    let one = seq![cmd];
    assert(one.drop_last() =~= Seq::<MetaServerCommand>::empty());
    match cmd {
        MetaServerCommand::Insert(batch) => {
            assert(ops_of(one) =~= Seq::new(
                flatten(batch.view()).len(),
                |i: int| (flatten(batch.view())[i], true),
            ));
        },
        MetaServerCommand::Remove(batch) => {
            assert(ops_of(one) =~= Seq::new(
                flatten(batch.view()).len(),
                |i: int| (flatten(batch.view())[i], false),
            ));
        },
        MetaServerCommand::Flush(ticket) => {
            assert(barriers(one) =~= seq![ticket]);
        },
        _ => {},
    }
    if b.len() == 0 {
        assert(a + b =~= a);
        assert(ops_of(a) + ops_of(b) =~= ops_of(a));
        assert(barriers(a) + barriers(b) =~= barriers(a));
    } else {
        assert((a + b).drop_last() =~= a + b.drop_last());
        assert((a + b).last() == b.last());
        law_commands_are_taken_in_turn(a, b.drop_last(), cmd);
        assert(ops_of(a) + ops_of(b) =~= (ops_of(a) + ops_of(b.drop_last())) + command_ops(
            b.last(),
        ));
        assert(barriers(a + b) =~= barriers(a) + barriers(b));
    }
}

/// The operations of one kind are selected in order, with their keys; a namespace has the hashes
/// of its entries, in order.
pub proof fn law_selection_keeps_order(
    ops: Seq<(KeyView, bool)>,
    insert: bool,
    entries: Seq<KeyView>,
    namespace: Seq<char>,
)
    ensures
        selected(ops, insert) == ops.filter(|o: (KeyView, bool)| o.1 == insert).map_values(
            |o: (KeyView, bool)| o.0,
        ),
        hashes_in(entries, namespace) == entries.filter(
            |e: KeyView| e.0 == namespace,
        ).map_values(|e: KeyView| e.1),
    decreases ops.len() + entries.len(),
{
    reveal(Seq::filter);
    let kind = |o: (KeyView, bool)| o.1 == insert;
    let key = |o: (KeyView, bool)| o.0;
    let own = |e: KeyView| e.0 == namespace;
    let hash = |e: KeyView| e.1;
    if ops.len() > 0 {
        law_selection_keeps_order(ops.drop_last(), insert, entries, namespace);
        assert(selected(ops, insert) =~= ops.filter(kind).map_values(key));
    } else if entries.len() > 0 {
        law_selection_keeps_order(ops, insert, entries.drop_last(), namespace);
        assert(selected(ops, insert) =~= ops.filter(kind).map_values(key));
        assert(hashes_in(entries, namespace) =~= entries.filter(own).map_values(hash));
    } else {
        assert(selected(ops, insert) =~= ops.filter(kind).map_values(key));
        assert(hashes_in(entries, namespace) =~= entries.filter(own).map_values(hash));
    }
}

proof fn lemma_ops_of_a_kind(cmds: Seq<MetaServerCommand>, kind: bool, i: int)
    requires
        forall|k: int|
            0 <= k < cmds.len() ==> if kind {
                !(#[trigger] cmds[k] is Remove)
            } else {
                !(cmds[k] is Insert)
            },
        0 <= i < ops_of(cmds).len(),
    ensures
        ops_of(cmds)[i].1 == kind,
    decreases cmds.len(),
{
    let front = cmds.drop_last();
    assert forall|k: int| 0 <= k < front.len() implies if kind {
        !(#[trigger] front[k] is Remove)
    } else {
        !(front[k] is Insert)
    } by {
        assert(front[k] == cmds[k]);
    }
    assert(cmds[cmds.len() - 1] == cmds.last());
    if i < ops_of(front).len() {
        lemma_ops_of_a_kind(front, kind, i);
    }
}

proof fn lemma_selected_has(ops: Seq<(KeyView, bool)>, insert: bool, key: KeyView)
    ensures
        selected(ops, insert).contains(key) <==> exists|i: int|
            0 <= i < ops.len() && #[trigger] ops[i] == (key, insert),
    decreases ops.len(),
{
    if ops.len() > 0 {
        let front = ops.drop_last();
        lemma_selected_has(front, insert, key);
        let all = selected(ops, insert);
        let rest = selected(front, insert);
        if all.contains(key) {
            let p = all.index_of(key);
            if p < rest.len() {
                assert(rest[p] == key);
                let i = choose|i: int| 0 <= i < front.len() && #[trigger] front[i] == (key, insert);
                assert(ops[i] == (key, insert));
            } else {
                assert(ops[ops.len() - 1] == (key, insert));
            }
        }
        if exists|i: int| 0 <= i < ops.len() && #[trigger] ops[i] == (key, insert) {
            let i = choose|i: int| 0 <= i < ops.len() && #[trigger] ops[i] == (key, insert);
            if i < front.len() {
                assert(front[i] == (key, insert));
                let p = rest.index_of(key);
                assert(all[p] == key);
            } else {
                assert(all[all.len() - 1] == key);
            }
        }
    }
}

/// The last word on a key is what reaches the server: a key is inserted exactly if its last
/// operation inserts it, and removed exactly if that removes it. So no key is both, and a key
/// that no operation names is neither.
pub proof fn law_the_last_word_is_drained(cmds: Seq<MetaServerCommand>, key: KeyView, insert: bool)
    ensures
        drained(cmds, insert).contains(key) <==> exists|i: int|
            is_last_op(ops_of(cmds), key, i) && #[trigger] ops_of(cmds)[i] == (key, insert),
{
    let ops = ops_of(cmds);
    if mixed(cmds) {
        let all = net(ops);
        lemma_net(ops);
        lemma_selected_has(all, insert, key);
        if drained(cmds, insert).contains(key) {
            let p = choose|p: int| 0 <= p < all.len() && #[trigger] all[p] == (key, insert);
            assert(is_entry(all, key, p));
            lemma_place(all, key, p);
            law_net_invents_nothing(ops, key);
            let o = choose|o: int| 0 <= o < ops.len() && (#[trigger] ops[o]).0 == key;
            let i = lemma_last_of(ops, key, o, ops.len() as int);
            law_last_write_wins(ops, key, i);
            assert(ops[i] == (key, insert));
        }
        if exists|i: int| is_last_op(ops, key, i) && #[trigger] ops[i] == (key, insert) {
            let i = choose|i: int| is_last_op(ops, key, i) && #[trigger] ops[i] == (key, insert);
            law_last_write_wins(ops, key, i);
            let p = crate::keyed::place(all, key);
            assert(is_entry(all, key, p));
            assert(all[p] == (key, insert));
        }
    } else {
        lemma_selected_has(ops, insert, key);
        if drained(cmds, insert).contains(key) {
            let o = choose|o: int| 0 <= o < ops.len() && #[trigger] ops[o] == (key, insert);
            let i = lemma_last_of(ops, key, o, ops.len() as int);
            if exists|k: int| 0 <= k < cmds.len() && #[trigger] cmds[k] is Insert {
                assert forall|k: int| 0 <= k < cmds.len() implies !(#[trigger] cmds[k] is Remove) by {
                }
                lemma_ops_of_a_kind(cmds, true, i);
                lemma_ops_of_a_kind(cmds, true, o);
            } else {
                assert forall|k: int| 0 <= k < cmds.len() implies if false {
                    !(#[trigger] cmds[k] is Remove)
                } else {
                    !(cmds[k] is Insert)
                } by {}
                lemma_ops_of_a_kind(cmds, false, i);
                lemma_ops_of_a_kind(cmds, false, o);
            }
            assert(ops[i] == (key, insert));
        }
    }
}

proof fn lemma_last_of(ops: Seq<(KeyView, bool)>, key: KeyView, o: int, n: int) -> (i: int)
    requires
        0 <= o < n <= ops.len(),
        ops[o].0 == key,
        forall|j: int| n <= j < ops.len() ==> (#[trigger] ops[j]).0 != key,
    ensures
        o <= i < n,
        is_last_op(ops, key, i),
    decreases n,
{
    if ops[n - 1].0 == key {
        n - 1
    } else {
        lemma_last_of(ops, key, o, n - 1)
    }
}

/// Groups of hashes and entries are shown whole and in order.
pub proof fn law_hashes_are_shown_whole(
    groups: Seq<(String, Vec<Vec<u8>>)>,
    entries: Seq<(String, Vec<u8>)>,
    i: int,
)
    ensures
        group_views(groups).len() == groups.len(),
        0 <= i < groups.len() ==> group_views(groups)[i].0 == groups[i].0@ && group_views(
            groups,
        )[i].1 == Seq::new(groups[i].1@.len(), |k: int| groups[i].1@[k]@),
        entry_keys(entries).len() == entries.len(),
        0 <= i < entries.len() ==> entry_keys(entries)[i] == (entries[i].0@, entries[i].1@),
{
    if 0 <= i < groups.len() {
        assert(byte_views(groups[i].1@) =~= Seq::new(
            groups[i].1@.len(),
            |k: int| groups[i].1@[k]@,
        ));
    }
}

/// Grouping leaves nothing out and adds nothing: every entry is in the one group of its namespace,
/// and every hash of a group is that of an entry.
pub proof fn law_groups_hold_every_entry(
    groups: Seq<GroupView>,
    entries: Seq<KeyView>,
    e: int,
    g: int,
    x: int,
)
    requires
        is_grouping(groups, entries),
    ensures
        0 <= e < entries.len() ==> exists|p: int|
            0 <= p < groups.len() && (#[trigger] groups[p]).0 == entries[e].0
                && groups[p].1.contains(entries[e].1),
        0 <= g < groups.len() && 0 <= x < groups[g].1.len() ==> entries.contains(
            (groups[g].0, groups[g].1[x]),
        ),
        forall|p: int, q: int|
            0 <= p < q < groups.len() ==> (#[trigger] groups[p]).0 != (#[trigger] groups[q]).0,
        0 <= g < groups.len() ==> groups[g].1 == hashes_in(entries, groups[g].0),
{
    if 0 <= e < entries.len() {
        let ns = entries[e].0;
        assert(mentions(entries, ns));
        assert(has_key(groups, ns));
        let p = crate::keyed::place(groups, ns);
        assert(is_entry(groups, ns, p));
        lemma_in_its_group(entries, e);
        assert(groups[p].1 == hashes_in(entries, groups[p].0));
    }
    if 0 <= g < groups.len() {
        assert(groups[g].1 == hashes_in(entries, groups[g].0));
        if 0 <= x < groups[g].1.len() {
            lemma_from_an_entry(entries, groups[g].0, x);
        }
    }
}

proof fn lemma_in_its_group(entries: Seq<KeyView>, e: int)
    requires
        0 <= e < entries.len(),
    ensures
        hashes_in(entries, entries[e].0).contains(entries[e].1),
    decreases entries.len(),
{
    let front = entries.drop_last();
    let all = hashes_in(entries, entries[e].0);
    if e < front.len() {
        lemma_in_its_group(front, e);
        let rest = hashes_in(front, entries[e].0);
        let k = rest.index_of(entries[e].1);
        assert(all[k] == entries[e].1);
    } else {
        assert(all[all.len() - 1] == entries[e].1);
    }
}

proof fn lemma_from_an_entry(entries: Seq<KeyView>, namespace: Seq<char>, x: int)
    requires
        0 <= x < hashes_in(entries, namespace).len(),
    ensures
        entries.contains((namespace, hashes_in(entries, namespace)[x])),
    decreases entries.len(),
{
    let front = entries.drop_last();
    let rest = hashes_in(front, namespace);
    if x < rest.len() {
        lemma_from_an_entry(front, namespace, x);
        let k = front.index_of((namespace, rest[x]));
        assert(entries[k] == (namespace, rest[x]));
    } else {
        assert(entries[entries.len() - 1] == (namespace, hashes_in(entries, namespace)[x]));
    }
}

} // verus!
