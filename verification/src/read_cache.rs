//! The cache of sealed blocks, in the order of their last use.

use std::sync::Arc;
use vstd::prelude::*;
use crate::block::{BlockKey, SealedBlock};
use crate::keyed::{has_key, is_entry, lemma_place, lemma_push, lookup, place, unique_keys};
use crate::shared::share;

verus! {

/// What a block is found by in a specification.
pub type KeyView = (Seq<char>, Seq<u8>);

/// A cached block with its key.
pub type EntryView = (KeyView, Arc<SealedBlock>);

/// The keys of a list.
pub open spec fn key_views(keys: Seq<BlockKey>) -> Seq<KeyView> {
    keys.map_values(|k: BlockKey| k@)
}

/// A list of keys and blocks.
pub open spec fn entry_views(entries: Seq<(BlockKey, Arc<SealedBlock>)>) -> Seq<EntryView> {
    entries.map_values(|e: (BlockKey, Arc<SealedBlock>)| (e.0@, e.1))
}

/// The cache after `key` was used: its entry, if any, is the last one.
pub open spec fn touch(s: Seq<EntryView>, key: KeyView) -> Seq<EntryView> {
    if has_key(s, key) {
        s.remove(place(s, key)).push(s[place(s, key)])
    } else {
        s
    }
}

/// The cache after `keys` were used in turn.
pub open spec fn touch_all(s: Seq<EntryView>, keys: Seq<KeyView>) -> Seq<EntryView>
    decreases keys.len(),
{
    if keys.len() == 0 {
        s
    } else {
        touch(touch_all(s, keys.drop_last()), keys.last())
    }
}

/// How many of `keys` are cached before the first that is not.
pub open spec fn prefix_len(s: Seq<EntryView>, keys: Seq<KeyView>) -> nat
    decreases keys.len(),
{
    if keys.len() == 0 || !has_key(s, keys[0]) {
        0
    } else {
        prefix_len(s, keys.drop_first()) + 1
    }
}

/// Those of `keys` that are cached, with their blocks.
pub open spec fn found(s: Seq<EntryView>, keys: Seq<KeyView>) -> Seq<EntryView>
    decreases keys.len(),
{
    if keys.len() == 0 {
        Seq::empty()
    } else {
        let front = found(s, keys.drop_last());
        match lookup(s, keys.last()) {
            Some(block) => front.push((keys.last(), block)),
            None => front,
        }
    }
}

/// The cache after a block that was let in was inserted: a key that is cached
/// keeps its block.
pub open spec fn insert_entry(s: Seq<EntryView>, e: EntryView) -> Seq<EntryView> {
    if has_key(s, e.0) {
        s
    } else {
        s.push(e)
    }
}

/// Whether the `k`th of some blocks is let in: it is not where there is an admission policy
/// that decided against it.
pub open spec fn lets_in(policy: bool, admitted: Seq<bool>, k: int) -> bool {
    !policy || k >= admitted.len() || admitted[k]
}

/// The cache after `entries` were inserted in turn, as far as they are let in.
pub open spec fn insert_all(
    s: Seq<EntryView>,
    entries: Seq<EntryView>,
    policy: bool,
    admitted: Seq<bool>,
) -> Seq<EntryView>
    decreases entries.len(),
{
    if entries.len() == 0 {
        s
    } else {
        let front = insert_all(s, entries.drop_last(), policy, admitted);
        if lets_in(policy, admitted, entries.len() - 1) {
            insert_entry(front, entries.last())
        } else {
            front
        }
    }
}

/// What inserting the `k`th of `entries` comes to.
pub open spec fn insert_outcome(
    s: Seq<EntryView>,
    entries: Seq<EntryView>,
    policy: bool,
    admitted: Seq<bool>,
    k: int,
) -> CacheInsertOutcome {
    if has_key(insert_all(s, entries.take(k), policy, admitted), entries[k].0) {
        CacheInsertOutcome::AlreadyExists
    } else if lets_in(policy, admitted, k) {
        CacheInsertOutcome::InsertedNew
    } else {
        CacheInsertOutcome::Rejected
    }
}

/// Using a key changes neither what is cached nor that keys are unique.
pub proof fn lemma_touch(s: Seq<EntryView>, key: KeyView)
    requires
        unique_keys(s),
    ensures
        unique_keys(touch(s, key)),
        touch(s, key).len() == s.len(),
        forall|k: KeyView| #[trigger] has_key(touch(s, key), k) <==> has_key(s, k),
        forall|k: KeyView| #[trigger] lookup(touch(s, key), k) == lookup(s, k),
{
    let t = touch(s, key);
    if has_key(s, key) {
        let p = place(s, key);
        assert(is_entry(s, key, p));
        assert forall|i: int| 0 <= i < t.len() implies #[trigger] t[i] == s[if i < p {
            i
        } else if i < s.len() - 1 {
            i + 1
        } else {
            p
        }] by {}
        assert forall|k: KeyView| #[trigger] has_key(t, k) <==> has_key(s, k) by {
            if has_key(t, k) {
                let i = place(t, k);
                assert(is_entry(t, k, i));
                let j = if i < p {
                    i
                } else if i < s.len() - 1 {
                    i + 1
                } else {
                    p
                };
                assert(is_entry(s, k, j));
            }
            if has_key(s, k) {
                let j = place(s, k);
                assert(is_entry(s, k, j));
                let i = if j < p {
                    j
                } else if j > p {
                    j - 1
                } else {
                    s.len() - 1
                };
                assert(is_entry(t, k, i));
            }
        }
        assert forall|k: KeyView| #[trigger] lookup(t, k) == lookup(s, k) by {
            assert(has_key(t, k) <==> has_key(s, k));
            if has_key(t, k) {
                assert(is_entry(t, k, place(t, k)));
                assert(is_entry(s, k, place(s, k)));
            }
        }
    }
}

/// Using keys changes neither what is cached nor that keys are unique.
pub proof fn lemma_touch_all(s: Seq<EntryView>, keys: Seq<KeyView>)
    requires
        unique_keys(s),
    ensures
        unique_keys(touch_all(s, keys)),
        touch_all(s, keys).len() == s.len(),
        forall|k: KeyView| #[trigger] has_key(touch_all(s, keys), k) <==> has_key(s, k),
        forall|k: KeyView| #[trigger] lookup(touch_all(s, keys), k) == lookup(s, k),
    decreases keys.len(),
{
    if keys.len() > 0 {
        lemma_touch_all(s, keys.drop_last());
        lemma_touch(touch_all(s, keys.drop_last()), keys.last());
        let t = touch_all(s, keys.drop_last());
        assert forall|k: KeyView| #[trigger] has_key(touch_all(s, keys), k) <==> has_key(s, k) by {
            assert(has_key(touch(t, keys.last()), k) <==> has_key(t, k));
        }
        assert forall|k: KeyView| #[trigger] lookup(touch_all(s, keys), k) == lookup(s, k) by {
            assert(lookup(touch(t, keys.last()), k) == lookup(t, k));
        }
    }
}

proof fn lemma_prefix_len(s: Seq<EntryView>, keys: Seq<KeyView>, n: int)
    requires
        0 <= n <= keys.len(),
        forall|i: int| 0 <= i < n ==> has_key(s, #[trigger] keys[i]),
        n < keys.len() ==> !has_key(s, keys[n]),
    ensures
        prefix_len(s, keys) == n,
    decreases n,
{
    if n > 0 {
        assert(has_key(s, keys[0]));
        let rest = keys.drop_first();
        assert forall|i: int| 0 <= i < n - 1 implies has_key(s, #[trigger] rest[i]) by {
            assert(rest[i] == keys[i + 1]);
        }
        lemma_prefix_len(s, rest, n - 1);
    }
}

/// What inserting a block came to.
#[derive(Clone, Copy, Debug, PartialEq, Eq, Structural)]
pub enum CacheInsertOutcome {
    InsertedNew,
    AlreadyExists,
    /// The admission policy kept the block out.
    Rejected,
}

/// The cached blocks, the least recently used one first.
#[derive(Debug)]
pub struct ReadCache {
    entries: Vec<(BlockKey, Arc<SealedBlock>)>,
    lfu_admission: bool,
}

impl ReadCache {
    /// The cached blocks, the least recently used one first.
    pub closed spec fn entries(self) -> Seq<EntryView> {
        entry_views(self.entries@)
    }

    /// Whether there is an admission policy.
    pub closed spec fn policy(self) -> bool {
        self.lfu_admission
    }

    /// No key is cached twice.
    pub open spec fn wf(self) -> bool {
        unique_keys(self.entries())
    }

    /// A cache without blocks, with an admission policy or without.
    pub fn new(enable_lfu_admission: bool) -> (r: Self)
        ensures
            r.wf(),
            r.entries() == Seq::<EntryView>::empty(),
            r.policy() == enable_lfu_admission,
    {
        let r: ReadCache = ReadCache {
            entries: Vec::new(),
            lfu_admission: enable_lfu_admission,
        };
        assert(r.entries() =~= Seq::<EntryView>::empty());
        r
    }

    /// How many blocks are cached.
    pub fn len(&self) -> (r: usize)
        ensures
            r == self.entries().len(),
    {
        self.entries.len()
    }

    fn find(&self, key: &BlockKey) -> (r: Option<usize>)
        requires
            self.wf(),
        ensures
            match r {
                Some(i) => {
                    &&& i < self.entries@.len()
                    &&& has_key(self.entries(), key@)
                    &&& place(self.entries(), key@) == i
                    &&& lookup(self.entries(), key@) == Some(self.entries@[i as int].1)
                },
                None => !has_key(self.entries(), key@),
            },
    {
        let mut i: usize = 0;
        while i < self.entries.len()
            invariant
                self.wf(),
                i <= self.entries@.len(),
                forall|k: int| 0 <= k < i ==> !#[trigger] is_entry(self.entries(), key@, k),
            decreases self.entries@.len() - i,
        {
            assert(self.entries()[i as int].0 == self.entries@[i as int].0@);
            if self.entries[i].0.same(key) {
                proof {
                    lemma_place(self.entries(), key@, i as int);
                }
                return Some(i);
            }
            i += 1;
        }
        None
    }

    /// Whether each of `keys` is cached. This is no use of them.
    pub fn contains_keys(&self, keys: &[BlockKey]) -> (r: Vec<bool>)
        requires
            self.wf(),
        ensures
            r@ == key_views(keys@).map_values(|k: KeyView| has_key(self.entries(), k)),
    {
        let mut out: Vec<bool> = Vec::new();
        let mut i: usize = 0;
        while i < keys.len()
            invariant
                self.wf(),
                i <= keys@.len(),
                out@ == key_views(keys@).take(i as int).map_values(
                    |k: KeyView| has_key(self.entries(), k),
                ),
            decreases keys@.len() - i,
        {
            let hit: bool = self.find(&keys[i]).is_some();
            out.push(hit);
            i += 1;
            assert(out@ =~= key_views(keys@).take(i as int).map_values(
                |k: KeyView| has_key(self.entries(), k),
            ));
        }
        assert(key_views(keys@).take(i as int) =~= key_views(keys@));
        out
    }

    /// Whether `key` is cached. This is no use of it.
    pub fn contains_key(&self, key: &BlockKey) -> (r: bool)
        requires
            self.wf(),
        ensures
            r == has_key(self.entries(), key@),
    {
        self.find(key).is_some()
    }

    /// The block of `key`, which is used by this.
    pub fn get(&mut self, key: &BlockKey) -> (r: Option<Arc<SealedBlock>>)
        requires
            old(self).wf(),
        ensures
            final(self).wf(),
            final(self).policy() == old(self).policy(),
            r == lookup(old(self).entries(), key@),
            final(self).entries() == touch(old(self).entries(), key@),
            forall|p: int|
                0 <= p < old(self).entries().len() && (#[trigger] old(self).entries()[p]).0 == key@
                    ==> r == Some(old(self).entries()[p].1) && final(self).entries() == old(
                    self,
                ).entries().remove(p).push(old(self).entries()[p]),
            r is None ==> final(self).entries() == old(self).entries() && forall|p: int|
                0 <= p < old(self).entries().len() ==> (#[trigger] old(self).entries()[p]).0 != key@,
    {
        proof {
            let s = self.entries();
            assert forall|p: int| 0 <= p < s.len() && (#[trigger] s[p]).0 == key@ implies lookup(
                s,
                key@,
            ) == Some(s[p].1) && touch(s, key@) == s.remove(p).push(s[p]) by {
                law_used_block_goes_last(s, key@, p);
            }
        }
        match self.find(key) {
            Some(i) => {
                proof {
                    lemma_touch(self.entries(), key@);
                }
                let entry: (BlockKey, Arc<SealedBlock>) = self.entries.remove(i);
                let block: Arc<SealedBlock> = share(&entry.1);
                self.entries.push(entry);
                assert(self.entries() =~= touch(old(self).entries(), key@));
                Some(block)
            },
            None => None,
        }
    }

    /// The blocks of the longest run of `keys` from the first on that is cached,
    /// and how many they are. Each of them is used by this.
    pub fn get_prefix_blocks(&mut self, keys: &[BlockKey]) -> (r: (usize, Vec<Arc<SealedBlock>>))
        requires
            old(self).wf(),
        ensures
            final(self).wf(),
            final(self).policy() == old(self).policy(),
            r.0 == prefix_len(old(self).entries(), key_views(keys@)),
            r.0 <= keys@.len(),
            r.1@.len() == r.0,
            forall|i: int|
                0 <= i < r.0 ==> Some(#[trigger] r.1@[i]) == lookup(
                    old(self).entries(),
                    keys@[i]@,
                ),
            final(self).entries() == touch_all(
                old(self).entries(),
                key_views(keys@).take(r.0 as int),
            ),
    {
        let ghost before = self.entries();
        let ghost views = key_views(keys@);
        let mut hit: usize = 0;
        let mut blocks: Vec<Arc<SealedBlock>> = Vec::new();
        assert(views.take(0) =~= Seq::<KeyView>::empty());
        while hit < keys.len()
            invariant
                self.wf(),
                unique_keys(before),
                before == old(self).entries(),
                views == key_views(keys@),
                hit <= keys@.len(),
                blocks@.len() == hit,
                self.policy() == old(self).policy(),
                self.entries() == touch_all(before, views.take(hit as int)),
                forall|i: int| 0 <= i < hit ==> has_key(before, #[trigger] views[i]),
                forall|i: int|
                    0 <= i < hit ==> Some(#[trigger] blocks@[i]) == lookup(before, keys@[i]@),
            decreases keys@.len() - hit,
        {
            proof {
                lemma_touch_all(before, views.take(hit as int));
                assert(views[hit as int] == keys@[hit as int]@);
                assert(lookup(self.entries(), views[hit as int]) == lookup(
                    before,
                    views[hit as int],
                ));
                assert(views.take(hit + 1).drop_last() =~= views.take(hit as int));
            }
            match self.get(&keys[hit]) {
                Some(block) => {
                    blocks.push(block);
                    hit += 1;
                },
                None => {
                    proof {
                        lemma_prefix_len(before, views, hit as int);
                    }
                    return (hit, blocks);
                },
            }
        }
        proof {
            lemma_prefix_len(before, views, hit as int);
        }
        (hit, blocks)
    }

    /// The blocks of those of `keys` that are cached, in the order of `keys`. Each
    /// of them is used by this.
    pub fn get_blocks(&mut self, keys: &[BlockKey]) -> (r: Vec<(BlockKey, Arc<SealedBlock>)>)
        requires
            old(self).wf(),
        ensures
            final(self).wf(),
            final(self).policy() == old(self).policy(),
            entry_views(r@) == found(old(self).entries(), key_views(keys@)),
            final(self).entries() == touch_all(old(self).entries(), key_views(keys@)),
    {
        let ghost before = self.entries();
        let ghost views = key_views(keys@);
        let mut out: Vec<(BlockKey, Arc<SealedBlock>)> = Vec::new();
        let mut i: usize = 0;
        proof {
            assert(views.take(0) =~= Seq::<KeyView>::empty());
            assert(entry_views(out@) =~= Seq::<EntryView>::empty());
        }
        while i < keys.len()
            invariant
                self.wf(),
                unique_keys(before),
                before == old(self).entries(),
                views == key_views(keys@),
                i <= keys@.len(),
                self.policy() == old(self).policy(),
                self.entries() == touch_all(before, views.take(i as int)),
                entry_views(out@) == found(before, views.take(i as int)),
            decreases keys@.len() - i,
        {
            proof {
                lemma_touch_all(before, views.take(i as int));
                assert(views[i as int] == keys@[i as int]@);
                assert(lookup(self.entries(), views[i as int]) == lookup(before, views[i as int]));
                assert(views.take(i + 1).drop_last() =~= views.take(i as int));
            }
            match self.get(&keys[i]) {
                Some(block) => {
                    let ghost shown = entry_views(out@);
                    out.push((keys[i].clone(), block));
                    assert(entry_views(out@) =~= shown.push((views[i as int], block)));
                },
                None => {},
            }
            i += 1;
        }
        assert(views.take(i as int) =~= views);
        out
    }

    /// Inserts a block, if its key is not cached yet and the admission policy, where there is
    /// one, has `admitted` it.
    pub fn insert_block(&mut self, key: BlockKey, block: Arc<SealedBlock>, admitted: bool) -> (r:
        CacheInsertOutcome)
        requires
            old(self).wf(),
        ensures
            final(self).wf(),
            final(self).policy() == old(self).policy(),
            r == (if has_key(old(self).entries(), key@) {
                CacheInsertOutcome::AlreadyExists
            } else if admitted || !old(self).policy() {
                CacheInsertOutcome::InsertedNew
            } else {
                CacheInsertOutcome::Rejected
            }),
            final(self).entries() == if admitted || !old(self).policy() {
                insert_entry(old(self).entries(), (key@, block))
            } else {
                old(self).entries()
            },
    {
        if self.find(&key).is_some() {
            return CacheInsertOutcome::AlreadyExists;
        }
        if self.lfu_admission && !admitted {
            return CacheInsertOutcome::Rejected;
        }
        let ghost view = key@;
        self.entries.push((key, block));
        proof {
            let s = old(self).entries();
            let t = self.entries();
            assert(t =~= s.push((view, block)));
            lemma_push(s, view, block);
        }
        CacheInsertOutcome::InsertedNew
    }

    /// Inserts blocks in turn and reports what came of each. `admitted` is what the admission
    /// policy decided of each, where there is one; blocks that it did not decide on are let in.
    pub fn batch_insert_refs(
        &mut self,
        blocks: &[(BlockKey, Arc<SealedBlock>)],
        admitted: &[bool],
    ) -> (r: Vec<CacheInsertOutcome>)
        requires
            old(self).wf(),
        ensures
            final(self).wf(),
            final(self).policy() == old(self).policy(),
            final(self).entries() == insert_all(
                old(self).entries(),
                entry_views(blocks@),
                old(self).policy(),
                admitted@,
            ),
            r@.len() == blocks@.len(),
            forall|i: int|
                0 <= i < r@.len() ==> #[trigger] r@[i] == insert_outcome(
                    old(self).entries(),
                    entry_views(blocks@),
                    old(self).policy(),
                    admitted@,
                    i,
                ),
    {
        let ghost before = self.entries();
        let ghost views = entry_views(blocks@);
        let mut out: Vec<CacheInsertOutcome> = Vec::new();
        let mut i: usize = 0;
        assert(views.take(0) =~= Seq::<EntryView>::empty());
        while i < blocks.len()
            invariant
                self.wf(),
                before == old(self).entries(),
                views == entry_views(blocks@),
                i <= blocks@.len(),
                out@.len() == i,
                self.policy() == old(self).policy(),
                self.entries() == insert_all(
                    before,
                    views.take(i as int),
                    self.policy(),
                    admitted@,
                ),
                forall|k: int|
                    0 <= k < i ==> #[trigger] out@[k] == insert_outcome(
                        before,
                        views,
                        self.policy(),
                        admitted@,
                        k,
                    ),
            decreases blocks@.len() - i,
        {
            proof {
                assert(views.take(i + 1).drop_last() =~= views.take(i as int));
                assert(views[i as int] == (blocks@[i as int].0@, blocks@[i as int].1));
            }
            let decided: bool = i >= admitted.len() || admitted[i];
            let outcome: CacheInsertOutcome = self.insert_block(
                blocks[i].0.clone(),
                share(&blocks[i].1),
                decided,
            );
            out.push(outcome);
            i += 1;
        }
        assert(views.take(i as int) =~= views);
        out
    }

    /// Inserts blocks in turn and reports what came of each. `admitted` is what the admission
    /// policy decided of each, where there is one; blocks that it did not decide on are let in.
    pub fn batch_insert(
        &mut self,
        blocks: Vec<(BlockKey, Arc<SealedBlock>)>,
        admitted: &[bool],
    ) -> (r: Vec<CacheInsertOutcome>)
        requires
            old(self).wf(),
        ensures
            final(self).wf(),
            final(self).policy() == old(self).policy(),
            final(self).entries() == insert_all(
                old(self).entries(),
                entry_views(blocks@),
                old(self).policy(),
                admitted@,
            ),
            r@.len() == blocks@.len(),
            forall|i: int|
                0 <= i < r@.len() ==> #[trigger] r@[i] == insert_outcome(
                    old(self).entries(),
                    entry_views(blocks@),
                    old(self).policy(),
                    admitted@,
                    i,
                ),
    {
        self.batch_insert_refs(blocks.as_slice(), admitted)
    }

    /// Takes out up to `batch_size` blocks, the least recently used ones first.
    pub fn remove_lru_batch(&mut self, batch_size: usize) -> (r: Vec<(BlockKey, Arc<SealedBlock>)>)
        requires
            old(self).wf(),
        ensures
            final(self).wf(),
            final(self).policy() == old(self).policy(),
            r@.len() == if batch_size < old(self).entries().len() {
                batch_size as nat
            } else {
                old(self).entries().len()
            },
            entry_views(r@) == old(self).entries().take(r@.len() as int),
            final(self).entries() == old(self).entries().skip(r@.len() as int),
    {
        let count: usize = if batch_size < self.entries.len() {
            batch_size
        } else {
            self.entries.len()
        };
        let rest: Vec<(BlockKey, Arc<SealedBlock>)> = self.entries.split_off(count);
        let mut out: Vec<(BlockKey, Arc<SealedBlock>)> = rest;
        std::mem::swap(&mut out, &mut self.entries);
        proof {
            assert(self.entries() =~= old(self).entries().skip(count as int));
            assert(entry_views(out@) =~= old(self).entries().take(count as int));
        }
        out
    }

    /// Takes out every block.
    pub fn remove_all(&mut self) -> (r: Vec<(BlockKey, Arc<SealedBlock>)>)
        requires
            old(self).wf(),
        ensures
            final(self).wf(),
            final(self).policy() == old(self).policy(),
            entry_views(r@) == old(self).entries(),
            final(self).entries() == Seq::<EntryView>::empty(),
    {
        let mut out: Vec<(BlockKey, Arc<SealedBlock>)> = Vec::new();
        std::mem::swap(&mut out, &mut self.entries);
        assert(self.entries() =~= Seq::<EntryView>::empty());
        out
    }

    /// Every block, without taking it out or using it.
    pub fn snapshot_all(&self) -> (r: Vec<(BlockKey, Arc<SealedBlock>)>)
        ensures
            entry_views(r@) == self.entries(),
    {
        let mut out: Vec<(BlockKey, Arc<SealedBlock>)> = Vec::new();
        let mut i: usize = 0;
        assert(entry_views(out@) =~= self.entries().take(0));
        while i < self.entries.len()
            invariant
                i <= self.entries@.len(),
                entry_views(out@) == self.entries().take(i as int),
            decreases self.entries@.len() - i,
        {
            let ghost shown = entry_views(out@);
            let ghost entry = self.entries()[i as int];
            out.push((self.entries[i].0.clone(), share(&self.entries[i].1)));
            i += 1;
            assert(entry_views(out@) =~= shown.push(entry));
            assert(self.entries().take(i as int) =~= self.entries().take(i - 1).push(entry));
        }
        assert(self.entries().take(i as int) =~= self.entries());
        out
    }
}

/// Looking the same keys up again gives the same blocks: a lookup changes the
/// order of the entries only.
pub proof fn law_lookup_is_repeatable(s: Seq<EntryView>, used: Seq<KeyView>, keys: Seq<KeyView>)
    requires
        unique_keys(s),
    ensures
        found(touch_all(s, used), keys) == found(s, keys),
        prefix_len(touch_all(s, used), keys) == prefix_len(s, keys),
    decreases keys.len(),
{
    lemma_touch_all(s, used);
    if keys.len() > 0 {
        law_lookup_is_repeatable(s, used, keys.drop_last());
        assert(lookup(touch_all(s, used), keys.last()) == lookup(s, keys.last()));
        lemma_prefix_agrees(s, touch_all(s, used), keys);
    }
}

proof fn lemma_prefix_agrees(s: Seq<EntryView>, t: Seq<EntryView>, keys: Seq<KeyView>)
    requires
        forall|k: KeyView| #[trigger] has_key(t, k) <==> has_key(s, k),
    ensures
        prefix_len(t, keys) == prefix_len(s, keys),
    decreases keys.len(),
{
    if keys.len() > 0 {
        assert(has_key(t, keys[0]) <==> has_key(s, keys[0]));
        lemma_prefix_agrees(s, t, keys.drop_first());
    }
}

/// A prefix lookup finds no more blocks than a lookup of every key does, and it
/// stops at a key that is not cached.
pub proof fn law_prefix_stops_at_first_miss(s: Seq<EntryView>, keys: Seq<KeyView>)
    ensures
        prefix_len(s, keys) <= keys.len(),
        forall|i: int| 0 <= i < prefix_len(s, keys) ==> has_key(s, #[trigger] keys[i]),
        prefix_len(s, keys) < keys.len() ==> !has_key(s, keys[prefix_len(s, keys) as int]),
        found(s, keys).len() >= prefix_len(s, keys),
    decreases keys.len(),
{
    if keys.len() > 0 {
        law_prefix_stops_at_first_miss(s, keys.drop_first());
        lemma_found_from_first(s, keys);
        if has_key(s, keys[0]) {
            let rest = keys.drop_first();
            assert forall|i: int| 0 <= i < prefix_len(s, keys) implies has_key(
                s,
                #[trigger] keys[i],
            ) by {
                if i > 0 {
                    assert(rest[i - 1] == keys[i]);
                }
            }
        }
    }
}

proof fn lemma_found_from_first(s: Seq<EntryView>, keys: Seq<KeyView>)
    requires
        keys.len() > 0,
    ensures
        found(s, keys).len() == found(s, keys.drop_first()).len() + if has_key(s, keys[0]) {
            1int
        } else {
            0
        },
    decreases keys.len(),
{
    if keys.len() > 1 {
        lemma_found_from_first(s, keys.drop_last());
        assert(keys.drop_last().drop_first() =~= keys.drop_first().drop_last());
        assert(keys.drop_first().last() == keys.last());
    } else {
        assert(keys.drop_last() =~= Seq::<KeyView>::empty());
        assert(keys.drop_first() =~= Seq::<KeyView>::empty());
    }
}

/// An inserted block is found again, and a cached block stays.
pub proof fn law_insert_keeps_cached_blocks(s: Seq<EntryView>, e: EntryView)
    requires
        unique_keys(s),
    ensures
        unique_keys(insert_entry(s, e)),
        lookup(insert_entry(s, e), e.0) == (if has_key(s, e.0) {
            lookup(s, e.0)
        } else {
            Some(e.1)
        }),
        forall|k: KeyView|
            has_key(s, k) ==> #[trigger] lookup(insert_entry(s, e), k) == lookup(s, k),
{
    let t = insert_entry(s, e);
    if !has_key(s, e.0) {
        lemma_push(s, e.0, e.1);
        lemma_place(t, e.0, s.len() as int);
        assert forall|k: KeyView| has_key(s, k) implies #[trigger] lookup(t, k) == lookup(
            s,
            k,
        ) by {
            assert(is_entry(s, k, place(s, k)));
            lemma_place(t, k, place(s, k));
        }
    }
}

/// A block that was inserted is found: under its key lies the first block that was let in for
/// it, unless one was cached before.
pub proof fn law_inserted_blocks_are_found(
    s: Seq<EntryView>,
    entries: Seq<EntryView>,
    policy: bool,
    admitted: Seq<bool>,
    i: int,
)
    requires
        unique_keys(s),
        0 <= i < entries.len(),
        !has_key(s, entries[i].0),
        lets_in(policy, admitted, i),
        forall|j: int|
            0 <= j < i && lets_in(policy, admitted, j) ==> (#[trigger] entries[j]).0
                != entries[i].0,
    ensures
        unique_keys(insert_all(s, entries, policy, admitted)),
        lookup(insert_all(s, entries, policy, admitted), entries[i].0) == Some(entries[i].1),
    decreases entries.len(),
{
    let front = entries.drop_last();
    let last = entries.last();
    let t = insert_all(s, front, policy, admitted);
    if i < entries.len() - 1 {
        assert forall|j: int| 0 <= j < i && lets_in(policy, admitted, j) implies (
        #[trigger] front[j]).0 != front[i].0 by {
            assert(entries[j].0 != entries[i].0);
        }
        law_inserted_blocks_are_found(s, front, policy, admitted, i);
        law_insert_keeps_cached_blocks(t, last);
        assert(has_key(t, entries[i].0));
    } else {
        assert forall|j: int| 0 <= j < front.len() && lets_in(policy, admitted, j) implies (
        #[trigger] front[j]).0 != last.0 by {
            assert(entries[j].0 != entries[i].0);
        }
        lemma_insert_others(s, front, policy, admitted, last.0);
        law_insert_keeps_cached_blocks(t, last);
    }
}

/// Inserting blocks under other keys changes nothing for a key, and neither does inserting any
/// where it is cached.
pub proof fn lemma_insert_others(
    s: Seq<EntryView>,
    entries: Seq<EntryView>,
    policy: bool,
    admitted: Seq<bool>,
    key: KeyView,
)
    requires
        unique_keys(s),
        has_key(s, key) || forall|j: int|
            0 <= j < entries.len() && lets_in(policy, admitted, j) ==> (#[trigger] entries[j]).0
                != key,
    ensures
        unique_keys(insert_all(s, entries, policy, admitted)),
        lookup(insert_all(s, entries, policy, admitted), key) == lookup(s, key),
        has_key(insert_all(s, entries, policy, admitted), key) == has_key(s, key),
    decreases entries.len(),
{
    if entries.len() > 0 {
        let front = entries.drop_last();
        if !has_key(s, key) {
            assert forall|j: int| 0 <= j < front.len() && lets_in(policy, admitted, j) implies (
            #[trigger] front[j]).0 != key by {
                assert(entries[j].0 != key);
            }
        }
        lemma_insert_others(s, front, policy, admitted, key);
        let t = insert_all(s, front, policy, admitted);
        let last = entries[entries.len() - 1];
        law_insert_keeps_cached_blocks(t, last);
        let u = insert_entry(t, last);
        if !has_key(t, key) && lets_in(policy, admitted, entries.len() - 1) {
            assert(last.0 != key);
            if has_key(u, key) {
                let p = place(u, key);
                assert(is_entry(u, key, p));
                if p < t.len() {
                    assert(is_entry(t, key, p));
                }
            }
        } else if has_key(t, key) {
            assert(lookup(u, key) == lookup(t, key));
        }
    }
}

/// What lies under a key is the block of the one entry with that key; under a key that no entry
/// has lies nothing.
pub proof fn law_lookup_gives_the_entry(s: Seq<EntryView>, key: KeyView)
    requires
        unique_keys(s),
    ensures
        forall|p: int|
            0 <= p < s.len() && (#[trigger] s[p]).0 == key ==> has_key(s, key) && lookup(s, key)
                == Some(s[p].1),
        (forall|p: int| 0 <= p < s.len() ==> (#[trigger] s[p]).0 != key) ==> !has_key(s, key)
            && lookup(s, key) is None,
{
    assert forall|p: int| 0 <= p < s.len() && (#[trigger] s[p]).0 == key implies has_key(s, key)
        && lookup(s, key) == Some(s[p].1) by {
        lemma_place(s, key, p);
    }
    if has_key(s, key) {
        assert(is_entry(s, key, place(s, key)));
    }
}

/// A block that is used goes to the end of the order in which blocks are evicted, wherever it
/// stood; all others keep their order.
pub proof fn law_used_block_goes_last(s: Seq<EntryView>, key: KeyView, p: int)
    requires
        unique_keys(s),
        0 <= p < s.len(),
        s[p].0 == key,
    ensures
        touch(s, key).len() == s.len(),
        touch(s, key)[s.len() - 1] == s[p],
        forall|i: int| 0 <= i < p ==> #[trigger] touch(s, key)[i] == s[i],
        forall|i: int| p <= i < s.len() - 1 ==> #[trigger] touch(s, key)[i] == s[i + 1],
        touch(s, key) == s.remove(p).push(s[p]),
        lookup(s, key) == Some(s[p].1),
{
    lemma_place(s, key, p);
}

/// A key that is not cached can be asked for without any effect.
pub proof fn law_missing_keys_change_nothing(s: Seq<EntryView>, key: KeyView)
    requires
        forall|p: int| 0 <= p < s.len() ==> (#[trigger] s[p]).0 != key,
    ensures
        touch(s, key) == s,
{
    if has_key(s, key) {
        assert(is_entry(s, key, place(s, key)));
    }
}

/// Whether `later` is used after the last use of `earlier`.
pub open spec fn used_after(keys: Seq<KeyView>, earlier: KeyView, later: KeyView) -> bool {
    exists|m: int|
        0 <= m < keys.len() && #[trigger] keys[m] == later && forall|l: int|
            m <= l < keys.len() ==> #[trigger] keys[l] != earlier
}

/// A block that was used after another one is evicted after it, and of two blocks that were not
/// used the one that was to go first still is. `p` and `q` are the places of the two blocks
/// after `keys` were used, and `i` and `j` those from before.
pub proof fn law_blocks_are_evicted_in_the_order_of_use(
    s: Seq<EntryView>,
    keys: Seq<KeyView>,
    i: int,
    j: int,
    p: int,
    q: int,
)
    requires
        unique_keys(s),
        0 <= i < s.len(),
        0 <= j < s.len(),
        i != j,
        0 <= p < touch_all(s, keys).len(),
        0 <= q < touch_all(s, keys).len(),
        touch_all(s, keys)[p].0 == s[i].0,
        touch_all(s, keys)[q].0 == s[j].0,
    ensures
        touch_all(s, keys).len() == s.len(),
        touch_all(s, keys)[p] == s[i],
        used_after(keys, s[i].0, s[j].0) ==> p < q,
        !keys.contains(s[i].0) && !keys.contains(s[j].0) && i < j ==> p < q,
    decreases keys.len(),
{
    let x = s[i].0;
    let y = s[j].0;
    let t = touch_all(s, keys);
    lemma_touch_all(s, keys);
    lemma_place(t, x, p);
    lemma_place(s, x, i);
    assert(lookup(t, x) == lookup(s, x));
    assert(p != q) by {
        if p == q {
            assert(s[i].0 == s[j].0);
        }
    }
    if keys.len() > 0 {
        let front = keys.drop_last();
        let last = keys.last();
        let u = touch_all(s, front);
        lemma_touch_all(s, front);
        assert(has_key(u, x) && has_key(u, y)) by {
            assert(is_entry(s, x, i));
            assert(is_entry(s, y, j));
            assert(has_key(s, x) && has_key(s, y));
        }
        let a = place(u, x);
        let b = place(u, y);
        assert(is_entry(u, x, a) && is_entry(u, y, b));
        law_blocks_are_evicted_in_the_order_of_use(s, front, i, j, a, b);
        if has_key(u, last) {
            let m = place(u, last);
            assert(is_entry(u, last, m));
            law_used_block_goes_last(u, last, m);
            assert(t == touch(u, last));
            let n = u.len() - 1;
            let a2 = if a == m {
                n
            } else if a < m {
                a
            } else {
                a - 1
            };
            let b2 = if b == m {
                n
            } else if b < m {
                b
            } else {
                b - 1
            };
            assert(t[a2].0 == x);
            assert(t[b2].0 == y);
            assert(p == a2 && q == b2);
            assert(u[m].0 == last);
        } else {
            assert(t == u);
            assert(p == a && q == b);
        }
        assert(keys[keys.len() - 1] == last);
        if used_after(keys, x, y) {
            let m = choose|m: int|
                0 <= m < keys.len() && #[trigger] keys[m] == y && forall|l: int|
                    m <= l < keys.len() ==> #[trigger] keys[l] != x;
            assert(keys[keys.len() - 1] != x);
            if m < front.len() {
                assert(front[m] == y);
                assert forall|l: int| m <= l < front.len() implies #[trigger] front[l] != x by {
                    assert(keys[l] != x);
                }
                assert(used_after(front, x, y));
            } else {
                assert(last == y);
            }
        }
        if !keys.contains(x) && !keys.contains(y) && i < j {
            assert(!front.contains(x)) by {
                if front.contains(x) {
                    let l = front.index_of(x);
                    assert(keys[l] == x);
                }
            }
            assert(!front.contains(y)) by {
                if front.contains(y) {
                    let l = front.index_of(y);
                    assert(keys[l] == y);
                }
            }
            assert(last != x && last != y);
        }
    }
}

/// Those of the asked keys that are cached are found, in the order in which they are asked for,
/// each with its block; no other is.
pub proof fn law_found_are_the_cached_ones(s: Seq<EntryView>, keys: Seq<KeyView>)
    ensures
        found(s, keys) == keys.filter(|k: KeyView| has_key(s, k)).map_values(
            |k: KeyView| (k, lookup(s, k)->0),
        ),
    decreases keys.len(),
{
    reveal(Seq::filter);
    let cached = |k: KeyView| has_key(s, k);
    let entry = |k: KeyView| (k, lookup(s, k)->0);
    if keys.len() > 0 {
        law_found_are_the_cached_ones(s, keys.drop_last());
        assert(found(s, keys) =~= keys.filter(cached).map_values(entry));
    } else {
        assert(found(s, keys) =~= keys.filter(cached).map_values(entry));
    }
}

/// Whether the `k`th of some blocks is kept out by an admission policy.
pub open spec fn kept_out(policy: bool, admitted: Seq<bool>, k: int) -> bool {
    policy && 0 <= k < admitted.len() && !admitted[k]
}

/// Every block that no admission policy keeps out is cached afterwards, however many there are,
/// and nothing is cached that neither was cached before nor was let in. What was cached keeps
/// its block and its place in the order of eviction.
pub proof fn law_blocks_that_are_let_in_are_cached(
    s: Seq<EntryView>,
    entries: Seq<EntryView>,
    policy: bool,
    admitted: Seq<bool>,
)
    requires
        unique_keys(s),
    ensures
        ({
            let t = insert_all(s, entries, policy, admitted);
            &&& unique_keys(t)
            &&& t.len() >= s.len()
            &&& t.take(s.len() as int) == s
            &&& forall|i: int|
                0 <= i < entries.len() && !kept_out(policy, admitted, i) ==> exists|p: int|
                    0 <= p < t.len() && (#[trigger] t[p]).0 == (#[trigger] entries[i]).0
            &&& forall|p: int|
                s.len() <= p < t.len() ==> exists|i: int|
                    0 <= i < entries.len() && !kept_out(policy, admitted, i) && #[trigger] entries[i]
                        == #[trigger] t[p]
            &&& forall|p: int, q: int|
                0 <= p < t.len() && 0 <= q < t.len() && (#[trigger] t[p]).0 == (#[trigger] t[q]).0
                    ==> p == q
        }),
    decreases entries.len(),
{
    let t = insert_all(s, entries, policy, admitted);
    if entries.len() == 0 {
        assert(t.take(s.len() as int) =~= s);
    } else {
        let front = entries.drop_last();
        let last = entries.last();
        let n = entries.len() - 1;
        let u = insert_all(s, front, policy, admitted);
        law_blocks_that_are_let_in_are_cached(s, front, policy, admitted);
        assert(lets_in(policy, admitted, n) == !kept_out(policy, admitted, n));
        law_insert_keeps_cached_blocks(u, last);
        assert forall|p: int| 0 <= p < u.len() implies #[trigger] t[p] == u[p] by {}
        assert(t.take(s.len() as int) =~= s) by {
            assert(u.take(s.len() as int) == s);
            assert forall|p: int| 0 <= p < s.len() implies t[p] == #[trigger] s[p] by {
                assert(u.take(s.len() as int)[p] == s[p]);
            }
        }
        assert forall|i: int| 0 <= i < entries.len() && !kept_out(policy, admitted, i) implies exists|
            p: int,
        |
            0 <= p < t.len() && (#[trigger] t[p]).0 == (#[trigger] entries[i]).0 by {
            if i < n {
                assert(front[i] == entries[i]);
                let p = choose|p: int| 0 <= p < u.len() && (#[trigger] u[p]).0 == front[i].0;
                assert(t[p].0 == entries[i].0);
            } else if has_key(u, last.0) {
                let p = place(u, last.0);
                assert(is_entry(u, last.0, p));
                assert(t[p].0 == entries[i].0);
            } else {
                assert(t[u.len() as int].0 == entries[i].0);
            }
        }
        assert forall|p: int| s.len() <= p < t.len() implies exists|i: int|
            0 <= i < entries.len() && !kept_out(policy, admitted, i) && #[trigger] entries[i]
                == #[trigger] t[p] by {
            if p < u.len() {
                assert(u[p] == t[p]);
                let i = choose|i: int|
                    0 <= i < front.len() && !kept_out(policy, admitted, i) && #[trigger] front[i]
                        == u[p];
                assert(entries[i] == t[p]);
            } else {
                assert(entries[n] == t[p]);
            }
        }
    }
}

/// What is reported of a block that is inserted: that it is there already, exactly if its key
/// was cached before or a block before it was let in under the key; otherwise that it was
/// inserted, or that it was kept out.
pub proof fn law_outcomes_tell_what_was_cached(
    s: Seq<EntryView>,
    entries: Seq<EntryView>,
    policy: bool,
    admitted: Seq<bool>,
    k: int,
)
    requires
        unique_keys(s),
        0 <= k < entries.len(),
    ensures
        ({
            let known = (exists|p: int| 0 <= p < s.len() && (#[trigger] s[p]).0 == entries[k].0) || (
            exists|j: int|
                0 <= j < k && !kept_out(policy, admitted, j) && (#[trigger] entries[j]).0
                    == entries[k].0);
            let outcome = insert_outcome(s, entries, policy, admitted, k);
            &&& outcome == CacheInsertOutcome::AlreadyExists <==> known
            &&& outcome == CacheInsertOutcome::InsertedNew <==> !known && !kept_out(
                policy,
                admitted,
                k,
            )
            &&& outcome == CacheInsertOutcome::Rejected <==> !known && kept_out(policy, admitted, k)
        }),
{
    let front = entries.take(k);
    let t = insert_all(s, front, policy, admitted);
    let key = entries[k].0;
    law_blocks_that_are_let_in_are_cached(s, front, policy, admitted);
    if has_key(t, key) {
        let p = place(t, key);
        assert(is_entry(t, key, p));
        if p < s.len() {
            assert(t.take(s.len() as int)[p] == t[p]);
            assert(s[p].0 == key);
        } else {
            let j = choose|j: int|
                0 <= j < front.len() && !kept_out(policy, admitted, j) && #[trigger] front[j]
                    == t[p];
            assert(entries[j].0 == key);
        }
    }
    if exists|p: int| 0 <= p < s.len() && (#[trigger] s[p]).0 == key {
        let p = choose|p: int| 0 <= p < s.len() && (#[trigger] s[p]).0 == key;
        assert(t.take(s.len() as int)[p] == t[p]);
        assert(is_entry(t, key, p));
    }
    if exists|j: int|
        0 <= j < k && !kept_out(policy, admitted, j) && (#[trigger] entries[j]).0 == key {
        let j = choose|j: int|
            0 <= j < k && !kept_out(policy, admitted, j) && (#[trigger] entries[j]).0 == key;
        assert(front[j] == entries[j]);
        let p = choose|p: int| 0 <= p < t.len() && (#[trigger] t[p]).0 == front[j].0;
        assert(is_entry(t, key, p));
    }
}

/// Lists of keys and of entries are shown whole and in order, each with its own key and block.
pub proof fn law_lists_are_shown_whole(
    keys: Seq<BlockKey>,
    entries: Seq<(BlockKey, Arc<SealedBlock>)>,
    i: int,
)
    ensures
        key_views(keys).len() == keys.len(),
        0 <= i < keys.len() ==> key_views(keys)[i] == (keys[i].namespace@, keys[i].hash@),
        entry_views(entries).len() == entries.len(),
        0 <= i < entries.len() ==> entry_views(entries)[i] == (
            (entries[i].0.namespace@, entries[i].0.hash@),
            entries[i].1,
        ),
{
}

} // verus!
