//! Sessions that hold blocks in memory while another node reads them.

use std::sync::Arc;
use vstd::prelude::*;
use vstd::string::*;
use crate::block::{BlockKey, SealedBlock};
use crate::ids::{is_uuid_text, random_uuid};
use crate::keyed::{
    as_map, has_key, is_entry, lemma_place, lemma_push, lemma_remove, lemma_update, lookup, place,
    unique_keys,
};
use crate::read_cache::{entry_views, EntryView};
use crate::text::same_text;

verus! {

/// A session: who asked for the blocks, the blocks, and since when they are held.
#[derive(Debug)]
pub struct LockSession {
    pub requester_id: String,
    pub blocks: Vec<(BlockKey, Arc<SealedBlock>)>,
    pub locked_at: u64,
}

/// A session as plain values.
#[verifier::ext_equal]
pub struct SessionView {
    pub requester_id: Seq<char>,
    pub blocks: Seq<EntryView>,
    pub locked_at: u64,
}

impl View for LockSession {
    type V = SessionView;

    open spec fn view(&self) -> SessionView {
        SessionView {
            requester_id: self.requester_id@,
            blocks: entry_views(self.blocks@),
            locked_at: self.locked_at,
        }
    }
}

/// Sessions with their names, as plain values.
pub open spec fn session_views(v: Seq<(String, LockSession)>) -> Seq<(Seq<char>, SessionView)> {
    v.map_values(|e: (String, LockSession)| (e.0@, e.1@))
}

/// Whether a session has been held for the whole timeout.
pub open spec fn expired(s: SessionView, timeout: u64, now: u64) -> bool {
    now >= s.locked_at && now - s.locked_at >= timeout
}

/// The blocks that expired sessions hold, in order.
pub open spec fn freed(s: Seq<(Seq<char>, SessionView)>, timeout: u64, now: u64) -> Seq<EntryView>
    decreases s.len(),
{
    if s.len() == 0 {
        Seq::empty()
    } else if expired(s.last().1, timeout, now) {
        freed(s.drop_last(), timeout, now) + s.last().1.blocks
    } else {
        freed(s.drop_last(), timeout, now)
    }
}

/// The sessions that have not expired.
pub open spec fn live(
    s: Seq<(Seq<char>, SessionView)>,
    timeout: u64,
    now: u64,
) -> Seq<(Seq<char>, SessionView)>
    decreases s.len(),
{
    if s.len() == 0 {
        s
    } else if expired(s.last().1, timeout, now) {
        live(s.drop_last(), timeout, now)
    } else {
        live(s.drop_last(), timeout, now).push(s.last())
    }
}

proof fn lemma_live(s: Seq<(Seq<char>, SessionView)>, timeout: u64, now: u64)
    requires
        unique_keys(s),
    ensures
        unique_keys(live(s, timeout, now)),
        live(s, timeout, now).len() <= s.len(),
        forall|k: int|
            0 <= k < live(s, timeout, now).len() ==> s.contains(
                #[trigger] live(s, timeout, now)[k],
            ),
    decreases s.len(),
{
    if s.len() > 0 {
        let front = s.drop_last();
        let kept = live(front, timeout, now);
        assert forall|i: int, j: int|
            0 <= i < front.len() && 0 <= j < front.len() && (#[trigger] front[i]).0 == (#[trigger]
            front[j]).0 implies i == j by {
            assert(s[i].0 == s[j].0);
        }
        lemma_live(front, timeout, now);
        assert forall|k: int| 0 <= k < kept.len() implies s.contains(#[trigger] kept[k]) by {
            let i = choose|i: int| 0 <= i < front.len() && front[i] == kept[k];
            assert(s[i] == kept[k]);
        }
        if !expired(s.last().1, timeout, now) {
            assert(s[s.len() - 1] == s.last());
            if has_key(kept, s.last().0) {
                let k = place(kept, s.last().0);
                assert(is_entry(kept, s.last().0, k));
                let i = choose|i: int| 0 <= i < front.len() && front[i] == kept[k];
                assert(s[i].0 == s[s.len() - 1].0);
            }
            lemma_push(kept, s.last().0, s.last().1);
        }
    }
}

/// The sessions of a node.
#[derive(Debug)]
pub struct TransferLockManager {
    sessions: Vec<(String, LockSession)>,
    lock_timeout: u64,
}

impl TransferLockManager {
    /// The sessions with their names.
    pub closed spec fn sessions(self) -> Seq<(Seq<char>, SessionView)> {
        session_views(self.sessions@)
    }

    /// How long a session lasts, in nanoseconds.
    pub closed spec fn timeout(self) -> u64 {
        self.lock_timeout
    }

    /// No two sessions have the same name.
    pub open spec fn wf(self) -> bool {
        unique_keys(self.sessions())
    }

    /// No sessions yet.
    pub fn new(lock_timeout: u64) -> (r: Self)
        ensures
            r.wf(),
            r.sessions() == Seq::<(Seq<char>, SessionView)>::empty(),
            r.timeout() == lock_timeout,
    {
        let r: TransferLockManager = TransferLockManager { sessions: Vec::new(), lock_timeout };
        assert(r.sessions() =~= Seq::<(Seq<char>, SessionView)>::empty());
        r
    }

    /// How long a session lasts, in nanoseconds.
    pub fn lock_timeout(&self) -> (r: u64)
        ensures
            r == self.timeout(),
    {
        self.lock_timeout
    }

    fn find(&self, session_id: &str) -> (r: Option<usize>)
        requires
            self.wf(),
        ensures
            match r {
                Some(i) => {
                    &&& i < self.sessions@.len()
                    &&& has_key(self.sessions(), session_id@)
                    &&& self.sessions()[i as int].0 == session_id@
                    &&& lookup(self.sessions(), session_id@) == Some(self.sessions@[i as int].1@)
                },
                None => !has_key(self.sessions(), session_id@),
            },
    {
        let mut i: usize = 0;
        while i < self.sessions.len()
            invariant
                self.wf(),
                i <= self.sessions@.len(),
                forall|k: int|
                    0 <= k < i ==> !#[trigger] is_entry(self.sessions(), session_id@, k),
            decreases self.sessions@.len() - i,
        {
            assert(self.sessions()[i as int] == (
                self.sessions@[i as int].0@,
                self.sessions@[i as int].1@,
            ));
            if same_text(&self.sessions[i].0, session_id) {
                proof {
                    lemma_place(self.sessions(), session_id@, i as int);
                }
                return Some(i);
            }
            i += 1;
        }
        None
    }

    /// Holds blocks under a name.
    pub fn lock_blocks_as(
        &mut self,
        session_id: String,
        requester_id: &str,
        blocks: Vec<(BlockKey, Arc<SealedBlock>)>,
        now: u64,
    )
        requires
            old(self).wf(),
        ensures
            final(self).wf(),
            final(self).timeout() == old(self).timeout(),
            as_map(final(self).sessions()) == as_map(old(self).sessions()).insert(
                session_id@,
                (SessionView {
                    requester_id: requester_id@,
                    blocks: entry_views(blocks@),
                    locked_at: now,
                }),
            ),
    {
        let session: LockSession = LockSession {
            requester_id: String::from_str(requester_id),
            blocks,
            locked_at: now,
        };
        let ghost before = self.sessions();
        let ghost name = session_id@;
        let ghost value = session@;
        match self.find(session_id.as_str()) {
            Some(i) => {
                self.sessions[i].1 = session;
                proof {
                    lemma_update(before, i as int, value);
                    assert(self.sessions() =~= before.update(i as int, (name, value)));
                }
            },
            None => {
                self.sessions.push((session_id, session));
                proof {
                    lemma_push(before, name, value);
                    assert(self.sessions() =~= before.push((name, value)));
                }
            },
        }
    }

    /// Holds blocks, and returns the name of the session, which is drawn at random.
    pub fn lock_blocks(
        &mut self,
        requester_id: &str,
        blocks: Vec<(BlockKey, Arc<SealedBlock>)>,
        now: u64,
    ) -> (r: String)
        requires
            old(self).wf(),
        ensures
            final(self).wf(),
            final(self).timeout() == old(self).timeout(),
            is_uuid_text(r@),
            as_map(final(self).sessions()) == as_map(old(self).sessions()).insert(
                r@,
                (SessionView {
                    requester_id: requester_id@,
                    blocks: entry_views(blocks@),
                    locked_at: now,
                }),
            ),
    {
        let session_id: String = random_uuid();
        self.lock_blocks_as(session_id.clone(), requester_id, blocks, now);
        session_id
    }

    /// Ends a session, and returns the blocks that it held; none where there is no
    /// session of that name.
    pub fn release(&mut self, session_id: &str) -> (r: Vec<(BlockKey, Arc<SealedBlock>)>)
        requires
            old(self).wf(),
        ensures
            final(self).wf(),
            final(self).timeout() == old(self).timeout(),
            as_map(final(self).sessions()) == as_map(old(self).sessions()).remove(session_id@),
            entry_views(r@) == match lookup(old(self).sessions(), session_id@) {
                Some(s) => s.blocks,
                None => Seq::empty(),
            },
    {
        let ghost before = self.sessions();
        match self.find(session_id) {
            Some(i) => {
                let (_, session): (String, LockSession) = self.sessions.remove(i);
                proof {
                    lemma_remove(before, i as int);
                    assert(self.sessions() =~= before.remove(i as int));
                }
                session.blocks
            },
            None => {
                assert(as_map(before) =~= as_map(before).remove(session_id@));
                let none: Vec<(BlockKey, Arc<SealedBlock>)> = Vec::new();
                assert(entry_views(none@) =~= Seq::<EntryView>::empty());
                none
            },
        }
    }

    /// Ends every session that has been held for the whole timeout, and returns how many
    /// that were and the blocks that they held.
    pub fn gc_expired(&mut self, now: u64) -> (r: (usize, Vec<(BlockKey, Arc<SealedBlock>)>))
        requires
            old(self).wf(),
        ensures
            final(self).wf(),
            final(self).timeout() == old(self).timeout(),
            final(self).sessions() == live(old(self).sessions(), old(self).timeout(), now),
            r.0 == old(self).sessions().len() - final(self).sessions().len(),
            entry_views(r.1@) == freed(old(self).sessions(), old(self).timeout(), now),
    {
        let ghost before = self.sessions();
        let timeout: u64 = self.lock_timeout;
        let mut old_sessions: Vec<(String, LockSession)> = Vec::new();
        std::mem::swap(&mut old_sessions, &mut self.sessions);
        let total: usize = old_sessions.len();
        let mut kept: Vec<(String, LockSession)> = Vec::new();
        let mut blocks: Vec<(BlockKey, Arc<SealedBlock>)> = Vec::new();
        let ghost all = old_sessions@;
        assert(session_views(all) == before);
        proof {
            assert(session_views(kept@) =~= live(before.take(0), timeout, now));
            assert(entry_views(blocks@) =~= freed(before.take(0), timeout, now));
        }
        for entry in it: old_sessions
            invariant
                it.seq() == all,
                before == session_views(all),
                session_views(kept@) == live(before.take(it.index()), timeout, now),
                entry_views(blocks@) == freed(before.take(it.index()), timeout, now),
                kept@.len() <= it.index(),
        {
            let ghost k = it.index();
            let ghost shown = session_views(kept@);
            proof {
                assert(before.take(k + 1).drop_last() =~= before.take(k));
                assert(before.take(k + 1).last() == (entry.0@, entry.1@));
            }
            let gone: bool = now >= entry.1.locked_at && now - entry.1.locked_at >= timeout;
            if !gone {
                let ghost view = (entry.0@, entry.1@);
                kept.push(entry);
                assert(session_views(kept@) =~= shown.push(view));
            } else {
                let ghost held = entry_views(blocks@);
                let mut own: Vec<(BlockKey, Arc<SealedBlock>)> = entry.1.blocks;
                let ghost more = entry_views(own@);
                blocks.append(&mut own);
                assert(entry_views(blocks@) =~= held + more);
            }
        }
        proof {
            assert(before.take(before.len() as int) =~= before);
            lemma_live(before, timeout, now);
        }
        let left: usize = kept.len();
        self.sessions = kept;
        (total - left, blocks)
    }
}

/// Releasing a session gives back exactly what was locked, and leaves the other sessions
/// as they were: the whole is as it was before the lock.
pub proof fn law_release_undoes_lock(
    before: Seq<(Seq<char>, SessionView)>,
    locked: Seq<(Seq<char>, SessionView)>,
    released: Seq<(Seq<char>, SessionView)>,
    name: Seq<char>,
    session: SessionView,
)
    requires
        !has_key(before, name),
        as_map(locked) == as_map(before).insert(name, session),
        as_map(released) == as_map(locked).remove(name),
    ensures
        lookup(locked, name) == Some(session),
        as_map(released) == as_map(before),
        !has_key(released, name),
{
    assert(as_map(locked).contains_key(name));
    assert(as_map(locked)[name] == session);
    assert(!as_map(before).contains_key(name));
    assert(as_map(released) =~= as_map(before));
    assert(!as_map(released).contains_key(name));
}

/// A session outlives a collection exactly if it has not been held for the whole timeout.
pub proof fn law_only_expired_sessions_end(
    s: Seq<(Seq<char>, SessionView)>,
    timeout: u64,
    now: u64,
    k: int,
)
    requires
        0 <= k < s.len(),
        unique_keys(s),
    ensures
        live(s, timeout, now).contains(s[k]) <==> !expired(s[k].1, timeout, now),
    decreases s.len(),
{
    let front = s.drop_last();
    let kept = live(front, timeout, now);
    let all = live(s, timeout, now);
    assert forall|i: int, j: int|
        0 <= i < front.len() && 0 <= j < front.len() && (#[trigger] front[i]).0 == (#[trigger]
        front[j]).0 implies i == j by {
        assert(s[i].0 == s[j].0);
    }
    if k < s.len() - 1 {
        law_only_expired_sessions_end(front, timeout, now, k);
        assert(front[k] == s[k]);
        if !expired(s.last().1, timeout, now) {
            if kept.contains(s[k]) {
                let i = choose|i: int| 0 <= i < kept.len() && kept[i] == s[k];
                assert(all[i] == s[k]);
            }
            if all.contains(s[k]) {
                let i = choose|i: int| 0 <= i < all.len() && all[i] == s[k];
                if i == kept.len() {
                    assert(s[k].0 == s[s.len() - 1].0);
                } else {
                    assert(kept[i] == s[k]);
                }
            }
        }
    } else {
        if !expired(s.last().1, timeout, now) {
            assert(all[all.len() - 1] == s[k]);
        } else if all.contains(s[k]) {
            lemma_live(front, timeout, now);
            let i = choose|i: int| 0 <= i < all.len() && all[i] == s[k];
            let j = choose|j: int| 0 <= j < front.len() && front[j] == kept[i];
            assert(s[j].0 == s[k].0);
        }
    }
}

/// A session ends exactly when the whole timeout has passed since it was begun. Those that do not
/// stay as they are and in their order, and what ended sessions held is handed back in full.
pub proof fn law_sessions_last_for_their_timeout(
    a: Seq<(Seq<char>, SessionView)>,
    b: Seq<(Seq<char>, SessionView)>,
    e: (Seq<char>, SessionView),
    timeout: u64,
    now: u64,
)
    ensures
        ({
            let over = now >= e.1.locked_at && now - e.1.locked_at >= timeout;
            &&& live(seq![e], timeout, now) == (if over {
                Seq::empty()
            } else {
                seq![e]
            })
            &&& freed(seq![e], timeout, now) == (if over {
                e.1.blocks
            } else {
                Seq::empty()
            })
        }),
        live(a + b, timeout, now) == live(a, timeout, now) + live(b, timeout, now),
        freed(a + b, timeout, now) == freed(a, timeout, now) + freed(b, timeout, now),
    decreases b.len(),
{
    reveal_with_fuel(live, 2);
    reveal_with_fuel(freed, 2);
    assert(seq![e].drop_last() =~= Seq::<(Seq<char>, SessionView)>::empty());
    assert(live(seq![e], timeout, now) =~= (if expired(e.1, timeout, now) {
        Seq::empty()
    } else {
        seq![e]
    }));
    assert(freed(seq![e], timeout, now) =~= (if expired(e.1, timeout, now) {
        e.1.blocks
    } else {
        Seq::empty()
    }));
    if b.len() == 0 {
        assert(a + b =~= a);
        assert(live(a, timeout, now) + live(b, timeout, now) =~= live(a, timeout, now));
        assert(freed(a, timeout, now) + freed(b, timeout, now) =~= freed(a, timeout, now));
    } else {
        assert((a + b).drop_last() =~= a + b.drop_last());
        assert((a + b).last() == b.last());
        law_sessions_last_for_their_timeout(a, b.drop_last(), e, timeout, now);
        assert(live(a + b, timeout, now) =~= live(a, timeout, now) + live(b, timeout, now));
        assert(freed(a + b, timeout, now) =~= freed(a, timeout, now) + freed(b, timeout, now));
    }
}

/// Sessions are shown whole, each with its name, who holds it, since when, and all its blocks.
pub proof fn law_sessions_are_shown_whole(v: Seq<(String, LockSession)>, i: int)
    ensures
        session_views(v).len() == v.len(),
        0 <= i < v.len() ==> session_views(v)[i].0 == v[i].0@ && session_views(v)[i].1.requester_id
            == v[i].1.requester_id@ && session_views(v)[i].1.locked_at == v[i].1.locked_at
            && session_views(v)[i].1.blocks == entry_views(v[i].1.blocks@),
{
}

} // verus!
