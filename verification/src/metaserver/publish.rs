//! Carrying out a drain: the session is made ready, the hashes are inserted and
//! removed call by call, and the barriers that wait are answered.

use vstd::prelude::*;
use vstd::string::*;
use crate::keyed::{has_key, is_entry};
use crate::metaserver::batch::{
    drained, group_views, hash_count, hashes_in, is_grouping, is_last_op, law_last_write_wins,
    mentions, mixed, net, ops_of, selected, total_hashes, GroupView, MetaServerCommand,
};
use crate::metaserver::session::{
    carry_all, law_sent_and_unsent_make_up_all, sent, chunk_in_order, rpc_chunks, unsent, capped_sum, HeartbeatState,
    MetaServerSession, RpcChunk,
};
use crate::read_cache::KeyView;
use crate::text::decimal;

verus! {

/// What comes next.
#[derive(Debug)]
pub enum PublishAction {
    /// Make the session ready.
    PrepareSession,
    /// Insert the hashes of this chunk.
    Insert(RpcChunk),
    /// Remove the hashes of this chunk.
    Remove(RpcChunk),
    /// Tell every barrier that waits that all went through.
    Succeed,
    /// Tell every barrier that waits what went wrong.
    Fail(String),
}

/// A drain that is being carried out.
#[derive(Debug)]
pub struct Publication {
    inserts: Vec<(String, Vec<Vec<u8>>)>,
    removes: Vec<(String, Vec<Vec<u8>>)>,
    insert_calls: Vec<RpcChunk>,
    remove_calls: Vec<RpcChunk>,
    insert_total: usize,
    remove_total: usize,
    prepared: bool,
    inserted: usize,
    removed: usize,
    error: Option<String>,
    lost_inserts: usize,
    lost_removes: usize,
}

/// What a drain adds to the counts of failures.
#[derive(Clone, Copy, Debug, PartialEq, Eq, Structural)]
pub struct PublishCounts {
    /// Hashes that were to be inserted and were not.
    pub registration_failures: u64,
    /// Hashes that were to be removed and were not.
    pub removal_failures: u64,
}

impl Publication {
    /// The hashes to insert, by namespace.
    pub closed spec fn inserts(self) -> Seq<(String, Vec<Vec<u8>>)> {
        self.inserts@
    }

    /// The hashes to remove, by namespace.
    pub closed spec fn removes(self) -> Seq<(String, Vec<Vec<u8>>)> {
        self.removes@
    }

    /// The calls that insert.
    pub closed spec fn insert_calls(self) -> Seq<RpcChunk> {
        self.insert_calls@
    }

    /// The calls that remove.
    pub closed spec fn remove_calls(self) -> Seq<RpcChunk> {
        self.remove_calls@
    }

    /// Whether the session was made ready.
    pub closed spec fn prepared(self) -> bool {
        self.prepared
    }

    /// How many calls the server has acknowledged.
    pub closed spec fn acknowledged(self) -> int {
        self.inserted + self.removed
    }

    /// What went wrong, if anything.
    pub closed spec fn error(self) -> Option<Seq<char>> {
        match self.error {
            Some(m) => Some(m@),
            None => None,
        }
    }

    /// How many hashes there are to insert.
    pub open spec fn insert_total(self) -> nat {
        hash_count(group_views(self.inserts()))
    }

    /// How many hashes there are to remove.
    pub open spec fn remove_total(self) -> nat {
        hash_count(group_views(self.removes()))
    }

    /// How many calls there are.
    pub open spec fn calls(self) -> int {
        (self.insert_calls().len() + self.remove_calls().len()) as int
    }

    /// How many of the calls that insert the server has acknowledged.
    pub open spec fn acknowledged_inserts(self) -> int {
        if self.acknowledged() < self.insert_calls().len() {
            self.acknowledged()
        } else {
            self.insert_calls().len() as int
        }
    }

    /// How many hashes were to be inserted and are lost: where something went wrong, those that
    /// no acknowledged call carried.
    pub open spec fn lost(self) -> int {
        if self.error() is Some {
            self.insert_total() - sent(self.insert_calls(), self.acknowledged_inserts())
        } else {
            0
        }
    }

    /// How many hashes were to be removed and were not, because something went wrong.
    pub open spec fn unremoved(self) -> int {
        if self.error() is Some {
            self.remove_total() - sent(
                self.remove_calls(),
                self.acknowledged() - self.acknowledged_inserts(),
            )
        } else {
            0
        }
    }

    /// Whether nothing is left to do.
    pub open spec fn ended(self) -> bool {
        self.action() is Succeed || self.action() is Fail
    }

    /// The counts agree, and the calls carry all hashes.
    pub closed spec fn wf(self) -> bool {
        &&& self.insert_total == self.insert_total()
        &&& self.remove_total == self.remove_total()
        &&& carry_all(group_views(self.inserts@), self.insert_calls@)
        &&& carry_all(group_views(self.removes@), self.remove_calls@)
        &&& self.inserted <= self.insert_calls@.len()
        &&& self.removed <= self.remove_calls@.len()
        &&& self.removed > 0 ==> self.inserted == self.insert_calls@.len()
        &&& !self.prepared ==> self.inserted == 0 && self.removed == 0
        &&& self.lost_inserts == self.lost()
        &&& self.lost_removes == self.unremoved()
    }

    /// What comes next.
    pub open spec fn action(self) -> PublishStep {
        if self.error() is Some {
            PublishStep::Fail(self.error()->0)
        } else if self.insert_total() == 0 && self.remove_total() == 0 {
            PublishStep::Succeed
        } else if !self.prepared() {
            PublishStep::PrepareSession
        } else if self.acknowledged() < self.insert_calls().len() {
            PublishStep::Insert(self.insert_calls()[self.acknowledged()])
        } else if self.acknowledged() < self.calls() {
            PublishStep::Remove(
                self.remove_calls()[self.acknowledged() - self.insert_calls().len()],
            )
        } else {
            PublishStep::Succeed
        }
    }

    /// A drain that has not been begun.
    pub fn new(
        inserts: Vec<(String, Vec<Vec<u8>>)>,
        removes: Vec<(String, Vec<Vec<u8>>)>,
    ) -> (r: Self)
        requires
            hash_count(group_views(inserts@)) <= usize::MAX,
            hash_count(group_views(removes@)) <= usize::MAX,
        ensures
            r.wf(),
            r.inserts() == inserts@,
            r.removes() == removes@,
            carry_all(group_views(inserts@), r.insert_calls()),
            carry_all(group_views(removes@), r.remove_calls()),
            !r.prepared(),
            r.acknowledged() == 0,
            r.error() is None,
    {
        let insert_calls: Vec<RpcChunk> = rpc_chunks(&inserts);
        let remove_calls: Vec<RpcChunk> = rpc_chunks(&removes);
        let insert_total: usize = total_hashes(&inserts);
        let remove_total: usize = total_hashes(&removes);
        Publication {
            inserts,
            removes,
            insert_calls,
            remove_calls,
            insert_total,
            remove_total,
            prepared: false,
            inserted: 0,
            removed: 0,
            error: None,
            lost_inserts: 0,
            lost_removes: 0,
        }
    }

    /// What the drain adds to the counts of failures.
    pub fn counts(&self) -> (r: PublishCounts)
        requires
            self.wf(),
        ensures
            r.registration_failures == self.lost(),
            r.removal_failures == self.unremoved(),
    {
        PublishCounts {
            registration_failures: self.lost_inserts as u64,
            removal_failures: self.lost_removes as u64,
        }
    }

    /// What comes next.
    pub fn next_action(&self) -> (r: PublishAction)
        requires
            self.wf(),
        ensures
            match r {
                PublishAction::PrepareSession => self.action() is PrepareSession,
                PublishAction::Insert(c) => self.action() == PublishStep::Insert(c),
                PublishAction::Remove(c) => self.action() == PublishStep::Remove(c),
                PublishAction::Succeed => self.action() is Succeed,
                PublishAction::Fail(m) => self.action() == PublishStep::Fail(m@),
            },
    {
        if let Some(m) = &self.error {
            return PublishAction::Fail(m.clone());
        }
        if self.insert_total == 0 && self.remove_total == 0 {
            return PublishAction::Succeed;
        }
        if !self.prepared {
            return PublishAction::PrepareSession;
        }
        if self.inserted < self.insert_calls.len() {
            return PublishAction::Insert(self.insert_calls[self.inserted]);
        }
        if self.removed < self.remove_calls.len() {
            return PublishAction::Remove(self.remove_calls[self.removed]);
        }
        PublishAction::Succeed
    }

    /// The hashes to insert.
    pub fn insert_groups(&self) -> (r: &Vec<(String, Vec<Vec<u8>>)>)
        ensures
            r@ == self.inserts(),
    {
        &self.inserts
    }

    /// The hashes to remove.
    pub fn remove_groups(&self) -> (r: &Vec<(String, Vec<Vec<u8>>)>)
        ensures
            r@ == self.removes(),
    {
        &self.removes
    }

    /// The session was made ready, or could not be: then every publication of the
    /// drain is lost.
    pub fn on_session(&mut self, session: &mut MetaServerSession, ready: bool)
        requires
            old(self).wf(),
            old(session).wf(),
            old(self).action() is PrepareSession,
        ensures
            final(self).wf(),
            final(session).wf(),
            final(self).inserts() == old(self).inserts(),
            final(self).removes() == old(self).removes(),
            final(self).insert_calls() == old(self).insert_calls(),
            final(self).remove_calls() == old(self).remove_calls(),
            final(self).acknowledged() == old(self).acknowledged(),
            ready ==> final(self).prepared() && final(self).error() is None
                && *final(session) == *old(session),
            !ready ==> {
                &&& final(self).error() == Some(
                    "MetaServer node is not registered; publications are not visible"@,
                )
                &&& final(self).lost() == old(self).insert_total()
                &&& final(session).failures() == capped_sum(
                    old(session).failures(),
                    final(self).lost(),
                )
                &&& final(session).heartbeat() == old(session).heartbeat()
                &&& final(session).connected() == old(session).connected()
                &&& final(session).node_id() == old(session).node_id()
            },
    {
        if ready {
            self.prepared = true;
        } else {
            let m: String = session.on_not_registered(self.insert_total);
            self.error = Some(m);
            self.lost_inserts = self.insert_total;
            self.lost_removes = self.remove_total;
        }
    }

    /// The server acknowledged the call that came next.
    pub fn on_acknowledged(&mut self)
        requires
            old(self).wf(),
            old(self).action() is Insert || old(self).action() is Remove,
        ensures
            final(self).wf(),
            final(self).inserts() == old(self).inserts(),
            final(self).removes() == old(self).removes(),
            final(self).insert_calls() == old(self).insert_calls(),
            final(self).remove_calls() == old(self).remove_calls(),
            final(self).prepared() == old(self).prepared(),
            final(self).error() == old(self).error(),
            final(self).acknowledged() == old(self).acknowledged() + 1,
    {
        if self.inserted < self.insert_calls.len() {
            self.inserted = self.inserted + 1;
        } else {
            assert(self.removed < self.remove_calls.len());
            self.removed = self.removed + 1;
        }
    }

    /// The call that came next failed, perhaps because the server rejected the
    /// session. The drain ends there.
    pub fn on_failed(&mut self, session: &mut MetaServerSession, rejected: bool)
        requires
            old(self).wf(),
            old(session).wf(),
            old(self).action() is Insert || old(self).action() is Remove,
        ensures
            final(self).wf(),
            final(session).wf(),
            final(self).inserts() == old(self).inserts(),
            final(self).removes() == old(self).removes(),
            final(self).insert_calls() == old(self).insert_calls(),
            final(self).remove_calls() == old(self).remove_calls(),
            final(self).prepared() == old(self).prepared(),
            final(self).acknowledged() == old(self).acknowledged(),
            !final(session).connected(),
            final(session).node_id() == old(session).node_id(),
            final(session).heartbeat() == (HeartbeatState {
                node_registered: old(session).heartbeat().node_registered && !rejected,
                ..old(session).heartbeat()
            }),
            match old(self).action() {
                PublishStep::Insert(c) => {
                    let lost = unsent(
                        group_views(old(self).inserts()),
                        c.group as int,
                        c.offset as int,
                    );
                    &&& final(self).lost() == lost
                    &&& final(session).failures() == capped_sum(old(session).failures(), lost)
                    &&& final(self).error() == Some(
                        "MetaServer publication failed with "@ + decimal(lost as nat)
                            + " block hashes unsent"@,
                    )
                },
                PublishStep::Remove(c) => {
                    let left = unsent(
                        group_views(old(self).removes()),
                        c.group as int,
                        c.offset as int,
                    );
                    &&& final(self).lost() == 0
                    &&& final(session).failures() == old(session).failures()
                    &&& final(self).error() == Some(
                        "MetaServer removal failed with "@ + decimal(left as nat)
                            + " block hashes unsent"@,
                    )
                },
                _ => true,
            },
    {
        if self.inserted < self.insert_calls.len() {
            let chunk: RpcChunk = self.insert_calls[self.inserted];
            assert(chunk_in_order(
                group_views(self.inserts@),
                self.insert_calls@,
                self.inserted as int,
            ));
            let (lost, m): (usize, String) = session.on_insert_failed(
                &self.inserts,
                &chunk,
                rejected,
            );
            self.error = Some(m);
            self.lost_inserts = lost;
            self.lost_removes = self.remove_total;
            proof {
                law_sent_and_unsent_make_up_all(
                    group_views(self.inserts@),
                    self.insert_calls@,
                    self.inserted as int,
                );
            }
        } else {
            let chunk: RpcChunk = self.remove_calls[self.removed];
            assert(chunk_in_order(
                group_views(self.removes@),
                self.remove_calls@,
                self.removed as int,
            ));
            let (left, m): (usize, String) = session.on_remove_failed(
                &self.removes,
                &chunk,
                rejected,
            );
            self.error = Some(m);
            self.lost_removes = left;
            proof {
                law_sent_and_unsent_make_up_all(
                    group_views(self.removes@),
                    self.remove_calls@,
                    self.removed as int,
                );
            }
        }
    }

    /// A barrier is told of success only after the server has acknowledged every
    /// hash that was to be inserted and removed before it.
    pub proof fn law_barrier_waits_for_every_hash(self)
        requires
            self.wf(),
            self.action() is Succeed,
        ensures
            self.insert_total() == 0 && self.remove_total() == 0 || self.acknowledged()
                == self.calls(),
            carry_all(group_views(self.inserts()), self.insert_calls()),
            carry_all(group_views(self.removes()), self.remove_calls()),
    {
    }
}

/// What comes next, as a specification states it.
pub enum PublishStep {
    PrepareSession,
    Insert(RpcChunk),
    Remove(RpcChunk),
    Succeed,
    Fail(Seq<char>),
}

/// What a client of the metadata server goes through.
pub enum PublishEvent {
    /// Registrations of so many hashes could not be queued.
    Dropped { count: nat },
    /// Commands were drained and carried out, as far as that went.
    Drained { cmds: Seq<MetaServerCommand>, publication: Publication },
}

/// How many hashes an event loses.
pub open spec fn lost_by(e: PublishEvent) -> int {
    match e {
        PublishEvent::Dropped { count } => count as int,
        PublishEvent::Drained { publication, .. } => publication.lost(),
    }
}

/// Whether an event is over: what was drained is what the commands came to, and nothing of it
/// is left to do.
pub open spec fn is_over(e: PublishEvent) -> bool {
    match e {
        PublishEvent::Dropped { .. } => true,
        PublishEvent::Drained { cmds, publication } => {
            &&& publication.wf()
            &&& publication.ended()
            &&& is_grouping(group_views(publication.inserts()), drained(cmds, true))
        },
    }
}

/// How many hashes the first `k` events lose.
pub open spec fn total_lost(events: Seq<PublishEvent>, k: int) -> int
    decreases k,
{
    if k <= 0 {
        0
    } else {
        total_lost(events, k - 1) + lost_by(events[k - 1])
    }
}

/// What a session counts as lost after the first `k` events: each adds what it loses.
pub open spec fn counted(events: Seq<PublishEvent>, k: int) -> u64
    decreases k,
{
    if k <= 0 {
        0
    } else {
        capped_sum(counted(events, k - 1), lost_by(events[k - 1]))
    }
}

/// Whether a call carries the hash of a key.
pub open spec fn carries(groups: Seq<GroupView>, call: RpcChunk, key: KeyView) -> bool {
    &&& call.group < groups.len()
    &&& groups[call.group as int].0 == key.0
    &&& exists|x: int|
        call.offset <= x < call.offset + call.len && x < groups[call.group as int].1.len()
            && #[trigger] groups[call.group as int].1[x] == key.1
}

/// Whether a registration stands: no removal of the same key comes after it.
pub open spec fn stands(cmds: Seq<MetaServerCommand>, key: KeyView, o: int) -> bool {
    let ops = ops_of(cmds);
    &&& 0 <= o < ops.len()
    &&& ops[o] == (key, true)
    &&& forall|j: int| o < j < ops.len() ==> #[trigger] ops[j] != (key, false)
}

proof fn lemma_sent_grows(calls: Seq<RpcChunk>, m: int, n: int)
    requires
        0 <= m <= n <= calls.len(),
    ensures
        sent(calls, m) <= sent(calls, n),
    decreases n,
{
    if m < n {
        lemma_sent_grows(calls, m, n - 1);
    }
}

proof fn lemma_lost(p: Publication)
    requires
        p.wf(),
        p.ended(),
    ensures
        p.lost() >= 0,
        p.lost() == 0 ==> p.acknowledged() >= p.insert_calls().len(),
{
    let calls = p.insert_calls();
    let n = calls.len() as int;
    let k = p.acknowledged_inserts();
    lemma_sent_grows(calls, k, n);
    if p.acknowledged() < n {
        assert(chunk_in_order(group_views(p.inserts()), calls, k));
        assert(sent(calls, k + 1) == sent(calls, k) + calls[k].len);
        lemma_sent_grows(calls, k + 1, n);
        lemma_sent_grows(calls, 0, k);
        assert(calls[k].len > 0);
    }
}

proof fn lemma_counted(events: Seq<PublishEvent>, k: int, n: int)
    requires
        0 <= k <= n <= events.len(),
        forall|i: int| 0 <= i < n ==> is_over(#[trigger] events[i]),
    ensures
        0 <= total_lost(events, k) <= total_lost(events, n),
        counted(events, k) == capped_sum(0, total_lost(events, k)),
    decreases n + k,
{
    if k < n {
        lemma_counted_back(events, k, n);
        lemma_counted(events, k, k);
    } else if k > 0 {
        lemma_counted_back(events, k - 1, k);
        lemma_counted(events, k - 1, k - 1);
        assert(is_over(events[k - 1]));
        if let PublishEvent::Drained { cmds, publication } = events[k - 1] {
            lemma_lost(publication);
        }
    }
}

proof fn lemma_counted_back(events: Seq<PublishEvent>, k: int, n: int)
    requires
        0 <= k <= n <= events.len(),
        forall|i: int| 0 <= i < n ==> is_over(#[trigger] events[i]),
    ensures
        total_lost(events, k) <= total_lost(events, n),
    decreases n,
{
    if k < n {
        lemma_counted_back(events, k, n - 1);
        assert(is_over(events[n - 1]));
        if let PublishEvent::Drained { cmds, publication } = events[n - 1] {
            lemma_lost(publication);
        }
    }
}

/// A drain that is under way makes its calls one after the other, the insertions before the
/// removals, and has succeeded exactly when all are acknowledged. One with nothing to say makes
/// none; one in which something went wrong makes no further call.
pub proof fn law_calls_are_made_in_turn(p: Publication)
    requires
        p.wf(),
    ensures
        p.error() is None && p.calls() > 0 && !p.prepared() ==> p.action() is PrepareSession,
        p.error() is None && p.prepared() && p.acknowledged() < p.insert_calls().len()
            ==> p.action() == PublishStep::Insert(p.insert_calls()[p.acknowledged()]),
        p.error() is None && p.prepared() && p.insert_calls().len() <= p.acknowledged()
            < p.insert_calls().len() + p.remove_calls().len() ==> p.action()
            == PublishStep::Remove(
            p.remove_calls()[p.acknowledged() - p.insert_calls().len()],
        ),
        p.error() is None && p.acknowledged() == p.insert_calls().len() + p.remove_calls().len()
            && (p.prepared() || p.calls() == 0) ==> p.action() is Succeed,
        p.error() is Some ==> p.action() == PublishStep::Fail(p.error()->0),
        p.calls() > 0 <==> p.insert_total() + p.remove_total() > 0,
{
    lemma_calls_and_hashes(group_views(p.inserts()), p.insert_calls());
    lemma_calls_and_hashes(group_views(p.removes()), p.remove_calls());
}

proof fn lemma_calls_and_hashes(groups: Seq<GroupView>, calls: Seq<RpcChunk>)
    requires
        carry_all(groups, calls),
    ensures
        calls.len() > 0 <==> hash_count(groups) > 0,
{
    if calls.len() > 0 {
        assert(chunk_in_order(groups, calls, 0));
        assert(sent(calls, 1) == sent(calls, 0) + calls[0].len);
        lemma_sent_grows(calls, 1, calls.len() as int);
    }
}

/// What a drain that went wrong has lost are the insertions that were not acknowledged, and what
/// it has not removed are the removals that were not: together with those that were they are all.
pub proof fn law_lost_and_acknowledged_make_up_all(p: Publication)
    requires
        p.wf(),
        p.error() is Some,
    ensures
        p.lost() + sent(
            p.insert_calls(),
            if p.acknowledged() < p.insert_calls().len() {
                p.acknowledged()
            } else {
                p.insert_calls().len() as int
            },
        ) == p.insert_total(),
        p.acknowledged() >= p.insert_calls().len() ==> p.lost() == 0 && p.unremoved() + sent(
            p.remove_calls(),
            p.acknowledged() - p.insert_calls().len(),
        ) == p.remove_total(),
        p.acknowledged() < p.insert_calls().len() ==> p.unremoved() == p.remove_total(),
{
}

/// What a session counts as lost is exactly what the events have lost, as far as it can be
/// counted.
pub proof fn law_the_count_is_what_was_lost(events: Seq<PublishEvent>, n: int)
    requires
        0 <= n <= events.len(),
        forall|i: int| 0 <= i < n ==> is_over(#[trigger] events[i]),
    ensures
        total_lost(events, n) <= u64::MAX ==> counted(events, n) == total_lost(events, n),
        total_lost(events, n) > u64::MAX ==> counted(events, n) == u64::MAX,
        n > 0 ==> total_lost(events, n) - total_lost(events, n - 1) == match events[n - 1] {
            PublishEvent::Dropped { count } => count as int,
            PublishEvent::Drained { publication, .. } => publication.lost(),
        },
{
    lemma_counted(events, n, n);
}

/// A loss is never forgotten: once a publication was lost, the session counts it, and no barrier
/// succeeds any more.
pub proof fn law_losses_are_never_forgotten(events: Seq<PublishEvent>, k: int, n: int)
    requires
        0 <= k <= n <= events.len(),
        forall|i: int| 0 <= i < n ==> is_over(#[trigger] events[i]),
        total_lost(events, k) > 0,
    ensures
        counted(events, n) > 0,
{
    lemma_counted(events, k, n);
    lemma_counted(events, n, n);
}

proof fn lemma_selected(ops: Seq<(KeyView, bool)>, kind: bool, i: int)
    requires
        0 <= i < ops.len(),
        ops[i].1 == kind,
    ensures
        selected(ops, kind).contains(ops[i].0),
    decreases ops.len(),
{
    let front = ops.drop_last();
    let all = selected(ops, kind);
    if i < front.len() {
        lemma_selected(front, kind, i);
        let rest = selected(front, kind);
        let p = choose|p: int| 0 <= p < rest.len() && rest[p] == ops[i].0;
        assert(all[p] == ops[i].0);
    } else {
        assert(all[all.len() - 1] == ops[i].0);
    }
}

proof fn lemma_last_op(ops: Seq<(KeyView, bool)>, key: KeyView, o: int, n: int) -> (i: int)
    requires
        0 <= o < n <= ops.len(),
        ops[o].0 == key,
        forall|j: int| n <= j < ops.len() ==> (#[trigger] ops[j]).0 != key,
    ensures
        o <= i < n,
        is_last_op(ops, key, i),
    decreases n,
{
    if ops[n - 1].0 == key {
        n - 1
    } else {
        lemma_last_op(ops, key, o, n - 1)
    }
}

/// A registration that stands is inserted by its drain.
proof fn lemma_standing_is_drained(cmds: Seq<MetaServerCommand>, key: KeyView, o: int)
    requires
        stands(cmds, key, o),
    ensures
        drained(cmds, true).contains(key),
{
    let ops = ops_of(cmds);
    if mixed(cmds) {
        let i = lemma_last_op(ops, key, o, ops.len() as int);
        assert(ops[i].1) by {
            if !ops[i].1 {
                assert(ops[i] == (key, false));
            }
        }
        law_last_write_wins(ops, key, i);
        let all = net(ops);
        let p = crate::keyed::place(all, key);
        assert(is_entry(all, key, p));
        lemma_selected(all, true, p);
    } else {
        lemma_selected(ops, true, o);
    }
}

proof fn lemma_hash_is_grouped(entries: Seq<KeyView>, e: int) -> (x: int)
    requires
        0 <= e < entries.len(),
    ensures
        0 <= x < hashes_in(entries, entries[e].0).len(),
        hashes_in(entries, entries[e].0)[x] == entries[e].1,
    decreases entries.len(),
{
    let front = entries.drop_last();
    if e < front.len() {
        lemma_hash_is_grouped(front, e)
    } else {
        hashes_in(entries, entries[e].0).len() - 1
    }
}

proof fn lemma_count_grows(groups: Seq<GroupView>, m: int, n: int)
    requires
        0 <= m <= n <= groups.len(),
    ensures
        hash_count(groups.take(m)) <= hash_count(groups.take(n)),
    decreases n,
{
    if m < n {
        lemma_count_grows(groups, m, n - 1);
        assert(groups.take(n).drop_last() =~= groups.take(n - 1));
    }
}

/// The call that carries the hash at place `at` of all that are sent.
proof fn lemma_call_at(calls: Seq<RpcChunk>, at: int, n: int) -> (k: int)
    requires
        0 <= n <= calls.len(),
        0 <= at < sent(calls, n),
    ensures
        0 <= k < n,
        sent(calls, k) <= at < sent(calls, k) + calls[k].len,
    decreases n,
{
    if sent(calls, n - 1) <= at {
        n - 1
    } else {
        lemma_call_at(calls, at, n - 1)
    }
}

/// Calls that carry all hashes carry each of them.
proof fn lemma_hash_is_carried(
    groups: Seq<GroupView>,
    calls: Seq<RpcChunk>,
    key: KeyView,
    g: int,
    x: int,
) -> (k: int)
    requires
        carry_all(groups, calls),
        0 <= g < groups.len(),
        0 <= x < groups[g].1.len(),
        key == (groups[g].0, groups[g].1[x]),
    ensures
        0 <= k < calls.len(),
        carries(groups, calls[k], key),
{
    let at = hash_count(groups.take(g)) + x;
    let next = groups.take(g + 1);
    assert(next.drop_last() =~= groups.take(g));
    assert(next.last() == groups[g]);
    lemma_count_grows(groups, g + 1, groups.len() as int);
    assert(groups.take(groups.len() as int) =~= groups);
    let k = lemma_call_at(calls, at, calls.len() as int);
    assert(chunk_in_order(groups, calls, k));
    let c = calls[k];
    let own = groups.take(c.group + 1);
    assert(own.drop_last() =~= groups.take(c.group as int));
    assert(own.last() == groups[c.group as int]);
    if c.group < g {
        lemma_count_grows(groups, c.group + 1, g);
    } else if c.group > g {
        lemma_count_grows(groups, g + 1, c.group as int);
    }
    assert(c.group == g);
    assert(groups[c.group as int].1[x] == key.1);
    k
}

/// A barrier that succeeds vouches for everything before it, over however many drains that
/// went: nothing was dropped, and every registration that was not taken back by a later removal
/// in its drain was carried by a call that the server has acknowledged.
pub proof fn law_barriers_vouch_for_every_registration(
    events: Seq<PublishEvent>,
    n: int,
    i: int,
)
    requires
        0 <= i < n <= events.len(),
        forall|k: int| 0 <= k < n ==> is_over(#[trigger] events[k]),
        counted(events, n) == 0,
    ensures
        match events[i] {
            PublishEvent::Dropped { count } => count == 0,
            PublishEvent::Drained { cmds, publication } => {
                &&& publication.acknowledged() >= publication.insert_calls().len()
                &&& forall|key: KeyView, o: int| #[trigger]
                    stands(cmds, key, o) ==> exists|k: int|
                        0 <= k < publication.insert_calls().len() && carries(
                            group_views(publication.inserts()),
                            #[trigger] publication.insert_calls()[k],
                            key,
                        )
            },
        },
{
    lemma_counted(events, n, n);
    lemma_counted(events, i, n);
    lemma_counted(events, i + 1, n);
    assert(lost_by(events[i]) == 0);
    assert(is_over(events[i]));
    if let PublishEvent::Drained { cmds, publication } = events[i] {
        lemma_lost(publication);
        let groups = group_views(publication.inserts());
        let calls = publication.insert_calls();
        let entries = drained(cmds, true);
        assert forall|key: KeyView, o: int| #[trigger] stands(cmds, key, o) implies exists|k: int|
            0 <= k < calls.len() && carries(groups, #[trigger] calls[k], key) by {
            lemma_standing_is_drained(cmds, key, o);
            let e = choose|e: int| 0 <= e < entries.len() && entries[e] == key;
            assert(entries[e].0 == key.0);
            assert(mentions(entries, key.0));
            assert(has_key(groups, key.0));
            let g = crate::keyed::place(groups, key.0);
            assert(is_entry(groups, key.0, g));
            let x = lemma_hash_is_grouped(entries, e);
            assert(groups[g].1 == hashes_in(entries, groups[g].0));
            let k = lemma_hash_is_carried(groups, calls, key, g, x);
            assert(carries(groups, calls[k], key));
        }
    }
}

} // verus!
