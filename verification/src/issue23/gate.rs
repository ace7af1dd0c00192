//! Cohorts: bundles wait until their cohort is complete, are released at fixed
//! offsets, and are reported once they are done.

use vstd::prelude::*;
use vstd::string::*;
use crate::issue23::experiment::{
    is_request, request_of, same_manifest, Issue23CausalExperiment, ObservedOperation,
};
use crate::issue23::plan::{
    Issue23Backend, Issue23OperationPlan, Issue23RequestPlan, Issue23Schedule,
    EXPECTED_COHORT_SIZE,
};
use crate::keyed::{
    as_map, has_key, is_entry, lemma_place, lemma_push, lemma_remove, unique_keys,
};
use crate::text::{decimal, decimal_text, join2, join4, same_text};
use crate::transfer::types::TransferOutcome;

verus! {

/// How long after the last bundle of a cohort became eligible a burst starts.
pub const BURST_OFFSET_MS: u64 = 15;

/// How far apart the posts of a burst may lie.
pub const MAX_BURST_POSTING_SPREAD_NS: u64 = 1_000_000;

/// How long before a deadline sleeping ends and spinning starts.
pub const PRECISE_WAIT_GUARD_NS: u64 = 2_000_000;

/// How long after the last bundle of a cohort became eligible a bundle is
/// released, in milliseconds.
pub open spec fn offset_ms(schedule: Issue23Schedule, slot: int) -> int {
    match schedule {
        Issue23Schedule::Burst => BURST_OFFSET_MS as int,
        Issue23Schedule::Smooth => 10 * slot,
    }
}

/// The offset of a bundle in milliseconds: all at once in a burst, ten
/// milliseconds apart in smooth slots.
pub fn scheduled_offset_ms(schedule: Issue23Schedule, smooth_slot: usize) -> (r: u64)
    requires
        smooth_slot < EXPECTED_COHORT_SIZE,
    ensures
        r == offset_ms(schedule, smooth_slot as int),
        r <= 30,
{
    match schedule {
        Issue23Schedule::Burst => BURST_OFFSET_MS,
        Issue23Schedule::Smooth => smooth_slot as u64 * 10,
    }
}

/// A bundle that waits for its cohort.
#[derive(Debug)]
pub struct GatedBundle {
    pub stable_request_id: String,
    pub raw_request_id: String,
    pub cohort_id: String,
    pub smooth_slot: usize,
    pub eligible_at: u64,
    pub operations: Vec<ObservedOperation>,
    /// What the caller finds the prepared transfer and the waiting task by.
    pub ticket: u64,
}

/// Whether one of `members` stands at `slot`.
pub open spec fn slot_taken(members: Seq<GatedBundle>, slot: int) -> bool {
    exists|i: int| 0 <= i < members.len() && (#[trigger] members[i]).smooth_slot == slot
}

/// Whether no two of `members` stand at the same slot.
pub open spec fn distinct_slots(members: Seq<GatedBundle>) -> bool {
    forall|i: int, j: int|
        0 <= i < j < members.len() ==> (#[trigger] members[i]).smooth_slot != (
        #[trigger] members[j]).smooth_slot
}

/// Whether `members` stand at different slots of a cohort.
pub open spec fn in_slots(members: Seq<GatedBundle>) -> bool {
    &&& distinct_slots(members)
    &&& forall|i: int|
        0 <= i < members.len() ==> (#[trigger] members[i]).smooth_slot < EXPECTED_COHORT_SIZE
}

/// The waiting bundles of each cohort.
#[derive(Debug)]
pub struct CohortGate {
    cohorts: Vec<(String, Vec<GatedBundle>)>,
}

/// The cohorts with their waiting bundles.
pub open spec fn cohort_views(cohorts: Seq<(String, Vec<GatedBundle>)>) -> Seq<
    (Seq<char>, Seq<GatedBundle>),
> {
    cohorts.map_values(|c: (String, Vec<GatedBundle>)| (c.0@, c.1@))
}

/// Whether a bundle that comes to wait turns `before` into `after` with the answer `r`: the
/// fourth of a cohort releases all of them, and one at a slot that is taken is refused.
pub open spec fn gated(
    before: CohortGate,
    after: CohortGate,
    bundle: GatedBundle,
    r: Result<Option<Vec<GatedBundle>>, String>,
) -> bool {
    let cohort = bundle.cohort_id@;
    let members = before.members(cohort);
    if slot_taken(members, bundle.smooth_slot as int) {
        &&& r matches Err(m) && m@ == "cohort "@ + cohort + " received duplicate smooth slot "@
            + decimal(bundle.smooth_slot as nat)
        &&& after.map() == before.map()
    } else if members.len() + 1 == EXPECTED_COHORT_SIZE {
        &&& r matches Ok(Some(all)) && all@ == members.push(bundle) && in_slots(all@)
        &&& after.map() == before.map().remove(cohort)
    } else {
        &&& r matches Ok(None)
        &&& after.map() == before.map().insert(cohort, members.push(bundle))
    }
}

impl CohortGate {
    /// The cohorts with their waiting bundles, in no particular order.
    pub closed spec fn entries(self) -> Seq<(Seq<char>, Seq<GatedBundle>)> {
        cohort_views(self.cohorts@)
    }

    /// The waiting bundles by cohort.
    pub open spec fn map(self) -> Map<Seq<char>, Seq<GatedBundle>> {
        as_map(self.entries())
    }

    /// The waiting bundles of a cohort.
    pub open spec fn members(self, cohort: Seq<char>) -> Seq<GatedBundle> {
        if self.map().contains_key(cohort) {
            self.map()[cohort]
        } else {
            Seq::empty()
        }
    }

    /// No cohort occurs twice or is complete, and its bundles stand at different
    /// slots.
    pub open spec fn wf(self) -> bool {
        &&& unique_keys(self.entries())
        &&& forall|i: int|
            0 <= i < self.entries().len() ==> (#[trigger] self.entries()[i]).1.len() < 4
                && in_slots(self.entries()[i].1)
    }

    /// Nothing waits yet.
    pub fn new() -> (r: Self)
        ensures
            r.wf(),
            r.map() == Map::<Seq<char>, Seq<GatedBundle>>::empty(),
    {
        let r: CohortGate = CohortGate { cohorts: Vec::new() };
        assert(r.map() =~= Map::<Seq<char>, Seq<GatedBundle>>::empty());
        r
    }

    fn find(&self, cohort: &str) -> (r: Option<usize>)
        requires
            self.wf(),
        ensures
            match r {
                Some(i) => {
                    &&& i < self.cohorts@.len()
                    &&& self.entries()[i as int].0 == cohort@
                    &&& self.map().contains_key(cohort@)
                    &&& self.map()[cohort@] == self.cohorts@[i as int].1@
                },
                None => !has_key(self.entries(), cohort@) && !self.map().contains_key(cohort@),
            },
    {
        let mut i: usize = 0;
        while i < self.cohorts.len()
            invariant
                self.wf(),
                i <= self.cohorts@.len(),
                forall|k: int| 0 <= k < i ==> !#[trigger] is_entry(self.entries(), cohort@, k),
            decreases self.cohorts@.len() - i,
        {
            assert(self.entries()[i as int] == (
                self.cohorts@[i as int].0@,
                self.cohorts@[i as int].1@,
            ));
            if same_text(&self.cohorts[i].0, cohort) {
                proof {
                    lemma_place(self.entries(), cohort@, i as int);
                }
                return Some(i);
            }
            i += 1;
        }
        None
    }

    /// Lets a bundle wait for its cohort. The fourth one completes the cohort,
    /// which is then released; a slot that is taken already is refused.
    pub fn gate_bundle(&mut self, bundle: GatedBundle) -> (r: Result<
        Option<Vec<GatedBundle>>,
        String,
    >)
        requires
            old(self).wf(),
            bundle.smooth_slot < EXPECTED_COHORT_SIZE,
        ensures
            final(self).wf(),
            gated(*old(self), *final(self), bundle, r),
    {
        let ghost before = self.map();
        let ghost cohort = bundle.cohort_id@;
        let ghost members = self.members(cohort);
        let mut group: Vec<GatedBundle> = Vec::new();
        match self.find(&bundle.cohort_id) {
            Some(i) => {
                assert(self.entries()[i as int].1 == self.cohorts@[i as int].1@);
                if has_slot(&self.cohorts[i].1, bundle.smooth_slot) {
                    return Err(
                        join4(
                            "cohort ",
                            &bundle.cohort_id,
                            " received duplicate smooth slot ",
                            &decimal_text(bundle.smooth_slot as u64),
                        ),
                    );
                }
                let ghost entries = self.entries();
                proof {
                    lemma_remove(entries, i as int);
                }
                let entry: (String, Vec<GatedBundle>) = self.cohorts.remove(i);
                proof {
                    assert(self.entries() =~= entries.remove(i as int));
                    assert forall|k: int| 0 <= k < self.entries().len() implies (#[trigger]
                    self.entries()[k]).1.len() < 4 && in_slots(self.entries()[k].1) by {
                        let q = if k < i {
                            k
                        } else {
                            k + 1
                        };
                        assert(self.entries()[k] == entries[q]);
                    }
                }
                group = entry.1;
            },
            None => {
                assert(before.remove(cohort) =~= before);
                assert(group@ =~= members);
            },
        }
        let name: String = bundle.cohort_id.clone();
        group.push(bundle);
        proof {
            assert(group@ == members.push(bundle));
            assert(in_slots(members)) by {
                if before.contains_key(cohort) {
                    let k = crate::keyed::place(old(self).entries(), cohort);
                    assert(is_entry(old(self).entries(), cohort, k));
                    assert(old(self).entries()[k].1 == members);
                }
            }
            assert(in_slots(group@));
            assert(self.map() == before.remove(cohort));
        }
        if group.len() == EXPECTED_COHORT_SIZE {
            return Ok(Some(group));
        }
        let ghost entries = self.entries();
        proof {
            assert(!has_key(entries, cohort)) by {
                assert(!self.map().contains_key(cohort));
            }
            lemma_push(entries, cohort, group@);
            assert(before.remove(cohort).insert(cohort, group@) =~= before.insert(
                cohort,
                group@,
            ));
        }
        let ghost waiting = group@;
        self.cohorts.push((name, group));
        proof {
            assert(self.entries() =~= entries.push((cohort, waiting)));
            assert forall|k: int| 0 <= k < self.entries().len() implies (#[trigger]
            self.entries()[k]).1.len() < 4 && in_slots(self.entries()[k].1) by {
                if k < entries.len() {
                    assert(self.entries()[k] == entries[k]);
                }
            }
        }
        Ok(None)
    }

    /// Lets the bundle of a planned request wait for its cohort. A request that is not planned
    /// is refused, and so is a bundle that is not the planned one.
    pub fn gate_request(
        &mut self,
        experiment: &Issue23CausalExperiment,
        raw_request_id: &str,
        stable_request_id: &str,
        operations: Vec<ObservedOperation>,
        eligible_at: u64,
        ticket: u64,
    ) -> (r: Result<Option<Vec<GatedBundle>>, String>)
        requires
            old(self).wf(),
            experiment.wf(),
        ensures
            final(self).wf(),
            ({
                let plan = experiment.plan()->0;
                let q = request_of(plan, stable_request_id@);
                if !experiment.is_planned(stable_request_id@) {
                    &&& r matches Err(m) && m@ == "request "@ + stable_request_id@
                        + " is absent from the frozen transfer plan"@
                    &&& final(self).map() == old(self).map()
                } else if !same_manifest(operations@, plan.ops(q)) {
                    &&& r matches Err(m) && m@ == "request "@ + stable_request_id@
                        + " transfer manifest drift: observed "@ + decimal(operations@.len())
                        + " operations, expected "@ + decimal(plan.ops(q).len())
                    &&& final(self).map() == old(self).map()
                } else {
                    exists|bundle: GatedBundle| #[trigger]
                        gated(*old(self), *final(self), bundle, r) && {
                            &&& bundle.stable_request_id@ == stable_request_id@
                            &&& bundle.raw_request_id@ == raw_request_id@
                            &&& bundle.cohort_id@ == plan.cohort(q)
                            &&& bundle.smooth_slot == plan.requests@[q].smooth_slot
                            &&& bundle.eligible_at == eligible_at
                            &&& bundle.operations == operations
                            &&& bundle.ticket == ticket
                        }
                }
            }),
    {
        let ghost plan = experiment.plan()->0;
        let ghost q = request_of(plan, stable_request_id@);
        let request: &Issue23RequestPlan = match experiment.request_plan(
            stable_request_id,
            &operations,
        ) {
            Ok(request) => request,
            Err(m) => {
                return Err(m);
            },
        };
        proof {
            plan.law_accepted_plans();
            assert(is_request(plan, stable_request_id@, q));
            assert(plan.sound_request(q));
        }
        let bundle: GatedBundle = GatedBundle {
            stable_request_id: String::from_str(stable_request_id),
            raw_request_id: String::from_str(raw_request_id),
            cohort_id: request.cohort_id.clone(),
            smooth_slot: request.smooth_slot,
            eligible_at,
            operations,
            ticket,
        };
        let ghost shown = bundle;
        let r: Result<Option<Vec<GatedBundle>>, String> = self.gate_bundle(bundle);
        assert(gated(*old(self), *self, shown, r));
        r
    }
}

fn has_slot(members: &Vec<GatedBundle>, slot: usize) -> (r: bool)
    ensures
        r == slot_taken(members@, slot as int),
{
    let mut i: usize = 0;
    while i < members.len()
        invariant
            i <= members@.len(),
            forall|k: int| 0 <= k < i ==> (#[trigger] members@[k]).smooth_slot != slot,
        decreases members@.len() - i,
    {
        if members[i].smooth_slot == slot {
            assert(members@[i as int].smooth_slot == slot);
            return true;
        }
        i += 1;
    }
    false
}

/// When the last of the first `n` members became eligible.
pub open spec fn last_eligible(members: Seq<GatedBundle>, n: int) -> u64
    decreases n,
{
    if n <= 0 {
        0
    } else {
        let rest = last_eligible(members, n - 1);
        if members[n - 1].eligible_at > rest {
            members[n - 1].eligible_at
        } else {
            rest
        }
    }
}

/// When a member of a cohort is released.
#[derive(Clone, Copy, Debug, PartialEq, Eq, Structural)]
pub struct Release {
    /// The place of the member in the cohort.
    pub member: usize,
    /// The time of the release, in nanoseconds.
    pub release_at: u64,
}

/// When the members of a complete cohort are released, in the order of their
/// slots: at their offsets from the time at which the last one became eligible.
pub fn run_cohort(schedule: Issue23Schedule, cohort: &Vec<GatedBundle>) -> (r: Vec<Release>)
    requires
        cohort@.len() == EXPECTED_COHORT_SIZE,
        in_slots(cohort@),
        last_eligible(cohort@, 4) + 30_000_000 <= u64::MAX,
    ensures
        r@.len() == EXPECTED_COHORT_SIZE,
        forall|i: int|
            0 <= i < 4 ==> {
                &&& (#[trigger] r@[i]).member < 4
                &&& cohort@[r@[i].member as int].smooth_slot == i
                &&& r@[i].release_at == last_eligible(cohort@, 4) + offset_ms(schedule, i)
                    * 1_000_000
            },
{
    let mut tg: u64 = 0;
    let mut i: usize = 0;
    while i < cohort.len()
        invariant
            i <= cohort@.len(),
            tg == last_eligible(cohort@, i as int),
        decreases cohort@.len() - i,
    {
        if cohort[i].eligible_at > tg {
            tg = cohort[i].eligible_at;
        }
        i += 1;
    }
    let mut out: Vec<Release> = Vec::new();
    let mut slot: usize = 0;
    while slot < 4
        invariant
            slot <= 4,
            tg == last_eligible(cohort@, 4),
            tg + 30_000_000 <= u64::MAX,
            cohort@.len() == 4,
            distinct_slots(cohort@),
            forall|i: int| 0 <= i < cohort@.len() ==> (#[trigger] cohort@[i]).smooth_slot < 4,
            out@.len() == slot,
            forall|i: int|
                0 <= i < slot ==> {
                    &&& (#[trigger] out@[i]).member < 4
                    &&& cohort@[out@[i].member as int].smooth_slot == i
                    &&& out@[i].release_at == tg + offset_ms(schedule, i) * 1_000_000
                },
        decreases 4 - slot,
    {
        proof {
            let (a, b, c, d) = (cohort@[0], cohort@[1], cohort@[2], cohort@[3]);
            assert(a.smooth_slot == slot || b.smooth_slot == slot || c.smooth_slot == slot
                || d.smooth_slot == slot);
        }
        let mut m: usize = 0;
        while m < 4 && cohort[m].smooth_slot != slot
            invariant
                m <= 4,
                cohort@.len() == 4,
                cohort@[0].smooth_slot == slot || cohort@[1].smooth_slot == slot
                    || cohort@[2].smooth_slot == slot || cohort@[3].smooth_slot == slot,
                forall|k: int| 0 <= k < m ==> (#[trigger] cohort@[k]).smooth_slot != slot,
            decreases 4 - m,
        {
            m += 1;
        }
        let offset: u64 = scheduled_offset_ms(schedule, slot);
        out.push(Release { member: m, release_at: tg + offset * 1_000_000 });
        slot += 1;
    }
    out
}

/// The earliest of the times that are there.
pub open spec fn earliest(posted: Seq<Option<u64>>) -> Option<u64>
    decreases posted.len(),
{
    if posted.len() == 0 {
        None
    } else {
        match (earliest(posted.drop_last()), posted.last()) {
            (Some(a), Some(b)) => Some(
                if b < a {
                    b
                } else {
                    a
                },
            ),
            (Some(a), None) => Some(a),
            (None, b) => b,
        }
    }
}

/// The latest of the times that are there.
pub open spec fn latest(posted: Seq<Option<u64>>) -> Option<u64>
    decreases posted.len(),
{
    if posted.len() == 0 {
        None
    } else {
        match (latest(posted.drop_last()), posted.last()) {
            (Some(a), Some(b)) => Some(
                if b > a {
                    b
                } else {
                    a
                },
            ),
            (Some(a), None) => Some(a),
            (None, b) => b,
        }
    }
}

/// How far apart the posts of a burst lay, and whether that is near enough.
#[derive(Clone, Copy, Debug, PartialEq, Eq, Structural)]
pub struct PostingSpread {
    pub spread_ns: u64,
    pub pass: bool,
}

/// How far apart the posts of a burst lay. A post that failed has no time; there
/// is nothing to report where all failed.
pub fn posting_spread(posted: &[Option<u64>]) -> (r: Option<PostingSpread>)
    ensures
        match earliest(posted@) {
            None => r is None,
            Some(first) => r == Some(
                PostingSpread {
                    spread_ns: (latest(posted@)->0 - first) as u64,
                    pass: latest(posted@)->0 - first <= MAX_BURST_POSTING_SPREAD_NS,
                },
            ),
        },
        earliest(posted@) is Some ==> latest(posted@) is Some && earliest(posted@)->0 <= latest(
            posted@,
        )->0,
{
    let mut first: Option<u64> = None;
    let mut last: Option<u64> = None;
    let mut i: usize = 0;
    assert(posted@.take(0) =~= Seq::<Option<u64>>::empty());
    while i < posted.len()
        invariant
            i <= posted@.len(),
            first == earliest(posted@.take(i as int)),
            last == latest(posted@.take(i as int)),
            first is Some == last is Some,
            first is Some ==> first->0 <= last->0,
        decreases posted@.len() - i,
    {
        proof {
            assert(posted@.take(i + 1).drop_last() =~= posted@.take(i as int));
            assert(posted@.take(i + 1).last() == posted@[i as int]);
        }
        if let Some(t) = posted[i] {
            first = match first {
                Some(a) => if t < a {
                    Some(t)
                } else {
                    Some(a)
                },
                None => Some(t),
            };
            last = match last {
                Some(b) => if t > b {
                    Some(t)
                } else {
                    Some(b)
                },
                None => Some(t),
            };
        }
        i += 1;
    }
    assert(posted@.take(i as int) =~= posted@);
    match (first, last) {
        (Some(a), Some(b)) => {
            let spread_ns: u64 = b - a;
            Some(PostingSpread { spread_ns, pass: spread_ns <= MAX_BURST_POSTING_SPREAD_NS })
        },
        _ => None,
    }
}

/// Until when to sleep before spinning for a deadline, if there is time to.
pub fn coarse_wait(deadline: u64, now: u64) -> (r: Option<u64>)
    ensures
        r == if deadline >= PRECISE_WAIT_GUARD_NS && now < deadline - PRECISE_WAIT_GUARD_NS {
            Some((deadline - PRECISE_WAIT_GUARD_NS) as u64)
        } else {
            None
        },
{
    if deadline >= PRECISE_WAIT_GUARD_NS {
        let coarse: u64 = deadline - PRECISE_WAIT_GUARD_NS;
        if now < coarse {
            return Some(coarse);
        }
    }
    None
}

/// One copy of a bundle that is carried out locally.
#[derive(Clone, Copy, Debug, PartialEq, Eq, Structural)]
pub struct LocalCopy {
    pub source: u64,
    pub destination: u64,
    pub len: usize,
}

/// How a released bundle is posted.
#[derive(Debug)]
pub enum PostStep {
    /// Submit the prepared transfer.
    Submit,
    /// Make these copies.
    Copy(Vec<LocalCopy>),
    /// Report this error.
    Fail(String),
}

/// The copies that carry operations out locally.
pub open spec fn copies_of(operations: Seq<ObservedOperation>) -> Seq<LocalCopy> {
    operations.map_values(
        |o: ObservedOperation|
            LocalCopy {
                source: o.remote_addr,
                destination: o.local_addr,
                len: o.logical_payload_bytes,
            },
    )
}

/// How a released bundle is posted: a prepared transfer is submitted, or its
/// operations are copied, as the backend says.
pub fn post_bundle(
    backend: Issue23Backend,
    prepared: bool,
    operations: &Vec<ObservedOperation>,
) -> (r: PostStep)
    ensures
        match backend {
            Issue23Backend::Rdma => if prepared {
                r is Submit
            } else {
                r matches PostStep::Fail(m) && m@ == "RDMA bundle was not prepared"@
            },
            Issue23Backend::LocalCopy => r matches PostStep::Copy(copies) && copies@ == copies_of(
                operations@,
            ),
        },
{
    match backend {
        Issue23Backend::Rdma => if prepared {
            PostStep::Submit
        } else {
            PostStep::Fail(String::from_str("RDMA bundle was not prepared"))
        },
        Issue23Backend::LocalCopy => {
            let mut copies: Vec<LocalCopy> = Vec::new();
            let mut i: usize = 0;
            while i < operations.len()
                invariant
                    i <= operations@.len(),
                    copies@ == copies_of(operations@).take(i as int),
                decreases operations@.len() - i,
            {
                copies.push(
                    LocalCopy {
                        source: operations[i].remote_addr,
                        destination: operations[i].local_addr,
                        len: operations[i].logical_payload_bytes,
                    },
                );
                i += 1;
                assert(copies@ =~= copies_of(operations@).take(i as int));
            }
            assert(copies_of(operations@).take(i as int) =~= copies_of(operations@));
            PostStep::Copy(copies)
        },
    }
}

/// The error of a submission that was refused.
pub fn submit_error(cause: &str) -> (r: String)
    ensures
        r@ == "RDMA submit failed: "@ + cause@,
{
    join2("RDMA submit failed: ", cause)
}

/// The bytes of the parts that completed, as far as they can be counted.
pub open spec fn completed_bytes(outcomes: Seq<TransferOutcome>) -> nat
    decreases outcomes.len(),
{
    if outcomes.len() == 0 {
        0
    } else {
        let sum = completed_bytes(outcomes.drop_last()) + match outcomes.last() {
            TransferOutcome::Completed(n) => n as nat,
            _ => 0,
        };
        if sum > usize::MAX {
            usize::MAX as nat
        } else {
            sum
        }
    }
}

/// The error of the first part that did not complete.
pub open spec fn first_failure(outcomes: Seq<TransferOutcome>) -> Option<Seq<char>>
    decreases outcomes.len(),
{
    if outcomes.len() == 0 {
        None
    } else if first_failure(outcomes.drop_last()) is Some {
        first_failure(outcomes.drop_last())
    } else {
        match outcomes.last() {
            TransferOutcome::Completed(_) => None,
            TransferOutcome::Failed(cause) => Some("RDMA transfer failed: "@ + cause@),
            TransferOutcome::Closed => Some("RDMA transfer channel closed"@),
        }
    }
}

/// What the parts of a bundle add up to: their bytes, or the first error. Every
/// part has ended by then.
pub fn rdma_result(outcomes: &[TransferOutcome]) -> (r: Result<usize, String>)
    ensures
        match r {
            Ok(bytes) => first_failure(outcomes@) is None && bytes == completed_bytes(outcomes@),
            Err(m) => first_failure(outcomes@) == Some(m@),
        },
{
    let mut bytes: usize = 0;
    let mut error: Option<String> = None;
    let mut i: usize = 0;
    assert(outcomes@.take(0) =~= Seq::<TransferOutcome>::empty());
    while i < outcomes.len()
        invariant
            i <= outcomes@.len(),
            bytes == completed_bytes(outcomes@.take(i as int)),
            match error {
                Some(m) => first_failure(outcomes@.take(i as int)) == Some(m@),
                None => first_failure(outcomes@.take(i as int)) is None,
            },
        decreases outcomes@.len() - i,
    {
        proof {
            assert(outcomes@.take(i + 1).drop_last() =~= outcomes@.take(i as int));
            assert(outcomes@.take(i + 1).last() == outcomes@[i as int]);
        }
        match &outcomes[i] {
            TransferOutcome::Completed(n) => {
                bytes = if *n > usize::MAX - bytes {
                    usize::MAX
                } else {
                    bytes + *n
                };
            },
            TransferOutcome::Failed(cause) => {
                if error.is_none() {
                    error = Some(join2("RDMA transfer failed: ", cause));
                }
            },
            TransferOutcome::Closed => {
                if error.is_none() {
                    error = Some(String::from_str("RDMA transfer channel closed"));
                }
            },
        }
        i += 1;
    }
    assert(outcomes@.take(i as int) =~= outcomes@);
    match error {
        Some(m) => Err(m),
        None => Ok(bytes),
    }
}

/// A bundle that was posted.
#[derive(Debug)]
pub struct PendingBundle {
    pub eligible_at: u64,
    pub posted_at: u64,
    pub submit_ns: u64,
    /// Why the post could not be traced, if it could not.
    pub trace_error: Option<String>,
}

/// How long a bundle waited for its cohort, was being submitted, and was under way.
#[derive(Clone, Copy, Debug, PartialEq, Eq, Structural)]
pub struct Issue23Completion {
    pub eligible_wait_ns: u64,
    pub submit_ns: u64,
    pub transport_wait_ns: u64,
}

/// The time from `start` to `end`; none where `end` comes first.
pub open spec fn elapsed(start: u64, end: u64) -> u64 {
    if end < start {
        0
    } else {
        (end - start) as u64
    }
}

/// What a waiting request is told: the bundle's error, or else the error of
/// tracing its post, or else that of tracing its completion, or else its times.
pub fn finish_post(
    pending: &PendingBundle,
    result: &Result<usize, String>,
    completed_at: u64,
    trace_result: &Result<(), String>,
) -> (r: Result<Issue23Completion, String>)
    ensures
        match *result {
            Err(e) => r matches Err(m) && m@ == e@,
            Ok(_) => match pending.trace_error {
                Some(e) => r matches Err(m) && m@ == e@,
                None => match *trace_result {
                    Err(e) => r matches Err(m) && m@ == e@,
                    Ok(_) => r == Ok::<Issue23Completion, String>(
                        Issue23Completion {
                            eligible_wait_ns: elapsed(pending.eligible_at, pending.posted_at),
                            submit_ns: pending.submit_ns,
                            transport_wait_ns: elapsed(pending.posted_at, completed_at),
                        },
                    ),
                },
            },
        },
{
    if let Err(e) = result {
        return Err(e.clone());
    }
    if let Some(e) = &pending.trace_error {
        return Err(e.clone());
    }
    if let Err(e) = trace_result {
        return Err(e.clone());
    }
    Ok(
        Issue23Completion {
            eligible_wait_ns: pending.posted_at.saturating_sub(pending.eligible_at),
            submit_ns: pending.submit_ns,
            transport_wait_ns: completed_at.saturating_sub(pending.posted_at),
        },
    )
}

/// The status of a finished bundle in the trace, and the bytes it transferred.
pub fn completion_status(result: &Result<usize, String>) -> (r: (&'static str, usize))
    ensures
        match *result {
            Ok(bytes) => r.0@ == "ok"@ && r.1 == bytes,
            Err(_) => r.0@ == "error"@ && r.1 == 0,
        },
{
    match result {
        Ok(bytes) => ("ok", *bytes),
        Err(_) => ("error", 0),
    }
}

/// The bytes of operations.
pub open spec fn payload_bytes(operations: Seq<Issue23OperationPlan>) -> nat
    decreases operations.len(),
{
    if operations.len() == 0 {
        0
    } else {
        payload_bytes(operations.drop_last()) + operations.last().logical_payload_bytes as nat
    }
}

/// What the trace says of a bundle's progress. Its size does not depend on how
/// many operations the bundle has.
#[derive(Debug)]
pub struct BundleTimingEvent {
    pub event: String,
    pub request_id: String,
    pub raw_request_id: String,
    pub cohort_id: String,
    pub smooth_slot: usize,
    pub operation_count: usize,
    pub logical_payload_bytes: u64,
    pub scheduled_offset_ms: Option<u64>,
}

proof fn lemma_payload_grows(operations: Seq<Issue23OperationPlan>, n: int)
    requires
        0 <= n <= operations.len(),
    ensures
        payload_bytes(operations.take(n)) <= payload_bytes(operations),
    decreases operations.len() - n,
{
    if n < operations.len() {
        lemma_payload_grows(operations, n + 1);
        assert(operations.take(n + 1).drop_last() =~= operations.take(n));
    } else {
        assert(operations.take(n) =~= operations);
    }
}

/// The trace event of a bundle of a planned request.
pub fn bundle_timing_event(
    event: &str,
    stable_request_id: &str,
    raw_request_id: &str,
    plan: &Issue23RequestPlan,
    scheduled_offset_ms: Option<u64>,
) -> (r: BundleTimingEvent)
    requires
        payload_bytes(plan.operations@) <= u64::MAX,
    ensures
        r.event@ == event@,
        r.request_id@ == stable_request_id@,
        r.raw_request_id@ == raw_request_id@,
        r.cohort_id@ == plan.cohort_id@,
        r.smooth_slot == plan.smooth_slot,
        r.operation_count == plan.operations@.len(),
        r.logical_payload_bytes == payload_bytes(plan.operations@),
        r.scheduled_offset_ms == scheduled_offset_ms,
{
    let mut bytes: u64 = 0;
    let mut i: usize = 0;
    let ops: &Vec<Issue23OperationPlan> = &plan.operations;
    assert(ops@.take(0) =~= Seq::<Issue23OperationPlan>::empty());
    while i < ops.len()
        invariant
            i <= ops@.len(),
            bytes == payload_bytes(ops@.take(i as int)),
            payload_bytes(ops@) <= u64::MAX,
        decreases ops@.len() - i,
    {
        proof {
            lemma_payload_grows(ops@, i + 1);
            assert(ops@.take(i + 1).drop_last() =~= ops@.take(i as int));
            assert(ops@.take(i + 1).last() == ops@[i as int]);
        }
        bytes = bytes + ops[i].logical_payload_bytes as u64;
        i += 1;
    }
    assert(ops@.take(i as int) =~= ops@);
    BundleTimingEvent {
        event: String::from_str(event),
        request_id: String::from_str(stable_request_id),
        raw_request_id: String::from_str(raw_request_id),
        cohort_id: plan.cohort_id.clone(),
        smooth_slot: plan.smooth_slot,
        operation_count: ops.len(),
        logical_payload_bytes: bytes,
        scheduled_offset_ms,
    }
}

/// The bundles of a smooth cohort are released ten milliseconds apart, those of a burst all
/// at once; on average both come equally late.
pub proof fn law_schedules_differ_in_spread_alone(i: int, j: int)
    ensures
        offset_ms(Issue23Schedule::Smooth, j) - offset_ms(Issue23Schedule::Smooth, i) == 10 * (j
            - i),
        offset_ms(Issue23Schedule::Burst, j) == offset_ms(Issue23Schedule::Burst, i),
        offset_ms(Issue23Schedule::Smooth, 0) + offset_ms(Issue23Schedule::Smooth, 1) + offset_ms(
            Issue23Schedule::Smooth,
            2,
        ) + offset_ms(Issue23Schedule::Smooth, 3) == 4 * offset_ms(Issue23Schedule::Burst, 0),
{
}

/// The smooth schedule releases a member every ten milliseconds from the start on, and the burst
/// releases all of them after fifteen.
pub proof fn law_offsets_are_fixed(slot: int)
    ensures
        offset_ms(Issue23Schedule::Smooth, 0) == 0,
        offset_ms(Issue23Schedule::Smooth, slot + 1) == offset_ms(Issue23Schedule::Smooth, slot) + 10,
        offset_ms(Issue23Schedule::Burst, slot) == 15,
{
}

/// A cohort starts when the last of its members has become eligible.
pub proof fn law_a_cohort_waits_for_its_last_member(members: Seq<GatedBundle>, n: int, i: int)
    requires
        0 <= i < n <= members.len(),
    ensures
        members[i].eligible_at <= last_eligible(members, n),
        exists|k: int|
            0 <= k < n && (#[trigger] members[k]).eligible_at == last_eligible(members, n),
    decreases n,
{
    if n > 1 {
        law_a_cohort_waits_for_its_last_member(
            members,
            n - 1,
            if i < n - 1 {
                i
            } else {
                0
            },
        );
    }
    reveal_with_fuel(last_eligible, 2);
    assert(members[n - 1].eligible_at <= last_eligible(members, n));
}

/// A cohort is released with its fourth member, and with all four in the order in which they came;
/// until then its members wait. A member whose slot is taken is refused and changes nothing, and
/// no other cohort is touched.
pub proof fn law_cohorts_are_released_when_complete(
    before: CohortGate,
    after: CohortGate,
    bundle: GatedBundle,
    r: Result<Option<Vec<GatedBundle>>, String>,
    waiting: Seq<GatedBundle>,
    other: Seq<char>,
)
    requires
        gated(before, after, bundle, r),
        before.map().contains_key(bundle.cohort_id@) ==> waiting == before.map()[bundle.cohort_id@],
        !before.map().contains_key(bundle.cohort_id@) ==> waiting.len() == 0,
        other != bundle.cohort_id@,
    ensures
        ({
            let repeated = exists|i: int|
                0 <= i < waiting.len() && (#[trigger] waiting[i]).smooth_slot == bundle.smooth_slot;
            &&& repeated <==> r is Err
            &&& repeated ==> after.map() == before.map()
            &&& !repeated && waiting.len() == 3 ==> (r matches Ok(Some(all)) && all@
                == waiting.push(bundle)) && !after.map().contains_key(bundle.cohort_id@)
            &&& !repeated && waiting.len() != 3 ==> (r matches Ok(None)) && after.map().contains_key(
                bundle.cohort_id@,
            ) && after.map()[bundle.cohort_id@] == waiting.push(bundle)
            &&& after.map().contains_key(other) == before.map().contains_key(other)
            &&& before.map().contains_key(other) ==> after.map()[other] == before.map()[other]
        }),
{
    assert(before.members(bundle.cohort_id@) =~= waiting);
}

/// Of some times the earliest and the latest are found, and none where there is none.
pub proof fn law_the_first_and_last_post_are_found(posted: Seq<Option<u64>>, i: int)
    ensures
        0 <= i < posted.len() && posted[i] is Some ==> (earliest(posted) matches Some(t) && t
            <= posted[i]->0) && (latest(posted) matches Some(t) && t >= posted[i]->0),
        earliest(posted) matches Some(t) ==> posted.contains(Some(t)),
        latest(posted) matches Some(t) ==> posted.contains(Some(t)),
    decreases posted.len(),
{
    if posted.len() > 0 {
        let front = posted.drop_last();
        law_the_first_and_last_post_are_found(front, i);
        assert(posted[posted.len() - 1] == posted.last());
        if earliest(front) is Some {
            let k = front.index_of(earliest(front));
            assert(posted[k] == earliest(front));
        }
        if latest(front) is Some {
            let k = front.index_of(latest(front));
            assert(posted[k] == latest(front));
        }
    }
}

/// The first part of a transfer that did not complete is what it failed for; one whose parts all
/// completed did not fail, and has moved all their bytes, as far as they can be counted.
pub proof fn law_transfers_fail_for_their_first_failure(outcomes: Seq<TransferOutcome>, i: int)
    ensures
        (forall|k: int| 0 <= k < outcomes.len() ==> (#[trigger] outcomes[k]) is Completed)
            <==> first_failure(outcomes) is None,
        0 <= i < outcomes.len() && (forall|k: int|
            0 <= k < i ==> (#[trigger] outcomes[k]) is Completed) ==> match outcomes[i] {
            TransferOutcome::Failed(cause) => first_failure(outcomes) == Some(
                "RDMA transfer failed: "@ + cause@,
            ),
            TransferOutcome::Closed => first_failure(outcomes) == Some(
                "RDMA transfer channel closed"@,
            ),
            TransferOutcome::Completed(_) => true,
        },
    decreases outcomes.len(),
{
    if outcomes.len() > 0 {
        let front = outcomes.drop_last();
        law_transfers_fail_for_their_first_failure(front, i);
        assert(outcomes[outcomes.len() - 1] == outcomes.last());
        assert forall|k: int| 0 <= k < front.len() implies front[k] == #[trigger] outcomes[k] by {}
    }
}

/// What was moved adds up, as far as it can be counted, and what is planned adds up too. No time
/// passes backwards.
pub proof fn law_payloads_add_up(
    outcomes: Seq<TransferOutcome>,
    bytes: usize,
    operations: Seq<Issue23OperationPlan>,
    op: Issue23OperationPlan,
    start: u64,
    end: u64,
)
    ensures
        completed_bytes(Seq::empty()) == 0,
        completed_bytes(outcomes) <= usize::MAX,
        completed_bytes(outcomes.push(TransferOutcome::Completed(bytes))) == (if completed_bytes(
            outcomes,
        ) + bytes > usize::MAX {
            usize::MAX as nat
        } else {
            completed_bytes(outcomes) + bytes as nat
        }),
        completed_bytes(outcomes.push(TransferOutcome::Closed)) == completed_bytes(outcomes),
        payload_bytes(Seq::empty()) == 0,
        payload_bytes(operations.push(op)) == payload_bytes(operations) + op.logical_payload_bytes,
        start <= end ==> elapsed(start, end) == end - start,
        start >= end ==> elapsed(start, end) == 0,
{
    assert(outcomes.push(TransferOutcome::Completed(bytes)).drop_last() =~= outcomes);
    assert(outcomes.push(TransferOutcome::Closed).drop_last() =~= outcomes);
    assert(operations.push(op).drop_last() =~= operations);
}

/// A local copy reads where the operation reads and writes where it writes, as many bytes; cohorts
/// are shown with all their members.
pub proof fn law_copies_are_those_of_the_operations(
    operations: Seq<ObservedOperation>,
    cohorts: Seq<(String, Vec<GatedBundle>)>,
    i: int,
)
    ensures
        copies_of(operations).len() == operations.len(),
        0 <= i < operations.len() ==> copies_of(operations)[i].source == operations[i].remote_addr
            && copies_of(operations)[i].destination == operations[i].local_addr && copies_of(
            operations,
        )[i].len == operations[i].logical_payload_bytes,
        cohort_views(cohorts).len() == cohorts.len(),
        0 <= i < cohorts.len() ==> cohort_views(cohorts)[i] == (cohorts[i].0@, cohorts[i].1@),
{
}

} // verus!
