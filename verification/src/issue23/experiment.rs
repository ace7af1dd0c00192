//! An experiment: preparation, in which the objects of the plan are restored and
//! kept out of sight, and the measured phase, which starts once all are there.

use std::sync::Arc;
use vstd::prelude::*;
use vstd::string::*;
use vstd::utf8::encode_utf8;
use crate::block::{byte_views, copy_bytes, BlockKey, RawBlock, SealedBlock};
use crate::hex::{decode_hex, encode_hex, hex_error, hex_text, hex_value};
use crate::issue23::identity::{stable_identity, stable_request_id};
use crate::issue23::layout::{
    all_operations, expected_hidden_layout, is_layout, layout_view, overflows, segment_error,
    segment_list,
};
use crate::issue23::plan::{
    hash_bytes, Issue23Backend, Issue23ExperimentConfig, Issue23OperationPlan, Issue23RequestPlan,
    Issue23Schedule, Issue23TransferPlan,
};
use crate::keyed::{has_key, is_entry, lemma_place, lemma_push, lookup, unique_keys};
use crate::shared::share;
use crate::text::{
    decimal, decimal_text, join2, join3, join4, join5, join6, same_bytes, same_text,
};

verus! {

/// A transfer operation as it was about to be made.
#[derive(Clone, Debug)]
pub struct ObservedOperation {
    pub operation_id: String,
    pub block_hash_hex: String,
    pub slot_index: usize,
    pub segment: String,
    pub source: String,
    pub destination: String,
    pub transfer_type: String,
    pub logical_payload_bytes: usize,
    pub qp_index: usize,
    pub local_addr: u64,
    pub remote_addr: u64,
}

/// Whether an observed operation is the planned one. Where it copies from and to
/// is no part of that.
pub open spec fn same_operation(a: ObservedOperation, b: Issue23OperationPlan) -> bool {
    &&& a.operation_id@ == b.operation_id@
    &&& a.block_hash_hex@ == b.block_hash_hex@
    &&& a.slot_index == b.slot_index
    &&& a.segment@ == b.segment@
    &&& a.source@ == b.source@
    &&& a.destination@ == b.destination@
    &&& a.transfer_type@ == b.transfer_type@
    &&& a.logical_payload_bytes == b.logical_payload_bytes
    &&& a.qp_index == b.qp_index
}

/// Whether the observed operations are the planned ones, in order.
pub open spec fn same_manifest(
    observed: Seq<ObservedOperation>,
    planned: Seq<Issue23OperationPlan>,
) -> bool {
    observed.len() == planned.len() && forall|i: int|
        0 <= i < observed.len() ==> same_operation(#[trigger] observed[i], planned[i])
}

impl ObservedOperation {
    /// The operation as a plan states it.
    pub fn as_plan(&self) -> (r: Issue23OperationPlan)
        ensures
            same_operation(*self, r),
    {
        Issue23OperationPlan {
            operation_id: self.operation_id.clone(),
            block_hash_hex: self.block_hash_hex.clone(),
            slot_index: self.slot_index,
            segment: self.segment.clone(),
            source: self.source.clone(),
            destination: self.destination.clone(),
            transfer_type: self.transfer_type.clone(),
            logical_payload_bytes: self.logical_payload_bytes,
            qp_index: self.qp_index,
        }
    }

    fn is_planned(&self, plan: &Issue23OperationPlan) -> (r: bool)
        ensures
            r == same_operation(*self, *plan),
    {
        self.slot_index == plan.slot_index && self.logical_payload_bytes
            == plan.logical_payload_bytes && self.qp_index == plan.qp_index && same_text(
            &self.operation_id,
            &plan.operation_id,
        ) && same_text(&self.block_hash_hex, &plan.block_hash_hex) && same_text(
            &self.segment,
            &plan.segment,
        ) && same_text(&self.source, &plan.source) && same_text(
            &self.destination,
            &plan.destination,
        ) && same_text(&self.transfer_type, &plan.transfer_type)
    }
}

fn manifest_matches(observed: &[ObservedOperation], planned: &Vec<Issue23OperationPlan>) -> (r: bool)
    ensures
        r == same_manifest(observed@, planned@),
{
    if observed.len() != planned.len() {
        return false;
    }
    let mut i: usize = 0;
    while i < observed.len()
        invariant
            i <= observed@.len(),
            observed@.len() == planned@.len(),
            forall|k: int| 0 <= k < i ==> same_operation(#[trigger] observed@[k], planned@[k]),
        decreases observed@.len() - i,
    {
        if !observed[i].is_planned(&planned[i]) {
            assert(!same_operation(observed@[i as int], planned@[i as int]));
            return false;
        }
        i += 1;
    }
    true
}

/// What an experiment hides once it is active.
#[derive(Clone, Copy, Debug, PartialEq, Eq, Structural)]
pub struct Issue23ActivationStats {
    pub hidden_blocks: usize,
    pub hidden_bytes: u64,
}

/// Whether request `r` of a plan has the identifier `id`.
pub open spec fn is_request(plan: Issue23TransferPlan, id: Seq<char>, r: int) -> bool {
    0 <= r < plan.requests@.len() && plan.id(r) == id
}

/// Whether a plan has a request with the identifier `id`.
pub open spec fn has_request(plan: Issue23TransferPlan, id: Seq<char>) -> bool {
    exists|r: int| is_request(plan, id, r)
}

/// The request with the identifier `id`.
pub open spec fn request_of(plan: Issue23TransferPlan, id: Seq<char>) -> int {
    choose|r: int| is_request(plan, id, r)
}

/// The hashes of the objects that operations move, each once, in the order of
/// their first operations.
pub open spec fn planned_hashes(ops: Seq<Issue23OperationPlan>) -> Seq<Seq<u8>>
    decreases ops.len(),
{
    if ops.len() == 0 {
        Seq::empty()
    } else {
        let front = planned_hashes(ops.drop_last());
        let hash = hex_value(hash_bytes(ops.last()));
        if front.contains(hash) {
            front
        } else {
            front.push(hash)
        }
    }
}

/// The objects that are kept out of sight.
pub open spec fn hidden_view(v: Seq<(Vec<u8>, Arc<SealedBlock>)>) -> Seq<
    (Seq<u8>, Arc<SealedBlock>),
> {
    v.map_values(|e: (Vec<u8>, Arc<SealedBlock>)| (e.0@, e.1))
}

/// How much of a remote prefix the plan lets a request fetch.
pub open spec fn frozen_prefix(
    plan: Option<Issue23TransferPlan>,
    raw: Seq<char>,
    requested: Seq<Seq<u8>>,
    available: nat,
) -> Result<nat, Seq<char>> {
    if plan is None {
        Ok(available)
    } else if available > requested.len() {
        Err(
            "remote prefix length "@ + decimal(available) + " exceeds requested block count "@
                + decimal(requested.len()),
        )
    } else {
        match stable_identity(raw) {
            Err(m) => Err(m),
            Ok(id) => if !has_request(plan->0, id) {
                Err("request "@ + id + " is absent from the frozen transfer plan"@)
            } else {
                let hashes = planned_hashes(plan->0.ops(request_of(plan->0, id)));
                if hashes.len() > available {
                    Err(
                        "request "@ + id
                            + " remote prefix is shorter than the frozen plan: available="@
                            + decimal(available) + " expected="@ + decimal(hashes.len()),
                    )
                } else if requested.take(hashes.len() as int) != hashes {
                    Err(
                        "request "@ + id + " remote prefix hashes differ from the frozen plan"@,
                    )
                } else {
                    Ok(hashes.len())
                }
            },
        }
    }
}

/// What is wrong with a restored object, if anything.
pub open spec fn stage_error(
    expected: Seq<(Seq<u8>, u64)>,
    hash: Seq<u8>,
    footprint: u64,
) -> Option<Seq<char>> {
    match lookup(expected, hash) {
        None => Some(
            "restored object "@ + hex_text(hash)
                + " is absent from the frozen hidden snapshot"@,
        ),
        Some(bytes) => if footprint != bytes {
            Some(
                "restored object "@ + hex_text(hash) + " size mismatch: observed="@ + decimal(
                    footprint as nat,
                ) + " expected="@ + decimal(bytes as nat),
            )
        } else {
            None
        },
    }
}

/// How many of the restored objects come before the first with which something
/// is wrong.
pub open spec fn stageable(
    expected: Seq<(Seq<u8>, u64)>,
    blocks: Seq<(BlockKey, Arc<SealedBlock>)>,
) -> nat
    decreases blocks.len(),
{
    if blocks.len() == 0 {
        0
    } else {
        let front = stageable(expected, blocks.drop_last());
        let last = blocks.last();
        if front == blocks.len() - 1 && stage_error(
            expected,
            last.0.hash@,
            last.1.footprint(),
        ) is None {
            blocks.len()
        } else {
            front
        }
    }
}

/// The hidden objects after `blocks` were added: of an object that comes again
/// the first one stays.
pub open spec fn with_staged(
    hidden: Seq<(Seq<u8>, Arc<SealedBlock>)>,
    blocks: Seq<(BlockKey, Arc<SealedBlock>)>,
) -> Seq<(Seq<u8>, Arc<SealedBlock>)>
    decreases blocks.len(),
{
    if blocks.len() == 0 {
        hidden
    } else {
        let front = with_staged(hidden, blocks.drop_last());
        if has_key(front, blocks.last().0.hash@) {
            front
        } else {
            front.push((blocks.last().0.hash@, blocks.last().1))
        }
    }
}

/// The bytes of the first `n` expected objects, or what is wrong with the hidden
/// ones.
pub open spec fn hidden_bytes(
    expected: Seq<(Seq<u8>, u64)>,
    hidden: Seq<(Seq<u8>, Arc<SealedBlock>)>,
    n: int,
) -> Result<nat, Seq<char>>
    decreases n,
{
    if n <= 0 {
        Ok(0)
    } else {
        match hidden_bytes(expected, hidden, n - 1) {
            Err(m) => Err(m),
            Ok(sum) => {
                let (hash, bytes) = expected[n - 1];
                match lookup(hidden, hash) {
                    None => Err("hidden snapshot is missing block "@ + hex_text(hash)),
                    Some(block) => if block.footprint() != bytes {
                        Err(
                            "hidden block "@ + hex_text(hash) + " size mismatch: observed="@
                                + decimal(block.footprint() as nat) + " expected="@ + decimal(
                                bytes as nat,
                            ),
                        )
                    } else if sum + bytes > u64::MAX {
                        Err("hidden snapshot byte count overflow"@)
                    } else {
                        Ok(sum + bytes as nat)
                    },
                }
            },
        }
    }
}

/// The identity of a request whose bundle was observed, or why the bundle is refused: with a
/// plan, it has to be the planned one.
pub open spec fn captured(
    plan: Option<Issue23TransferPlan>,
    raw: Seq<char>,
    operations: Seq<ObservedOperation>,
) -> Result<Seq<char>, Seq<char>> {
    match stable_identity(raw) {
        Err(e) => Err(e),
        Ok(id) => match plan {
            None => Ok(id),
            Some(p) => {
                let q = request_of(p, id);
                if !has_request(p, id) {
                    Err("request "@ + id + " is absent from the frozen transfer plan"@)
                } else if !same_manifest(operations, p.ops(q)) {
                    Err(
                        "request "@ + id + " transfer manifest drift: observed "@ + decimal(
                            operations.len(),
                        ) + " operations, expected "@ + decimal(p.ops(q).len()),
                    )
                } else {
                    Ok(id)
                }
            },
        },
    }
}

/// Where a segment of a hidden object lies, or why it cannot be read from there.
pub open spec fn source_of(
    hidden: Seq<(Seq<u8>, Arc<SealedBlock>)>,
    hash: Seq<char>,
    slot: nat,
    segment: Seq<char>,
    bytes: nat,
) -> Result<u64, Seq<char>> {
    let text = encode_utf8(hash);
    if hex_error(text) is Some {
        Err(hex_error(text)->0)
    } else {
        match lookup(hidden, hex_value(text)) {
            None => Err("hidden source block "@ + hash + " is missing"@),
            Some(block) => if slot >= block.blocks().len() {
                Err("hidden source block "@ + hash + " has no slot "@ + decimal(slot))
            } else if segment != "k"@ && segment != "v"@ {
                Err("invalid segment "@ + segment)
            } else {
                let index = if segment == "k"@ {
                    0int
                } else {
                    1
                };
                let segments = block.blocks()[slot as int].segments();
                if index >= segments.len() {
                    Err(
                        "hidden source block "@ + hash + " slot "@ + decimal(slot) + " has no "@
                            + segment + " segment"@,
                    )
                } else if segments[index].size != bytes {
                    Err(
                        "hidden source size mismatch for "@ + (hash + "/"@ + decimal(slot) + "/"@
                            + segment) + ": observed="@ + decimal(segments[index].size as nat)
                            + " expected="@ + decimal(bytes),
                    )
                } else {
                    Ok(segments[index].ptr.host)
                }
            },
        }
    }
}

/// A copy of each hidden object, the plan, and whether measuring has begun.
#[derive(Debug)]
pub struct Issue23CausalExperiment {
    config: Issue23ExperimentConfig,
    expected_hidden: Vec<(Vec<u8>, u64)>,
    hidden: Vec<(Vec<u8>, Arc<SealedBlock>)>,
    trace_origin: u64,
    active: bool,
}

impl Issue23CausalExperiment {
    /// The frozen plan, if there is one.
    pub closed spec fn plan(self) -> Option<Issue23TransferPlan> {
        self.config.plan
    }

    /// What the experiment was opened with.
    pub closed spec fn config(self) -> Issue23ExperimentConfig {
        self.config
    }

    /// The objects that the plan moves, with their bytes.
    pub closed spec fn expected(self) -> Seq<(Seq<u8>, u64)> {
        layout_view(self.expected_hidden@)
    }

    /// The objects that are kept out of sight.
    pub closed spec fn hidden(self) -> Seq<(Seq<u8>, Arc<SealedBlock>)> {
        hidden_view(self.hidden@)
    }

    /// Whether measuring has begun.
    pub closed spec fn active(self) -> bool {
        self.active
    }

    /// When the trace was opened, in nanoseconds.
    pub closed spec fn origin(self) -> u64 {
        self.trace_origin
    }

    /// The plan is in order, the expected objects are those of the plan, and what
    /// is hidden is expected, with the expected bytes.
    pub open spec fn wf(self) -> bool {
        &&& self.plan() matches Some(p) ==> p.error() is None
        &&& is_layout(self.expected(), segment_list(all_operations(self.plan())))
        &&& unique_keys(self.hidden())
        &&& forall|i: int|
            0 <= i < self.hidden().len() ==> stage_error(
                self.expected(),
                (#[trigger] self.hidden()[i]).0,
                self.hidden()[i].1.footprint(),
            ) is None
    }

    /// How many objects of how many bytes are hidden once measuring begins, or why it cannot
    /// begin: without a plan, twice, or before every object of the plan is there.
    pub open spec fn activation(self) -> Result<(nat, nat), Seq<char>> {
        let n = self.expected().len();
        if self.plan() is None {
            Err("cannot activate Issue23 experiment without a frozen plan"@)
        } else if self.active() {
            Err("Issue23 experiment is already active"@)
        } else if self.hidden().len() != n {
            Err(
                "hidden snapshot block-count mismatch: observed="@ + decimal(self.hidden().len())
                    + " expected="@ + decimal(n),
            )
        } else {
            match hidden_bytes(self.expected(), self.hidden(), n as int) {
                Ok(bytes) => Ok((n, bytes)),
                Err(e) => Err(e),
            }
        }
    }

    /// Opens an experiment at the time `now`. A plan that is not in order, or that
    /// moves a segment with two lengths, is refused.
    pub fn new(config: Issue23ExperimentConfig, now: u64) -> (r: Result<Self, String>)
        ensures
            match r {
                Ok(e) => {
                    &&& e.wf()
                    &&& e.config() == config
                    &&& e.plan() == config.plan
                    &&& e.hidden() == Seq::<(Seq<u8>, Arc<SealedBlock>)>::empty()
                    &&& !e.active()
                    &&& e.origin() == now
                    &&& segment_error(all_operations(config.plan)) is None
                    &&& !overflows(segment_list(all_operations(config.plan)))
                },
                Err(m) => if config.plan matches Some(p) && p.error() is Some {
                    config.plan->0.error() == Some(m@)
                } else if segment_error(all_operations(config.plan)) is Some {
                    segment_error(all_operations(config.plan)) == Some(m@)
                } else {
                    overflows(segment_list(all_operations(config.plan))) && m@
                        == "hidden block byte count overflow"@
                },
            },
    {
        let layout: Result<Vec<(Vec<u8>, u64)>, String> = match &config.plan {
            Some(plan) => {
                plan.validate()?;
                expected_hidden_layout(Some(plan))
            },
            None => expected_hidden_layout(None),
        };
        let expected_hidden: Vec<(Vec<u8>, u64)> = match layout {
            Ok(layout) => layout,
            Err(m) => {
                return Err(m);
            },
        };
        let e: Issue23CausalExperiment = Issue23CausalExperiment {
            config,
            expected_hidden,
            hidden: Vec::new(),
            trace_origin: now,
            active: false,
        };
        assert(e.hidden() =~= Seq::<(Seq<u8>, Arc<SealedBlock>)>::empty());
        Ok(e)
    }

    /// Whether measuring has begun.
    pub fn is_active(&self) -> (r: bool)
        ensures
            r == self.active(),
    {
        self.active
    }

    /// How gated bundles are carried out.
    pub fn backend(&self) -> (r: Issue23Backend)
        ensures
            r == self.config().backend,
    {
        self.config.backend
    }

    /// When the bundles of a complete cohort are released.
    pub fn schedule(&self) -> (r: Issue23Schedule)
        ensures
            r == self.config().schedule,
    {
        self.config.schedule
    }

    /// Whether fetched blocks go to the read cache: never while an experiment is
    /// open.
    pub fn should_cache_remote_fetch(&self) -> (r: bool)
        ensures
            r == false,
    {
        false
    }

    /// Whether there is a frozen plan.
    pub fn has_frozen_plan(&self) -> (r: bool)
        ensures
            r == (self.plan() is Some),
    {
        self.config.plan.is_some()
    }

    /// How long after the trace was opened an event came, in nanoseconds.
    pub fn monotonic_ns(&self, event_at: u64) -> (r: u64)
        ensures
            r == if event_at < self.origin() {
                0
            } else {
                event_at - self.origin()
            },
    {
        event_at.saturating_sub(self.trace_origin)
    }

    fn find_request(plan: &Issue23TransferPlan, id: &str) -> (r: Option<usize>)
        ensures
            match r {
                Some(r) => is_request(*plan, id@, r as int),
                None => !has_request(*plan, id@),
            },
    {
        let mut r: usize = 0;
        while r < plan.requests.len()
            invariant
                r <= plan.requests@.len(),
                forall|q: int| 0 <= q < r ==> !#[trigger] is_request(*plan, id@, q),
            decreases plan.requests@.len() - r,
        {
            if same_text(&plan.requests[r].request_id, id) {
                return Some(r);
            }
            r += 1;
        }
        None
    }

    /// In a plan that is in order, an identifier belongs to one request.
    pub proof fn law_request_is_unique(plan: Issue23TransferPlan, id: Seq<char>, r: int)
        requires
            plan.error() is None,
            is_request(plan, id, r),
        ensures
            has_request(plan, id),
            request_of(plan, id) == r,
    {
        plan.law_accepted_plans();
        let q = request_of(plan, id);
        assert(is_request(plan, id, q));
        if q < r {
            assert(plan.id(q) != plan.id(r));
        }
        if r < q {
            assert(plan.id(r) != plan.id(q));
        }
    }

    fn collect_hashes(operations: &Vec<Issue23OperationPlan>) -> (r: Vec<Vec<u8>>)
        requires
            forall|i: int|
                0 <= i < operations@.len() ==> hex_error(hash_bytes(#[trigger] operations@[i]))
                    is None,
        ensures
            byte_views(r@) == planned_hashes(operations@),
    {
        let mut out: Vec<Vec<u8>> = Vec::new();
        let mut i: usize = 0;
        proof {
            assert(operations@.take(0) =~= Seq::<Issue23OperationPlan>::empty());
            assert(byte_views(out@) =~= Seq::<Seq<u8>>::empty());
        }
        while i < operations.len()
            invariant
                i <= operations@.len(),
                byte_views(out@) == planned_hashes(operations@.take(i as int)),
                forall|i: int|
                    0 <= i < operations@.len() ==> hex_error(
                        hash_bytes(#[trigger] operations@[i]),
                    ) is None,
            decreases operations@.len() - i,
        {
            proof {
                assert(operations@.take(i + 1).drop_last() =~= operations@.take(i as int));
                assert(operations@.take(i + 1).last() == operations@[i as int]);
                assert(hex_error(hash_bytes(operations@[i as int])) is None);
            }
            let ghost shown = byte_views(out@);
            match decode_hex(&operations[i].block_hash_hex) {
                Ok(hash) => {
                    if !contains_bytes(&out, &hash) {
                        let ghost view = hash@;
                        out.push(hash);
                        assert(byte_views(out@) =~= shown.push(view));
                    }
                },
                Err(_) => {},
            }
            i += 1;
        }
        assert(operations@.take(i as int) =~= operations@);
        out
    }

    /// How much of a remote prefix of `available_prefix_len` blocks a request may
    /// fetch: what the plan has for it, which has to be what it asked for first.
    /// Without a plan, all of it.
    pub fn frozen_remote_prefix_len(
        &self,
        raw_request_id: &str,
        requested_hashes: &[Vec<u8>],
        available_prefix_len: usize,
    ) -> (r: Result<usize, String>)
        requires
            self.wf(),
        ensures
            ({
                let expected = frozen_prefix(
                    self.plan(),
                    raw_request_id@,
                    byte_views(requested_hashes@),
                    available_prefix_len as nat,
                );
                match r {
                    Ok(n) => expected == Ok::<nat, Seq<char>>(n as nat),
                    Err(m) => expected == Err::<nat, Seq<char>>(m@),
                }
            }),
    {
        let plan: &Issue23TransferPlan = match &self.config.plan {
            Some(plan) => plan,
            None => {
                return Ok(available_prefix_len);
            },
        };
        if available_prefix_len > requested_hashes.len() {
            return Err(
                join4(
                    "remote prefix length ",
                    &decimal_text(available_prefix_len as u64),
                    " exceeds requested block count ",
                    &decimal_text(requested_hashes.len() as u64),
                ),
            );
        }
        let id: String = match stable_request_id(raw_request_id) {
            Ok(id) => id,
            Err(m) => {
                return Err(m);
            },
        };
        let r: usize = match Self::find_request(plan, &id) {
            Some(r) => r,
            None => {
                return Err(join3("request ", &id, " is absent from the frozen transfer plan"));
            },
        };
        proof {
            Self::law_request_is_unique(*plan, id@, r as int);
            plan.law_accepted_plans();
            assert forall|i: int| 0 <= i < plan.ops(r as int).len() implies hex_error(
                hash_bytes(#[trigger] plan.ops(r as int)[i]),
            ) is None by {
                assert(plan.has_op(r as int, i));
            }
        }
        let hashes: Vec<Vec<u8>> = Self::collect_hashes(&plan.requests[r].operations);
        if hashes.len() > available_prefix_len {
            return Err(
                join6(
                    "request ",
                    &id,
                    " remote prefix is shorter than the frozen plan: available=",
                    &decimal_text(available_prefix_len as u64),
                    " expected=",
                    &decimal_text(hashes.len() as u64),
                ),
            );
        }
        let ghost wanted = byte_views(requested_hashes@).take(hashes@.len() as int);
        let mut i: usize = 0;
        while i < hashes.len()
            invariant
                i <= hashes@.len(),
                hashes@.len() <= requested_hashes@.len(),
                wanted == byte_views(requested_hashes@).take(hashes@.len() as int),
                forall|k: int| 0 <= k < i ==> (#[trigger] wanted[k]) == byte_views(hashes@)[k],
                self.wf(),
                self.plan() == Some(*plan),
                available_prefix_len <= requested_hashes@.len(),
                hashes@.len() <= available_prefix_len,
                stable_identity(raw_request_id@) == Ok::<Seq<char>, Seq<char>>(id@),
                has_request(*plan, id@),
                request_of(*plan, id@) == r,
                byte_views(hashes@) == planned_hashes(plan.ops(r as int)),
            decreases hashes@.len() - i,
        {
            if !same_bytes(&requested_hashes[i], &hashes[i]) {
                assert(wanted[i as int] != byte_views(hashes@)[i as int]);
                return Err(
                    join3(
                        "request ",
                        &id,
                        " remote prefix hashes differ from the frozen plan",
                    ),
                );
            }
            i += 1;
        }
        assert(wanted =~= byte_views(hashes@));
        Ok(hashes.len())
    }

    /// Keeps restored objects out of sight. Objects that are not expected, or do
    /// not have the expected bytes, are refused; those before them stay.
    pub fn stage_hidden_blocks(&mut self, blocks: &[(BlockKey, Arc<SealedBlock>)]) -> (r: Result<
        (),
        String,
    >)
        requires
            old(self).wf(),
        ensures
            final(self).wf(),
            final(self).plan() == old(self).plan(),
            final(self).config() == old(self).config(),
            final(self).expected() == old(self).expected(),
            final(self).active() == old(self).active(),
            final(self).origin() == old(self).origin(),
            ({
                let n = stageable(old(self).expected(), blocks@);
                if old(self).plan() is None {
                    r is Ok && final(self).hidden() == old(self).hidden()
                } else if old(self).active() {
                    &&& r matches Err(m) && m@
                        == "cannot add hidden objects after Issue23 activation"@
                    &&& final(self).hidden() == old(self).hidden()
                } else {
                    &&& final(self).hidden() == with_staged(
                        old(self).hidden(),
                        blocks@.take(n as int),
                    )
                    &&& r is Ok == (n == blocks@.len())
                    &&& r matches Err(m) ==> n < blocks@.len() && stage_error(
                        old(self).expected(),
                        blocks@[n as int].0.hash@,
                        blocks@[n as int].1.footprint(),
                    ) == Some(m@)
                }
            }),
    {
        if self.config.plan.is_none() {
            return Ok(());
        }
        if self.active {
            return Err(String::from_str("cannot add hidden objects after Issue23 activation"));
        }
        let mut i: usize = 0;
        assert(blocks@.take(0) =~= Seq::<(BlockKey, Arc<SealedBlock>)>::empty());
        while i < blocks.len()
            invariant
                old(self).wf(),
                old(self).plan() is Some,
                !old(self).active(),
                self.wf(),
                self.plan() == old(self).plan(),
                self.config() == old(self).config(),
                self.expected() == old(self).expected(),
                self.active() == old(self).active(),
                self.origin() == old(self).origin(),
                i <= blocks@.len(),
                stageable(old(self).expected(), blocks@.take(i as int)) == i,
                self.hidden() == with_staged(old(self).hidden(), blocks@.take(i as int)),
            decreases blocks@.len() - i,
        {
            let ghost expected = self.expected();
            let ghost hash = blocks@[i as int].0.hash@;
            proof {
                assert(blocks@.take(i + 1).drop_last() =~= blocks@.take(i as int));
                assert(blocks@.take(i + 1).last() == blocks@[i as int]);
            }
            let bytes: u64 = match find_bytes(&self.expected_hidden, &blocks[i].0.hash) {
                Some(k) => self.expected_hidden[k].1,
                None => {
                    proof {
                        lemma_stageable_stops(expected, blocks@, i as int);
                    }
                    return Err(
                        join3(
                            "restored object ",
                            &encode_hex(&blocks[i].0.hash),
                            " is absent from the frozen hidden snapshot",
                        ),
                    );
                },
            };
            let footprint: u64 = blocks[i].1.memory_footprint();
            if footprint != bytes {
                proof {
                    lemma_stageable_stops(expected, blocks@, i as int);
                }
                return Err(
                    join6(
                        "restored object ",
                        &encode_hex(&blocks[i].0.hash),
                        " size mismatch: observed=",
                        &decimal_text(footprint),
                        " expected=",
                        &decimal_text(bytes),
                    ),
                );
            }
            if find_hidden(&self.hidden, &blocks[i].0.hash).is_none() {
                let ghost shown = self.hidden();
                proof {
                    lemma_push(shown, hash, blocks@[i as int].1);
                }
                self.hidden.push((copy_bytes(&blocks[i].0.hash), share(&blocks[i].1)));
                proof {
                    assert(self.hidden() =~= shown.push((hash, blocks@[i as int].1)));
                    assert forall|k: int| 0 <= k < self.hidden().len() implies stage_error(
                        self.expected(),
                        (#[trigger] self.hidden()[k]).0,
                        self.hidden()[k].1.footprint(),
                    ) is None by {
                        if k < shown.len() {
                            assert(self.hidden()[k] == shown[k]);
                        }
                    }
                }
            }
            i += 1;
        }
        assert(blocks@.take(i as int) =~= blocks@);
        Ok(())
    }

    /// What would be hidden if measuring began now. It cannot begin without a
    /// plan, twice, or before every object of the plan is there.
    pub fn staged_hidden(&self) -> (r: Result<Issue23ActivationStats, String>)
        requires
            self.wf(),
        ensures
            match self.activation() {
                Ok((blocks, bytes)) => r matches Ok(stats) && stats.hidden_blocks == blocks
                    && stats.hidden_bytes == bytes,
                Err(e) => r matches Err(m) && m@ == e,
            },
    {
        if self.config.plan.is_none() {
            return Err(
                String::from_str("cannot activate Issue23 experiment without a frozen plan"),
            );
        }
        if self.active {
            return Err(String::from_str("Issue23 experiment is already active"));
        }
        if self.hidden.len() != self.expected_hidden.len() {
            return Err(
                join4(
                    "hidden snapshot block-count mismatch: observed=",
                    &decimal_text(self.hidden.len() as u64),
                    " expected=",
                    &decimal_text(self.expected_hidden.len() as u64),
                ),
            );
        }
        let mut total: u64 = 0;
        let mut i: usize = 0;
        while i < self.expected_hidden.len()
            invariant
                self.wf(),
                self.plan() is Some,
                !self.active(),
                self.hidden().len() == self.expected().len(),
                i <= self.expected_hidden@.len(),
                hidden_bytes(self.expected(), self.hidden(), i as int) == Ok::<nat, Seq<char>>(
                    total as nat,
                ),
            decreases self.expected_hidden@.len() - i,
        {
            let hash: &Vec<u8> = &self.expected_hidden[i].0;
            let bytes: u64 = self.expected_hidden[i].1;
            proof {
                assert(self.expected()[i as int] == (hash@, bytes));
                lemma_hidden_error_stays(
                    self.expected(),
                    self.hidden(),
                    i + 1,
                    self.expected().len() as int,
                );
            }
            let k: usize = match find_hidden(&self.hidden, hash) {
                Some(k) => k,
                None => {
                    return Err(join2("hidden snapshot is missing block ", &encode_hex(hash)));
                },
            };
            let footprint: u64 = self.hidden[k].1.memory_footprint();
            if footprint != bytes {
                return Err(
                    join6(
                        "hidden block ",
                        &encode_hex(hash),
                        " size mismatch: observed=",
                        &decimal_text(footprint),
                        " expected=",
                        &decimal_text(bytes),
                    ),
                );
            }
            total = match total.checked_add(bytes) {
                Some(sum) => sum,
                None => {
                    return Err(String::from_str("hidden snapshot byte count overflow"));
                },
            };
            i += 1;
        }
        Ok(
            Issue23ActivationStats {
                hidden_blocks: self.hidden.len(),
                hidden_bytes: total,
            },
        )
    }

    /// Begins measuring, where [`Self::staged_hidden`] allows it.
    pub fn activate_staged_hidden(&mut self) -> (r: Result<Issue23ActivationStats, String>)
        requires
            old(self).wf(),
        ensures
            final(self).wf(),
            final(self).plan() == old(self).plan(),
            final(self).config() == old(self).config(),
            final(self).expected() == old(self).expected(),
            final(self).hidden() == old(self).hidden(),
            final(self).origin() == old(self).origin(),
            final(self).active() == (old(self).active() || r is Ok),
            match old(self).activation() {
                Ok((blocks, bytes)) => r matches Ok(stats) && stats.hidden_blocks == blocks
                    && stats.hidden_bytes == bytes,
                Err(e) => r matches Err(m) && m@ == e,
            },
    {
        let stats: Issue23ActivationStats = match self.staged_hidden() {
            Ok(stats) => stats,
            Err(m) => {
                return Err(m);
            },
        };
        self.active = true;
        Ok(stats)
    }

    /// Whether a request is planned; without a plan none is.
    pub open spec fn is_planned(self, id: Seq<char>) -> bool {
        self.plan() matches Some(plan) && has_request(plan, id)
    }

    /// The planned request whose bundle was observed. A request that is not planned is refused,
    /// and so is a bundle that is not the planned one: it has drifted.
    pub fn request_plan(&self, stable_request_id: &str, observed: &[ObservedOperation]) -> (r:
        Result<&Issue23RequestPlan, String>)
        requires
            self.wf(),
        ensures
            ({
                let plan = self.plan()->0;
                let q = request_of(plan, stable_request_id@);
                match r {
                    Ok(request) => {
                        &&& self.is_planned(stable_request_id@)
                        &&& *request == plan.requests@[q]
                        &&& same_manifest(observed@, plan.ops(q))
                    },
                    Err(m) => if !self.is_planned(stable_request_id@) {
                        m@ == "request "@ + stable_request_id@
                            + " is absent from the frozen transfer plan"@
                    } else {
                        &&& !same_manifest(observed@, plan.ops(q))
                        &&& m@ == "request "@ + stable_request_id@
                            + " transfer manifest drift: observed "@ + decimal(observed@.len())
                            + " operations, expected "@ + decimal(plan.ops(q).len())
                    },
                }
            }),
    {
        match &self.config.plan {
            Some(plan) => {
                let r: usize = match Self::find_request(plan, stable_request_id) {
                    Some(r) => r,
                    None => {
                        return Err(
                            join3(
                                "request ",
                                stable_request_id,
                                " is absent from the frozen transfer plan",
                            ),
                        );
                    },
                };
                proof {
                    Self::law_request_is_unique(*plan, stable_request_id@, r as int);
                }
                if !manifest_matches(observed, &plan.requests[r].operations) {
                    return Err(
                        join6(
                            "request ",
                            stable_request_id,
                            " transfer manifest drift: observed ",
                            &decimal_text(observed.len() as u64),
                            " operations, expected ",
                            &decimal_text(plan.requests[r].operations.len() as u64),
                        ),
                    );
                }
                Ok(&plan.requests[r])
            },
            None => Err(
                join3("request ", stable_request_id, " is absent from the frozen transfer plan"),
            ),
        }
    }

    /// The identity of the request whose bundle was observed. With a plan, the
    /// bundle has to be the planned one, while restoring as well as measuring.
    pub fn capture_bundle(&self, raw_request_id: &str, operations: &[ObservedOperation]) -> (r:
        Result<String, String>)
        requires
            self.wf(),
        ensures
            match captured(self.plan(), raw_request_id@, operations@) {
                Ok(id) => r matches Ok(s) && s@ == id,
                Err(e) => r matches Err(m) && m@ == e,
            },
    {
        let id: String = match stable_request_id(raw_request_id) {
            Ok(id) => id,
            Err(m) => {
                return Err(m);
            },
        };
        if self.config.plan.is_some() {
            match self.request_plan(&id, operations) {
                Ok(_) => {},
                Err(m) => {
                    return Err(m);
                },
            }
        }
        Ok(id)
    }

    /// The host address of a segment of a hidden object.
    pub fn local_source(
        &self,
        block_hash_hex: &str,
        slot_index: usize,
        segment: &str,
        expected_bytes: usize,
    ) -> (r: Result<u64, String>)
        requires
            self.wf(),
        ensures
            match source_of(
                self.hidden(),
                block_hash_hex@,
                slot_index as nat,
                segment@,
                expected_bytes as nat,
            ) {
                Ok(p) => r matches Ok(q) && q == p,
                Err(e) => r matches Err(m) && m@ == e,
            },
    {
        let hash: Vec<u8> = match decode_hex(block_hash_hex) {
            Ok(hash) => hash,
            Err(m) => {
                return Err(m);
            },
        };
        let k: usize = match find_hidden(&self.hidden, &hash) {
            Some(k) => k,
            None => {
                return Err(join3("hidden source block ", block_hash_hex, " is missing"));
            },
        };
        let slot: &RawBlock = match self.hidden[k].1.get_slot(slot_index) {
            Some(slot) => slot,
            None => {
                return Err(
                    join4(
                        "hidden source block ",
                        block_hash_hex,
                        " has no slot ",
                        &decimal_text(slot_index as u64),
                    ),
                );
            },
        };
        let index: usize = if same_text(segment, "k") {
            0
        } else if same_text(segment, "v") {
            1
        } else {
            return Err(join2("invalid segment ", segment));
        };
        let actual: usize = match slot.segment_size(index) {
            Some(size) => size,
            None => {
                let head: String = join4(
                    "hidden source block ",
                    block_hash_hex,
                    " slot ",
                    &decimal_text(slot_index as u64),
                );
                return Err(head.concat(" has no ").concat(segment).concat(" segment"));
            },
        };
        if actual != expected_bytes {
            let place: String = join5(
                block_hash_hex,
                "/",
                &decimal_text(slot_index as u64),
                "/",
                segment,
            );
            return Err(
                join6(
                    "hidden source size mismatch for ",
                    &place,
                    ": observed=",
                    &decimal_text(actual as u64),
                    " expected=",
                    &decimal_text(expected_bytes as u64),
                ),
            );
        }
        match slot.segment_ptr(index) {
            Some(ptr) => Ok(ptr),
            None => Ok(0),
        }
    }
}

fn contains_bytes(list: &Vec<Vec<u8>>, bytes: &Vec<u8>) -> (r: bool)
    ensures
        r == byte_views(list@).contains(bytes@),
{
    let mut i: usize = 0;
    while i < list.len()
        invariant
            i <= list@.len(),
            forall|k: int| 0 <= k < i ==> byte_views(list@)[k] != bytes@,
        decreases list@.len() - i,
    {
        if same_bytes(&list[i], bytes) {
            assert(byte_views(list@)[i as int] == bytes@);
            return true;
        }
        i += 1;
    }
    false
}

fn find_bytes(layout: &Vec<(Vec<u8>, u64)>, hash: &Vec<u8>) -> (r: Option<usize>)
    requires
        unique_keys(layout_view(layout@)),
    ensures
        match r {
            Some(i) => i < layout@.len() && lookup(layout_view(layout@), hash@) == Some(
                layout@[i as int].1,
            ),
            None => lookup(layout_view(layout@), hash@) is None,
        },
{
    let mut i: usize = 0;
    while i < layout.len()
        invariant
            i <= layout@.len(),
            unique_keys(layout_view(layout@)),
            forall|k: int| 0 <= k < i ==> !#[trigger] is_entry(layout_view(layout@), hash@, k),
        decreases layout@.len() - i,
    {
        assert(layout_view(layout@)[i as int] == (layout@[i as int].0@, layout@[i as int].1));
        if same_bytes(&layout[i].0, hash) {
            proof {
                lemma_place(layout_view(layout@), hash@, i as int);
            }
            return Some(i);
        }
        i += 1;
    }
    None
}

fn find_hidden(hidden: &Vec<(Vec<u8>, Arc<SealedBlock>)>, hash: &Vec<u8>) -> (r: Option<usize>)
    requires
        unique_keys(hidden_view(hidden@)),
    ensures
        match r {
            Some(i) => i < hidden@.len() && lookup(hidden_view(hidden@), hash@) == Some(
                hidden@[i as int].1,
            ) && has_key(hidden_view(hidden@), hash@),
            None => !has_key(hidden_view(hidden@), hash@),
        },
{
    let mut i: usize = 0;
    while i < hidden.len()
        invariant
            i <= hidden@.len(),
            unique_keys(hidden_view(hidden@)),
            forall|k: int| 0 <= k < i ==> !#[trigger] is_entry(hidden_view(hidden@), hash@, k),
        decreases hidden@.len() - i,
    {
        assert(hidden_view(hidden@)[i as int] == (hidden@[i as int].0@, hidden@[i as int].1));
        if same_bytes(&hidden[i].0, hash) {
            proof {
                lemma_place(hidden_view(hidden@), hash@, i as int);
            }
            return Some(i);
        }
        i += 1;
    }
    None
}

proof fn lemma_stageable_stops(
    expected: Seq<(Seq<u8>, u64)>,
    blocks: Seq<(BlockKey, Arc<SealedBlock>)>,
    n: int,
)
    requires
        0 <= n < blocks.len(),
        stageable(expected, blocks.take(n)) == n,
        stage_error(expected, blocks[n].0.hash@, blocks[n].1.footprint()) is Some,
    ensures
        stageable(expected, blocks) == n,
    decreases blocks.len(),
{
    let front = blocks.drop_last();
    if n == blocks.len() - 1 {
        assert(front =~= blocks.take(n));
    } else {
        assert(front.take(n) =~= blocks.take(n));
        lemma_stageable_stops(expected, front, n);
    }
}

proof fn lemma_hidden_error_stays(
    expected: Seq<(Seq<u8>, u64)>,
    hidden: Seq<(Seq<u8>, Arc<SealedBlock>)>,
    n: int,
    m: int,
)
    requires
        n <= m,
    ensures
        hidden_bytes(expected, hidden, n) is Err ==> hidden_bytes(expected, hidden, m)
            == hidden_bytes(expected, hidden, n),
    decreases m - n,
{
    if n < m {
        lemma_hidden_error_stays(expected, hidden, n, m - 1);
    }
}

/// An experiment becomes active only with every expected object out of sight, each with
/// exactly the bytes that the plan gives it.
pub proof fn law_activation_hides_every_object(
    expected: Seq<(Seq<u8>, u64)>,
    hidden: Seq<(Seq<u8>, Arc<SealedBlock>)>,
    n: int,
    k: int,
)
    requires
        hidden_bytes(expected, hidden, n) is Ok,
        0 <= k < n <= expected.len(),
    ensures
        lookup(hidden, expected[k].0) matches Some(block) && block.footprint() == expected[k].1,
    decreases n,
{
    if k < n - 1 {
        law_activation_hides_every_object(expected, hidden, n - 1, k);
    }
}

/// A frozen plan never lets more of a prefix be fetched than the other node has, and never
/// other blocks than were asked for.
pub proof fn law_frozen_prefix_is_available(
    plan: Option<Issue23TransferPlan>,
    raw: Seq<char>,
    requested: Seq<Seq<u8>>,
    available: nat,
)
    requires
        frozen_prefix(plan, raw, requested, available) is Ok,
    ensures
        frozen_prefix(plan, raw, requested, available)->Ok_0 <= available,
        plan is Some ==> {
            let id = stable_identity(raw)->Ok_0;
            let n = frozen_prefix(plan, raw, requested, available)->Ok_0;
            requested.take(n as int) == planned_hashes(plan->0.ops(request_of(plan->0, id)))
        },
{
}

/// A bundle is the planned one exactly if it has the planned operations, one by one and with
/// nothing different.
pub proof fn law_manifests_agree_in_everything(
    observed: Seq<ObservedOperation>,
    planned: Seq<Issue23OperationPlan>,
)
    ensures
        same_manifest(observed, planned) <==> observed.len() == planned.len() && forall|i: int|
            0 <= i < observed.len() ==> {
                &&& (#[trigger] observed[i]).operation_id@ == planned[i].operation_id@
                &&& observed[i].block_hash_hex@ == planned[i].block_hash_hex@
                &&& observed[i].slot_index == planned[i].slot_index
                &&& observed[i].segment@ == planned[i].segment@
                &&& observed[i].source@ == planned[i].source@
                &&& observed[i].destination@ == planned[i].destination@
                &&& observed[i].transfer_type@ == planned[i].transfer_type@
                &&& observed[i].logical_payload_bytes == planned[i].logical_payload_bytes
                &&& observed[i].qp_index == planned[i].qp_index
            },
{
    if same_manifest(observed, planned) {
        assert forall|i: int| 0 <= i < observed.len() implies same_operation(
            #[trigger] observed[i],
            planned[i],
        ) by {}
    }
}

/// The planned blocks are those of the planned operations, each once, in the order in which the
/// operations first name them.
pub proof fn law_planned_blocks_are_named_once(
    ops: Seq<Issue23OperationPlan>,
    more: Issue23OperationPlan,
    i: int,
)
    ensures
        planned_hashes(ops).no_duplicates(),
        0 <= i < ops.len() ==> planned_hashes(ops).contains(hex_value(hash_bytes(ops[i]))),
        planned_hashes(ops).contains(hex_value(hash_bytes(more))) ==> planned_hashes(ops.push(more))
            == planned_hashes(ops),
        !planned_hashes(ops).contains(hex_value(hash_bytes(more))) ==> planned_hashes(
            ops.push(more),
        ) == planned_hashes(ops).push(hex_value(hash_bytes(more))),
        planned_hashes(ops).len() <= ops.len(),
        planned_hashes(Seq::empty()).len() == 0,
    decreases ops.len(),
{
    assert(ops.push(more).drop_last() =~= ops);
    if ops.len() > 0 {
        let front = ops.drop_last();
        law_planned_blocks_are_named_once(front, more, i);
        let rest = planned_hashes(front);
        let all = planned_hashes(ops);
        if 0 <= i < front.len() {
            let k = rest.index_of(hex_value(hash_bytes(front[i])));
            assert(all[k] == hex_value(hash_bytes(ops[i])));
        } else if i == front.len() {
            assert(ops[i] == ops.last());
            if !rest.contains(hex_value(hash_bytes(ops[i]))) {
                assert(all[rest.len() as int] == hex_value(hash_bytes(ops[i])));
            }
        }
    }
}

/// Without a plan all that is available is fetched. With one, exactly the planned blocks are, and
/// they are wherever the request is planned, they are available, and the request asks for them
/// first.
pub proof fn law_planned_prefixes_are_fetched(
    plan: Issue23TransferPlan,
    raw: Seq<char>,
    id: Seq<char>,
    r: int,
    requested: Seq<Seq<u8>>,
    available: nat,
)
    requires
        plan.error() is None,
        stable_identity(raw) == Ok::<Seq<char>, Seq<char>>(id),
        0 <= r < plan.requests@.len(),
        plan.id(r) == id,
        available <= requested.len(),
    ensures
        frozen_prefix(None, raw, requested, available) == Ok::<nat, Seq<char>>(available),
        ({
            let hashes = planned_hashes(plan.ops(r));
            &&& hashes.len() <= available && requested.take(hashes.len() as int) == hashes
                ==> frozen_prefix(Some(plan), raw, requested, available) == Ok::<nat, Seq<char>>(
                hashes.len(),
            )
            &&& hashes.len() > available || requested.take(hashes.len() as int) != hashes
                ==> frozen_prefix(Some(plan), raw, requested, available) is Err
        }),
{
    assert(is_request(plan, id, r));
    Issue23CausalExperiment::law_request_is_unique(plan, id, r);
}

/// Restored blocks are hidden up to the first that is not expected or has another size.
pub proof fn law_expected_blocks_are_hidden(
    expected: Seq<(Seq<u8>, u64)>,
    blocks: Seq<(BlockKey, Arc<SealedBlock>)>,
    i: int,
)
    ensures
        stageable(expected, blocks) <= blocks.len(),
        stageable(expected, blocks) == blocks.len() <==> forall|k: int|
            0 <= k < blocks.len() ==> lookup(expected, (#[trigger] blocks[k]).0.hash@) == Some(
                blocks[k].1.footprint(),
            ),
        0 <= i < blocks.len() && lookup(expected, blocks[i].0.hash@) != Some(
            blocks[i].1.footprint(),
        ) && (forall|k: int|
            0 <= k < i ==> lookup(expected, (#[trigger] blocks[k]).0.hash@) == Some(
                blocks[k].1.footprint(),
            )) ==> stageable(expected, blocks) == i,
    decreases blocks.len(),
{
    if blocks.len() > 0 {
        let front = blocks.drop_last();
        law_expected_blocks_are_hidden(expected, front, i);
        assert(blocks[blocks.len() - 1] == blocks.last());
        assert forall|k: int| 0 <= k < front.len() implies front[k] == #[trigger] blocks[k] by {}
    }
}

/// A block that is hidden stays as it is; of several with one hash the first is hidden, and all
/// of them are found.
pub proof fn law_hidden_blocks_stay(
    hidden: Seq<(Seq<u8>, Arc<SealedBlock>)>,
    blocks: Seq<(BlockKey, Arc<SealedBlock>)>,
    i: int,
)
    ensures
        ({
            let all = with_staged(hidden, blocks);
            &&& all.len() >= hidden.len()
            &&& all.take(hidden.len() as int) == hidden
            &&& 0 <= i < blocks.len() ==> has_key(all, blocks[i].0.hash@)
            &&& forall|p: int|
                hidden.len() <= p < all.len() ==> exists|k: int|
                    0 <= k < blocks.len() && (#[trigger] blocks[k]).0.hash@ == (
                    #[trigger] all[p]).0 && blocks[k].1 == all[p].1
        }),
    decreases blocks.len(),
{
    let all = with_staged(hidden, blocks);
    if blocks.len() == 0 {
        assert(all.take(hidden.len() as int) =~= hidden);
    } else {
        let front = blocks.drop_last();
        let last = blocks.last();
        let rest = with_staged(hidden, front);
        law_hidden_blocks_stay(hidden, front, i);
        assert forall|p: int| 0 <= p < rest.len() implies all[p] == #[trigger] rest[p] by {}
        assert(all.take(hidden.len() as int) =~= hidden) by {
            assert forall|p: int| 0 <= p < hidden.len() implies all[p] == #[trigger] hidden[p] by {
                assert(rest.take(hidden.len() as int)[p] == rest[p]);
            }
        }
        if 0 <= i < front.len() {
            let p = crate::keyed::place(rest, front[i].0.hash@);
            assert(crate::keyed::is_entry(rest, front[i].0.hash@, p));
            assert(crate::keyed::is_entry(all, blocks[i].0.hash@, p));
        } else if i == front.len() {
            if has_key(rest, last.0.hash@) {
                assert(all == rest);
            } else {
                assert(crate::keyed::is_entry(all, last.0.hash@, rest.len() as int));
            }
        }
        assert forall|p: int| hidden.len() <= p < all.len() implies exists|k: int|
            0 <= k < blocks.len() && (#[trigger] blocks[k]).0.hash@ == (#[trigger] all[p]).0
                && blocks[k].1 == all[p].1 by {
            if p < rest.len() {
                assert(rest[p] == all[p]);
                let k = choose|k: int|
                    0 <= k < front.len() && (#[trigger] front[k]).0.hash@ == rest[p].0
                        && front[k].1 == rest[p].1;
                assert(blocks[k].0.hash@ == all[p].0);
            } else {
                assert(blocks[blocks.len() - 1].0.hash@ == all[p].0);
            }
        }
    }
}

/// Hidden blocks are counted one after the other: one more can be exactly if it is hidden with the
/// expected size, as long as the bytes can be counted, and then it adds its own.
pub proof fn law_hidden_blocks_are_counted_in_turn(
    expected: Seq<(Seq<u8>, u64)>,
    hidden: Seq<(Seq<u8>, Arc<SealedBlock>)>,
    n: int,
)
    requires
        0 < n <= expected.len(),
    ensures
        hidden_bytes(expected, hidden, 0) == Ok::<nat, Seq<char>>(0),
        hidden_bytes(expected, hidden, n - 1) matches Ok(sum) ==> {
            &&& (lookup(hidden, expected[n - 1].0) matches Some(block) && block.footprint()
                == expected[n - 1].1) && sum + expected[n - 1].1 <= u64::MAX ==> hidden_bytes(
                expected,
                hidden,
                n,
            ) == Ok::<nat, Seq<char>>(sum + expected[n - 1].1 as nat)
            &&& !(lookup(hidden, expected[n - 1].0) matches Some(block) && block.footprint()
                == expected[n - 1].1) ==> hidden_bytes(expected, hidden, n) is Err
        },
        hidden_bytes(expected, hidden, n - 1) is Err ==> hidden_bytes(expected, hidden, n)
            == hidden_bytes(expected, hidden, n - 1),
{
}

/// Whether an experiment can begin is decided by its plan, by whether it has begun, and by what
/// is hidden.
pub proof fn law_experiments_begin_once(e: Issue23CausalExperiment)
    ensures
        e.activation() is Ok ==> e.plan() is Some && !e.active() && e.hidden().len()
            == e.expected().len() && hidden_bytes(
            e.expected(),
            e.hidden(),
            e.expected().len() as int,
        ) is Ok,
        e.plan() is Some && !e.active() && e.hidden().len() == e.expected().len() ==> match
            hidden_bytes(e.expected(), e.hidden(), e.expected().len() as int) {
            Ok(bytes) => e.activation() == Ok::<(nat, nat), Seq<char>>((e.expected().len(), bytes)),
            Err(m) => e.activation() == Err::<(nat, nat), Seq<char>>(m),
        },
{
}

/// A segment of a hidden block is read where it lies: the first of its slot for `k`, the second for
/// `v`, if it has the planned size. Anything else is refused.
pub proof fn law_hidden_segments_are_read_where_they_lie(
    hidden: Seq<(Seq<u8>, Arc<SealedBlock>)>,
    hash: Seq<char>,
    slot: nat,
    second: bool,
    bytes: nat,
    block: Arc<SealedBlock>,
)
    requires
        hex_error(encode_utf8(hash)) is None,
        lookup(hidden, hex_value(encode_utf8(hash))) == Some(block),
    ensures
        ({
            let name = if second {
                "v"@
            } else {
                "k"@
            };
            let at = if second {
                1int
            } else {
                0
            };
            let r = source_of(hidden, hash, slot, name, bytes);
            let there = slot < block.blocks().len() && at < block.blocks()[slot as int].segments().len()
                && block.blocks()[slot as int].segments()[at].size == bytes;
            &&& there ==> r == Ok::<u64, Seq<char>>(
                block.blocks()[slot as int].segments()[at].ptr.host,
            )
            &&& !there ==> r is Err
        }),
{
    reveal_strlit("k");
    reveal_strlit("v");
    assert("k"@[0] == 'k');
    assert("v"@[0] == 'v');
}

/// A bundle is captured under the stable name of its request exactly if that can be told and,
/// where there is a plan, the request is planned with this very bundle.
pub proof fn law_bundles_are_captured_as_planned(
    plan: Issue23TransferPlan,
    raw: Seq<char>,
    id: Seq<char>,
    r: int,
    operations: Seq<ObservedOperation>,
    hidden: Seq<(Vec<u8>, Arc<SealedBlock>)>,
    i: int,
)
    requires
        plan.error() is None,
        stable_identity(raw) == Ok::<Seq<char>, Seq<char>>(id),
        0 <= r < plan.requests@.len(),
        plan.id(r) == id,
    ensures
        captured(None, raw, operations) == Ok::<Seq<char>, Seq<char>>(id),
        same_manifest(operations, plan.ops(r)) ==> captured(Some(plan), raw, operations) == Ok::<
            Seq<char>,
            Seq<char>,
        >(id),
        !same_manifest(operations, plan.ops(r)) ==> captured(Some(plan), raw, operations) is Err,
        hidden_view(hidden).len() == hidden.len(),
        0 <= i < hidden.len() ==> hidden_view(hidden)[i] == (hidden[i].0@, hidden[i].1),
{
    assert(is_request(plan, id, r));
    Issue23CausalExperiment::law_request_is_unique(plan, id, r);
}

} // verus!
