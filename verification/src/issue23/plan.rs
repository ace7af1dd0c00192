//! The frozen transfer plan of an experiment and its validation.

use vstd::prelude::*;
use vstd::hash_set::StringHashSet;
use vstd::string::*;
use crate::hex::{decode_hex, hex_error};
use crate::order::{counts_text, insert_count, insert_sorted, ints_of, list_text};
use crate::text::{decimal, decimal_text, join2, join3, join4, join6, same_text};

verus! {

/// How many requests a cohort has.
pub const EXPECTED_COHORT_SIZE: usize = 4;

/// How a gated bundle is carried out.
#[derive(Clone, Copy, Debug, PartialEq, Eq, Structural)]
pub enum Issue23Backend {
    Rdma,
    LocalCopy,
}

/// When the bundles of a complete cohort are released.
#[derive(Clone, Copy, Debug, PartialEq, Eq, Structural)]
pub enum Issue23Schedule {
    Smooth,
    Burst,
}

/// What an experiment is opened with.
#[derive(Clone, Debug)]
pub struct Issue23ExperimentConfig {
    pub plan: Option<Issue23TransferPlan>,
    pub backend: Issue23Backend,
    pub schedule: Issue23Schedule,
    pub trace_path: String,
}

/// A frozen plan: every request with the exact operations of its bundle.
#[derive(Clone, Debug)]
pub struct Issue23TransferPlan {
    pub schema_version: u32,
    pub protocol_id: String,
    pub block_id: String,
    pub qps_per_peer: usize,
    pub requests: Vec<Issue23RequestPlan>,
    /// Where the plan came from, as JSON text.
    pub freeze_provenance: Option<String>,
}

/// One request of a plan.
#[derive(Clone, Debug)]
pub struct Issue23RequestPlan {
    pub request_id: String,
    pub cohort_id: String,
    pub smooth_slot: usize,
    pub operations: Vec<Issue23OperationPlan>,
}

/// One transfer operation of a request.
#[derive(Clone, Debug, PartialEq, Eq)]
pub struct Issue23OperationPlan {
    pub operation_id: String,
    pub block_hash_hex: String,
    pub slot_index: usize,
    pub segment: String,
    pub source: String,
    pub destination: String,
    pub transfer_type: String,
    pub logical_payload_bytes: usize,
    pub qp_index: usize,
}

/// The hexadecimal text of an operation's block hash, as bytes.
pub open spec fn hash_bytes(op: Issue23OperationPlan) -> Seq<u8> {
    vstd::utf8::encode_utf8(op.block_hash_hex@)
}

impl Issue23TransferPlan {
    /// The identifier of request `r`.
    pub open spec fn id(self, r: int) -> Seq<char> {
        self.requests@[r].request_id@
    }

    /// The cohort of request `r`.
    pub open spec fn cohort(self, r: int) -> Seq<char> {
        self.requests@[r].cohort_id@
    }

    /// The operations of request `r`.
    pub open spec fn ops(self, r: int) -> Seq<Issue23OperationPlan> {
        self.requests@[r].operations@
    }

    /// Whether `(r, i)` names an operation.
    pub open spec fn has_op(self, r: int, i: int) -> bool {
        0 <= r < self.requests@.len() && 0 <= i < self.ops(r).len()
    }

    /// What is wrong with the plan's own fields, if anything.
    pub open spec fn header_error(self) -> Option<Seq<char>> {
        if self.schema_version != 1 {
            Some(
                "unsupported Issue23 transfer plan schema "@ + decimal(self.schema_version as nat),
            )
        } else if self.protocol_id@.len() == 0 || self.block_id@.len() == 0 {
            Some("protocol_id and block_id must not be empty"@)
        } else if self.qps_per_peer != 2 {
            Some(
                "Issue23 protocol freezes qps_per_peer=2, got "@ + decimal(
                    self.qps_per_peer as nat,
                ),
            )
        } else if self.requests@.len() == 0 {
            Some("Issue23 transfer plan must contain requests"@)
        } else {
            None
        }
    }

    /// Whether a request before `r` has the identifier of request `r`.
    pub open spec fn repeats_request(self, r: int) -> bool {
        exists|q: int| 0 <= q < r && #[trigger] self.id(q) == self.id(r)
    }

    /// What is wrong with request `r` apart from its operations, if anything.
    pub open spec fn request_error(self, r: int) -> Option<Seq<char>> {
        let request = self.requests@[r];
        if request.request_id@.len() == 0 || request.cohort_id@.len() == 0 {
            Some("request_id and cohort_id must not be empty"@)
        } else if self.repeats_request(r) {
            Some("duplicate request_id "@ + request.request_id@)
        } else if request.smooth_slot >= EXPECTED_COHORT_SIZE {
            Some(
                "request "@ + request.request_id@ + " has invalid smooth_slot "@ + decimal(
                    request.smooth_slot as nat,
                ),
            )
        } else if request.operations@.len() == 0 {
            Some("request "@ + request.request_id@ + " has an empty transfer bundle"@)
        } else {
            None
        }
    }

    /// Whether operation `(q, j)` stands before operation `(r, i)`.
    pub open spec fn before(self, q: int, j: int, r: int, i: int) -> bool {
        self.has_op(q, j) && (q < r || (q == r && j < i))
    }

    /// The identifier of operation `(r, i)`.
    pub open spec fn op_id(self, r: int, i: int) -> Seq<char> {
        self.ops(r)[i].operation_id@
    }

    /// Whether an operation before `(r, i)` has the identifier `id`.
    pub open spec fn op_seen(self, r: int, i: int, id: Seq<char>) -> bool {
        exists|q: int, j: int| #[trigger] self.before(q, j, r, i) && self.op_id(q, j) == id
    }

    /// What is wrong with operation `(r, i)`, if anything.
    pub open spec fn operation_error(self, r: int, i: int) -> Option<Seq<char>> {
        let op = self.ops(r)[i];
        let id = op.operation_id@;
        if op.logical_payload_bytes == 0 {
            Some("operation "@ + id + " has zero payload bytes"@)
        } else if op.segment@ != "k"@ && op.segment@ != "v"@ {
            Some("operation "@ + id + " has invalid segment "@ + op.segment@)
        } else if op.source@.len() == 0 || op.destination@.len() == 0 {
            Some("operation "@ + id + " has an empty source or destination"@)
        } else if op.transfer_type@ != "load"@ {
            Some("operation "@ + id + " has invalid transfer_type "@ + op.transfer_type@)
        } else if op.qp_index != i % self.qps_per_peer as int {
            Some(
                "operation "@ + id + " has qp_index "@ + decimal(op.qp_index as nat)
                    + ", expected "@ + decimal((i % self.qps_per_peer as int) as nat),
            )
        } else if hex_error(hash_bytes(op)) is Some {
            Some("operation "@ + id + " has invalid block_hash_hex"@)
        } else if self.op_seen(r, i, id) {
            Some("duplicate operation_id "@ + id)
        } else {
            None
        }
    }

    /// The first error among the first `n` operations of request `r`.
    pub open spec fn operations_error(self, r: int, n: int) -> Option<Seq<char>>
        decreases n,
    {
        if n <= 0 {
            None
        } else if self.operations_error(r, n - 1) is Some {
            self.operations_error(r, n - 1)
        } else {
            self.operation_error(r, n - 1)
        }
    }

    /// The first error among the first `n` requests and their operations.
    pub open spec fn requests_error(self, n: int) -> Option<Seq<char>>
        decreases n,
    {
        if n <= 0 {
            None
        } else if self.requests_error(n - 1) is Some {
            self.requests_error(n - 1)
        } else if self.request_error(n - 1) is Some {
            self.request_error(n - 1)
        } else {
            self.operations_error(n - 1, self.ops(n - 1).len() as int)
        }
    }

    /// The smooth slots, in ascending order, of those of the first `n` requests
    /// that belong to `cohort`.
    pub open spec fn cohort_slots(self, cohort: Seq<char>, n: int) -> Seq<int>
        decreases n,
    {
        if n <= 0 {
            Seq::empty()
        } else if self.cohort(n - 1) == cohort {
            insert_sorted(
                self.cohort_slots(cohort, n - 1),
                self.requests@[n - 1].smooth_slot as int,
            )
        } else {
            self.cohort_slots(cohort, n - 1)
        }
    }

    /// The smooth slots of the cohort of request `r`.
    pub open spec fn slots_beside(self, r: int) -> Seq<int> {
        self.cohort_slots(self.cohort(r), self.requests@.len() as int)
    }

    /// What is wrong with the cohort of request `r`, if anything.
    pub open spec fn cohort_error(self, r: int) -> Option<Seq<char>> {
        let slots = self.slots_beside(r);
        if slots == seq![0int, 1, 2, 3] {
            None
        } else {
            Some(
                "cohort "@ + self.cohort(r) + " must contain smooth slots [0,1,2,3], got "@
                    + list_text(slots),
            )
        }
    }

    /// The first error among the cohorts of the first `n` requests.
    pub open spec fn cohorts_error(self, n: int) -> Option<Seq<char>>
        decreases n,
    {
        if n <= 0 {
            None
        } else if self.cohorts_error(n - 1) is Some {
            self.cohorts_error(n - 1)
        } else {
            self.cohort_error(n - 1)
        }
    }

    /// The first thing that is wrong with the plan, if anything.
    pub open spec fn error(self) -> Option<Seq<char>> {
        if self.header_error() is Some {
            self.header_error()
        } else if self.requests_error(self.requests@.len() as int) is Some {
            self.requests_error(self.requests@.len() as int)
        } else {
            self.cohorts_error(self.requests@.len() as int)
        }
    }

    /// Checks the plan and reports the first thing that is wrong with it.
    ///
    /// The plan's own fields come first, then the requests in order, each with
    /// its operations, and last the cohorts in the order of their first request.
    pub fn validate(&self) -> (r: Result<(), String>)
        ensures
            match r {
                Ok(_) => self.error() is None,
                Err(m) => self.error() == Some(m@),
            },
    {
        if self.schema_version != 1 {
            return Err(
                join2(
                    "unsupported Issue23 transfer plan schema ",
                    &decimal_text(self.schema_version as u64),
                ),
            );
        }
        if self.protocol_id.as_str().is_empty() || self.block_id.as_str().is_empty() {
            return Err(String::from_str("protocol_id and block_id must not be empty"));
        }
        if self.qps_per_peer != 2 {
            return Err(
                join2(
                    "Issue23 protocol freezes qps_per_peer=2, got ",
                    &decimal_text(self.qps_per_peer as u64),
                ),
            );
        }
        if self.requests.len() == 0 {
            return Err(String::from_str("Issue23 transfer plan must contain requests"));
        }
        self.validate_requests()?;
        self.validate_cohorts()
    }

    fn validate_requests(&self) -> (r: Result<(), String>)
        requires
            self.qps_per_peer == 2,
        ensures
            match r {
                Ok(_) => self.requests_error(self.requests@.len() as int) is None,
                Err(m) => self.requests_error(self.requests@.len() as int) == Some(m@),
            },
    {
        let mut request_ids: StringHashSet = StringHashSet::new();
        let mut operation_ids: StringHashSet = StringHashSet::new();
        let mut r: usize = 0;
        while r < self.requests.len()
            invariant
                r <= self.requests@.len(),
                self.qps_per_peer == 2,
                self.requests_error(r as int) is None,
                forall|id: Seq<char>|
                    #[trigger] request_ids@.contains(id) <==> exists|q: int|
                        0 <= q < r && #[trigger] self.id(q) == id,
                forall|id: Seq<char>| #[trigger]
                    operation_ids@.contains(id) <==> self.op_seen(r as int, 0, id),
            decreases self.requests@.len() - r,
        {
            let request: &Issue23RequestPlan = &self.requests[r];
            proof {
                self.lemma_error_sticks(r + 1, self.requests@.len() as int);
            }
            if request.request_id.as_str().is_empty() || request.cohort_id.as_str().is_empty() {
                return Err(String::from_str("request_id and cohort_id must not be empty"));
            }
            if request_ids.contains(request.request_id.as_str()) {
                return Err(join2("duplicate request_id ", &request.request_id));
            }
            request_ids.insert(request.request_id.clone());
            if request.smooth_slot >= EXPECTED_COHORT_SIZE {
                return Err(
                    join4(
                        "request ",
                        &request.request_id,
                        " has invalid smooth_slot ",
                        &decimal_text(request.smooth_slot as u64),
                    ),
                );
            }
            if request.operations.len() == 0 {
                return Err(
                    join3("request ", &request.request_id, " has an empty transfer bundle"),
                );
            }
            self.validate_operations(r, &mut operation_ids)?;
            assert forall|id: Seq<char>| #[trigger] operation_ids@.contains(id) implies self.op_seen(
                r + 1,
                0,
                id,
            ) by {
                let (q, j) = choose|q: int, j: int| #[trigger]
                    self.before(q, j, r as int, self.ops(r as int).len() as int) && self.op_id(q, j)
                        == id;
                assert(self.before(q, j, r + 1, 0));
            }
            assert forall|id: Seq<char>| self.op_seen(r + 1, 0, id) implies #[trigger]
                operation_ids@.contains(id) by {
                let (q, j) = choose|q: int, j: int| #[trigger]
                    self.before(q, j, r + 1, 0) && self.op_id(q, j) == id;
                assert(self.before(q, j, r as int, self.ops(r as int).len() as int));
            }
            assert forall|id: Seq<char>| #[trigger] request_ids@.contains(id) <==> exists|q: int|
                0 <= q < r + 1 && #[trigger] self.id(q) == id by {
                if id == self.id(r as int) {
                    assert(self.id(r as int) == id);
                }
            }
            r += 1;
        }
        Ok(())
    }

    /// The first error among some of the requests is the first error among more.
    proof fn lemma_error_sticks(self, n: int, m: int)
        requires
            n <= m,
        ensures
            self.requests_error(n) is Some ==> self.requests_error(m) == self.requests_error(n),
        decreases m - n,
    {
        if n < m {
            self.lemma_error_sticks(n, m - 1);
        }
    }

    proof fn lemma_operation_error_sticks(self, r: int, n: int, m: int)
        requires
            n <= m,
        ensures
            self.operations_error(r, n) is Some ==> self.operations_error(r, m)
                == self.operations_error(r, n),
        decreases m - n,
    {
        if n < m {
            self.lemma_operation_error_sticks(r, n, m - 1);
        }
    }

    fn validate_operations(&self, r: usize, operation_ids: &mut StringHashSet) -> (res: Result<
        (),
        String,
    >)
        requires
            self.qps_per_peer == 2,
            r < self.requests@.len(),
            forall|id: Seq<char>| #[trigger]
                old(operation_ids)@.contains(id) <==> self.op_seen(r as int, 0, id),
        ensures
            match res {
                Ok(_) => self.operations_error(r as int, self.ops(r as int).len() as int) is None,
                Err(m) => self.operations_error(r as int, self.ops(r as int).len() as int) == Some(
                    m@,
                ),
            },
            res is Ok ==> forall|id: Seq<char>| #[trigger]
                final(operation_ids)@.contains(id) <==> self.op_seen(
                    r as int,
                    self.ops(r as int).len() as int,
                    id,
                ),
    {
        let operations: &Vec<Issue23OperationPlan> = &self.requests[r].operations;
        let mut i: usize = 0;
        while i < operations.len()
            invariant
                self.qps_per_peer == 2,
                r < self.requests@.len(),
                operations@ == self.ops(r as int),
                i <= operations@.len(),
                self.operations_error(r as int, i as int) is None,
                forall|id: Seq<char>| #[trigger]
                    operation_ids@.contains(id) <==> self.op_seen(r as int, i as int, id),
            decreases operations@.len() - i,
        {
            let operation: &Issue23OperationPlan = &operations[i];
            let id: &str = operation.operation_id.as_str();
            proof {
                self.lemma_operation_error_sticks(r as int, i + 1, operations@.len() as int);
                assert(self.operations_error(r as int, i + 1) == self.operation_error(
                    r as int,
                    i as int,
                ));
            }
            if operation.logical_payload_bytes == 0 {
                return Err(join3("operation ", id, " has zero payload bytes"));
            }
            if !same_text(&operation.segment, "k") && !same_text(&operation.segment, "v") {
                return Err(join4("operation ", id, " has invalid segment ", &operation.segment));
            }
            if operation.source.as_str().is_empty() || operation.destination.as_str().is_empty() {
                return Err(join3("operation ", id, " has an empty source or destination"));
            }
            if !same_text(&operation.transfer_type, "load") {
                return Err(
                    join4(
                        "operation ",
                        id,
                        " has invalid transfer_type ",
                        &operation.transfer_type,
                    ),
                );
            }
            let expected: usize = i % self.qps_per_peer;
            if operation.qp_index != expected {
                return Err(
                    join6(
                        "operation ",
                        id,
                        " has qp_index ",
                        &decimal_text(operation.qp_index as u64),
                        ", expected ",
                        &decimal_text(expected as u64),
                    ),
                );
            }
            if decode_hex(&operation.block_hash_hex).is_err() {
                return Err(join3("operation ", id, " has invalid block_hash_hex"));
            }
            if operation_ids.contains(id) {
                return Err(join2("duplicate operation_id ", id));
            }
            operation_ids.insert(operation.operation_id.clone());
            assert forall|k: Seq<char>| #[trigger] operation_ids@.contains(k) implies self.op_seen(
                r as int,
                i + 1,
                k,
            ) by {
                if k == id@ {
                    assert(self.before(r as int, i as int, r as int, i + 1));
                } else {
                    let (q, j) = choose|q: int, j: int| #[trigger]
                        self.before(q, j, r as int, i as int) && self.op_id(q, j) == k;
                    assert(self.before(q, j, r as int, i + 1));
                }
            }
            assert forall|k: Seq<char>| self.op_seen(r as int, i + 1, k) implies #[trigger]
                operation_ids@.contains(k) by {
                let (q, j) = choose|q: int, j: int| #[trigger]
                    self.before(q, j, r as int, i + 1) && self.op_id(q, j) == k;
                if q == r && j == i {
                    assert(k == id@);
                } else {
                    assert(self.before(q, j, r as int, i as int));
                }
            }
            i += 1;
        }
        Ok(())
    }

    fn validate_cohorts(&self) -> (res: Result<(), String>)
        ensures
            match res {
                Ok(_) => self.cohorts_error(self.requests@.len() as int) is None,
                Err(m) => self.cohorts_error(self.requests@.len() as int) == Some(m@),
            },
    {
        let mut r: usize = 0;
        while r < self.requests.len()
            invariant
                r <= self.requests@.len(),
                self.cohorts_error(r as int) is None,
            decreases self.requests@.len() - r,
        {
            let slots: Vec<usize> = self.collect_cohort(&self.requests[r].cohort_id);
            let complete: bool = slots.len() == 4 && slots[0] == 0 && slots[1] == 1 && slots[2] == 2
                && slots[3] == 3;
            proof {
                let s = ints_of(slots@);
                assert(s == self.slots_beside(r as int));
                if complete {
                    assert(s =~= seq![0int, 1, 2, 3]);
                } else if s =~= seq![0int, 1, 2, 3] {
                    assert(s.len() == 4);
                    assert(s[0] == 0 && s[1] == 1 && s[2] == 2 && s[3] == 3);
                    assert(slots@[0] as int == s[0] && slots@[1] as int == s[1] && slots@[2] as int
                        == s[2] && slots@[3] as int == s[3]);
                }
                self.lemma_cohort_error_sticks(r + 1, self.requests@.len() as int);
            }
            if !complete {
                return Err(
                    join4(
                        "cohort ",
                        &self.requests[r].cohort_id,
                        " must contain smooth slots [0,1,2,3], got ",
                        &counts_text(&slots),
                    ),
                );
            }
            r += 1;
        }
        Ok(())
    }

    proof fn lemma_cohort_error_sticks(self, n: int, m: int)
        requires
            n <= m,
        ensures
            self.cohorts_error(n) is Some ==> self.cohorts_error(m) == self.cohorts_error(n),
        decreases m - n,
    {
        if n < m {
            self.lemma_cohort_error_sticks(n, m - 1);
        }
    }

    fn collect_cohort(&self, cohort: &str) -> (slots: Vec<usize>)
        ensures
            ints_of(slots@) == self.cohort_slots(cohort@, self.requests@.len() as int),
    {
        let mut slots: Vec<usize> = Vec::new();
        let mut r: usize = 0;
        assert(ints_of(slots@) =~= Seq::<int>::empty());
        while r < self.requests.len()
            invariant
                r <= self.requests@.len(),
                ints_of(slots@) == self.cohort_slots(cohort@, r as int),
            decreases self.requests@.len() - r,
        {
            if same_text(&self.requests[r].cohort_id, cohort) {
                insert_count(&mut slots, self.requests[r].smooth_slot);
            }
            r += 1;
        }
        slots
    }
}

impl Issue23TransferPlan {
    /// Whether everything that stands in operation `(r, i)` itself is in order.
    pub open spec fn sound_operation(self, r: int, i: int) -> bool {
        let op = self.ops(r)[i];
        &&& op.logical_payload_bytes > 0
        &&& op.segment@ == "k"@ || op.segment@ == "v"@
        &&& op.source@.len() > 0
        &&& op.destination@.len() > 0
        &&& op.transfer_type@ == "load"@
        &&& op.qp_index == i % 2
        &&& hex_error(hash_bytes(op)) is None
    }

    /// Whether everything that stands in request `r` itself is in order.
    pub open spec fn sound_request(self, r: int) -> bool {
        &&& self.id(r).len() > 0
        &&& self.cohort(r).len() > 0
        &&& self.requests@[r].smooth_slot < 4
        &&& self.ops(r).len() > 0
    }

    /// What a plan has to be for an experiment to run on it.
    pub open spec fn well_formed(self) -> bool {
        &&& self.schema_version == 1
        &&& self.protocol_id@.len() > 0
        &&& self.block_id@.len() > 0
        &&& self.qps_per_peer == 2
        &&& self.requests@.len() > 0
        &&& forall|r: int| 0 <= r < self.requests@.len() ==> #[trigger] self.sound_request(r)
        &&& forall|q: int, r: int|
            0 <= q < r < self.requests@.len() ==> #[trigger] self.id(q) != #[trigger] self.id(r)
        &&& forall|r: int, i: int|
            #[trigger] self.has_op(r, i) ==> self.sound_operation(r, i)
        &&& forall|q: int, j: int, r: int, i: int|
            self.has_op(r, i) && #[trigger] self.before(q, j, r, i) ==> self.op_id(q, j)
                != self.op_id(r, i)
        &&& forall|r: int|
            0 <= r < self.requests@.len() ==> #[trigger] self.slots_beside(r) == seq![
                0int,
                1,
                2,
                3,
            ]
    }

    proof fn lemma_operations_error(self, r: int, n: int)
        requires
            self.qps_per_peer == 2,
            0 <= n <= self.ops(r).len(),
            0 <= r < self.requests@.len(),
        ensures
            self.operations_error(r, n) is None <==> forall|i: int|
                0 <= i < n ==> #[trigger] self.sound_operation(r, i) && !self.op_seen(
                    r,
                    i,
                    self.op_id(r, i),
                ),
        decreases n,
    {
        if n > 0 {
            self.lemma_operations_error(r, n - 1);
            assert(self.operation_error(r, n - 1) is None <==> self.sound_operation(r, n - 1)
                && !self.op_seen(r, n - 1, self.op_id(r, n - 1)));
            if forall|i: int|
                0 <= i < n ==> #[trigger] self.sound_operation(r, i) && !self.op_seen(
                    r,
                    i,
                    self.op_id(r, i),
                ) {
                assert(self.sound_operation(r, n - 1));
            }
        }
    }

    /// Whether request `r` is in order as far as the requests before it go.
    spec fn request_in_order(self, r: int) -> bool {
        &&& self.sound_request(r)
        &&& !self.repeats_request(r)
        &&& self.operations_error(r, self.ops(r).len() as int) is None
    }

    proof fn lemma_requests_error(self, n: int)
        requires
            self.qps_per_peer == 2,
            0 <= n <= self.requests@.len(),
        ensures
            self.requests_error(n) is None <==> forall|r: int|
                0 <= r < n ==> #[trigger] self.request_in_order(r),
        decreases n,
    {
        if n > 0 {
            self.lemma_requests_error(n - 1);
            assert(self.request_error(n - 1) is None <==> self.sound_request(n - 1)
                && !self.repeats_request(n - 1));
            assert(self.requests_error(n) is None <==> self.requests_error(n - 1) is None
                && self.request_in_order(n - 1));
        }
    }

    proof fn lemma_cohorts_error(self, n: int)
        requires
            0 <= n <= self.requests@.len(),
        ensures
            self.cohorts_error(n) is None <==> forall|r: int|
                0 <= r < n ==> #[trigger] self.slots_beside(r) == seq![0int, 1, 2, 3],
        decreases n,
    {
        if n > 0 {
            self.lemma_cohorts_error(n - 1);
            if forall|r: int|
                0 <= r < n ==> #[trigger] self.slots_beside(r) == seq![0int, 1, 2, 3] {
                assert(self.slots_beside(n - 1) == seq![0int, 1, 2, 3]);
            }
        }
    }

    /// A plan is accepted exactly if its fields are in order, request and
    /// operation identifiers are unique, the operations of each request
    /// alternate between the two queue pairs, and each cohort has each of its
    /// four slots once.
    pub proof fn law_accepted_plans(self)
        ensures
            self.error() is None <==> self.well_formed(),
    {
        let n = self.requests@.len() as int;
        if self.header_error() is None {
            self.lemma_requests_error(n);
            self.lemma_cohorts_error(n);
            assert forall|r: int| 0 <= r < n implies (#[trigger] self.operations_error(
                r,
                self.ops(r).len() as int,
            ) is None <==> forall|i: int|
                0 <= i < self.ops(r).len() ==> #[trigger] self.sound_operation(r, i)
                    && !self.op_seen(r, i, self.op_id(r, i))) by {
                self.lemma_operations_error(r, self.ops(r).len() as int);
            }
            if self.error() is None {
                assert forall|r: int, i: int| #[trigger] self.has_op(r, i) implies
                    self.sound_operation(r, i) by {
                    assert(self.request_in_order(r));
                    assert(self.operations_error(r, self.ops(r).len() as int) is None);
                }
                assert forall|q: int, j: int, r: int, i: int|
                    self.has_op(r, i) && #[trigger] self.before(q, j, r, i) implies self.op_id(q, j)
                    != self.op_id(r, i) by {
                    assert(self.request_in_order(r));
                    assert(self.operations_error(r, self.ops(r).len() as int) is None);
                    assert(self.sound_operation(r, i));
                    assert(!self.op_seen(r, i, self.op_id(r, i)));
                }
                assert forall|q: int, r: int| 0 <= q < r < n implies #[trigger] self.id(q)
                    != #[trigger] self.id(r) by {
                    assert(self.request_in_order(r));
                    assert(!self.repeats_request(r));
                }
                assert forall|r: int| 0 <= r < n implies #[trigger] self.sound_request(r) by {
                    assert(self.request_in_order(r));
                }
            }
            if self.well_formed() {
                assert forall|r: int| 0 <= r < n implies #[trigger] self.request_in_order(r) by {
                    assert(self.sound_request(r));
                    assert forall|i: int| 0 <= i < self.ops(r).len() implies #[trigger]
                        self.sound_operation(r, i) && !self.op_seen(r, i, self.op_id(r, i)) by {
                        assert(self.has_op(r, i));
                        if self.op_seen(r, i, self.op_id(r, i)) {
                            let (q, j) = choose|q: int, j: int| #[trigger]
                                self.before(q, j, r, i) && self.op_id(q, j) == self.op_id(r, i);
                            assert(self.before(q, j, r, i));
                        }
                    }
                    assert(self.operations_error(r, self.ops(r).len() as int) is None);
                }
            }
        }
    }

    /// How many of the first `n` requests stand in `cohort` at `slot`.
    pub open spec fn at_slot(self, cohort: Seq<char>, slot: int, n: int) -> nat
        decreases n,
    {
        if n <= 0 {
            0
        } else if self.cohort(n - 1) == cohort && self.requests@[n - 1].smooth_slot == slot {
            self.at_slot(cohort, slot, n - 1) + 1
        } else {
            self.at_slot(cohort, slot, n - 1)
        }
    }

    proof fn lemma_slot_counts(self, cohort: Seq<char>, slot: int, n: int)
        ensures
            crate::order::ascending(self.cohort_slots(cohort, n)),
            self.cohort_slots(cohort, n).to_multiset().count(slot) == self.at_slot(cohort, slot, n),
        decreases n,
    {
        broadcast use vstd::seq_lib::group_to_multiset_ensures;

        if n > 0 {
            self.lemma_slot_counts(cohort, slot, n - 1);
            if self.cohort(n - 1) == cohort {
                crate::order::lemma_insert_sorted(
                    self.cohort_slots(cohort, n - 1),
                    self.requests@[n - 1].smooth_slot as int,
                );
            }
        }
    }

    proof fn lemma_at_slot_grows(self, cohort: Seq<char>, slot: int, n: int, m: int)
        requires
            n <= m,
        ensures
            self.at_slot(cohort, slot, n) <= self.at_slot(cohort, slot, m),
        decreases m - n,
    {
        if n < m {
            self.lemma_at_slot_grows(cohort, slot, n, m - 1);
        }
    }

    proof fn lemma_at_slot_witness(self, cohort: Seq<char>, slot: int, n: int) -> (q: int)
        requires
            self.at_slot(cohort, slot, n) > 0,
        ensures
            0 <= q < n,
            self.cohort(q) == cohort,
            self.requests@[q].smooth_slot == slot,
        decreases n,
    {
        if self.cohort(n - 1) == cohort && self.requests@[n - 1].smooth_slot == slot {
            n - 1
        } else {
            self.lemma_at_slot_witness(cohort, slot, n - 1)
        }
    }

    /// A cohort in which each of the four slots is taken by exactly one request is in order, however
    /// the requests stand in the plan.
    pub proof fn law_complete_cohorts_are_in_order(self, r: int)
        requires
            forall|slot: int| #[trigger]
                self.at_slot(self.cohort(r), slot, self.requests@.len() as int) == (if 0 <= slot < 4 {
                    1nat
                } else {
                    0
                }),
        ensures
            self.cohort_error(r) is None,
    {
        broadcast use vstd::seq_lib::group_to_multiset_ensures;

        let c = self.cohort(r);
        let n = self.requests@.len() as int;
        let slots = self.slots_beside(r);
        let all = seq![0int, 1, 2, 3];
        assert forall|slot: int| slots.to_multiset().count(slot) == all.to_multiset().count(slot) by {
            self.lemma_slot_counts(c, slot, n);
            assert(self.at_slot(c, slot, n) == (if 0 <= slot < 4 {
                1nat
            } else {
                0
            }));
            assert(all.no_duplicates());
            all.lemma_multiset_has_no_duplicates();
            if 0 <= slot < 4 {
                assert(all[slot] == slot);
                assert(all.contains(slot));
            } else {
                assert(!all.contains(slot));
            }
        }
        assert(slots.to_multiset() =~= all.to_multiset());
        self.lemma_slot_counts(c, 0, n);
        let leq = |x: int, y: int| x <= y;
        assert(vstd::relations::sorted_by(slots, leq));
        assert(vstd::relations::sorted_by(all, leq));
        vstd::seq_lib::lemma_sorted_unique(slots, all, leq);
    }

    /// In an accepted plan each slot of a request's cohort is taken by exactly
    /// one request.
    pub proof fn law_each_slot_taken_once(self, r: int, slot: int)
        requires
            self.error() is None,
            0 <= r < self.requests@.len(),
            0 <= slot < 4,
        ensures
            exists|q: int|
                0 <= q < self.requests@.len() && #[trigger] self.cohort(q) == self.cohort(r)
                    && self.requests@[q].smooth_slot == slot,
            forall|p: int, q: int|
                0 <= p < self.requests@.len() && 0 <= q < self.requests@.len()
                    && #[trigger] self.cohort(p) == self.cohort(r) && #[trigger] self.cohort(q)
                    == self.cohort(r) && self.requests@[p].smooth_slot == slot
                    && self.requests@[q].smooth_slot == slot ==> p == q,
    {
        broadcast use vstd::seq_lib::group_to_multiset_ensures;

        self.law_accepted_plans();
        let c = self.cohort(r);
        let n = self.requests@.len() as int;
        let slots = self.slots_beside(r);
        assert(slots == seq![0int, 1, 2, 3]);
        self.lemma_slot_counts(c, slot, n);
        assert(slots[slot] == slot);
        assert(slots.contains(slot));
        assert(slots.no_duplicates());
        slots.lemma_multiset_has_no_duplicates();
        assert(slots.to_multiset().count(slot) == 1);
        let q0 = self.lemma_at_slot_witness(c, slot, n);
        assert(self.cohort(q0) == c);
        assert forall|p: int, q: int|
            0 <= p < n && 0 <= q < n && #[trigger] self.cohort(p) == c && #[trigger] self.cohort(q)
                == c && self.requests@[p].smooth_slot == slot && self.requests@[q].smooth_slot
                == slot implies p == q by {
            if p != q {
                let (low, high) = if p < q {
                    (p, q)
                } else {
                    (q, p)
                };
                self.lemma_at_slot_grows(c, slot, low + 1, high);
                self.lemma_at_slot_grows(c, slot, high + 1, n);
                assert(self.at_slot(c, slot, low + 1) >= 1);
                assert(self.at_slot(c, slot, high + 1) >= 2);
            }
        }
    }
}

} // verus!
