//! What is measured of transfers: the instruments, their labels, and by how much
//! each event moves them.

use vstd::prelude::*;
use vstd::string::*;
use crate::text::has_suffix;
use crate::transfer::types::TransferOp;

verus! {

/// What an instrument measures.
#[derive(Clone, Copy, Debug, PartialEq, Eq, Structural)]
pub enum InstrumentKind {
    /// A count that only grows.
    Counter,
    /// A number that goes up and down.
    UpDownCounter,
    /// How often which values occurred.
    Histogram,
}

/// An instrument.
#[derive(Clone, Copy, Debug)]
pub struct Instrument {
    pub kind: InstrumentKind,
    pub name: &'static str,
    pub unit: Option<&'static str>,
}

/// An instrument as plain values.
pub type InstrumentView = (InstrumentKind, Seq<char>, Option<Seq<char>>);

/// The plain values of an instrument.
pub open spec fn instrument_view(i: Instrument) -> InstrumentView {
    (
        i.kind,
        i.name@,
        match i.unit {
            Some(u) => Some(u@),
            None => None,
        },
    )
}

/// The instruments of transfers.
pub open spec fn instrument_table() -> Seq<InstrumentView> {
    seq![
        (InstrumentKind::Counter, "pegaflow_rdma_batches_enqueued"@, None),
        (InstrumentKind::Counter, "pegaflow_rdma_batches_dequeued"@, None),
        (InstrumentKind::Counter, "pegaflow_rdma_batch_enqueue_failures"@, None),
        (InstrumentKind::Counter, "pegaflow_rdma_batches_completed"@, None),
        (InstrumentKind::UpDownCounter, "pegaflow_rdma_queued_batches"@, None),
        (InstrumentKind::UpDownCounter, "pegaflow_rdma_active_batches"@, None),
        (InstrumentKind::Histogram, "pegaflow_rdma_queue_delay"@, Some("s"@)),
        (InstrumentKind::Histogram, "pegaflow_rdma_service_duration"@, Some("s"@)),
        (InstrumentKind::Counter, "pegaflow_rdma_descriptors_posted"@, None),
        (InstrumentKind::Counter, "pegaflow_rdma_bytes_posted"@, Some("bytes"@)),
        (InstrumentKind::Counter, "pegaflow_rdma_descriptors_completed"@, None),
        (InstrumentKind::Counter, "pegaflow_rdma_bytes_completed"@, Some("bytes"@)),
        (InstrumentKind::Histogram, "pegaflow_rdma_cq_completion_delay"@, Some("s"@)),
    ]
}

fn instrument(kind: InstrumentKind, name: &'static str, unit: Option<&'static str>) -> (r:
    Instrument)
    ensures
        r.kind == kind,
        r.name@ == name@,
        r.unit == unit,
{
    Instrument { kind, name, unit }
}

/// The instruments of transfers. An exporter adds units and the suffix of counters
/// to their names, so the names here have neither.
pub fn transfer_instruments() -> (r: Vec<Instrument>)
    ensures
        r@.map_values(|i: Instrument| instrument_view(i)) == instrument_table(),
{
    let counter: InstrumentKind = InstrumentKind::Counter;
    let gauge: InstrumentKind = InstrumentKind::UpDownCounter;
    let histogram: InstrumentKind = InstrumentKind::Histogram;
    let mut r: Vec<Instrument> = Vec::new();
    r.push(instrument(counter, "pegaflow_rdma_batches_enqueued", None));
    r.push(instrument(counter, "pegaflow_rdma_batches_dequeued", None));
    r.push(instrument(counter, "pegaflow_rdma_batch_enqueue_failures", None));
    r.push(instrument(counter, "pegaflow_rdma_batches_completed", None));
    r.push(instrument(gauge, "pegaflow_rdma_queued_batches", None));
    r.push(instrument(gauge, "pegaflow_rdma_active_batches", None));
    r.push(instrument(histogram, "pegaflow_rdma_queue_delay", Some("s")));
    r.push(instrument(histogram, "pegaflow_rdma_service_duration", Some("s")));
    r.push(instrument(counter, "pegaflow_rdma_descriptors_posted", None));
    r.push(instrument(counter, "pegaflow_rdma_bytes_posted", Some("bytes")));
    r.push(instrument(counter, "pegaflow_rdma_descriptors_completed", None));
    r.push(instrument(counter, "pegaflow_rdma_bytes_completed", Some("bytes")));
    r.push(instrument(histogram, "pegaflow_rdma_cq_completion_delay", Some("s")));
    assert(r@.map_values(|i: Instrument| instrument_view(i)) =~= instrument_table());
    r
}

/// No counter is named as the exporter will name it, and no histogram carries its unit
/// in its name.
pub proof fn law_names_carry_no_suffix(k: int)
    requires
        0 <= k < instrument_table().len(),
    ensures
        !has_suffix(instrument_table()[k].1, "_total"@),
        !has_suffix(instrument_table()[k].1, "_seconds"@),
{
    reveal_strlit("_total");
    reveal_strlit("_seconds");
    reveal_strlit("pegaflow_rdma_batches_enqueued");
    reveal_strlit("pegaflow_rdma_batches_dequeued");
    reveal_strlit("pegaflow_rdma_batch_enqueue_failures");
    reveal_strlit("pegaflow_rdma_batches_completed");
    reveal_strlit("pegaflow_rdma_queued_batches");
    reveal_strlit("pegaflow_rdma_active_batches");
    reveal_strlit("pegaflow_rdma_queue_delay");
    reveal_strlit("pegaflow_rdma_service_duration");
    reveal_strlit("pegaflow_rdma_descriptors_posted");
    reveal_strlit("pegaflow_rdma_bytes_posted");
    reveal_strlit("pegaflow_rdma_descriptors_completed");
    reveal_strlit("pegaflow_rdma_bytes_completed");
    reveal_strlit("pegaflow_rdma_cq_completion_delay");
    let name = instrument_table()[k].1;
    assert(name.last() != 'l' && name.last() != 's' || name[name.len() - 2] != 'a'
        && name[name.len() - 2] != 'd');
    if has_suffix(name, "_total"@) {
        let tail = name.subrange(name.len() - 6, name.len() as int);
        assert(tail[5] == 'l' && tail[4] == 'a');
    }
    if has_suffix(name, "_seconds"@) {
        let tail = name.subrange(name.len() - 8, name.len() as int);
        assert(tail[7] == 's' && tail[6] == 'd');
    }
}

/// The label of a direction.
pub open spec fn op_name(op: TransferOp) -> Seq<char> {
    match op {
        TransferOp::Read => "read"@,
        TransferOp::Write => "write"@,
    }
}

/// The label of an outcome.
pub open spec fn status_name(succeeded: bool) -> Seq<char> {
    if succeeded {
        "ok"@
    } else {
        "error"@
    }
}

/// The labels of a direction: key and value.
pub fn op_attributes(op: TransferOp) -> (r: Vec<(&'static str, &'static str)>)
    ensures
        r@.len() == 1,
        r@[0].0@ == "op"@,
        r@[0].1@ == op_name(op),
{
    let mut r: Vec<(&'static str, &'static str)> = Vec::new();
    r.push(
        (
            "op",
            match op {
                TransferOp::Read => "read",
                TransferOp::Write => "write",
            },
        ),
    );
    r
}

/// The labels of a direction and an outcome.
pub fn result_attributes(op: TransferOp, succeeded: bool) -> (r: Vec<
    (&'static str, &'static str),
>)
    ensures
        r@.len() == 2,
        r@[0].0@ == "op"@,
        r@[0].1@ == op_name(op),
        r@[1].0@ == "status"@,
        r@[1].1@ == status_name(succeeded),
{
    let mut r: Vec<(&'static str, &'static str)> = op_attributes(op);
    r.push(
        (
            "status",
            if succeeded {
                "ok"
            } else {
                "error"
            },
        ),
    );
    r
}

/// By how much an event moves the instruments.
#[derive(Clone, Copy, Debug, PartialEq, Eq, Structural)]
pub struct BatchDelta {
    pub enqueued: u64,
    pub dequeued: u64,
    pub enqueue_failures: u64,
    pub completed: u64,
    pub queued: i64,
    pub active: i64,
    pub descriptors_posted: u64,
    pub bytes_posted: u64,
    pub descriptors_completed: u64,
    pub bytes_completed: u64,
}

impl BatchDelta {
    /// Nothing moves.
    pub open spec fn zero() -> BatchDelta {
        BatchDelta {
            enqueued: 0,
            dequeued: 0,
            enqueue_failures: 0,
            completed: 0,
            queued: 0,
            active: 0,
            descriptors_posted: 0,
            bytes_posted: 0,
            descriptors_completed: 0,
            bytes_completed: 0,
        }
    }

    fn nothing() -> (r: BatchDelta)
        ensures
            r == BatchDelta::zero(),
    {
        BatchDelta {
            enqueued: 0,
            dequeued: 0,
            enqueue_failures: 0,
            completed: 0,
            queued: 0,
            active: 0,
            descriptors_posted: 0,
            bytes_posted: 0,
            descriptors_completed: 0,
            bytes_completed: 0,
        }
    }

    /// What is queued is what went in and has neither been refused nor taken out, and
    /// what is active is what was taken out and has not completed.
    pub open spec fn balanced(self) -> bool {
        &&& self.queued == self.enqueued - self.enqueue_failures - self.dequeued
        &&& self.active == self.dequeued - self.completed
    }
}

/// A batch is put into a queue.
pub fn record_enqueue() -> (r: BatchDelta)
    ensures
        r == (BatchDelta { enqueued: 1, queued: 1, ..BatchDelta::zero() }),
        r.balanced(),
{
    BatchDelta { enqueued: 1, queued: 1, ..BatchDelta::nothing() }
}

/// A batch that was to be queued could not be.
pub fn record_enqueue_failure() -> (r: BatchDelta)
    ensures
        r == (BatchDelta { enqueue_failures: 1, queued: (-1) as i64, ..BatchDelta::zero() }),
        r.balanced(),
{
    BatchDelta { enqueue_failures: 1, queued: -1, ..BatchDelta::nothing() }
}

/// A batch is taken out of a queue.
pub fn record_dequeue() -> (r: BatchDelta)
    ensures
        r == (BatchDelta { dequeued: 1, queued: (-1) as i64, active: 1, ..BatchDelta::zero() }),
        r.balanced(),
{
    BatchDelta { dequeued: 1, queued: -1, active: 1, ..BatchDelta::nothing() }
}

/// A batch has ended.
pub fn record_batch_complete() -> (r: BatchDelta)
    ensures
        r == (BatchDelta { completed: 1, active: (-1) as i64, ..BatchDelta::zero() }),
        r.balanced(),
{
    BatchDelta { completed: 1, active: -1, ..BatchDelta::nothing() }
}

/// A chain of work requests was posted.
pub fn record_post(descriptors: usize, bytes: usize) -> (r: BatchDelta)
    ensures
        r == (BatchDelta {
            descriptors_posted: descriptors as u64,
            bytes_posted: bytes as u64,
            ..BatchDelta::zero()
        }),
        r.balanced(),
{
    BatchDelta {
        descriptors_posted: descriptors as u64,
        bytes_posted: bytes as u64,
        ..BatchDelta::nothing()
    }
}

/// A work request has completed.
pub fn record_completion(bytes: usize) -> (r: BatchDelta)
    ensures
        r == (BatchDelta {
            descriptors_completed: 1,
            bytes_completed: bytes as u64,
            ..BatchDelta::zero()
        }),
        r.balanced(),
{
    BatchDelta { descriptors_completed: 1, bytes_completed: bytes as u64, ..BatchDelta::nothing() }
}

/// The sum of what some events move.
pub open spec fn sum_of_queued(deltas: Seq<BatchDelta>) -> int
    decreases deltas.len(),
{
    if deltas.len() == 0 {
        0
    } else {
        sum_of_queued(deltas.drop_last()) + deltas.last().queued
    }
}

/// The number of batches that went in and were neither refused nor taken out.
pub open spec fn still_waiting(deltas: Seq<BatchDelta>) -> int
    decreases deltas.len(),
{
    if deltas.len() == 0 {
        0
    } else {
        still_waiting(deltas.drop_last()) + deltas.last().enqueued
            - deltas.last().enqueue_failures - deltas.last().dequeued
    }
}

/// After any events the gauge of queued batches shows how many are still waiting.
pub proof fn law_gauge_shows_what_waits(deltas: Seq<BatchDelta>)
    requires
        forall|k: int| 0 <= k < deltas.len() ==> (#[trigger] deltas[k]).balanced(),
    ensures
        sum_of_queued(deltas) == still_waiting(deltas),
    decreases deltas.len(),
{
    if deltas.len() > 0 {
        assert(deltas.last().balanced());
        law_gauge_shows_what_waits(deltas.drop_last());
    }
}

/// What is recorded changes nothing but what it says, and labels say what was done and how it went.
pub proof fn law_records_change_one_thing()
    ensures
        BatchDelta::zero().enqueued == 0,
        BatchDelta::zero().dequeued == 0,
        BatchDelta::zero().enqueue_failures == 0,
        BatchDelta::zero().completed == 0,
        BatchDelta::zero().queued == 0,
        BatchDelta::zero().active == 0,
        BatchDelta::zero().descriptors_posted == 0,
        BatchDelta::zero().bytes_posted == 0,
        BatchDelta::zero().descriptors_completed == 0,
        BatchDelta::zero().bytes_completed == 0,
        op_name(TransferOp::Read) == "read"@,
        op_name(TransferOp::Write) == "write"@,
        status_name(true) == "ok"@,
        status_name(false) == "error"@,
        instrument_table().len() == 13,
{
}

} // verus!
