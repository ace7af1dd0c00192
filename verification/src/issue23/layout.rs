//! The objects that a plan moves, and how many bytes each holds.

use vstd::prelude::*;
use vstd::string::*;
use crate::block::copy_bytes;
use crate::hex::{decode_hex, hex_error, hex_value};
use crate::issue23::plan::{hash_bytes, Issue23OperationPlan, Issue23TransferPlan};
use crate::keyed::{has_key, is_entry, lemma_place, lemma_push, lemma_update, lookup, unique_keys};
use crate::text::{join2, same_bytes, same_text};

verus! {

/// What identifies a segment of an object: the object's hash, the slot and the
/// segment's name.
pub type SegmentKey = (Seq<u8>, int, Seq<char>);

/// The segment that an operation moves.
pub open spec fn segment_key(op: Issue23OperationPlan) -> SegmentKey {
    (hex_value(hash_bytes(op)), op.slot_index as int, op.segment@)
}

/// The segments that operations move, each once, with their lengths.
pub open spec fn segment_list(ops: Seq<Issue23OperationPlan>) -> Seq<(SegmentKey, int)>
    decreases ops.len(),
{
    if ops.len() == 0 {
        Seq::empty()
    } else {
        let front = segment_list(ops.drop_last());
        let key = segment_key(ops.last());
        if has_key(front, key) {
            front
        } else {
            front.push((key, ops.last().logical_payload_bytes as int))
        }
    }
}

/// The first operation that cannot be read, or that moves a segment with another
/// length than one before it.
pub open spec fn segment_error(ops: Seq<Issue23OperationPlan>) -> Option<Seq<char>>
    decreases ops.len(),
{
    if ops.len() == 0 {
        None
    } else if segment_error(ops.drop_last()) is Some {
        segment_error(ops.drop_last())
    } else {
        let op = ops.last();
        let known = lookup(segment_list(ops.drop_last()), segment_key(op));
        if hex_error(hash_bytes(op)) is Some {
            hex_error(hash_bytes(op))
        } else if known is Some && known->0 != op.logical_payload_bytes {
            Some("inconsistent payload size for operation "@ + op.operation_id@)
        } else {
            None
        }
    }
}

/// The operations of the first `n` requests, in order.
pub open spec fn operations_of(plan: Issue23TransferPlan, n: int) -> Seq<Issue23OperationPlan>
    decreases n,
{
    if n <= 0 {
        Seq::empty()
    } else {
        operations_of(plan, n - 1) + plan.ops(n - 1)
    }
}

/// Every operation of a plan, in order; none without a plan.
pub open spec fn all_operations(plan: Option<Issue23TransferPlan>) -> Seq<Issue23OperationPlan> {
    match plan {
        Some(p) => operations_of(p, p.requests@.len() as int),
        None => Seq::empty(),
    }
}

/// How many bytes of an object the segments hold.
pub open spec fn object_bytes(segments: Seq<(SegmentKey, int)>, hash: Seq<u8>) -> int
    decreases segments.len(),
{
    if segments.len() == 0 {
        0
    } else {
        object_bytes(segments.drop_last(), hash) + if segments.last().0.0 == hash {
            segments.last().1
        } else {
            0
        }
    }
}

/// Whether an object is among those whose segments are listed.
pub open spec fn has_object(segments: Seq<(SegmentKey, int)>, hash: Seq<u8>) -> bool {
    exists|i: int| 0 <= i < segments.len() && (#[trigger] segments[i]).0.0 == hash
}

/// The objects with their bytes.
pub open spec fn layout_view(layout: Seq<(Vec<u8>, u64)>) -> Seq<(Seq<u8>, u64)> {
    layout.map_values(|e: (Vec<u8>, u64)| (e.0@, e.1))
}

/// Whether `layout` lists each object once, with the bytes of its segments.
pub open spec fn is_layout(layout: Seq<(Seq<u8>, u64)>, segments: Seq<(SegmentKey, int)>) -> bool {
    &&& unique_keys(layout)
    &&& forall|h: Seq<u8>| #[trigger] has_key(layout, h) <==> has_object(segments, h)
    &&& forall|i: int|
        0 <= i < layout.len() ==> (#[trigger] layout[i]).1 == object_bytes(segments, layout[i].0)
}

/// Whether some object's bytes do not fit into 64 bits.
pub open spec fn overflows(segments: Seq<(SegmentKey, int)>) -> bool {
    exists|h: Seq<u8>| #[trigger] object_bytes(segments, h) > u64::MAX
}

proof fn lemma_segments_positive(ops: Seq<Issue23OperationPlan>)
    ensures
        forall|i: int|
            0 <= i < segment_list(ops).len() ==> (#[trigger] segment_list(ops)[i]).1 >= 0,
        unique_keys(segment_list(ops)),
    decreases ops.len(),
{
    if ops.len() > 0 {
        lemma_segments_positive(ops.drop_last());
        let front = segment_list(ops.drop_last());
        let key = segment_key(ops.last());
        if !has_key(front, key) {
            lemma_push(front, key, ops.last().logical_payload_bytes as int);
        }
    }
}

proof fn lemma_object_bytes_grow(segments: Seq<(SegmentKey, int)>, n: int, hash: Seq<u8>)
    requires
        0 <= n <= segments.len(),
        forall|i: int| 0 <= i < segments.len() ==> (#[trigger] segments[i]).1 >= 0,
    ensures
        0 <= object_bytes(segments.take(n), hash) <= object_bytes(segments, hash),
    decreases segments.len(), n,
{
    if n == segments.len() {
        assert(segments.take(n) =~= segments);
        if n > 0 {
            let front = segments.drop_last();
            assert forall|i: int| 0 <= i < front.len() implies (#[trigger] front[i]).1 >= 0 by {
                assert(segments[i].1 >= 0);
            }
            lemma_object_bytes_grow(front, n - 1, hash);
            assert(front.take(n - 1) =~= front);
            assert(segments[n - 1].1 >= 0);
        }
    } else {
        let front = segments.drop_last();
        assert forall|i: int| 0 <= i < front.len() implies (#[trigger] front[i]).1 >= 0 by {
            assert(segments[i].1 >= 0);
        }
        lemma_object_bytes_grow(front, n, hash);
        assert(front.take(n) =~= segments.take(n));
        assert(segments[segments.len() - 1].1 >= 0);
    }
}

/// One listed segment.
struct SegmentEntry {
    hash: Vec<u8>,
    slot: usize,
    segment: String,
    bytes: usize,
}

spec fn entry_view(e: SegmentEntry) -> (SegmentKey, int) {
    ((e.hash@, e.slot as int, e.segment@), e.bytes as int)
}

spec fn entries_view(entries: Seq<SegmentEntry>) -> Seq<(SegmentKey, int)> {
    entries.map_values(|e: SegmentEntry| entry_view(e))
}

fn find_segment(
    entries: &Vec<SegmentEntry>,
    hash: &Vec<u8>,
    slot: usize,
    segment: &str,
) -> (r: Option<usize>)
    requires
        unique_keys(entries_view(entries@)),
    ensures
        match r {
            Some(i) => i < entries@.len() && lookup(
                entries_view(entries@),
                (hash@, slot as int, segment@),
            ) == Some(entries@[i as int].bytes as int) && has_key(
                entries_view(entries@),
                (hash@, slot as int, segment@),
            ),
            None => !has_key(entries_view(entries@), (hash@, slot as int, segment@)),
        },
{
    let ghost key = (hash@, slot as int, segment@);
    let mut i: usize = 0;
    while i < entries.len()
        invariant
            i <= entries@.len(),
            key == (hash@, slot as int, segment@),
            unique_keys(entries_view(entries@)),
            forall|k: int| 0 <= k < i ==> !#[trigger] is_entry(entries_view(entries@), key, k),
        decreases entries@.len() - i,
    {
        let e: &SegmentEntry = &entries[i];
        assert(entries_view(entries@)[i as int] == entry_view(*e));
        if e.slot == slot && same_bytes(&e.hash, hash) && same_text(&e.segment, segment) {
            proof {
                lemma_place(entries_view(entries@), key, i as int);
            }
            return Some(i);
        }
        i += 1;
    }
    None
}

fn collect_segments(
    operations: &Vec<Issue23OperationPlan>,
    entries: &mut Vec<SegmentEntry>,
    Ghost(before): Ghost<Seq<Issue23OperationPlan>>,
) -> (r: Result<(), String>)
    requires
        entries_view(old(entries)@) == segment_list(before),
        segment_error(before) is None,
    ensures
        match r {
            Ok(_) => segment_error(before + operations@) is None && entries_view(final(entries)@)
                == segment_list(before + operations@),
            Err(m) => segment_error(before + operations@) == Some(m@),
        },
{
    let mut i: usize = 0;
    proof {
        assert(before + operations@.take(0) =~= before);
    }
    while i < operations.len()
        invariant
            i <= operations@.len(),
            entries_view(entries@) == segment_list(before + operations@.take(i as int)),
            segment_error(before + operations@.take(i as int)) is None,
        decreases operations@.len() - i,
    {
        let op: &Issue23OperationPlan = &operations[i];
        let ghost done = before + operations@.take(i as int);
        let ghost more = before + operations@.take(i + 1);
        proof {
            assert(more.drop_last() =~= done);
            assert(more.last() == *op);
            lemma_error_stays(before, operations@, i + 1);
            lemma_segments_positive(done);
        }
        let hash: Vec<u8> = match decode_hex(&op.block_hash_hex) {
            Ok(hash) => hash,
            Err(m) => {
                return Err(m);
            },
        };
        match find_segment(entries, &hash, op.slot_index, &op.segment) {
            Some(k) => {
                if entries[k].bytes != op.logical_payload_bytes {
                    return Err(
                        join2("inconsistent payload size for operation ", &op.operation_id),
                    );
                }
            },
            None => {
                let ghost shown = entries_view(entries@);
                entries.push(
                    SegmentEntry {
                        hash,
                        slot: op.slot_index,
                        segment: op.segment.clone(),
                        bytes: op.logical_payload_bytes,
                    },
                );
                assert(entries_view(entries@) =~= shown.push(
                    (segment_key(*op), op.logical_payload_bytes as int),
                ));
            },
        }
        i += 1;
    }
    assert(operations@.take(i as int) =~= operations@);
    Ok(())
}

proof fn lemma_error_stays(
    before: Seq<Issue23OperationPlan>,
    ops: Seq<Issue23OperationPlan>,
    n: int,
)
    requires
        0 <= n <= ops.len(),
    ensures
        segment_error(before + ops.take(n)) is Some ==> segment_error(before + ops)
            == segment_error(before + ops.take(n)),
    decreases ops.len() - n,
{
    if n < ops.len() {
        lemma_error_stays(before, ops, n + 1);
        assert((before + ops.take(n + 1)).drop_last() =~= before + ops.take(n));
    } else {
        assert(ops.take(n) =~= ops);
    }
}

proof fn lemma_error_stays_over_requests(plan: Issue23TransferPlan, n: int, m: int)
    requires
        0 <= n <= m <= plan.requests@.len(),
    ensures
        segment_error(operations_of(plan, n)) is Some ==> segment_error(operations_of(plan, m))
            == segment_error(operations_of(plan, n)),
    decreases m - n,
{
    if n < m {
        lemma_error_stays_over_requests(plan, n, m - 1);
        let ops = plan.ops(m - 1);
        lemma_error_stays(operations_of(plan, m - 1), ops, 0);
        assert(operations_of(plan, m - 1) + ops.take(0) =~= operations_of(plan, m - 1));
    }
}

fn find_object(layout: &Vec<(Vec<u8>, u64)>, hash: &Vec<u8>) -> (r: Option<usize>)
    requires
        unique_keys(layout_view(layout@)),
    ensures
        match r {
            Some(i) => i < layout@.len() && layout@[i as int].0@ == hash@ && has_key(
                layout_view(layout@),
                hash@,
            ),
            None => !has_key(layout_view(layout@), hash@),
        },
{
    let mut i: usize = 0;
    while i < layout.len()
        invariant
            i <= layout@.len(),
            unique_keys(layout_view(layout@)),
            forall|k: int| 0 <= k < i ==> !#[trigger] is_entry(layout_view(layout@), hash@, k),
        decreases layout@.len() - i,
    {
        assert(layout_view(layout@)[i as int].0 == layout@[i as int].0@);
        if same_bytes(&layout[i].0, hash) {
            proof {
                lemma_place(layout_view(layout@), hash@, i as int);
            }
            return Some(i);
        }
        i += 1;
    }
    None
}

/// Adds up the bytes of each object that a plan moves. A segment that several
/// operations move counts once, and has to have the same length in each.
pub fn expected_hidden_layout(plan: Option<&Issue23TransferPlan>) -> (r: Result<
    Vec<(Vec<u8>, u64)>,
    String,
>)
    ensures
        ({
            let ops = match plan {
                Some(p) => all_operations(Some(*p)),
                None => all_operations(None),
            };
            match r {
                Ok(layout) => {
                    &&& segment_error(ops) is None
                    &&& !overflows(segment_list(ops))
                    &&& is_layout(layout_view(layout@), segment_list(ops))
                },
                Err(m) => if segment_error(ops) is Some {
                    segment_error(ops) == Some(m@)
                } else {
                    overflows(segment_list(ops)) && m@ == "hidden block byte count overflow"@
                },
            }
        }),
{
    let mut entries: Vec<SegmentEntry> = Vec::new();
    let ghost ops = match plan {
        Some(p) => all_operations(Some(*p)),
        None => all_operations(None),
    };
    assert(entries_view(entries@) =~= Seq::<(SegmentKey, int)>::empty());
    match plan {
        Some(p) => {
            let mut r: usize = 0;
            while r < p.requests.len()
                invariant
                    r <= p.requests@.len(),
                    plan == Some(p),
                    ops == all_operations(Some(*p)),
                    entries_view(entries@) == segment_list(operations_of(*p, r as int)),
                    segment_error(operations_of(*p, r as int)) is None,
                decreases p.requests@.len() - r,
            {
                proof {
                    lemma_error_stays_over_requests(*p, r + 1, p.requests@.len() as int);
                }
                collect_segments(
                    &p.requests[r].operations,
                    &mut entries,
                    Ghost(operations_of(*p, r as int)),
                )?;
                r += 1;
            }
        },
        None => {},
    }
    let ghost segments = segment_list(ops);
    proof {
        lemma_segments_positive(ops);
        assert(entries_view(entries@) == segments);
        assert(segments.take(0) =~= Seq::<(SegmentKey, int)>::empty());
    }
    let mut layout: Vec<(Vec<u8>, u64)> = Vec::new();
    let mut n: usize = 0;
    while n < entries.len()
        invariant
            n <= entries@.len(),
            entries_view(entries@) == segments,
            forall|i: int| 0 <= i < segments.len() ==> (#[trigger] segments[i]).1 >= 0,
            is_layout(layout_view(layout@), segments.take(n as int)),
            segments == segment_list(ops),
            segment_error(ops) is None,
            ops == (match plan {
                Some(p) => all_operations(Some(*p)),
                None => all_operations(None),
            }),
        decreases entries@.len() - n,
    {
        let e: &SegmentEntry = &entries[n];
        let ghost done = segments.take(n as int);
        let ghost more = segments.take(n + 1);
        let ghost hash = e.hash@;
        let ghost shown = layout_view(layout@);
        proof {
            assert(segments[n as int] == entry_view(*e));
            assert(more.drop_last() =~= done);
            assert(more.last() == segments[n as int]);
            lemma_object_bytes_grow(segments, n + 1, hash);
            lemma_has_object_push(done, segments[n as int]);
            assert(done.push(segments[n as int]) =~= more);
        }
        match find_object(&layout, &e.hash) {
            Some(k) => {
                assert(shown[k as int] == (layout@[k as int].0@, layout@[k as int].1));
                let total: u64 = match layout[k].1.checked_add(e.bytes as u64) {
                    Some(total) => total,
                    None => {
                        assert(object_bytes(segments, hash) > u64::MAX);
                        return Err(String::from_str("hidden block byte count overflow"));
                    },
                };
                proof {
                    lemma_update(shown, k as int, total);
                }
                let key: Vec<u8> = copy_bytes(&e.hash);
                layout[k] = (key, total);
                proof {
                    let after = layout_view(layout@);
                    assert(after =~= shown.update(k as int, (shown[k as int].0, total)));
                    assert forall|i: int| 0 <= i < after.len() implies (#[trigger] after[i]).1
                        == object_bytes(more, after[i].0) by {
                        assert(shown[i].1 == object_bytes(done, shown[i].0));
                        if i != k {
                            assert(shown[i].0 != shown[k as int].0);
                        }
                    }
                    assert forall|h: Seq<u8>| #[trigger] has_key(after, h) <==> has_object(
                        more,
                        h,
                    ) by {
                        lemma_same_domain(shown, after, k as int, total, h);
                        assert(has_key(shown, h) <==> has_object(done, h));
                        if h == hash {
                            assert(is_entry(after, h, k as int));
                        }
                    }
                }
            },
            None => {
                proof {
                    lemma_push(shown, hash, e.bytes as u64);
                    lemma_no_object(done, hash);
                }
                layout.push((copy_bytes(&e.hash), e.bytes as u64));
                proof {
                    let after = layout_view(layout@);
                    assert(after =~= shown.push((hash, e.bytes as u64)));
                    assert forall|i: int| 0 <= i < after.len() implies (#[trigger] after[i]).1
                        == object_bytes(more, after[i].0) by {
                        if i < shown.len() {
                            assert(shown[i].1 == object_bytes(done, shown[i].0));
                            assert(is_entry(shown, shown[i].0, i));
                            assert(shown[i].0 != hash);
                        }
                    }
                    assert forall|h: Seq<u8>| #[trigger] has_key(after, h) <==> has_object(
                        more,
                        h,
                    ) by {
                        assert(has_key(shown, h) <==> has_object(done, h));
                        lemma_pushed_domain(shown, hash, e.bytes as u64, h);
                    }
                }
            },
        }
        n += 1;
    }
    proof {
        assert(segments.take(n as int) =~= segments);
        let view = layout_view(layout@);
        assert forall|h: Seq<u8>| #[trigger] object_bytes(segments, h) <= u64::MAX by {
            if has_object(segments, h) {
                assert(has_key(view, h));
                let i = crate::keyed::place(view, h);
                assert(is_entry(view, h, i));
                assert(view[i].1 == object_bytes(segments, h));
            } else {
                lemma_no_object(segments, h);
            }
        }
    }
    Ok(layout)
}

proof fn lemma_has_object_push(segments: Seq<(SegmentKey, int)>, e: (SegmentKey, int))
    ensures
        forall|h: Seq<u8>| #[trigger]
            has_object(segments.push(e), h) <==> has_object(segments, h) || h == e.0.0,
{
    let more = segments.push(e);
    assert forall|h: Seq<u8>| #[trigger] has_object(more, h) <==> has_object(segments, h) || h
        == e.0.0 by {
        if has_object(segments, h) {
            let i = choose|i: int| 0 <= i < segments.len() && (#[trigger] segments[i]).0.0 == h;
            assert(more[i].0.0 == h);
        }
        if h == e.0.0 {
            assert(more[segments.len() as int].0.0 == h);
        }
        if has_object(more, h) && h != e.0.0 {
            let i = choose|i: int| 0 <= i < more.len() && (#[trigger] more[i]).0.0 == h;
            assert(segments[i].0.0 == h);
        }
    }
}

proof fn lemma_no_object(segments: Seq<(SegmentKey, int)>, hash: Seq<u8>)
    requires
        !has_object(segments, hash),
    ensures
        object_bytes(segments, hash) == 0,
    decreases segments.len(),
{
    if segments.len() > 0 {
        let front = segments.drop_last();
        if has_object(front, hash) {
            let i = choose|i: int| 0 <= i < front.len() && (#[trigger] front[i]).0.0 == hash;
            assert(segments[i].0.0 == hash);
        }
        lemma_no_object(front, hash);
        assert(segments[segments.len() - 1].0.0 != hash);
    }
}

proof fn lemma_same_domain(
    before: Seq<(Seq<u8>, u64)>,
    after: Seq<(Seq<u8>, u64)>,
    k: int,
    total: u64,
    h: Seq<u8>,
)
    requires
        0 <= k < before.len(),
        after == before.update(k, (before[k].0, total)),
    ensures
        has_key(after, h) <==> has_key(before, h),
{
    if has_key(after, h) {
        let i = crate::keyed::place(after, h);
        assert(is_entry(after, h, i));
        assert(is_entry(before, h, i));
    }
    if has_key(before, h) {
        let i = crate::keyed::place(before, h);
        assert(is_entry(before, h, i));
        assert(is_entry(after, h, i));
    }
}

proof fn lemma_pushed_domain(s: Seq<(Seq<u8>, u64)>, key: Seq<u8>, value: u64, h: Seq<u8>)
    ensures
        has_key(s.push((key, value)), h) <==> has_key(s, h) || h == key,
{
    let t = s.push((key, value));
    if has_key(t, h) {
        let i = crate::keyed::place(t, h);
        assert(is_entry(t, h, i));
        if i < s.len() {
            assert(is_entry(s, h, i));
        }
    }
    if has_key(s, h) {
        let i = crate::keyed::place(s, h);
        assert(is_entry(s, h, i));
        assert(is_entry(t, h, i));
    }
    if h == key {
        assert(is_entry(t, h, s.len() as int));
    }
}

/// The segments of some operations are those that they name, each once, with the bytes of the
/// operation that names it first; an object has the bytes of all its segments.
pub proof fn law_segments_are_counted_once(
    ops: Seq<Issue23OperationPlan>,
    more: Issue23OperationPlan,
    segments: Seq<(SegmentKey, int)>,
    e: (SegmentKey, int),
    hash: Seq<u8>,
    i: int,
)
    ensures
        segment_list(Seq::empty()).len() == 0,
        has_key(segment_list(ops), segment_key(more)) ==> segment_list(ops.push(more))
            == segment_list(ops),
        !has_key(segment_list(ops), segment_key(more)) ==> segment_list(ops.push(more))
            == segment_list(ops).push((segment_key(more), more.logical_payload_bytes as int)),
        0 <= i < ops.len() ==> has_key(segment_list(ops), segment_key(ops[i])),
        object_bytes(Seq::empty(), hash) == 0,
        object_bytes(segments.push(e), hash) == object_bytes(segments, hash) + (if e.0.0 == hash {
            e.1
        } else {
            0
        }),
        segment_key(more) == (hex_value(hash_bytes(more)), more.slot_index as int, more.segment@),
    decreases ops.len(),
{
    assert(ops.push(more).drop_last() =~= ops);
    assert(segments.push(e).drop_last() =~= segments);
    if ops.len() > 0 {
        let front = ops.drop_last();
        law_segments_are_counted_once(front, more, segments, e, hash, i);
        let rest = segment_list(front);
        let all = segment_list(ops);
        if 0 <= i < front.len() {
            let p = crate::keyed::place(rest, segment_key(front[i]));
            assert(crate::keyed::is_entry(rest, segment_key(front[i]), p));
            assert(crate::keyed::is_entry(all, segment_key(ops[i]), p));
        } else if i == front.len() {
            if !has_key(rest, segment_key(ops[i])) {
                assert(crate::keyed::is_entry(all, segment_key(ops[i]), rest.len() as int));
            }
        }
    }
}

/// The operations of a plan are those of its requests, one request after the other.
pub proof fn law_operations_come_request_by_request(plan: Issue23TransferPlan, n: int)
    requires
        n > 0,
    ensures
        operations_of(plan, 0).len() == 0,
        operations_of(plan, n) == operations_of(plan, n - 1) + plan.requests@[n - 1].operations@,
        all_operations(Some(plan)) == operations_of(plan, plan.requests@.len() as int),
        all_operations(None).len() == 0,
{
}

/// A layout has every object that a segment names, and no other, each once and with the bytes of
/// all its segments.
pub proof fn law_layouts_hold_every_object(
    layout: Seq<(Seq<u8>, u64)>,
    segments: Seq<(SegmentKey, int)>,
    shown: Seq<(Vec<u8>, u64)>,
    s: int,
    i: int,
)
    requires
        is_layout(layout, segments),
    ensures
        0 <= s < segments.len() ==> exists|k: int|
            0 <= k < layout.len() && (#[trigger] layout[k]).0 == segments[s].0.0,
        0 <= i < layout.len() ==> layout[i].1 == object_bytes(segments, layout[i].0) && exists|k: int|
            0 <= k < segments.len() && (#[trigger] segments[k]).0.0 == layout[i].0,
        forall|a: int, b: int|
            0 <= a < b < layout.len() ==> (#[trigger] layout[a]).0 != (#[trigger] layout[b]).0,
        layout_view(shown).len() == shown.len(),
        0 <= i < shown.len() ==> layout_view(shown)[i] == (shown[i].0@, shown[i].1),
{
    if 0 <= s < segments.len() {
        assert(has_object(segments, segments[s].0.0));
        assert(has_key(layout, segments[s].0.0));
        let k = crate::keyed::place(layout, segments[s].0.0);
        assert(crate::keyed::is_entry(layout, segments[s].0.0, k));
        assert(layout[k].0 == segments[s].0.0);
    }
    if 0 <= i < layout.len() {
        assert(crate::keyed::is_entry(layout, layout[i].0, i));
        assert(has_key(layout, layout[i].0));
        assert(has_object(segments, layout[i].0));
    }
}

/// Operations agree in the sizes of their segments exactly if no operation names a segment with
/// another size than the first that names it, and all their hashes can be read.
pub proof fn law_segments_keep_their_size(
    ops: Seq<Issue23OperationPlan>,
    more: Issue23OperationPlan,
)
    ensures
        segment_error(Seq::empty()) is None,
        segment_error(ops.push(more)) is None <==> segment_error(ops) is None && hex_error(
            hash_bytes(more),
        ) is None && (lookup(segment_list(ops), segment_key(more)) is None || lookup(
            segment_list(ops),
            segment_key(more),
        ) == Some(more.logical_payload_bytes as int)),
{
    assert(ops.push(more).drop_last() =~= ops);
}

} // verus!
