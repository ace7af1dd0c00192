//! A first-fit allocator of byte ranges, in whole units.

use vstd::prelude::*;

verus! {

/// A range of bytes: its offset and its length.
#[derive(Clone, Copy, Debug, PartialEq, Eq, Structural)]
pub struct ByteRange {
    pub offset_bytes: u64,
    pub size_bytes: u64,
}

/// Hands out ranges of `0..total` in whole units, the lowest that fits first.
#[derive(Debug)]
pub struct RangeAllocator {
    total: u64,
    unit: u64,
    max_allocs: usize,
    used: Vec<ByteRange>,
}

/// The smallest multiple of `unit` that is at least `size`.
pub open spec fn round_up(size: int, unit: int) -> int {
    (size + unit - 1) / unit * unit
}

/// The end of the range in front of gap `i`.
pub open spec fn gap_start(used: Seq<ByteRange>, i: int) -> int {
    if i == 0 {
        0
    } else {
        used[i - 1].offset_bytes + used[i - 1].size_bytes
    }
}

/// The offset of the range behind gap `i`, or the total behind the last one.
pub open spec fn gap_end(used: Seq<ByteRange>, total: int, i: int) -> int {
    if i == used.len() {
        total
    } else {
        used[i].offset_bytes as int
    }
}

/// The length of gap `i`.
pub open spec fn gap(used: Seq<ByteRange>, total: int, i: int) -> int {
    gap_end(used, total, i) - gap_start(used, i)
}

/// The length of the longest of the first `n` gaps.
pub open spec fn longest_gap(used: Seq<ByteRange>, total: int, n: int) -> int
    decreases n,
{
    if n <= 0 {
        0
    } else {
        let rest = longest_gap(used, total, n - 1);
        if gap(used, total, n - 1) > rest {
            gap(used, total, n - 1)
        } else {
            rest
        }
    }
}

/// The total length of `used`.
pub open spec fn sum_sizes(used: Seq<ByteRange>) -> int
    decreases used.len(),
{
    if used.len() == 0 {
        0
    } else {
        sum_sizes(used.drop_last()) + used.last().size_bytes
    }
}

/// Whether the ranges are not empty and lie in order, apart and inside the total.
pub open spec fn in_order(used: Seq<ByteRange>, total: int) -> bool {
    &&& forall|i: int|
        0 <= i < used.len() ==> (#[trigger] used[i]).size_bytes > 0 && used[i].offset_bytes
            + used[i].size_bytes <= total
    &&& forall|i: int, j: int|
        0 <= i < j < used.len() ==> (#[trigger] used[i]).offset_bytes + used[i].size_bytes <= (
        #[trigger] used[j]).offset_bytes
}

/// Whether the ranges begin and end at multiples of the unit.
pub open spec fn in_units(used: Seq<ByteRange>, unit: int) -> bool {
    forall|i: int|
        0 <= i < used.len() ==> (#[trigger] used[i]).offset_bytes as int % unit == 0
            && used[i].size_bytes as int % unit == 0
}

proof fn lemma_units_sum(a: int, b: int, unit: int)
    requires
        unit > 0,
        a % unit == 0,
        b % unit == 0,
    ensures
        (a + b) % unit == 0,
        (a - b) % unit == 0,
{
    vstd::arithmetic::div_mod::lemma_mod_adds(a, b, unit);
    vstd::arithmetic::div_mod::lemma_sub_mod_noop(a, b, unit);
    assert(0int % unit == 0) by {
        vstd::arithmetic::div_mod::lemma_small_mod(0, unit as nat);
    }
}

proof fn lemma_gap_in_units(used: Seq<ByteRange>, total: int, unit: int, i: int)
    requires
        unit > 0,
        total % unit == 0,
        in_units(used, unit),
        0 <= i <= used.len(),
    ensures
        gap_start(used, i) % unit == 0,
        gap(used, total, i) % unit == 0,
{
    if i == 0 {
        vstd::arithmetic::div_mod::lemma_small_mod(0, unit as nat);
    } else {
        assert(used[i - 1].offset_bytes as int % unit == 0);
        lemma_units_sum(used[i - 1].offset_bytes as int, used[i - 1].size_bytes as int, unit);
    }
    if i < used.len() {
        assert(used[i].offset_bytes as int % unit == 0);
    }
    lemma_units_sum(gap_end(used, total, i), gap_start(used, i), unit);
}

/// A whole number of units that is at least the size is at least the rounded size.
proof fn lemma_round_up_is_least(size: int, unit: int, n: int)
    requires
        unit > 0,
        size >= 0,
        n % unit == 0,
        n >= size,
    ensures
        n >= round_up(size, unit),
{
    lemma_round_up(size, unit);
    let r = round_up(size, unit);
    if n < r {
        lemma_units_sum(r, n, unit);
        assert(0 < r - n < unit);
        vstd::arithmetic::div_mod::lemma_small_mod((r - n) as nat, unit as nat);
    }
}

proof fn lemma_insert_in_order(used: Seq<ByteRange>, total: int, p: int, r: ByteRange)
    requires
        in_order(used, total),
        0 <= p <= used.len(),
        r.size_bytes > 0,
        r.offset_bytes == gap_start(used, p),
        r.size_bytes <= gap(used, total, p),
    ensures
        in_order(used.insert(p, r), total),
{
    let after = used.insert(p, r);
    assert forall|k: int| 0 <= k < after.len() implies (#[trigger] after[k]).size_bytes > 0
        && after[k].offset_bytes + after[k].size_bytes <= total by {
        if k < p {
            assert(after[k] == used[k]);
        } else if k == p {
            if p < used.len() {
                assert(used[p].size_bytes > 0);
            }
        } else {
            assert(after[k] == used[k - 1]);
        }
    }
    assert forall|i: int, j: int| 0 <= i < j < after.len() implies (#[trigger]
    after[i]).offset_bytes + after[i].size_bytes <= (#[trigger] after[j]).offset_bytes by {
        let x = if i < p {
            i
        } else {
            i - 1
        };
        let y = if j < p {
            j
        } else {
            j - 1
        };
        if i == p {
            assert(after[j] == used[y]);
            assert(used[p].size_bytes > 0);
            if p < y {
                assert(used[p].offset_bytes + used[p].size_bytes <= used[y].offset_bytes);
            }
        } else if j == p {
            assert(after[i] == used[x]);
            if x < p - 1 {
                assert(used[x].offset_bytes + used[x].size_bytes <= used[p - 1].offset_bytes);
            }
        } else {
            assert(after[i] == used[x] && after[j] == used[y]);
        }
    }
}

proof fn lemma_remove_in_order(used: Seq<ByteRange>, total: int, p: int)
    requires
        in_order(used, total),
        0 <= p < used.len(),
    ensures
        in_order(used.remove(p), total),
{
}

/// The longest gap is at least as long as each.
pub proof fn lemma_longest_gap(used: Seq<ByteRange>, total: int, n: int)
    ensures
        longest_gap(used, total, n) >= 0,
        forall|i: int| 0 <= i < n ==> #[trigger] gap(used, total, i) <= longest_gap(used, total, n),
        longest_gap(used, total, n) > 0 ==> exists|i: int|
            0 <= i < n && #[trigger] gap(used, total, i) == longest_gap(used, total, n),
    decreases n,
{
    if n > 0 {
        lemma_longest_gap(used, total, n - 1);
        assert(gap(used, total, n - 1) <= longest_gap(used, total, n));
    }
}

/// What is handed out fits into the total.
pub proof fn lemma_sum_sizes_bound(used: Seq<ByteRange>, total: int, n: int)
    requires
        0 <= n <= used.len(),
        0 <= total,
        in_order(used, total),
    ensures
        0 <= sum_sizes(used.take(n)) <= gap_start(used, n) <= total,
    decreases n,
{
    if n > 0 {
        lemma_sum_sizes_bound(used, total, n - 1);
        assert(used.take(n).drop_last() =~= used.take(n - 1));
        assert(used.take(n).last() == used[n - 1]);
        if n > 1 {
            assert(used[n - 2].offset_bytes + used[n - 2].size_bytes <= used[n - 1].offset_bytes);
        }
    }
}

/// What is handed out without one range.
pub proof fn lemma_sum_sizes_remove(used: Seq<ByteRange>, i: int)
    requires
        0 <= i < used.len(),
    ensures
        sum_sizes(used.remove(i)) == sum_sizes(used) - used[i].size_bytes,
    decreases used.len(),
{
    if i == used.len() - 1 {
        assert(used.remove(i) =~= used.drop_last());
    } else {
        lemma_sum_sizes_remove(used.drop_last(), i);
        assert(used.remove(i).drop_last() =~= used.drop_last().remove(i));
        assert(used.remove(i).last() == used.last());
    }
}

/// Rounding up gives a multiple of the unit that is at least the size.
pub proof fn lemma_round_up(size: int, unit: int)
    requires
        unit > 0,
        size >= 0,
    ensures
        round_up(size, unit) % unit == 0,
        size <= round_up(size, unit) < size + unit,
{
    let q = (size + unit - 1) / unit;
    assert(q * unit % unit == 0) by (nonlinear_arith)
        requires
            unit > 0,
    ;
    assert((size + unit - 1) == q * unit + (size + unit - 1) % unit && 0 <= (size + unit - 1) % unit
        < unit) by (nonlinear_arith)
        requires
            unit > 0,
            q == (size + unit - 1) / unit,
    ;
}

/// Whether `after` is `before` with `a` handed out for a request of `size` bytes:
/// `a` begins the first gap that is long enough for the rounded size.
pub open spec fn takes(
    before: RangeAllocator,
    after: RangeAllocator,
    size: int,
    a: ByteRange,
) -> bool {
    exists|i: int|
        {
            &&& 0 <= i <= before.used().len()
            &&& #[trigger] gap(before.used(), before.total(), i) >= round_up(size, before.unit())
            &&& forall|k: int|
                0 <= k < i ==> #[trigger] gap(before.used(), before.total(), k) < round_up(
                    size,
                    before.unit(),
                )
            &&& a.offset_bytes == gap_start(before.used(), i)
            &&& a.size_bytes == round_up(size, before.unit())
            &&& after.used() == before.used().insert(i, a)
        }
}

impl RangeAllocator {
    /// Whether a request of `size` bytes can be met.
    pub open spec fn fits(self, size: int) -> bool {
        self.used().len() < self.max_allocs() && exists|i: int|
            0 <= i <= self.used().len() && #[trigger] gap(self.used(), self.total(), i)
                >= round_up(size, self.unit())
    }

    /// The ranges that are handed out, by ascending offset.
    pub closed spec fn used(self) -> Seq<ByteRange> {
        self.used@
    }

    /// How many bytes can be handed out.
    pub closed spec fn total(self) -> int {
        self.total as int
    }

    /// The unit that lengths are rounded up to.
    pub closed spec fn unit(self) -> int {
        self.unit as int
    }

    /// How many ranges can be handed out at a time.
    pub closed spec fn max_allocs(self) -> int {
        self.max_allocs as int
    }

    /// The ranges lie in order, apart and inside the total, and are made up of whole units.
    pub open spec fn wf(self) -> bool {
        &&& self.unit() > 0
        &&& 0 <= self.total() <= u64::MAX
        &&& self.max_allocs() <= usize::MAX
        &&& in_order(self.used(), self.total())
        &&& self.total() % self.unit() == 0
        &&& in_units(self.used(), self.unit())
    }

    /// The length of the longest range that can be handed out.
    pub open spec fn largest(self) -> int {
        if self.used().len() < self.max_allocs() {
            longest_gap(self.used(), self.total(), self.used().len() as int + 1)
        } else {
            0
        }
    }

    /// An allocator of `capacity` bytes, as far as they make up whole units.
    pub fn new_with_unit_size_and_max_allocs(capacity: u64, unit: u64, max_allocs: usize) -> (r:
        RangeAllocator)
        requires
            unit > 0,
        ensures
            r.wf(),
            r.used() == Seq::<ByteRange>::empty(),
            r.total() == capacity / unit * unit,
            r.unit() == unit,
            r.max_allocs() == max_allocs,
    {
        let units: u64 = capacity / unit;
        assert(0 <= units * unit <= capacity) by (nonlinear_arith)
            requires
                units == capacity / unit,
                unit > 0,
        ;
        proof {
            vstd::arithmetic::div_mod::lemma_mod_multiples_basic(units as int, unit as int);
        }
        RangeAllocator { total: units * unit, unit, max_allocs, used: Vec::new() }
    }

    /// How many bytes can be handed out in all.
    pub fn total_bytes(&self) -> (r: u64)
        ensures
            r == self.total(),
    {
        self.total
    }

    /// Hands out the lowest range of `size` bytes, rounded up to whole units.
    ///
    /// There is none where no gap is long enough, or where as many ranges as
    /// the allocator keeps are handed out already.
    pub fn allocate(&mut self, size: u64) -> (r: Option<ByteRange>)
        requires
            old(self).wf(),
            size > 0,
        ensures
            final(self).wf(),
            final(self).total() == old(self).total(),
            final(self).unit() == old(self).unit(),
            final(self).max_allocs() == old(self).max_allocs(),
            r is Some == old(self).fits(size as int),
            match r {
                Some(a) => takes(*old(self), *final(self), size as int, a),
                None => *final(self) == *old(self),
            },
    {
        proof {
            lemma_round_up(size as int, self.unit as int);
        }
        if self.used.len() >= self.max_allocs {
            return None;
        }
        if size > self.total {
            assert forall|k: int| 0 <= k <= self.used().len() implies #[trigger] gap(
                self.used(),
                self.total(),
                k,
            ) < round_up(size as int, self.unit()) by {
                if k > 0 {
                    assert(self.used()[k - 1].size_bytes > 0);
                }
                if k < self.used().len() {
                    assert(self.used()[k].size_bytes > 0);
                }
            }
            return None;
        }
        let wanted: u128 = (size as u128 + self.unit as u128 - 1) / self.unit as u128
            * self.unit as u128;
        let mut i: usize = 0;
        let mut start: u64 = 0;
        loop
            invariant
                self.wf(),
                *self == *old(self),
                i <= self.used@.len(),
                self.used@.len() < self.max_allocs,
                start == gap_start(self.used@, i as int),
                start <= self.total,
                wanted == round_up(size as int, self.unit as int),
                wanted >= size > 0,
                forall|k: int|
                    0 <= k < i ==> #[trigger] gap(self.used(), self.total(), k) < wanted,
            decreases self.used@.len() - i,
        {
            let end: u64 = if i < self.used.len() {
                assert(self.used()[i as int].size_bytes > 0);
                self.used[i].offset_bytes
            } else {
                self.total
            };
            assert(gap(self.used(), self.total(), i as int) == end - start);
            if (end - start) as u128 >= wanted {
                let a: ByteRange = ByteRange { offset_bytes: start, size_bytes: wanted as u64 };
                self.used.insert(i, a);
                proof {
                    let before = old(self).used();
                    let after = self.used();
                    lemma_insert_in_order(before, self.total(), i as int, a);
                    lemma_round_up(size as int, self.unit());
                    lemma_gap_in_units(before, self.total(), self.unit(), i as int);
                    assert(after == before.insert(i as int, a));
                    assert forall|k: int| 0 <= k < after.len() implies (#[trigger]
                    after[k]).offset_bytes as int % self.unit() == 0
                        && after[k].size_bytes as int % self.unit() == 0 by {
                        if k < i {
                            assert(after[k] == before[k]);
                        } else if k > i {
                            assert(after[k] == before[k - 1]);
                        }
                    }
                    assert(gap(before, self.total(), i as int) >= wanted);
                }
                return Some(a);
            }
            if i >= self.used.len() {
                return None;
            }
            start = self.used[i].offset_bytes + self.used[i].size_bytes;
            i += 1;
        }
    }

    fn position(&self, range: ByteRange) -> (r: Option<usize>)
        ensures
            match r {
                Some(i) => i < self.used@.len() && self.used@[i as int] == range,
                None => !self.used@.contains(range),
            },
    {
        let mut i: usize = 0;
        while i < self.used.len()
            invariant
                i <= self.used@.len(),
                forall|k: int| 0 <= k < i ==> self.used@[k] != range,
            decreases self.used@.len() - i,
        {
            if self.used[i].offset_bytes == range.offset_bytes && self.used[i].size_bytes
                == range.size_bytes {
                return Some(i);
            }
            i += 1;
        }
        None
    }

    /// Takes a range back. Reports whether it was handed out.
    pub fn free(&mut self, range: ByteRange) -> (r: bool)
        requires
            old(self).wf(),
        ensures
            final(self).wf(),
            final(self).total() == old(self).total(),
            final(self).unit() == old(self).unit(),
            final(self).max_allocs() == old(self).max_allocs(),
            r == old(self).used().contains(range),
            !r ==> final(self).used() == old(self).used(),
            r ==> exists|i: int|
                0 <= i < old(self).used().len() && #[trigger] old(self).used()[i] == range
                    && final(self).used() == old(self).used().remove(i),
    {
        match self.position(range) {
            Some(i) => {
                proof {
                    lemma_remove_in_order(self.used(), self.total(), i as int);
                    assert(self.used()[i as int] == range);
                }
                self.used.remove(i);
                assert(self.used() == old(self).used().remove(i as int));
                true
            },
            None => false,
        }
    }

    /// How many bytes are not handed out.
    pub fn total_free_bytes(&self) -> (r: u64)
        requires
            self.wf(),
        ensures
            r == self.total() - sum_sizes(self.used()),
    {
        let mut taken: u64 = 0;
        let mut i: usize = 0;
        proof {
            lemma_sum_sizes_bound(self.used(), self.total(), self.used().len() as int);
            assert(self.used@.take(self.used@.len() as int) =~= self.used@);
        }
        while i < self.used.len()
            invariant
                self.wf(),
                i <= self.used@.len(),
                taken == sum_sizes(self.used@.take(i as int)),
            decreases self.used@.len() - i,
        {
            proof {
                let used = self.used@;
                lemma_sum_sizes_bound(self.used(), self.total(), i + 1);
                assert(used.take(i + 1).drop_last() =~= used.take(i as int));
                assert(used.take(i + 1).last() == used[i as int]);
            }
            taken = taken + self.used[i].size_bytes;
            i += 1;
        }
        assert(self.used@.take(i as int) =~= self.used@);
        self.total - taken
    }

    /// The length of the longest range that could be handed out.
    pub fn largest_free_allocation_bytes(&self) -> (r: u64)
        requires
            self.wf(),
        ensures
            r == self.largest(),
    {
        if self.used.len() >= self.max_allocs {
            return 0;
        }
        let mut best: u64 = 0;
        let mut start: u64 = 0;
        let mut i: usize = 0;
        while i < self.used.len()
            invariant
                self.wf(),
                i <= self.used@.len(),
                start == gap_start(self.used@, i as int),
                start <= self.total,
                best == longest_gap(self.used@, self.total as int, i as int),
            decreases self.used@.len() - i,
        {
            assert(self.used()[i as int].size_bytes > 0);
            let length: u64 = self.used[i].offset_bytes - start;
            if length > best {
                best = length;
            }
            start = self.used[i].offset_bytes + self.used[i].size_bytes;
            i += 1;
        }
        let tail: u64 = self.total - start;
        if tail > best {
            tail
        } else {
            best
        }
    }

    /// Taking back a range that has just been handed out restores the allocator.
    pub proof fn law_free_undoes_allocate(
        before: RangeAllocator,
        after: RangeAllocator,
        freed: RangeAllocator,
        size: int,
        a: ByteRange,
        j: int,
    )
        requires
            before.wf(),
            after.wf(),
            takes(before, after, size, a),
            0 <= j < after.used().len(),
            after.used()[j] == a,
            freed.used() == after.used().remove(j),
        ensures
            freed.used() == before.used(),
    {
        let i = choose|i: int|
            0 <= i <= before.used().len() && #[trigger] gap(before.used(), before.total(), i)
                >= round_up(size, before.unit()) && after.used() == before.used().insert(i, a);
        assert(after.used()[i] == a);
        if i < j {
            after.law_ranges_are_apart(i, j);
        }
        if j < i {
            after.law_ranges_are_apart(j, i);
        }
        assert(freed.used() =~= before.used());
    }

    /// A request can be met exactly if it asks for no more than the longest range that
    /// can be handed out.
    pub proof fn law_largest_is_what_fits(self, size: int)
        requires
            self.wf(),
            size > 0,
        ensures
            self.fits(size) <==> size <= self.largest(),
    {
        let used = self.used();
        let n = used.len() as int + 1;
        lemma_longest_gap(used, self.total(), n);
        lemma_round_up(size, self.unit());
        if self.fits(size) {
            let i = choose|i: int|
                0 <= i <= used.len() && #[trigger] gap(used, self.total(), i) >= round_up(
                    size,
                    self.unit(),
                );
            assert(gap(used, self.total(), i) <= longest_gap(used, self.total(), n));
        }
        if size <= self.largest() {
            let i = choose|i: int|
                0 <= i < n && #[trigger] gap(used, self.total(), i) == longest_gap(
                    used,
                    self.total(),
                    n,
                );
            lemma_gap_in_units(used, self.total(), self.unit(), i);
            lemma_round_up_is_least(size, self.unit(), gap(used, self.total(), i));
            assert(gap(used, self.total(), i) >= round_up(size, self.unit()));
        }
    }

    /// Ranges that are handed out do not meet.
    pub proof fn law_ranges_are_apart(self, i: int, j: int)
        requires
            self.wf(),
            0 <= i < j < self.used().len(),
        ensures
            self.used()[i].offset_bytes + self.used()[i].size_bytes
                <= self.used()[j].offset_bytes,
    {
    }
}

/// Sizes are rounded up to whole units, and by less than a unit.
pub proof fn law_rounding_adds_less_than_a_unit(size: int, unit: int)
    requires
        size > 0,
        unit > 0,
    ensures
        size <= round_up(size, unit) < size + unit,
        round_up(size, unit) % unit == 0,
{
    let q = (size + unit - 1) / unit;
    vstd::arithmetic::div_mod::lemma_fundamental_div_mod(size + unit - 1, unit);
    vstd::arithmetic::div_mod::lemma_mod_bound(size + unit - 1, unit);
    assert(unit * q == q * unit) by (nonlinear_arith);
    vstd::arithmetic::div_mod::lemma_mod_multiples_basic(q, unit);
}

proof fn lemma_gap_around(
    used: Seq<ByteRange>,
    total: int,
    start: int,
    len: int,
    n: int,
) -> (i: int)
    requires
        in_order(used, total),
        0 <= n <= used.len(),
        0 <= start,
        len > 0,
        start + len <= total,
        forall|k: int|
            0 <= k < used.len() ==> (#[trigger] used[k]).offset_bytes + used[k].size_bytes <= start
                || start + len <= used[k].offset_bytes,
        n < used.len() ==> start + len <= used[n].offset_bytes,
    ensures
        0 <= i <= used.len(),
        gap_start(used, i) <= start,
        start + len <= gap_end(used, total, i),
    decreases n,
{
    if n == 0 || used[n - 1].offset_bytes + used[n - 1].size_bytes <= start {
        n
    } else {
        assert(start + len <= used[n - 1].offset_bytes);
        lemma_gap_around(used, total, start, len, n - 1)
    }
}

/// A request is met wherever there is room: if a stretch of bytes that is long enough meets no
/// range that is handed out, a range can be.
pub proof fn law_free_stretches_are_found(r: RangeAllocator, size: int, start: int, len: int)
    requires
        r.wf(),
        size > 0,
        r.used().len() < r.max_allocs(),
        0 <= start,
        len >= size,
        start + len <= r.total(),
        forall|k: int|
            0 <= k < r.used().len() ==> (#[trigger] r.used()[k]).offset_bytes
                + r.used()[k].size_bytes <= start || start + len <= r.used()[k].offset_bytes,
    ensures
        r.fits(size),
{
    let used = r.used();
    let i = lemma_gap_around(used, r.total(), start, len, used.len() as int);
    lemma_gap_in_units(used, r.total(), r.unit(), i);
    lemma_round_up_is_least(size, r.unit(), gap(used, r.total(), i));
    assert(gap(used, r.total(), i) >= round_up(size, r.unit()));
}

proof fn lemma_sum_insert(used: Seq<ByteRange>, i: int, a: ByteRange)
    requires
        0 <= i <= used.len(),
    ensures
        sum_sizes(used.insert(i, a)) == sum_sizes(used) + a.size_bytes,
{
    let more = used.insert(i, a);
    assert(more.remove(i) =~= used);
    lemma_sum_sizes_remove(more, i);
}

/// A range that is handed out is long enough, lies within the memory, and meets no range that was
/// handed out before; those all stay, and the bytes in use grow by its own.
pub proof fn law_ranges_are_handed_out_of_free_memory(
    before: RangeAllocator,
    after: RangeAllocator,
    size: int,
    a: ByteRange,
    k: int,
)
    requires
        before.wf(),
        size > 0,
        takes(before, after, size, a),
        0 <= k < before.used().len(),
    ensures
        a.size_bytes >= size,
        a.size_bytes < size + before.unit(),
        a.offset_bytes + a.size_bytes <= before.total(),
        before.used()[k].offset_bytes + before.used()[k].size_bytes <= a.offset_bytes
            || a.offset_bytes + a.size_bytes <= before.used()[k].offset_bytes,
        after.used().len() == before.used().len() + 1,
        after.used().contains(a),
        after.used().contains(before.used()[k]),
        sum_sizes(after.used()) == sum_sizes(before.used()) + a.size_bytes,
{
    let used = before.used();
    let i = choose|i: int|
        {
            &&& 0 <= i <= used.len()
            &&& #[trigger] gap(used, before.total(), i) >= round_up(size, before.unit())
            &&& a.offset_bytes == gap_start(used, i)
            &&& a.size_bytes == round_up(size, before.unit())
            &&& after.used() == used.insert(i, a)
        };
    law_rounding_adds_less_than_a_unit(size, before.unit());
    lemma_sum_insert(used, i, a);
    assert(after.used()[i] == a);
    assert(after.used()[if k < i {
        k
    } else {
        k + 1
    }] == used[k]);
    if k < i - 1 {
        assert(used[k].offset_bytes + used[k].size_bytes <= used[i - 1].offset_bytes);
    }
    if i < k {
        assert(used[i].offset_bytes + used[i].size_bytes <= used[k].offset_bytes);
    }
}

/// The bytes in use are those of the ranges that are handed out, each counted once.
pub proof fn law_bytes_in_use_add_up(used: Seq<ByteRange>, a: ByteRange, i: int)
    requires
        0 <= i < used.len(),
    ensures
        sum_sizes(Seq::empty()) == 0,
        sum_sizes(used.push(a)) == sum_sizes(used) + a.size_bytes,
        sum_sizes(used.remove(i)) == sum_sizes(used) - used[i].size_bytes,
{
    assert(used.push(a).drop_last() =~= used);
    lemma_sum_sizes_remove(used, i);
}

} // verus!
