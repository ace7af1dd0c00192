//! What is measured of the cache.

use vstd::prelude::*;
use vstd::string::*;

verus! {

/// The tiers that a queried block can be found in, and the one for blocks that are
/// found nowhere.
pub open spec fn tier_names() -> Seq<Seq<char>> {
    seq!["ram"@, "rdma"@, "ssd"@, "miss"@]
}

/// The tiers among the first `n` with a block, each with the number of its blocks.
pub open spec fn tier_counts(counts: Seq<usize>, n: int) -> Seq<(Seq<char>, u64)>
    decreases n,
{
    if n <= 0 {
        Seq::empty()
    } else if counts[n - 1] > 0 {
        tier_counts(counts, n - 1).push((tier_names()[n - 1], counts[n - 1] as u64))
    } else {
        tier_counts(counts, n - 1)
    }
}

/// Label and count as plain values.
pub open spec fn count_views(v: Seq<(&'static str, u64)>) -> Seq<(Seq<char>, u64)> {
    v.map_values(|e: (&'static str, u64)| (e.0@, e.1))
}

fn count_tier(counts: &mut Vec<(&'static str, u64)>, tier: &'static str, n: usize)
    ensures
        count_views(final(counts)@) == if n > 0 {
            count_views(old(counts)@).push((tier@, n as u64))
        } else {
            count_views(old(counts)@)
        },
{
    let ghost before = counts@;
    if n > 0 {
        counts.push((tier, n as u64));
        assert(count_views(counts@) =~= count_views(before).push((tier@, n as u64)));
    }
}

/// What one query adds to the count of block requests, by tier: nothing for a tier
/// without blocks.
pub fn cache_tier_block_requests(ram: usize, rdma: usize, ssd: usize, miss: usize) -> (r: Vec<
    (&'static str, u64),
>)
    ensures
        count_views(r@) == tier_counts(seq![ram, rdma, ssd, miss], 4),
{
    let ghost all = seq![ram, rdma, ssd, miss];
    let mut counts: Vec<(&'static str, u64)> = Vec::new();
    assert(count_views(counts@) =~= tier_counts(all, 0));
    count_tier(&mut counts, "ram", ram);
    assert(count_views(counts@) == tier_counts(all, 1));
    count_tier(&mut counts, "rdma", rdma);
    assert(count_views(counts@) == tier_counts(all, 2));
    count_tier(&mut counts, "ssd", ssd);
    assert(count_views(counts@) == tier_counts(all, 3));
    count_tier(&mut counts, "miss", miss);
    counts
}

/// The sum of some counts.
pub open spec fn count_total(v: Seq<(Seq<char>, u64)>) -> nat
    decreases v.len(),
{
    if v.len() == 0 {
        0
    } else {
        count_total(v.drop_last()) + v.last().1 as nat
    }
}

proof fn lemma_tier_total(counts: Seq<usize>, n: int)
    requires
        0 <= n <= 4,
        counts.len() == 4,
    ensures
        count_total(tier_counts(counts, n)) == if n == 0 {
            0
        } else {
            count_total(tier_counts(counts, n - 1)) + counts[n - 1] as nat
        },
{
    if n > 0 && counts[n - 1] > 0 {
        let front = tier_counts(counts, n - 1);
        assert(tier_counts(counts, n).drop_last() =~= front);
    }
}

/// What a query adds over all tiers is the number of blocks that it asked for.
pub proof fn law_tiers_add_up(ram: usize, rdma: usize, ssd: usize, miss: usize)
    ensures
        count_total(tier_counts(seq![ram, rdma, ssd, miss], 4)) == ram + rdma + ssd + miss,
{
    let counts = seq![ram, rdma, ssd, miss];
    lemma_tier_total(counts, 0);
    lemma_tier_total(counts, 1);
    lemma_tier_total(counts, 2);
    lemma_tier_total(counts, 3);
    lemma_tier_total(counts, 4);
}

/// Every tier with a count is reported under its name, in order, and no other is.
pub proof fn law_tiers_are_reported_under_their_names(counts: Seq<usize>, n: int)
    requires
        0 < n <= 4,
    ensures
        tier_counts(counts, 0).len() == 0,
        counts[n - 1] > 0 ==> tier_counts(counts, n) == tier_counts(counts, n - 1).push(
            (
                if n == 1 {
                    "ram"@
                } else if n == 2 {
                    "rdma"@
                } else if n == 3 {
                    "ssd"@
                } else {
                    "miss"@
                },
                counts[n - 1] as u64,
            ),
        ),
        counts[n - 1] == 0 ==> tier_counts(counts, n) == tier_counts(counts, n - 1),
{
}

/// Counts are shown whole and in order.
pub proof fn law_counts_are_shown_whole(v: Seq<(&'static str, u64)>, i: int)
    ensures
        count_views(v).len() == v.len(),
        0 <= i < v.len() ==> count_views(v)[i] == (v[i].0@, v[i].1),
{
}

} // verus!
