//! Sorted sequences of integers.

use vstd::prelude::*;
use crate::text::{decimal, push_decimal};
use vstd::string::*;

verus! {

/// `x` put into `s` behind the last element that is not greater.
pub open spec fn insert_sorted(s: Seq<int>, x: int) -> Seq<int>
    decreases s.len(),
{
    if s.len() == 0 || s.last() <= x {
        s.push(x)
    } else {
        insert_sorted(s.drop_last(), x).push(s.last())
    }
}

/// The elements of `s` in ascending order.
pub open spec fn sorted(s: Seq<int>) -> Seq<int>
    decreases s.len(),
{
    if s.len() == 0 {
        s
    } else {
        insert_sorted(sorted(s.drop_last()), s.last())
    }
}

/// Whether each element is at most the next.
pub open spec fn ascending(s: Seq<int>) -> bool {
    forall|i: int, j: int| 0 <= i <= j < s.len() ==> s[i] <= s[j]
}

/// Putting `x` at the place where everything behind it is greater is
/// [`insert_sorted`].
pub proof fn lemma_insert_position(s: Seq<int>, x: int, p: int)
    requires
        0 <= p <= s.len(),
        p > 0 ==> s[p - 1] <= x,
        forall|k: int| p <= k < s.len() ==> s[k] > x,
    ensures
        insert_sorted(s, x) == s.insert(p, x),
    decreases s.len(),
{
    if p < s.len() {
        lemma_insert_position(s.drop_last(), x, p);
        assert(insert_sorted(s, x) =~= s.insert(p, x));
    } else {
        assert(s.push(x) =~= s.insert(p, x));
    }
}

pub proof fn lemma_insert_sorted(s: Seq<int>, x: int)
    requires
        ascending(s),
    ensures
        ascending(insert_sorted(s, x)),
        insert_sorted(s, x).len() == s.len() + 1,
        insert_sorted(s, x).to_multiset() == s.to_multiset().insert(x),
        forall|y: int|
            #[trigger] insert_sorted(s, x).contains(y) <==> s.contains(y) || y == x,
    decreases s.len(),
{
    broadcast use vstd::seq_lib::group_to_multiset_ensures;

    let r = insert_sorted(s, x);
    if s.len() == 0 || s.last() <= x {
        assert forall|y: int| #[trigger] r.contains(y) <==> s.contains(y) || y == x by {
            if s.contains(y) {
                let k = s.index_of(y);
                assert(r[k] == y);
            }
            if y == x {
                assert(r[s.len() as int] == y);
            }
        }
    } else {
        let t = insert_sorted(s.drop_last(), x);
        lemma_insert_sorted(s.drop_last(), x);
        assert(s =~= s.drop_last().push(s.last()));
        assert(r =~= t.push(s.last()));
        assert forall|i: int| 0 <= i < t.len() implies t[i] <= s.last() by {
            assert(t.contains(t[i]));
            if t[i] != x {
                let k = s.drop_last().index_of(t[i]);
                assert(s[k] == t[i]);
            }
        }
        assert forall|y: int| #[trigger] r.contains(y) <==> s.contains(y) || y == x by {
            if r.contains(y) {
                let k = r.index_of(y);
                if k < t.len() {
                    assert(t.contains(y));
                    if y != x {
                        let m = s.drop_last().index_of(y);
                        assert(s[m] == y);
                    }
                } else {
                    assert(s[s.len() - 1] == y);
                }
            }
            if s.contains(y) {
                let k = s.index_of(y);
                if k < s.len() - 1 {
                    assert(s.drop_last()[k] == y);
                    assert(t.contains(y));
                    let m = t.index_of(y);
                    assert(r[m] == y);
                } else {
                    assert(r[t.len() as int] == y);
                }
            }
            if y == x {
                assert(t.contains(y));
                let m = t.index_of(y);
                assert(r[m] == y);
            }
        }
        assert(r.to_multiset() =~= s.to_multiset().insert(x));
    }
}

/// [`sorted`] is in ascending order and holds what the sequence held.
pub proof fn lemma_sorted(s: Seq<int>)
    ensures
        ascending(sorted(s)),
        sorted(s).len() == s.len(),
        sorted(s).to_multiset() == s.to_multiset(),
        forall|y: int| #[trigger] sorted(s).contains(y) <==> s.contains(y),
    decreases s.len(),
{
    broadcast use vstd::seq_lib::group_to_multiset_ensures;

    if s.len() > 0 {
        let front = s.drop_last();
        lemma_sorted(front);
        lemma_insert_sorted(sorted(front), s.last());
        assert(s =~= front.push(s.last()));
        assert forall|y: int| #[trigger] sorted(s).contains(y) <==> s.contains(y) by {
            if s.contains(y) {
                let k = s.index_of(y);
                if k < front.len() {
                    assert(front[k] == y);
                }
            }
            if front.contains(y) {
                let k = front.index_of(y);
                assert(s[k] == y);
            }
            if y == s.last() {
                assert(s[s.len() - 1] == y);
            }
            assert(sorted(front).contains(y) <==> front.contains(y));
        }
        assert(sorted(s).to_multiset() =~= s.to_multiset());
    }
}

/// The integers of a sequence of `usize`.
pub open spec fn ints_of(v: Seq<usize>) -> Seq<int> {
    v.map_values(|x: usize| x as int)
}

/// The integers of a sequence of `i32`.
pub open spec fn ids_of(v: Seq<i32>) -> Seq<int> {
    v.map_values(|x: i32| x as int)
}

/// Puts `x` at its place in an ascending vector.
pub fn insert_count(v: &mut Vec<usize>, x: usize)
    ensures
        ints_of(final(v)@) == insert_sorted(ints_of(old(v)@), x as int),
{
    let mut p: usize = v.len();
    while p > 0 && v[p - 1] > x
        invariant
            p <= v@.len(),
            v@ == old(v)@,
            forall|k: int| p <= k < v@.len() ==> v@[k] > x,
        decreases p,
    {
        p -= 1;
    }
    proof {
        lemma_insert_position(ints_of(v@), x as int, p as int);
    }
    v.insert(p, x);
    assert(ints_of(v@) =~= ints_of(old(v)@).insert(p as int, x as int));
}

/// Puts `x` at its place in an ascending vector.
pub fn insert_id(v: &mut Vec<i32>, x: i32)
    ensures
        ids_of(final(v)@) == insert_sorted(ids_of(old(v)@), x as int),
{
    let mut p: usize = v.len();
    while p > 0 && v[p - 1] > x
        invariant
            p <= v@.len(),
            v@ == old(v)@,
            forall|k: int| p <= k < v@.len() ==> v@[k] > x,
        decreases p,
    {
        p -= 1;
    }
    proof {
        lemma_insert_position(ids_of(v@), x as int, p as int);
    }
    v.insert(p, x);
    assert(ids_of(v@) =~= ids_of(old(v)@).insert(p as int, x as int));
}

/// The elements of `s` in decimal with a comma and a space between them.
pub open spec fn items_text(s: Seq<int>) -> Seq<char>
    decreases s.len(),
{
    if s.len() == 0 {
        Seq::empty()
    } else if s.len() == 1 {
        decimal(s[0] as nat)
    } else {
        items_text(s.drop_last()) + ", "@ + decimal(s.last() as nat)
    }
}

/// `s` as a bracketed list of decimal numbers.
pub open spec fn list_text(s: Seq<int>) -> Seq<char> {
    "["@ + items_text(s) + "]"@
}

/// Renders a vector of counts as a bracketed list.
pub fn counts_text(v: &[usize]) -> (r: String)
    ensures
        r@ == list_text(ints_of(v@)),
{
    let mut items: String = String::new();
    let mut i: usize = 0;
    while i < v.len()
        invariant
            i <= v@.len(),
            items@ == items_text(ints_of(v@).take(i as int)),
        decreases v@.len() - i,
    {
        if i > 0 {
            items.append(", ");
        }
        push_decimal(&mut items, v[i] as u64);
        i += 1;
        proof {
            let s = ints_of(v@).take(i as int);
            assert(s.drop_last() =~= ints_of(v@).take(i - 1));
            assert(items@ =~= items_text(s));
        }
    }
    assert(ints_of(v@).take(i as int) =~= ints_of(v@));
    String::from_str("[").concat(items.as_str()).concat("]")
}

/// Sorting keeps what a list holds, as often as it holds it, and puts it in ascending order; a
/// list of numbers is shown whole, with a comma between two of them.
pub proof fn law_sorting_only_moves(s: Seq<int>, x: int, i: int, v: Seq<usize>, d: Seq<i32>)
    ensures
        sorted(s).to_multiset() == s.to_multiset(),
        sorted(s).len() == s.len(),
        0 <= i < s.len() - 1 ==> sorted(s)[i] <= sorted(s)[i + 1],
        ints_of(v).len() == v.len(),
        0 <= i < v.len() ==> ints_of(v)[i] == v[i],
        ids_of(d).len() == d.len(),
        0 <= i < d.len() ==> ids_of(d)[i] == d[i],
        items_text(seq![x]) == decimal(x as nat),
        s.len() > 0 ==> items_text(s.push(x)) == items_text(s) + ", "@ + decimal(x as nat),
        list_text(s) == "["@ + items_text(s) + "]"@,
        items_text(Seq::empty()).len() == 0,
{
    lemma_sorted(s);
    assert(s.push(x).drop_last() =~= s);
}

} // verus!
