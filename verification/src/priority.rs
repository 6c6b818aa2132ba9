//! The order in which symbols are refined: most out-of-place occurrences
//! first, and among equals the smaller symbol first.

use vstd::prelude::*;
use core::cmp::Ordering;
use itertools::Itertools;

verus! {

/// Whether symbol `a` is refined before symbol `b` under the tallies.
pub open spec fn precedes(tallies: Seq<usize>, a: int, b: int) -> bool {
    tallies[a] > tallies[b] || (tallies[a] == tallies[b] && a < b)
}

/// Whether the symbol `s` stands somewhere in `order`.
pub open spec fn lists(order: Seq<usize>, s: int) -> bool {
    exists|i: int| 0 <= i < order.len() && #[trigger] order[i] == s
}

/// Whether some entry of `from` is the place `k`.
pub open spec fn names_place(from: Seq<int>, k: int) -> bool {
    exists|i: int| 0 <= i < from.len() && #[trigger] from[i] == k
}

/// `order` lists every symbol of the table, each before all that it
/// precedes.
pub open spec fn is_priority_order(tallies: Seq<usize>, order: Seq<usize>) -> bool {
    &&& order.len() == tallies.len()
    &&& forall|i: int| 0 <= i < order.len() ==> (#[trigger] order[i]) < tallies.len()
    &&& forall|s: int| 0 <= s < tallies.len() ==> #[trigger] lists(order, s)
    &&& forall|i: int, j: int|
        0 <= i < j < order.len() ==> precedes(tallies, #[trigger] order[i] as int, #[trigger] order[j] as int)
}

/// The refinement order for a tally table.
pub open spec fn priority_order(tallies: Seq<usize>) -> Seq<usize> {
    choose|order: Seq<usize>| is_priority_order(tallies, order)
}

/// `sorted` is `items` rearranged so that second components never increase,
/// where `from[i]` is the place in `items` of the pair at place `i` of
/// `sorted`, and pairs with equal second components keep the order they had
/// in `items`.
pub open spec fn is_stable_descending_sort(
    items: Seq<(usize, usize)>,
    sorted: Seq<(usize, usize)>,
    from: Seq<int>,
) -> bool {
    &&& sorted.len() == items.len()
    &&& from.len() == items.len()
    &&& forall|i: int|
        0 <= i < sorted.len() ==> 0 <= #[trigger] from[i] < items.len() && sorted[i] == items[from[i]]
    &&& forall|k: int| 0 <= k < items.len() ==> #[trigger] names_place(from, k)
    &&& forall|i: int, j: int|
        0 <= i < j < sorted.len() ==> sorted[i].1 > sorted[j].1 || (sorted[i].1 == sorted[j].1
            && #[trigger] from[i] < #[trigger] from[j])
}

/// Orders two (symbol, tally) pairs so that the larger tally comes first.
pub fn by_tally_descending(a: &(usize, usize), b: &(usize, usize)) -> (o: Ordering)
    ensures
        o == Ordering::Less <==> a.1 > b.1,
        o == Ordering::Equal <==> a.1 == b.1,
        o == Ordering::Greater <==> a.1 < b.1,
{
    if b.1 < a.1 {
        Ordering::Less
    } else if b.1 == a.1 {
        Ordering::Equal
    } else {
        Ordering::Greater
    }
}

/// Calls `itertools::Itertools::sorted_by` on the pairs, with
/// [`by_tally_descending`] as the comparison. The method sorts with
/// `slice::sort_by`, which is stable: the result holds the same pairs, the
/// larger tally first, and pairs of equal tally in the order they came in.
#[verifier::external_body]
fn sorted_by_tally_descending(items: &Vec<(usize, usize)>) -> (sorted: Vec<(usize, usize)>)
    ensures
        exists|from: Seq<int>| is_stable_descending_sort(items@, sorted@, from),
{
    items.iter().copied().sorted_by(|a, b| by_tally_descending(a, b)).collect()
}

/// Two orders that both meet [`is_priority_order`] agree up to place `n`.
proof fn lemma_priority_order_prefix(tallies: Seq<usize>, a: Seq<usize>, b: Seq<usize>, n: int)
    requires
        is_priority_order(tallies, a),
        is_priority_order(tallies, b),
        0 <= n <= tallies.len(),
    ensures
        forall|i: int| 0 <= i < n ==> a[i] == b[i],
    decreases n,
{
    if n > 0 {
        lemma_priority_order_prefix(tallies, a, b, n - 1);
        let i = n - 1;
        let x = a[i];
        let y = b[i];
        if x != y {
            assert(lists(b, x as int) && lists(a, y as int));
            let j = choose|j: int| 0 <= j < b.len() && #[trigger] b[j] == x;
            let k = choose|k: int| 0 <= k < a.len() && #[trigger] a[k] == y;
            if j < i {
                assert(a[j] == b[j]);
                assert(precedes(tallies, a[j] as int, a[i] as int));
            }
            if k < i {
                assert(a[k] == b[k]);
                assert(precedes(tallies, b[k] as int, b[i] as int));
            }
            assert(precedes(tallies, b[i] as int, b[j] as int));
            assert(precedes(tallies, a[i] as int, a[k] as int));
        }
    }
}

/// A tally table has at most one refinement order.
pub proof fn lemma_priority_order_unique(tallies: Seq<usize>, a: Seq<usize>, b: Seq<usize>)
    requires
        is_priority_order(tallies, a),
        is_priority_order(tallies, b),
    ensures
        a == b,
{
    lemma_priority_order_prefix(tallies, a, b, tallies.len() as int);
    assert(a =~= b);
}

/// Sorts the symbols of a tally table into refinement order.
pub fn symbols_by_priority(tallies: &Vec<usize>) -> (order: Vec<usize>)
    ensures
        is_priority_order(tallies@, order@),
        order@ == priority_order(tallies@),
{
    let mut pairs: Vec<(usize, usize)> = Vec::new();
    let mut s: usize = 0;
    while s < tallies.len()
        invariant
            s <= tallies@.len(),
            pairs@.len() == s,
            forall|t: int| 0 <= t < s ==> #[trigger] pairs@[t] == (t as usize, tallies@[t]),
        decreases tallies@.len() - s,
    {
        pairs.push((s, tallies[s]));
        s += 1;
    }
    let sorted = sorted_by_tally_descending(&pairs);
    let ghost from = choose|from: Seq<int>| is_stable_descending_sort(pairs@, sorted@, from);
    let mut order: Vec<usize> = Vec::new();
    let mut i: usize = 0;
    while i < sorted.len()
        invariant
            i <= sorted@.len(),
            order@.len() == i,
            forall|k: int| 0 <= k < i ==> #[trigger] order@[k] == sorted@[k].0,
        decreases sorted@.len() - i,
    {
        order.push(sorted[i].0);
        i += 1;
    }
    proof {
        assert forall|k: int| 0 <= k < order@.len() implies (#[trigger] order@[k]) == from[k]
            && sorted@[k].1 == tallies@[from[k]] by {
            assert(sorted@[k] == pairs@[from[k]]);
        }
        assert forall|t: int| 0 <= t < tallies@.len() implies #[trigger] lists(order@, t) by {
            assert(names_place(from, t));
            let k = choose|k: int| 0 <= k < from.len() && #[trigger] from[k] == t;
            assert(order@[k] == t);
        }
        assert forall|k: int, l: int| 0 <= k < l < order@.len() implies precedes(
            tallies@,
            #[trigger] order@[k] as int,
            #[trigger] order@[l] as int,
        ) by {
            assert(from[k] == order@[k] && from[l] == order@[l]);
        }
        assert(is_priority_order(tallies@, order@));
        lemma_priority_order_unique(tallies@, order@, priority_order(tallies@));
    }
    order
}

} // verus!
