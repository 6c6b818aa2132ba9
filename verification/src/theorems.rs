//! What holds of every encoding: each position is resolved, the number of
//! bits is the number of positions plus the number of probes, and the
//! output is a function of the input.

use vstd::prelude::*;
use crate::priority::{is_priority_order, lemma_priority_order_unique, lists, priority_order};
use crate::ranks::{in_place, lemma_occurring_symbol_counted, range_end, range_start, symbol_count};
use crate::refine::{
    after_placement, lemma_home_range_bounds, out_of_place_tallies, placed, placement_bits, probe,
    refine, refine_symbol, scan, Progress,
};
use crate::serialize::{bit_stream_with, encoded, encoded_with};

verus! {

/// Number of positions from `lo` up to, not including, `hi` that are not in
/// `resolved`.
pub open spec fn unresolved_in(resolved: Set<usize>, lo: int, hi: int) -> nat
    decreases hi - lo,
{
    if hi <= lo {
        0
    } else {
        unresolved_in(resolved, lo, hi - 1) + if resolved.contains((hi - 1) as usize) {
            0nat
        } else {
            1nat
        }
    }
}

/// Number of probes that refining `symbol` makes from progress `p`: the
/// unresolved positions before and after its home range, none for a symbol
/// that does not occur.
pub open spec fn probes_for(input: Seq<u8>, symbol: u8, p: Progress) -> nat {
    if symbol_count(input, symbol as int) == 0 {
        0
    } else {
        unresolved_in(p.resolved, 0, range_start(input, symbol as int) as int) + unresolved_in(
            p.resolved,
            range_end(input, symbol as int) as int,
            input.len() as int,
        )
    }
}

/// Number of probes made for the first `k` symbols of `order`, each counted
/// against the progress at the moment its refinement starts.
pub open spec fn probes_total(input: Seq<u8>, order: Seq<usize>, k: int) -> nat
    decreases k,
{
    if k <= 0 {
        0
    } else {
        probes_total(input, order, k - 1) + probes_for(
            input,
            order[k - 1] as u8,
            refine(input, order, k - 1, after_placement(input)),
        )
    }
}

proof fn lemma_unresolved_agree(a: Set<usize>, b: Set<usize>, lo: int, hi: int)
    requires
        forall|i: usize| lo <= i < hi ==> a.contains(i) == b.contains(i),
        0 <= lo,
        hi <= usize::MAX,
    ensures
        unresolved_in(a, lo, hi) == unresolved_in(b, lo, hi),
    decreases hi - lo,
{
    if lo < hi {
        lemma_unresolved_agree(a, b, lo, hi - 1);
        let last = (hi - 1) as usize;
        assert(a.contains(last) == b.contains(last));
    }
}

/// A scan keeps what was resolved, resolves exactly the unresolved positions
/// of its region that hold the symbol, and emits one bit per position of the
/// region that was unresolved when it began.
pub proof fn lemma_scan(input: Seq<u8>, symbol: u8, lo: int, hi: int, p: Progress)
    requires
        0 <= lo <= hi <= input.len() <= usize::MAX,
    ensures
        forall|i: usize| p.resolved.contains(i) ==> scan(input, symbol, lo, hi, p).resolved.contains(i),
        forall|i: usize| #[trigger]
            scan(input, symbol, lo, hi, p).resolved.contains(i) ==> p.resolved.contains(i) || (lo
                <= i < hi && input[i as int] == symbol),
        forall|i: usize|
            lo <= i < hi && input[i as int] == symbol ==> #[trigger] scan(
                input,
                symbol,
                lo,
                hi,
                p,
            ).resolved.contains(i),
        scan(input, symbol, lo, hi, p).bits.len() == p.bits.len() + unresolved_in(
            p.resolved,
            lo,
            hi,
        ),
    decreases hi - lo,
{
    if lo < hi {
        lemma_scan(input, symbol, lo, hi - 1, p);
        let before = scan(input, symbol, lo, hi - 1, p);
        let last = (hi - 1) as usize;
        assert(before.resolved.contains(last) == p.resolved.contains(last));
    }
}

/// Refining a symbol keeps what was resolved, resolves only positions that
/// hold the symbol, leaves none of them unresolved outside its home range,
/// and emits as many bits as it makes probes.
pub proof fn lemma_refine_symbol(input: Seq<u8>, symbol: u8, p: Progress)
    requires
        input.len() <= usize::MAX,
    ensures
        forall|i: usize|
            p.resolved.contains(i) ==> refine_symbol(input, symbol, p).resolved.contains(i),
        forall|i: usize| #[trigger]
            refine_symbol(input, symbol, p).resolved.contains(i) ==> p.resolved.contains(i) || (i
                < input.len() && input[i as int] == symbol),
        forall|i: usize|
            i < input.len() && input[i as int] == symbol && !in_place(input, i as int)
                ==> #[trigger] refine_symbol(input, symbol, p).resolved.contains(i),
        refine_symbol(input, symbol, p).bits.len() == p.bits.len() + probes_for(input, symbol, p),
{
    let start = range_start(input, symbol as int) as int;
    let end = range_end(input, symbol as int) as int;
    let len = input.len() as int;
    lemma_home_range_bounds(input, symbol as int);
    if symbol_count(input, symbol as int) == 0 {
        assert forall|i: usize|
            i < input.len() && input[i as int] == symbol && !in_place(
                input,
                i as int,
            ) implies #[trigger] refine_symbol(input, symbol, p).resolved.contains(i) by {
            lemma_occurring_symbol_counted(input, i as int);
        }
    } else {
        let mid = scan(input, symbol, 0, start, p);
        lemma_scan(input, symbol, 0, start, p);
        lemma_scan(input, symbol, end, len, mid);
        lemma_unresolved_agree(mid.resolved, p.resolved, end, len);
        assert forall|i: usize|
            i < input.len() && input[i as int] == symbol && !in_place(
                input,
                i as int,
            ) implies #[trigger] refine_symbol(input, symbol, p).resolved.contains(i) by {
            if i < start {
                assert(mid.resolved.contains(i));
            }
        }
    }
}

/// Refinement never unresolves a position, and resolves none beyond the
/// input.
pub proof fn lemma_refine_frame(input: Seq<u8>, order: Seq<usize>, k: int, p: Progress)
    requires
        input.len() <= usize::MAX,
        0 <= k <= order.len(),
    ensures
        forall|i: usize| p.resolved.contains(i) ==> refine(input, order, k, p).resolved.contains(i),
        forall|i: usize| #[trigger]
            refine(input, order, k, p).resolved.contains(i) ==> p.resolved.contains(i) || i
                < input.len(),
    decreases k,
{
    if k > 0 {
        lemma_refine_frame(input, order, k - 1, p);
        lemma_refine_symbol(input, order[k - 1] as u8, refine(input, order, k - 1, p));
    }
}

/// Once the symbol at place `j` of `order` has been refined, every position
/// that holds it is resolved or in place.
pub proof fn lemma_refine_resolves(
    input: Seq<u8>,
    order: Seq<usize>,
    k: int,
    p: Progress,
    j: int,
    i: usize,
)
    requires
        input.len() <= usize::MAX,
        0 <= j < k <= order.len(),
        i < input.len(),
        input[i as int] == order[j] as u8,
        !in_place(input, i as int),
    ensures
        refine(input, order, k, p).resolved.contains(i),
    decreases k,
{
    lemma_refine_symbol(input, order[k - 1] as u8, refine(input, order, k - 1, p));
    if j < k - 1 {
        lemma_refine_resolves(input, order, k - 1, p, j, i);
    }
}

/// Whatever order lists all 256 symbols, at the end of the encoding the
/// resolved positions are exactly the positions of the input.
pub proof fn lemma_every_position_resolved(input: Seq<u8>, order: Seq<usize>)
    requires
        input.len() <= usize::MAX,
        forall|s: int| 0 <= s < 256 ==> #[trigger] lists(order, s),
    ensures
        refine(input, order, order.len() as int, after_placement(input)).resolved == Set::new(
            |i: usize| i < input.len(),
        ),
{
    let start = after_placement(input);
    let end = refine(input, order, order.len() as int, start);
    lemma_refine_frame(input, order, order.len() as int, start);
    assert forall|i: usize| i < input.len() implies end.resolved.contains(i) by {
        if in_place(input, i as int) {
            assert(start.resolved.contains(i));
        } else {
            let s = input[i as int] as int;
            assert(lists(order, s));
            let j = choose|j: int| 0 <= j < order.len() && #[trigger] order[j] == s;
            lemma_refine_resolves(input, order, order.len() as int, start, j, i);
        }
    }
    assert(end.resolved =~= Set::new(|i: usize| i < input.len()));
}

/// After the first `k` symbols of `order` the stream holds one bit per
/// position of the input and one per probe made.
pub proof fn lemma_bit_budget(input: Seq<u8>, order: Seq<usize>, k: int)
    requires
        input.len() <= usize::MAX,
        0 <= k <= order.len(),
    ensures
        refine(input, order, k, after_placement(input)).bits.len() == input.len() + probes_total(
            input,
            order,
            k,
        ),
    decreases k,
{
    if k > 0 {
        lemma_bit_budget(input, order, k - 1);
        lemma_refine_symbol(
            input,
            order[k - 1] as u8,
            refine(input, order, k - 1, after_placement(input)),
        );
    }
}

/// Number of set bits among the first `n` of `bits`.
pub open spec fn ones(bits: Seq<bool>, n: int) -> nat
    decreases n,
{
    if n <= 0 {
        0
    } else {
        ones(bits, n - 1) + if bits[n - 1] {
            1nat
        } else {
            0nat
        }
    }
}

proof fn lemma_ones_agree(a: Seq<bool>, b: Seq<bool>, n: int)
    requires
        0 <= n <= a.len(),
        n <= b.len(),
        forall|j: int| 0 <= j < n ==> a[j] == b[j],
    ensures
        ones(a, n) == ones(b, n),
    decreases n,
{
    if n > 0 {
        lemma_ones_agree(a, b, n - 1);
    }
}

proof fn lemma_unresolved_insert(resolved: Set<usize>, i: usize, lo: int, hi: int)
    requires
        0 <= lo <= i < hi <= usize::MAX,
        !resolved.contains(i),
    ensures
        unresolved_in(resolved.insert(i), lo, hi) + 1 == unresolved_in(resolved, lo, hi),
    decreases hi - lo,
{
    if hi - 1 == i {
        lemma_unresolved_agree(resolved.insert(i), resolved, lo, hi - 1);
    } else {
        lemma_unresolved_insert(resolved, i, lo, hi - 1);
    }
}

proof fn lemma_unresolved_none(resolved: Set<usize>, lo: int, hi: int)
    requires
        0 <= lo,
        hi <= usize::MAX,
        forall|i: usize| lo <= i < hi ==> resolved.contains(i),
    ensures
        unresolved_in(resolved, lo, hi) == 0,
    decreases hi - lo,
{
    if lo < hi {
        lemma_unresolved_none(resolved, lo, hi - 1);
        assert(resolved.contains((hi - 1) as usize));
    }
}

/// Whether `q` continues `p`: the bits of `p` stand unchanged at the start
/// of those of `q`, and every set bit that `q` adds stands for one position
/// of the input that `q` resolves and `p` had not.
pub open spec fn continues(input: Seq<u8>, p: Progress, q: Progress) -> bool {
    &&& p.bits.len() <= q.bits.len()
    &&& forall|j: int| 0 <= j < p.bits.len() ==> #[trigger] q.bits[j] == p.bits[j]
    &&& ones(q.bits, q.bits.len() as int) + unresolved_in(q.resolved, 0, input.len() as int)
        == ones(p.bits, p.bits.len() as int) + unresolved_in(p.resolved, 0, input.len() as int)
}

proof fn lemma_continues_chain(input: Seq<u8>, p: Progress, q: Progress, r: Progress)
    requires
        continues(input, p, q),
        continues(input, q, r),
    ensures
        continues(input, p, r),
{
    assert forall|j: int| 0 <= j < p.bits.len() implies #[trigger] r.bits[j] == p.bits[j] by {
        assert(q.bits[j] == p.bits[j]);
    }
}

proof fn lemma_probe_continues(input: Seq<u8>, symbol: u8, i: int, p: Progress)
    requires
        0 <= i < input.len() <= usize::MAX,
    ensures
        continues(input, p, probe(input, symbol, i, p)),
{
    let q = probe(input, symbol, i, p);
    let n = p.bits.len() as int;
    if !p.resolved.contains(i as usize) {
        lemma_ones_agree(q.bits, p.bits, n);
        if input[i] == symbol {
            lemma_unresolved_insert(p.resolved, i as usize, 0, input.len() as int);
        }
    }
}

proof fn lemma_scan_continues(input: Seq<u8>, symbol: u8, lo: int, hi: int, p: Progress)
    requires
        0 <= lo <= hi <= input.len() <= usize::MAX,
    ensures
        continues(input, p, scan(input, symbol, lo, hi, p)),
    decreases hi - lo,
{
    if lo < hi {
        let before = scan(input, symbol, lo, hi - 1, p);
        lemma_scan_continues(input, symbol, lo, hi - 1, p);
        lemma_probe_continues(input, symbol, hi - 1, before);
        lemma_continues_chain(input, p, before, scan(input, symbol, lo, hi, p));
    }
}

proof fn lemma_refine_continues(input: Seq<u8>, order: Seq<usize>, k: int, p: Progress)
    requires
        input.len() <= usize::MAX,
        0 <= k <= order.len(),
    ensures
        continues(input, p, refine(input, order, k, p)),
    decreases k,
{
    if k > 0 {
        let before = refine(input, order, k - 1, p);
        let symbol = order[k - 1] as u8;
        lemma_refine_continues(input, order, k - 1, p);
        lemma_home_range_bounds(input, symbol as int);
        if symbol_count(input, symbol as int) != 0 {
            let start = range_start(input, symbol as int) as int;
            let end = range_end(input, symbol as int) as int;
            let mid = scan(input, symbol, 0, start, before);
            lemma_scan_continues(input, symbol, 0, start, before);
            lemma_scan_continues(input, symbol, end, input.len() as int, mid);
            lemma_continues_chain(input, before, mid, refine_symbol(input, symbol, before));
        }
        lemma_continues_chain(input, p, before, refine(input, order, k, p));
    }
}

proof fn lemma_placement_ones(input: Seq<u8>, n: int)
    requires
        0 <= n <= input.len() <= usize::MAX,
    ensures
        ones(placement_bits(input, input.len() as int), n) == unresolved_in(
            placed(input, input.len() as int),
            0,
            n,
        ),
    decreases n,
{
    if n > 0 {
        lemma_placement_ones(input, n - 1);
        let last = (n - 1) as usize;
        assert(placed(input, input.len() as int).contains(last) == in_place(input, n - 1));
    }
}

/// Each position is resolved once: the placement scan sets a bit for each
/// position that it leaves unresolved, and the refinement scans answer yes
/// once for each of these, so the stream holds two set bits per position out
/// of place.
pub proof fn lemma_each_position_resolved_once(input: Seq<u8>, order: Seq<usize>)
    requires
        input.len() <= usize::MAX,
        forall|s: int| 0 <= s < 256 ==> #[trigger] lists(order, s),
    ensures
        ({
            let bits = bit_stream_with(input, order);
            let left = unresolved_in(placed(input, input.len() as int), 0, input.len() as int);
            &&& input.len() <= bits.len()
            &&& ones(bits, input.len() as int) == left
            &&& ones(bits, bits.len() as int) == 2 * left
        }),
{
    let len = input.len() as int;
    let start = after_placement(input);
    let end = refine(input, order, order.len() as int, start);
    lemma_refine_continues(input, order, order.len() as int, start);
    lemma_every_position_resolved(input, order);
    lemma_unresolved_none(end.resolved, 0, len);
    lemma_placement_ones(input, len);
    lemma_ones_agree(end.bits, start.bits, len);
}

/// The tallies of an input admit one refinement order only, so every order
/// that meets the rule gives the one encoding of the input.
pub proof fn lemma_encoding_determined(input: Seq<u8>, order: Seq<usize>)
    requires
        is_priority_order(out_of_place_tallies(input), order),
    ensures
        order == priority_order(out_of_place_tallies(input)),
        encoded_with(input, order) == encoded(input),
{
    let tallies = out_of_place_tallies(input);
    lemma_priority_order_unique(tallies, order, priority_order(tallies));
}

} // verus!
