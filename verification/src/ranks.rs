//! Occurrence counts and home ranges of the 256 symbols of an input.

use vstd::prelude::*;

verus! {

/// Number of positions below `n` at which `input` holds the symbol `s`.
pub open spec fn count_prefix(input: Seq<u8>, s: int, n: int) -> nat
    decreases n,
{
    if n <= 0 {
        0
    } else {
        count_prefix(input, s, n - 1) + if input[n - 1] as int == s {
            1nat
        } else {
            0nat
        }
    }
}

/// Number of occurrences of the symbol `s` in `input`.
pub open spec fn symbol_count(input: Seq<u8>, s: int) -> nat {
    count_prefix(input, s, input.len() as int)
}

/// Sum, over the symbols up to and including `s`, of their occurrences below
/// position `n`.
pub open spec fn range_prefix(input: Seq<u8>, s: int, n: int) -> nat
    decreases s + 1,
{
    if s < 0 {
        0
    } else {
        range_prefix(input, s - 1, n) + count_prefix(input, s, n)
    }
}

/// Exclusive upper bound of the home range of `s`: the number of positions
/// that symbols up to and including `s` take in the rank-sorted arrangement.
pub open spec fn range_end(input: Seq<u8>, s: int) -> nat {
    range_prefix(input, s, input.len() as int)
}

/// Inclusive lower bound of the home range of `s`.
pub open spec fn range_start(input: Seq<u8>, s: int) -> nat {
    range_end(input, s - 1)
}

/// Whether position `i` lies in the home range of the symbol it holds.
pub open spec fn in_place(input: Seq<u8>, i: int) -> bool {
    range_start(input, input[i] as int) <= i < range_end(input, input[i] as int)
}

pub proof fn lemma_count_prefix_bound(input: Seq<u8>, s: int, n: int)
    requires
        0 <= n,
    ensures
        count_prefix(input, s, n) <= n,
    decreases n,
{
    if n > 0 {
        lemma_count_prefix_bound(input, s, n - 1);
    }
}

pub proof fn lemma_range_prefix_step(input: Seq<u8>, s: int, n: int)
    requires
        0 < n,
        -1 <= s,
    ensures
        range_prefix(input, s, n) == range_prefix(input, s, n - 1) + if input[n - 1] as int <= s {
            1nat
        } else {
            0nat
        },
    decreases s + 1,
{
    if s >= 0 {
        lemma_range_prefix_step(input, s - 1, n);
    }
}

pub proof fn lemma_range_prefix_total(input: Seq<u8>, n: int)
    requires
        0 <= n,
    ensures
        range_prefix(input, 255, n) == n,
    decreases n,
{
    if n > 0 {
        lemma_range_prefix_total(input, n - 1);
        lemma_range_prefix_step(input, 255, n);
    } else {
        lemma_range_prefix_zero(input, 255);
    }
}

proof fn lemma_range_prefix_zero(input: Seq<u8>, s: int)
    requires
        -1 <= s,
    ensures
        range_prefix(input, s, 0) == 0,
    decreases s + 1,
{
    if s >= 0 {
        lemma_range_prefix_zero(input, s - 1);
    }
}

pub proof fn lemma_range_prefix_monotone(input: Seq<u8>, s: int, t: int, n: int)
    requires
        -1 <= s <= t,
    ensures
        range_prefix(input, s, n) <= range_prefix(input, t, n),
    decreases t - s,
{
    if s < t {
        lemma_range_prefix_monotone(input, s, t - 1, n);
    }
}

/// The counts add up to the length of the input, and the range bounds never
/// decrease from one symbol to the next.
pub proof fn lemma_rank_table_invariant(input: Seq<u8>)
    ensures
        range_end(input, 255) == input.len(),
        forall|s: int, t: int|
            0 <= s <= t < 256 ==> #[trigger] range_end(input, s) <= #[trigger] range_end(input, t),
        forall|s: int|
            0 <= s < 256 ==> #[trigger] range_end(input, s) - range_start(input, s)
                == symbol_count(input, s),
        forall|s: int| 0 <= s < 256 ==> #[trigger] range_end(input, s) <= input.len(),
{
    lemma_range_prefix_total(input, input.len() as int);
    assert forall|s: int, t: int| 0 <= s <= t < 256 implies #[trigger] range_end(input, s)
        <= #[trigger] range_end(input, t) by {
        lemma_range_prefix_monotone(input, s, t, input.len() as int);
    }
    assert forall|s: int| 0 <= s < 256 implies #[trigger] range_end(input, s) <= input.len() by {
        lemma_range_prefix_monotone(input, s, 255, input.len() as int);
    }
}

/// Every symbol that occurs has a home range that is not empty.
pub proof fn lemma_occurring_symbol_counted(input: Seq<u8>, i: int)
    requires
        0 <= i < input.len(),
    ensures
        symbol_count(input, input[i] as int) >= 1,
{
    lemma_count_prefix_grows(input, input[i] as int, i + 1, input.len() as int);
}

proof fn lemma_count_prefix_grows(input: Seq<u8>, s: int, m: int, n: int)
    requires
        0 <= m <= n,
    ensures
        count_prefix(input, s, m) <= count_prefix(input, s, n),
    decreases n - m,
{
    if m < n {
        lemma_count_prefix_grows(input, s, m, n - 1);
    }
}

/// Per-symbol occurrence counts and home-range bounds of one input.
pub struct RankTable {
    pub counts: Vec<usize>,
    pub ranges: Vec<usize>,
}

impl RankTable {
    /// Both tables have one entry per symbol, and the entries are the counts
    /// and range bounds of `input`.
    pub open spec fn describes(&self, input: Seq<u8>) -> bool {
        &&& self.counts@.len() == 256
        &&& self.ranges@.len() == 256
        &&& forall|s: int| 0 <= s < 256 ==> (#[trigger] self.counts@[s]) == symbol_count(input, s)
        &&& forall|s: int| 0 <= s < 256 ==> (#[trigger] self.ranges@[s]) == range_end(input, s)
    }

    /// Counts the symbols of `input` and sums the counts into range bounds.
    pub fn build(input: &[u8]) -> (table: Self)
        ensures
            table.describes(input@),
    {
        let mut counts: Vec<usize> = Vec::new();
        let mut ranges: Vec<usize> = Vec::new();
        let mut s: usize = 0;
        while s < 256
            invariant
                s <= 256,
                counts@.len() == s,
                ranges@.len() == s,
                forall|t: int| 0 <= t < s ==> #[trigger] counts@[t] == 0,
                forall|t: int| 0 <= t < s ==> #[trigger] ranges@[t] == 0,
            decreases 256 - s,
        {
            counts.push(0);
            ranges.push(0);
            s += 1;
        }
        let len: usize = input.len();
        let mut i: usize = 0;
        while i < len
            invariant
                i <= len,
                len == input@.len(),
                counts@.len() == 256,
                forall|t: int| 0 <= t < 256 ==> #[trigger] counts@[t] == count_prefix(input@, t, i as int),
            decreases len - i,
        {
            let n: usize = input[i] as usize;
            proof {
                lemma_count_prefix_bound(input@, n as int, i as int);
            }
            let seen: usize = counts[n];
            counts[n] = seen + 1;
            i += 1;
        }
        let mut s: usize = 0;
        while s < 256
            invariant
                s <= 256,
                len == input@.len(),
                counts@.len() == 256,
                ranges@.len() == 256,
                forall|t: int| 0 <= t < 256 ==> #[trigger] counts@[t] == symbol_count(input@, t),
                forall|t: int| 0 <= t < s ==> #[trigger] ranges@[t] == range_end(input@, t),
                forall|t: int| s <= t < 256 ==> #[trigger] ranges@[t] == 0,
            decreases 256 - s,
        {
            proof {
                lemma_range_prefix_total(input@, input@.len() as int);
                lemma_range_prefix_monotone(input@, s as int, 255, input@.len() as int);
                assert(range_end(input@, s as int) == range_end(input@, s - 1) + symbol_count(
                    input@,
                    s as int,
                ));
                assert(range_end(input@, -1) == 0);
            }
            let mut bound: usize = ranges[s];
            if s > 0 {
                bound += ranges[s - 1];
            }
            bound += counts[s];
            ranges[s] = bound;
            s += 1;
        }
        RankTable { counts, ranges }
    }

    /// Start of the home range of `symbol`.
    pub fn home_start(&self, symbol: u8) -> (start: usize)
        requires
            self.ranges@.len() == 256,
        ensures
            start == (if symbol > 0 { self.ranges@[symbol - 1] } else { 0 }),
            forall|input: Seq<u8>| #[trigger]
                self.describes(input) ==> start == range_start(input, symbol as int),
    {
        if symbol > 0 {
            self.ranges[symbol as usize - 1]
        } else {
            0
        }
    }

    /// End of the home range of `symbol`.
    pub fn home_end(&self, symbol: u8) -> (end: usize)
        requires
            self.ranges@.len() == 256,
        ensures
            end == self.ranges@[symbol as int],
            forall|input: Seq<u8>| #[trigger]
                self.describes(input) ==> end == range_end(input, symbol as int),
    {
        self.ranges[symbol as usize]
    }
}

} // verus!
