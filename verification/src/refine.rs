//! The two passes that write the bit stream: the placement scan over all
//! positions, and the refinement scans, one symbol at a time.

use vstd::prelude::*;
use std::collections::HashSet;
use crate::ranks::{
    in_place, lemma_range_prefix_monotone, lemma_range_prefix_total, range_end,
    range_start, symbol_count, RankTable,
};
use crate::utils::bit_writer::BitWriter;

verus! {

broadcast use vstd::std_specs::hash::group_hash_axioms;

/// What the passes have settled so far: the positions whose symbol is known,
/// and the bits emitted.
pub ghost struct Progress {
    pub resolved: Set<usize>,
    pub bits: Seq<bool>,
}

/// The placement bits of the first `n` positions: set where the position is
/// out of place.
pub open spec fn placement_bits(input: Seq<u8>, n: int) -> Seq<bool> {
    Seq::new(n as nat, |i: int| !in_place(input, i))
}

/// The positions below `n` that are in place.
pub open spec fn placed(input: Seq<u8>, n: int) -> Set<usize> {
    Set::new(|i: usize| i < n && in_place(input, i as int))
}

/// Number of positions below `n` that hold `s` out of place.
pub open spec fn tally_prefix(input: Seq<u8>, s: int, n: int) -> nat
    decreases n,
{
    if n <= 0 {
        0
    } else {
        tally_prefix(input, s, n - 1) + if input[n - 1] as int == s && !in_place(input, n - 1) {
            1nat
        } else {
            0nat
        }
    }
}

/// The out-of-place tally of each of the 256 symbols.
pub open spec fn out_of_place_tallies(input: Seq<u8>) -> Seq<usize> {
    Seq::new(256, |s: int| tally_prefix(input, s, input.len() as int) as usize)
}

/// Progress at the end of the placement scan.
pub open spec fn after_placement(input: Seq<u8>) -> Progress {
    Progress {
        resolved: placed(input, input.len() as int),
        bits: placement_bits(input, input.len() as int),
    }
}

/// Asks of position `i` whether it holds `symbol`. A resolved position is
/// passed over; any other yields one bit, and is resolved where the answer
/// is yes.
pub open spec fn probe(input: Seq<u8>, symbol: u8, i: int, p: Progress) -> Progress {
    if p.resolved.contains(i as usize) {
        p
    } else if input[i] == symbol {
        Progress { resolved: p.resolved.insert(i as usize), bits: p.bits.push(true) }
    } else {
        Progress { resolved: p.resolved, bits: p.bits.push(false) }
    }
}

/// Probes the positions from `lo` up to, not including, `hi`, in ascending
/// order.
pub open spec fn scan(input: Seq<u8>, symbol: u8, lo: int, hi: int, p: Progress) -> Progress
    decreases hi - lo,
{
    if hi <= lo {
        p
    } else {
        probe(input, symbol, hi - 1, scan(input, symbol, lo, hi - 1, p))
    }
}

/// Refines one symbol: nothing for a symbol that does not occur, else a scan
/// of the positions before its home range and one of those after it.
pub open spec fn refine_symbol(input: Seq<u8>, symbol: u8, p: Progress) -> Progress {
    if symbol_count(input, symbol as int) == 0 {
        p
    } else {
        scan(
            input,
            symbol,
            range_end(input, symbol as int) as int,
            input.len() as int,
            scan(input, symbol, 0, range_start(input, symbol as int) as int, p),
        )
    }
}

/// The number of further bits for which storage is grown before `symbol` is
/// refined: the positions of the input, less those resolved and less the
/// occurrences of the symbol, and 0 where that would be negative.
pub open spec fn growth_estimate(input: Seq<u8>, symbol: u8, p: Progress) -> nat {
    let estimate = input.len() - p.resolved.len() - symbol_count(input, symbol as int);
    if estimate > 0 {
        estimate as nat
    } else {
        0
    }
}

/// Refines the first `k` symbols of `order`, in that order.
pub open spec fn refine(input: Seq<u8>, order: Seq<usize>, k: int, p: Progress) -> Progress
    decreases k,
{
    if k <= 0 {
        p
    } else {
        refine_symbol(input, order[k - 1] as u8, refine(input, order, k - 1, p))
    }
}

proof fn lemma_tally_prefix_bound(input: Seq<u8>, s: int, n: int)
    requires
        0 <= n,
    ensures
        tally_prefix(input, s, n) <= n,
    decreases n,
{
    if n > 0 {
        lemma_tally_prefix_bound(input, s, n - 1);
    }
}

/// The home range of a symbol lies within the input.
pub proof fn lemma_home_range_bounds(input: Seq<u8>, s: int)
    requires
        0 <= s < 256,
    ensures
        range_start(input, s) <= range_end(input, s) <= input.len(),
{
    lemma_range_prefix_total(input, input.len() as int);
    lemma_range_prefix_monotone(input, s, 255, input.len() as int);
    lemma_range_prefix_monotone(input, s - 1, s, input.len() as int);
}

/// The encoder at work: the bit stream and the set of resolved positions.
pub struct Encoder {
    pub writer: BitWriter,
    pub resolved: HashSet<usize>,
}

impl Encoder {
    /// The progress that this encoder stands for.
    pub open spec fn progress(&self) -> Progress {
        Progress { resolved: self.resolved@, bits: self.writer@ }
    }

    /// The bit stream is well formed.
    pub open spec fn wf(&self) -> bool {
        self.writer.wf()
    }

    /// The placement scan: one bit per position of `input`, set where the
    /// position is outside the home range of its symbol. Positions in place
    /// are resolved; the others are tallied by symbol.
    pub fn initial_placement(input: &[u8], table: &RankTable) -> (r: (Encoder, Vec<usize>))
        requires
            table.describes(input@),
        ensures
            r.0.wf(),
            r.0.progress() == after_placement(input@),
            r.1@ == out_of_place_tallies(input@),
    {
        let len: usize = input.len();
        let mut resolved: HashSet<usize> = HashSet::with_capacity((len / 8) + 1);
        let mut writer = BitWriter::new();
        writer.reserve(len);
        let mut tallies: Vec<usize> = Vec::new();
        let mut s: usize = 0;
        while s < 256
            invariant
                s <= 256,
                tallies@.len() == s,
                forall|t: int| 0 <= t < s ==> (#[trigger] tallies@[t]) == 0,
            decreases 256 - s,
        {
            tallies.push(0);
            s += 1;
        }
        let mut i: usize = 0;
        while i < len
            invariant
                i <= len,
                len == input@.len(),
                table.describes(input@),
                writer.wf(),
                writer@ == placement_bits(input@, i as int),
                resolved@ == placed(input@, i as int),
                tallies@.len() == 256,
                forall|t: int|
                    0 <= t < 256 ==> (#[trigger] tallies@[t]) == tally_prefix(input@, t, i as int),
            decreases len - i,
        {
            let n: u8 = input[i];
            let current_range_end: usize = table.home_end(n);
            let previous_range_end: usize = table.home_start(n);
            let symbol_is_in_wrong_range: bool = i >= current_range_end || i < previous_range_end;
            assert(symbol_is_in_wrong_range == !in_place(input@, i as int));
            if symbol_is_in_wrong_range {
                proof {
                    lemma_tally_prefix_bound(input@, n as int, i as int);
                }
                writer.push_bit(true);
                let seen: usize = tallies[n as usize];
                tallies[n as usize] = seen + 1;
            } else {
                writer.push_bit(false);
                resolved.insert(i);
            }
            i += 1;
            proof {
                assert(writer@ =~= placement_bits(input@, i as int));
                assert(resolved@ =~= placed(input@, i as int));
            }
        }
        assert(tallies@ =~= out_of_place_tallies(input@));
        (Encoder { writer, resolved }, tallies)
    }

    /// Probes the unresolved positions from `lo` up to `hi` for `symbol`,
    /// one bit each.
    pub fn scan_region(&mut self, input: &[u8], symbol: u8, lo: usize, hi: usize)
        requires
            old(self).wf(),
            lo <= hi <= input@.len(),
            old(self).writer@.len() + (hi - lo) <= usize::MAX,
        ensures
            final(self).wf(),
            final(self).progress() == scan(input@, symbol, lo as int, hi as int, old(self).progress()),
            final(self).writer@.len() <= old(self).writer@.len() + (hi - lo),
            final(self).writer.bytes@.len() >= old(self).writer.bytes@.len(),
    {
        let mut i: usize = lo;
        while i < hi
            invariant
                lo <= i <= hi <= input@.len(),
                self.wf(),
                self.progress() == scan(input@, symbol, lo as int, i as int, old(self).progress()),
                self.writer@.len() <= old(self).writer@.len() + (i - lo),
                self.writer.bytes@.len() >= old(self).writer.bytes@.len(),
                old(self).writer@.len() + (hi - lo) <= usize::MAX,
            decreases hi - i,
        {
            if !self.resolved.contains(&i) {
                let holds_symbol: bool = input[i] == symbol;
                self.writer.push_bit(holds_symbol);
                if holds_symbol {
                    self.resolved.insert(i);
                }
            }
            i += 1;
        }
    }

    /// Refines `symbol`: where it occurs, grows the storage by the estimate
    /// of the bits to come and scans the two regions outside its home range.
    pub fn refine_symbol(&mut self, input: &[u8], table: &RankTable, symbol: u8)
        requires
            old(self).wf(),
            table.describes(input@),
            old(self).writer@.len() + input@.len() <= usize::MAX,
        ensures
            final(self).wf(),
            final(self).progress() == refine_symbol(input@, symbol, old(self).progress()),
            final(self).writer@.len() <= old(self).writer@.len() + input@.len(),
            symbol_count(input@, symbol as int) > 0 ==> final(self).writer.bytes@.len() >= old(
                self,
            ).writer.bytes@.len() + growth_estimate(input@, symbol, old(self).progress()) / 8 + 1,
    {
        let n_symbols: usize = table.counts[symbol as usize];
        if n_symbols == 0 {
            return ;
        }
        let range_len_bits: usize = input.len().saturating_sub(self.resolved.len()).saturating_sub(
            n_symbols,
        );
        self.writer.reserve(range_len_bits);
        let start_idx: usize = table.home_start(symbol);
        let end_idx: usize = table.home_end(symbol);
        proof {
            lemma_home_range_bounds(input@, symbol as int);
        }
        self.scan_region(input, symbol, 0, start_idx);
        self.scan_region(input, symbol, end_idx, input.len());
    }

    /// Refines the symbols of `order`, first to last.
    pub fn refine(&mut self, input: &[u8], table: &RankTable, order: &Vec<usize>)
        requires
            old(self).wf(),
            table.describes(input@),
            forall|k: int| 0 <= k < order@.len() ==> (#[trigger] order@[k]) < 256,
            old(self).writer@.len() + order@.len() * input@.len() <= usize::MAX,
        ensures
            final(self).wf(),
            final(self).progress() == refine(
                input@,
                order@,
                order@.len() as int,
                old(self).progress(),
            ),
    {
        let mut k: usize = 0;
        while k < order.len()
            invariant
                k <= order@.len(),
                self.wf(),
                table.describes(input@),
                forall|k: int| 0 <= k < order@.len() ==> (#[trigger] order@[k]) < 256,
                self.progress() == refine(input@, order@, k as int, old(self).progress()),
                self.writer@.len() <= old(self).writer@.len() + k * input@.len(),
                old(self).writer@.len() + order@.len() * input@.len() <= usize::MAX,
            decreases order@.len() - k,
        {
            let n: usize = order[k];
            proof {
                let len = input@.len() as int;
                let total = order@.len() as int;
                assert((k + 1) * len <= total * len) by (nonlinear_arith)
                    requires
                        k + 1 <= total,
                        0 <= len,
                ;
                assert((k + 1) * len == k * len + len) by (nonlinear_arith);
            }
            self.refine_symbol(input, table, n as u8);
            k += 1;
        }
    }
}

} // verus!
