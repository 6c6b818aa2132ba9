//! The encoder as a whole: rank table, placement scan, priority order,
//! refinement scans, then header and bit stream in one byte sequence.

use vstd::prelude::*;
use crate::extreme_bitmap::ExtremeBitmap;
use crate::header::{
    header_bytes, lemma_max_prefix, max_count, max_prefix, ExtremeBitmapHeader, HeaderError,
};
use crate::priority::{priority_order, symbols_by_priority};
use crate::ranks::{symbol_count, RankTable};
use crate::refine::{after_placement, out_of_place_tallies, refine, Encoder};
use crate::utils::bit_writer::packed;

verus! {

/// The occurrence count of each of the 256 symbols.
pub open spec fn count_table(input: Seq<u8>) -> Seq<usize> {
    Seq::new(256, |s: int| symbol_count(input, s) as usize)
}

/// The bit stream of `input` when symbols are refined in `order`: the
/// placement bits, then the probes of each symbol in turn.
pub open spec fn bit_stream_with(input: Seq<u8>, order: Seq<usize>) -> Seq<bool> {
    refine(input, order, order.len() as int, after_placement(input)).bits
}

/// The encoding of `input` when symbols are refined in `order`.
pub open spec fn encoded_with(input: Seq<u8>, order: Seq<usize>) -> Seq<u8> {
    header_bytes(count_table(input), order) + packed(bit_stream_with(input, order))
}

/// The encoding of `input`.
pub open spec fn encoded(input: Seq<u8>) -> Seq<u8> {
    encoded_with(input, priority_order(out_of_place_tallies(input)))
}

/// No symbol occurs more often than a 32-bit count field can say.
pub open spec fn counts_supported(input: Seq<u8>) -> bool {
    forall|s: int| 0 <= s < 256 ==> #[trigger] symbol_count(input, s) <= u32::MAX
}

/// The largest entry of the count table is within 32 bits exactly when every
/// count is.
pub proof fn lemma_counts_supported(input: Seq<u8>, counts: Seq<usize>)
    requires
        counts.len() == 256,
        forall|s: int| 0 <= s < 256 ==> (#[trigger] counts[s]) == symbol_count(input, s),
    ensures
        counts_supported(input) <==> max_count(counts) <= u32::MAX,
{
    lemma_max_prefix(counts, 256);
    if counts_supported(input) {
        let i = choose|i: int| 0 <= i < 256 && #[trigger] counts[i] == max_prefix(counts, 256);
        assert(symbol_count(input, i) <= u32::MAX);
    } else {
        let s = choose|s: int| 0 <= s < 256 && !(#[trigger] symbol_count(input, s) <= u32::MAX);
        assert(counts[s] <= max_prefix(counts, 256));
    }
}

/// Encoding of a byte sequence into header and bit stream.
pub trait ExtremeBitmapSerializer {
    /// Encodes `input`. The encoding is refused where some symbol occurs
    /// more than `u32::MAX` times. An empty input is encoded like any other:
    /// its counts are all zero and its bit stream is the one byte that a
    /// cursor at bit 0 reports. The bit cursor counts at most 257 bits per
    /// position, which has to fit in `usize`.
    fn serialize_from_slice(input: &[u8]) -> (r: Result<Vec<u8>, HeaderError>)
        requires
            input@.len() * 257 <= usize::MAX,
        ensures
            counts_supported(input@) ==> r is Ok && r->Ok_0@ == encoded(input@),
            !counts_supported(input@) ==> r == Err::<Vec<u8>, HeaderError>(
                HeaderError::UnsupportedCountRange,
            ),
    ;
}

impl ExtremeBitmapSerializer for ExtremeBitmap {
    fn serialize_from_slice(input: &[u8]) -> (r: Result<Vec<u8>, HeaderError>) {
        let table = RankTable::build(input);
        let (mut encoder, symbols_out_of_place) = Encoder::initial_placement(input, &table);
        let symbols_sorted_by_out_of_place = symbols_by_priority(&symbols_out_of_place);
        proof {
            assert(encoder.writer@.len() == input@.len());
            assert(symbols_sorted_by_out_of_place@.len() == 256);
        }
        encoder.refine(input, &table, &symbols_sorted_by_out_of_place);
        proof {
            lemma_counts_supported(input@, table.counts@);
            assert(table.counts@ =~= count_table(input@));
        }
        let header = match ExtremeBitmapHeader::new(
            table.counts.as_slice(),
            symbols_sorted_by_out_of_place.as_slice(),
        ) {
            Ok(header) => header,
            Err(e) => {
                return Err(e);
            },
        };
        let mut out: Vec<u8> = header.into();
        let mut bitmap: Vec<u8> = encoder.writer.finish();
        out.append(&mut bitmap);
        Ok(out)
    }
}

} // verus!
