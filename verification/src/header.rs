//! The header that precedes the bit stream: a width flag, the 256 symbol
//! counts at that width, and the symbols in refinement order.

use vstd::prelude::*;

verus! {

/// Why a header could not be built.
#[derive(Clone, Copy, Debug, PartialEq, Eq, Structural)]
pub enum HeaderError {
    /// The count table has no entry, so it has no maximum.
    EmptyCounts,
    /// Some count does not fit in 32 bits.
    UnsupportedCountRange,
}

/// Width of the count fields of a header.
#[derive(Clone, Copy, Debug, PartialEq, Eq, Structural)]
pub enum SymbolCountByteSizeFlag {
    One,
    Two,
    Three,
    Four,
}

/// The narrowest width whose fields hold `max_count`; four bytes for
/// anything beyond three.
pub open spec fn narrowest_width(max_count: int) -> SymbolCountByteSizeFlag {
    if max_count <= 0xff {
        SymbolCountByteSizeFlag::One
    } else if max_count <= 0xffff {
        SymbolCountByteSizeFlag::Two
    } else if max_count <= 0xff_ffff {
        SymbolCountByteSizeFlag::Three
    } else {
        SymbolCountByteSizeFlag::Four
    }
}

/// Byte `k` of `count` in little-endian order, for `k` below 4.
pub open spec fn little_endian_byte(count: int, k: int) -> u8 {
    if k == 0 {
        (count % 256) as u8
    } else if k == 1 {
        ((count / 0x100) % 256) as u8
    } else if k == 2 {
        ((count / 0x1_0000) % 256) as u8
    } else {
        ((count / 0x100_0000) % 256) as u8
    }
}

/// Message of the error that [`SymbolCountByteSizeFlag::from_max_count`]
/// returns.
pub open spec fn unsupported_count_message() -> Seq<char> {
    "Count of single symbol exceeded what fits in a u32, which is not supported at the moment."@
}

impl SymbolCountByteSizeFlag {
    /// Number of bytes of one count field.
    pub open spec fn width(self) -> nat {
        match self {
            SymbolCountByteSizeFlag::One => 1,
            SymbolCountByteSizeFlag::Two => 2,
            SymbolCountByteSizeFlag::Three => 3,
            SymbolCountByteSizeFlag::Four => 4,
        }
    }

    /// The byte that announces this width in a header.
    pub open spec fn flag_byte(self) -> u8 {
        match self {
            SymbolCountByteSizeFlag::One => 1,
            SymbolCountByteSizeFlag::Two => 2,
            SymbolCountByteSizeFlag::Three => 4,
            SymbolCountByteSizeFlag::Four => 8,
        }
    }

    /// The field of `count` at this width: its low bytes, least significant
    /// first.
    pub open spec fn count_field(self, count: usize) -> Seq<u8> {
        Seq::new(self.width(), |k: int| little_endian_byte(count as int, k))
    }

    /// Chooses the narrowest width for a table whose largest count is
    /// `max_count`, and refuses a count beyond 32 bits.
    pub fn from_max_count(max_count: usize) -> (r: Result<Self, String>)
        ensures
            max_count <= u32::MAX ==> r == Ok::<Self, String>(narrowest_width(max_count as int)),
            max_count > u32::MAX ==> r is Err && r->Err_0@ == unsupported_count_message(),
    {
        if max_count <= 0xff {
            Ok(Self::One)
        } else if max_count <= 0xffff {
            Ok(Self::Two)
        } else if max_count <= 0xff_ffff {
            Ok(Self::Three)
        } else if max_count <= u32::MAX as usize {
            Ok(Self::Four)
        } else {
            Err(
                "Count of single symbol exceeded what fits in a u32, which is not supported at the moment.".to_owned(),
            )
        }
    }

    /// The flag byte of this width: 1, 2, 4 or 8.
    pub fn as_byte_flag(&self) -> (b: u8)
        ensures
            b == self.flag_byte(),
    {
        match self {
            SymbolCountByteSizeFlag::One => 1,
            SymbolCountByteSizeFlag::Two => 2,
            SymbolCountByteSizeFlag::Three => 4,
            SymbolCountByteSizeFlag::Four => 8,
        }
    }

    /// Writes `count` as a field of this width. Bytes of `count` beyond the
    /// width are dropped.
    pub fn convert_count_to_bytes(&self, count: usize) -> (bytes: Vec<u8>)
        ensures
            bytes@ == self.count_field(count),
    {
        let mut bytes: Vec<u8> = Vec::new();
        bytes.push((count % 256) as u8);
        match self {
            SymbolCountByteSizeFlag::One => {},
            SymbolCountByteSizeFlag::Two => {
                bytes.push(((count / 0x100) % 256) as u8);
            },
            SymbolCountByteSizeFlag::Three => {
                bytes.push(((count / 0x100) % 256) as u8);
                bytes.push(((count / 0x1_0000) % 256) as u8);
            },
            SymbolCountByteSizeFlag::Four => {
                bytes.push(((count / 0x100) % 256) as u8);
                bytes.push(((count / 0x1_0000) % 256) as u8);
                bytes.push(((count / 0x100_0000) % 256) as u8);
            },
        }
        assert(bytes@ =~= self.count_field(count));
        bytes
    }
}

/// Largest of the first `n` entries of `counts`; 0 where there is none.
pub open spec fn max_prefix(counts: Seq<usize>, n: int) -> int
    decreases n,
{
    if n <= 0 {
        0
    } else if counts[n - 1] > max_prefix(counts, n - 1) {
        counts[n - 1] as int
    } else {
        max_prefix(counts, n - 1)
    }
}

/// Largest entry of `counts`.
pub open spec fn max_count(counts: Seq<usize>) -> int {
    max_prefix(counts, counts.len() as int)
}

/// The fields of the first `n` entries of `counts`, one after the other.
pub open spec fn count_block_prefix(
    flag: SymbolCountByteSizeFlag,
    counts: Seq<usize>,
    n: int,
) -> Seq<u8>
    decreases n,
{
    if n <= 0 {
        Seq::empty()
    } else {
        count_block_prefix(flag, counts, n - 1) + flag.count_field(counts[n - 1])
    }
}

/// The count block of a header: one field per entry of `counts`, in order.
pub open spec fn count_block(flag: SymbolCountByteSizeFlag, counts: Seq<usize>) -> Seq<u8> {
    count_block_prefix(flag, counts, counts.len() as int)
}

/// The order block of a header: each symbol cut to its low byte.
pub open spec fn order_block(order: Seq<usize>) -> Seq<u8> {
    Seq::new(order.len(), |i: int| (order[i] % 256) as u8)
}

/// The serialized header for a count table and a refinement order.
pub open spec fn header_bytes(counts: Seq<usize>, order: Seq<usize>) -> Seq<u8> {
    let flag = narrowest_width(max_count(counts));
    seq![flag.flag_byte()] + count_block(flag, counts) + order_block(order)
}

/// The largest count bounds every count, and is one of them.
pub proof fn lemma_max_prefix(counts: Seq<usize>, n: int)
    requires
        0 <= n <= counts.len(),
    ensures
        forall|i: int| 0 <= i < n ==> #[trigger] counts[i] <= max_prefix(counts, n),
        n > 0 ==> exists|i: int| 0 <= i < n && #[trigger] counts[i] == max_prefix(counts, n),
    decreases n,
{
    if n > 0 {
        lemma_max_prefix(counts, n - 1);
        if n - 1 > 0 && counts[n - 1] <= max_prefix(counts, n - 1) {
            let i = choose|i: int| 0 <= i < n - 1 && #[trigger] counts[i] == max_prefix(counts, n - 1);
            assert(counts[i] == max_prefix(counts, n));
        } else {
            assert(counts[n - 1] == max_prefix(counts, n));
        }
    }
}

/// The count block holds one field of the flag's width per count.
pub proof fn lemma_count_block_len(flag: SymbolCountByteSizeFlag, counts: Seq<usize>, n: int)
    requires
        0 <= n,
    ensures
        count_block_prefix(flag, counts, n).len() == n * flag.width(),
    decreases n,
{
    if n > 0 {
        lemma_count_block_len(flag, counts, n - 1);
        assert((n - 1) * flag.width() + flag.width() == n * flag.width()) by (nonlinear_arith);
    }
}

/// The order only shows in the order block: two headers for the same counts
/// agree on the flag byte and the count block, and what follows is the order
/// block of each.
pub proof fn lemma_order_changes_only_order_block(
    counts: Seq<usize>,
    a: Seq<usize>,
    b: Seq<usize>,
)
    ensures
        ({
            let flag = narrowest_width(max_count(counts));
            let n = (1 + counts.len() * flag.width()) as int;
            &&& header_bytes(counts, a).len() == n + a.len()
            &&& header_bytes(counts, b).len() == n + b.len()
            &&& header_bytes(counts, a).subrange(0, n) == header_bytes(counts, b).subrange(0, n)
            &&& header_bytes(counts, a).subrange(0, n) == seq![flag.flag_byte()] + count_block(
                flag,
                counts,
            )
            &&& header_bytes(counts, a).subrange(n, n + a.len()) == order_block(a)
            &&& header_bytes(counts, b).subrange(n, n + b.len()) == order_block(b)
        }),
{
    let flag = narrowest_width(max_count(counts));
    let n = (1 + counts.len() * flag.width()) as int;
    lemma_count_block_len(flag, counts, counts.len() as int);
    let fixed = seq![flag.flag_byte()] + count_block(flag, counts);
    assert(fixed.len() == n);
    assert(header_bytes(counts, a).subrange(0, n) =~= fixed);
    assert(header_bytes(counts, b).subrange(0, n) =~= fixed);
    assert(header_bytes(counts, a).subrange(n, n + a.len()) =~= order_block(a));
    assert(header_bytes(counts, b).subrange(n, n + b.len()) =~= order_block(b));
}

/// The three parts of a header, ready to be written out.
#[derive(Clone)]
pub struct ExtremeBitmapHeader {
    symbol_counts_size_flag: SymbolCountByteSizeFlag,
    symbol_counts: Vec<u8>,
    symbols_sorted_by_amount_out_of_place: Vec<u8>,
}

impl ExtremeBitmapHeader {
    /// The bytes that this header is written as.
    pub closed spec fn serialized(&self) -> Seq<u8> {
        seq![self.symbol_counts_size_flag.flag_byte()] + self.symbol_counts@
            + self.symbols_sorted_by_amount_out_of_place@
    }

    /// Builds the header for a count table and a refinement order. An empty
    /// table and a count beyond 32 bits are refused.
    pub fn new(symbol_counts: &[usize], symbols_sorted_by_amount_out_of_place: &[usize]) -> (r:
        Result<Self, HeaderError>)
        ensures
            symbol_counts@.len() == 0 ==> r == Err::<Self, HeaderError>(HeaderError::EmptyCounts),
            symbol_counts@.len() > 0 && max_count(symbol_counts@) > u32::MAX ==> r == Err::<
                Self,
                HeaderError,
            >(HeaderError::UnsupportedCountRange),
            symbol_counts@.len() > 0 && max_count(symbol_counts@) <= u32::MAX ==> r is Ok
                && r->Ok_0.serialized() == header_bytes(
                symbol_counts@,
                symbols_sorted_by_amount_out_of_place@,
            ),
    {
        if symbol_counts.len() == 0 {
            return Err(HeaderError::EmptyCounts);
        }
        let mut max: usize = 0;
        let mut i: usize = 0;
        while i < symbol_counts.len()
            invariant
                i <= symbol_counts@.len(),
                max == max_prefix(symbol_counts@, i as int),
            decreases symbol_counts@.len() - i,
        {
            if symbol_counts[i] > max {
                max = symbol_counts[i];
            }
            i += 1;
        }
        let symbol_counts_size_flag = match SymbolCountByteSizeFlag::from_max_count(max) {
            Ok(flag) => flag,
            Err(_) => {
                return Err(HeaderError::UnsupportedCountRange);
            },
        };
        let mut fields: Vec<u8> = Vec::new();
        let mut i: usize = 0;
        while i < symbol_counts.len()
            invariant
                i <= symbol_counts@.len(),
                fields@ == count_block_prefix(symbol_counts_size_flag, symbol_counts@, i as int),
            decreases symbol_counts@.len() - i,
        {
            let mut field = symbol_counts_size_flag.convert_count_to_bytes(symbol_counts[i]);
            fields.append(&mut field);
            i += 1;
        }
        let mut symbols: Vec<u8> = Vec::new();
        let mut i: usize = 0;
        while i < symbols_sorted_by_amount_out_of_place.len()
            invariant
                i <= symbols_sorted_by_amount_out_of_place@.len(),
                symbols@.len() == i,
                forall|k: int|
                    0 <= k < i ==> #[trigger] symbols@[k] == order_block(
                        symbols_sorted_by_amount_out_of_place@,
                    )[k],
            decreases symbols_sorted_by_amount_out_of_place@.len() - i,
        {
            symbols.push((symbols_sorted_by_amount_out_of_place[i] % 256) as u8);
            i += 1;
        }
        assert(symbols@ =~= order_block(symbols_sorted_by_amount_out_of_place@));
        Ok(
            ExtremeBitmapHeader {
                symbol_counts_size_flag,
                symbol_counts: fields,
                symbols_sorted_by_amount_out_of_place: symbols,
            },
        )
    }
}

impl From<ExtremeBitmapHeader> for Vec<u8> {
    /// Writes the header out: the flag byte, the count block, the order
    /// block.
    fn from(val: ExtremeBitmapHeader) -> (bytes: Vec<u8>)
        ensures
            bytes@ == val.serialized(),
    {
        let mut bytes: Vec<u8> = Vec::new();
        bytes.push(val.symbol_counts_size_flag.as_byte_flag());
        let mut counts = val.symbol_counts;
        let mut symbols = val.symbols_sorted_by_amount_out_of_place;
        bytes.append(&mut counts);
        bytes.append(&mut symbols);
        assert(bytes@ =~= val.serialized());
        bytes
    }
}

impl vstd::std_specs::convert::FromSpecImpl<ExtremeBitmapHeader> for Vec<u8> {
    open spec fn obeys_from_spec() -> bool {
        false
    }

    open spec fn from_spec(v: ExtremeBitmapHeader) -> Vec<u8> {
        arbitrary()
    }
}

} // verus!
