//! The bit stream under construction: byte storage and the cursor that says
//! where the next bit goes.

use vstd::prelude::*;
use crate::utils::extend_vec::{growth_bytes, ExtendBits};
use crate::utils::index_cursor::{bytes_reported, IndexCursor};

verus! {

/// Whether bit `j` (counted from the least significant) of `b` is set.
pub open spec fn bit_of(b: u8, j: u8) -> bool {
    (b >> j) & 1 == 1
}

/// Whether the bit at stream position `p` is set in `bytes`; positions beyond
/// the storage read as clear.
pub open spec fn stored_bit(bytes: Seq<u8>, p: int) -> bool {
    0 <= p / 8 < bytes.len() && bit_of(bytes[p / 8], (p % 8) as u8)
}

/// 1 if `bits` holds a set bit at position `p`, else 0.
pub open spec fn bit_value(bits: Seq<bool>, p: int) -> int {
    if 0 <= p < bits.len() && bits[p] {
        1
    } else {
        0
    }
}

/// Value of byte `k` of the stream `bits`: bit `8k + j` of the stream is bit
/// `j` of the byte, and positions past the end of the stream are clear.
pub open spec fn packed_byte(bits: Seq<bool>, k: int) -> int {
    bit_value(bits, 8 * k) + 2 * bit_value(bits, 8 * k + 1) + 4 * bit_value(bits, 8 * k + 2) + 8
        * bit_value(bits, 8 * k + 3) + 16 * bit_value(bits, 8 * k + 4) + 32 * bit_value(
        bits,
        8 * k + 5,
    ) + 64 * bit_value(bits, 8 * k + 6) + 128 * bit_value(bits, 8 * k + 7)
}

/// The bytes that carry the stream `bits`, as many as a cursor at the end of
/// the stream reports.
pub open spec fn packed(bits: Seq<bool>) -> Seq<u8> {
    Seq::new(bytes_reported(bits.len()), |k: int| packed_byte(bits, k) as u8)
}

proof fn lemma_zero_byte(j: u8)
    requires
        j < 8,
    ensures
        !bit_of(0u8, j),
{
    assert((0u8 >> j) & 1 != 1) by (bit_vector);
}

proof fn lemma_set_bit(b: u8, j: u8, k: u8)
    requires
        j < 8,
        k < 8,
    ensures
        bit_of(b | (1u8 << j), k) == (bit_of(b, k) || k == j),
{
    assert((((b | (1u8 << j)) >> k) & 1 == 1) == (((b >> k) & 1 == 1) || k == j)) by (bit_vector)
        requires
            j < 8,
            k < 8,
    ;
}

proof fn lemma_byte_value(b: u8)
    ensures
        b as int == (if bit_of(b, 0) { 1int } else { 0 }) + (if bit_of(b, 1) { 2int } else { 0 })
            + (if bit_of(b, 2) { 4int } else { 0 }) + (if bit_of(b, 3) { 8int } else { 0 }) + (
        if bit_of(b, 4) { 16int } else { 0 }) + (if bit_of(b, 5) { 32int } else { 0 }) + (
        if bit_of(b, 6) { 64int } else { 0 }) + (if bit_of(b, 7) { 128int } else { 0 }),
{
    let b0: u8 = if (b >> 0u8) & 1 == 1 { 1 } else { 0 };
    let b1: u8 = if (b >> 1u8) & 1 == 1 { 2 } else { 0 };
    let b2: u8 = if (b >> 2u8) & 1 == 1 { 4 } else { 0 };
    let b3: u8 = if (b >> 3u8) & 1 == 1 { 8 } else { 0 };
    let b4: u8 = if (b >> 4u8) & 1 == 1 { 16 } else { 0 };
    let b5: u8 = if (b >> 5u8) & 1 == 1 { 32 } else { 0 };
    let b6: u8 = if (b >> 6u8) & 1 == 1 { 64 } else { 0 };
    let b7: u8 = if (b >> 7u8) & 1 == 1 { 128 } else { 0 };
    assert(b == b0 | b1 | b2 | b3 | b4 | b5 | b6 | b7 && (b0 | b1 | b2 | b3 | b4 | b5 | b6 | b7)
        == b0 + b1 + b2 + b3 + b4 + b5 + b6 + b7) by (bit_vector)
        requires
            b0 == (if (b >> 0u8) & 1 == 1 { 1u8 } else { 0 }),
            b1 == (if (b >> 1u8) & 1 == 1 { 2u8 } else { 0 }),
            b2 == (if (b >> 2u8) & 1 == 1 { 4u8 } else { 0 }),
            b3 == (if (b >> 3u8) & 1 == 1 { 8u8 } else { 0 }),
            b4 == (if (b >> 4u8) & 1 == 1 { 16u8 } else { 0 }),
            b5 == (if (b >> 5u8) & 1 == 1 { 32u8 } else { 0 }),
            b6 == (if (b >> 6u8) & 1 == 1 { 64u8 } else { 0 }),
            b7 == (if (b >> 7u8) & 1 == 1 { 128u8 } else { 0 }),
    ;
}

proof fn lemma_bit_value_of_byte(bits: Seq<bool>, bytes: Seq<u8>, k: int, j: u8)
    requires
        0 <= k < bytes.len(),
        j < 8,
        forall|p: int| 0 <= p ==> #[trigger] stored_bit(bytes, p) == (p < bits.len() && bits[p]),
    ensures
        bit_value(bits, 8 * k + j) == (if bit_of(bytes[k], j) { 1int } else { 0 }),
{
    let p = 8 * k + j;
    assert(p / 8 == k && p % 8 == j);
    assert(stored_bit(bytes, p) == bit_of(bytes[k], j));
}

/// Byte storage together with the cursor of the next bit to write.
pub struct BitWriter {
    pub bytes: Vec<u8>,
    pub cursor: IndexCursor,
}

impl View for BitWriter {
    type V = Seq<bool>;

    /// The bits written so far, in emission order.
    open spec fn view(&self) -> Seq<bool> {
        Seq::new(self.cursor.position(), |p: int| stored_bit(self.bytes@, p))
    }
}

impl BitWriter {
    /// The cursor is consistent and no bit at or past it is set.
    pub open spec fn wf(&self) -> bool {
        &&& self.cursor.wf()
        &&& forall|p: int| p >= self.cursor.position() ==> !#[trigger] stored_bit(self.bytes@, p)
    }

    /// An empty stream over empty storage, with the cursor at bit 0.
    pub fn new() -> (w: Self)
        ensures
            w.wf(),
            w@ == Seq::<bool>::empty(),
            w.bytes@ == Seq::<u8>::empty(),
            w.cursor.position() == 0,
    {
        let w = BitWriter { bytes: Vec::new(), cursor: IndexCursor::default() };
        assert(w@ =~= Seq::<bool>::empty());
        w
    }

    /// Grows the storage by zeroed bytes with room for at least `n_bits`
    /// bits. The stream itself is unchanged.
    pub fn reserve(&mut self, n_bits: usize)
        requires
            old(self).wf(),
        ensures
            final(self).wf(),
            final(self)@ == old(self)@,
            final(self).cursor == old(self).cursor,
            final(self).bytes@ == old(self).bytes@ + growth_bytes(n_bits as nat),
    {
        let ghost before = self.bytes@;
        self.bytes.extend_at_least_n_bits(n_bits);
        proof {
            assert forall|p: int| #[trigger] stored_bit(self.bytes@, p) == stored_bit(before, p) by {
                if 0 <= p / 8 < self.bytes@.len() && p / 8 >= before.len() {
                    lemma_zero_byte((p % 8) as u8);
                }
            }
            assert(self@ =~= old(self)@);
        }
    }

    /// Appends one bit to the stream. Storage grows when the cursor has
    /// reached its end.
    pub fn push_bit(&mut self, bit: bool)
        requires
            old(self).wf(),
            old(self)@.len() < usize::MAX,
        ensures
            final(self).wf(),
            final(self)@ == old(self)@.push(bit),
            final(self).bytes@.len() >= old(self).bytes@.len(),
    {
        let ghost before = self.bytes@;
        let ghost pos = self.cursor.position() as int;
        if bit {
            let idx: usize = self.cursor.byte_index;
            let shift: u8 = self.cursor.bit_index;
            while self.bytes.len() <= idx
                invariant
                    self.cursor == old(self).cursor,
                    self.bytes@.len() >= old(self).bytes@.len(),
                    forall|p: int| #[trigger] stored_bit(self.bytes@, p) == stored_bit(before, p),
                decreases idx + 1 - self.bytes.len(),
            {
                let ghost prev = self.bytes@;
                self.bytes.push(0);
                proof {
                    assert forall|p: int| #[trigger] stored_bit(self.bytes@, p) == stored_bit(prev, p) by {
                        if p / 8 == prev.len() {
                            lemma_zero_byte((p % 8) as u8);
                        }
                    }
                }
            }
            let ghost grown = self.bytes@;
            let current: u8 = self.bytes[idx];
            self.bytes[idx] = current | (1u8 << shift);
            proof {
                assert forall|p: int|
                    #[trigger] stored_bit(self.bytes@, p) == (stored_bit(before, p) || p == pos) by {
                    assert(stored_bit(grown, p) == stored_bit(before, p));
                    if p / 8 == idx {
                        lemma_set_bit(current, shift, (p % 8) as u8);
                    }
                }
            }
        }
        self.cursor.advance();
        proof {
            assert(!stored_bit(before, pos));
            assert(self@ =~= old(self)@.push(bit));
        }
    }

    /// The bytes of the finished stream, cut or padded to the number of bytes
    /// that the cursor reports.
    pub fn finish(self) -> (out: Vec<u8>)
        requires
            self.wf(),
        ensures
            out@ == packed(self@),
    {
        let n: usize = self.cursor.byte_count();
        let mut out: Vec<u8> = self.bytes;
        let ghost stored = out@;
        while out.len() < n
            invariant
                forall|p: int| #[trigger] stored_bit(out@, p) == stored_bit(stored, p),
            decreases n - out.len(),
        {
            let ghost prev = out@;
            out.push(0);
            proof {
                assert forall|p: int| #[trigger] stored_bit(out@, p) == stored_bit(prev, p) by {
                    if p / 8 == prev.len() {
                        lemma_zero_byte((p % 8) as u8);
                    }
                }
            }
        }
        let ghost padded = out@;
        out.truncate(n);
        proof {
            let bits = self@;
            assert forall|p: int| 0 <= p implies #[trigger] stored_bit(padded, p) == (p
                < bits.len() && bits[p]) by {
                assert(stored_bit(padded, p) == stored_bit(stored, p));
            }
            assert forall|k: int| 0 <= k < n implies out@[k] == packed_byte(bits, k) as u8 by {
                let b = out@[k];
                assert(b == padded[k]);
                lemma_byte_value(b);
                lemma_bit_value_of_byte(bits, padded, k, 0);
                lemma_bit_value_of_byte(bits, padded, k, 1);
                lemma_bit_value_of_byte(bits, padded, k, 2);
                lemma_bit_value_of_byte(bits, padded, k, 3);
                lemma_bit_value_of_byte(bits, padded, k, 4);
                lemma_bit_value_of_byte(bits, padded, k, 5);
                lemma_bit_value_of_byte(bits, padded, k, 6);
                lemma_bit_value_of_byte(bits, padded, k, 7);
            }
            assert(out@ =~= packed(bits));
        }
        out
    }
}

} // verus!
