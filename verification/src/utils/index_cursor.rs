//! A cursor over the bits of byte-aligned storage.

use vstd::prelude::*;

verus! {

/// Position of the next bit to emit, kept both as a single counter and as the
/// (byte, bit) pair derived from it.
#[derive(Debug)]
pub struct IndexCursor {
    pub bit_index: u8,
    pub byte_index: usize,
    pub internal_index: usize,
}

/// Number of bytes that a cursor standing at bit `position` reports: the
/// bytes up to and including the current one, plus one more when the current
/// byte is partially used.
pub open spec fn bytes_reported(position: nat) -> nat {
    position / 8 + 1 + if position % 8 > 0 { 1nat } else { 0nat }
}

impl IndexCursor {
    /// Number of bits the cursor has passed.
    pub open spec fn position(&self) -> nat {
        self.internal_index as nat
    }

    /// The public pair agrees with the counter.
    pub open spec fn wf(&self) -> bool {
        &&& self.byte_index as nat == self.position() / 8
        &&& self.bit_index as nat == self.position() % 8
    }

    /// Moves the cursor one bit forward.
    pub fn advance(&mut self)
        requires
            old(self).position() < usize::MAX,
        ensures
            final(self).position() == old(self).position() + 1,
            final(self).wf(),
    {
        self.internal_index += 1;
        self.byte_index = self.internal_index / 8;
        let index: usize = self.internal_index;
        let low: usize = index & 7;
        assert(low == index % 8) by (bit_vector)
            requires
                low == index & 7,
        ;
        self.bit_index = low as u8;
    }

    /// Total number of bits passed, recomputed from the public pair.
    pub fn bit_count(&self) -> (r: usize)
        requires
            self.wf(),
        ensures
            r as nat == self.position(),
    {
        self.byte_index * 8 + (self.bit_index as usize)
    }

    /// Number of bytes reported for the bits passed so far.
    pub fn byte_count(&self) -> (r: usize)
        requires
            self.wf(),
        ensures
            r as nat == bytes_reported(self.position()),
    {
        let extra: usize = if self.bit_index > 0 { 1 } else { 0 };
        self.byte_index + 1 + extra
    }
}

impl Default for IndexCursor {
    /// A cursor at bit 0.
    fn default() -> (r: Self)
        ensures
            r.position() == 0,
            r.wf(),
    {
        IndexCursor { bit_index: 0, byte_index: 0, internal_index: 0 }
    }
}

} // verus!
