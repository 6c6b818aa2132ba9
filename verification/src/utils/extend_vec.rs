//! Growth of byte storage by a number of bits.

use vstd::prelude::*;

verus! {

/// Zero bytes appended when room for `n_bits` more bits is asked for.
pub open spec fn growth_bytes(n_bits: nat) -> Seq<u8> {
    Seq::new(n_bits / 8 + 1, |i: int| 0u8)
}

/// Storage that can be grown to hold at least a given number of further bits.
pub trait ExtendBits {
    /// The bytes currently held.
    spec fn bytes(&self) -> Seq<u8>;

    /// Appends zeroed bytes with room for at least `n_bits` bits; what was
    /// there stays.
    fn extend_at_least_n_bits(&mut self, n_bits: usize)
        ensures
            final(self).bytes() == old(self).bytes() + growth_bytes(n_bits as nat),
    ;
}

impl ExtendBits for Vec<u8> {
    open spec fn bytes(&self) -> Seq<u8> {
        self@
    }

    fn extend_at_least_n_bits(&mut self, n_bits: usize) {
        let n_bytes: usize = (n_bits / 8) + 1;
        let zeros: Vec<u8> = vec![0u8; n_bytes];
        self.extend_from_slice(zeros.as_slice());
        assert(self@ =~= old(self)@ + growth_bytes(n_bits as nat));
    }
}

} // verus!
