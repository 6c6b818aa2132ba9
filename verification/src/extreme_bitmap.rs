//! The type that the encoder is implemented for.

use vstd::prelude::*;

verus! {

/// The extreme bitmap format. It holds no data: encoding is a function of
/// the input alone.
pub struct ExtremeBitmap;

} // verus!
