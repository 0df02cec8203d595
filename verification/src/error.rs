use vstd::prelude::*;

verus! {

/// Why a computation gave no value.
#[derive(Clone, Copy, Debug, PartialEq, Eq, Structural)]
pub enum ComputeError {
    /// The problem size is above [`crate::summation::MAX_N`].
    TooLarge,
    /// A sum or a product does not fit in 128 bits.
    Overflow,
    /// A contribution would be negative: the subtrahend exceeds the minuend.
    NegativeTerm,
}

} // verus!
