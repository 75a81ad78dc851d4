use vstd::prelude::*;

verus! {

/// Why an encoding or a reconstruction was refused.
#[derive(Clone, Copy, Debug, PartialEq, Eq, Structural)]
pub enum CodingError {
    /// The redundancy ratio is negative or at least 100 percent.
    InvalidConfiguration,
    /// Fewer points were supplied than coefficients were asked for.
    InsufficientPoints,
    /// Two of the supplied points share a position.
    DuplicatePosition,
    /// An exact result, or a quantity on the way to it, exceeds the machine's integers.
    Overflow,
}

} // verus!
