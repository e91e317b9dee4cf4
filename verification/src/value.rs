use vstd::prelude::*;

verus! {

/// A balanced-ternary digit: one of `-1`, `0`, `+1`.
#[derive(Clone, Copy, PartialEq, Eq, Structural, Debug, Hash)]
pub enum Trit {
    /// The digit `-1`.
    Neg,
    /// The digit `0`.
    Zero,
    /// The digit `+1`.
    Pos,
}

} // verus!
