//! Balanced-ternary integers: a fixed-width most-significant-first codec with
//! never-silent arithmetic, and a growable least-significant-first bignum.
pub mod value;
pub mod ternary;
