//! The mathematical model: digit values, the two positional readings of a trit string,
//! the symmetric range of a width, and the canonical (trimmed) form.
use crate::value::Trit;
use vstd::prelude::*;
use vstd::arithmetic::power::pow;

verus! {

/// The integer a trit stands for.
pub open spec fn trit_val(t: Trit) -> int {
    match t {
        Trit::Neg => -1,
        Trit::Zero => 0,
        Trit::Pos => 1,
    }
}

/// The trit standing for `d`, for `d` in `{-1, 0, 1}`.
pub open spec fn trit_of(d: int) -> Trit {
    if d < 0 { Trit::Neg } else if d == 0 { Trit::Zero } else { Trit::Pos }
}

/// Value of a most-significant-first trit string (Horner: `v = 3 * v + d`).
pub open spec fn msb_value(s: Seq<Trit>) -> int
    decreases s.len(),
{
    if s.len() == 0 {
        0
    } else {
        3 * msb_value(s.drop_last()) + trit_val(s.last())
    }
}

/// Value of a least-significant-first trit string (`s[0] + 3 * value(rest)`).
pub open spec fn lsf_value(s: Seq<Trit>) -> int
    decreases s.len(),
{
    if s.len() == 0 {
        0
    } else {
        trit_val(s[0]) + 3 * lsf_value(s.drop_first())
    }
}

/// `3^m`.
pub open spec fn pow3(m: nat) -> int {
    pow(3, m)
}

/// The largest magnitude that `m` trits hold: `(3^m - 1) / 2`.
pub open spec fn max_mag(m: nat) -> int {
    (pow3(m) - 1) / 2
}

/// `x` lies in the symmetric `m`-trit range `[-max_mag(m), max_mag(m)]`.
pub open spec fn in_range(x: int, m: nat) -> bool {
    -max_mag(m) <= x <= max_mag(m)
}

/// `x` is representable as an `i128`.
pub open spec fn fits_i128(x: int) -> bool {
    i128::MIN <= x <= i128::MAX
}

/// `n` zero trits.
pub open spec fn zeros(n: nat) -> Seq<Trit> {
    Seq::new(n, |i: int| Trit::Zero)
}

/// Digit-wise sign flip.
pub open spec fn flip(t: Trit) -> Trit {
    match t {
        Trit::Neg => Trit::Pos,
        Trit::Zero => Trit::Zero,
        Trit::Pos => Trit::Neg,
    }
}

/// Digit-wise sign flip of a whole string.
pub open spec fn flip_all(s: Seq<Trit>) -> Seq<Trit> {
    s.map_values(|t: Trit| flip(t))
}

/// Every step of the most-significant-first Horner fold `v = 3 * v + d` over `s`
/// stays within `i128`: both `3 * v` and the new `v`.
pub open spec fn horner_fits(s: Seq<Trit>) -> bool {
    forall|k: int|
        #![trigger s.take(k)]
        0 <= k < s.len() ==> fits_i128(3 * msb_value(s.take(k))) && fits_i128(
            msb_value(s.take(k + 1)),
        )
}

/// A least-significant-first string is canonical when it has no most-significant `Zero`.
pub open spec fn is_canonical(s: Seq<Trit>) -> bool {
    s.len() == 0 || s.last() != Trit::Zero
}

/// The string with its most-significant (trailing) `Zero` trits dropped.
pub open spec fn trim(s: Seq<Trit>) -> Seq<Trit>
    decreases s.len(),
{
    if s.len() > 0 && s.last() == Trit::Zero {
        trim(s.drop_last())
    } else {
        s
    }
}

} // verus!
