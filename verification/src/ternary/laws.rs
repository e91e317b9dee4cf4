//! Properties of the library as a whole, stated over the model of `spec` and proved.
use crate::value::Trit;
use vstd::prelude::*;
use super::BigTernary;
use super::spec::{msb_value, lsf_value, pow3, max_mag, in_range, flip_all, horner_fits, fits_i128};
use super::lemmas::{lemma_msb_injective, lemma_msb_bound, lemma_lsf_bound, lemma_canonical_unique,
    lemma_canonical_width, lemma_pow3, lemma_pow3_80, lemma_pow3_fits, lemma_pow3_monotone,
    lemma_msb_is_reversed_lsf};

verus! {

/// Codec uniqueness and round trip: every `m`-trit most-significant-first string is in the
/// `m`-trit range, and two such strings that denote the same integer are the same string. So
/// `int_to_trits(v, m)` returns the only representation there is, and
/// `int_to_trits(trits_to_int(t), t.len())` gives `t` back.
pub proof fn law_fixed_width_representation_unique(s: Seq<Trit>, t: Seq<Trit>)
    requires
        s.len() == t.len(),
        msb_value(s) == msb_value(t),
    ensures
        in_range(msb_value(t), t.len()),
        s == t,
{
    lemma_msb_bound(t);
    lemma_msb_injective(s, t);
}

/// The symmetric range: every `m`-trit string, in either digit order, denotes an integer in
/// `[-(3^m - 1)/2, (3^m - 1)/2]`, and that range is closed under negation.
pub proof fn law_width_bounds_value(s: Seq<Trit>, x: int, m: nat)
    ensures
        in_range(msb_value(s), s.len()),
        in_range(lsf_value(s), s.len()),
        in_range(x, m) <==> in_range(-x, m),
{
    lemma_msb_bound(s);
    lemma_lsf_bound(s);
}

/// Negation is an involution: flipping every digit twice gives the string back.
pub proof fn law_negation_involutive(s: Seq<Trit>)
    ensures
        flip_all(flip_all(s)) == s,
{
    assert(flip_all(flip_all(s)) =~= s) by {
        assert forall|i: int| 0 <= i < s.len() implies flip_all(flip_all(s))[i] == s[i] by {
            match s[i] {
                Trit::Neg => {},
                Trit::Zero => {},
                Trit::Pos => {},
            }
        }
    }
}

/// `max_magnitude(m)` is defined exactly up to width 80: `3^m` fits `i128` iff `m <= 80`.
pub proof fn law_max_magnitude_ceiling(m: nat)
    ensures
        pow3(m) <= i128::MAX <==> m <= 80,
{
    lemma_pow3_fits(m);
}

/// `trits_to_int` is safe (its Horner fold never leaves `i128`) on every string of at most 80
/// trits, the widths whose `max_magnitude` fits `i128`.
pub proof fn law_decode_safe_up_to_80_trits(s: Seq<Trit>)
    requires
        s.len() <= 80,
    ensures
        horner_fits(s),
{
    lemma_pow3_80();
    lemma_pow3(79);
    lemma_pow3(80);
    assert(max_mag(80) == 73904414707172961658041605103191648800);
    assert forall|k: int| 0 <= k < s.len() implies fits_i128(3 * msb_value(#[trigger] s.take(k)))
        && fits_i128(msb_value(s.take(k + 1))) by {
        lemma_msb_bound(s.take(k));
        lemma_msb_bound(s.take(k + 1));
        lemma_pow3_monotone(k as nat, 79);
        lemma_pow3_monotone((k + 1) as nat, 80);
    }
}

/// Canonical form makes the representation unique: two canonical `BigTernary` values that
/// denote the same integer have the same digits (and so compare equal).
pub proof fn law_big_ternary_unique(a: BigTernary, b: BigTernary)
    requires
        a.wf(),
        b.wf(),
        a.value() == b.value(),
    ensures
        a@ == b@,
{
    lemma_canonical_unique(a@, b@);
}

/// The never-silent boundary: a canonical value fits `n` fixed-width trits exactly when its
/// width is at most `n`; so fixed-width overflow and growing past `n` trits are the same event.
pub proof fn law_width_decides_fixed_range(a: BigTernary, n: nat)
    requires
        a.wf(),
    ensures
        in_range(a.value(), n) <==> a@.len() <= n,
{
    lemma_canonical_width(a@, n);
}

/// The two digit orders denote the same integer up to reversal (most-significant-first `t`
/// and least-significant-first `t.reverse()`).
pub proof fn law_digit_orders_agree(t: Seq<Trit>)
    ensures
        msb_value(t) == lsf_value(t.reverse()),
{
    lemma_msb_is_reversed_lsf(t);
}

/// `i128` round trip: a canonical value built from `v` (as `from_i128` builds it) is read back
/// by `to_i128` as exactly `Some(v)`.
pub proof fn law_i128_round_trip(v: i128, b: BigTernary)
    requires
        b.wf(),
        b.value() == v,
    ensures
        (if fits_i128(b.value()) { Some(b.value() as i128) } else { None::<i128> }) == Some(v),
{
}

} // verus!
