//! Lemmas about the positional readings of trit strings.
use crate::value::Trit;
use vstd::prelude::*;
use vstd::arithmetic::power::pow;
use super::spec::{flip, flip_all, trit_val, msb_value, lsf_value, pow3, max_mag, in_range, zeros, is_canonical, trim};

verus! {

/// `3^0 = 1`, `3^(n+1) = 3 * 3^n`, `3^n >= 1` and `3^n` is odd, so `2 * max_mag(n) = 3^n - 1`.
pub proof fn lemma_pow3(n: nat)
    ensures
        pow3(0) == 1,
        pow3(n + 1) == 3 * pow3(n),
        pow3(n) >= 1,
        pow3(n) % 2 == 1,
        2 * max_mag(n) == pow3(n) - 1,
        max_mag(n) >= 0,
        max_mag(n + 1) == 3 * max_mag(n) + 1,
    decreases n,
{
    reveal(pow);
    assert(pow3(n + 1) == 3 * pow3(n));
    if n > 0 {
        lemma_pow3((n - 1) as nat);
    }
}

/// `3^a * 3^b = 3^(a+b)`.
pub proof fn lemma_pow3_adds(a: nat, b: nat)
    ensures
        pow3(a) * pow3(b) == pow3(a + b),
    decreases b,
{
    lemma_pow3(a);
    if b > 0 {
        lemma_pow3_adds(a, (b - 1) as nat);
        lemma_pow3((b - 1) as nat);
        lemma_pow3((a + b - 1) as nat);
        assert(pow3(a) * pow3(b) == pow3(a) * (3 * pow3((b - 1) as nat)));
        assert(pow3(a) * (3 * pow3((b - 1) as nat)) == 3 * (pow3(a) * pow3((b - 1) as nat)))
            by (nonlinear_arith);
        assert(((a + b - 1) as nat) + 1 == a + b);
    } else {
        lemma_pow3(0);
        assert(a + b == a);
        assert(pow3(a) * 1 == pow3(a));
    }
}

/// `3^n` grows with `n`.
pub proof fn lemma_pow3_monotone(a: nat, b: nat)
    requires
        a <= b,
    ensures
        pow3(a) <= pow3(b),
        max_mag(a) <= max_mag(b),
    decreases b,
{
    lemma_pow3(a);
    lemma_pow3(b);
    if a < b {
        lemma_pow3_monotone(a, (b - 1) as nat);
        lemma_pow3((b - 1) as nat);
    }
}

/// Appending a most-significant digit to a least-significant-first string.
pub proof fn lemma_lsf_push(s: Seq<Trit>, d: Trit)
    ensures
        lsf_value(s.push(d)) == lsf_value(s) + trit_val(d) * pow3(s.len()),
    decreases s.len(),
{
    lemma_pow3(s.len());
    if s.len() == 0 {
        assert(s.push(d).drop_first() =~= Seq::<Trit>::empty());
        assert(s.push(d)[0] == d);
        lemma_pow3(0);
        assert(lsf_value(Seq::<Trit>::empty()) == 0);
        assert(trit_val(d) * 1 == trit_val(d));
    } else {
        let r = s.drop_first();
        assert(s.push(d).drop_first() =~= r.push(d));
        assert(s.push(d)[0] == s[0]);
        lemma_lsf_push(r, d);
        lemma_pow3(r.len());
        assert(3 * (trit_val(d) * pow3(r.len())) == trit_val(d) * pow3(s.len())) by (nonlinear_arith)
            requires pow3(s.len()) == 3 * pow3(r.len());
    }
}

/// Concatenation of least-significant-first strings: `value(s ++ t) = value(s) + 3^|s| * value(t)`.
pub proof fn lemma_lsf_concat(s: Seq<Trit>, t: Seq<Trit>)
    ensures
        lsf_value(s + t) == lsf_value(s) + pow3(s.len()) * lsf_value(t),
    decreases s.len(),
{
    lemma_pow3(s.len());
    if s.len() == 0 {
        assert(s + t =~= t);
        lemma_pow3(0);
    } else {
        let r = s.drop_first();
        assert((s + t).drop_first() =~= r + t);
        assert((s + t)[0] == s[0]);
        lemma_lsf_concat(r, t);
        lemma_pow3(r.len());
        assert(3 * (pow3(r.len()) * lsf_value(t)) == pow3(s.len()) * lsf_value(t)) by (nonlinear_arith)
            requires pow3(s.len()) == 3 * pow3(r.len());
    }
}

/// Concatenation of most-significant-first strings: `value(s ++ t) = value(s) * 3^|t| + value(t)`.
pub proof fn lemma_msb_concat(s: Seq<Trit>, t: Seq<Trit>)
    ensures
        msb_value(s + t) == msb_value(s) * pow3(t.len()) + msb_value(t),
    decreases t.len(),
{
    lemma_pow3(t.len());
    if t.len() == 0 {
        assert(s + t =~= s);
        lemma_pow3(0);
    } else {
        let r = t.drop_last();
        assert((s + t).drop_last() =~= s + r);
        assert((s + t).last() == t.last());
        lemma_msb_concat(s, r);
        lemma_pow3(r.len());
        assert(3 * (msb_value(s) * pow3(r.len())) == msb_value(s) * pow3(t.len())) by (nonlinear_arith)
            requires pow3(t.len()) == 3 * pow3(r.len());
    }
}

/// A string of zeros is worth `0` in either reading.
pub proof fn lemma_zeros_value(n: nat)
    ensures
        lsf_value(zeros(n)) == 0,
        msb_value(zeros(n)) == 0,
    decreases n,
{
    if n > 0 {
        lemma_zeros_value((n - 1) as nat);
        assert(zeros(n).drop_first() =~= zeros((n - 1) as nat));
        assert(zeros(n).drop_last() =~= zeros((n - 1) as nat));
    }
}

/// `m` trits hold at most `max_mag(m)` in magnitude (least-significant-first reading).
pub proof fn lemma_lsf_bound(s: Seq<Trit>)
    ensures
        in_range(lsf_value(s), s.len()),
    decreases s.len(),
{
    lemma_pow3(s.len());
    if s.len() > 0 {
        lemma_lsf_bound(s.drop_first());
        lemma_pow3((s.len() - 1) as nat);
    }
}

/// `m` trits hold at most `max_mag(m)` in magnitude (most-significant-first reading).
pub proof fn lemma_msb_bound(s: Seq<Trit>)
    ensures
        in_range(msb_value(s), s.len()),
    decreases s.len(),
{
    lemma_pow3(s.len());
    if s.len() > 0 {
        lemma_msb_bound(s.drop_last());
        lemma_pow3((s.len() - 1) as nat);
    }
}

/// The two readings agree up to reversal.
pub proof fn lemma_msb_is_reversed_lsf(s: Seq<Trit>)
    ensures
        msb_value(s) == lsf_value(s.reverse()),
    decreases s.len(),
{
    if s.len() > 0 {
        let r = s.drop_last();
        lemma_msb_is_reversed_lsf(r);
        assert(s.reverse().drop_first() =~= r.reverse());
        assert(s.reverse()[0] == s.last());
    }
}

/// Two equally long strings with the same least-significant-first value are equal.
pub proof fn lemma_lsf_injective(s: Seq<Trit>, t: Seq<Trit>)
    requires
        s.len() == t.len(),
        lsf_value(s) == lsf_value(t),
    ensures
        s == t,
    decreases s.len(),
{
    if s.len() > 0 {
        let a = lsf_value(s.drop_first());
        let b = lsf_value(t.drop_first());
        assert(trit_val(s[0]) - trit_val(t[0]) == 3 * (b - a));
        assert(a == b);
        lemma_lsf_injective(s.drop_first(), t.drop_first());
        assert(s =~= seq![s[0]] + s.drop_first());
        assert(t =~= seq![t[0]] + t.drop_first());
    } else {
        assert(s =~= t);
    }
}

/// Two equally long strings with the same most-significant-first value are equal.
pub proof fn lemma_msb_injective(s: Seq<Trit>, t: Seq<Trit>)
    requires
        s.len() == t.len(),
        msb_value(s) == msb_value(t),
    ensures
        s == t,
    decreases s.len(),
{
    if s.len() > 0 {
        let a = msb_value(s.drop_last());
        let b = msb_value(t.drop_last());
        assert(trit_val(s.last()) - trit_val(t.last()) == 3 * (b - a));
        assert(a == b);
        lemma_msb_injective(s.drop_last(), t.drop_last());
        assert(s =~= s.drop_last().push(s.last()));
        assert(t =~= t.drop_last().push(t.last()));
    } else {
        assert(s =~= t);
    }
}

/// Most-significant zeros do not change a least-significant-first value.
pub proof fn lemma_lsf_trailing_zeros(s: Seq<Trit>, n: nat)
    ensures
        lsf_value(s + zeros(n)) == lsf_value(s),
{
    lemma_lsf_concat(s, zeros(n));
    lemma_zeros_value(n);
}

/// Leading zeros do not change a most-significant-first value.
pub proof fn lemma_msb_leading_zeros(n: nat, s: Seq<Trit>)
    ensures
        msb_value(zeros(n) + s) == msb_value(s),
{
    lemma_msb_concat(zeros(n), s);
    lemma_zeros_value(n);
}

/// Trimming keeps the value, yields a canonical string, and only drops zeros.
pub proof fn lemma_trim(s: Seq<Trit>)
    ensures
        lsf_value(trim(s)) == lsf_value(s),
        is_canonical(trim(s)),
        trim(s).len() <= s.len(),
        s =~= trim(s) + zeros((s.len() - trim(s).len()) as nat),
    decreases s.len(),
{
    if s.len() > 0 && s.last() == Trit::Zero {
        let r = s.drop_last();
        lemma_trim(r);
        assert(s =~= r.push(Trit::Zero));
        lemma_lsf_push(r, Trit::Zero);
        let k = (r.len() - trim(r).len()) as nat;
        assert(zeros(k).push(Trit::Zero) =~= zeros(k + 1));
        assert(r.push(Trit::Zero) =~= trim(r) + zeros(k + 1));
    } else {
        assert(s =~= s + zeros(0));
    }
}

/// A canonical string is empty exactly when its value is `0`; otherwise its most significant
/// digit decides the sign and its magnitude is above `max_mag(len - 1)`.
pub proof fn lemma_canonical_nonzero(s: Seq<Trit>)
    requires
        is_canonical(s),
        s.len() > 0,
    ensures
        lsf_value(s) != 0,
        !in_range(lsf_value(s), (s.len() - 1) as nat),
{
    let r = s.drop_last();
    assert(s =~= r.push(s.last()));
    lemma_lsf_push(r, s.last());
    lemma_lsf_bound(r);
    lemma_pow3(r.len());
}

/// A canonical string of length `n` has a value in range for a width `w` exactly when `n <= w`.
pub proof fn lemma_canonical_width(s: Seq<Trit>, w: nat)
    requires
        is_canonical(s),
    ensures
        in_range(lsf_value(s), w) <==> s.len() <= w,
{
    lemma_lsf_bound(s);
    if s.len() <= w {
        lemma_pow3_monotone(s.len(), w);
    } else {
        lemma_canonical_nonzero(s);
        lemma_pow3_monotone(w, (s.len() - 1) as nat);
    }
}

/// Two canonical strings with the same value are the same string.
pub proof fn lemma_canonical_unique(s: Seq<Trit>, t: Seq<Trit>)
    requires
        is_canonical(s),
        is_canonical(t),
        lsf_value(s) == lsf_value(t),
    ensures
        s == t,
{
    lemma_canonical_width(s, t.len());
    lemma_canonical_width(t, s.len());
    lemma_lsf_bound(s);
    lemma_lsf_bound(t);
    lemma_lsf_injective(s, t);
}

/// A string with a nonzero digit has a nonzero value (least-significant-first reading).
pub proof fn lemma_lsf_nonzero_digit(s: Seq<Trit>, i: int)
    requires
        0 <= i < s.len(),
        s[i] != Trit::Zero,
    ensures
        lsf_value(s) != 0,
{
    lemma_trim(s);
    let t = trim(s);
    let k = (s.len() - t.len()) as nat;
    if i >= t.len() {
        assert(s[i] == zeros(k)[i - t.len()]);
    }
    lemma_canonical_nonzero(t);
}

/// A string with a nonzero digit has a nonzero value (most-significant-first reading).
pub proof fn lemma_msb_nonzero_digit(s: Seq<Trit>, i: int)
    requires
        0 <= i < s.len(),
        s[i] != Trit::Zero,
    ensures
        msb_value(s) != 0,
{
    lemma_msb_is_reversed_lsf(s);
    assert(s.reverse()[s.len() - 1 - i] == s[i]);
    lemma_lsf_nonzero_digit(s.reverse(), s.len() - 1 - i);
}

/// Flipping every digit negates either reading.
pub proof fn lemma_flip_all(s: Seq<Trit>)
    ensures
        flip_all(s).len() == s.len(),
        msb_value(flip_all(s)) == -msb_value(s),
        lsf_value(flip_all(s)) == -lsf_value(s),
        is_canonical(s) ==> is_canonical(flip_all(s)),
    decreases s.len(),
{
    if s.len() > 0 {
        lemma_flip_all(s.drop_last());
        lemma_flip_all(s.drop_first());
        assert(flip_all(s).drop_last() =~= flip_all(s.drop_last()));
        assert(flip_all(s).drop_first() =~= flip_all(s.drop_first()));
        assert(flip_all(s).last() == flip(s.last()));
        assert(flip_all(s)[0] == flip(s[0]));
    }
}

/// The value of a one-digit string.
pub proof fn lemma_single(d: Trit)
    ensures
        msb_value(seq![d]) == trit_val(d),
        lsf_value(seq![d]) == trit_val(d),
{
    assert(seq![d].drop_last() =~= Seq::<Trit>::empty());
    assert(seq![d].drop_first() =~= Seq::<Trit>::empty());
    assert(seq![d].last() == d);
    assert(seq![d][0] == d);
    assert(msb_value(Seq::<Trit>::empty()) == 0);
    assert(lsf_value(Seq::<Trit>::empty()) == 0);
}

/// The powers of three that straddle the `i128` range: `3^80 <= i128::MAX < 3^81`.
pub proof fn lemma_pow3_80()
    ensures
        pow3(80) == 147808829414345923316083210206383297601,
        pow3(81) == 443426488243037769948249630619149892803,
        pow3(80) <= i128::MAX,
        pow3(81) > i128::MAX,
{
    lemma_pow3(0);
    lemma_pow3(1);
    lemma_pow3(2);
    lemma_pow3(3);
    lemma_pow3(4);
    assert(pow3(5) == 243);
    lemma_pow3_adds(5, 5);
    assert(pow3(10) == 59049);
    lemma_pow3_adds(10, 10);
    assert(pow3(20) == 3486784401);
    lemma_pow3_adds(20, 20);
    assert(pow3(40) == 12157665459056928801);
    lemma_pow3_adds(40, 40);
    assert(pow3(80) == 147808829414345923316083210206383297601);
    lemma_pow3(80);
}

/// Below width 81 the powers of three fit `i128`; from width 81 on they do not.
pub proof fn lemma_pow3_fits(n: nat)
    ensures
        pow3(n) <= i128::MAX <==> n <= 80,
{
    lemma_pow3_80();
    if n <= 80 {
        lemma_pow3_monotone(n, 80);
    } else {
        lemma_pow3_monotone(81, n);
    }
}

} // verus!
