//! Balanced-ternary integer semantics and fixed-width arithmetic.
//!
//! A [`Trit`] is a digit in `{-1, 0, +1}`. An `m`-trit string written most-significant-first
//! `<t0 ... t(m-1)>` denotes `sum_j digit(tj) * 3^(m-1-j)`. The symmetric range of `m` trits is
//! `[-(3^m - 1)/2, (3^m - 1)/2]`. Fixed-width arithmetic never wraps: a result outside the range
//! is `None`. The digit-serial operations ([`add`], [`sub`], [`mul`], [`neg`]) use no machine
//! integer and work at any width; only the conversions ([`max_magnitude`], [`trits_to_int`],
//! [`int_to_trits`]) go through `i128`.
pub mod spec;
pub mod lemmas;
mod big_ternary;
pub mod laws;

pub use big_ternary::{checked_add_fixed, BigTernary, FixedWidthTrits};

use crate::value::Trit;
use vstd::prelude::*;
use self::spec::{lsf_value, trit_val, trit_of, flip, flip_all, msb_value, pow3, max_mag, in_range, fits_i128, horner_fits, zeros};
use self::lemmas::{lemma_pow3, lemma_pow3_monotone, lemma_msb_bound, lemma_flip_all, lemma_msb_concat, lemma_single, lemma_lsf_push, lemma_lsf_bound, lemma_msb_is_reversed_lsf, lemma_zeros_value, lemma_pow3_adds,
    lemma_msb_leading_zeros, lemma_msb_nonzero_digit};

verus! {

/// The signed value of a single trit.
pub fn digit(t: Trit) -> (r: i64)
    ensures
        r == trit_val(t),
{
    match t {
        Trit::Neg => -1,
        Trit::Zero => 0,
        Trit::Pos => 1,
    }
}

/// The trit whose value is `d`, for `d` in `{-1, 0, +1}`.
fn from_digit(d: i64) -> (r: Trit)
    requires
        -1 <= d <= 1,
    ensures
        trit_val(r) == d,
        r == trit_of(d as int),
{
    match d {
        -1 => Trit::Neg,
        1 => Trit::Pos,
        _ => Trit::Zero,
    }
}

/// Balanced full adder over single trits: returns `(digit_out, carry_out)` with
/// `digit(a) + digit(b) + digit(carry_in) == digit(digit_out) + 3 * digit(carry_out)`.
/// Both outputs are balanced trits, so this pins them down uniquely.
pub fn add_with_carry(a: Trit, b: Trit, carry_in: Trit) -> (r: (Trit, Trit))
    ensures
        trit_val(a) + trit_val(b) + trit_val(carry_in) == trit_val(r.0) + 3 * trit_val(r.1),
{
    let s = digit(a) + digit(b) + digit(carry_in);
    let d = (s + 1).checked_rem_euclid(3).unwrap() - 1;
    let c = (s + 1).checked_div_euclid(3).unwrap();
    (from_digit(d), from_digit(c))
}

/// Per-trit negation (sign flip): `digit(neg_trit(t)) == -digit(t)`.
pub fn neg_trit(t: Trit) -> (r: Trit)
    ensures
        r == flip(t),
        trit_val(r) == -trit_val(t),
{
    match t {
        Trit::Neg => Trit::Pos,
        Trit::Zero => Trit::Zero,
        Trit::Pos => Trit::Neg,
    }
}

/// `true` iff the trit is the additive identity `Zero`.
pub fn is_zero(t: Trit) -> (r: bool)
    ensures
        r == (t == Trit::Zero),
{
    matches!(t, Trit::Zero)
}

/// `true` iff the trit is non-zero (`Neg` or `Pos`).
pub fn is_nonzero(t: Trit) -> (r: bool)
    ensures
        r == (t != Trit::Zero),
{
    !is_zero(t)
}

/// The largest magnitude `m` trits hold, `(3^m - 1) / 2`; `None` when `3^m` does not fit `i128`
/// (`m >= 81`).
pub fn max_magnitude(m: u32) -> (r: Option<i128>)
    ensures
        r == (if pow3(m as nat) <= i128::MAX { Some(max_mag(m as nat) as i128) } else { None::<i128> }),
{
    let mut pow: i128 = 1;
    let mut i: u32 = 0;
    proof {
        lemma_pow3(0);
    }
    while i < m
        invariant
            i <= m,
            pow == pow3(i as nat),
        decreases m - i,
    {
        proof {
            lemma_pow3(i as nat);
        }
        match pow.checked_mul(3) {
            Some(p) => {
                pow = p;
            },
            None => {
                proof {
                    lemma_pow3_monotone((i + 1) as nat, m as nat);
                }
                return None;
            },
        }
        i = i + 1;
    }
    proof {
        lemma_pow3(m as nat);
    }
    Some((pow - 1) / 2)
}

/// The integer denoted by a most-significant-first trit string; the empty string is `0`.
/// Every string of at most 80 trits qualifies (see `laws::law_decode_safe_up_to_80_trits`).
pub fn trits_to_int(trits: &[Trit]) -> (r: i128)
    requires
        horner_fits(trits@),
    ensures
        r == msb_value(trits@),
{
    let mut acc: i128 = 0;
    let mut i: usize = 0;
    assert(trits@.take(0) =~= Seq::<Trit>::empty());
    while i < trits.len()
        invariant
            i <= trits@.len(),
            horner_fits(trits@),
            acc == msb_value(trits@.take(i as int)),
        decreases trits@.len() - i,
    {
        let ghost k = i as int;
        assert(trits@.take(k + 1).drop_last() =~= trits@.take(k));
        assert(trits@.take(k + 1).last() == trits@[k]);
        assert(fits_i128(3 * msb_value(trits@.take(k))));
        assert(fits_i128(msb_value(trits@.take(k + 1))));
        acc = acc * 3 + digit(trits[i]) as i128;
        i = i + 1;
    }
    assert(trits@.take(trits@.len() as int) =~= trits@);
    acc
}

/// `n` zero trits.
fn zero_trits(n: usize) -> (r: Vec<Trit>)
    ensures
        r@ == zeros(n as nat),
{
    let mut out: Vec<Trit> = Vec::new();
    let mut i: usize = 0;
    while i < n
        invariant
            i <= n,
            out@ == zeros(i as nat),
        decreases n - i,
    {
        out.push(Trit::Zero);
        i = i + 1;
        assert(out@ =~= zeros(i as nat));
    }
    out
}

/// The trits of `s` in reverse order.
fn reversed(s: &Vec<Trit>) -> (r: Vec<Trit>)
    ensures
        r@ == s@.reverse(),
{
    let mut out: Vec<Trit> = Vec::new();
    let mut j: usize = s.len();
    while j > 0
        invariant
            j <= s@.len(),
            out@ == s@.subrange(j as int, s@.len() as int).reverse(),
        decreases j,
    {
        j = j - 1;
        out.push(s[j]);
        assert(out@ =~= s@.subrange(j as int, s@.len() as int).reverse());
    }
    assert(s@.subrange(0, s@.len() as int) =~= s@);
    out
}

/// The unique `m`-trit balanced representation of `value`, most-significant-first, or `None`
/// when `value` lies outside the `m`-trit range (never a silent truncation).
pub fn int_to_trits(value: i128, m: u32) -> (r: Option<Vec<Trit>>)
    ensures
        match r {
            Some(t) => in_range(value as int, m as nat) && t@.len() == m && msb_value(t@) == value,
            None => !in_range(value as int, m as nat),
        },
{
    let mut v: i128 = value;
    let mut lsb_first: Vec<Trit> = Vec::new();
    let mut i: u32 = 0;
    proof {
        lemma_pow3(0);
    }
    while i < m
        invariant
            i <= m,
            lsb_first@.len() == i,
            value == v * pow3(i as nat) + lsf_value(lsb_first@),
        decreases m - i,
    {
        let ghost v0 = v as int;
        let ghost p = pow3(i as nat);
        let ghost old_digits = lsb_first@;
        let mut r: i128 = v.checked_rem_euclid(3).unwrap();
        v = v.checked_div_euclid(3).unwrap();
        assert(v0 == 3 * v + r);
        if r == 2 {
            r = -1;
            v = v + 1;
        }
        assert(v0 == 3 * v + r);
        lsb_first.push(from_digit(r as i64));
        proof {
            lemma_pow3(i as nat);
            lemma_lsf_push(old_digits, trit_of(r as int));
            assert(v0 * p == v * (3 * p) + r * p) by (nonlinear_arith)
                requires v0 == 3 * v + r;
        }
        i = i + 1;
    }
    proof {
        lemma_lsf_bound(lsb_first@);
        lemma_pow3(m as nat);
        let p = pow3(m as nat);
        let l = lsf_value(lsb_first@);
        if v > 0 {
            assert(v * p >= p) by (nonlinear_arith) requires v >= 1, p >= 1;
        } else if v < 0 {
            assert(v * p <= -p) by (nonlinear_arith) requires v <= -1, p >= 1;
        }
    }
    if v != 0 {
        return None;
    }
    let out = reversed(&lsb_first);
    proof {
        lemma_msb_is_reversed_lsf(out@);
        assert(out@.reverse() =~= lsb_first@);
    }
    Some(out)
}

/// Digit-wise negation: `value(neg(t)) == -value(t)`; width-preserving, always in range.
pub fn neg(trits: &[Trit]) -> (r: Vec<Trit>)
    ensures
        r@ == flip_all(trits@),
        r@.len() == trits@.len(),
        msb_value(r@) == -msb_value(trits@),
{
    let mut out: Vec<Trit> = Vec::new();
    let mut i: usize = 0;
    while i < trits.len()
        invariant
            i <= trits@.len(),
            out@ == flip_all(trits@.take(i as int)),
        decreases trits@.len() - i,
    {
        out.push(neg_trit(trits[i]));
        i = i + 1;
        assert(out@ =~= flip_all(trits@.take(i as int)));
    }
    assert(trits@.take(trits@.len() as int) =~= trits@);
    proof {
        lemma_flip_all(trits@);
    }
    out
}

/// Ripple-carry add of two equal-length most-significant-first trit strings, fixed-width.
/// `None` when the widths differ or the true sum leaves the `m`-trit range (a non-zero final
/// carry); never a silent wrap.
pub fn add(a: &[Trit], b: &[Trit]) -> (r: Option<Vec<Trit>>)
    ensures
        a@.len() != b@.len() ==> r is None,
        a@.len() == b@.len() ==> match r {
            Some(t) => in_range(msb_value(a@) + msb_value(b@), a@.len())
                && t@.len() == a@.len()
                && msb_value(t@) == msb_value(a@) + msb_value(b@),
            None => !in_range(msb_value(a@) + msb_value(b@), a@.len()),
        },
{
    if a.len() != b.len() {
        return None;
    }
    let m = a.len();
    let mut out = zero_trits(m);
    let mut carry = Trit::Zero;
    let mut i: usize = m;
    proof {
        lemma_pow3(0);
        assert(a@.subrange(m as int, m as int) =~= Seq::<Trit>::empty());
        assert(b@.subrange(m as int, m as int) =~= Seq::<Trit>::empty());
        assert(out@.subrange(m as int, m as int) =~= Seq::<Trit>::empty());
    }
    // Least-significant first (the tail of a most-significant-first string), rippling the
    // shared balanced full adder; the carry stays a balanced trit throughout.
    while i > 0
        invariant
            i <= m,
            m == a@.len(),
            m == b@.len(),
            out@.len() == m,
            msb_value(a@.subrange(i as int, m as int)) + msb_value(b@.subrange(i as int, m as int))
                == msb_value(out@.subrange(i as int, m as int)) + trit_val(carry) * pow3(
                (m - i) as nat,
            ),
        decreases i,
    {
        i = i - 1;
        let ghost k = i as int;
        let ghost p = pow3((m - i - 1) as nat);
        let ghost old_out = out@;
        let ghost c0 = carry;
        let (d, c) = add_with_carry(a[i], b[i], carry);
        out[i] = d;
        carry = c;
        proof {
            lemma_pow3((m - i - 1) as nat);
            assert((m - i - 1) as nat + 1 == (m - i) as nat);
            let ra = a@.subrange(k + 1, m as int);
            let rb = b@.subrange(k + 1, m as int);
            let ro = out@.subrange(k + 1, m as int);
            assert(ro =~= old_out.subrange(k + 1, m as int));
            assert(a@.subrange(k, m as int) =~= seq![a@[k]] + ra);
            assert(b@.subrange(k, m as int) =~= seq![b@[k]] + rb);
            assert(out@.subrange(k, m as int) =~= seq![d] + ro);
            lemma_msb_concat(seq![a@[k]], ra);
            lemma_msb_concat(seq![b@[k]], rb);
            lemma_msb_concat(seq![d], ro);
            lemma_single(a@[k]);
            lemma_single(b@[k]);
            lemma_single(d);
            assert(trit_val(a@[k]) * p + trit_val(b@[k]) * p + trit_val(c0) * p
                == trit_val(d) * p + trit_val(c) * (3 * p)) by (nonlinear_arith)
                requires
                    trit_val(a@[k]) + trit_val(b@[k]) + trit_val(c0) == trit_val(d) + 3 * trit_val(c);
        }
    }
    proof {
        assert(a@.subrange(0, m as int) =~= a@);
        assert(b@.subrange(0, m as int) =~= b@);
        assert(out@.subrange(0, m as int) =~= out@);
        lemma_msb_bound(out@);
        lemma_pow3(m as nat);
    }
    if carry != Trit::Zero {
        // a non-zero final carry: the sum is out of the m-trit range
        return None;
    }
    Some(out)
}

/// Fixed-width subtraction `a - b`, computed as `add(a, neg(b))`.
pub fn sub(a: &[Trit], b: &[Trit]) -> (r: Option<Vec<Trit>>)
    ensures
        a@.len() != b@.len() ==> r is None,
        a@.len() == b@.len() ==> match r {
            Some(t) => in_range(msb_value(a@) - msb_value(b@), a@.len())
                && t@.len() == a@.len()
                && msb_value(t@) == msb_value(a@) - msb_value(b@),
            None => !in_range(msb_value(a@) - msb_value(b@), a@.len()),
        },
{
    if a.len() != b.len() {
        return None;
    }
    let nb = neg(b);
    self::add(a, nb.as_slice())
}

/// A copy of `s`.
fn copy_trits(s: &[Trit]) -> (r: Vec<Trit>)
    ensures
        r@ == s@,
{
    let mut out: Vec<Trit> = Vec::new();
    let mut i: usize = 0;
    while i < s.len()
        invariant
            i <= s@.len(),
            out@ == s@.take(i as int),
        decreases s@.len() - i,
    {
        out.push(s[i]);
        i = i + 1;
        assert(out@ =~= s@.take(i as int));
    }
    assert(s@.take(s@.len() as int) =~= s@);
    out
}

/// `s` placed between `lead` leading and `trail` trailing zeros.
fn placed(s: &Vec<Trit>, lead: usize, trail: usize) -> (r: Vec<Trit>)
    ensures
        r@ == zeros(lead as nat) + s@ + zeros(trail as nat),
{
    let mut out = zero_trits(lead);
    let mut i: usize = 0;
    while i < s.len()
        invariant
            i <= s@.len(),
            out@ == zeros(lead as nat) + s@.take(i as int),
        decreases s@.len() - i,
    {
        out.push(s[i]);
        i = i + 1;
        assert(out@ =~= zeros(lead as nat) + s@.take(i as int));
    }
    assert(s@.take(s@.len() as int) =~= s@);
    let mut j: usize = 0;
    while j < trail
        invariant
            j <= trail,
            out@ == zeros(lead as nat) + s@ + zeros(j as nat),
        decreases trail - j,
    {
        out.push(Trit::Zero);
        j = j + 1;
        assert(out@ =~= zeros(lead as nat) + s@ + zeros(j as nat));
    }
    out
}

/// Fixed-width multiplication by shifted accumulation into a `2m`-trit buffer (no machine
/// multiply); returns the low `m` trits iff the high `m` trits are all zero, else `None`.
pub fn mul(a: &[Trit], b: &[Trit]) -> (r: Option<Vec<Trit>>)
    requires
        2 * a@.len() <= usize::MAX,
    ensures
        a@.len() != b@.len() ==> r is None,
        a@.len() == b@.len() ==> match r {
            Some(t) => in_range(msb_value(a@) * msb_value(b@), a@.len())
                && t@.len() == a@.len()
                && msb_value(t@) == msb_value(a@) * msb_value(b@),
            None => !in_range(msb_value(a@) * msb_value(b@), a@.len()),
        },
{
    if a.len() != b.len() {
        return None;
    }
    let m = a.len();
    if m == 0 {
        proof {
            assert(a@ =~= Seq::<Trit>::empty());
            assert(b@ =~= Seq::<Trit>::empty());
            lemma_pow3(0);
        }
        return Some(Vec::new());
    }
    let ghost x = msb_value(a@);
    let ghost y = msb_value(b@);
    let wide = 2 * m;
    // Most-significant-first accumulator of width 2m.
    let mut acc = zero_trits(wide);
    let mut k: usize = 0;
    proof {
        lemma_zeros_value(wide as nat);
        assert(b@.subrange(m as int, m as int) =~= Seq::<Trit>::empty());
        assert(x * 0 == 0) by (nonlinear_arith);
        lemma_msb_bound(a@);
    }
    // For each digit of b (power k, counting from the least significant), add +-(a << k).
    while k < m
        invariant
            m == a@.len(),
            m == b@.len(),
            0 < m,
            wide == 2 * m,
            k <= m,
            x == msb_value(a@),
            y == msb_value(b@),
            in_range(x, m as nat),
            acc@.len() == wide,
            msb_value(acc@) == x * msb_value(b@.subrange(m - k, m as int)),
        decreases m - k,
    {
        let ghost yk = msb_value(b@.subrange(m - k, m as int));
        let bk = b[m - 1 - k];
        let factor = digit(bk);
        proof {
            let rest = b@.subrange(m - k, m as int);
            assert(b@.subrange(m - k - 1, m as int) =~= seq![bk] + rest);
            lemma_msb_concat(seq![bk], rest);
            lemma_single(bk);
            lemma_msb_bound(b@.subrange(m - k - 1, m as int));
            lemma_pow3_monotone((k + 1) as nat, m as nat);
            lemma_product_range(x, msb_value(b@.subrange(m - k - 1, m as int)), m as nat);
        }
        if factor != 0 {
            // a, possibly negated, placed at the powers [k, k + m)
            let a_signed: Vec<Trit> = if factor < 0 { neg(a) } else { copy_trits(a) };
            let partial = placed(&a_signed, m - k, k);
            proof {
                lemma_msb_concat(zeros((m - k) as nat) + a_signed@, zeros(k as nat));
                lemma_msb_leading_zeros((m - k) as nat, a_signed@);
                lemma_zeros_value(k as nat);
                assert(msb_value(a_signed@) == factor * x);
                assert(x * yk + (factor * x) * pow3(k as nat) == x * (trit_val(bk) * pow3(k as nat) + yk))
                    by (nonlinear_arith) requires factor == trit_val(bk);
            }
            // the 2m-wide sum of m-trit operands never leaves 2m trits, so this is total here
            match self::add(acc.as_slice(), partial.as_slice()) {
                Some(sum) => {
                    acc = sum;
                },
                None => {
                    return None;
                },
            }
        } else {
            proof {
                let tk = trit_val(bk);
                let pk = pow3(k as nat);
                assert(tk * pk == 0) by (nonlinear_arith) requires tk == 0;
            }
        }
        k = k + 1;
    }
    assert(b@.subrange(0, m as int) =~= b@);
    // acc has width 2m; the product fits m trits iff its high m trits are all zero.
    let ghost high = acc@.subrange(0, m as int);
    let ghost low = acc@.subrange(m as int, wide as int);
    proof {
        assert(acc@ =~= high + low);
        lemma_msb_concat(high, low);
        lemma_msb_bound(low);
        lemma_pow3(m as nat);
    }
    let mut j: usize = 0;
    while j < m
        invariant
            j <= m,
            acc@.len() == wide,
            wide == 2 * m,
            high == acc@.subrange(0, m as int),
            msb_value(acc@) == x * y,
            x == msb_value(a@),
            y == msb_value(b@),
            m == a@.len(),
            msb_value(acc@) == msb_value(high) * pow3(m as nat) + msb_value(low),
            in_range(msb_value(low), m as nat),
            forall|jj: int| 0 <= jj < j ==> acc@[jj] == Trit::Zero,
        decreases m - j,
    {
        if is_nonzero(acc[j]) {
            proof {
                assert(high[j as int] != Trit::Zero);
                lemma_msb_nonzero_digit(high, j as int);
                let h = msb_value(high);
                let p = pow3(m as nat);
                lemma_pow3(m as nat);
                if h > 0 {
                    assert(h * p >= p) by (nonlinear_arith) requires h >= 1, p >= 1;
                } else {
                    assert(h * p <= -p) by (nonlinear_arith) requires h <= -1, p >= 1;
                }
            }
            return None;
        }
        j = j + 1;
    }
    proof {
        assert(high =~= zeros(m as nat));
        lemma_zeros_value(m as nat);
        assert(0 * pow3(m as nat) == 0);
    }
    let low_msb = copy_trits(&acc.as_slice()[m..wide]);
    Some(low_msb)
}

/// The product of two values in the `m`-trit range lies in the `2m`-trit range.
proof fn lemma_product_range(x: int, y: int, m: nat)
    requires
        in_range(x, m),
        in_range(y, m),
    ensures
        in_range(x * y, 2 * m),
{
    lemma_pow3(m);
    lemma_pow3(2 * m);
    lemma_pow3_adds(m, m);
    let mm = max_mag(m);
    let p = pow3(m);
    assert(m + m == 2 * m);
    assert(pow3(2 * m) == p * p);
    assert(2 * max_mag(2 * m) == p * p - 1);
    assert(-(mm * mm) <= x * y <= mm * mm) by (nonlinear_arith)
        requires -mm <= x <= mm, -mm <= y <= mm;
    assert(4 * (mm * mm) <= 2 * (p * p - 1)) by (nonlinear_arith)
        requires 2 * mm == p - 1, p >= 1;
}

} // verus!
