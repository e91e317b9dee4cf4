//! Arbitrary-width balanced-ternary integers.
//!
//! [`BigTernary`] is a digit-serial, least-significant-first `Vec<Trit>` in canonical form (no
//! most-significant `Zero`), so every integer has exactly one representation. Its arithmetic
//! never overflows: a carry out of the top digit becomes a new digit. The never-silent boundary
//! is the fixed-width [`FixedWidthTrits`]: [`BigTernary::checked_to_width`] and
//! [`checked_add_fixed`] return `None` exactly when the true result needs more trits.
//! [`BigTernary::to_i128`] is overflow-checked likewise.
//!
//! The fixed-width codec in the parent module is most-significant-first; the two are reconciled
//! only through the integer value.
use crate::value::Trit;
use vstd::prelude::*;
use super::{add_with_carry, digit, from_digit, is_nonzero, is_zero, neg_trit, copy_trits, placed};
use super::spec::{trit_val, trit_of, flip_all, lsf_value, pow3, in_range, fits_i128, zeros,
    is_canonical, trim};
use super::lemmas::{lemma_pow3, lemma_lsf_push, lemma_lsf_concat, lemma_lsf_bound, lemma_zeros_value,
    lemma_trim, lemma_flip_all, lemma_lsf_trailing_zeros, lemma_canonical_nonzero, lemma_canonical_width,
    lemma_pow3_fits, lemma_pow3_80};

verus! {

/// Arbitrary-width balanced-ternary integer (digit-serial reference form).
///
/// Invariant (canonical form, [`BigTernary::wf`]): `digits` has no trailing (most-significant)
/// `Zero` trit; zero is the empty vector. Every constructor and operation establishes it.
#[derive(Clone, Debug)]
pub struct BigTernary {
    /// Balanced trits, index 0 least significant.
    digits: Vec<Trit>,
}

impl View for BigTernary {
    type V = Seq<Trit>;

    /// The digits, least significant first.
    closed spec fn view(&self) -> Seq<Trit> {
        self.digits@
    }
}

impl BigTernary {
    /// The integer this value denotes.
    pub open spec fn value(&self) -> int {
        lsf_value(self@)
    }

    /// Canonical form: no most-significant `Zero`.
    pub open spec fn wf(&self) -> bool {
        is_canonical(self@)
    }

    /// The additive identity (empty digit vector).
    pub fn zero() -> (r: Self)
        ensures
            r@ == Seq::<Trit>::empty(),
            r.value() == 0,
            r.wf(),
    {
        BigTernary { digits: Vec::new() }
    }

    /// `true` iff this has no digits, which for a canonical value means it is exactly zero.
    pub fn is_zero(&self) -> (r: bool)
        ensures
            r == (self@.len() == 0),
            self.wf() ==> (r == (self.value() == 0)),
    {
        proof {
            if self@.len() > 0 && self.wf() {
                lemma_canonical_nonzero(self@);
            }
        }
        self.digits.len() == 0
    }

    /// Number of significant trits (0 for zero).
    pub fn width(&self) -> (r: usize)
        ensures
            r == self@.len(),
    {
        self.digits.len()
    }

    /// The canonical digit slice (least-significant-first).
    pub fn digits(&self) -> (r: &[Trit])
        ensures
            r@ == self@,
    {
        self.digits.as_slice()
    }

    /// Build from raw least-significant-first trits; any non-canonical input is accepted and
    /// canonicalized. Total: there is no invalid `Trit`.
    pub fn from_trits_lsf(trits: Vec<Trit>) -> (r: Self)
        ensures
            r@ == trim(trits@),
            r.value() == lsf_value(trits@),
            r.wf(),
    {
        let mut b = BigTernary { digits: trits };
        b.canonicalize();
        proof {
            lemma_trim(trits@);
        }
        b
    }

    /// Drop trailing (most-significant) `Zero` trits; zero becomes empty.
    fn canonicalize(&mut self)
        ensures
            final(self)@ == trim(old(self)@),
    {
        while self.digits.len() > 0 && self.digits[self.digits.len() - 1] == Trit::Zero
            invariant
                trim(self@) == trim(old(self)@),
            decreases self@.len(),
        {
            self.digits.pop();
        }
    }

    /// Negate (flip every trit). Canonical form is preserved.
    pub fn neg(&self) -> (r: Self)
        ensures
            r@ == flip_all(self@),
            r.value() == -self.value(),
            self.wf() ==> r.wf(),
    {
        let mut out: Vec<Trit> = Vec::new();
        let mut i: usize = 0;
        while i < self.digits.len()
            invariant
                i <= self@.len(),
                out@ == flip_all(self@.take(i as int)),
            decreases self@.len() - i,
        {
            out.push(neg_trit(self.digits[i]));
            i = i + 1;
            assert(out@ =~= flip_all(self@.take(i as int)));
        }
        assert(self@.take(self@.len() as int) =~= self@);
        proof {
            lemma_flip_all(self@);
        }
        BigTernary { digits: out }
    }

    /// Addition. Never overflows: the final carry becomes a new digit. A digit-serial ripple of
    /// the shared full adder.
    pub fn add(&self, other: &Self) -> (r: Self)
        ensures
            r.value() == self.value() + other.value(),
            r.wf(),
    {
        let la = self.digits.len();
        let lb = other.digits.len();
        let n = if la >= lb { la } else { lb };
        let ghost pa = self@ + zeros((n - la) as nat);
        let ghost pb = other@ + zeros((n - lb) as nat);
        let mut out: Vec<Trit> = Vec::new();
        let mut carry = Trit::Zero;
        let mut i: usize = 0;
        proof {
            lemma_pow3(0);
            assert(pa.take(0) =~= Seq::<Trit>::empty());
            assert(pb.take(0) =~= Seq::<Trit>::empty());
        }
        while i < n
            invariant
                i <= n,
                la == self@.len(),
                lb == other@.len(),
                pa == self@ + zeros((n - la) as nat),
                pb == other@ + zeros((n - lb) as nat),
                pa.len() == n,
                pb.len() == n,
                out@.len() == i,
                lsf_value(pa.take(i as int)) + lsf_value(pb.take(i as int)) == lsf_value(out@)
                    + trit_val(carry) * pow3(i as nat),
            decreases n - i,
        {
            let a = if i < la { self.digits[i] } else { Trit::Zero };
            let b = if i < lb { other.digits[i] } else { Trit::Zero };
            assert(a == pa[i as int]);
            assert(b == pb[i as int]);
            let ghost c0 = carry;
            let ghost old_out = out@;
            let (sum, c) = add_with_carry(a, b, carry);
            out.push(sum);
            carry = c;
            proof {
                let p = pow3(i as nat);
                lemma_pow3(i as nat);
                assert(pa.take(i + 1) =~= pa.take(i as int).push(a));
                assert(pb.take(i + 1) =~= pb.take(i as int).push(b));
                lemma_lsf_push(pa.take(i as int), a);
                lemma_lsf_push(pb.take(i as int), b);
                lemma_lsf_push(old_out, sum);
                assert(trit_val(a) * p + trit_val(b) * p + trit_val(c0) * p == trit_val(sum) * p
                    + trit_val(c) * (3 * p)) by (nonlinear_arith)
                    requires
                        trit_val(a) + trit_val(b) + trit_val(c0) == trit_val(sum) + 3 * trit_val(c);
            }
            i = i + 1;
        }
        let ghost before = out@;
        proof {
            assert(pa.take(n as int) =~= pa);
            assert(pb.take(n as int) =~= pb);
            lemma_lsf_trailing_zeros(self@, (n - la) as nat);
            lemma_lsf_trailing_zeros(other@, (n - lb) as nat);
            lemma_lsf_push(before, carry);
        }
        if is_nonzero(carry) {
            out.push(carry);
        } else {
            let ghost p = pow3(n as nat);
            assert(trit_val(carry) * p == 0) by (nonlinear_arith) requires trit_val(carry) == 0;
        }
        let ghost unnormalized = out@;
        let mut r = BigTernary { digits: out };
        r.canonicalize();
        proof {
            lemma_trim(unnormalized);
        }
        r
    }

    /// Subtraction: `self + (-other)`.
    pub fn sub(&self, other: &Self) -> (r: Self)
        ensures
            r.value() == self.value() - other.value(),
            r.wf(),
    {
        self.add(&other.neg())
    }

    /// Multiplication (schoolbook over balanced trits): each digit `b_i` of `other` is in
    /// `{-1, 0, +1}`, so its partial product is `+-self` shifted left by `i`, accumulated with
    /// [`add`](Self::add).
    pub fn mul(&self, other: &Self) -> (r: Self)
        ensures
            r.value() == self.value() * other.value(),
            r.wf(),
    {
        let mut acc = BigTernary::zero();
        let mut i: usize = 0;
        proof {
            assert(other@.take(0) =~= Seq::<Trit>::empty());
            assert(self.value() * 0 == 0) by (nonlinear_arith);
        }
        while i < other.digits.len()
            invariant
                i <= other@.len(),
                acc.value() == self.value() * lsf_value(other@.take(i as int)),
                acc.wf(),
            decreases other@.len() - i,
        {
            let b = other.digits[i];
            let ghost x = self.value();
            let ghost yi = lsf_value(other@.take(i as int));
            let ghost p = pow3(i as nat);
            proof {
                assert(other@.take(i + 1) =~= other@.take(i as int).push(b));
                lemma_lsf_push(other@.take(i as int), b);
            }
            if !is_zero(b) {
                // partial = (+-self) << i: i zero trits, then the signed digits
                let signed = if b == Trit::Neg {
                    self.neg()
                } else {
                    BigTernary { digits: copy_trits(self.digits.as_slice()) }
                };
                let shifted = placed(&signed.digits, i, 0);
                proof {
                    assert(shifted@ =~= zeros(i as nat) + signed@);
                    lemma_lsf_concat(zeros(i as nat), signed@);
                    lemma_zeros_value(i as nat);
                    assert(signed.value() == trit_val(b) * x);
                    assert(x * yi + p * (trit_val(b) * x) == x * (yi + trit_val(b) * p))
                        by (nonlinear_arith);
                }
                acc = acc.add(&BigTernary { digits: shifted });
            } else {
                proof {
                    let t = trit_val(b);
                    assert(t * p == 0) by (nonlinear_arith) requires t == 0;
                }
            }
            i = i + 1;
        }
        assert(other@.take(other@.len() as int) =~= other@);
        let ghost before = acc@;
        acc.canonicalize();
        proof {
            lemma_trim(before);
        }
        acc
    }

    // ---- bridges to and from machine integers (never silent) ----

    /// Exact construction from any `i128`.
    pub fn from_i128(value: i128) -> (r: Self)
        ensures
            r.value() == value,
            r.wf(),
    {
        let ghost original = value as int;
        let mut value = value;
        let mut digits: Vec<Trit> = Vec::new();
        proof {
            lemma_pow3(0);
            assert(lsf_value(digits@) == 0);
            assert(original * 1 == original);
        }
        while value != 0
            invariant
                original == value * pow3(digits@.len()) + lsf_value(digits@),
                value == 0 ==> is_canonical(digits@),
            decreases (if value >= 0 { value as int } else { -(value as int) }),
        {
            // Balanced residue in {-1, 0, +1}: `rem_euclid` gives 0, 1, 2; 2 maps to -1, and
            // the quotient takes the borrow.
            let ghost v0 = value as int;
            let ghost p = pow3(digits@.len());
            let ghost old_digits = digits@;
            let m = value.checked_rem_euclid(3).unwrap();
            let q = value.checked_div_euclid(3).unwrap();
            let rem: i128 = if m == 2 { -1 } else { m };
            value = if m == 2 { q + 1 } else { q };
            assert(v0 == 3 * value + rem);
            digits.push(from_digit(rem as i64));
            proof {
                lemma_pow3(old_digits.len());
                lemma_lsf_push(old_digits, trit_of(rem as int));
                assert(v0 * p == value * (3 * p) + rem * p) by (nonlinear_arith)
                    requires v0 == 3 * value + rem;
            }
        }
        let ghost unnormalized = digits@;
        let mut b = BigTernary { digits };
        b.canonicalize();
        proof {
            lemma_trim(unnormalized);
            assert(0 * pow3(unnormalized.len()) == 0);
        }
        b
    }
    /// Never-silent conversion to `i128`: `None` exactly when the value does not fit
    /// (overflow-checked accumulation).
    pub fn to_i128(&self) -> (r: Option<i128>)
        requires
            self.wf(),
        ensures
            r == (if fits_i128(self.value()) { Some(self.value() as i128) } else { None::<i128> }),
    {
        let n = self.digits.len();
        let mut acc: i128 = 0;
        let mut pow: i128 = 1;
        let mut i: usize = 0;
        proof {
            lemma_pow3(0);
            assert(self@.take(0) =~= Seq::<Trit>::empty());
        }
        while i < n
            invariant
                i <= n,
                n == self@.len(),
                self.wf(),
                acc == lsf_value(self@.take(i as int)),
                i < n ==> pow == pow3(i as nat),
            decreases n - i,
        {
            let t = self.digits[i];
            let d = digit(t) as i128;
            proof {
                lemma_pow3(i as nat);
                assert(self@.take(i + 1) =~= self@.take(i as int).push(t));
                lemma_lsf_push(self@.take(i as int), t);
                lemma_lsf_bound(self@.take(i + 1));
                if i + 1 < n {
                    lemma_canonical_width(self@, (i + 1) as nat);
                    lemma_pow3((i + 1) as nat);
                } else {
                    assert(self@.take(i + 1) =~= self@);
                }
            }
            let term = match d.checked_mul(pow) {
                Some(v) => v,
                None => {
                    // unreachable: |digit * 3^i| <= 3^i, which fits
                    return None;
                },
            };
            acc = match acc.checked_add(term) {
                Some(v) => v,
                None => {
                    return None;
                },
            };
            if i + 1 < n {
                pow = match pow.checked_mul(3) {
                    Some(v) => v,
                    None => {
                        proof {
                            lemma_pow3_fits(i as nat);
                            lemma_pow3_fits((i + 1) as nat);
                            lemma_pow3_80();
                            lemma_pow3(81);
                        }
                        return None;
                    },
                };
            }
            i = i + 1;
        }
        assert(self@.take(n as int) =~= self@);
        Some(acc)
    }

    // ---- the fixed-width, never-silent boundary ----

    /// Never-silent narrowing to a fixed width of `n` trits: `Some` iff `width() <= n`, the
    /// digits padded with `Zero` to exactly `n` trits.
    pub fn checked_to_width(&self, n: u32) -> (r: Option<FixedWidthTrits>)
        ensures
            r is Some <==> self@.len() <= n,
            r matches Some(f) ==> f.trits@ == self@ + zeros((n - self@.len()) as nat)
                && f.trits@.len() == n
                && f.value() == self.value(),
            self.wf() ==> (r is Some <==> in_range(self.value(), n as nat)),
    {
        proof {
            if self.wf() {
                lemma_canonical_width(self@, n as nat);
            }
        }
        if self.width() > n as usize {
            return None;
        }
        let target = n as usize;
        let mut digits = copy_trits(self.digits.as_slice());
        while digits.len() < target
            invariant
                self@.len() <= digits@.len() <= target,
                digits@ == self@ + zeros((digits@.len() - self@.len()) as nat),
            decreases target - digits@.len(),
        {
            digits.push(Trit::Zero);
            assert(digits@ =~= self@ + zeros((digits@.len() - self@.len()) as nat));
        }
        proof {
            lemma_lsf_trailing_zeros(self@, (n - self@.len()) as nat);
        }
        Some(FixedWidthTrits { trits: digits })
    }
}

impl Default for BigTernary {
    /// Zero.
    fn default() -> (r: Self)
        ensures
            r@ == Seq::<Trit>::empty(),
    {
        BigTernary::zero()
    }
}

impl PartialEq for BigTernary {
    fn eq(&self, other: &Self) -> (r: bool) {
        trits_eq(self.digits.as_slice(), other.digits.as_slice())
    }
}

impl Eq for BigTernary {}

impl vstd::std_specs::cmp::PartialEqSpecImpl for BigTernary {
    open spec fn obeys_eq_spec() -> bool {
        true
    }

    open spec fn eq_spec(&self, other: &BigTernary) -> bool {
        self@ == other@
    }
}

/// Digit-by-digit equality of two trit strings.
fn trits_eq(a: &[Trit], b: &[Trit]) -> (r: bool)
    ensures
        r == (a@ == b@),
{
    if a.len() != b.len() {
        return false;
    }
    let mut i: usize = 0;
    while i < a.len()
        invariant
            i <= a@.len(),
            a@.len() == b@.len(),
            forall|j: int| 0 <= j < i ==> a@[j] == b@[j],
        decreases a@.len() - i,
    {
        if a[i] != b[i] {
            return false;
        }
        i = i + 1;
    }
    assert(a@ =~= b@);
    true
}

/// A balanced-ternary value pinned to exactly `trits.len()` trits, least-significant-first,
/// padded with `Zero`. Arithmetic that could overflow the width is never silent (see
/// [`checked_add_fixed`]).
#[derive(Clone, Debug)]
pub struct FixedWidthTrits {
    /// Exactly `N` trits, least-significant-first, `Zero`-padded.
    pub trits: Vec<Trit>,
}

impl FixedWidthTrits {
    /// The integer these trits denote.
    pub open spec fn value(&self) -> int {
        lsf_value(self.trits@)
    }

    /// Promote to the growable form (always exact).
    pub fn to_big(&self) -> (r: BigTernary)
        ensures
            r@ == trim(self.trits@),
            r.value() == self.value(),
            r.wf(),
    {
        BigTernary::from_trits_lsf(copy_trits(self.trits.as_slice()))
    }
}

impl PartialEq for FixedWidthTrits {
    fn eq(&self, other: &Self) -> (r: bool) {
        trits_eq(self.trits.as_slice(), other.trits.as_slice())
    }
}

impl Eq for FixedWidthTrits {}

impl vstd::std_specs::cmp::PartialEqSpecImpl for FixedWidthTrits {
    open spec fn obeys_eq_spec() -> bool {
        true
    }

    open spec fn eq_spec(&self, other: &FixedWidthTrits) -> bool {
        self.trits@ == other.trits@
    }
}

/// Never-silent fixed-width addition: ripples the shared full adder across the `n` trits and
/// returns `None` iff the carry out of the top trit is non-zero (the true sum needs trit `n+1`).
/// No wrap, no truncation. Both inputs have the same width.
pub fn checked_add_fixed(a: &FixedWidthTrits, b: &FixedWidthTrits) -> (r: Option<FixedWidthTrits>)
    requires
        a.trits@.len() == b.trits@.len(),
    ensures
        match r {
            Some(f) => in_range(a.value() + b.value(), a.trits@.len())
                && f.trits@.len() == a.trits@.len()
                && f.value() == a.value() + b.value(),
            None => !in_range(a.value() + b.value(), a.trits@.len()),
        },
{
    let n = a.trits.len();
    let mut out: Vec<Trit> = Vec::new();
    let mut carry = Trit::Zero;
    let mut i: usize = 0;
    proof {
        lemma_pow3(0);
        assert(a.trits@.take(0) =~= Seq::<Trit>::empty());
        assert(b.trits@.take(0) =~= Seq::<Trit>::empty());
    }
    while i < n
        invariant
            i <= n,
            n == a.trits@.len(),
            n == b.trits@.len(),
            out@.len() == i,
            lsf_value(a.trits@.take(i as int)) + lsf_value(b.trits@.take(i as int)) == lsf_value(out@)
                + trit_val(carry) * pow3(i as nat),
        decreases n - i,
    {
        let x = a.trits[i];
        let y = b.trits[i];
        let ghost c0 = carry;
        let ghost old_out = out@;
        let (sum, c) = add_with_carry(x, y, carry);
        out.push(sum);
        carry = c;
        proof {
            let p = pow3(i as nat);
            lemma_pow3(i as nat);
            assert(a.trits@.take(i + 1) =~= a.trits@.take(i as int).push(x));
            assert(b.trits@.take(i + 1) =~= b.trits@.take(i as int).push(y));
            lemma_lsf_push(a.trits@.take(i as int), x);
            lemma_lsf_push(b.trits@.take(i as int), y);
            lemma_lsf_push(old_out, sum);
            assert(trit_val(x) * p + trit_val(y) * p + trit_val(c0) * p == trit_val(sum) * p
                + trit_val(c) * (3 * p)) by (nonlinear_arith)
                requires
                    trit_val(x) + trit_val(y) + trit_val(c0) == trit_val(sum) + 3 * trit_val(c);
        }
        i = i + 1;
    }
    proof {
        assert(a.trits@.take(n as int) =~= a.trits@);
        assert(b.trits@.take(n as int) =~= b.trits@);
        lemma_lsf_bound(out@);
        lemma_pow3(n as nat);
        let p = pow3(n as nat);
        let t = trit_val(carry);
        if t > 0 {
            assert(t * p == p) by (nonlinear_arith) requires t == 1;
        } else if t < 0 {
            assert(t * p == -p) by (nonlinear_arith) requires t == -1;
        } else {
            assert(t * p == 0) by (nonlinear_arith) requires t == 0;
        }
    }
    if is_nonzero(carry) {
        // overflow: explicit, never silent
        None
    } else {
        Some(FixedWidthTrits { trits: out })
    }
}

} // verus!
