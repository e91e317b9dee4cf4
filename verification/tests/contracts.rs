//! Concrete cases for the contracts and laws: edges of the range, error results, exact values.

use lib::ternary::{
    add, add_with_carry, checked_add_fixed, digit, int_to_trits, is_nonzero, is_zero, max_magnitude,
    mul, neg, neg_trit, sub, trits_to_int, BigTernary, FixedWidthTrits,
};
use lib::value::Trit::{self, Neg, Pos, Zero};

#[test]
fn digit_values() {
    assert_eq!(digit(Neg), -1);
    assert_eq!(digit(Zero), 0);
    assert_eq!(digit(Pos), 1);
    assert_eq!(neg_trit(Neg), Pos);
    assert_eq!(neg_trit(Zero), Zero);
    assert_eq!(neg_trit(Pos), Neg);
    assert!(is_zero(Zero) && !is_zero(Pos) && !is_zero(Neg));
    assert!(is_nonzero(Neg) && is_nonzero(Pos) && !is_nonzero(Zero));
}

#[test]
fn full_adder_exact_outputs() {
    assert_eq!(add_with_carry(Pos, Pos, Pos), (Zero, Pos));
    assert_eq!(add_with_carry(Pos, Pos, Zero), (Neg, Pos));
    assert_eq!(add_with_carry(Neg, Neg, Neg), (Zero, Neg));
    assert_eq!(add_with_carry(Neg, Neg, Zero), (Pos, Neg));
    assert_eq!(add_with_carry(Pos, Neg, Zero), (Zero, Zero));
}

#[test]
fn zero_width_edges() {
    assert_eq!(max_magnitude(0), Some(0));
    assert_eq!(int_to_trits(0, 0), Some(vec![]));
    assert_eq!(int_to_trits(1, 0), None);
    assert_eq!(trits_to_int(&[]), 0);
    assert_eq!(add(&[], &[]), Some(vec![]));
    assert_eq!(mul(&[], &[]), Some(vec![]));
}

#[test]
fn codec_extremes_of_i128() {
    assert_eq!(max_magnitude(80), Some(73_904_414_707_172_961_658_041_605_103_191_648_800));
    let t = int_to_trits(i128::MAX, 81).unwrap();
    assert_eq!(t.len(), 81);
    assert_eq!(int_to_trits(i128::MAX, 80), None);
    let u = int_to_trits(i128::MIN + 2, 81).unwrap();
    assert_eq!(u.len(), 81);
    let short = int_to_trits(-1_000_000_007, 80).unwrap();
    assert_eq!(trits_to_int(&short), -1_000_000_007);
}

#[test]
fn fixed_width_exact_results() {
    let five = int_to_trits(5, 3).unwrap();
    assert_eq!(five, vec![Pos, Neg, Neg]);
    let four = int_to_trits(4, 3).unwrap();
    assert_eq!(add(&five, &four), Some(vec![Pos, Zero, Zero]));
    assert_eq!(sub(&five, &four), Some(vec![Zero, Zero, Pos]));
    assert_eq!(neg(&five), vec![Neg, Pos, Pos]);
    let two = int_to_trits(2, 3).unwrap();
    assert_eq!(mul(&five, &two), Some(vec![Pos, Zero, Pos]));
    let thirteen = int_to_trits(13, 3).unwrap();
    assert_eq!(add(&thirteen, &int_to_trits(1, 3).unwrap()), None);
    assert_eq!(sub(&neg(&thirteen), &int_to_trits(1, 3).unwrap()), None);
    assert_eq!(mul(&five, &four), None);
}

#[test]
fn big_ternary_exact_digits() {
    let b = BigTernary::from_i128(5);
    assert_eq!(b.digits(), &[Neg, Neg, Pos][..]);
    assert_eq!(b.width(), 3);
    assert!(!b.is_zero());
    assert_eq!(b.neg().digits(), &[Pos, Pos, Neg][..]);
    assert_eq!(BigTernary::default(), BigTernary::zero());
}

#[test]
fn big_ternary_canonicalizes_input() {
    let b = BigTernary::from_trits_lsf(vec![Pos, Zero, Zero, Zero]);
    assert_eq!(b.digits(), &[Pos][..]);
    assert_eq!(b, BigTernary::from_i128(1));
    let z = BigTernary::from_trits_lsf(vec![Zero, Zero]);
    assert!(z.is_zero());
    assert_eq!(z.width(), 0);
}

#[test]
fn big_ternary_i128_extremes() {
    for v in [i128::MIN, i128::MIN + 1, i128::MAX, i128::MAX - 1] {
        assert_eq!(BigTernary::from_i128(v).to_i128(), Some(v));
    }
    let over = BigTernary::from_i128(i128::MAX).add(&BigTernary::from_i128(1));
    assert_eq!(over.to_i128(), None);
    let under = BigTernary::from_i128(i128::MIN).sub(&BigTernary::from_i128(1));
    assert_eq!(under.to_i128(), None);
    let mut big = BigTernary::from_i128(1);
    let three = BigTernary::from_i128(3);
    for _ in 0..81 {
        big = big.mul(&three);
    }
    assert_eq!(big.width(), 82);
    assert_eq!(big.to_i128(), None);
    assert_eq!(big.neg().to_i128(), None);
}

#[test]
fn big_ternary_exact_arithmetic() {
    let a = BigTernary::from_i128(123_456_789);
    let b = BigTernary::from_i128(-987_654);
    assert_eq!(a.add(&b).to_i128(), Some(123_456_789 - 987_654));
    assert_eq!(a.sub(&b).to_i128(), Some(123_456_789 + 987_654));
    assert_eq!(a.mul(&b).to_i128(), Some(-123_456_789i128 * 987_654));
    assert_eq!(a.add(&b), b.add(&a));
    assert_eq!(a.mul(&b), b.mul(&a));
    assert_eq!(a.sub(&a), BigTernary::zero());
}

#[test]
fn fixed_width_boundary() {
    let f = BigTernary::from_i128(4).checked_to_width(5).unwrap();
    assert_eq!(f.trits, vec![Pos, Pos, Zero, Zero, Zero]);
    assert_eq!(f.to_big(), BigTernary::from_i128(4));
    assert_eq!(BigTernary::zero().checked_to_width(0), Some(FixedWidthTrits { trits: vec![] }));
    let a = FixedWidthTrits { trits: vec![Pos, Pos] };
    let b = FixedWidthTrits { trits: vec![Neg, Neg] };
    assert_eq!(checked_add_fixed(&a, &b), Some(FixedWidthTrits { trits: vec![Zero, Zero] }));
    assert_eq!(checked_add_fixed(&a, &a), None);
    assert_eq!(checked_add_fixed(&b, &b), None);
}

#[test]
fn representations_agree_across_digit_orders() {
    let msb: Vec<Trit> = int_to_trits(-78, 6).unwrap();
    let lsf: Vec<Trit> = msb.iter().rev().copied().collect();
    assert_eq!(BigTernary::from_trits_lsf(lsf).to_i128(), Some(-78));
}
