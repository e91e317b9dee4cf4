//! Behaviour of the balanced-ternary codec, the fixed-width arithmetic and the growable
//! `BigTernary`, checked against integer oracles.

use lib::ternary::{
    add, add_with_carry, checked_add_fixed, digit, int_to_trits, max_magnitude, mul, neg, sub,
    trits_to_int, BigTernary,
};
use lib::value::Trit;

#[test]
fn add_with_carry_is_exhaustively_correct() {
    for a in [Trit::Neg, Trit::Zero, Trit::Pos] {
        for b in [Trit::Neg, Trit::Zero, Trit::Pos] {
            for c in [Trit::Neg, Trit::Zero, Trit::Pos] {
                let (d, carry) = add_with_carry(a, b, c);
                assert_eq!(
                    digit(a) + digit(b) + digit(c),
                    digit(d) + 3 * digit(carry),
                    "full-adder identity for ({a:?}, {b:?}, {c:?})"
                );
            }
        }
    }
}

fn each_in_range(m: u32, mut f: impl FnMut(i128, Vec<Trit>)) {
    let max = max_magnitude(m).unwrap();
    for v in -max..=max {
        f(v, int_to_trits(v, m).expect("in range"));
    }
}

#[test]
fn worked_example_matches_spec() {
    let t = int_to_trits(-78, 6).unwrap();
    assert_eq!(
        t,
        vec![
            Trit::Zero,
            Trit::Neg,
            Trit::Zero,
            Trit::Zero,
            Trit::Pos,
            Trit::Zero
        ]
    );
    assert_eq!(trits_to_int(&t), -78);
}

#[test]
fn range_is_symmetric() {
    assert_eq!(max_magnitude(1), Some(1));
    assert_eq!(max_magnitude(6), Some(364));
    assert_eq!(int_to_trits(365, 6), None);
    assert_eq!(int_to_trits(-365, 6), None);
}

#[test]
fn codec_round_trips_exhaustively() {
    for m in 1..=5 {
        each_in_range(m, |v, t| {
            assert_eq!(t.len(), m as usize);
            assert_eq!(trits_to_int(&t), v, "round-trip at m={m}");
        });
    }
}

#[test]
fn neg_is_value_negation() {
    for m in 1..=5 {
        each_in_range(m, |v, t| {
            assert_eq!(trits_to_int(&neg(&t)), -v, "neg at m={m}");
        });
    }
}

#[test]
fn add_matches_integer_oracle() {
    for m in 1..=4 {
        let max = max_magnitude(m).unwrap();
        for x in -max..=max {
            for y in -max..=max {
                let a = int_to_trits(x, m).unwrap();
                let b = int_to_trits(y, m).unwrap();
                let got = add(&a, &b);
                let expected = x + y;
                if expected.abs() <= max {
                    assert_eq!(got, int_to_trits(expected, m), "add {x}+{y} at m={m}");
                } else {
                    assert_eq!(got, None, "add {x}+{y} should overflow at m={m}");
                }
            }
        }
    }
}

#[test]
fn sub_matches_integer_oracle() {
    for m in 1..=4 {
        let max = max_magnitude(m).unwrap();
        for x in -max..=max {
            for y in -max..=max {
                let a = int_to_trits(x, m).unwrap();
                let b = int_to_trits(y, m).unwrap();
                let got = sub(&a, &b);
                let expected = x - y;
                if expected.abs() <= max {
                    assert_eq!(got, int_to_trits(expected, m), "sub {x}-{y} at m={m}");
                } else {
                    assert_eq!(got, None, "sub {x}-{y} should overflow at m={m}");
                }
            }
        }
    }
}

#[test]
fn mul_matches_integer_oracle() {
    for m in 1..=4 {
        let max = max_magnitude(m).unwrap();
        for x in -max..=max {
            for y in -max..=max {
                let a = int_to_trits(x, m).unwrap();
                let b = int_to_trits(y, m).unwrap();
                let got = mul(&a, &b);
                let expected = x * y;
                if expected.abs() <= max {
                    assert_eq!(got, int_to_trits(expected, m), "mul {x}*{y} at m={m}");
                } else {
                    assert_eq!(got, None, "mul {x}*{y} should overflow at m={m}");
                }
            }
        }
    }
}

#[test]
fn unequal_widths_are_rejected() {
    let a = int_to_trits(1, 2).unwrap();
    let b = int_to_trits(1, 3).unwrap();
    assert_eq!(add(&a, &b), None);
    assert_eq!(sub(&a, &b), None);
    assert_eq!(mul(&a, &b), None);
}

#[test]
fn max_magnitude_succeeds_at_m41_and_beyond() {
    assert_eq!(max_magnitude(39), Some(2_026_277_576_509_488_133));
    assert_eq!(max_magnitude(40), Some(6_078_832_729_528_464_400));
    assert_eq!(max_magnitude(41), Some(18_236_498_188_585_393_201));
    assert!(max_magnitude(80).is_some());
    assert_eq!(max_magnitude(81), None);
}

#[test]
fn m41_round_trip_covers_the_full_binary64_range() {
    let m = 41u32;
    for v in [
        i64::MIN,
        i64::MIN + 1,
        -1,
        0,
        1,
        i64::MAX - 1,
        i64::MAX,
        7_000_000_000_000_000_000,
        -7_000_000_000_000_000_000,
    ] {
        let value = i128::from(v);
        let trits = int_to_trits(value, m).unwrap_or_else(|| panic!("{v} must fit in {m} trits"));
        assert_eq!(trits.len(), m as usize);
        assert_eq!(trits_to_int(&trits), value, "round-trip at m={m} for v={v}");
    }
}

#[test]
fn m41_all_plus_exceeds_binary64_range() {
    let all_plus = vec![Trit::Pos; 41];
    let decoded = trits_to_int(&all_plus);
    assert_eq!(decoded, max_magnitude(41).unwrap());
    assert!(
        decoded > i128::from(i64::MAX),
        "the all-+ 41-trit value must exceed the i64 range"
    );
}

const WIDE: u32 = 60;

#[test]
fn add_matches_the_integer_oracle_at_wide_width() {
    for x in [-1000i128, -500, -1, 0, 1, 500, 1000] {
        for y in [-1000i128, -500, -1, 0, 1, 500, 1000] {
            let a = int_to_trits(x, WIDE).expect("small value fits WIDE trits");
            let b = int_to_trits(y, WIDE).expect("small value fits WIDE trits");
            let got = add(&a, &b).expect("small sums stay well within WIDE trits' range");
            assert_eq!(
                trits_to_int(&got),
                x + y,
                "add({x}, {y}) at width {WIDE} must match the integer oracle"
            );
        }
    }
}

#[test]
fn mul_matches_the_integer_oracle_at_wide_width() {
    for x in -50i128..=50 {
        for y in [-50i128, -10, -1, 0, 1, 10, 50] {
            let a = int_to_trits(x, WIDE).expect("small value fits WIDE trits");
            let b = int_to_trits(y, WIDE).expect("small value fits WIDE trits");
            let got = mul(&a, &b).expect("small products stay well within WIDE trits' range");
            assert_eq!(
                trits_to_int(&got),
                x * y,
                "mul({x}, {y}) at width {WIDE} must match the integer oracle"
            );
        }
    }
}

#[test]
fn neg_matches_the_integer_oracle_at_wide_width() {
    for x in [-1000i128, -500, -1, 0, 1, 500, 1000] {
        let a = int_to_trits(x, WIDE).expect("small value fits WIDE trits");
        let got = neg(&a);
        assert_eq!(
            trits_to_int(&got),
            -x,
            "neg({x}) at width {WIDE} must match the oracle"
        );
    }
}

#[test]
fn add_operates_structurally_at_200_trits_far_past_any_oracle() {
    let n = 200usize;
    let a = vec![Trit::Zero; n];
    let mut b = vec![Trit::Zero; n];
    *b.last_mut().expect("n > 0") = Trit::Pos;
    let sum = add(&a, &b).expect("0 + 1 must be in range at any width");
    assert_eq!(sum.len(), n, "add must preserve width");
    assert_eq!(
        trits_to_int(&sum[(n - 10)..]),
        1,
        "the low 10 digits, read on their own, must equal 1"
    );
    assert!(
        sum[..(n - 10)].iter().all(|&t| t == Trit::Zero),
        "every digit above the low 10 must stay Zero"
    );
}

fn bt(v: i128) -> BigTernary {
    BigTernary::from_i128(v)
}

#[test]
fn roundtrip_i128() {
    for v in [-1_000_000i128, -42, -1, 0, 1, 13, 14, 364, 365, 9_999_999] {
        assert_eq!(bt(v).to_i128(), Some(v), "roundtrip {v}");
    }
}

#[test]
fn big_ternary_add_matches_integer() {
    for a in [-50i128, -1, 0, 7, 121] {
        for b in [-121i128, -7, 0, 1, 50] {
            assert_eq!(bt(a).add(&bt(b)).to_i128(), Some(a + b), "{a}+{b}");
        }
    }
}

#[test]
fn big_ternary_sub_matches_integer() {
    for a in [-50i128, -1, 0, 7, 121] {
        for b in [-121i128, -7, 0, 1, 50] {
            assert_eq!(bt(a).sub(&bt(b)).to_i128(), Some(a - b), "{a}-{b}");
        }
    }
}

#[test]
fn big_ternary_mul_matches_integer() {
    for a in [-40i128, -3, 0, 1, 27] {
        for b in [-27i128, -1, 0, 3, 40] {
            assert_eq!(bt(a).mul(&bt(b)).to_i128(), Some(a * b), "{a}*{b}");
        }
    }
}

#[test]
fn big_ternary_negation_round_trips() {
    for v in [-9_999i128, -7, -1, 0, 1, 42, 365] {
        assert_eq!(bt(v).neg().to_i128(), Some(-v), "neg {v}");
        assert_eq!(bt(v).neg().neg(), bt(v), "double-neg {v}");
    }
}

#[test]
fn big_ternary_zero_is_canonical_empty() {
    assert!(BigTernary::zero().is_zero());
    assert_eq!(BigTernary::zero().width(), 0);
    assert_eq!(bt(0), BigTernary::zero());
    assert_eq!(bt(0).to_i128(), Some(0));
    assert_eq!(bt(1).add(&bt(-1)), BigTernary::zero());
}

#[test]
fn big_ternary_beyond_40_trits_is_exact_not_silent() {
    let mut x = BigTernary::from_i128(1);
    let three = BigTernary::from_i128(3);
    for _ in 0..41 {
        x = x.mul(&three);
    }
    assert_eq!(x.width(), 42);
    assert_eq!(x.to_i128(), Some(3i128.pow(41)));
}

#[test]
fn big_ternary_fixed_width_overflow_is_none() {
    let a = bt(13).checked_to_width(3).unwrap();
    let one = bt(1).checked_to_width(3).unwrap();
    assert_eq!(checked_add_fixed(&a, &one), None);
    let six = bt(6).checked_to_width(3).unwrap();
    let r = checked_add_fixed(&six, &six).unwrap();
    assert_eq!(r.to_big().to_i128(), Some(12));
}

#[test]
fn big_ternary_narrowing_is_never_silent() {
    assert!(bt(13).checked_to_width(3).is_some());
    assert!(bt(14).checked_to_width(3).is_none());
}

#[test]
fn big_agrees_with_fixed_width_add_in_range() {
    let m = 4u32;
    let max = max_magnitude(m).unwrap();
    for x in -max..=max {
        for y in -max..=max {
            let big = BigTernary::from_i128(x + y);
            let a = int_to_trits(x, m).unwrap();
            let b = int_to_trits(y, m).unwrap();
            match add(&a, &b) {
                Some(s) => {
                    assert_eq!(big.to_i128(), Some(trits_to_int(&s)), "{x}+{y}");
                }
                None => assert!(big.width() > m as usize, "{x}+{y} should exceed width {m}"),
            }
        }
    }
}
