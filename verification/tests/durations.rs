use crispy_code::dur::{bar, Dur, half};
use crispy_code::parse::ParseError;

#[test]
fn dur_test_dur_reduce() {
    let third = Dur::new(3, 9);
    assert_eq!(third.reduce(), Dur::new(1, 3));
}

#[test]
fn dur_test_dur_add() {
    let half = Dur::new(1, 2);
    let third = Dur::new(1, 3);
    assert_eq!(half + third, Dur::new(5, 6));
}

#[test]
fn dur_test_dur_sub() {
    let half = Dur::new(1, 2);
    let third = Dur::new(1, 3);
    assert_eq!(half - third, Dur::new(1, 6));
}

#[test]
fn dur_test_dur_mul() {
    let half = Dur::new(1, 2);
    let third = Dur::new(2, 7);
    assert_eq!(half * third, Dur::new(2, 14));
}

#[test]
fn dur_test_dur_div() {
    let half = Dur::new(1, 2);
    let third = Dur::new(1, 3);
    assert_eq!(half / third, Dur::new(3, 2));
}

#[test]
fn dur_test_dur_div_int() {
    let half = Dur::new(1, 2);
    assert_eq!(half.div_int(3 as i64), Dur::new(1, 6));
}

#[test]
fn test_dur_reduce() {
    let third = Dur::new(3, 9);
    assert_eq!(third.reduce(), Dur::new(1, 3));
}

#[test]
fn test_dur_add() {
    let half = Dur::new(1, 2);
    let third = Dur::new(1, 3);
    assert_eq!(half + third, Dur::new(5, 6));
}

#[test]
fn test_dur_sub() {
    let half = Dur::new(1, 2);
    let third = Dur::new(1, 3);
    assert_eq!(half - third, Dur::new(1, 6));
}

#[test]
fn test_dur_mul() {
    let half = Dur::new(1, 2);
    let third = Dur::new(2, 7);
    assert_eq!(half * third, Dur::new(1, 7));
}

#[test]
fn test_dur_div() {
    let half = Dur::new(1, 2);
    let third = Dur::new(1, 3);
    assert_eq!(half / third, Dur::new(3, 2));
}

#[test]
fn test_dur_div_int() {
    let half = Dur::new(1, 2);
    assert_eq!(half.div_int(3 as i64), Dur::new(1, 6));
}

#[test]
fn dur_test_fractional_duration_clone() {
    let dur = Dur { num: 1, den: 4 };
    let clone = dur.clone();
    assert_eq!(dur, clone);
}

fn gcd(a: i64, b: i64) -> i64 {
    if b == 0 {
        a.abs()
    } else {
        gcd(b, a % b)
    }
}

fn assert_lowest_terms(d: Dur) {
    assert!(d.den > 0, "{:?}", d);
    assert_eq!(gcd(d.num, d.den), 1, "{:?}", d);
}

#[test]
fn every_operation_gives_lowest_terms() {
    let values = vec![
        Dur { num: 2, den: 4 },
        Dur { num: 6, den: -8 },
        Dur { num: -9, den: 12 },
        Dur { num: 0, den: 7 },
        Dur { num: 5, den: 1 },
        Dur { num: 10, den: 15 },
    ];
    for a in &values {
        assert_lowest_terms(a.reduce());
        assert_lowest_terms(Dur::new(a.num, a.den));
        assert_lowest_terms(a.div_int(6));
        assert_lowest_terms(*a * 4);
        if a.num != 0 {
            assert_lowest_terms(a.recip());
        }
        for b in &values {
            assert_lowest_terms(*a + *b);
            assert_lowest_terms(*a - *b);
            assert_lowest_terms(*a * *b);
            if b.num != 0 {
                assert_lowest_terms(*a / *b);
            }
        }
    }
}

#[test]
fn lowest_terms_carry_the_sign_in_the_numerator() {
    assert_eq!(Dur::new(6, 9), Dur { num: 2, den: 3 });
    assert_eq!(Dur::new(6, -8), Dur { num: -3, den: 4 });
    assert_eq!(Dur::new(-6, -8), Dur { num: 3, den: 4 });
    assert_eq!(Dur::new(0, -5), Dur { num: 0, den: 1 });
    assert_eq!(Dur { num: 4, den: 6 }.reduce(), Dur { num: 2, den: 3 });
    assert_eq!(Dur::new(3, 4).recip(), Dur { num: 4, den: 3 });
    assert_eq!(Dur::new(-3, 4).recip(), Dur { num: -4, den: 3 });
}

#[test]
fn sums_go_over_the_least_common_multiple() {
    assert_eq!(Dur::new(1, 4) + Dur::new(1, 6), Dur { num: 5, den: 12 });
    assert_eq!(Dur::new(1, 4) - Dur::new(1, 6), Dur { num: 1, den: 12 });
    assert_eq!(Dur { num: 2, den: 4 } + Dur { num: 2, den: 4 }, Dur { num: 1, den: 1 });
    assert_eq!(Dur { num: 1, den: -2 } + Dur { num: 1, den: 3 }, Dur { num: -1, den: 6 });
    assert_eq!(Dur::new(1, 3) - Dur::new(1, 3), Dur { num: 0, den: 1 });
}

#[test]
fn products_and_quotients() {
    assert_eq!(Dur::new(2, 3) * Dur::new(3, 4), Dur { num: 1, den: 2 });
    assert_eq!(Dur::new(2, 3) / Dur::new(4, 9), Dur { num: 3, den: 2 });
    assert_eq!(Dur::new(2, 3) / Dur::new(-4, 9), Dur { num: -3, den: 2 });
    assert_eq!(Dur::new(3, 8) * 4, Dur { num: 3, den: 2 });
    assert_eq!(Dur::new(3, 8) * -4, Dur { num: -3, den: 2 });
    assert_eq!(Dur::new(3, 4).div_int(6), Dur { num: 1, den: 8 });
    assert_eq!(bar() * 2, Dur { num: 2, den: 1 });
    assert_eq!(half(), Dur { num: 1, den: 2 });
}

#[test]
fn a_zero_denominator_is_an_invalid_duration() {
    assert_eq!(Dur::try_new(1, 0), Err(ParseError::InvalidDuration));
    assert_eq!(Dur::try_new(0, 0), Err(ParseError::InvalidDuration));
    assert_eq!(Dur::try_new(4, 8), Ok(Dur { num: 1, den: 2 }));
    assert_eq!(Dur::try_new(i64::MIN, 2), Ok(Dur { num: i64::MIN / 2, den: 1 }));
    // lowest terms that do not fit
    assert_eq!(Dur::try_new(i64::MIN, 1), Err(ParseError::InvalidDuration));
    assert_eq!(Dur::try_new(1, i64::MIN), Err(ParseError::InvalidDuration));
}

#[test]
fn checked_operations_say_when_the_result_does_not_fit() {
    let big = Dur { num: i64::MAX, den: 1 };
    let tiny = Dur { num: 1, den: i64::MAX };
    assert_eq!(big.checked_add(big), None);
    assert_eq!(big.checked_mul(big), None);
    assert_eq!(tiny.checked_mul(tiny), None);
    assert_eq!(tiny.checked_div_int(2), None);
    assert_eq!(tiny.checked_div_count(2), None);
    assert_eq!(big.checked_mul_int(2), None);
    assert_eq!(big.checked_div(tiny), None);
    assert_eq!(big.checked_sub(Dur { num: -1, den: 1 }), None);
    assert_eq!(big.checked_mul(tiny), Some(Dur { num: 1, den: 1 }));
    assert_eq!(big.checked_sub(big), Some(Dur { num: 0, den: 1 }));
    assert_eq!(big.checked_add(Dur { num: -1, den: 1 }), Some(Dur { num: i64::MAX - 1, den: 1 }));
    assert_eq!(tiny.checked_div_int(0), None);
    assert_eq!(tiny.checked_div_count(0), None);
    assert_eq!(Dur { num: 1, den: 0 }.checked_mul(big), None);
    assert_eq!(big.checked_div(Dur { num: 0, den: 1 }), None);
    assert_eq!(Dur::new(1, 2).checked_div_count(3), Some(Dur { num: 1, den: 6 }));
}
