use sumire_bot::arith::{gcd_reply, gcd_values, lcm_reply, lcm_values, ratio_computable_check, ratio_reply};
use sumire_bot::expression::{Frac, Sign};

#[test]
fn gcd_of_values() {
    assert_eq!(gcd_values(&vec![12, -18, 30]), Some(6));
    assert_eq!(gcd_values(&vec![]), Some(0));
    assert_eq!(gcd_values(&vec![0, 0]), Some(0));
    assert_eq!(gcd_values(&vec![7]), Some(7));
    assert_eq!(gcd_values(&vec![-7]), Some(7));
}

#[test]
fn gcd_of_minimum_does_not_fit() {
    assert_eq!(gcd_values(&vec![4, i64::MIN]), None);
    assert_eq!(gcd_reply(&vec![i64::MIN]), "値が大きすぎて計算できませんでした。");
}

#[test]
fn gcd_reply_text() {
    assert_eq!(gcd_reply(&vec![12, 18]), "= 6");
    assert_eq!(gcd_reply(&vec![i64::MAX, i64::MAX]), "= 9223372036854775807");
}

#[test]
fn lcm_of_values() {
    assert_eq!(lcm_values(&vec![4, 6]), Some(12));
    assert_eq!(lcm_values(&vec![-4, 6]), Some(12));
    assert_eq!(lcm_values(&vec![]), Some(1));
    assert_eq!(lcm_values(&vec![3, 0, 5]), Some(0));
}

#[test]
fn lcm_overflow_is_reported() {
    assert_eq!(lcm_values(&vec![i64::MAX, 2]), None);
    assert_eq!(lcm_reply(&vec![i64::MAX, 2]), "値が大きすぎて計算できませんでした。");
    assert_eq!(lcm_values(&vec![i64::MIN]), None);
}

#[test]
fn lcm_reply_text() {
    assert_eq!(lcm_reply(&vec![2, 3, 4]), "= 12");
}

fn whole(v: i64) -> Frac {
    Frac::from_i64(v)
}

#[test]
fn ratio_of_integers_is_simplified() {
    assert_eq!(ratio_reply(&vec![whole(4), whole(6)]), "2 3");
    assert_eq!(ratio_reply(&vec![whole(-4), whole(6), whole(0)]), "-2 3 0");
}

#[test]
fn ratio_of_fractions_is_made_whole() {
    let half = Frac::Rational(Sign::Plus, 1, 2);
    let third = Frac::Rational(Sign::Plus, 1, 3);
    assert_eq!(ratio_reply(&vec![half, third]), "3 2");
}

#[test]
fn ratio_of_zeros_stays_zero() {
    assert_eq!(ratio_reply(&vec![whole(0), whole(0), whole(0)]), "0 0 0");
}

#[test]
fn ratio_with_too_large_denominators_overflows() {
    let a = Frac::Rational(Sign::Plus, 1, u64::MAX);
    let b = Frac::Rational(Sign::Plus, 1, u64::MAX - 1);
    assert_eq!(ratio_reply(&vec![a, b]), "算術オーバーフローが発生しました。");
}

#[test]
fn ratio_takes_fractions_in_lowest_terms() {
    let ok = vec![Frac::Rational(Sign::Plus, 1, 2), Frac::Rational(Sign::Plus, 1, 3)];
    assert!(ratio_computable_check(&ok));
    assert_eq!(ratio_reply(&ok), "3 2");
    let thirds = vec![Frac::Rational(Sign::Plus, 2, 3), Frac::Rational(Sign::Minus, 4, 9), Frac::Rational(Sign::Plus, 2, 1)];
    assert!(ratio_computable_check(&thirds));
    assert_eq!(ratio_reply(&thirds), "3 -2 9");
    assert!(!ratio_computable_check(&vec![Frac::Rational(Sign::Plus, 2, 4), Frac::Rational(Sign::Plus, 1, 2)]));
    assert!(!ratio_computable_check(&vec![Frac::Rational(Sign::Plus, 0, 2)]));
    assert!(ratio_computable_check(&vec![Frac::Rational(Sign::Plus, 0, 1)]));
    assert!(!ratio_computable_check(&vec![Frac::NaN]));
}
