use sumire_bot::expression::{
    char_count_before_byte, to_integer, EvaluationError, ExpressionError, Frac, ParseError, Sign,
};

#[test]
fn test() {
    assert_eq!(to_integer::<u64>(&Frac::from_i64(-1)), None);
    assert_eq!(to_integer::<u64>(&Frac::from_i64(0)), Some(0));
    assert_eq!(to_integer::<u64>(&Frac::from_u64(u64::MAX)), Some(u64::MAX));

    assert_eq!(to_integer::<i64>(&Frac::from_u64(2u64.pow(63))), None);
    assert_eq!(to_integer::<i64>(&Frac::from_i64(i64::MAX)), Some(i64::MAX));
    assert_eq!(to_integer::<i64>(&Frac::from_i64(i64::MIN)), Some(i64::MIN));
}

#[test]
fn fractions_that_are_not_whole_do_not_convert() {
    let half = Frac::Rational(Sign::Plus, 1, 2);
    assert_eq!(to_integer::<u64>(&half), None);
    assert_eq!(to_integer::<i64>(&half), None);
    assert_eq!(to_integer::<u64>(&Frac::NaN), None);
    assert_eq!(to_integer::<i64>(&Frac::Infinity(Sign::Minus)), None);
}

#[test]
fn negative_whole_fraction_converts_to_its_magnitude_as_i64() {
    assert_eq!(to_integer::<i64>(&Frac::from_i64(-5)), Some(5));
}

#[test]
fn integers_convert_with_their_sign() {
    assert_eq!(Frac::from_i64(-7), Frac::Rational(Sign::Minus, 7, 1));
    assert_eq!(Frac::from_i64(0), Frac::Rational(Sign::Plus, 0, 1));
    assert_eq!(Frac::from_i64(i64::MIN), Frac::Rational(Sign::Minus, 1u64 << 63, 1));
}

#[test]
fn byte_offsets_count_characters() {
    assert_eq!(char_count_before_byte("1+あ", 0), Some(0));
    assert_eq!(char_count_before_byte("1+あ", 2), Some(2));
    assert_eq!(char_count_before_byte("1+あ", 5), Some(3));
    assert_eq!(char_count_before_byte("1+あ", 3), None);
    assert_eq!(char_count_before_byte("1+あ", 6), None);
}

#[test]
fn parse_errors_are_explained_with_character_positions() {
    let e = ExpressionError::Parse(ParseError::ExceptedExpr(Some('*'), 4), "あ+*".to_string());
    assert!(e.is_well_formed());
    assert_eq!(e.message(), "式が期待されますが、文字'*'が見つかりました。(2文字目)");

    let e = ExpressionError::Parse(ParseError::ExceptedExpr(None, 2), "1+".to_string());
    assert_eq!(e.message(), "式が期待されます。(2文字目)");

    let e = ExpressionError::Parse(ParseError::ExceptedOp('x', 1), "1x".to_string());
    assert_eq!(e.message(), "演算子や閉じ括弧が期待されますが、文字'x'が見つかりました。(1文字目)");

    let e = ExpressionError::Parse(ParseError::InvalidCloseParenthese(0), ")".to_string());
    assert_eq!(e.message(), "対応する開き括弧がありません。(0文字目)");

    let e = ExpressionError::Parse(ParseError::UncloseParentheses, "(1".to_string());
    assert_eq!(e.message(), "括弧が閉じられていません。");

    let e = ExpressionError::Parse(ParseError::Overflow("99999999999999999999".to_string()), "x".to_string());
    assert_eq!(e.message(), "\"99999999999999999999\"は大きすぎて計算できません。");
}

#[test]
fn evaluation_errors_are_explained() {
    assert_eq!(ExpressionError::from(EvaluationError::ZeroDivision).message(), "途中計算にゼロ除算が発生しました。");
    assert_eq!(ExpressionError::from(EvaluationError::Overflow).message(), "途中計算に算術オーバーフローが発生しました。");
}

#[test]
fn a_position_inside_a_character_is_not_well_formed() {
    let e = ExpressionError::Parse(ParseError::InvalidCloseParenthese(1), "あ)".to_string());
    assert!(!e.is_well_formed());
}

#[test]
fn parse_error_converts_with_its_expression() {
    let e = ExpressionError::from((ParseError::UncloseParentheses, "(".to_string()));
    assert_eq!(e, ExpressionError::Parse(ParseError::UncloseParentheses, "(".to_string()));
}
