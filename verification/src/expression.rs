use vstd::prelude::*;

use crate::text::{chars_of, decimal, push_char, push_decimal, push_str};

verus! {

/// The sign of a fraction; zero is always `Plus`.
#[derive(Clone, Copy, Debug, PartialEq, Eq, Structural)]
pub enum Sign {
    Plus,
    Minus,
}

/// A fraction as the expression evaluator hands it over: a sign with a
/// reduced ratio of unsigned 64-bit integers, an infinity, or not-a-number.
#[derive(Clone, Copy, Debug, PartialEq, Eq, Structural)]
pub enum Frac {
    Rational(Sign, u64, u64),
    Infinity(Sign),
    NaN,
}

/// The fraction that an integer converts to: its sign (`Plus` for zero) and
/// its magnitude over one.
pub open spec fn frac_of_int(v: int) -> Frac {
    if v < 0 {
        Frac::Rational(Sign::Minus, (-v) as u64, 1)
    } else {
        Frac::Rational(Sign::Plus, v as u64, 1)
    }
}

impl Frac {
    /// The fraction equal to a signed integer.
    pub fn from_i64(v: i64) -> (f: Frac)
        ensures
            f == frac_of_int(v as int),
    {
        if v < 0 {
            let m: u64 = (0i128 - (v as i128)) as u64;
            Frac::Rational(Sign::Minus, m, 1)
        } else {
            Frac::Rational(Sign::Plus, v as u64, 1)
        }
    }

    /// The fraction equal to an unsigned integer.
    pub fn from_u64(v: u64) -> (f: Frac)
        ensures
            f == frac_of_int(v as int),
    {
        Frac::Rational(Sign::Plus, v, 1)
    }
}

/// An integer type that a fraction may convert to.
pub trait FromFrac: Sized {
    /// The integer that `frac` converts to, if any.
    spec fn spec_from_frac(frac: Frac) -> Option<Self>;

    /// Converts `frac` to this integer type, if it holds one.
    fn from_frac(frac: &Frac) -> (r: Option<Self>)
        ensures
            r == Self::spec_from_frac(*frac),
    ;
}

impl FromFrac for u64 {
    /// A nonnegative whole fraction converts to its numerator.
    open spec fn spec_from_frac(frac: Frac) -> Option<u64> {
        match frac {
            Frac::Rational(Sign::Plus, n, d) => if d == 1 {
                Some(n)
            } else {
                None
            },
            _ => None,
        }
    }

    fn from_frac(frac: &Frac) -> (r: Option<u64>) {
        match frac {
            Frac::Rational(sign, n, d) => match sign {
                Sign::Plus => if *d == 1 {
                    Some(*n / *d)
                } else {
                    None
                },
                Sign::Minus => None,
            },
            _ => None,
        }
    }
}

impl FromFrac for i64 {
    /// A whole fraction whose magnitude fits in `i64` converts to that
    /// magnitude whatever its sign; magnitude 2^63 with a minus sign converts
    /// to `i64::MIN`.
    open spec fn spec_from_frac(frac: Frac) -> Option<i64> {
        match frac {
            Frac::Rational(sign, n, d) => if d != 1 {
                None
            } else if n <= i64::MAX {
                Some(n as i64)
            } else if n == 0x8000_0000_0000_0000u64 && sign == Sign::Minus {
                Some(i64::MIN)
            } else {
                None
            },
            _ => None,
        }
    }

    fn from_frac(frac: &Frac) -> (r: Option<i64>) {
        match frac {
            Frac::Rational(sign, n, d) => if *d == 1 {
                let num: u64 = *n / *d;
                if num <= 0x7fff_ffff_ffff_ffffu64 {
                    Some(num as i64)
                } else {
                    let minus = match sign {
                        Sign::Minus => true,
                        Sign::Plus => false,
                    };
                    if num == 0x8000_0000_0000_0000u64 && minus {
                        Some(i64::MIN)
                    } else {
                        None
                    }
                }
            } else {
                None
            },
            _ => None,
        }
    }
}

/// Converts a fraction to the integer type `T`, if it holds one.
pub fn to_integer<T: FromFrac>(frac: &Frac) -> (r: Option<T>)
    ensures
        r == T::spec_from_frac(*frac),
{
    T::from_frac(frac)
}

/// Every unsigned integer converts back from its fraction.
pub proof fn lemma_u64_round_trip(v: u64)
    ensures
        <u64 as FromFrac>::spec_from_frac(frac_of_int(v as int)) == Some(v),
{
}

/// Every nonnegative signed integer, and `i64::MIN`, converts back from its
/// fraction.
pub proof fn lemma_i64_round_trip(v: i64)
    requires
        v >= 0 || v == i64::MIN,
    ensures
        <i64 as FromFrac>::spec_from_frac(frac_of_int(v as int)) == Some(v),
{
}

/// Why an expression could not be read. Positions are byte offsets into the
/// expression.
#[derive(Clone, Debug, PartialEq, Eq)]
pub enum ParseError {
    /// An operand was expected; the character found instead, if any.
    ExceptedExpr(Option<char>, usize),
    /// An operator or a closing parenthesis was expected.
    ExceptedOp(char, usize),
    /// A closing parenthesis without its opening one.
    InvalidCloseParenthese(usize),
    /// Parentheses left open at the end.
    UncloseParentheses,
    /// A number too large to hold; its digits.
    Overflow(String),
}

/// Why a well-formed expression could not be evaluated.
#[derive(Clone, Copy, Debug, PartialEq, Eq, Structural)]
pub enum EvaluationError {
    ZeroDivision,
    Overflow,
}

/// Why `calc` failed: a parse error together with the expression, or an
/// evaluation error.
#[derive(Clone, Debug, PartialEq, Eq)]
pub enum ExpressionError {
    Parse(ParseError, String),
    Evaluation(EvaluationError),
}

impl From<(ParseError, String)> for ExpressionError {
    fn from(v: (ParseError, String)) -> (r: Self) {
        ExpressionError::Parse(v.0, v.1)
    }
}

impl vstd::std_specs::convert::FromSpecImpl<(ParseError, String)> for ExpressionError {
    open spec fn obeys_from_spec() -> bool {
        true
    }

    open spec fn from_spec(v: (ParseError, String)) -> Self {
        ExpressionError::Parse(v.0, v.1)
    }
}

impl From<EvaluationError> for ExpressionError {
    fn from(v: EvaluationError) -> (r: Self) {
        ExpressionError::Evaluation(v)
    }
}

impl vstd::std_specs::convert::FromSpecImpl<EvaluationError> for ExpressionError {
    open spec fn obeys_from_spec() -> bool {
        true
    }

    open spec fn from_spec(v: EvaluationError) -> Self {
        ExpressionError::Evaluation(v)
    }
}

/// How many bytes UTF-8 takes for `c`.
pub open spec fn utf8_width(c: char) -> nat {
    let v = c as u32;
    if v < 0x80 {
        1
    } else if v < 0x800 {
        2
    } else if v < 0x10000 {
        3
    } else {
        4
    }
}

/// The number of characters of `s` that the first `at` bytes of its UTF-8
/// encoding hold, or `None` when `at` is not a character boundary of `s`.
pub open spec fn chars_before_byte(s: Seq<char>, at: nat) -> Option<nat>
    decreases s.len(),
{
    if at == 0 {
        Some(0)
    } else if s.len() == 0 || utf8_width(s[0]) > at {
        None
    } else {
        match chars_before_byte(s.drop_first(), (at - utf8_width(s[0])) as nat) {
            Some(k) => Some(k + 1),
            None => None,
        }
    }
}

/// The bytes taken by `c` in UTF-8.
fn utf8_width_of(c: char) -> (w: usize)
    ensures
        w == utf8_width(c),
{
    let v = c as u32;
    if v < 0x80 {
        1
    } else if v < 0x800 {
        2
    } else if v < 0x10000 {
        3
    } else {
        4
    }
}

/// The number of characters before byte offset `at` of `s`, or `None` when
/// `at` is not a character boundary of `s`.
pub fn char_count_before_byte(s: &str, at: usize) -> (r: Option<usize>)
    ensures
        match r {
            Some(k) => chars_before_byte(s@, at as nat) == Some(k as nat),
            None => chars_before_byte(s@, at as nat) is None,
        },
{
    let v = chars_of(s);
    let mut i: usize = 0;
    let mut left: usize = at;
    assert(v@.skip(0) =~= v@);
    while left > 0
        invariant
            v@ == s@,
            i <= v@.len(),
            chars_before_byte(s@, at as nat) == match chars_before_byte(
                v@.skip(i as int),
                left as nat,
            ) {
                Some(k) => Some((k + i) as nat),
                None => None,
            },
        decreases left,
    {
        if i == v.len() {
            return None;
        }
        let w = utf8_width_of(v[i]);
        if w > left {
            return None;
        }
        assert(v@.skip(i as int).drop_first() =~= v@.skip(i + 1));
        left = left - w;
        i = i + 1;
    }
    Some(i)
}

impl ParseError {
    /// Every byte offset held by the error is a character boundary of `raw`.
    pub open spec fn positions_valid(self, raw: Seq<char>) -> bool {
        match self {
            ParseError::ExceptedExpr(_, at) => chars_before_byte(raw, at as nat) is Some,
            ParseError::ExceptedOp(_, at) => chars_before_byte(raw, at as nat) is Some,
            ParseError::InvalidCloseParenthese(at) => chars_before_byte(raw, at as nat) is Some,
            _ => true,
        }
    }

    /// The explanation shown for the error in expression `raw`, positions
    /// counted in characters.
    pub open spec fn text(self, raw: Seq<char>) -> Seq<char> {
        match self {
            ParseError::ExceptedExpr(Some(c), at) => "式が期待されますが、文字'"@ + seq![c]
                + "'が見つかりました。("@ + decimal(chars_before_byte(raw, at as nat)->0)
                + "文字目)"@,
            ParseError::ExceptedExpr(None, at) => "式が期待されます。("@ + decimal(
                chars_before_byte(raw, at as nat)->0,
            ) + "文字目)"@,
            ParseError::ExceptedOp(c, at) => "演算子や閉じ括弧が期待されますが、文字'"@
                + seq![c] + "'が見つかりました。("@ + decimal(
                chars_before_byte(raw, at as nat)->0,
            ) + "文字目)"@,
            ParseError::InvalidCloseParenthese(at) => "対応する開き括弧がありません。("@
                + decimal(chars_before_byte(raw, at as nat)->0) + "文字目)"@,
            ParseError::UncloseParentheses => "括弧が閉じられていません。"@,
            ParseError::Overflow(digits) => "\""@ + digits@ + "\"は大きすぎて計算できません。"@,
        }
    }
}

impl EvaluationError {
    /// The explanation shown for the error.
    pub open spec fn text(self) -> Seq<char> {
        match self {
            EvaluationError::ZeroDivision => "途中計算にゼロ除算が発生しました。"@,
            EvaluationError::Overflow => "途中計算に算術オーバーフローが発生しました。"@,
        }
    }
}

impl ExpressionError {
    /// The positions held by a parse error are character boundaries of the
    /// expression it came with.
    pub open spec fn well_formed(self) -> bool {
        match self {
            ExpressionError::Parse(e, raw) => e.positions_valid(raw@),
            ExpressionError::Evaluation(_) => true,
        }
    }

    /// The explanation shown to the member.
    pub open spec fn text(self) -> Seq<char> {
        match self {
            ExpressionError::Parse(e, raw) => e.text(raw@),
            ExpressionError::Evaluation(e) => e.text(),
        }
    }

    /// Whether the error's positions are character boundaries, so that it
    /// can be explained.
    pub fn is_well_formed(&self) -> (b: bool)
        ensures
            b == self.well_formed(),
    {
        match self {
            ExpressionError::Parse(e, raw) => match e {
                ParseError::ExceptedExpr(_, at) => char_count_before_byte(raw.as_str(), *at).is_some(),
                ParseError::ExceptedOp(_, at) => char_count_before_byte(raw.as_str(), *at).is_some(),
                ParseError::InvalidCloseParenthese(at) => char_count_before_byte(
                    raw.as_str(),
                    *at,
                ).is_some(),
                _ => true,
            },
            ExpressionError::Evaluation(_) => true,
        }
    }

    /// The explanation shown to the member, in Japanese, with positions
    /// counted in characters from the start of the expression.
    pub fn message(&self) -> (out: String)
        requires
            self.well_formed(),
        ensures
            out@ == self.text(),
    {
        let mut out = String::new();
        match self {
            ExpressionError::Parse(e, raw) => match e {
                ParseError::ExceptedExpr(found, at) => {
                    let k = char_count_before_byte(raw.as_str(), *at).unwrap();
                    match found {
                        Some(c) => {
                            push_str(&mut out, "式が期待されますが、文字'");
                            push_char(&mut out, *c);
                            push_str(&mut out, "'が見つかりました。(");
                        },
                        None => {
                            push_str(&mut out, "式が期待されます。(");
                        },
                    }
                    push_decimal(&mut out, k as u64);
                    push_str(&mut out, "文字目)");
                },
                ParseError::ExceptedOp(c, at) => {
                    let k = char_count_before_byte(raw.as_str(), *at).unwrap();
                    push_str(&mut out, "演算子や閉じ括弧が期待されますが、文字'");
                    push_char(&mut out, *c);
                    push_str(&mut out, "'が見つかりました。(");
                    push_decimal(&mut out, k as u64);
                    push_str(&mut out, "文字目)");
                },
                ParseError::InvalidCloseParenthese(at) => {
                    let k = char_count_before_byte(raw.as_str(), *at).unwrap();
                    push_str(&mut out, "対応する開き括弧がありません。(");
                    push_decimal(&mut out, k as u64);
                    push_str(&mut out, "文字目)");
                },
                ParseError::UncloseParentheses => {
                    push_str(&mut out, "括弧が閉じられていません。");
                },
                ParseError::Overflow(digits) => {
                    push_str(&mut out, "\"");
                    push_str(&mut out, digits.as_str());
                    push_str(&mut out, "\"は大きすぎて計算できません。");
                },
            },
            ExpressionError::Evaluation(e) => match e {
                EvaluationError::ZeroDivision => {
                    push_str(&mut out, "途中計算にゼロ除算が発生しました。");
                },
                EvaluationError::Overflow => {
                    push_str(&mut out, "途中計算に算術オーバーフローが発生しました。");
                },
            },
        }
        out
    }
}

} // verus!
