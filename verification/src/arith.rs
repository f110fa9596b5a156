use vstd::prelude::*;

use crate::expression::{Frac, Sign};
use crate::text::{decimal, push_char, push_decimal, push_signed_decimal, push_str, signed_decimal};

verus! {

/// The greatest common divisor of two natural numbers (Euclid); `gcd(0, 0)` is 0.
pub open spec fn gcd_nat(a: nat, b: nat) -> nat
    decreases b,
{
    if b == 0 {
        a
    } else {
        gcd_nat(b, a % b)
    }
}

/// The least common multiple of two natural numbers, `a / gcd(a, b) * b`;
/// 0 when either is 0.
pub open spec fn lcm_nat(a: nat, b: nat) -> nat {
    if a == 0 {
        0
    } else {
        a / gcd_nat(a, b) * b
    }
}

/// The magnitude of a signed integer.
pub open spec fn magnitude(v: i64) -> nat {
    if v < 0 {
        (-v) as nat
    } else {
        v as nat
    }
}

/// The greatest common divisor of the magnitudes of `s` (0 for no values).
pub open spec fn gcd_of_magnitudes(s: Seq<i64>) -> nat
    decreases s.len(),
{
    if s.len() == 0 {
        0
    } else {
        gcd_nat(gcd_of_magnitudes(s.drop_last()), magnitude(s.last()))
    }
}

/// The least common multiple of the magnitudes of `s` (1 for no values).
pub open spec fn lcm_of_magnitudes(s: Seq<i64>) -> nat
    decreases s.len(),
{
    if s.len() == 0 {
        1
    } else {
        lcm_nat(lcm_of_magnitudes(s.drop_last()), magnitude(s.last()))
    }
}

/// The least common multiple of every prefix of `s` fits in `i64`.
pub open spec fn lcm_fits(s: Seq<i64>) -> bool {
    forall|k: int| 0 <= k <= s.len() ==> #[trigger] lcm_of_magnitudes(s.take(k)) <= i64::MAX
}

/// Taking the least common multiple value by value divides by zero, or takes
/// the magnitude of `i64::MIN`: after a prefix whose multiple is 0 comes a 0
/// or `i64::MIN`.
pub open spec fn lcm_breaks(s: Seq<i64>) -> bool {
    exists|k: int|
        0 <= k < s.len() && lcm_fits(s.take(k)) && #[trigger] lcm_of_magnitudes(s.take(k)) == 0
            && (s[k] == 0 || s[k] == i64::MIN)
}

/// For a positive second argument the divisor is at most that argument.
pub proof fn lemma_gcd_le_right(a: nat, b: nat)
    requires
        b > 0,
    ensures
        0 < gcd_nat(a, b) <= b,
    decreases b,
{
    assert(gcd_nat(a, b) == gcd_nat(b, a % b));
    if a % b != 0 {
        lemma_gcd_le_right(b, a % b);
    } else {
        assert(gcd_nat(b, 0) == b);
    }
}

/// For a positive first argument the divisor is positive and at most that argument.
pub proof fn lemma_gcd_le_left(a: nat, b: nat)
    requires
        a > 0,
    ensures
        0 < gcd_nat(a, b) <= a,
{
    if b > 0 {
        assert(gcd_nat(a, b) == gcd_nat(b, a % b));
        if a % b == 0 {
            assert(gcd_nat(b, 0) == b);
            assert(b <= a) by (nonlinear_arith)
                requires
                    a > 0,
                    b > 0,
                    a % b == 0,
            {
                assert(a == b * (a / b));
            }
        } else {
            lemma_gcd_le_right(b, a % b);
            assert(a % b <= a) by (nonlinear_arith)
                requires
                    b > 0,
            ;
        }
    }
}

/// `num::integer::gcd` on `i64`: the greatest common divisor of the two
/// magnitudes, never negative. It overflows (and panics in debug builds)
/// exactly when that divisor is 2^63, which `requires` leaves out.
#[verifier::external_body]
fn gcd_i64(a: i64, b: i64) -> (g: i64)
    requires
        gcd_nat(magnitude(a), magnitude(b)) <= i64::MAX,
    ensures
        g == gcd_nat(magnitude(a), magnitude(b)),
{
    num::integer::gcd(a, b)
}

/// `num::integer::gcd` on `u64`: the greatest common divisor of the two values.
#[verifier::external_body]
fn gcd_u64(a: u64, b: u64) -> (g: u64)
    ensures
        g == gcd_nat(a as nat, b as nat),
{
    num::integer::gcd(a, b)
}

/// The magnitude of `v`, or `None` for `i64::MIN`, whose magnitude does not fit.
fn checked_magnitude(v: i64) -> (r: Option<i64>)
    ensures
        r == if v == i64::MIN {
            None::<i64>
        } else {
            Some(magnitude(v) as i64)
        },
{
    if v == i64::MIN {
        None
    } else if v < 0 {
        Some(-v)
    } else {
        Some(v)
    }
}

/// The greatest common divisor of the magnitudes of `values` (0 for none),
/// or `None` when some value is `i64::MIN`, whose magnitude does not fit.
pub fn gcd_values(values: &Vec<i64>) -> (r: Option<i64>)
    ensures
        r == if values@.contains(i64::MIN) {
            None::<i64>
        } else {
            Some(gcd_of_magnitudes(values@) as i64)
        },
{
    let mut result: Option<i64> = Some(0);
    let mut i: usize = 0;
    while i < values.len()
        invariant
            i <= values@.len(),
            result == if values@.take(i as int).contains(i64::MIN) {
                None::<i64>
            } else {
                Some(gcd_of_magnitudes(values@.take(i as int)) as i64)
            },
            !values@.take(i as int).contains(i64::MIN) ==> gcd_of_magnitudes(values@.take(i as int))
                <= i64::MAX,
        decreases values@.len() - i,
    {
        let ghost prefix = values@.take(i as int);
        let ghost next = values@.take(i + 1);
        assert(next.drop_last() =~= prefix);
        assert(next.last() == values@[i as int]);
        let v = values[i];
        assert(next.contains(i64::MIN) <==> (prefix.contains(i64::MIN) || v == i64::MIN)) by {
            if next.contains(i64::MIN) {
                let j = choose|j: int| 0 <= j < next.len() && next[j] == i64::MIN;
                if j < i {
                    assert(prefix[j] == i64::MIN);
                }
            }
            if prefix.contains(i64::MIN) {
                let j = choose|j: int| 0 <= j < prefix.len() && prefix[j] == i64::MIN;
                assert(next[j] == i64::MIN);
            }
            if v == i64::MIN {
                assert(next[i as int] == i64::MIN);
            }
        }
        match (result, checked_magnitude(v)) {
            (Some(g), Some(m)) => {
                proof {
                    let gn = gcd_of_magnitudes(prefix);
                    let mn = magnitude(v);
                    if mn > 0 {
                        lemma_gcd_le_right(gn, mn);
                    } else if gn > 0 {
                        lemma_gcd_le_left(gn, mn);
                    }
                    assert(magnitude(g) == gn);
                    assert(magnitude(m) == mn);
                }
                result = Some(gcd_i64(g, m));
            },
            _ => {
                result = None;
            },
        }
        i += 1;
    }
    assert(values@.take(i as int) =~= values@);
    result
}

/// One step of taking least common multiples: the multiple of `acc` and the
/// magnitude of `v`, or `None` when it does not fit in `i64`.
fn lcm_step(acc: i64, v: i64) -> (r: Option<i64>)
    requires
        acc >= 0,
        !(acc == 0 && (v == 0 || v == i64::MIN)),
    ensures
        r == if lcm_nat(acc as nat, magnitude(v)) <= i64::MAX {
            Some(lcm_nat(acc as nat, magnitude(v)) as i64)
        } else {
            None::<i64>
        },
{
    let ghost an = acc as nat;
    let ghost vn = magnitude(v);
    proof {
        if an == 0 {
            lemma_gcd_le_right(an, vn);
        } else {
            lemma_gcd_le_left(an, vn);
        }
    }
    assert(magnitude(acc) == an);
    let g = gcd_i64(acc, v);
    let q: i64 = acc / g;
    assert(0 <= q <= acc) by (nonlinear_arith)
        requires
            acc >= 0,
            g > 0,
            q == acc / g,
    ;
    let product = q.checked_mul(v);
    let ghost whole = q * v;
    assert(lcm_nat(an, vn) == q * vn) by {
        assert(g == gcd_nat(an, vn));
        let ratio = an / gcd_nat(an, vn);
        assert(ratio == q);
        if an == 0 {
            assert(q == 0);
            assert(q * vn == 0) by (nonlinear_arith)
                requires
                    q == 0,
            ;
        } else {
            assert(lcm_nat(an, vn) == ratio * vn);
            assert(ratio * vn == q * vn) by (nonlinear_arith)
                requires
                    ratio == q,
            ;
        }
    }
    assert(q * vn == if whole < 0 { -whole } else { whole }) by (nonlinear_arith)
        requires
            q >= 0,
            whole == q * v,
            vn == (if v < 0 { -v } else { v as int }),
    ;
    match product {
        Some(p) => checked_magnitude(p),
        None => None,
    }
}

/// What the multiple of the leading values is after one more value.
proof fn lemma_lcm_prefix_step(s: Seq<i64>, i: int)
    requires
        0 <= i < s.len(),
    ensures
        lcm_of_magnitudes(s.take(i + 1)) == lcm_nat(lcm_of_magnitudes(s.take(i)), magnitude(s[i])),
        forall|k: int| 0 <= k <= i ==> #[trigger] s.take(i + 1).take(k) == s.take(i).take(k),
        s.take(i + 1).take(i + 1) == s.take(i + 1),
        s.take(i).take(i) == s.take(i),
        lcm_fits(s.take(i + 1)) <==> (lcm_fits(s.take(i)) && lcm_of_magnitudes(s.take(i + 1)) <= i64::MAX),
{
    let prefix = s.take(i);
    let next = s.take(i + 1);
    assert(next.drop_last() =~= prefix);
    assert(next.last() == s[i]);
    assert forall|k: int| 0 <= k <= i implies #[trigger] next.take(k) == prefix.take(k) by {
        assert(next.take(k) =~= prefix.take(k));
    }
    assert(next.take(i + 1) =~= next);
    assert(prefix.take(i) =~= prefix);
    if lcm_fits(next) {
        assert forall|k: int| 0 <= k <= prefix.len() implies #[trigger] lcm_of_magnitudes(prefix.take(k)) <= i64::MAX by {
            assert(next.take(k) == prefix.take(k));
            assert(lcm_of_magnitudes(next.take(k)) <= i64::MAX);
        }
        assert(lcm_of_magnitudes(next.take(i + 1)) <= i64::MAX);
    }
    if lcm_fits(prefix) && lcm_of_magnitudes(next) <= i64::MAX {
        assert forall|k: int| 0 <= k <= next.len() implies #[trigger] lcm_of_magnitudes(next.take(k)) <= i64::MAX by {
            if k <= i {
                assert(next.take(k) == prefix.take(k));
            }
        }
    }
}

/// The least common multiple of the magnitudes of `values` (1 for none), or
/// `None` when it, or the multiple of some leading part of the values, does
/// not fit in `i64`.
pub fn lcm_values(values: &Vec<i64>) -> (r: Option<i64>)
    requires
        !lcm_breaks(values@),
    ensures
        r == if lcm_fits(values@) {
            Some(lcm_of_magnitudes(values@) as i64)
        } else {
            None::<i64>
        },
{
    let mut result: Option<i64> = Some(1);
    let mut i: usize = 0;
    assert(values@.take(0) =~= Seq::<i64>::empty());
    assert(lcm_fits(values@.take(0))) by {
        assert forall|k: int| 0 <= k <= 0 implies #[trigger] lcm_of_magnitudes(values@.take(0).take(k)) <= i64::MAX by {
            assert(values@.take(0).take(k) =~= Seq::<i64>::empty());
        }
    }
    while i < values.len()
        invariant
            i <= values@.len(),
            !lcm_breaks(values@),
            result == if lcm_fits(values@.take(i as int)) {
                Some(lcm_of_magnitudes(values@.take(i as int)) as i64)
            } else {
                None::<i64>
            },
        decreases values@.len() - i,
    {
        proof {
            lemma_lcm_prefix_step(values@, i as int);
        }
        let v = values[i];
        match result {
            Some(acc) => {
                assert(lcm_fits(values@.take(i as int)));
                assert(lcm_of_magnitudes(values@.take(i as int)) <= i64::MAX) by {
                    assert(lcm_of_magnitudes(values@.take(i as int).take(i as int)) <= i64::MAX);
                }
                assert(!(acc == 0 && (v == 0 || v == i64::MIN))) by {
                    if acc == 0 && (v == 0 || v == i64::MIN) {
                        assert(lcm_breaks(values@));
                    }
                }
                result = lcm_step(acc, v);
            },
            None => {},
        }
        i += 1;
    }
    assert(values@.take(i as int) =~= values@);
    result
}

/// Whether taking the least common multiple of `values` value by value would
/// divide by zero or take the magnitude of `i64::MIN`.
pub fn lcm_breaks_check(values: &Vec<i64>) -> (b: bool)
    ensures
        b == lcm_breaks(values@),
{
    let mut result: Option<i64> = Some(1);
    let mut i: usize = 0;
    assert(values@.take(0) =~= Seq::<i64>::empty());
    assert(lcm_fits(values@.take(0))) by {
        assert forall|k: int| 0 <= k <= 0 implies #[trigger] lcm_of_magnitudes(values@.take(0).take(k)) <= i64::MAX by {
            assert(values@.take(0).take(k) =~= Seq::<i64>::empty());
        }
    }
    while i < values.len()
        invariant
            i <= values@.len(),
            forall|k: int|
                0 <= k < i ==> !(lcm_fits(values@.take(k)) && #[trigger] lcm_of_magnitudes(values@.take(k)) == 0
                    && (values@[k] == 0 || values@[k] == i64::MIN)),
            result == if lcm_fits(values@.take(i as int)) {
                Some(lcm_of_magnitudes(values@.take(i as int)) as i64)
            } else {
                None::<i64>
            },
        decreases values@.len() - i,
    {
        proof {
            lemma_lcm_prefix_step(values@, i as int);
        }
        let v = values[i];
        match result {
            Some(acc) => {
                assert(lcm_fits(values@.take(i as int)));
                assert(lcm_of_magnitudes(values@.take(i as int)) <= i64::MAX) by {
                    assert(lcm_of_magnitudes(values@.take(i as int).take(i as int)) <= i64::MAX);
                }
                if acc == 0 && (v == 0 || v == i64::MIN) {
                    assert(lcm_of_magnitudes(values@.take(i as int)) == 0);
                    return true;
                }
                result = lcm_step(acc, v);
            },
            None => {},
        }
        i += 1;
    }
    false
}

/// The numerator of a finite fraction.
pub open spec fn numer_of(f: Frac) -> nat {
    match f {
        Frac::Rational(_, n, _) => n as nat,
        _ => 0,
    }
}

/// The denominator of a finite fraction.
pub open spec fn denom_of(f: Frac) -> nat {
    match f {
        Frac::Rational(_, _, d) => d as nat,
        _ => 1,
    }
}

/// A fraction as the fraction library keeps it: finite, with a positive
/// denominator, in lowest terms.
pub open spec fn reduced(f: Frac) -> bool {
    f is Rational && denom_of(f) > 0 && gcd_nat(numer_of(f), denom_of(f)) == 1
}

/// Every value is a finite fraction in lowest terms.
pub open spec fn all_reduced(s: Seq<Frac>) -> bool {
    forall|i: int| 0 <= i < s.len() ==> reduced(#[trigger] s[i])
}

/// The greatest common divisor of the numerators (0 for no values).
pub open spec fn numer_gcd(s: Seq<Frac>) -> nat
    decreases s.len(),
{
    if s.len() == 0 {
        0
    } else {
        gcd_nat(numer_gcd(s.drop_last()), numer_of(s.last()))
    }
}

/// The least common multiple of the denominators (1 for no values).
pub open spec fn denom_lcm(s: Seq<Frac>) -> nat
    decreases s.len(),
{
    if s.len() == 0 {
        1
    } else {
        lcm_nat(denom_lcm(s.drop_last()), denom_of(s.last()))
    }
}

/// The least common multiple of the denominators of every prefix fits in `u64`.
pub open spec fn denom_lcm_fits(s: Seq<Frac>) -> bool {
    forall|k: int| 0 <= k <= s.len() ==> #[trigger] denom_lcm(s.take(k)) <= u64::MAX
}

/// The magnitude of `f * mul / div` for a fraction whose denominator divides `mul`.
pub open spec fn scaled_magnitude(f: Frac, mul: nat, div: nat) -> nat {
    numer_of(f) * (mul / denom_of(f)) / div
}

/// Scaling `f` by `mul` stays within `u64` before the division by the divisor.
pub open spec fn scales_in_range(s: Seq<Frac>, mul: nat) -> bool {
    forall|i: int| 0 <= i < s.len() ==> #[trigger] numer_of(s[i]) * (mul / denom_of(s[i])) <= u64::MAX
}

/// How one term of a simplified ratio is written: its sign, unless it is
/// zero, then its magnitude.
pub open spec fn term_text(f: Frac, mul: nat, div: nat) -> Seq<char> {
    let m = scaled_magnitude(f, mul, div);
    if f matches Frac::Rational(Sign::Minus, _, _) && m != 0 {
        seq!['-'] + decimal(m)
    } else {
        decimal(m)
    }
}

/// The terms of the simplified ratio, separated by single spaces.
pub open spec fn ratio_terms_text(s: Seq<Frac>, mul: nat, div: nat) -> Seq<char>
    decreases s.len(),
{
    if s.len() == 0 {
        seq![]
    } else if s.len() == 1 {
        term_text(s[0], mul, div)
    } else {
        ratio_terms_text(s.drop_last(), mul, div) + seq![' '] + term_text(s.last(), mul, div)
    }
}

/// `n` zeros separated by single spaces.
pub open spec fn zeros_text(n: nat) -> Seq<char>
    decreases n,
{
    if n == 0 {
        seq![]
    } else if n == 1 {
        seq!['0']
    } else {
        zeros_text((n - 1) as nat) + seq![' ', '0']
    }
}

/// The reply of the ratio command: the values multiplied by the least common
/// multiple of their denominators and divided by the greatest common divisor
/// of their numerators, or a notice when that multiple overflows.
pub open spec fn ratio_reply_text(s: Seq<Frac>) -> Seq<char> {
    if !denom_lcm_fits(s) {
        "算術オーバーフローが発生しました。"@
    } else if numer_gcd(s) == 0 {
        zeros_text(s.len())
    } else {
        ratio_terms_text(s, denom_lcm(s), numer_gcd(s))
    }
}

/// Scaling stays within `u64` wherever the reply is a list of terms.
pub open spec fn ratio_computable(s: Seq<Frac>) -> bool {
    &&& all_reduced(s)
    &&& (denom_lcm_fits(s) && numer_gcd(s) != 0) ==> scales_in_range(s, denom_lcm(s))
}

/// The multiple of the denominators and the divisor of the numerators.
fn ratio_scale(values: &Vec<Frac>) -> (r: (Option<u64>, u64))
    requires
        all_reduced(values@),
    ensures
        r.0 == if denom_lcm_fits(values@) {
            Some(denom_lcm(values@) as u64)
        } else {
            None::<u64>
        },
        r.1 == numer_gcd(values@),
{
    let mut mul: Option<u64> = Some(1);
    let mut div: u64 = 0;
    let mut i: usize = 0;
    assert(values@.take(0) =~= Seq::<Frac>::empty());
    while i < values.len()
        invariant
            i <= values@.len(),
            all_reduced(values@),
            mul == if denom_lcm_fits(values@.take(i as int)) {
                Some(denom_lcm(values@.take(i as int)) as u64)
            } else {
                None::<u64>
            },
            div == numer_gcd(values@.take(i as int)),
        decreases values@.len() - i,
    {
        let ghost prefix = values@.take(i as int);
        let ghost next = values@.take(i + 1);
        assert(next.drop_last() =~= prefix);
        assert(next.last() == values@[i as int]);
        assert forall|k: int| 0 <= k <= prefix.len() implies #[trigger] next.take(k) == prefix.take(k) by {
            assert(next.take(k) =~= prefix.take(k));
        }
        assert(next.take(i + 1) =~= next);
        assert(prefix.take(i as int) =~= prefix);
        let (n, d) = match values[i] {
            Frac::Rational(_, n, d) => (n, d),
            _ => {
                assert(values@[i as int] is Rational);
                (0, 1)
            },
        };
        assert(denom_of(values@[i as int]) > 0);
        div = gcd_u64(div, n);
        match mul {
            Some(m) => {
                assert(denom_lcm(prefix) <= u64::MAX) by {
                    assert(denom_lcm(prefix.take(i as int)) <= u64::MAX);
                }
                assert(m > 0) by {
                    if m == 0 {
                        assert(denom_lcm(prefix) == 0);
                        assert(false) by {
                            lemma_denom_lcm_positive(prefix);
                        }
                    }
                }
                proof {
                    lemma_gcd_le_left(m as nat, d as nat);
                }
                let g = gcd_u64(m, d);
                let q: u64 = m / g;
                assert(lcm_nat(m as nat, d as nat) == q * d);
                mul = q.checked_mul(d);
                match mul {
                    Some(_) => {
                        assert forall|k: int| 0 <= k <= next.len() implies #[trigger] denom_lcm(
                            next.take(k),
                        ) <= u64::MAX by {
                            if k <= i {
                                assert(next.take(k) == prefix.take(k));
                            }
                        }
                    },
                    None => {
                        assert(denom_lcm(next.take(i + 1)) > u64::MAX);
                    },
                }
            },
            None => {
                assert(!denom_lcm_fits(next)) by {
                    let k = choose|k: int|
                        0 <= k <= prefix.len() && !(#[trigger] denom_lcm(prefix.take(k))
                            <= u64::MAX);
                    assert(next.take(k) == prefix.take(k));
                }
            },
        }
        i += 1;
    }
    assert(values@.take(i as int) =~= values@);
    (mul, div)
}

/// The multiple of positive denominators is positive.
proof fn lemma_denom_lcm_positive(s: Seq<Frac>)
    requires
        all_reduced(s),
    ensures
        denom_lcm(s) > 0,
    decreases s.len(),
{
    if s.len() > 0 {
        let p = s.drop_last();
        assert forall|i: int| 0 <= i < p.len() implies (#[trigger] p[i] is Rational && denom_of(p[i]) > 0) by {
            assert(p[i] == s[i]);
        }
        lemma_denom_lcm_positive(p);
        let a = denom_lcm(p);
        let b = denom_of(s.last());
        assert(s[s.len() - 1] == s.last());
        lemma_gcd_le_left(a, b);
        let g = gcd_nat(a, b);
        assert(a / g >= 1) by (nonlinear_arith)
            requires
                0 < g <= a,
        ;
        assert(a / g * b > 0) by (nonlinear_arith)
            requires
                a / g >= 1,
                b > 0,
        ;
    }
}

/// Writes one scaled term.
fn push_term(out: &mut String, f: Frac, mul: u64, div: u64)
    requires
        f is Rational,
        denom_of(f) > 0,
        div > 0,
        numer_of(f) * ((mul as nat) / denom_of(f)) <= u64::MAX,
    ensures
        final(out)@ == old(out)@ + term_text(f, mul as nat, div as nat),
{
    match f {
        Frac::Rational(sign, n, d) => {
            let scaled: u64 = n * (mul / d);
            let m: u64 = scaled / div;
            let minus = match sign {
                Sign::Minus => true,
                Sign::Plus => false,
            };
            let ghost start = out@;
            if minus && m != 0 {
                push_char(out, '-');
            }
            push_decimal(out, m);
            assert(out@ =~= start + term_text(f, mul as nat, div as nat));
        },
        _ => {},
    }
}

/// Simplifies the ratio of the given values: multiplies each by the least
/// common multiple of the denominators and divides it by the greatest common
/// divisor of the numerators, giving whole terms separated by spaces; all
/// zeros stay zeros, and an overflowing multiple is reported.
pub fn ratio_reply(values: &Vec<Frac>) -> (out: String)
    requires
        ratio_computable(values@),
    ensures
        out@ == ratio_reply_text(values@),
{
    let (mul, div) = ratio_scale(values);
    let mut out = String::new();
    match mul {
        None => {
            push_str(&mut out, "算術オーバーフローが発生しました。");
        },
        Some(mul) => {
            assert(values@.take(values@.len() as int) =~= values@);
            assert(denom_lcm(values@.take(values@.len() as int)) <= u64::MAX);
            let mut i: usize = 0;
            while i < values.len()
                invariant
                    i <= values@.len(),
                    ratio_computable(values@),
                    denom_lcm_fits(values@),
                    mul == denom_lcm(values@),
                    div == numer_gcd(values@),
                    out@ == if div == 0 {
                        zeros_text(i as nat)
                    } else {
                        ratio_terms_text(values@.take(i as int), mul as nat, div as nat)
                    },
                decreases values@.len() - i,
            {
                let ghost before = out@;
                let ghost next = values@.take(i + 1);
                assert(next.drop_last() =~= values@.take(i as int));
                assert(next.last() == values@[i as int]);
                if i > 0 {
                    push_char(&mut out, ' ');
                }
                if div == 0 {
                    push_char(&mut out, '0');
                    assert(out@ =~= zeros_text((i + 1) as nat));
                } else {
                    assert(values@[i as int] is Rational && denom_of(values@[i as int]) > 0);
                    assert(numer_of(values@[i as int]) * ((mul as nat) / denom_of(values@[i as int]))
                        <= u64::MAX);
                    push_term(&mut out, values[i], mul, div);
                    if i == 0 {
                        assert(next.len() == 1);
                        assert(next[0] == values@[0]);
                        assert(out@ =~= ratio_terms_text(next, mul as nat, div as nat));
                    } else {
                        assert(out@ =~= ratio_terms_text(next, mul as nat, div as nat));
                    }
                }
                i += 1;
            }
            assert(values@.take(i as int) =~= values@);
        },
    }
    out
}

/// The reply to a computed value: `= <value>`, or a notice that the value
/// was too large.
pub open spec fn result_reply_text(r: Option<i64>) -> Seq<char> {
    match r {
        Some(v) => "= "@ + signed_decimal(v as int),
        None => "値が大きすぎて計算できませんでした。"@,
    }
}

/// Writes the reply to a computed value.
fn result_reply(r: Option<i64>) -> (out: String)
    ensures
        out@ == result_reply_text(r),
{
    let mut out = String::new();
    match r {
        Some(v) => {
            push_str(&mut out, "= ");
            push_signed_decimal(&mut out, v);
        },
        None => {
            push_str(&mut out, "値が大きすぎて計算できませんでした。");
        },
    }
    out
}

/// The reply of the gcd command for the given values.
pub fn gcd_reply(values: &Vec<i64>) -> (out: String)
    ensures
        out@ == result_reply_text(
            if values@.contains(i64::MIN) {
                None::<i64>
            } else {
                Some(gcd_of_magnitudes(values@) as i64)
            },
        ),
{
    result_reply(gcd_values(values))
}

/// The reply of the lcm command for the given values.
pub fn lcm_reply(values: &Vec<i64>) -> (out: String)
    requires
        !lcm_breaks(values@),
    ensures
        out@ == result_reply_text(
            if lcm_fits(values@) {
                Some(lcm_of_magnitudes(values@) as i64)
            } else {
                None::<i64>
            },
        ),
{
    result_reply(lcm_values(values))
}

/// The product `d * k`.
pub open spec fn product(d: int, k: int) -> int {
    d * k
}

/// `d` divides `n`.
pub open spec fn divides(d: int, n: int) -> bool {
    exists|k: int| #[trigger] product(d, k) == n
}

/// The divisor that Euclid's algorithm computes divides both arguments.
pub proof fn lemma_gcd_divides(a: nat, b: nat)
    ensures
        divides(gcd_nat(a, b) as int, a as int),
        divides(gcd_nat(a, b) as int, b as int),
    decreases b,
{
    let g = gcd_nat(a, b) as int;
    if b == 0 {
        assert(product(g, 1) == a as int);
        assert(product(g, 0) == b as int);
    } else {
        lemma_gcd_divides(b, a % b);
        assert(gcd_nat(a, b) == gcd_nat(b, a % b));
        let kb = choose|k: int| #[trigger] product(g, k) == b as int;
        let kr = choose|k: int| #[trigger] product(g, k) == (a % b) as int;
        vstd::arithmetic::div_mod::lemma_fundamental_div_mod(a as int, b as int);
        let q = a as int / b as int;
        assert(a as int == g * (kb * q + kr)) by (nonlinear_arith)
            requires
                a as int == b * q + (a % b) as int,
                b as int == g * kb,
                (a % b) as int == g * kr,
        ;
        assert(product(g, kb * q + kr) == a as int);
    }
}

/// Every common divisor of the arguments divides the divisor that Euclid's
/// algorithm computes.
pub proof fn lemma_gcd_greatest(a: nat, b: nat, d: int)
    requires
        divides(d, a as int),
        divides(d, b as int),
    ensures
        divides(d, gcd_nat(a, b) as int),
    decreases b,
{
    if b > 0 {
        let ka = choose|k: int| #[trigger] product(d, k) == a as int;
        let kb = choose|k: int| #[trigger] product(d, k) == b as int;
        vstd::arithmetic::div_mod::lemma_fundamental_div_mod(a as int, b as int);
        let q = a as int / b as int;
        assert((a % b) as int == d * (ka - kb * q)) by (nonlinear_arith)
            requires
                a as int == b * q + (a % b) as int,
                a as int == d * ka,
                b as int == d * kb,
        ;
        assert(product(d, ka - kb * q) == (a % b) as int);
        lemma_gcd_greatest(b, a % b, d);
    }
}

/// Divisibility is transitive.
proof fn lemma_divides_trans(a: int, b: int, c: int)
    requires
        divides(a, b),
        divides(b, c),
    ensures
        divides(a, c),
{
    let k1 = choose|k: int| #[trigger] product(a, k) == b;
    let k2 = choose|k: int| #[trigger] product(b, k) == c;
    assert(c == a * (k1 * k2)) by (nonlinear_arith)
        requires
            b == a * k1,
            c == b * k2,
    ;
    assert(product(a, k1 * k2) == c);
}

/// The divisor of a sequence of magnitudes divides each magnitude, and
/// every common divisor of the magnitudes divides it.
proof fn lemma_gcd_of_magnitudes(s: Seq<i64>)
    ensures
        forall|i: int| 0 <= i < s.len() ==> divides(gcd_of_magnitudes(s) as int, #[trigger] magnitude(s[i]) as int),
        forall|d: int|
            (forall|i: int| 0 <= i < s.len() ==> divides(d, #[trigger] magnitude(s[i]) as int)) ==> divides(
                d,
                gcd_of_magnitudes(s) as int,
            ),
    decreases s.len(),
{
    if s.len() == 0 {
        assert forall|d: int| true implies divides(d, gcd_of_magnitudes(s) as int) by {
            assert(product(d, 0) == 0);
        }
    } else {
        let p = s.drop_last();
        let gp = gcd_of_magnitudes(p);
        let m = magnitude(s.last());
        lemma_gcd_of_magnitudes(p);
        lemma_gcd_divides(gp, m);
        let g = gcd_of_magnitudes(s);
        assert forall|i: int| 0 <= i < s.len() implies divides(g as int, #[trigger] magnitude(s[i]) as int) by {
            if i < s.len() - 1 {
                assert(s[i] == p[i]);
                lemma_divides_trans(g as int, gp as int, magnitude(p[i]) as int);
            }
        }
        assert forall|d: int|
            (forall|i: int| 0 <= i < s.len() ==> divides(d, #[trigger] magnitude(s[i]) as int)) implies divides(
            d,
            g as int,
        ) by {
            assert forall|i: int| 0 <= i < p.len() implies divides(d, #[trigger] magnitude(p[i]) as int) by {
                assert(p[i] == s[i]);
            }
            assert(divides(d, magnitude(s[s.len() - 1]) as int));
            lemma_gcd_greatest(gp, m, d);
        }
    }
}

/// The gcd command answers with the greatest common divisor: whenever it
/// gives a value, that value divides every argument, and every number that
/// divides all the arguments divides it.
pub proof fn lemma_gcd_values_is_greatest(values: Seq<i64>)
    requires
        !values.contains(i64::MIN),
    ensures
        forall|i: int| 0 <= i < values.len() ==> divides(gcd_of_magnitudes(values) as int, #[trigger] magnitude(values[i]) as int),
        forall|d: int|
            (forall|i: int| 0 <= i < values.len() ==> divides(d, #[trigger] magnitude(values[i]) as int)) ==> divides(
                d,
                gcd_of_magnitudes(values) as int,
            ),
{
    lemma_gcd_of_magnitudes(values);
}

/// `a` and `b` both divide `lcm_nat(a, b)`.
pub proof fn lemma_lcm_is_common_multiple(a: nat, b: nat)
    ensures
        divides(a as int, lcm_nat(a, b) as int),
        divides(b as int, lcm_nat(a, b) as int),
{
    if a == 0 {
        assert(lcm_nat(a, b) == 0);
        assert(product(a as int, 0) == 0);
        assert(product(b as int, 0) == 0);
    } else {
        lemma_gcd_divides(a, b);
        lemma_gcd_le_left(a, b);
        let g = gcd_nat(a, b) as int;
        let ka = choose|k: int| #[trigger] product(g, k) == a as int;
        let kb = choose|k: int| #[trigger] product(g, k) == b as int;
        assert(a as int / g == ka) by (nonlinear_arith)
            requires
                a as int == g * ka,
                g > 0,
        ;
        assert(lcm_nat(a, b) as int == ka * b);
        assert(ka * b == a * kb) by (nonlinear_arith)
            requires
                a as int == g * ka,
                b as int == g * kb,
        ;
        assert(ka * b == b * ka) by (nonlinear_arith);
        assert(product(a as int, kb) == lcm_nat(a, b) as int);
        assert(product(b as int, ka) == lcm_nat(a, b) as int);
    }
}

/// The multiple of a sequence of magnitudes is a multiple of each magnitude.
proof fn lemma_lcm_of_magnitudes(s: Seq<i64>)
    ensures
        forall|i: int| 0 <= i < s.len() ==> divides(#[trigger] magnitude(s[i]) as int, lcm_of_magnitudes(s) as int),
    decreases s.len(),
{
    if s.len() > 0 {
        let p = s.drop_last();
        let lp = lcm_of_magnitudes(p);
        let m = magnitude(s.last());
        lemma_lcm_of_magnitudes(p);
        lemma_lcm_is_common_multiple(lp, m);
        let l = lcm_of_magnitudes(s);
        assert forall|i: int| 0 <= i < s.len() implies divides(#[trigger] magnitude(s[i]) as int, l as int) by {
            if i < s.len() - 1 {
                assert(s[i] == p[i]);
                lemma_divides_trans(magnitude(p[i]) as int, lp as int, l as int);
            }
        }
    }
}

/// The lcm command answers with a common multiple: whenever it gives a
/// value, every argument divides it.
pub proof fn lemma_lcm_values_is_common_multiple(values: Seq<i64>)
    ensures
        forall|i: int| 0 <= i < values.len() ==> divides(#[trigger] magnitude(values[i]) as int, lcm_of_magnitudes(values) as int),
{
    lemma_lcm_of_magnitudes(values);
}

/// The divisor of the numerators divides each numerator.
proof fn lemma_numer_gcd_divides(s: Seq<Frac>)
    ensures
        forall|i: int| 0 <= i < s.len() ==> divides(numer_gcd(s) as int, #[trigger] numer_of(s[i]) as int),
    decreases s.len(),
{
    if s.len() > 0 {
        let p = s.drop_last();
        let gp = numer_gcd(p);
        lemma_numer_gcd_divides(p);
        lemma_gcd_divides(gp, numer_of(s.last()));
        let g = numer_gcd(s);
        assert forall|i: int| 0 <= i < s.len() implies divides(g as int, #[trigger] numer_of(s[i]) as int) by {
            if i < s.len() - 1 {
                assert(s[i] == p[i]);
                lemma_divides_trans(g as int, gp as int, numer_of(p[i]) as int);
            }
        }
    }
}

/// The multiple of the denominators is a multiple of each denominator.
proof fn lemma_denom_lcm_multiple(s: Seq<Frac>)
    ensures
        forall|i: int| 0 <= i < s.len() ==> divides(#[trigger] denom_of(s[i]) as int, denom_lcm(s) as int),
    decreases s.len(),
{
    if s.len() > 0 {
        let p = s.drop_last();
        let lp = denom_lcm(p);
        lemma_denom_lcm_multiple(p);
        lemma_lcm_is_common_multiple(lp, denom_of(s.last()));
        let l = denom_lcm(s);
        assert forall|i: int| 0 <= i < s.len() implies divides(#[trigger] denom_of(s[i]) as int, l as int) by {
            if i < s.len() - 1 {
                assert(s[i] == p[i]);
                lemma_divides_trans(denom_of(p[i]) as int, lp as int, l as int);
            }
        }
    }
}

/// The ratio command keeps the ratio: when it lists terms, each term is its
/// value multiplied by the multiple of the denominators and divided by the
/// divisor of the numerators, exactly, so any two terms stand in the ratio
/// of their values, with the sign of their value.
pub proof fn lemma_ratio_terms_proportional(values: Seq<Frac>)
    requires
        all_reduced(values),
        denom_lcm_fits(values),
        numer_gcd(values) != 0,
    ensures
        forall|i: int|
            0 <= i < values.len() ==> #[trigger] scaled_magnitude(values[i], denom_lcm(values), numer_gcd(values))
                * numer_gcd(values) * denom_of(values[i]) == numer_of(values[i]) * denom_lcm(values),
{
    lemma_numer_gcd_divides(values);
    lemma_denom_lcm_multiple(values);
    let mul = denom_lcm(values);
    let div = numer_gcd(values);
    assert forall|i: int| 0 <= i < values.len() implies #[trigger] scaled_magnitude(values[i], mul, div) * div
        * denom_of(values[i]) == numer_of(values[i]) * mul by {
        let n = numer_of(values[i]) as int;
        let d = denom_of(values[i]) as int;
        assert(d > 0);
        assert(divides(div as int, n));
        assert(divides(d, mul as int));
        let kn = choose|k: int| #[trigger] product(div as int, k) == n;
        let km = choose|k: int| #[trigger] product(d, k) == mul as int;
        assert(mul as int / d == km) by (nonlinear_arith)
            requires
                mul as int == d * km,
                d > 0,
        ;
        assert(kn >= 0) by (nonlinear_arith)
            requires
                n == div * kn,
                div > 0,
                n >= 0,
        ;
        assert(km >= 0) by (nonlinear_arith)
            requires
                mul as int == d * km,
                d > 0,
                mul >= 0,
        ;
        assert(n * km == div * (kn * km)) by (nonlinear_arith)
            requires
                n == div * kn,
        ;
        assert((n * km) / (div as int) == kn * km) by (nonlinear_arith)
            requires
                n * km == div * (kn * km),
                div > 0,
        ;
        assert(kn * km * div * d == n * mul) by (nonlinear_arith)
            requires
                n == div * kn,
                mul as int == d * km,
        ;
        assert(scaled_magnitude(values[i], mul, div) == kn * km);
    }
}

/// Whether the ratio of `values` can be computed: every value is finite,
/// and, where terms are to be listed, every scaled numerator fits in `u64`.
pub fn ratio_computable_check(values: &Vec<Frac>) -> (b: bool)
    ensures
        b == ratio_computable(values@),
{
    let mut i: usize = 0;
    while i < values.len()
        invariant
            i <= values@.len(),
            forall|k: int| 0 <= k < i ==> reduced(#[trigger] values@[k]),
        decreases values@.len() - i,
    {
        match values[i] {
            Frac::Rational(_, n, d) => {
                if d == 0 {
                    return false;
                }
                if gcd_u64(n, d) != 1 {
                    return false;
                }
            },
            _ => {
                return false;
            },
        }
        i += 1;
    }
    let (mul, div) = ratio_scale(values);
    match mul {
        Some(m) => {
            if div == 0 {
                return true;
            }
            assert(values@.take(values@.len() as int) =~= values@);
            assert(denom_lcm_fits(values@));
            let mut k: usize = 0;
            while k < values.len()
                invariant
                    k <= values@.len(),
                    all_reduced(values@),
                    m == denom_lcm(values@),
                    div == numer_gcd(values@),
                    div != 0,
                    denom_lcm_fits(values@),
                    forall|j: int| 0 <= j < k ==> #[trigger] numer_of(values@[j]) * ((m as nat) / denom_of(values@[j])) <= u64::MAX,
                decreases values@.len() - k,
            {
                match values[k] {
                    Frac::Rational(_, n, d) => {
                        assert(values@[k as int] is Rational && denom_of(values@[k as int]) > 0);
                        if n.checked_mul(m / d).is_none() {
                            assert(numer_of(values@[k as int]) == n);
                            assert(denom_of(values@[k as int]) == d);
                            assert(numer_of(values@[k as int]) * ((m as nat) / denom_of(values@[k as int])) > u64::MAX);
                            assert(!scales_in_range(values@, denom_lcm(values@)));
                            return false;
                        }
                    },
                    _ => {
                        assert(values@[k as int] is Rational);
                    },
                }
                k += 1;
            }
            true
        },
        None => true,
    }
}

/// Euclid's algorithm also gives integers `x`, `y` with `a*x + b*y` equal to
/// the divisor (Bézout).
proof fn lemma_bezout(a: nat, b: nat) -> (xy: (int, int))
    ensures
        a * xy.0 + b * xy.1 == gcd_nat(a, b),
    decreases b,
{
    if b == 0 {
        (1, 0)
    } else {
        let r = a % b;
        let (x, y) = lemma_bezout(b, r);
        let q = (a / b) as int;
        vstd::arithmetic::div_mod::lemma_fundamental_div_mod(a as int, b as int);
        let ai = a as int;
        let bi = b as int;
        let ri = r as int;
        assert(ai == bi * q + ri);
        vstd::arithmetic::mul::lemma_mul_is_distributive_sub(bi, x, q * y);
        vstd::arithmetic::mul::lemma_mul_is_distributive_add_other_way(y, bi * q, ri);
        vstd::arithmetic::mul::lemma_mul_is_associative(bi, q, y);
        assert(ai * y == (bi * q + ri) * y);
        (y, x - q * y)
    }
}

/// If `a*x + b*y == 1` and `a` divides `b*c`, then `a` divides `c`.
proof fn lemma_euclid(a: int, b: int, c: int, x: int, y: int)
    requires
        a * x + b * y == 1,
        divides(a, b * c),
    ensures
        divides(a, c),
{
    let k = choose|k: int| #[trigger] product(a, k) == b * c;
    assert(a * k == b * c);
    vstd::arithmetic::mul::lemma_mul_is_distributive_add(a, c * x, k * y);
    vstd::arithmetic::mul::lemma_mul_is_associative(a, c, x);
    vstd::arithmetic::mul::lemma_mul_is_commutative(a, c);
    vstd::arithmetic::mul::lemma_mul_is_associative(c, a, x);
    vstd::arithmetic::mul::lemma_mul_is_associative(a, k, y);
    vstd::arithmetic::mul::lemma_mul_is_commutative(b, c);
    vstd::arithmetic::mul::lemma_mul_is_associative(c, b, y);
    vstd::arithmetic::mul::lemma_mul_is_distributive_add(c, a * x, b * y);
    vstd::arithmetic::mul::lemma_mul_basics(c);
    assert(a * (c * x + k * y) == c * (a * x + b * y));
    assert(product(a, c * x + k * y) == c);
}

/// `d` divides `a*x + b*y` when it divides `a` and `b`.
proof fn lemma_divides_combination(d: int, a: int, b: int, x: int, y: int)
    requires
        divides(d, a),
        divides(d, b),
    ensures
        divides(d, a * x + b * y),
{
    let ka = choose|k: int| #[trigger] product(d, k) == a;
    let kb = choose|k: int| #[trigger] product(d, k) == b;
    vstd::arithmetic::mul::lemma_mul_is_associative(d, ka, x);
    vstd::arithmetic::mul::lemma_mul_is_associative(d, kb, y);
    vstd::arithmetic::mul::lemma_mul_is_distributive_add(d, ka * x, kb * y);
    assert(product(d, ka * x + kb * y) == a * x + b * y);
}

/// Two nonnegative numbers that divide each other are equal.
proof fn lemma_divides_antisym(p: int, q: int)
    requires
        p >= 0,
        q >= 0,
        divides(p, q),
        divides(q, p),
    ensures
        p == q,
{
    let k1 = choose|k: int| #[trigger] product(p, k) == q;
    let k2 = choose|k: int| #[trigger] product(q, k) == p;
    assert(q == p * k1);
    assert(p == q * k2);
    vstd::arithmetic::mul::lemma_mul_basics(k1);
    vstd::arithmetic::mul::lemma_mul_basics(k2);
    if p == 0 {
        assert(q == 0);
    } else {
        assert(q != 0);
        assert(k1 >= 1) by (nonlinear_arith)
            requires
                p > 0,
                q > 0,
                q == p * k1,
        ;
        assert(k2 >= 1) by (nonlinear_arith)
            requires
                p > 0,
                q > 0,
                p == q * k2,
        ;
        assert(q >= p) by (nonlinear_arith)
            requires
                p > 0,
                k1 >= 1,
                q == p * k1,
        ;
        assert(p >= q) by (nonlinear_arith)
            requires
                q > 0,
                k2 >= 1,
                p == q * k2,
        ;
    }
}

/// Scaling both arguments scales their divisor.
proof fn lemma_gcd_scale(k: nat, a: nat, b: nat)
    ensures
        gcd_nat(k * a, k * b) == k * gcd_nat(a, b),
{
    let ki = k as int;
    let ai = a as int;
    let bi = b as int;
    let g = gcd_nat(a, b) as int;
    let ka = (k * a) as int;
    let kb = (k * b) as int;
    let big = gcd_nat(k * a, k * b) as int;
    lemma_gcd_divides(a, b);
    let ja = choose|j: int| #[trigger] product(g, j) == ai;
    let jb = choose|j: int| #[trigger] product(g, j) == bi;
    vstd::arithmetic::mul::lemma_mul_is_associative(ki, g, ja);
    vstd::arithmetic::mul::lemma_mul_is_associative(ki, g, jb);
    assert(product(ki * g, ja) == ka);
    assert(product(ki * g, jb) == kb);
    let (x, y) = lemma_bezout(k * a, k * b);
    lemma_divides_combination(ki * g, ka, kb, x, y);
    lemma_gcd_divides(k * a, k * b);
    let (x2, y2) = lemma_bezout(a, b);
    vstd::arithmetic::mul::lemma_mul_is_associative(ki, ai, x2);
    vstd::arithmetic::mul::lemma_mul_is_associative(ki, bi, y2);
    vstd::arithmetic::mul::lemma_mul_is_distributive_add(ki, ai * x2, bi * y2);
    assert(ka * x2 + kb * y2 == ki * g);
    lemma_divides_combination(big, ka, kb, x2, y2);
    assert(ki * g >= 0) by (nonlinear_arith)
        requires
            ki >= 0,
            g >= 0,
    ;
    lemma_divides_antisym(big, ki * g);
}

/// The least common multiple divides every common multiple.
proof fn lemma_lcm_least(a: nat, b: nat, m: int)
    requires
        divides(a as int, m),
        divides(b as int, m),
    ensures
        divides(lcm_nat(a, b) as int, m),
{
    let ai = a as int;
    let bi = b as int;
    let k1 = choose|k: int| #[trigger] product(ai, k) == m;
    let k2 = choose|k: int| #[trigger] product(bi, k) == m;
    if a == 0 {
        vstd::arithmetic::mul::lemma_mul_basics(k1);
        assert(m == 0);
        vstd::arithmetic::mul::lemma_mul_basics(0);
        assert(product(lcm_nat(a, b) as int, 0) == m);
    } else {
        let g = gcd_nat(a, b) as int;
        lemma_gcd_le_left(a, b);
        lemma_gcd_divides(a, b);
        let a1 = choose|j: int| #[trigger] product(g, j) == ai;
        let b1 = choose|j: int| #[trigger] product(g, j) == bi;
        let (x, y) = lemma_bezout(a, b);
        vstd::arithmetic::mul::lemma_mul_is_associative(g, a1, x);
        vstd::arithmetic::mul::lemma_mul_is_associative(g, b1, y);
        vstd::arithmetic::mul::lemma_mul_is_distributive_add(g, a1 * x, b1 * y);
        let w = a1 * x + b1 * y;
        assert(g * w == g);
        assert(w == 1) by (nonlinear_arith)
            requires
                g > 0,
                g * w == g,
        ;
        vstd::arithmetic::mul::lemma_mul_is_associative(g, a1, k1);
        vstd::arithmetic::mul::lemma_mul_is_associative(g, b1, k2);
        let u = a1 * k1;
        let v = b1 * k2;
        assert(g * u == g * v);
        assert(u == v) by (nonlinear_arith)
            requires
                g > 0,
                g * u == g * v,
        ;
        assert(product(a1, k1) == b1 * k2);
        lemma_euclid(a1, b1, k2, x, y);
        let j = choose|j: int| #[trigger] product(a1, j) == k2;
        vstd::arithmetic::div_mod::lemma_div_multiples_vanish(a1, g);
        assert(ai / g == a1);
        assert(lcm_nat(a, b) == a1 * bi);
        vstd::arithmetic::mul::lemma_mul_is_associative(bi, a1, j);
        vstd::arithmetic::mul::lemma_mul_is_commutative(bi, a1);
        assert(product(lcm_nat(a, b) as int, j) == m);
    }
}

/// A common divisor of all the numerators divides their divisor.
proof fn lemma_numer_gcd_greatest(s: Seq<Frac>, c: int)
    requires
        forall|i: int| 0 <= i < s.len() ==> divides(c, #[trigger] numer_of(s[i]) as int),
    ensures
        divides(c, numer_gcd(s) as int),
    decreases s.len(),
{
    if s.len() == 0 {
        vstd::arithmetic::mul::lemma_mul_basics(c);
        assert(product(c, 0) == 0);
    } else {
        let p = s.drop_last();
        assert forall|i: int| 0 <= i < p.len() implies divides(c, #[trigger] numer_of(p[i]) as int) by {
            assert(p[i] == s[i]);
        }
        lemma_numer_gcd_greatest(p, c);
        assert(divides(c, numer_of(s[s.len() - 1]) as int));
        lemma_gcd_greatest(numer_gcd(p), numer_of(s.last()), c);
    }
}

/// The multiple of the denominators divides every common multiple of them.
proof fn lemma_denom_lcm_least(s: Seq<Frac>, m: int)
    requires
        forall|i: int| 0 <= i < s.len() ==> divides(#[trigger] denom_of(s[i]) as int, m),
    ensures
        divides(denom_lcm(s) as int, m),
    decreases s.len(),
{
    if s.len() == 0 {
        vstd::arithmetic::mul::lemma_mul_basics(m);
        assert(product(1, m) == m);
    } else {
        let p = s.drop_last();
        assert forall|i: int| 0 <= i < p.len() implies divides(#[trigger] denom_of(p[i]) as int, m) by {
            assert(p[i] == s[i]);
        }
        lemma_denom_lcm_least(p, m);
        assert(divides(denom_of(s[s.len() - 1]) as int, m));
        lemma_lcm_least(denom_lcm(p), denom_of(s.last()), m);
    }
}

/// A positive divisor of 1 is 1.
proof fn lemma_divides_one(c: int)
    requires
        c > 0,
        divides(c, 1),
    ensures
        c == 1,
{
    vstd::arithmetic::mul::lemma_mul_basics(c);
    assert(product(1, c) == c);
    lemma_divides_antisym(c, 1);
}

/// The parts of one term of the ratio: the value is `n/d` in lowest terms,
/// `n` is `g*a` for the divisor `g` of the numerators, and the multiple `l`
/// of the denominators is `d*m`; the term is then `a*m`, with `a` and `d`
/// coprime.
proof fn lemma_term_parts(f: Frac, l: nat, g: nat) -> (am: (nat, nat))
    requires
        reduced(f),
        g > 0,
        divides(g as int, numer_of(f) as int),
        divides(denom_of(f) as int, l as int),
    ensures
        numer_of(f) == g * am.0,
        l == denom_of(f) * am.1,
        scaled_magnitude(f, l, g) == am.0 * am.1,
        gcd_nat(am.0, denom_of(f)) == 1,
{
    let n = numer_of(f) as int;
    let d = denom_of(f) as int;
    let ja = choose|j: int| #[trigger] product(g as int, j) == n;
    let jm = choose|j: int| #[trigger] product(d, j) == l as int;
    assert(ja >= 0) by (nonlinear_arith)
        requires
            g > 0,
            n >= 0,
            n == g * ja,
    ;
    assert(jm >= 0) by (nonlinear_arith)
        requires
            d > 0,
            l >= 0,
            l == d * jm,
    ;
    let a = ja as nat;
    let m = jm as nat;
    vstd::arithmetic::div_mod::lemma_div_multiples_vanish(jm, d);
    assert(l as int / d == jm);
    vstd::arithmetic::mul::lemma_mul_is_associative(g as int, ja, jm);
    vstd::arithmetic::div_mod::lemma_div_multiples_vanish(ja * jm, g as int);
    assert(scaled_magnitude(f, l, g) == a * m);
    let h = gcd_nat(a, denom_of(f));
    lemma_gcd_le_right(a, denom_of(f));
    lemma_gcd_divides(a, denom_of(f));
    let ka = choose|k: int| #[trigger] product(h as int, k) == a as int;
    vstd::arithmetic::mul::lemma_mul_is_associative(h as int, ka, g as int);
    vstd::arithmetic::mul::lemma_mul_is_commutative(ja, g as int);
    assert(product(h as int, ka * g) == n);
    lemma_gcd_greatest(numer_of(f), denom_of(f), h as int);
    lemma_divides_one(h as int);
    (a, m)
}

/// A divisor of `a*m` and of `d*m`, where `a` and `d` are coprime, divides `m`.
proof fn lemma_divides_common_part(a: nat, d: nat, m: nat, e: int)
    requires
        gcd_nat(a, d) == 1,
        divides(e, (a * m) as int),
        divides(e, (d * m) as int),
    ensures
        divides(e, m as int),
{
    lemma_gcd_scale(m, a, d);
    assert(m * a == a * m) by (nonlinear_arith);
    assert(m * d == d * m) by (nonlinear_arith);
    lemma_gcd_greatest(m * a, m * d, e);
    assert(m * 1 == m);
}

/// The ratio command gives terms in lowest terms: for values in lowest
/// terms, every positive common divisor of the terms it lists is 1.
pub proof fn lemma_ratio_terms_coprime(values: Seq<Frac>, c: int)
    requires
        all_reduced(values),
        numer_gcd(values) != 0,
        c > 0,
        forall|i: int|
            0 <= i < values.len() ==> divides(
                c,
                #[trigger] scaled_magnitude(values[i], denom_lcm(values), numer_gcd(values)) as int,
            ),
    ensures
        c == 1,
{
    let l = denom_lcm(values);
    let g = numer_gcd(values);
    lemma_denom_lcm_positive(values);
    lemma_numer_gcd_divides(values);
    lemma_denom_lcm_multiple(values);
    let e = gcd_nat(c as nat, l);
    lemma_gcd_le_left(c as nat, l);
    lemma_gcd_divides(c as nat, l);
    // Every divisor shared by `c` and the multiple divides each `l / d`.
    assert forall|i: int| 0 <= i < values.len() implies divides(e as int, #[trigger] (l / denom_of(values[i])) as int) by {
        let f = values[i];
        assert(reduced(f));
        let (a, m) = lemma_term_parts(f, l, g);
        vstd::arithmetic::div_mod::lemma_div_multiples_vanish(m as int, denom_of(f) as int);
        lemma_divides_trans(e as int, c, (a * m) as int);
        lemma_divides_common_part(a, denom_of(f), m, e as int);
    }
    // So the multiple divided by that divisor is a common multiple of the
    // denominators, and the divisor is 1.
    let q = choose|k: int| #[trigger] product(e as int, k) == l as int;
    assert forall|i: int| 0 <= i < values.len() implies divides(#[trigger] denom_of(values[i]) as int, q) by {
        let f = values[i];
        let d = denom_of(f) as int;
        let m = (l / denom_of(f)) as int;
        let w = choose|k: int| #[trigger] product(e as int, k) == m;
        let jm = choose|j: int| #[trigger] product(d, j) == l as int;
        vstd::arithmetic::div_mod::lemma_div_multiples_vanish(jm, d);
        assert(m == jm);
        vstd::arithmetic::mul::lemma_mul_is_associative(d, e as int, w);
        vstd::arithmetic::mul::lemma_mul_is_commutative(d, e as int);
        vstd::arithmetic::mul::lemma_mul_is_associative(e as int, d, w);
        assert((e as int) * q == (e as int) * (d * w));
        assert(q == d * w) by (nonlinear_arith)
            requires
                e > 0,
                (e as int) * q == (e as int) * (d * w),
        ;
        assert(product(d, w) == q);
    }
    lemma_denom_lcm_least(values, q);
    let z = choose|k: int| #[trigger] product(l as int, k) == q;
    assert((e as int) * z == 1) by (nonlinear_arith)
        requires
            l > 0,
            l == (e as int) * q,
            q == l * z,
    {
        assert(l * ((e as int) * z) == l * 1);
    }
    assert(product(e as int, z) == 1);
    lemma_divides_one(e as int);
    // Now `c` shares nothing with the multiple, so it divides each `a`.
    let (x, y) = lemma_bezout(c as nat, l);
    assert forall|i: int| 0 <= i < values.len() implies divides(c, #[trigger] (numer_of(values[i]) / g) as int) by {
        let f = values[i];
        let (a, m) = lemma_term_parts(f, l, g);
        let d = denom_of(f) as int;
        vstd::arithmetic::div_mod::lemma_div_multiples_vanish(a as int, g as int);
        vstd::arithmetic::mul::lemma_mul_is_associative(m as int, d, y);
        vstd::arithmetic::mul::lemma_mul_is_commutative(m as int, d);
        assert(c * x + (m as int) * (d * y) == 1);
        vstd::arithmetic::mul::lemma_mul_is_commutative(a as int, m as int);
        assert(divides(c, (m as int) * (a as int)));
        lemma_euclid(c, m as int, a as int, x, d * y);
    }
    // And `c * g` divides every numerator, hence their divisor `g`: `c` is 1.
    assert forall|i: int| 0 <= i < values.len() implies divides(c * g, #[trigger] numer_of(values[i]) as int) by {
        let f = values[i];
        let (a, m) = lemma_term_parts(f, l, g);
        vstd::arithmetic::div_mod::lemma_div_multiples_vanish(a as int, g as int);
        assert(divides(c, (numer_of(values[i]) / g) as int));
        let j = choose|k: int| #[trigger] product(c, k) == a as int;
        vstd::arithmetic::mul::lemma_mul_is_associative(c, g as int, j);
        vstd::arithmetic::mul::lemma_mul_is_commutative(c, g as int);
        vstd::arithmetic::mul::lemma_mul_is_associative(g as int, c, j);
        assert(product(c * g, j) == numer_of(f) as int);
    }
    lemma_numer_gcd_greatest(values, c * g);
    let z2 = choose|k: int| #[trigger] product(c * g, k) == g as int;
    assert(c * z2 == 1) by (nonlinear_arith)
        requires
            g > 0,
            (c * g) * z2 == g,
    {
        assert(g * (c * z2) == g * 1);
    }
    assert(product(c, z2) == 1);
    lemma_divides_one(c);
}

} // verus!
