use vstd::prelude::*;

use crate::text::{chars_of, push_signed_decimal, push_str, signed_decimal, string_of_chars};

verus! {

/// The smaller of two natural numbers.
pub open spec fn min_nat(x: nat, y: nat) -> nat {
    if x <= y {
        x
    } else {
        y
    }
}

/// The optimal string alignment distance (restricted Damerau-Levenshtein
/// distance) between the first `i` characters of `a` and the first `j`
/// characters of `b`: the fewest insertions, deletions, substitutions and
/// transpositions of adjacent characters, no substring being edited twice.
pub open spec fn osa_at(a: Seq<char>, b: Seq<char>, i: nat, j: nat) -> nat
    decreases i + j,
{
    if i == 0 {
        j
    } else if j == 0 {
        i
    } else {
        let substitute = osa_at(a, b, (i - 1) as nat, (j - 1) as nat) + if a[i - 1] == b[j - 1] {
            0nat
        } else {
            1nat
        };
        let delete = osa_at(a, b, (i - 1) as nat, j) + 1;
        let insert = osa_at(a, b, i, (j - 1) as nat) + 1;
        let best = min_nat(min_nat(substitute, delete), insert);
        if i >= 2 && j >= 2 && a[i - 1] == b[j - 2] && a[i - 2] == b[j - 1] {
            min_nat(best, osa_at(a, b, (i - 2) as nat, (j - 2) as nat) + 1)
        } else {
            best
        }
    }
}

/// The optimal string alignment distance between two whole character sequences.
pub open spec fn osa_distance(a: Seq<char>, b: Seq<char>) -> nat {
    osa_at(a, b, a.len(), b.len())
}

/// The distance of two prefixes never exceeds the longer prefix length.
proof fn lemma_osa_upper(a: Seq<char>, b: Seq<char>, i: nat, j: nat)
    ensures
        osa_at(a, b, i, j) <= if i >= j { i } else { j },
    decreases i + j,
{
    if i > 0 && j > 0 {
        lemma_osa_upper(a, b, (i - 1) as nat, (j - 1) as nat);
        lemma_osa_upper(a, b, (i - 1) as nat, j);
        lemma_osa_upper(a, b, i, (j - 1) as nat);
    }
}

/// The distance of two prefixes is at least the difference of their lengths.
proof fn lemma_osa_lower(a: Seq<char>, b: Seq<char>, i: nat, j: nat)
    ensures
        osa_at(a, b, i, j) >= if i >= j { i - j } else { j - i },
    decreases i + j,
{
    if i > 0 && j > 0 {
        lemma_osa_lower(a, b, (i - 1) as nat, (j - 1) as nat);
        lemma_osa_lower(a, b, (i - 1) as nat, j);
        lemma_osa_lower(a, b, i, (j - 1) as nat);
        if i >= 2 && j >= 2 {
            lemma_osa_lower(a, b, (i - 2) as nat, (j - 2) as nat);
        }
    }
}

proof fn lemma_osa_swap(a: Seq<char>, b: Seq<char>, i: nat, j: nat)
    ensures
        osa_at(a, b, i, j) == osa_at(b, a, j, i),
    decreases i + j,
{
    if i > 0 && j > 0 {
        lemma_osa_swap(a, b, (i - 1) as nat, (j - 1) as nat);
        lemma_osa_swap(a, b, (i - 1) as nat, j);
        lemma_osa_swap(a, b, i, (j - 1) as nat);
        if i >= 2 && j >= 2 {
            lemma_osa_swap(a, b, (i - 2) as nat, (j - 2) as nat);
        }
    }
}

proof fn lemma_osa_same_prefix(a: Seq<char>, i: nat)
    ensures
        osa_at(a, a, i, i) == 0,
    decreases i,
{
    if i > 0 {
        lemma_osa_same_prefix(a, (i - 1) as nat);
    }
}

proof fn lemma_osa_zero_prefix(a: Seq<char>, b: Seq<char>, i: nat, j: nat)
    requires
        i <= a.len(),
        j <= b.len(),
        osa_at(a, b, i, j) == 0,
    ensures
        i == j,
        a.take(i as int) == b.take(j as int),
    decreases i + j,
{
    lemma_osa_lower(a, b, i, j);
    if i > 0 && j > 0 {
        lemma_osa_lower(a, b, (i - 1) as nat, (j - 1) as nat);
        lemma_osa_lower(a, b, (i - 1) as nat, j);
        lemma_osa_lower(a, b, i, (j - 1) as nat);
        if i >= 2 && j >= 2 {
            lemma_osa_lower(a, b, (i - 2) as nat, (j - 2) as nat);
        }
        assert(a[i - 1] == b[j - 1]);
        lemma_osa_zero_prefix(a, b, (i - 1) as nat, (j - 1) as nat);
        assert(a.take(i as int) =~= a.take(i - 1).push(a[i - 1]));
        assert(b.take(j as int) =~= b.take(j - 1).push(b[j - 1]));
    } else {
        assert(a.take(i as int) =~= b.take(j as int));
    }
}

/// The distance does not depend on the order of its arguments.
pub proof fn lemma_osa_distance_symmetric(a: Seq<char>, b: Seq<char>)
    ensures
        osa_distance(a, b) == osa_distance(b, a),
{
    lemma_osa_swap(a, b, a.len(), b.len());
}

/// The distance is zero exactly when the two sequences are equal.
pub proof fn lemma_osa_distance_zero_iff_equal(a: Seq<char>, b: Seq<char>)
    ensures
        (osa_distance(a, b) == 0) <==> (a == b),
{
    if osa_distance(a, b) == 0 {
        lemma_osa_zero_prefix(a, b, a.len(), b.len());
        assert(a.take(a.len() as int) =~= a);
        assert(b.take(b.len() as int) =~= b);
    }
    if a == b {
        lemma_osa_same_prefix(a, a.len());
    }
}

/// The distance lies between the difference of the lengths and the larger length.
pub proof fn lemma_osa_distance_bounds(a: Seq<char>, b: Seq<char>)
    ensures
        osa_distance(a, b) <= if a.len() >= b.len() { a.len() } else { b.len() },
        osa_distance(a, b) >= if a.len() >= b.len() { a.len() - b.len() } else { b.len() - a.len() },
{
    lemma_osa_upper(a, b, a.len(), b.len());
    lemma_osa_lower(a, b, a.len(), b.len());
}

/// The optimal string alignment distance between `a` and `b`, counted in
/// characters.
pub fn optimal_damerau_levenshtein(a: &str, b: &str) -> (d: usize)
    requires
        a@.len() < usize::MAX,
        b@.len() < usize::MAX,
    ensures
        d == osa_distance(a@, b@),
{
    let av = chars_of(a);
    let bv = chars_of(b);
    let n = av.len();
    let m = bv.len();
    let ghost sa = av@;
    let ghost sb = bv@;

    let mut prev: Vec<usize> = Vec::new();
    let mut k: usize = 0;
    while k <= m
        invariant
            m == sb.len(),
            m < usize::MAX,
            k <= m + 1,
            prev@.len() == k,
            forall|t: int| 0 <= t < k ==> prev@[t] == osa_at(sa, sb, 0, t as nat),
        decreases m + 1 - k,
    {
        prev.push(k);
        k += 1;
    }
    let mut prev2: Vec<usize> = Vec::new();
    let mut i: usize = 1;
    while i <= n
        invariant
            n == sa.len(),
            m == sb.len(),
            sa == av@,
            sb == bv@,
            n < usize::MAX,
            m < usize::MAX,
            1 <= i <= n + 1,
            prev@.len() == m + 1,
            forall|t: int| 0 <= t <= m ==> prev@[t] == osa_at(sa, sb, (i - 1) as nat, t as nat),
            i >= 2 ==> prev2@.len() == m + 1,
            i >= 2 ==> forall|t: int|
                0 <= t <= m ==> prev2@[t] == osa_at(sa, sb, (i - 2) as nat, t as nat),
        decreases n + 1 - i,
    {
        let mut cur: Vec<usize> = Vec::new();
        cur.push(i);
        let mut j: usize = 1;
        while j <= m
            invariant
                n == sa.len(),
                m == sb.len(),
                sa == av@,
                sb == bv@,
                n < usize::MAX,
                m < usize::MAX,
                1 <= i <= n,
                1 <= j <= m + 1,
                prev@.len() == m + 1,
                forall|t: int|
                    0 <= t <= m ==> prev@[t] == osa_at(sa, sb, (i - 1) as nat, t as nat),
                i >= 2 ==> prev2@.len() == m + 1,
                i >= 2 ==> forall|t: int|
                    0 <= t <= m ==> prev2@[t] == osa_at(sa, sb, (i - 2) as nat, t as nat),
                cur@.len() == j,
                forall|t: int| 0 <= t < j ==> cur@[t] == osa_at(sa, sb, i as nat, t as nat),
            decreases m + 1 - j,
        {
            proof {
                lemma_osa_upper(sa, sb, (i - 1) as nat, (j - 1) as nat);
                lemma_osa_upper(sa, sb, (i - 1) as nat, j as nat);
                lemma_osa_upper(sa, sb, i as nat, (j - 1) as nat);
                if i >= 2 && j >= 2 {
                    lemma_osa_upper(sa, sb, (i - 2) as nat, (j - 2) as nat);
                }
            }
            let cost: usize = if av[i - 1] == bv[j - 1] {
                0
            } else {
                1
            };
            let mut best: usize = prev[j - 1] + cost;
            let delete: usize = prev[j] + 1;
            if delete < best {
                best = delete;
            }
            let insert: usize = cur[j - 1] + 1;
            if insert < best {
                best = insert;
            }
            if i >= 2 && j >= 2 && av[i - 1] == bv[j - 2] && av[i - 2] == bv[j - 1] {
                let swap: usize = prev2[j - 2] + 1;
                if swap < best {
                    best = swap;
                }
            }
            assert(best == osa_at(sa, sb, i as nat, j as nat));
            cur.push(best);
            j += 1;
        }
        prev2 = prev;
        prev = cur;
        i += 1;
    }
    prev[m]
}

/// The characters of `s` with a backslash put before every `.` that is not
/// already escaped; `escaped` says whether the character before `s` leaves
/// the next one escaped. A run of backslashes escapes the next character
/// when it has odd length.
pub open spec fn escape_dots(s: Seq<char>, escaped: bool) -> Seq<char>
    decreases s.len(),
{
    if s.len() == 0 {
        seq![]
    } else {
        let c = s[0];
        let head = if c == '.' && !escaped {
            seq!['\\', c]
        } else {
            seq![c]
        };
        let next = if c == '\\' {
            !escaped
        } else {
            false
        };
        head + escape_dots(s.drop_first(), next)
    }
}

/// `s` with every occurrence of the nonempty pattern `p` replaced by `r`,
/// scanning from the left and never reusing replaced characters.
pub open spec fn replace_all(s: Seq<char>, p: Seq<char>, r: Seq<char>) -> Seq<char>
    decreases s.len(),
{
    if p.len() == 0 || s.len() < p.len() {
        s
    } else if s.take(p.len() as int) == p {
        r + replace_all(s.skip(p.len() as int), p, r)
    } else {
        seq![s[0]] + replace_all(s.drop_first(), p, r)
    }
}

/// Whether `p` occurs in `s` as a contiguous block.
pub open spec fn occurs(s: Seq<char>, p: Seq<char>) -> bool {
    exists|i: int| 0 <= i && i + p.len() <= s.len() && #[trigger] s.subrange(i, i + p.len()) == p
}

/// The mention that pings every member: `@everyone`.
pub open spec fn everyone_mention() -> Seq<char> {
    seq!['@', 'e', 'v', 'e', 'r', 'y', 'o', 'n', 'e']
}

/// `@everyone` broken by a zero-width space after the `@`.
pub open spec fn everyone_defused() -> Seq<char> {
    seq!['@', '\u{200b}', 'e', 'v', 'e', 'r', 'y', 'o', 'n', 'e']
}

/// The mention that pings every online member: `@here`.
pub open spec fn here_mention() -> Seq<char> {
    seq!['@', 'h', 'e', 'r', 'e']
}

/// `@here` broken by a zero-width space after the `@`.
pub open spec fn here_defused() -> Seq<char> {
    seq!['@', '\u{200b}', 'h', 'e', 'r', 'e']
}

/// What `safe` makes of a text: dots escaped, then the two mass mentions defused.
pub open spec fn safe_text(raw: Seq<char>) -> Seq<char> {
    replace_all(
        replace_all(escape_dots(raw, true), everyone_mention(), everyone_defused()),
        here_mention(),
        here_defused(),
    )
}

/// Whether `p` stands in `s` at position `i`.
fn matches_at(s: &Vec<char>, i: usize, p: &Vec<char>) -> (b: bool)
    requires
        i <= s@.len(),
    ensures
        b == (i + p@.len() <= s@.len() && s@.subrange(i as int, i + p@.len()) == p@),
{
    if p.len() > s.len() - i {
        return false;
    }
    let mut k: usize = 0;
    while k < p.len()
        invariant
            i + p@.len() <= s@.len(),
            s@.len() <= usize::MAX,
            k <= p@.len(),
            forall|t: int| 0 <= t < k ==> s@[i + t] == p@[t],
        decreases p@.len() - k,
    {
        if s[i + k] != p[k] {
            assert(s@.subrange(i as int, i + p@.len())[k as int] != p@[k as int]);
            return false;
        }
        k += 1;
    }
    assert(s@.subrange(i as int, i + p@.len()) =~= p@);
    true
}

/// `s` with every occurrence of the nonempty pattern `p` replaced by `r`.
fn replace_chars(s: &Vec<char>, p: &Vec<char>, r: &Vec<char>) -> (out: Vec<char>)
    requires
        p@.len() > 0,
    ensures
        out@ == replace_all(s@, p@, r@),
{
    let mut out: Vec<char> = Vec::new();
    let mut i: usize = 0;
    assert(s@.skip(0) =~= s@);
    while i < s.len()
        invariant
            p@.len() > 0,
            i <= s@.len(),
            replace_all(s@, p@, r@) == out@ + replace_all(s@.skip(i as int), p@, r@),
        decreases s@.len() - i,
    {
        let ghost rest = s@.skip(i as int);
        if matches_at(s, i, p) {
            assert(rest.take(p@.len() as int) =~= s@.subrange(i as int, i + p@.len()));
            assert(rest.skip(p@.len() as int) =~= s@.skip(i + p@.len()));
            let mut k: usize = 0;
            let ghost before = out@;
            while k < r.len()
                invariant
                    k <= r@.len(),
                    out@ == before + r@.take(k as int),
                decreases r@.len() - k,
            {
                assert(r@.take(k + 1) =~= r@.take(k as int).push(r@[k as int]));
                out.push(r[k]);
                k += 1;
            }
            assert(r@.take(k as int) =~= r@);
            assert(before + (r@ + replace_all(rest.skip(p@.len() as int), p@, r@)) =~= out@
                + replace_all(s@.skip(i + p@.len()), p@, r@));
            i = i + p.len();
        } else {
            assert(rest.len() >= p@.len() ==> rest.take(p@.len() as int) =~= s@.subrange(
                i as int,
                i + p@.len(),
            ));
            assert(rest.drop_first() =~= s@.skip(i + 1));
            let ghost before = out@;
            out.push(s[i]);
            assert(before + (seq![rest[0]] + replace_all(rest.drop_first(), p@, r@)) =~= out@
                + replace_all(s@.skip(i + 1), p@, r@));
            i = i + 1;
        }
    }
    assert(out@ + replace_all(s@.skip(i as int), p@, r@) =~= out@);
    out
}

/// Escapes every `.` that no backslash escapes yet.
fn escape_dot_chars(s: &Vec<char>) -> (out: Vec<char>)
    ensures
        out@ == escape_dots(s@, true),
{
    let mut out: Vec<char> = Vec::new();
    let mut escaped = true;
    let mut i: usize = 0;
    assert(s@.skip(0) =~= s@);
    while i < s.len()
        invariant
            i <= s@.len(),
            escape_dots(s@, true) == out@ + escape_dots(s@.skip(i as int), escaped),
        decreases s@.len() - i,
    {
        let ghost rest = s@.skip(i as int);
        let ghost before = out@;
        let c = s[i];
        if c == '.' && !escaped {
            out.push('\\');
        }
        out.push(c);
        let old_escaped = escaped;
        if c == '\\' {
            escaped = !escaped;
        } else {
            escaped = false;
        }
        assert(rest.drop_first() =~= s@.skip(i + 1));
        assert(rest[0] == c);
        if c == '.' && !old_escaped {
            assert(before + (seq!['\\', c] + escape_dots(rest.drop_first(), escaped)) =~= out@
                + escape_dots(s@.skip(i + 1), escaped));
        } else {
            assert(before + (seq![c] + escape_dots(rest.drop_first(), escaped)) =~= out@
                + escape_dots(s@.skip(i + 1), escaped));
        }
        i += 1;
    }
    assert(out@ + escape_dots(s@.skip(i as int), escaped) =~= out@);
    out
}

/// Makes a user-supplied text safe to quote in a message: escapes the dots
/// that are not escaped yet and defuses `@everyone` and `@here` with a
/// zero-width space.
pub fn safe(raw: &str) -> (out: String)
    ensures
        out@ == safe_text(raw@),
{
    let chars = chars_of(raw);
    let escaped = escape_dot_chars(&chars);
    let everyone: Vec<char> = vec!['@', 'e', 'v', 'e', 'r', 'y', 'o', 'n', 'e'];
    let everyone_safe: Vec<char> = vec!['@', '\u{200b}', 'e', 'v', 'e', 'r', 'y', 'o', 'n', 'e'];
    let here: Vec<char> = vec!['@', 'h', 'e', 'r', 'e'];
    let here_safe: Vec<char> = vec!['@', '\u{200b}', 'h', 'e', 'r', 'e'];
    assert(everyone@ =~= everyone_mention());
    assert(everyone_safe@ =~= everyone_defused());
    assert(here@ =~= here_mention());
    assert(here_safe@ =~= here_defused());
    let first = replace_chars(&escaped, &everyone, &everyone_safe);
    let second = replace_chars(&first, &here, &here_safe);
    string_of_chars(&second)
}

/// Where the first `n` characters of a replacement result hold no first
/// character of the pattern, no replacement has started there, so they are
/// the first `n` characters of the input.
proof fn lemma_replace_prefix_unchanged(s: Seq<char>, p: Seq<char>, r: Seq<char>, n: nat)
    requires
        p.len() >= 1,
        r.len() >= 1,
        r[0] == p[0],
        n <= replace_all(s, p, r).len(),
        forall|k: int| 0 <= k < n ==> replace_all(s, p, r)[k] != p[0],
    ensures
        n <= s.len(),
        forall|k: int| 0 <= k < n ==> replace_all(s, p, r)[k] == s[k],
    decreases s.len(),
{
    let t = replace_all(s, p, r);
    if s.len() < p.len() {
    } else if s.take(p.len() as int) == p {
        if n > 0 {
            assert(t[0] == r[0]);
        }
    } else if n > 0 {
        let s2 = s.drop_first();
        let t2 = replace_all(s2, p, r);
        assert(t == seq![s[0]] + t2);
        assert forall|k: int| 0 <= k < n - 1 implies t2[k] != p[0] by {
            assert(t2[k] == t[k + 1]);
        }
        lemma_replace_prefix_unchanged(s2, p, r, (n - 1) as nat);
        assert forall|k: int| 0 <= k < n implies t[k] == s[k] by {
            if k > 0 {
                assert(t[k] == t2[k - 1]);
                assert(t2[k - 1] == s2[k - 1]);
                assert(s2[k - 1] == s[k]);
            } else {
                assert(t[0] == s[0]);
            }
        }
    }
}

/// An occurrence in a suffix is an occurrence in the whole sequence.
proof fn lemma_occurs_in_suffix(s: Seq<char>, q: Seq<char>, m: int)
    requires
        0 <= m <= s.len(),
        occurs(s.skip(m), q),
    ensures
        occurs(s, q),
{
    let i = choose|i: int|
        0 <= i && i + q.len() <= s.skip(m).len() && #[trigger] s.skip(m).subrange(i, i + q.len())
            == q;
    assert(s.subrange(i + m, i + m + q.len()) =~= s.skip(m).subrange(i, i + q.len()));
}

/// Replacing `p` by `r` leaves no occurrence of `q`, provided `q` is `p` itself
/// or did not occur before, all three start with the same character, that
/// character appears nowhere else in `q` or `r`, and `r` differs from `q` in
/// its second character.
proof fn lemma_replace_avoids(s: Seq<char>, p: Seq<char>, r: Seq<char>, q: Seq<char>)
    requires
        p.len() >= 1,
        q.len() >= 2,
        r.len() >= 2,
        r[0] == p[0],
        q[0] == p[0],
        r[1] != q[1],
        forall|j: int| 1 <= j < q.len() ==> #[trigger] q[j] != q[0],
        forall|j: int| 1 <= j < r.len() ==> #[trigger] r[j] != q[0],
        q == p || !occurs(s, q),
    ensures
        !occurs(replace_all(s, p, r), q),
    decreases s.len(),
{
    let t = replace_all(s, p, r);
    if s.len() < p.len() {
    } else if s.take(p.len() as int) == p {
        let s2 = s.skip(p.len() as int);
        let t2 = replace_all(s2, p, r);
        if q != p && occurs(s2, q) {
            lemma_occurs_in_suffix(s, q, p.len() as int);
        }
        lemma_replace_avoids(s2, p, r, q);
        assert(t == r + t2);
        if occurs(t, q) {
            let k = choose|k: int|
                0 <= k && k + q.len() <= t.len() && #[trigger] t.subrange(k, k + q.len()) == q;
            if k < r.len() {
                assert(t.subrange(k, k + q.len())[0] == t[k]);
                assert(t[k] == r[k]);
                assert(t.subrange(k, k + q.len())[1] == t[k + 1]);
                assert(t[1] == r[1]);
            } else {
                assert(t2.subrange(k - r.len(), k - r.len() + q.len()) =~= t.subrange(
                    k,
                    k + q.len(),
                ));
            }
        }
    } else {
        let s2 = s.drop_first();
        let t2 = replace_all(s2, p, r);
        if q != p && occurs(s2, q) {
            lemma_occurs_in_suffix(s, q, 1);
        }
        lemma_replace_avoids(s2, p, r, q);
        assert(t == seq![s[0]] + t2);
        if occurs(t, q) {
            let k = choose|k: int|
                0 <= k && k + q.len() <= t.len() && #[trigger] t.subrange(k, k + q.len()) == q;
            if k >= 1 {
                assert(t2.subrange(k - 1, k - 1 + q.len()) =~= t.subrange(k, k + q.len()));
            } else {
                let n = (q.len() - 1) as nat;
                assert forall|j: int| 0 <= j < n implies t2[j] != p[0] by {
                    assert(t2[j] == t[j + 1]);
                    assert(t.subrange(0, q.len() as int)[j + 1] == q[j + 1]);
                }
                lemma_replace_prefix_unchanged(s2, p, r, n);
                assert(s.subrange(0, q.len() as int) =~= t.subrange(0, q.len() as int)) by {
                    assert forall|j: int| 0 <= j < q.len() implies s[j] == t[j] by {
                        if j > 0 {
                            assert(t[j] == t2[j - 1]);
                            assert(s2[j - 1] == s[j]);
                        }
                    }
                }
                if q == p {
                    assert(s.take(p.len() as int) =~= s.subrange(0, q.len() as int));
                }
            }
        }
    }
}

/// A text passed through `safe` holds neither `@everyone` nor `@here`, so
/// quoting it can never ping a whole server.
pub proof fn lemma_safe_text_has_no_mass_mention(raw: Seq<char>)
    ensures
        !occurs(safe_text(raw), everyone_mention()),
        !occurs(safe_text(raw), here_mention()),
{
    let e = everyone_mention();
    let ed = everyone_defused();
    let h = here_mention();
    let hd = here_defused();
    assert(forall|j: int| 1 <= j < e.len() ==> #[trigger] e[j] != e[0]);
    assert(forall|j: int| 1 <= j < h.len() ==> #[trigger] h[j] != h[0]);
    assert(forall|j: int| 1 <= j < ed.len() ==> #[trigger] ed[j] != e[0]);
    assert(forall|j: int| 1 <= j < hd.len() ==> #[trigger] hd[j] != h[0]);
    let s1 = escape_dots(raw, true);
    let s2 = replace_all(s1, e, ed);
    lemma_replace_avoids(s1, e, ed, e);
    lemma_replace_avoids(s2, h, hd, e);
    lemma_replace_avoids(s2, h, hd, h);
}

/// The escaping state after the character `c`, from the state `escaped`:
/// a backslash flips it, anything else clears it.
pub open spec fn next_escape_state(c: char, escaped: bool) -> bool {
    if c == '\\' {
        !escaped
    } else {
        false
    }
}

/// Every dot of `s` is escaped already, reading `s` from the state `escaped`.
pub open spec fn dots_escaped(s: Seq<char>, escaped: bool) -> bool
    decreases s.len(),
{
    if s.len() == 0 {
        true
    } else {
        !(s[0] == '.' && !escaped) && dots_escaped(s.drop_first(), next_escape_state(s[0], escaped))
    }
}

/// Neither a dot nor a backslash.
pub open spec fn plain_text(s: Seq<char>) -> bool {
    forall|j: int| 0 <= j < s.len() ==> #[trigger] s[j] != '.' && s[j] != '\\'
}

/// Escaping leaves a text whose dots are all escaped unchanged.
proof fn lemma_escape_fixed(s: Seq<char>, escaped: bool)
    requires
        dots_escaped(s, escaped),
    ensures
        escape_dots(s, escaped) == s,
    decreases s.len(),
{
    if s.len() > 0 {
        lemma_escape_fixed(s.drop_first(), next_escape_state(s[0], escaped));
        assert(s =~= seq![s[0]] + s.drop_first());
    }
}

/// After escaping, every dot is escaped.
proof fn lemma_escape_escapes(s: Seq<char>, escaped: bool)
    ensures
        dots_escaped(escape_dots(s, escaped), escaped),
    decreases s.len(),
{
    if s.len() > 0 {
        let c = s[0];
        let next = next_escape_state(c, escaped);
        lemma_escape_escapes(s.drop_first(), next);
        let tail = escape_dots(s.drop_first(), next);
        if c == '.' && !escaped {
            let e = seq!['\\', c] + tail;
            assert(e.drop_first() =~= seq![c] + tail);
            assert((seq![c] + tail).drop_first() =~= tail);
            assert(dots_escaped(seq![c] + tail, true));
            assert(dots_escaped(e, escaped));
        } else {
            assert((seq![c] + tail).drop_first() =~= tail);
        }
    }
}

/// A plain, nonempty text before `b` leaves the escaping state cleared.
proof fn lemma_plain_prefix(a: Seq<char>, b: Seq<char>, escaped: bool)
    requires
        a.len() > 0,
        plain_text(a),
    ensures
        dots_escaped(a + b, escaped) == dots_escaped(b, false),
    decreases a.len(),
{
    assert((a + b)[0] == a[0]);
    assert(a[0] != '.' && a[0] != '\\');
    if a.len() == 1 {
        assert((a + b).drop_first() =~= b);
    } else {
        assert((a + b).drop_first() =~= a.drop_first() + b);
        assert forall|j: int| 0 <= j < a.drop_first().len() implies #[trigger] a.drop_first()[j] != '.'
            && a.drop_first()[j] != '\\' by {
            assert(a.drop_first()[j] == a[j + 1]);
        }
        lemma_plain_prefix(a.drop_first(), b, false);
    }
}

/// Replacing a plain text by another plain text keeps every dot escaped.
proof fn lemma_replace_keeps_escaped(s: Seq<char>, p: Seq<char>, r: Seq<char>, escaped: bool)
    requires
        p.len() > 0,
        r.len() > 0,
        plain_text(p),
        plain_text(r),
        dots_escaped(s, escaped),
    ensures
        dots_escaped(replace_all(s, p, r), escaped),
    decreases s.len(),
{
    if s.len() >= p.len() {
        if s.take(p.len() as int) == p {
            let rest = s.skip(p.len() as int);
            assert(s =~= p + rest);
            lemma_plain_prefix(p, rest, escaped);
            lemma_replace_keeps_escaped(rest, p, r, false);
            lemma_plain_prefix(r, replace_all(rest, p, r), escaped);
        } else {
            let rest = s.drop_first();
            let next = next_escape_state(s[0], escaped);
            lemma_replace_keeps_escaped(rest, p, r, next);
            let out = seq![s[0]] + replace_all(rest, p, r);
            assert(out.drop_first() =~= replace_all(rest, p, r));
            assert(out[0] == s[0]);
        }
    }
}

/// Replacing a text that does not occur changes nothing.
proof fn lemma_replace_absent(s: Seq<char>, p: Seq<char>, r: Seq<char>)
    requires
        p.len() > 0,
        !occurs(s, p),
    ensures
        replace_all(s, p, r) == s,
    decreases s.len(),
{
    if s.len() >= p.len() {
        if s.take(p.len() as int) == p {
            assert(s.subrange(0int, 0int + p.len()) =~= s.take(p.len() as int));
            assert(s.subrange(0int, 0int + p.len()) == p);
            assert(occurs(s, p));
        } else {
            let rest = s.drop_first();
            assert(!occurs(rest, p)) by {
                if occurs(rest, p) {
                    let i = choose|i: int| 0 <= i && i + p.len() <= rest.len() && #[trigger] rest.subrange(i, i + p.len()) == p;
                    assert(s.subrange(i + 1, i + 1 + p.len()) =~= rest.subrange(i, i + p.len()));
                }
            }
            lemma_replace_absent(rest, p, r);
            assert(s =~= seq![s[0]] + rest);
        }
    }
}

/// Making a text safe twice gives the same text as making it safe once.
pub proof fn lemma_safe_idempotent(raw: Seq<char>)
    ensures
        safe_text(safe_text(raw)) == safe_text(raw),
{
    let e = everyone_mention();
    let ed = everyone_defused();
    let h = here_mention();
    let hd = here_defused();
    assert(plain_text(e));
    assert(plain_text(ed));
    assert(plain_text(h));
    assert(plain_text(hd));
    let s1 = escape_dots(raw, true);
    let s2 = replace_all(s1, e, ed);
    let t = replace_all(s2, h, hd);
    lemma_escape_escapes(raw, true);
    lemma_replace_keeps_escaped(s1, e, ed, true);
    lemma_replace_keeps_escaped(s2, h, hd, true);
    lemma_escape_fixed(t, true);
    lemma_safe_text_has_no_mass_mention(raw);
    lemma_replace_absent(t, e, ed);
    lemma_replace_absent(t, h, hd);
}

/// What a coin transition says: whose coins, and the balances before, after
/// and the change, each possibly unknown.
pub struct TransitionView {
    pub name: Seq<char>,
    pub before: Option<i32>,
    pub after: Option<i32>,
    pub increase: Option<i32>,
}

impl TransitionView {
    /// Each balance is given, or follows from the other balance and the change
    /// without leaving the range of `i32`.
    pub open spec fn renderable(self) -> bool {
        &&& (self.before is Some || (self.after is Some && self.increase is Some
            && i32::MIN <= self.after->0 - self.increase->0 <= i32::MAX))
        &&& (self.after is Some || (self.before is Some && self.increase is Some
            && i32::MIN <= self.before->0 + self.increase->0 <= i32::MAX))
    }

    /// The balance shown before the arrow.
    pub open spec fn shown_before(self) -> int {
        match self.before {
            Some(v) => v as int,
            None => self.after->0 - self.increase->0,
        }
    }

    /// The balance shown after the arrow.
    pub open spec fn shown_after(self) -> int {
        match self.after {
            Some(v) => v as int,
            None => self.before->0 + self.increase->0,
        }
    }
}

/// A change of someone's coin balance, as told to the members.
pub struct PointTransition {
    name: String,
    before: Option<i32>,
    after: Option<i32>,
    increase: Option<i32>,
}

impl View for PointTransition {
    type V = TransitionView;

    closed spec fn view(&self) -> TransitionView {
        TransitionView {
            name: self.name@,
            before: self.before,
            after: self.after,
            increase: self.increase,
        }
    }
}

impl PointTransition {
    /// A transition for the member called `raw_name`, with nothing known yet;
    /// the name is made safe to quote.
    pub fn name(raw_name: &str) -> (t: Self)
        ensures
            t@ == (TransitionView {
                name: safe_text(raw_name@),
                before: None,
                after: None,
                increase: None,
            }),
    {
        PointTransition { name: safe(raw_name), before: None, after: None, increase: None }
    }

    /// Records the balance before the change.
    pub fn before(self, value: i32) -> (t: Self)
        ensures
            t@ == (TransitionView { before: Some(value), ..self@ }),
    {
        let mut t = self;
        t.before = Some(value);
        t
    }

    /// Records the balance after the change.
    pub fn after(self, value: i32) -> (t: Self)
        ensures
            t@ == (TransitionView { after: Some(value), ..self@ }),
    {
        let mut t = self;
        t.after = Some(value);
        t
    }

    /// Records the change itself.
    pub fn increase(self, value: i32) -> (t: Self)
        ensures
            t@ == (TransitionView { increase: Some(value), ..self@ }),
    {
        let mut t = self;
        t.increase = Some(value);
        t
    }

    /// The line that announces the transition:
    /// `<name>の所持コイン：<before>→<after>`, a missing balance being worked
    /// out from the other one and the change.
    pub fn render(&self) -> (out: String)
        requires
            self@.renderable(),
        ensures
            out@ == self@.name + "の所持コイン："@ + signed_decimal(self@.shown_before())
                + "→"@ + signed_decimal(self@.shown_after()),
    {
        let before: i32 = match self.before {
            Some(v) => v,
            None => self.after.unwrap() - self.increase.unwrap(),
        };
        let after: i32 = match self.after {
            Some(v) => v,
            None => self.before.unwrap() + self.increase.unwrap(),
        };
        let mut out = self.name.clone();
        push_str(&mut out, "の所持コイン：");
        push_signed_decimal(&mut out, before as i64);
        push_str(&mut out, "→");
        push_signed_decimal(&mut out, after as i64);
        out
    }
}

/// The name a message's author goes by on the server: the nickname of the
/// author as a member when there is one, else the user name.
pub fn display_name(nick: &Option<String>, user_name: &String) -> (r: String)
    ensures
        r@ == match nick {
            Some(n) => n@,
            None => user_name@,
        },
{
    match nick {
        Some(n) => n.clone(),
        None => user_name.clone(),
    }
}

} // verus!
