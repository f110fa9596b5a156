use vstd::prelude::*;

use crate::command_list::strings_view;
use crate::text::chars_of;

verus! {

/// Whether `p` is a prefix of `s`.
pub open spec fn is_prefix(p: Seq<char>, s: Seq<char>) -> bool {
    p.len() <= s.len() && s.take(p.len() as int) == p
}

/// Whether `p` occurs somewhere in `s`.
pub open spec fn contains_text(s: Seq<char>, p: Seq<char>) -> bool {
    exists|i: int| 0 <= i && i + p.len() <= s.len() && #[trigger] s.subrange(i, i + p.len()) == p
}

/// Whether `p` stands in `s` at position `i`.
fn stands_at(s: &Vec<char>, i: usize, p: &Vec<char>) -> (b: bool)
    requires
        i <= s@.len(),
    ensures
        b == (i + p@.len() <= s@.len() && s@.subrange(i as int, i + p@.len()) == p@),
{
    if p.len() > s.len() - i {
        return false;
    }
    let mut k: usize = 0;
    while k < p.len()
        invariant
            i + p@.len() <= s@.len(),
            s@.len() <= usize::MAX,
            k <= p@.len(),
            forall|t: int| 0 <= t < k ==> s@[i + t] == p@[t],
        decreases p@.len() - k,
    {
        if s[i + k] != p[k] {
            assert(s@.subrange(i as int, i + p@.len())[k as int] != p@[k as int]);
            return false;
        }
        k += 1;
    }
    assert(s@.subrange(i as int, i + p@.len()) =~= p@);
    true
}

/// Whether the message `content` starts with one of the command prefixes.
pub fn starts_with_prefix(content: &str, prefixes: &Vec<String>) -> (b: bool)
    ensures
        b == exists|k: int| 0 <= k < prefixes@.len() && is_prefix(#[trigger] strings_view(prefixes@)[k], content@),
{
    let c = chars_of(content);
    let mut k: usize = 0;
    while k < prefixes.len()
        invariant
            c@ == content@,
            k <= prefixes@.len(),
            forall|j: int| 0 <= j < k ==> !is_prefix(#[trigger] strings_view(prefixes@)[j], content@),
        decreases prefixes@.len() - k,
    {
        let p = chars_of(prefixes[k].as_str());
        assert(strings_view(prefixes@)[k as int] == p@);
        if stands_at(&c, 0, &p) {
            assert(c@.subrange(0, p@.len() as int) =~= c@.take(p@.len() as int));
            return true;
        }
        assert(p@.len() <= c@.len() ==> c@.subrange(0, p@.len() as int) =~= c@.take(p@.len() as int));
        k += 1;
    }
    false
}

/// Whether `s` contains `p`.
pub fn contains_str(s: &str, p: &str) -> (b: bool)
    ensures
        b == contains_text(s@, p@),
{
    let sc = chars_of(s);
    let pc = chars_of(p);
    let mut i: usize = 0;
    while i < sc.len()
        invariant
            sc@ == s@,
            pc@ == p@,
            i <= sc@.len(),
            forall|j: int| 0 <= j < i ==> !(j + p@.len() <= s@.len() && #[trigger] s@.subrange(j, j + p@.len()) == p@),
        decreases sc@.len() - i,
    {
        if stands_at(&sc, i, &pc) {
            return true;
        }
        i += 1;
    }
    if stands_at(&sc, i, &pc) {
        return true;
    }
    assert forall|j: int| 0 <= j && j + p@.len() <= s@.len() implies #[trigger] s@.subrange(j, j + p@.len()) != p@ by {
        assert(j <= sc@.len());
    }
    false
}

/// The prefix the framework should accept for a message: in the release
/// build, a message that starts with none of the prefixes but is sent in a
/// channel whose name contains `コマンド` is read as a command without
/// prefix (`Some("")`); otherwise the usual prefixes apply (`None`).
pub fn dynamic_prefix(is_debug: bool, content: &str, prefixes: &Vec<String>, channel_name: &str) -> (r: Option<String>)
    ensures
        (r is Some) == (!is_debug && !(exists|k: int|
            0 <= k < prefixes@.len() && is_prefix(#[trigger] strings_view(prefixes@)[k], content@))
            && contains_text(channel_name@, "コマンド"@)),
        r matches Some(p) ==> p@ == Seq::<char>::empty(),
{
    if !is_debug && !starts_with_prefix(content, prefixes) && contains_str(channel_name, "コマンド") {
        Some(String::new())
    } else {
        None
    }
}

} // verus!
