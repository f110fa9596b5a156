use sumire_bot::strings::{optimal_damerau_levenshtein, safe, PointTransition};

#[test]
fn distance_of_classic_pairs() {
    assert_eq!(optimal_damerau_levenshtein("kitten", "sitting"), 3);
    assert_eq!(optimal_damerau_levenshtein("", "abc"), 3);
    assert_eq!(optimal_damerau_levenshtein("abc", ""), 3);
    assert_eq!(optimal_damerau_levenshtein("", ""), 0);
}

#[test]
fn adjacent_transposition_costs_one() {
    assert_eq!(optimal_damerau_levenshtein("ab", "ba"), 1);
    assert_eq!(optimal_damerau_levenshtein("coin", "ocin"), 1);
}

#[test]
fn no_substring_is_edited_twice() {
    assert_eq!(optimal_damerau_levenshtein("ca", "abc"), 3);
}

#[test]
fn distance_counts_characters_not_bytes() {
    assert_eq!(optimal_damerau_levenshtein("コイン", "コイソ"), 1);
    assert_eq!(optimal_damerau_levenshtein("ヘルプ", "ヘルプ"), 0);
}

#[test]
fn distance_is_symmetric_on_examples() {
    assert_eq!(
        optimal_damerau_levenshtein("ranking", "rnaking"),
        optimal_damerau_levenshtein("rnaking", "ranking")
    );
}

#[test]
fn safe_escapes_unescaped_dots() {
    assert_eq!(safe("a.b"), "a\\.b");
    assert_eq!(safe(".a"), ".a");
    assert_eq!(safe("a\\.b"), "a\\.b");
    assert_eq!(safe("a\\\\.b"), "a\\\\\\.b");
    assert_eq!(safe("x..y"), "x\\.\\.y");
}

#[test]
fn safe_defuses_mass_mentions() {
    assert_eq!(safe("@everyone"), "@\u{200b}everyone");
    assert_eq!(safe("hi @here!"), "hi @\u{200b}here!");
    assert_eq!(safe("@@everyone"), "@@\u{200b}everyone");
    assert!(!safe("@everyone @here").contains("@everyone"));
    assert!(!safe("@everyone @here").contains("@here"));
}

#[test]
fn safe_leaves_plain_text_alone() {
    assert_eq!(safe("かえるさん"), "かえるさん");
    assert_eq!(safe(""), "");
}

#[test]
fn transition_with_before_and_increase() {
    let t = PointTransition::name("かえる").before(100).increase(-30);
    assert_eq!(t.render(), "かえるの所持コイン：100→70");
}

#[test]
fn transition_with_after_and_increase() {
    let t = PointTransition::name("かえる").increase(50).after(120);
    assert_eq!(t.render(), "かえるの所持コイン：70→120");
}

#[test]
fn transition_with_both_balances() {
    let t = PointTransition::name("a.b").before(-5).after(0);
    assert_eq!(t.render(), "a\\.bの所持コイン：-5→0");
}

#[test]
fn safe_twice_is_safe_once() {
    for raw in ["a.b", "\\.x", "\\\\.y", "..", "@everyone.", "@@here", "x\\"] {
        let once = safe(raw);
        assert_eq!(safe(&once), once);
    }
}
