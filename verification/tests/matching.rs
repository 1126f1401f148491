use rgrep::matching::relaxed::{find_match, not_matched};
use rgrep::matching::strict::{find_match_strict, keep_non_match, keep_word_match, not_matched_strict, word_pattern_compiles};

#[test]
fn relaxed_finds_substrings() {
    assert_eq!(find_match("archhellobabes".to_string(), 4, "hello", false, false), Some((4, "archhellobabes".to_string())));
    assert_eq!(find_match("archhellobabes".to_string(), 4, "hello", false, true), Some((4, "hello".to_string())));
    assert_eq!(find_match("wtfHellO".to_string(), 7, "hello", false, false), None);
}

#[test]
fn relaxed_ignores_ascii_case_and_keeps_the_lines_case() {
    assert_eq!(find_match("wtfHellO".to_string(), 7, "hello", true, true), Some((7, "HellO".to_string())));
    assert_eq!(find_match("wtfHellO".to_string(), 7, "HELLO", true, false), Some((7, "wtfHellO".to_string())));
}

#[test]
fn relaxed_takes_the_leftmost_occurrence() {
    assert_eq!(find_match("aXbxc".to_string(), 1, "x", true, true), Some((1, "X".to_string())));
}

#[test]
fn relaxed_counts_characters_not_bytes() {
    assert_eq!(find_match("héllo wörld".to_string(), 2, "wö", false, true), Some((2, "wö".to_string())));
    // non-ASCII letters are not folded
    assert_eq!(find_match("ÉCOLE".to_string(), 2, "école", true, false), None);
}

#[test]
fn relaxed_empty_target_matches_everything() {
    assert_eq!(find_match("abc".to_string(), 3, "", false, true), Some((3, "".to_string())));
    assert_eq!(not_matched("abc".to_string(), 3, "", false), None);
}

#[test]
fn relaxed_not_matched() {
    assert_eq!(not_matched("zooweemama".to_string(), 8, "hello", true), Some((8, "zooweemama".to_string())));
    assert_eq!(not_matched("HELLO".to_string(), 8, "hello", true), None);
    assert_eq!(not_matched("HELLO".to_string(), 8, "hello", false), Some((8, "HELLO".to_string())));
}

#[test]
fn strict_matches_whole_words_only() {
    assert_eq!(find_match_strict("say hello there".to_string(), 1, "hello", false, false), Some((1, "say hello there".to_string())));
    assert_eq!(find_match_strict("archhellobabes".to_string(), 4, "hello", false, false), None);
    assert_eq!(find_match_strict("wtfhello".to_string(), 6, "hello", true, false), None);
}

#[test]
fn strict_only_keeps_the_matched_word_in_the_lines_case() {
    assert_eq!(find_match_strict("say HeLLo there".to_string(), 1, "hello", true, true), Some((1, "HeLLo".to_string())));
    assert_eq!(find_match_strict("ça hello là".to_string(), 1, "hello", false, true), Some((1, "hello".to_string())));
}

#[test]
fn strict_target_is_a_regex() {
    assert_eq!(find_match_strict("call foo12 now".to_string(), 1, "foo[0-9]+", false, true), Some((1, "foo12".to_string())));
}

#[test]
fn strict_not_matched() {
    assert_eq!(not_matched_strict("archhellobabes".to_string(), 4, "hello", true), Some((4, "archhellobabes".to_string())));
    assert_eq!(not_matched_strict("Hello".to_string(), 2, "hello", true), None);
}

#[test]
fn word_patterns_that_do_not_compile() {
    assert!(word_pattern_compiles("hello", false));
    assert!(!word_pattern_compiles("(", false));
    assert!(!word_pattern_compiles("a[", true));
}

#[test]
fn keep_word_match_takes_the_span_from_the_line() {
    // the match was found on the folded line "say hello there"
    let m = Some(("say ".to_string(), "hello".to_string()));
    assert_eq!(keep_word_match("say HELLO there".to_string(), 3, m.clone(), true), Some((3, "HELLO".to_string())));
    assert_eq!(keep_word_match("say HELLO there".to_string(), 3, m, false), Some((3, "say HELLO there".to_string())));
    assert_eq!(keep_word_match("say HELLO there".to_string(), 3, None, true), None);
}

#[test]
fn keep_non_match_keeps_lines_without_a_match() {
    assert_eq!(keep_non_match("abc".to_string(), 5, None), Some((5, "abc".to_string())));
    assert_eq!(keep_non_match("abc".to_string(), 5, Some(("a".to_string(), "b".to_string()))), None);
}
