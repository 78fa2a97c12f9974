use lib::match_line;
use lib::search::SearchError;

#[test]
fn literal_found_inside_line() {
    assert_eq!(match_line("apple", "pineapple pie"), Ok(true));
}

#[test]
fn literal_missing() {
    assert_eq!(match_line("apple", "orange"), Ok(false));
}

#[test]
fn anchored_literal_at_start() {
    assert_eq!(match_line("^log", "logfile"), Ok(true));
}

#[test]
fn anchored_literal_elsewhere() {
    assert_eq!(match_line("^log", "a log"), Ok(false));
}

#[test]
fn anchored_line_too_short() {
    assert_eq!(match_line("^logs", "log"), Ok(false));
}

#[test]
fn digit_class() {
    assert_eq!(match_line("\\d", "abc3"), Ok(true));
    assert_eq!(match_line("\\d", "abc"), Ok(false));
}

#[test]
fn word_class() {
    assert_eq!(match_line("\\w", "!a"), Ok(true));
    assert_eq!(match_line("\\w", "!!"), Ok(false));
    assert_eq!(match_line("\\w", "_"), Ok(false));
}

#[test]
fn unknown_escape_is_dropped() {
    assert_eq!(match_line("a\\zb", "ab"), Ok(true));
}

#[test]
fn positive_group() {
    assert_eq!(match_line("[abc]", "xyzb"), Ok(true));
    assert_eq!(match_line("[abc]", "xyz"), Ok(false));
}

#[test]
fn negative_group() {
    assert_eq!(match_line("[^abc]", "abc"), Ok(false));
    assert_eq!(match_line("[^abc]", "abd"), Ok(true));
}

#[test]
fn negative_group_swallows_what_follows() {
    // After `[^...]` the pending characters are kept, so the `x` is never
    // turned into a matcher.
    assert_eq!(match_line("[^abc]x", "d"), Ok(true));
}

#[test]
fn any_character() {
    assert_eq!(match_line("a.c", "xabc"), Ok(true));
    assert_eq!(match_line("a.c", "ac"), Ok(false));
}

#[test]
fn one_or_more() {
    assert_eq!(match_line("a+", "caaat"), Ok(true));
    assert_eq!(match_line("ca+t", "caaat"), Ok(true));
    assert_eq!(match_line("ca+t", "ct"), Ok(false));
}

#[test]
fn zero_or_one() {
    assert_eq!(match_line("colou?r", "color"), Ok(true));
    assert_eq!(match_line("colou?r", "colour"), Ok(true));
    assert_eq!(match_line("colou?r", "colouur"), Ok(false));
}

#[test]
fn end_of_line() {
    assert_eq!(match_line("abc$", "xabc"), Ok(true));
    assert_eq!(match_line("abc$", "abcd"), Ok(false));
    assert_eq!(match_line("abc$", "abc\n"), Ok(false));
}

#[test]
fn alternation() {
    assert_eq!(match_line("(cat|dog)", "dog"), Ok(true));
    assert_eq!(match_line("(cat|dog)", "a cat"), Ok(true));
    assert_eq!(match_line("(cat|dog)", "cow"), Ok(false));
}

#[test]
fn back_reference() {
    assert_eq!(match_line("(a)\\1", "aa"), Ok(true));
    assert_eq!(match_line("(a)\\1", "ab"), Ok(false));
    assert_eq!(match_line("(ab)\\1", "xabab"), Ok(true));
}

#[test]
fn back_reference_to_missing_group() {
    assert_eq!(match_line("\\1", "x"), Err(SearchError::UnreachableBackReference));
}

#[test]
fn back_reference_inside_its_own_group() {
    assert_eq!(match_line("(\\1)", "x"), Err(SearchError::NoProgress));
}

#[test]
fn empty_pattern_matches_any_non_empty_line() {
    assert_eq!(match_line("", "abc"), Ok(true));
}

#[test]
fn empty_line_never_matches() {
    assert_eq!(match_line("", ""), Ok(false));
    assert_eq!(match_line(".", ""), Ok(false));
    assert_eq!(match_line("a?", ""), Ok(false));
}

#[test]
fn pattern_without_backslash_always_answers() {
    for line in ["", "abc", "((", "a|b", "\\1"] {
        assert!(match_line("(a|b)+c?$", line).is_ok());
        assert!(match_line("(x(y)z", line).is_ok());
    }
}

#[test]
fn alternation_with_an_empty_branch() {
    assert_eq!(match_line("(|zz)", "q"), Ok(true));
    assert_eq!(match_line("(|zz)", ""), Ok(false));
}
