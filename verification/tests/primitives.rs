use lib::alternatives::{add_pattern, pop_last_pattern};
use lib::compile::compile_pattern;
use lib::matcher::{Check, Pattern};
use lib::search::{add_back_ref_pattern_to_all, test_pattern, SearchError};

fn verdicts(p: &Pattern, line: &str) -> Vec<Check> {
    line.chars().map(|c| p.check(c)).collect()
}

fn is_char(p: &Pattern, expected: char) -> bool {
    matches!(p, Pattern::Char(c) if *c == expected)
}

#[test]
fn add_pattern_appends_to_every_alternative() {
    let mut alts: Vec<Vec<Pattern>> = vec![vec![Pattern::Char('a')], vec![]];
    add_pattern(Pattern::Char('z'), &mut alts);
    assert_eq!(alts[0].len(), 2);
    assert_eq!(alts[1].len(), 1);
    assert!(is_char(&alts[0][1], 'z'));
    assert!(is_char(&alts[1][0], 'z'));
}

#[test]
fn pop_last_pattern_returns_last_alternative_entry() {
    let mut alts: Vec<Vec<Pattern>> =
        vec![vec![Pattern::Char('a'), Pattern::Char('b')], vec![Pattern::Char('c')]];
    let popped = pop_last_pattern(&mut alts);
    assert!(matches!(popped, Some(Pattern::Char('c'))));
    assert_eq!(alts[0].len(), 1);
    assert!(is_char(&alts[0][0], 'a'));
    assert_eq!(alts[1].len(), 0);
}

#[test]
fn pop_last_pattern_with_empty_last_alternative() {
    let mut alts: Vec<Vec<Pattern>> = vec![vec![Pattern::Char('a')], vec![]];
    let popped = pop_last_pattern(&mut alts);
    assert!(popped.is_none());
    assert_eq!(alts[0].len(), 0);
}

#[test]
fn pop_last_pattern_with_no_alternative() {
    let mut alts: Vec<Vec<Pattern>> = vec![];
    assert!(pop_last_pattern(&mut alts).is_none());
}

#[test]
fn pop_undoes_add() {
    let mut alts: Vec<Vec<Pattern>> = vec![vec![Pattern::Digit], vec![Pattern::Word]];
    add_pattern(Pattern::Char('q'), &mut alts);
    let popped = pop_last_pattern(&mut alts);
    assert!(matches!(popped, Some(Pattern::Char('q'))));
    assert!(matches!(alts[0][..], [Pattern::Digit]));
    assert!(matches!(alts[1][..], [Pattern::Word]));
}

#[test]
fn back_reference_letters_go_to_open_groups_only() {
    let mut refs: Vec<(Vec<Pattern>, bool)> =
        vec![(vec![Pattern::RefLast('x')], true), (vec![], false), (vec![Pattern::Char('a')], false)];
    let letter = add_back_ref_pattern_to_all('k', &mut refs);
    assert_eq!(letter, 'k');
    assert_eq!(refs[0].0.len(), 1);
    assert!(matches!(refs[0].0[0], Pattern::RefLast('x')));
    assert_eq!(refs[1].0.len(), 1);
    assert!(is_char(&refs[1].0[0], 'k'));
    assert_eq!(refs[2].0.len(), 2);
    assert!(is_char(&refs[2].0[1], 'k'));
    assert!(!refs[1].1 && !refs[2].1 && refs[0].1);
}

#[test]
fn matcher_verdicts() {
    assert_eq!(verdicts(&Pattern::Digit, "5a"), vec![Check::Match, Check::Nok]);
    assert_eq!(verdicts(&Pattern::Word, "Z_"), vec![Check::Match, Check::Nok]);
    assert_eq!(verdicts(&Pattern::AnyChar, "\0"), vec![Check::Match]);
    assert_eq!(verdicts(&Pattern::InClass(vec!['x', 'y']), "yz"), vec![Check::Match, Check::Nok]);
    assert_eq!(verdicts(&Pattern::LineEnd, "a"), vec![Check::End]);
    assert_eq!(verdicts(&Pattern::GroupStart, "a"), vec![Check::BackRefRecordStart]);
    assert_eq!(verdicts(&Pattern::GroupEnd, "a"), vec![Check::BackRefRecordEnd]);
    assert_eq!(verdicts(&Pattern::BackRef(2), "a"), vec![Check::BackRefCall(2)]);
    assert_eq!(
        verdicts(&Pattern::RefLast('a'), "ab"),
        vec![Check::BackRefValidated, Check::Nok]
    );
    assert_eq!(
        verdicts(&Pattern::OneOrMore(Box::new(Pattern::Char('a'))), "ab"),
        vec![Check::OkRepeat, Check::EndRepeat]
    );
    assert_eq!(
        verdicts(&Pattern::ZeroOrOne(Box::new(Pattern::Char('a'))), "ab"),
        vec![Check::Match, Check::Optional]
    );
}

#[test]
fn compile_literal_pattern() {
    let compiled = compile_pattern("ab");
    assert!(!compiled.on_start);
    assert_eq!(compiled.alternatives.len(), 1);
    assert_eq!(compiled.alternatives[0].len(), 2);
    assert!(is_char(&compiled.alternatives[0][0], 'a'));
    assert!(is_char(&compiled.alternatives[0][1], 'b'));
}

#[test]
fn compile_anchored_pattern() {
    let compiled = compile_pattern("^ab");
    assert!(compiled.on_start);
    assert_eq!(compiled.alternatives.len(), 1);
    assert_eq!(compiled.alternatives[0].len(), 2);
}

#[test]
fn compile_caret_in_the_middle_is_literal() {
    let compiled = compile_pattern("a^b");
    assert!(!compiled.on_start);
    assert_eq!(compiled.alternatives[0].len(), 3);
    assert!(is_char(&compiled.alternatives[0][1], '^'));
}

#[test]
fn compile_alternation() {
    let compiled = compile_pattern("(ab|c)");
    assert_eq!(compiled.alternatives.len(), 2);
    assert!(matches!(
        compiled.alternatives[0][..],
        [Pattern::GroupStart, Pattern::Char('c'), Pattern::GroupEnd]
    ));
    assert!(matches!(
        compiled.alternatives[1][..],
        [Pattern::GroupStart, Pattern::Char('a'), Pattern::Char('b'), Pattern::GroupEnd]
    ));
}

#[test]
fn compile_escapes_and_quantifiers() {
    let compiled = compile_pattern("\\d+\\w?\\3.$");
    assert_eq!(compiled.alternatives.len(), 1);
    let row = &compiled.alternatives[0];
    assert_eq!(row.len(), 5);
    assert!(matches!(&row[0], Pattern::OneOrMore(inner) if matches!(**inner, Pattern::Digit)));
    assert!(matches!(&row[1], Pattern::ZeroOrOne(inner) if matches!(**inner, Pattern::Word)));
    assert!(matches!(row[2], Pattern::BackRef(2)));
    assert!(matches!(row[3], Pattern::AnyChar));
    assert!(matches!(row[4], Pattern::LineEnd));
}

#[test]
fn compile_classes() {
    let compiled = compile_pattern("[a-c]");
    match &compiled.alternatives[0][0] {
        Pattern::InClass(chars) => assert_eq!(chars, &vec!['a', 'c']),
        _ => panic!("expected a class"),
    }
    let negated = compile_pattern("[^a]");
    match &negated.alternatives[0][0] {
        Pattern::InClass(chars) => {
            assert_eq!(chars.len(), 125);
            assert!(!chars.contains(&'a'));
            assert!(chars.contains(&'b'));
            assert!(chars.contains(&'\u{1}'));
            assert!(chars.contains(&'~'));
            assert!(!chars.contains(&'\u{7f}'));
        }
        _ => panic!("expected a class"),
    }
}

#[test]
fn plus_with_nothing_before_it() {
    let compiled = compile_pattern("+a");
    assert_eq!(compiled.alternatives[0].len(), 1);
    assert!(is_char(&compiled.alternatives[0][0], 'a'));
}

#[test]
fn test_pattern_tries_last_alternative_first() {
    let alts = vec![vec![Pattern::BackRef(0)], vec![Pattern::Char('a')]];
    assert_eq!(test_pattern("a", &alts, false), Ok(true));
    assert_eq!(test_pattern("b", &alts, false), Err(SearchError::UnreachableBackReference));
}

#[test]
fn test_pattern_anchored_stops_at_first_mismatch() {
    let alts = vec![vec![Pattern::Char('b')]];
    assert_eq!(test_pattern("ab", &alts, true), Ok(false));
    assert_eq!(test_pattern("ab", &alts, false), Ok(true));
}

#[test]
fn test_pattern_without_alternatives() {
    let alts: Vec<Vec<Pattern>> = vec![];
    assert_eq!(test_pattern("abc", &alts, false), Ok(false));
}

#[test]
fn test_pattern_stray_validation_matcher_makes_no_progress() {
    let alts = vec![vec![Pattern::RefLast('a')]];
    assert_eq!(test_pattern("a", &alts, false), Err(SearchError::NoProgress));
}

#[test]
fn pattern_without_pipe_has_one_alternative() {
    for p in ["", "a(b)c+", "[^x]y", "^\\d?", "(((", ")))"] {
        assert_eq!(compile_pattern(p).alternatives.len(), 1);
    }
}

#[test]
fn alternative_order_does_not_matter() {
    let lines = ["xb", "a", "c", ""];
    for line in lines {
        let one = vec![vec![Pattern::Char('a')], vec![Pattern::Char('b')]];
        let two = vec![vec![Pattern::Char('b')], vec![Pattern::Char('a')], vec![Pattern::Char('b')]];
        assert_eq!(test_pattern(line, &one, false), test_pattern(line, &two, false));
    }
    let one = vec![vec![Pattern::Char('a')], vec![Pattern::Char('b')]];
    assert_eq!(test_pattern("xb", &one, false), Ok(true));
}

#[test]
fn text_in_front_keeps_a_match() {
    let alts = vec![vec![Pattern::Char('a'), Pattern::LineEnd]];
    assert_eq!(test_pattern("ba", &alts, false), Ok(true));
    assert_eq!(test_pattern("zzba", &alts, false), Ok(true));
}

#[test]
fn recorded_letters_come_in_order() {
    let mut refs: Vec<(Vec<Pattern>, bool)> = vec![(vec![Pattern::Digit], false), (vec![], true)];
    for c in ['x', 'y', 'z'] {
        add_back_ref_pattern_to_all(c, &mut refs);
    }
    assert!(matches!(
        refs[0].0[..],
        [Pattern::Digit, Pattern::Char('x'), Pattern::Char('y'), Pattern::Char('z')]
    ));
    assert!(!refs[0].1);
    assert!(refs[1].0.is_empty() && refs[1].1);
}
