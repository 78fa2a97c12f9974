//! Properties of the compiler and of the search as a whole.

use vstd::prelude::*;
use crate::matcher::SpecPattern;
use crate::compile::{
    CompileState, compile_step, compile_prefix, compiled_alternatives, initial_state, is_anchored,
    is_just, alphanumerics, complement, alphanumeric_pred,
};
use crate::alternatives::{appended, shortened, popped};
use crate::matcher::Check;
use crate::sequences::lemma_filter_framed;
use crate::search::{
    Attempt, Cursor, SpecRecord, Step, cursor_wf, record_letter, run, step, start_cursor,
    attempt_at, scan, search, search_upto, SearchError, last_open,
};

verus! {

/// A character that the compiler turns into a plain literal matcher.
pub open spec fn is_plain(c: char) -> bool {
    &&& c != '\0'
    &&& c != '\\'
    &&& c != '$'
    &&& c != '['
    &&& c != '('
    &&& c != '|'
    &&& c != ')'
    &&& c != '+'
    &&& c != '?'
    &&& c != '.'
    &&& c != '^'
}

/// Every character of `w` is plain.
pub open spec fn all_plain(w: Seq<char>) -> bool {
    forall|i: int| 0 <= i < w.len() ==> is_plain(#[trigger] w[i])
}

/// The matcher for the plain character `c`.
pub open spec fn char_matcher(c: char) -> SpecPattern {
    SpecPattern::Char(c)
}

/// One literal matcher per character of `w`.
pub open spec fn literal_row(w: Seq<char>) -> Seq<SpecPattern> {
    w.map_values(|c: char| char_matcher(c))
}

/// `w` occurs in `input` at position `i`.
pub open spec fn occurs_at(w: Seq<char>, input: Seq<char>, i: int) -> bool {
    0 <= i && i + w.len() <= input.len() && input.subrange(i, i + w.len()) == w
}

/// The compiler's state after reading only plain characters `w`.
pub open spec fn plain_state(w: Seq<char>) -> CompileState {
    CompileState { patterns: seq![literal_row(w)], ..initial_state() }
}

proof fn lemma_literal_row_push(w: Seq<char>, c: char)
    ensures
        literal_row(w.push(c)) == literal_row(w).push(char_matcher(c)),
{
    assert(literal_row(w.push(c)) =~= literal_row(w).push(char_matcher(c)));
}

proof fn lemma_plain_step(w: Seq<char>, c: char, anchored: bool)
    requires
        is_plain(c),
    ensures
        compile_step(plain_state(w), c, anchored) == plain_state(w.push(c)),
{
    let st = plain_state(w);
    let cur = st.current.push(c);
    assert(cur =~= seq![c]);
    assert(literal_row(w.push(c)) =~= literal_row(w).push(SpecPattern::Char(c)));
    assert(appended(st.patterns, SpecPattern::Char(c)) =~= seq![literal_row(w.push(c))]);
}

proof fn lemma_compile_plain(w: Seq<char>, anchored: bool)
    requires
        all_plain(w),
    ensures
        compile_prefix(w, anchored) == plain_state(w),
    decreases w.len(),
{
    if w.len() == 0 {
        assert(literal_row(w) =~= Seq::<SpecPattern>::empty());
        assert(plain_state(w) == initial_state());
    } else {
        lemma_compile_plain(w.drop_last(), anchored);
        lemma_plain_step(w.drop_last(), w.last(), anchored);
        assert(w.drop_last().push(w.last()) =~= w);
    }
}

proof fn lemma_compile_anchored_plain(w: Seq<char>)
    requires
        all_plain(w),
    ensures
        compile_prefix(seq!['^'] + w, true) == plain_state(w),
    decreases w.len(),
{
    let p = seq!['^'] + w;
    if w.len() == 0 {
        assert(p.drop_last() =~= Seq::<char>::empty());
        assert(p.last() == '^');
        assert(compile_prefix(p.drop_last(), true) == initial_state());
        assert(compile_prefix(p, true) == compile_step(initial_state(), '^', true));
        assert(initial_state().current.push('^') =~= seq!['^']);
        assert(literal_row(w) =~= Seq::<SpecPattern>::empty());
        assert(plain_state(w) == initial_state());
    } else {
        lemma_compile_anchored_plain(w.drop_last());
        assert(p.drop_last() =~= seq!['^'] + w.drop_last());
        assert(p.last() == w.last());
        lemma_plain_step(w.drop_last(), w.last(), true);
        assert(w.drop_last().push(w.last()) =~= w);
    }
}

/// A pattern made of plain characters compiles to a single alternative, with
/// one literal matcher per character.
pub proof fn lemma_plain_pattern_compiles_to_literals(w: Seq<char>)
    requires
        all_plain(w),
    ensures
        !is_anchored(w),
        compiled_alternatives(w) == seq![literal_row(w)],
{
    lemma_compile_plain(w, false);
}

/// A `^` followed by plain characters compiles to a single alternative of
/// literal matchers, anchored at the start of the line.
pub proof fn lemma_anchored_pattern_compiles_to_literals(w: Seq<char>)
    requires
        all_plain(w),
    ensures
        is_anchored(seq!['^'] + w),
        compiled_alternatives(seq!['^'] + w) == seq![literal_row(w)],
{
    assert((seq!['^'] + w)[0] == '^');
    lemma_compile_anchored_plain(w);
}

/// The state of an attempt of a literal alternative after `k` characters
/// have matched from position `i`.
pub open spec fn literal_cursor(i: int, k: int, last: char) -> Cursor {
    Cursor { k, pos: i + k, repeating: false, refs: Seq::empty(), last, ref_idx: 0 }
}

proof fn lemma_record_letter_empty(c: char)
    ensures
        record_letter(Seq::<SpecRecord>::empty(), c) == Seq::<SpecRecord>::empty(),
{
    assert(record_letter(Seq::<SpecRecord>::empty(), c) =~= Seq::<SpecRecord>::empty());
}

/// An attempt of a literal alternative matches exactly where the characters
/// occur; otherwise it moves on to the next start, or, anchored, aborts on a
/// mismatch (it moves on, anchored, only when the line is too short).
proof fn lemma_run_literal(w: Seq<char>, input: Seq<char>, on_start: bool, i: int, k: int, last: char)
    requires
        all_plain(w),
        0 <= k < w.len(),
        0 <= i,
        i + k <= input.len(),
        input.subrange(i, i + k) == w.take(k),
    ensures
        ({
            let a = run(literal_row(w), input, on_start, literal_cursor(i, k, last));
            &&& (a == Attempt::Matched <==> occurs_at(w, input, i))
            &&& (a == Attempt::Matched || a == Attempt::NextStart || (a == Attempt::Abort
                && on_start))
            &&& (on_start && a == Attempt::NextStart ==> i + w.len() > input.len())
        }),
    decreases w.len() - k,
{
    let row = literal_row(w);
    let cur = literal_cursor(i, k, last);
    assert(cursor_wf(row, input, cur));
    assert(row[k] == SpecPattern::Char(w[k]));
    assert(is_plain(w[k]));
    if i + k < input.len() {
        let c = input[i + k];
        lemma_record_letter_empty(c);
        if c == w[k] {
            assert(input.subrange(i, i + k + 1) =~= w.take(k + 1));
            if k + 1 < w.len() {
                lemma_run_literal(w, input, on_start, i, k + 1, c);
                assert(literal_cursor(i, k + 1, c) == Cursor {
                    k: k + 1,
                    pos: i + k + 1,
                    refs: record_letter(Seq::<SpecRecord>::empty(), c),
                    last: c,
                    ..cur
                });
                if occurs_at(w, input, i) {
                    assert(input.subrange(i, i + w.len()).subrange(0, k + 1) =~= input.subrange(
                        i,
                        i + k + 1,
                    ));
                    assert(w.subrange(0, k + 1) =~= w.take(k + 1));
                }
            } else {
                assert(w.take(k + 1) =~= w);
            }
        } else {
            if occurs_at(w, input, i) {
                assert(input.subrange(i, i + w.len())[k] == input[i + k]);
            }
        }
    }
}

/// When the literal occurs nowhere from `i` on, the scan of its alternative
/// from `i` does not find it.
proof fn lemma_scan_no_occurrence(w: Seq<char>, input: Seq<char>, on_start: bool, i: int)
    requires
        all_plain(w),
        w.len() > 0,
        0 <= i,
        forall|j: int| i <= j ==> !#[trigger] occurs_at(w, input, j),
    ensures
        scan(literal_row(w), input, on_start, i) == None::<Result<bool, SearchError>>
            || scan(literal_row(w), input, on_start, i) == Some(
            Ok::<bool, SearchError>(false),
        ),
    decreases input.len() - i,
{
    if i < input.len() {
        assert(input.subrange(i, i) =~= w.take(0));
        lemma_run_literal(w, input, on_start, i, 0, '\0');
        assert(start_cursor(i) == literal_cursor(i, 0, '\0'));
        assert(!occurs_at(w, input, i));
        lemma_scan_no_occurrence(w, input, on_start, i + 1);
    }
}

/// The scan of a literal alternative, unanchored, from `i`: it finds the
/// literal exactly when it occurs at some position from `i` on.
proof fn lemma_scan_literal(w: Seq<char>, input: Seq<char>, i: int)
    requires
        all_plain(w),
        w.len() > 0,
        0 <= i,
    ensures
        scan(literal_row(w), input, false, i) == (if exists|j: int|
            i <= j && #[trigger] occurs_at(w, input, j) {
            Some(Ok::<bool, SearchError>(true))
        } else {
            None
        }),
    decreases input.len() - i,
{
    if i >= input.len() {
        assert forall|j: int| i <= j implies !#[trigger] occurs_at(w, input, j) by {}
    } else {
        assert(input.subrange(i, i) =~= w.take(0));
        lemma_run_literal(w, input, false, i, 0, '\0');
        assert(start_cursor(i) == literal_cursor(i, 0, '\0'));
        lemma_scan_literal(w, input, i + 1);
        if !occurs_at(w, input, i) {
            assert((exists|j: int| i <= j && #[trigger] occurs_at(w, input, j)) == (exists|j: int|
                i + 1 <= j && #[trigger] occurs_at(w, input, j)));
        }
    }
}

/// Searching for a pattern of plain characters finds exactly the lines in
/// which those characters occur, one after the other.
pub proof fn lemma_plain_pattern_finds_substring(w: Seq<char>, input: Seq<char>)
    requires
        w.len() > 0,
        all_plain(w),
    ensures
        search(compiled_alternatives(w), input, is_anchored(w)) == Ok::<
            bool,
            SearchError,
        >(exists|i: int| #[trigger] occurs_at(w, input, i)),
{
    lemma_plain_pattern_compiles_to_literals(w);
    let alts = seq![literal_row(w)];
    lemma_scan_literal(w, input, 0);
    assert(search_upto(alts, input, false, 0) == Ok::<bool, SearchError>(false));
    assert((exists|i: int| #[trigger] occurs_at(w, input, i)) == (exists|i: int|
        0 <= i && #[trigger] occurs_at(w, input, i)));
}

/// Searching for `^` followed by plain characters finds exactly the lines
/// that start with those characters.
pub proof fn lemma_anchored_pattern_finds_prefix(w: Seq<char>, input: Seq<char>)
    requires
        w.len() > 0,
        all_plain(w),
    ensures
        search(compiled_alternatives(seq!['^'] + w), input, is_anchored(seq!['^'] + w)) == Ok::<
            bool,
            SearchError,
        >(occurs_at(w, input, 0)),
{
    lemma_anchored_pattern_compiles_to_literals(w);
    let alts = seq![literal_row(w)];
    assert(search_upto(alts, input, true, 0) == Ok::<bool, SearchError>(false));
    if input.len() > 0 {
        assert(input.subrange(0, 0) =~= w.take(0));
        lemma_run_literal(w, input, true, 0, 0, '\0');
        assert(start_cursor(0) == literal_cursor(0, 0, '\0'));
        let a = attempt_at(literal_row(w), input, true, 0);
        if a == Attempt::NextStart {
            assert forall|j: int| 1 <= j implies !#[trigger] occurs_at(w, input, j) by {}
            lemma_scan_no_occurrence(w, input, true, 1);
        }
    }
}

/// The compiler keeps a single alternative as long as it reads no `|`.
proof fn lemma_single_alternative_step(st: CompileState, c: char, anchored: bool)
    requires
        c != '|',
        st.patterns.len() == 1,
        st.at_parenthesis.len() == 1,
        st.at_pipes.len() == 0,
    ensures
        compile_step(st, c, anchored).patterns.len() == 1,
        compile_step(st, c, anchored).at_parenthesis.len() == 1,
        compile_step(st, c, anchored).at_pipes.len() == 0,
{
    assert(st.at_pipes.flatten() =~= Seq::<Seq<SpecPattern>>::empty());
    assert(st.patterns + st.at_pipes.flatten() =~= st.patterns);
}

proof fn lemma_single_alternative_prefix(p: Seq<char>, anchored: bool)
    requires
        !p.contains('|'),
    ensures
        compile_prefix(p, anchored).patterns.len() == 1,
        compile_prefix(p, anchored).at_parenthesis.len() == 1,
        compile_prefix(p, anchored).at_pipes.len() == 0,
    decreases p.len(),
{
    if p.len() > 0 {
        assert(!p.drop_last().contains('|')) by {
            if p.drop_last().contains('|') {
                let j = choose|j: int| 0 <= j < p.drop_last().len() && p.drop_last()[j] == '|';
                assert(p[j] == '|');
            }
        }
        assert(p.last() != '|') by {
            assert(p[p.len() - 1] == p.last());
        }
        lemma_single_alternative_prefix(p.drop_last(), anchored);
        lemma_single_alternative_step(compile_prefix(p.drop_last(), anchored), p.last(), anchored);
    }
}

/// Alternatives come only from `|`: a pattern without `|` compiles to exactly
/// one alternative.
pub proof fn lemma_no_pipe_single_alternative(p: Seq<char>)
    requires
        !p.contains('|'),
    ensures
        compiled_alternatives(p).len() == 1,
{
    lemma_single_alternative_prefix(p, is_anchored(p));
}

proof fn lemma_search_upto_empty_line(alts: Seq<Seq<SpecPattern>>, on_start: bool, j: int)
    ensures
        search_upto(alts, Seq::<char>::empty(), on_start, j) == Ok::<
            bool,
            SearchError,
        >(false),
    decreases j,
{
    if j > 0 {
        lemma_search_upto_empty_line(alts, on_start, j - 1);
    }
}

/// An empty line matches no pattern: there is no position to start from.
pub proof fn lemma_empty_line_never_matches(alts: Seq<Seq<SpecPattern>>, on_start: bool)
    ensures
        search(alts, Seq::<char>::empty(), on_start) == Ok::<bool, SearchError>(
            false,
        ),
{
    lemma_search_upto_empty_line(alts, on_start, alts.len() as int);
}

/// With no alternative at all, nothing matches.
pub proof fn lemma_no_alternative_never_matches(input: Seq<char>, on_start: bool)
    ensures
        search(Seq::<Seq<SpecPattern>>::empty(), input, on_start) == Ok::<
            bool,
            SearchError,
        >(false),
{
}

/// A matcher that neither replays nor validates a capture group.
pub open spec fn no_back_reference(p: SpecPattern) -> bool {
    !(p is BackRef) && !(p is RefLast)
}

/// No matcher of the alternative replays or validates a capture group.
pub open spec fn row_without_back_references(row: Seq<SpecPattern>) -> bool {
    forall|i: int| 0 <= i < row.len() ==> no_back_reference(#[trigger] row[i])
}

/// No alternative holds a matcher that replays or validates a capture group.
pub open spec fn without_back_references(alts: Seq<Seq<SpecPattern>>) -> bool {
    forall|j: int| 0 <= j < alts.len() ==> row_without_back_references(#[trigger] alts[j])
}

proof fn lemma_plain_verdict(p: SpecPattern, c: char)
    requires
        no_back_reference(p),
    ensures
        !(p.verdict(c) is BackRefCall),
        p.verdict(c) != Check::BackRefValidated,
{
}

proof fn lemma_run_answers(patt: Seq<SpecPattern>, input: Seq<char>, on_start: bool, cur: Cursor)
    requires
        row_without_back_references(patt),
        cursor_wf(patt, input, cur),
    ensures
        run(patt, input, on_start, cur) != Attempt::Unreachable,
        run(patt, input, on_start, cur) != Attempt::Stuck,
        !on_start ==> run(patt, input, on_start, cur) != Attempt::Abort,
    decreases (input.len() - cur.pos) + (patt.len() - cur.k),
{
    lemma_plain_verdict(patt[cur.k], '\0');
    if cur.pos < input.len() {
        lemma_plain_verdict(patt[cur.k], input[cur.pos]);
    }
    match step(patt, input, on_start, cur) {
        Step::Go(next) => {
            lemma_run_answers(patt, input, on_start, next);
        },
        Step::Done(a) => {},
    }
}

proof fn lemma_scan_answers(patt: Seq<SpecPattern>, input: Seq<char>, on_start: bool, i: int)
    requires
        row_without_back_references(patt),
    ensures
        scan(patt, input, on_start, i) matches Some(r) ==> r is Ok,
        !on_start ==> (scan(patt, input, on_start, i) matches Some(r) ==> r == Ok::<
            bool,
            SearchError,
        >(true)),
    decreases input.len() - i,
{
    if 0 <= i < input.len() {
        if patt.len() > 0 {
            lemma_run_answers(patt, input, on_start, start_cursor(i));
        }
        lemma_scan_answers(patt, input, on_start, i + 1);
    }
}

proof fn lemma_search_upto_answers(
    alts: Seq<Seq<SpecPattern>>,
    input: Seq<char>,
    on_start: bool,
    j: int,
)
    requires
        without_back_references(alts),
        j <= alts.len(),
    ensures
        search_upto(alts, input, on_start, j) is Ok,
    decreases j,
{
    if j > 0 {
        lemma_scan_answers(alts[j - 1], input, on_start, 0);
        lemma_search_upto_answers(alts, input, on_start, j - 1);
    }
}

/// The search always answers (`true` or `false`) when no alternative replays
/// or validates a capture group: errors come only from back references.
pub proof fn lemma_search_answers_without_back_references(
    alts: Seq<Seq<SpecPattern>>,
    input: Seq<char>,
    on_start: bool,
)
    requires
        without_back_references(alts),
    ensures
        search(alts, input, on_start) is Ok,
{
    lemma_search_upto_answers(alts, input, on_start, alts.len() as int);
}

/// The compiler's state holds no back reference and no pending backslash.
pub open spec fn state_without_back_references(st: CompileState) -> bool {
    &&& without_back_references(st.patterns)
    &&& without_back_references(st.at_parenthesis)
    &&& forall|k: int| 0 <= k < st.at_pipes.len() ==> without_back_references(
        #[trigger] st.at_pipes[k],
    )
    &&& !st.current.contains('\\')
}

proof fn lemma_appended_keeps(alts: Seq<Seq<SpecPattern>>, p: SpecPattern)
    requires
        without_back_references(alts),
        no_back_reference(p),
    ensures
        without_back_references(appended(alts, p)),
{
    assert forall|j: int| 0 <= j < alts.len() implies row_without_back_references(
        #[trigger] appended(alts, p)[j],
    ) by {
        let row = appended(alts, p)[j];
        assert forall|i: int| 0 <= i < row.len() implies no_back_reference(#[trigger] row[i]) by {
            if i < alts[j].len() {
                assert(row[i] == alts[j][i]);
            }
        }
    }
}

proof fn lemma_shortened_keeps(alts: Seq<Seq<SpecPattern>>)
    requires
        without_back_references(alts),
    ensures
        without_back_references(shortened(alts)),
        popped(alts) matches Some(p) ==> no_back_reference(p),
{
    assert forall|j: int| 0 <= j < alts.len() implies row_without_back_references(
        #[trigger] shortened(alts)[j],
    ) by {
        let row = shortened(alts)[j];
        assert forall|i: int| 0 <= i < row.len() implies no_back_reference(#[trigger] row[i]) by {
            assert(row[i] == alts[j][i]);
        }
    }
    if alts.len() > 0 && alts.last().len() > 0 {
        assert(row_without_back_references(alts[alts.len() - 1]));
    }
}

proof fn lemma_flatten_keeps(pipes: Seq<Seq<Seq<SpecPattern>>>)
    requires
        forall|k: int| 0 <= k < pipes.len() ==> without_back_references(#[trigger] pipes[k]),
    ensures
        without_back_references(pipes.flatten()),
    decreases pipes.len(),
{
    if pipes.len() > 0 {
        lemma_flatten_keeps(pipes.drop_first());
        let first = pipes.first();
        let rest = pipes.drop_first().flatten();
        assert(without_back_references(first));
        assert forall|j: int| 0 <= j < (first + rest).len() implies row_without_back_references(
            #[trigger] (first + rest)[j],
        ) by {
            if j < first.len() {
                assert((first + rest)[j] == first[j]);
            } else {
                assert((first + rest)[j] == rest[j - first.len()]);
            }
        }
    }
}

proof fn lemma_step_keeps(st: CompileState, c: char, anchored: bool)
    requires
        state_without_back_references(st),
        c != '\\',
    ensures
        state_without_back_references(compile_step(st, c, anchored)),
{
    let cur = st.current.push(c);
    assert(!cur.contains('\\')) by {
        if cur.contains('\\') {
            let t = choose|t: int| 0 <= t < cur.len() && cur[t] == '\\';
            if t < st.current.len() {
                assert(st.current[t] == '\\');
            }
        }
    }
    assert(cur[0] != '\\') by {
        assert(cur.contains(cur[0]));
    }
    assert(!Seq::<char>::empty().contains('\\'));
    lemma_appended_keeps(st.patterns, SpecPattern::GroupStart);
    lemma_appended_keeps(st.at_parenthesis, SpecPattern::GroupStart);
    lemma_appended_keeps(st.patterns, SpecPattern::LineEnd);
    lemma_appended_keeps(st.patterns, SpecPattern::AnyChar);
    lemma_appended_keeps(st.patterns, SpecPattern::Char(c));
    lemma_appended_keeps(st.patterns, SpecPattern::InClass(alphanumerics(cur)));
    lemma_appended_keeps(st.patterns, SpecPattern::InClass(complement(alphanumerics(cur))));
    lemma_shortened_keeps(st.patterns);
    match popped(st.patterns) {
        Some(p) => {
            lemma_appended_keeps(shortened(st.patterns), SpecPattern::OneOrMore(Box::new(p)));
            lemma_appended_keeps(shortened(st.patterns), SpecPattern::ZeroOrOne(Box::new(p)));
        },
        None => {},
    }
    if is_just(cur, ')') {
        lemma_flatten_keeps(st.at_pipes);
        let joined = st.patterns + st.at_pipes.flatten();
        assert(without_back_references(joined)) by {
            assert forall|j: int| 0 <= j < joined.len() implies row_without_back_references(
                #[trigger] joined[j],
            ) by {
                if j < st.patterns.len() {
                    assert(joined[j] == st.patterns[j]);
                } else {
                    assert(joined[j] == st.at_pipes.flatten()[j - st.patterns.len()]);
                }
            }
        }
        lemma_appended_keeps(joined, SpecPattern::GroupEnd);
        let emptied = Seq::new(st.at_pipes.len(), |i: int| Seq::<Seq<SpecPattern>>::empty());
        assert forall|k: int| 0 <= k < emptied.len() implies without_back_references(
            #[trigger] emptied[k],
        ) by {}
    }
    if is_just(cur, '|') {
        let pushed = st.at_pipes.push(st.patterns);
        assert forall|k: int| 0 <= k < pushed.len() implies without_back_references(
            #[trigger] pushed[k],
        ) by {
            if k < st.at_pipes.len() {
                assert(pushed[k] == st.at_pipes[k]);
            }
        }
    }
}

proof fn lemma_prefix_keeps(p: Seq<char>, anchored: bool)
    requires
        !p.contains('\\'),
    ensures
        state_without_back_references(compile_prefix(p, anchored)),
    decreases p.len(),
{
    if p.len() == 0 {
        let st = initial_state();
        assert(row_without_back_references(Seq::<SpecPattern>::empty()));
        assert(without_back_references(st.patterns)) by {
            assert forall|j: int| 0 <= j < st.patterns.len() implies row_without_back_references(
                #[trigger] st.patterns[j],
            ) by {
                assert(st.patterns[j] == Seq::<SpecPattern>::empty());
            }
        }
        assert(!Seq::<char>::empty().contains('\\'));
    } else {
        assert(!p.drop_last().contains('\\')) by {
            if p.drop_last().contains('\\') {
                let j = choose|j: int| 0 <= j < p.drop_last().len() && p.drop_last()[j] == '\\';
                assert(p[j] == '\\');
            }
        }
        assert(p.last() != '\\') by {
            assert(p.contains(p[p.len() - 1]));
        }
        lemma_prefix_keeps(p.drop_last(), anchored);
        lemma_step_keeps(compile_prefix(p.drop_last(), anchored), p.last(), anchored);
    }
}

/// A pattern without a backslash compiles to alternatives without back
/// references, so searching any line for it always answers `true` or `false`.
pub proof fn lemma_pattern_without_backslash_always_answers(p: Seq<char>, input: Seq<char>)
    requires
        !p.contains('\\'),
    ensures
        without_back_references(compiled_alternatives(p)),
        search(compiled_alternatives(p), input, is_anchored(p)) is Ok,
{
    lemma_prefix_keeps(p, is_anchored(p));
    lemma_search_answers_without_back_references(compiled_alternatives(p), input, is_anchored(p));
}

/// The compiler's state after reading `q` from the state `st`.
pub open spec fn compile_from(st: CompileState, q: Seq<char>, anchored: bool) -> CompileState
    decreases q.len(),
{
    if q.len() == 0 {
        st
    } else {
        compile_step(compile_from(st, q.drop_last(), anchored), q.last(), anchored)
    }
}

proof fn lemma_compile_concat(p: Seq<char>, q: Seq<char>, anchored: bool)
    ensures
        compile_prefix(p + q, anchored) == compile_from(compile_prefix(p, anchored), q, anchored),
    decreases q.len(),
{
    if q.len() == 0 {
        assert(p + q =~= p);
    } else {
        lemma_compile_concat(p, q.drop_last(), anchored);
        assert((p + q).drop_last() =~= p + q.drop_last());
        assert((p + q).last() == q.last());
    }
}

/// Plain characters read while there is a single alternative and nothing is
/// pending extend that alternative with literal matchers.
proof fn lemma_compile_from_plain(
    st: CompileState,
    row: Seq<SpecPattern>,
    w: Seq<char>,
    anchored: bool,
)
    requires
        all_plain(w),
        st.patterns == seq![row],
        st.current == Seq::<char>::empty(),
    ensures
        compile_from(st, w, anchored) == (CompileState {
            patterns: seq![row + literal_row(w)],
            ..st
        }),
    decreases w.len(),
{
    if w.len() == 0 {
        assert(row + literal_row(w) =~= row);
        assert(CompileState { patterns: seq![row + literal_row(w)], ..st } == st);
    } else {
        let prev = w.drop_last();
        let c = w.last();
        assert(all_plain(prev));
        assert(is_plain(c));
        lemma_compile_from_plain(st, row, prev, anchored);
        let mid = CompileState { patterns: seq![row + literal_row(prev)], ..st };
        assert(mid.current.push(c) =~= seq![c]);
        assert(prev.push(c) =~= w);
        lemma_literal_row_push(prev, c);
        assert(literal_row(w) == literal_row(prev).push(char_matcher(c)));
        let lr = literal_row(prev);
        assert(row + lr.push(char_matcher(c)) =~= (row + lr).push(char_matcher(c)));
        assert(row + literal_row(w) == (row + literal_row(prev)).push(char_matcher(c)));
        assert(appended(mid.patterns, char_matcher(c)) =~= seq![row + literal_row(w)]);
    }
}

proof fn lemma_compile_from_single(st: CompileState, c: char, anchored: bool)
    ensures
        compile_from(st, seq![c], anchored) == compile_step(st, c, anchored),
{
    assert(seq![c].drop_last() =~= Seq::<char>::empty());
    assert(compile_from(st, seq![c].drop_last(), anchored) == st);
}

/// The alternative that `(w` ... `)` compiles to: a group around literals.
pub open spec fn grouped_row(w: Seq<char>) -> Seq<SpecPattern> {
    seq![SpecPattern::GroupStart] + literal_row(w) + seq![SpecPattern::GroupEnd]
}

/// The pattern `(u|v)`.
pub open spec fn alternation(u: Seq<char>, v: Seq<char>) -> Seq<char> {
    seq!['('] + u + seq!['|'] + v + seq![')']
}

/// `(u|v)` compiles to two alternatives, `v`'s first and `u`'s last, each a
/// group around literals.
pub proof fn lemma_alternation_compiles_to_groups(u: Seq<char>, v: Seq<char>)
    requires
        all_plain(u),
        all_plain(v),
    ensures
        !is_anchored(alternation(u, v)),
        compiled_alternatives(alternation(u, v)) == seq![grouped_row(v), grouped_row(u)],
{
    let p = alternation(u, v);
    assert(p[0] == '(');
    let open = seq!['('];
    let s0 = initial_state();
    // After `(`.
    assert(compile_prefix(open, false) == compile_step(compile_prefix(open.drop_last(), false), '(', false));
    assert(open.drop_last() =~= Seq::<char>::empty());
    assert(s0.current.push('(') =~= seq!['(']);
    let s1 = compile_prefix(open, false);
    assert(appended(s0.patterns, SpecPattern::GroupStart) =~= seq![seq![SpecPattern::GroupStart]]);
    assert(s1.patterns == seq![seq![SpecPattern::GroupStart]]);
    // After `(u`.
    lemma_compile_concat(open, u, false);
    lemma_compile_from_plain(s1, seq![SpecPattern::GroupStart], u, false);
    let s2 = compile_prefix(open + u, false);
    let row_u = seq![SpecPattern::GroupStart] + literal_row(u);
    assert(s2.patterns == seq![row_u]);
    // After `(u|`.
    lemma_compile_concat(open + u, seq!['|'], false);
    lemma_compile_from_single(s2, '|', false);
    assert(s2.current.push('|') =~= seq!['|']);
    let s3 = compile_prefix(open + u + seq!['|'], false);
    assert(s3 == compile_step(s2, '|', false));
    assert(appended(s2.at_parenthesis, SpecPattern::GroupStart) =~= seq![seq![SpecPattern::GroupStart]]);
    assert(s3.patterns == seq![seq![SpecPattern::GroupStart]]);
    assert(s3.at_pipes == seq![seq![row_u]]);
    // After `(u|v`.
    lemma_compile_concat(open + u + seq!['|'], v, false);
    lemma_compile_from_plain(s3, seq![SpecPattern::GroupStart], v, false);
    let s4 = compile_prefix(open + u + seq!['|'] + v, false);
    let row_v = seq![SpecPattern::GroupStart] + literal_row(v);
    assert(s4.patterns == seq![row_v]);
    assert(s4.at_pipes == seq![seq![row_u]]);
    // After `(u|v)`.
    lemma_compile_concat(open + u + seq!['|'] + v, seq![')'], false);
    lemma_compile_from_single(s4, ')', false);
    assert(s4.current.push(')') =~= seq![')']);
    assert(open + u + seq!['|'] + v + seq![')'] =~= p);
    let s5 = compile_prefix(p, false);
    assert(s5 == compile_step(s4, ')', false));
    seq![seq![row_u]].lemma_flatten_one_element();
    assert(s4.patterns + s4.at_pipes.flatten() =~= seq![row_v, row_u]);
    assert(row_v.push(SpecPattern::GroupEnd) =~= grouped_row(v));
    assert(row_u.push(SpecPattern::GroupEnd) =~= grouped_row(u));
    assert(appended(seq![row_v, row_u], SpecPattern::GroupEnd) =~= seq![grouped_row(v), grouped_row(u)]);
}

/// The state of an attempt of a grouped alternative after the group opened
/// and `t` literals matched from position `i`.
pub open spec fn grouped_cursor(i: int, t: int, refs: Seq<SpecRecord>, last: char) -> Cursor {
    Cursor { k: 1 + t, pos: i + t, repeating: false, refs, last, ref_idx: 0 }
}

proof fn lemma_run_grouped(
    w: Seq<char>,
    input: Seq<char>,
    on_start: bool,
    i: int,
    t: int,
    refs: Seq<SpecRecord>,
    last: char,
)
    requires
        all_plain(w),
        0 <= t <= w.len(),
        0 <= i,
        i + t <= input.len(),
        input.subrange(i, i + t) == w.take(t),
    ensures
        ({
            let a = run(grouped_row(w), input, on_start, grouped_cursor(i, t, refs, last));
            &&& (a == Attempt::Matched <==> occurs_at(w, input, i))
            &&& (a == Attempt::Matched || a == Attempt::NextStart || (a == Attempt::Abort
                && on_start))
        }),
    decreases w.len() - t,
{
    let row = grouped_row(w);
    let cur = grouped_cursor(i, t, refs, last);
    assert(cursor_wf(row, input, cur));
    if t == w.len() {
        assert(row[1 + t] == SpecPattern::GroupEnd);
        assert(w.take(t) =~= w);
    } else {
        assert(row[1 + t] == SpecPattern::Char(w[t]));
        assert(is_plain(w[t]));
        if i + t < input.len() {
            let c = input[i + t];
            if c == w[t] {
                assert(input.subrange(i, i + t + 1) =~= w.take(t + 1));
                lemma_run_grouped(w, input, on_start, i, t + 1, record_letter(refs, c), c);
                if occurs_at(w, input, i) {
                    assert(input.subrange(i, i + w.len()).subrange(0, t + 1) =~= input.subrange(
                        i,
                        i + t + 1,
                    ));
                    assert(w.subrange(0, t + 1) =~= w.take(t + 1));
                }
            } else {
                if occurs_at(w, input, i) {
                    assert(input.subrange(i, i + w.len())[t] == input[i + t]);
                }
            }
        }
    }
}

proof fn lemma_scan_grouped(w: Seq<char>, input: Seq<char>, i: int)
    requires
        all_plain(w),
        0 <= i,
    ensures
        scan(grouped_row(w), input, false, i) == (if exists|j: int|
            i <= j < input.len() && #[trigger] occurs_at(w, input, j) {
            Some(Ok::<bool, SearchError>(true))
        } else {
            None
        }),
    decreases input.len() - i,
{
    if i < input.len() {
        let row = grouped_row(w);
        let start = start_cursor(i);
        assert(cursor_wf(row, input, start));
        assert(row[0] == SpecPattern::GroupStart);
        let refs = Seq::<SpecRecord>::empty().push((Seq::<SpecPattern>::empty(), false));
        assert(input.subrange(i, i) =~= w.take(0));
        lemma_run_grouped(w, input, false, i, 0, refs, '\0');
        assert(step(row, input, false, start) == Step::Go(grouped_cursor(i, 0, refs, '\0')));
        lemma_scan_grouped(w, input, i + 1);
        if !occurs_at(w, input, i) {
            assert((exists|j: int| i <= j < input.len() && #[trigger] occurs_at(w, input, j)) == (
            exists|j: int| i + 1 <= j < input.len() && #[trigger] occurs_at(w, input, j)));
        }
    }
}

/// `u` or `v` occurs somewhere in `input` where a search may start.
pub open spec fn occurs_somewhere(w: Seq<char>, input: Seq<char>) -> bool {
    exists|j: int| 0 <= j < input.len() && #[trigger] occurs_at(w, input, j)
}

/// Searching for `(u|v)`, with plain `u` and `v`, finds exactly the non-empty
/// lines in which `u` or `v` occurs.
pub proof fn lemma_alternation_finds_either(u: Seq<char>, v: Seq<char>, input: Seq<char>)
    requires
        all_plain(u),
        all_plain(v),
    ensures
        search(compiled_alternatives(alternation(u, v)), input, is_anchored(alternation(u, v)))
            == Ok::<bool, SearchError>(occurs_somewhere(u, input) || occurs_somewhere(v, input)),
{
    lemma_alternation_compiles_to_groups(u, v);
    let alts = seq![grouped_row(v), grouped_row(u)];
    lemma_scan_grouped(u, input, 0);
    lemma_scan_grouped(v, input, 0);
    assert(alts[1] == grouped_row(u));
    assert(alts[0] == grouped_row(v));
    assert(search_upto(alts, input, false, 0) == Ok::<bool, SearchError>(false));
    assert(search_upto(alts, input, false, 1) == match scan(alts[0], input, false, 0) {
        Some(r) => r,
        None => search_upto(alts, input, false, 0),
    });
    assert(search_upto(alts, input, false, 2) == match scan(alts[1], input, false, 0) {
        Some(r) => r,
        None => search_upto(alts, input, false, 1),
    });
}

/// The alternative `row`, searched alone and unanchored, matches the line.
pub open spec fn alternative_matches(row: Seq<SpecPattern>, input: Seq<char>) -> bool {
    scan(row, input, false, 0) == Some(Ok::<bool, SearchError>(true))
}

proof fn lemma_search_upto_any(alts: Seq<Seq<SpecPattern>>, input: Seq<char>, j: int)
    requires
        without_back_references(alts),
        0 <= j <= alts.len(),
    ensures
        search_upto(alts, input, false, j) == Ok::<bool, SearchError>(
            exists|k: int| 0 <= k < j && #[trigger] alternative_matches(alts[k], input),
        ),
    decreases j,
{
    if j > 0 {
        lemma_scan_answers(alts[j - 1], input, false, 0);
        lemma_search_upto_any(alts, input, j - 1);
        if alternative_matches(alts[j - 1], input) {
            assert(exists|k: int| 0 <= k < j && #[trigger] alternative_matches(alts[k], input));
        } else {
            assert((exists|k: int| 0 <= k < j && #[trigger] alternative_matches(alts[k], input))
                == (exists|k: int| 0 <= k < j - 1 && #[trigger] alternative_matches(alts[k], input)))
                by {
                if exists|k: int| 0 <= k < j && #[trigger] alternative_matches(alts[k], input) {
                    let k = choose|k: int| 0 <= k < j && #[trigger] alternative_matches(alts[k], input);
                    assert(k != j - 1);
                }
            }
        }
    }
}

/// Searching for a single alternative, unanchored, answers whether it matches.
proof fn lemma_search_single(row: Seq<SpecPattern>, input: Seq<char>)
    requires
        row_without_back_references(row),
    ensures
        search(seq![row], input, false) == Ok::<bool, SearchError>(alternative_matches(row, input)),
{
    let alts = seq![row];
    assert(without_back_references(alts)) by {
        assert forall|j: int| 0 <= j < alts.len() implies row_without_back_references(
            #[trigger] alts[j],
        ) by {
            assert(alts[j] == row);
        }
    }
    lemma_search_upto_any(alts, input, 1);
    if alternative_matches(row, input) {
        assert(alternative_matches(alts[0], input));
    }
}

/// Without back references and unanchored, the search answers whether some
/// alternative, searched alone, matches the line: the order in which the
/// alternatives stand does not matter, and with none nothing matches.
pub proof fn lemma_alternative_order_does_not_matter(alts: Seq<Seq<SpecPattern>>, input: Seq<char>)
    requires
        without_back_references(alts),
    ensures
        search(alts, input, false) == Ok::<bool, SearchError>(
            exists|k: int|
                0 <= k < alts.len() && #[trigger] search(seq![alts[k]], input, false) == Ok::<
                    bool,
                    SearchError,
                >(true),
        ),
{
    lemma_search_upto_any(alts, input, alts.len() as int);
    assert forall|k: int| 0 <= k < alts.len() implies #[trigger] search(seq![alts[k]], input, false)
        == Ok::<bool, SearchError>(alternative_matches(alts[k], input)) by {
        lemma_search_single(alts[k], input);
    }
    if exists|k: int| 0 <= k < alts.len() && #[trigger] alternative_matches(alts[k], input) {
        let k = choose|k: int| 0 <= k < alts.len() && #[trigger] alternative_matches(alts[k], input);
        assert(search(seq![alts[k]], input, false) == Ok::<bool, SearchError>(true));
    }
    if exists|k: int|
        0 <= k < alts.len() && #[trigger] search(seq![alts[k]], input, false) == Ok::<
            bool,
            SearchError,
        >(true) {
        let k = choose|k: int|
            0 <= k < alts.len() && #[trigger] search(seq![alts[k]], input, false) == Ok::<
                bool,
                SearchError,
            >(true);
        assert(alternative_matches(alts[k], input));
    }
}

/// Two lists of alternatives without back references that hold the same
/// alternatives, in any order and any number of times, give the same answer
/// on every line (unanchored).
pub proof fn lemma_same_alternatives_same_answer(
    alts: Seq<Seq<SpecPattern>>,
    other: Seq<Seq<SpecPattern>>,
    input: Seq<char>,
)
    requires
        without_back_references(alts),
        without_back_references(other),
        forall|k: int| 0 <= k < alts.len() ==> other.contains(#[trigger] alts[k]),
        forall|k: int| 0 <= k < other.len() ==> alts.contains(#[trigger] other[k]),
    ensures
        search(alts, input, false) == search(other, input, false),
{
    lemma_alternative_order_does_not_matter(alts, input);
    lemma_alternative_order_does_not_matter(other, input);
    if search(alts, input, false) == Ok::<bool, SearchError>(true) {
        let k = choose|k: int|
            0 <= k < alts.len() && #[trigger] search(seq![alts[k]], input, false) == Ok::<
                bool,
                SearchError,
            >(true);
        assert(other.contains(alts[k]));
        let m = choose|m: int| 0 <= m < other.len() && other[m] == alts[k];
        assert(search(seq![other[m]], input, false) == Ok::<bool, SearchError>(true));
    }
    if search(other, input, false) == Ok::<bool, SearchError>(true) {
        let k = choose|k: int|
            0 <= k < other.len() && #[trigger] search(seq![other[k]], input, false) == Ok::<
                bool,
                SearchError,
            >(true);
        assert(alts.contains(other[k]));
        let m = choose|m: int| 0 <= m < alts.len() && alts[m] == other[k];
        assert(search(seq![alts[m]], input, false) == Ok::<bool, SearchError>(true));
    }
}

/// The same state of an attempt, `d` positions further into the line.
pub open spec fn shifted(cur: Cursor, d: int) -> Cursor {
    Cursor { pos: cur.pos + d, ..cur }
}

/// An attempt reads the line only from its position on: in front of `s`, the
/// text `t` does not change how it ends.
proof fn lemma_run_shift(
    patt: Seq<SpecPattern>,
    t: Seq<char>,
    s: Seq<char>,
    on_start: bool,
    cur: Cursor,
)
    requires
        cursor_wf(patt, s, cur),
    ensures
        run(patt, t + s, on_start, shifted(cur, t.len() as int)) == run(patt, s, on_start, cur),
    decreases (s.len() - cur.pos) + (patt.len() - cur.k),
{
    let d = t.len() as int;
    let sh = shifted(cur, d);
    assert(cursor_wf(patt, t + s, sh));
    if cur.pos < s.len() {
        assert((t + s)[cur.pos + d] == s[cur.pos]);
    }
    match step(patt, s, on_start, cur) {
        Step::Go(next) => {
            assert(step(patt, t + s, on_start, sh) == Step::Go(shifted(next, d)));
            lemma_run_shift(patt, t, s, on_start, next);
        },
        Step::Done(a) => {
            assert(step(patt, t + s, on_start, sh) == Step::Done(a));
        },
    }
}

proof fn lemma_scan_shift(patt: Seq<SpecPattern>, t: Seq<char>, s: Seq<char>, on_start: bool, i: int)
    requires
        0 <= i,
    ensures
        scan(patt, t + s, on_start, t.len() + i) == scan(patt, s, on_start, i),
    decreases s.len() - i,
{
    if i < s.len() {
        if patt.len() > 0 {
            lemma_run_shift(patt, t, s, on_start, start_cursor(i));
            assert(shifted(start_cursor(i), t.len() as int) == start_cursor(t.len() + i));
        }
        lemma_scan_shift(patt, t, s, on_start, i + 1);
    }
}

proof fn lemma_scan_with_prefix(patt: Seq<SpecPattern>, t: Seq<char>, s: Seq<char>, j: int)
    requires
        row_without_back_references(patt),
        0 <= j <= t.len(),
        alternative_matches(patt, s),
    ensures
        scan(patt, t + s, false, j) == Some(Ok::<bool, SearchError>(true)),
    decreases t.len() - j,
{
    if j == t.len() {
        lemma_scan_shift(patt, t, s, false, 0);
    } else {
        assert(s.len() > 0);
        if patt.len() > 0 {
            lemma_run_answers(patt, t + s, false, start_cursor(j));
        }
        lemma_scan_with_prefix(patt, t, s, j + 1);
    }
}

/// Without back references and unanchored, putting text in front of a line
/// never loses a match.
pub proof fn lemma_prefix_keeps_match(alts: Seq<Seq<SpecPattern>>, t: Seq<char>, s: Seq<char>)
    requires
        without_back_references(alts),
        search(alts, s, false) == Ok::<bool, SearchError>(true),
    ensures
        search(alts, t + s, false) == Ok::<bool, SearchError>(true),
{
    lemma_search_upto_any(alts, s, alts.len() as int);
    lemma_search_upto_any(alts, t + s, alts.len() as int);
    let k = choose|k: int| 0 <= k < alts.len() && #[trigger] alternative_matches(alts[k], s);
    lemma_scan_with_prefix(alts[k], t, s, 0);
    assert(alternative_matches(alts[k], t + s));
}

/// The capture groups after recording the letters `cs`, one after the other.
pub open spec fn record_letters(refs: Seq<SpecRecord>, cs: Seq<char>) -> Seq<SpecRecord>
    decreases cs.len(),
{
    if cs.len() == 0 {
        refs
    } else {
        record_letter(record_letters(refs, cs.drop_last()), cs.last())
    }
}

/// Recording letters one after the other appends, to every group still open,
/// one literal matcher per letter in the order given; closed groups stay as
/// they were, and no group opens or closes.
pub proof fn lemma_recording_appends_letters_in_order(refs: Seq<SpecRecord>, cs: Seq<char>, k: int)
    requires
        0 <= k < refs.len(),
    ensures
        record_letters(refs, cs).len() == refs.len(),
        record_letters(refs, cs)[k] == (if refs[k].1 {
            refs[k]
        } else {
            (refs[k].0 + literal_row(cs), false)
        }),
    decreases cs.len(),
{
    if cs.len() == 0 {
        assert(refs[k].0 + literal_row(cs) =~= refs[k].0);
    } else {
        let prev = cs.drop_last();
        let c = cs.last();
        lemma_recording_appends_letters_in_order(refs, prev, k);
        if !refs[k].1 {
            lemma_literal_row_push(prev, c);
            assert(prev.push(c) =~= cs);
            let lr = literal_row(prev);
            assert(refs[k].0 + lr.push(char_matcher(c)) =~= (refs[k].0 + lr).push(
                char_matcher(c),
            ));
        }
    }
}

/// An ASCII letter or digit, written out.
pub open spec fn letter_or_digit(c: char) -> bool {
    ('0' <= c && c <= '9') || ('a' <= c && c <= 'z') || ('A' <= c && c <= 'Z')
}

/// Some character of `input` satisfies `pred`.
pub open spec fn some_char(input: Seq<char>, pred: spec_fn(char) -> bool) -> bool {
    exists|j: int| 0 <= j < input.len() && #[trigger] pred(input[j])
}

proof fn lemma_scan_single(
    row: Seq<SpecPattern>,
    input: Seq<char>,
    pred: spec_fn(char) -> bool,
    i: int,
)
    requires
        0 <= i,
        forall|j: int|
            0 <= j < input.len() ==> #[trigger] attempt_at(row, input, false, j) == (if pred(
                input[j],
            ) {
                Attempt::Matched
            } else {
                Attempt::NextStart
            }),
    ensures
        scan(row, input, false, i) == (if exists|j: int|
            i <= j < input.len() && #[trigger] pred(input[j]) {
            Some(Ok::<bool, SearchError>(true))
        } else {
            None
        }),
    decreases input.len() - i,
{
    if i < input.len() {
        assert(attempt_at(row, input, false, i) == attempt_at(row, input, false, i));
        lemma_scan_single(row, input, pred, i + 1);
        if !pred(input[i]) {
            assert((exists|j: int| i <= j < input.len() && #[trigger] pred(input[j])) == (exists|j: int|
                i + 1 <= j < input.len() && #[trigger] pred(input[j])));
        }
    }
}

/// A single alternative whose attempt from each position matches exactly
/// when `pred` holds of the character there is found exactly when some
/// character of the line satisfies `pred`.
proof fn lemma_search_single_row(row: Seq<SpecPattern>, input: Seq<char>, pred: spec_fn(char) -> bool)
    requires
        forall|j: int|
            0 <= j < input.len() ==> #[trigger] attempt_at(row, input, false, j) == (if pred(
                input[j],
            ) {
                Attempt::Matched
            } else {
                Attempt::NextStart
            }),
    ensures
        search(seq![row], input, false) == Ok::<bool, SearchError>(some_char(input, pred)),
{
    lemma_scan_single(row, input, pred, 0);
    let alts = seq![row];
    assert(alts[0] == row);
    assert(search_upto(alts, input, false, 0) == Ok::<bool, SearchError>(false));
}

/// The attempt of a one-matcher alternative that answers `Match` or `Nok`.
proof fn lemma_attempt_one_matcher(x: SpecPattern, input: Seq<char>, j: int)
    requires
        0 <= j < input.len(),
        x.verdict(input[j]) == Check::Match || x.verdict(input[j]) == Check::Nok,
    ensures
        attempt_at(seq![x], input, false, j) == (if x.verdict(input[j]) == Check::Match {
            Attempt::Matched
        } else {
            Attempt::NextStart
        }),
{
    assert(cursor_wf(seq![x], input, start_cursor(j)));
    assert(seq![x][0] == x);
}

proof fn lemma_compile_two(a: char, b: char)
    ensures
        compile_prefix(seq![a, b], false) == compile_step(compile_step(initial_state(), a, false), b, false),
{
    assert(seq![a, b].drop_last() =~= seq![a]);
    assert(seq![a].drop_last() =~= Seq::<char>::empty());
    assert(compile_prefix(Seq::<char>::empty(), false) == initial_state());
    assert(compile_prefix(seq![a], false) == compile_step(initial_state(), a, false));
}

proof fn lemma_compile_escape(e: char)
    requires
        e == 'd' || e == 'w',
    ensures
        compiled_alternatives(seq!['\\', e]) == seq![
            seq![if e == 'd' { SpecPattern::Digit } else { SpecPattern::Word }],
        ],
        !is_anchored(seq!['\\', e]),
        compile_prefix(seq!['\\', e], false).current == Seq::<char>::empty(),
{
    lemma_compile_two('\\', e);
    let s1 = compile_step(initial_state(), '\\', false);
    assert(initial_state().current.push('\\') =~= seq!['\\']);
    assert(s1.current =~= seq!['\\']);
    assert(s1.current.push(e) =~= seq!['\\', e]);
    let m = if e == 'd' { SpecPattern::Digit } else { SpecPattern::Word };
    assert(appended(s1.patterns, m) =~= seq![seq![m]]);
}

/// `\d` finds exactly the lines that hold an ASCII digit.
pub proof fn lemma_digit_escape_finds_digits(input: Seq<char>)
    ensures
        search(compiled_alternatives(seq!['\\', 'd']), input, is_anchored(seq!['\\', 'd']))
            == Ok::<bool, SearchError>(
            exists|j: int| 0 <= j < input.len() && '0' <= #[trigger] input[j] && input[j] <= '9',
        ),
{
    lemma_compile_escape('d');
    let pred = |c: char| '0' <= c && c <= '9';
    assert forall|j: int| 0 <= j < input.len() implies #[trigger] attempt_at(
        seq![SpecPattern::Digit],
        input,
        false,
        j,
    ) == (if pred(input[j]) {
        Attempt::Matched
    } else {
        Attempt::NextStart
    }) by {
        lemma_attempt_one_matcher(SpecPattern::Digit, input, j);
    }
    lemma_search_single_row(seq![SpecPattern::Digit], input, pred);
    if some_char(input, pred) {
        let j = choose|j: int| 0 <= j < input.len() && #[trigger] pred(input[j]);
        assert(0 <= j < input.len() && '0' <= input[j] && input[j] <= '9');
    }
    if exists|j: int| 0 <= j < input.len() && '0' <= #[trigger] input[j] && input[j] <= '9' {
        let j = choose|j: int| 0 <= j < input.len() && '0' <= #[trigger] input[j] && input[j] <= '9';
        assert(pred(input[j]));
    }
}

/// `\w` finds exactly the lines that hold an ASCII letter or digit.
pub proof fn lemma_word_escape_finds_letters_and_digits(input: Seq<char>)
    ensures
        search(compiled_alternatives(seq!['\\', 'w']), input, is_anchored(seq!['\\', 'w']))
            == Ok::<bool, SearchError>(
            exists|j: int| 0 <= j < input.len() && #[trigger] letter_or_digit(input[j]),
        ),
{
    lemma_compile_escape('w');
    let pred = |c: char| letter_or_digit(c);
    assert forall|j: int| 0 <= j < input.len() implies #[trigger] attempt_at(
        seq![SpecPattern::Word],
        input,
        false,
        j,
    ) == (if pred(input[j]) {
        Attempt::Matched
    } else {
        Attempt::NextStart
    }) by {
        lemma_attempt_one_matcher(SpecPattern::Word, input, j);
    }
    lemma_search_single_row(seq![SpecPattern::Word], input, pred);
    if some_char(input, pred) {
        let j = choose|j: int| 0 <= j < input.len() && #[trigger] pred(input[j]);
        assert(letter_or_digit(input[j]));
    }
    if exists|j: int| 0 <= j < input.len() && #[trigger] letter_or_digit(input[j]) {
        let j = choose|j: int| 0 <= j < input.len() && #[trigger] letter_or_digit(input[j]);
        assert(pred(input[j]));
    }
}

/// Once a repeated matcher, standing alone, has matched, the attempt
/// matches: the run ends either at a character it does not match or at the
/// end of the line.
proof fn lemma_run_repeating(x: SpecPattern, input: Seq<char>, cur: Cursor)
    requires
        cur.k == 0,
        cur.repeating,
        0 <= cur.pos <= input.len(),
    ensures
        run(seq![SpecPattern::OneOrMore(Box::new(x))], input, false, cur) == Attempt::Matched,
    decreases input.len() - cur.pos,
{
    let row = seq![SpecPattern::OneOrMore(Box::new(x))];
    assert(row[0] == SpecPattern::OneOrMore(Box::new(x)));
    assert(cursor_wf(row, input, cur));
    if cur.pos < input.len() {
        match step(row, input, false, cur) {
            Step::Go(next) => {
                lemma_run_repeating(x, input, next);
            },
            Step::Done(a) => {},
        }
    }
}

/// `x+` standing alone finds exactly the lines that hold a character that
/// `x` matches; a run that reaches the end of the line counts.
pub proof fn lemma_one_or_more_finds_any_match(x: SpecPattern, input: Seq<char>)
    ensures
        search(seq![seq![SpecPattern::OneOrMore(Box::new(x))]], input, false) == Ok::<
            bool,
            SearchError,
        >(exists|j: int| 0 <= j < input.len() && #[trigger] x.verdict(input[j]) == Check::Match),
{
    let row = seq![SpecPattern::OneOrMore(Box::new(x))];
    let pred = |c: char| x.verdict(c) == Check::Match;
    assert forall|j: int| 0 <= j < input.len() implies #[trigger] attempt_at(row, input, false, j)
        == (if pred(input[j]) {
        Attempt::Matched
    } else {
        Attempt::NextStart
    }) by {
        let start = start_cursor(j);
        assert(row[0] == SpecPattern::OneOrMore(Box::new(x)));
        assert(cursor_wf(row, input, start));
        match step(row, input, false, start) {
            Step::Go(next) => {
                lemma_run_repeating(x, input, next);
            },
            Step::Done(a) => {},
        }
    }
    lemma_search_single_row(row, input, pred);
    if some_char(input, pred) {
        let j = choose|j: int| 0 <= j < input.len() && #[trigger] pred(input[j]);
        assert(x.verdict(input[j]) == Check::Match);
    }
    if exists|j: int| 0 <= j < input.len() && #[trigger] x.verdict(input[j]) == Check::Match {
        let j = choose|j: int| 0 <= j < input.len() && #[trigger] x.verdict(input[j]) == Check::Match;
        assert(pred(input[j]));
    }
}

/// `\d+` compiles to a repeated digit matcher, and finds exactly the lines
/// that hold an ASCII digit (a run of digits that ends the line included).
pub proof fn lemma_digits_plus_finds_digits(input: Seq<char>)
    ensures
        !is_anchored(seq!['\\', 'd', '+']),
        compiled_alternatives(seq!['\\', 'd', '+']) == seq![
            seq![SpecPattern::OneOrMore(Box::new(SpecPattern::Digit))],
        ],
        search(compiled_alternatives(seq!['\\', 'd', '+']), input, false) == Ok::<
            bool,
            SearchError,
        >(exists|j: int| 0 <= j < input.len() && '0' <= #[trigger] input[j] && input[j] <= '9'),
{
    let p = seq!['\\', 'd', '+'];
    assert(p.drop_last() =~= seq!['\\', 'd']);
    lemma_compile_escape('d');
    let s2 = compile_prefix(seq!['\\', 'd'], false);
    assert(s2.patterns == seq![seq![SpecPattern::Digit]]);
    assert(s2.current.push('+') =~= seq!['+']);
    assert(seq![SpecPattern::Digit].drop_last() =~= Seq::<SpecPattern>::empty());
    assert(shortened(s2.patterns) =~= seq![Seq::<SpecPattern>::empty()]);
    assert(popped(s2.patterns) == Some(SpecPattern::Digit));
    assert(appended(seq![Seq::<SpecPattern>::empty()], SpecPattern::OneOrMore(
        Box::new(SpecPattern::Digit),
    )) =~= seq![seq![SpecPattern::OneOrMore(Box::new(SpecPattern::Digit))]]);
    lemma_one_or_more_finds_any_match(SpecPattern::Digit, input);
    if exists|j: int| 0 <= j < input.len() && '0' <= #[trigger] input[j] && input[j] <= '9' {
        let j = choose|j: int| 0 <= j < input.len() && '0' <= #[trigger] input[j] && input[j] <= '9';
        assert(SpecPattern::Digit.verdict(input[j]) == Check::Match);
    }
}

/// Every character of `s` is an ASCII letter or digit.
pub open spec fn all_letters_or_digits(s: Seq<char>) -> bool {
    forall|t: int| 0 <= t < s.len() ==> letter_or_digit(#[trigger] s[t])
}

/// The pattern `[s]`.
pub open spec fn bracket(s: Seq<char>) -> Seq<char> {
    seq!['['] + s + seq![']']
}

/// The starting state with the characters `cur` pending.
pub open spec fn pending_state(cur: Seq<char>) -> CompileState {
    CompileState { current: cur, ..initial_state() }
}

proof fn lemma_class_pending(s: Seq<char>)
    requires
        all_letters_or_digits(s),
    ensures
        compile_prefix(seq!['['] + s, false) == pending_state(seq!['['] + s),
    decreases s.len(),
{
    let p = seq!['['] + s;
    if s.len() == 0 {
        assert(p =~= seq!['[']);
        assert(p.drop_last() =~= Seq::<char>::empty());
        assert(compile_prefix(Seq::<char>::empty(), false) == initial_state());
        assert(initial_state().current.push('[') =~= seq!['[']);
    } else {
        let prev = s.drop_last();
        let c = s.last();
        assert(letter_or_digit(s[s.len() - 1]));
        assert(all_letters_or_digits(prev));
        lemma_class_pending(prev);
        assert(p.drop_last() =~= seq!['['] + prev);
        assert(p.last() == c);
        let cur = (seq!['['] + prev).push(c);
        assert(cur =~= p);
        assert(cur[0] == '[');
        assert(cur.last() == c);
    }
}

proof fn lemma_bracket_class(s: Seq<char>)
    requires
        all_letters_or_digits(s),
    ensures
        alphanumerics(bracket(s)) == s,
{
    let pred = alphanumeric_pred();
    assert forall|t: int| 0 <= t < s.len() implies #[trigger] pred(s[t]) by {
        assert(letter_or_digit(s[t]));
    }
    lemma_filter_framed('[', s, ']', pred);
}

proof fn lemma_bracket_close_step(s: Seq<char>)
    requires
        all_letters_or_digits(s),
    ensures
        compile_step(pending_state(seq!['['] + s), ']', false) == (CompileState {
            patterns: appended(
                initial_state().patterns,
                SpecPattern::InClass(alphanumerics(bracket(s))),
            ),
            ..initial_state()
        }),
{
    let cur = (seq!['['] + s).push(']');
    assert(cur =~= bracket(s));
    assert(cur[0] == '[');
    assert(cur.last() == ']');
    assert(cur.len() >= 2);
    if s.len() > 0 {
        assert(cur[1] == s[0]);
        assert(letter_or_digit(s[0]));
    } else {
        assert(cur[1] == ']');
    }
}

/// `[s]`, with `s` made of ASCII letters and digits, compiles to a single
/// class of exactly the characters of `s`, digits included.
pub proof fn lemma_class_compiles_to_its_characters(s: Seq<char>)
    requires
        all_letters_or_digits(s),
    ensures
        !is_anchored(bracket(s)),
        compiled_alternatives(bracket(s)) == seq![seq![SpecPattern::InClass(s)]],
{
    let p = bracket(s);
    assert(p[0] == '[');
    lemma_class_pending(s);
    assert(p.drop_last() =~= seq!['['] + s);
    assert(p.last() == ']');
    lemma_bracket_close_step(s);
    lemma_bracket_class(s);
    assert(appended(initial_state().patterns, SpecPattern::InClass(s)) =~= seq![
        seq![SpecPattern::InClass(s)],
    ]);
}

/// `[s]`, with `s` made of ASCII letters and digits, finds exactly the lines
/// that hold a character of `s`.
pub proof fn lemma_class_finds_its_characters(s: Seq<char>, input: Seq<char>)
    requires
        all_letters_or_digits(s),
    ensures
        search(compiled_alternatives(bracket(s)), input, is_anchored(bracket(s))) == Ok::<
            bool,
            SearchError,
        >(exists|j: int| 0 <= j < input.len() && s.contains(#[trigger] input[j])),
{
    lemma_class_compiles_to_its_characters(s);
    let x = SpecPattern::InClass(s);
    let pred = |c: char| s.contains(c);
    assert forall|j: int| 0 <= j < input.len() implies #[trigger] attempt_at(
        seq![x],
        input,
        false,
        j,
    ) == (if pred(input[j]) {
        Attempt::Matched
    } else {
        Attempt::NextStart
    }) by {
        lemma_attempt_one_matcher(x, input, j);
    }
    lemma_search_single_row(seq![x], input, pred);
    if some_char(input, pred) {
        let j = choose|j: int| 0 <= j < input.len() && #[trigger] pred(input[j]);
        assert(s.contains(input[j]));
    }
    if exists|j: int| 0 <= j < input.len() && s.contains(#[trigger] input[j]) {
        let j = choose|j: int| 0 <= j < input.len() && s.contains(#[trigger] input[j]);
        assert(pred(input[j]));
    }
}

/// The pattern `p(u|v)`.
pub open spec fn prefixed_alternation(p: Seq<char>, u: Seq<char>, v: Seq<char>) -> Seq<char> {
    p + seq!['('] + u + seq!['|'] + v + seq![')']
}

/// The alternative that `p(w` ... `)` compiles to: the literals of `p`, then a
/// group around the literals of `w`.
pub open spec fn prefixed_group_row(p: Seq<char>, w: Seq<char>) -> Seq<SpecPattern> {
    literal_row(p) + grouped_row(w)
}

/// `p(u|v)` compiles to two alternatives, both starting with the literals of
/// `p`: the text before a group belongs to every branch.
pub proof fn lemma_prefixed_alternation_compiles(p: Seq<char>, u: Seq<char>, v: Seq<char>)
    requires
        all_plain(p),
        all_plain(u),
        all_plain(v),
    ensures
        !is_anchored(prefixed_alternation(p, u, v)),
        compiled_alternatives(prefixed_alternation(p, u, v)) == seq![
            prefixed_group_row(p, v),
            prefixed_group_row(p, u),
        ],
{
    let whole = prefixed_alternation(p, u, v);
    if p.len() > 0 {
        assert(whole[0] == p[0]);
        assert(is_plain(p[0]));
    } else {
        assert(whole[0] == '(');
    }
    let lp = literal_row(p);
    let gs = SpecPattern::GroupStart;
    // After `p`.
    lemma_compile_plain(p, false);
    let s0 = compile_prefix(p, false);
    assert(s0 == plain_state(p));
    // After `p(`.
    let a = p + seq!['('];
    lemma_compile_concat(p, seq!['('], false);
    lemma_compile_from_single(s0, '(', false);
    assert(s0.current.push('(') =~= seq!['(']);
    let s1 = compile_prefix(a, false);
    assert(s1 == compile_step(s0, '(', false));
    assert(appended(s0.patterns, gs) =~= seq![lp.push(gs)]);
    assert(s1.patterns == seq![lp.push(gs)]);
    assert(s1.at_parenthesis == seq![lp]);
    // After `p(u`.
    lemma_compile_concat(a, u, false);
    lemma_compile_from_plain(s1, lp.push(gs), u, false);
    let s2 = compile_prefix(a + u, false);
    let row_u = lp.push(gs) + literal_row(u);
    assert(s2.patterns == seq![row_u]);
    // After `p(u|`.
    lemma_compile_concat(a + u, seq!['|'], false);
    lemma_compile_from_single(s2, '|', false);
    assert(s2.current.push('|') =~= seq!['|']);
    let s3 = compile_prefix(a + u + seq!['|'], false);
    assert(s3 == compile_step(s2, '|', false));
    assert(appended(s2.at_parenthesis, gs) =~= seq![lp.push(gs)]);
    assert(s3.patterns == seq![lp.push(gs)]);
    assert(s3.at_pipes == seq![seq![row_u]]);
    // After `p(u|v`.
    lemma_compile_concat(a + u + seq!['|'], v, false);
    lemma_compile_from_plain(s3, lp.push(gs), v, false);
    let s4 = compile_prefix(a + u + seq!['|'] + v, false);
    let row_v = lp.push(gs) + literal_row(v);
    assert(s4.patterns == seq![row_v]);
    assert(s4.at_pipes == seq![seq![row_u]]);
    // After `p(u|v)`.
    lemma_compile_concat(a + u + seq!['|'] + v, seq![')'], false);
    lemma_compile_from_single(s4, ')', false);
    assert(s4.current.push(')') =~= seq![')']);
    assert(a + u + seq!['|'] + v + seq![')'] =~= whole);
    let s5 = compile_prefix(whole, false);
    assert(s5 == compile_step(s4, ')', false));
    seq![seq![row_u]].lemma_flatten_one_element();
    assert(s4.patterns + s4.at_pipes.flatten() =~= seq![row_v, row_u]);
    assert(row_v.push(SpecPattern::GroupEnd) =~= prefixed_group_row(p, v));
    assert(row_u.push(SpecPattern::GroupEnd) =~= prefixed_group_row(p, u));
    assert(appended(seq![row_v, row_u], SpecPattern::GroupEnd) =~= seq![
        prefixed_group_row(p, v),
        prefixed_group_row(p, u),
    ]);
}

/// How many characters an attempt of `p(w)` has matched when it stands at
/// matcher `k` (the group's start consumes none).
pub open spec fn matched_before(p: Seq<char>, k: int) -> int {
    if k <= p.len() {
        k
    } else {
        k - 1
    }
}

proof fn lemma_prefixed_row_at(p: Seq<char>, w: Seq<char>, k: int)
    requires
        0 <= k < p.len() + w.len() + 2,
    ensures
        k < p.len() ==> prefixed_group_row(p, w)[k] == SpecPattern::Char((p + w)[k]),
        k == p.len() ==> prefixed_group_row(p, w)[k] == SpecPattern::GroupStart,
        p.len() < k <= p.len() + w.len() ==> prefixed_group_row(p, w)[k] == SpecPattern::Char(
            (p + w)[k - 1],
        ),
        k == p.len() + w.len() + 1 ==> prefixed_group_row(p, w)[k] == SpecPattern::GroupEnd,
        prefixed_group_row(p, w).len() == p.len() + w.len() + 2,
{
    let row = prefixed_group_row(p, w);
    let g = grouped_row(w);
    assert(row.len() == p.len() + g.len());
    if k < p.len() {
        assert(row[k] == literal_row(p)[k]);
    } else {
        assert(row[k] == g[k - p.len()]);
        if p.len() < k <= p.len() + w.len() {
            assert(g[k - p.len()] == literal_row(w)[k - p.len() - 1]);
            assert((p + w)[k - 1] == w[k - p.len() - 1]);
        }
    }
}

/// An attempt of `p(w)`, with plain `p` and non-empty plain `w`, matches
/// exactly where `p` followed by `w` occurs, and otherwise moves on.
proof fn lemma_run_prefixed_group(
    p: Seq<char>,
    w: Seq<char>,
    input: Seq<char>,
    i: int,
    k: int,
    refs: Seq<SpecRecord>,
    last: char,
)
    requires
        all_plain(p),
        all_plain(w),
        w.len() > 0,
        0 <= k < p.len() + w.len() + 2,
        0 <= i,
        i + matched_before(p, k) <= input.len(),
        input.subrange(i, i + matched_before(p, k)) == (p + w).take(matched_before(p, k)),
    ensures
        ({
            let a = run(
                prefixed_group_row(p, w),
                input,
                false,
                Cursor {
                    k,
                    pos: i + matched_before(p, k),
                    repeating: false,
                    refs,
                    last,
                    ref_idx: 0,
                },
            );
            &&& (a == Attempt::Matched <==> occurs_at(p + w, input, i))
            &&& (a == Attempt::Matched || a == Attempt::NextStart)
        }),
    decreases p.len() + w.len() + 2 - k,
{
    let row = prefixed_group_row(p, w);
    let pw = p + w;
    let m = matched_before(p, k);
    let cur = Cursor { k, pos: i + m, repeating: false, refs, last, ref_idx: 0 };
    lemma_prefixed_row_at(p, w, k);
    assert(cursor_wf(row, input, cur));
    if k == p.len() + w.len() + 1 {
        assert(m == pw.len());
        assert(pw.take(m) =~= pw);
    } else if k == p.len() {
        if i + m < input.len() {
            lemma_run_prefixed_group(p, w, input, i, k + 1, refs.push((Seq::empty(), false)), last);
        } else {
            assert(!occurs_at(pw, input, i));
        }
    } else {
        assert(0 <= m < pw.len());
        assert(row[k] == SpecPattern::Char(pw[m]));
        assert(is_plain(pw[m])) by {
            if m < p.len() {
                assert(pw[m] == p[m]);
            } else {
                assert(pw[m] == w[m - p.len()]);
            }
        }
        if i + m < input.len() {
            let c = input[i + m];
            if c == pw[m] {
                assert(matched_before(p, k + 1) == m + 1);
                assert(input.subrange(i, i + m + 1) =~= pw.take(m + 1));
                lemma_run_prefixed_group(p, w, input, i, k + 1, record_letter(refs, c), c);
                if occurs_at(pw, input, i) {
                    assert(input.subrange(i, i + pw.len()).subrange(0, m + 1) =~= input.subrange(
                        i,
                        i + m + 1,
                    ));
                    assert(pw.subrange(0, m + 1) =~= pw.take(m + 1));
                }
            } else {
                if occurs_at(pw, input, i) {
                    assert(input.subrange(i, i + pw.len())[m] == input[i + m]);
                }
            }
        } else {
            assert(!occurs_at(pw, input, i));
        }
    }
}

proof fn lemma_attempt_prefixed_group(p: Seq<char>, w: Seq<char>, input: Seq<char>, i: int)
    requires
        all_plain(p),
        all_plain(w),
        w.len() > 0,
        0 <= i < input.len(),
    ensures
        attempt_at(prefixed_group_row(p, w), input, false, i) == (if occurs_at(p + w, input, i) {
            Attempt::Matched
        } else {
            Attempt::NextStart
        }),
{
    lemma_prefixed_row_at(p, w, 0);
    assert(matched_before(p, 0) == 0);
    assert(input.subrange(i, i) =~= (p + w).take(0));
    lemma_run_prefixed_group(p, w, input, i, 0, Seq::empty(), '\0');
    assert(start_cursor(i) == Cursor {
        k: 0,
        pos: i + matched_before(p, 0),
        repeating: false,
        refs: Seq::<SpecRecord>::empty(),
        last: '\0',
        ref_idx: 0,
    });
}

/// Searching for `p(u|v)`, with plain `p` and non-empty plain `u` and `v`,
/// finds exactly the lines in which `p` followed by `u`, or `p` followed by
/// `v`, occurs.
pub proof fn lemma_prefixed_alternation_finds_either(
    p: Seq<char>,
    u: Seq<char>,
    v: Seq<char>,
    input: Seq<char>,
)
    requires
        all_plain(p),
        all_plain(u),
        all_plain(v),
        u.len() > 0,
        v.len() > 0,
    ensures
        search(
            compiled_alternatives(prefixed_alternation(p, u, v)),
            input,
            is_anchored(prefixed_alternation(p, u, v)),
        ) == Ok::<bool, SearchError>(
            (exists|i: int| #[trigger] occurs_at(p + u, input, i)) || (exists|i: int|
                #[trigger] occurs_at(p + v, input, i)),
        ),
{
    lemma_prefixed_alternation_compiles(p, u, v);
    let ru = prefixed_group_row(p, u);
    let rv = prefixed_group_row(p, v);
    let alts = seq![rv, ru];
    assert forall|j: int| 0 <= j < input.len() implies #[trigger] attempt_at(ru, input, false, j)
        == (if occurs_at(p + u, input, j) {
        Attempt::Matched
    } else {
        Attempt::NextStart
    }) by {
        lemma_attempt_prefixed_group(p, u, input, j);
    }
    assert forall|j: int| 0 <= j < input.len() implies #[trigger] attempt_at(rv, input, false, j)
        == (if occurs_at(p + v, input, j) {
        Attempt::Matched
    } else {
        Attempt::NextStart
    }) by {
        lemma_attempt_prefixed_group(p, v, input, j);
    }
    lemma_scan_positions(ru, p + u, input, 0);
    lemma_scan_positions(rv, p + v, input, 0);
    assert(alts[1] == ru);
    assert(alts[0] == rv);
    assert(search_upto(alts, input, false, 0) == Ok::<bool, SearchError>(false));
    assert(search_upto(alts, input, false, 1) == match scan(alts[0], input, false, 0) {
        Some(r) => r,
        None => search_upto(alts, input, false, 0),
    });
    assert(search_upto(alts, input, false, 2) == match scan(alts[1], input, false, 0) {
        Some(r) => r,
        None => search_upto(alts, input, false, 1),
    });
    assert((exists|i: int| #[trigger] occurs_at(p + u, input, i)) == (exists|i: int|
        0 <= i < input.len() && #[trigger] occurs_at(p + u, input, i)));
    assert((exists|i: int| #[trigger] occurs_at(p + v, input, i)) == (exists|i: int|
        0 <= i < input.len() && #[trigger] occurs_at(p + v, input, i)));
}

/// The scan of an alternative whose attempt from each position matches
/// exactly where the non-empty `w` occurs.
proof fn lemma_scan_positions(row: Seq<SpecPattern>, w: Seq<char>, input: Seq<char>, i: int)
    requires
        0 <= i,
        forall|j: int|
            0 <= j < input.len() ==> #[trigger] attempt_at(row, input, false, j) == (if occurs_at(
                w,
                input,
                j,
            ) {
                Attempt::Matched
            } else {
                Attempt::NextStart
            }),
    ensures
        scan(row, input, false, i) == (if exists|j: int|
            i <= j < input.len() && #[trigger] occurs_at(w, input, j) {
            Some(Ok::<bool, SearchError>(true))
        } else {
            None
        }),
    decreases input.len() - i,
{
    if i < input.len() {
        assert(attempt_at(row, input, false, i) == attempt_at(row, input, false, i));
        lemma_scan_positions(row, w, input, i + 1);
        if !occurs_at(w, input, i) {
            assert((exists|j: int| i <= j < input.len() && #[trigger] occurs_at(w, input, j)) == (
            exists|j: int| i + 1 <= j < input.len() && #[trigger] occurs_at(w, input, j)));
        }
    }
}

/// The pattern `(u)\1`.
pub open spec fn repeated_group(u: Seq<char>) -> Seq<char> {
    seq!['('] + u + seq![')', '\\', '1']
}

/// The alternative that `(u)\1` compiles to.
pub open spec fn repeated_group_row(u: Seq<char>) -> Seq<SpecPattern> {
    grouped_row(u).push(SpecPattern::BackRef(0))
}

/// `(u)\1` compiles to a single alternative: the group around the literals
/// of `u`, then a replay of that group.
pub proof fn lemma_repeated_group_compiles(u: Seq<char>)
    requires
        all_plain(u),
    ensures
        !is_anchored(repeated_group(u)),
        compiled_alternatives(repeated_group(u)) == seq![repeated_group_row(u)],
{
    let whole = repeated_group(u);
    assert(whole[0] == '(');
    let open = seq!['('];
    let s0 = initial_state();
    assert(open.drop_last() =~= Seq::<char>::empty());
    assert(compile_prefix(Seq::<char>::empty(), false) == s0);
    assert(s0.current.push('(') =~= seq!['(']);
    let s1 = compile_prefix(open, false);
    assert(s1 == compile_step(s0, '(', false));
    assert(appended(s0.patterns, SpecPattern::GroupStart) =~= seq![seq![SpecPattern::GroupStart]]);
    assert(s1.patterns == seq![seq![SpecPattern::GroupStart]]);
    assert(s1.at_pipes == Seq::<Seq<Seq<SpecPattern>>>::empty());
    lemma_compile_concat(open, u, false);
    lemma_compile_from_plain(s1, seq![SpecPattern::GroupStart], u, false);
    let s2 = compile_prefix(open + u, false);
    let row = seq![SpecPattern::GroupStart] + literal_row(u);
    assert(s2.patterns == seq![row]);
    assert(s2.at_pipes == Seq::<Seq<Seq<SpecPattern>>>::empty());
    // `)`
    lemma_compile_concat(open + u, seq![')'], false);
    lemma_compile_from_single(s2, ')', false);
    assert(s2.current.push(')') =~= seq![')']);
    let s3 = compile_prefix(open + u + seq![')'], false);
    assert(s3 == compile_step(s2, ')', false));
    assert(s2.at_pipes.flatten() =~= Seq::<Seq<SpecPattern>>::empty());
    assert(s2.patterns + s2.at_pipes.flatten() =~= seq![row]);
    assert(row.push(SpecPattern::GroupEnd) =~= grouped_row(u));
    assert(appended(seq![row], SpecPattern::GroupEnd) =~= seq![grouped_row(u)]);
    assert(s3.patterns == seq![grouped_row(u)]);
    assert(s3.current == Seq::<char>::empty());
    // `\`
    lemma_compile_concat(open + u + seq![')'], seq!['\\'], false);
    lemma_compile_from_single(s3, '\\', false);
    assert(s3.current.push('\\') =~= seq!['\\']);
    let s4 = compile_prefix(open + u + seq![')'] + seq!['\\'], false);
    assert(s4 == compile_step(s3, '\\', false));
    assert(s4.current =~= seq!['\\']);
    assert(s4.patterns == seq![grouped_row(u)]);
    // `1`
    lemma_compile_concat(open + u + seq![')'] + seq!['\\'], seq!['1'], false);
    lemma_compile_from_single(s4, '1', false);
    assert(s4.current.push('1') =~= seq!['\\', '1']);
    assert(open + u + seq![')'] + seq!['\\'] + seq!['1'] =~= whole);
    let s5 = compile_prefix(whole, false);
    assert(s5 == compile_step(s4, '1', false));
    assert(appended(seq![grouped_row(u)], SpecPattern::BackRef(0)) =~= seq![
        repeated_group_row(u),
    ]);
}

/// The line, from position `q` on, repeats `u`: either `u` occurs there in
/// full, or the line ends after a non-empty beginning of `u`.
pub open spec fn replay_fits(u: Seq<char>, input: Seq<char>, q: int) -> bool {
    &&& 0 <= q < input.len()
    &&& if q + u.len() <= input.len() {
        input.subrange(q, q + u.len()) == u
    } else {
        input.subrange(q, input.len() as int) == u.take(input.len() - q)
    }
}

/// The body of the group of `(u)` once closed: literals, the last of which
/// validates the group.
pub open spec fn closed_body(u: Seq<char>) -> Seq<SpecPattern> {
    literal_row(u.drop_last()).push(validating_matcher(u.last()))
}

/// The matcher that validates a group on the character `c`.
pub open spec fn validating_matcher(c: char) -> SpecPattern {
    SpecPattern::RefLast(c)
}

proof fn lemma_record_letter_closed(refs: Seq<SpecRecord>, c: char)
    requires
        forall|j: int| 0 <= j < refs.len() ==> (#[trigger] refs[j]).1,
    ensures
        record_letter(refs, c) == refs,
{
    assert(record_letter(refs, c) =~= refs);
}

/// Replaying the closed group of `(u)` from position `q`, after `r`
/// characters of `u` have been replayed.
proof fn lemma_run_replay(u: Seq<char>, input: Seq<char>, i: int, r: int, last: char)
    requires
        all_plain(u),
        u.len() > 0,
        0 <= i,
        0 <= r < u.len(),
        i + u.len() < input.len() || (r > 0 && i + u.len() <= input.len()),
        i + u.len() + r <= input.len(),
        input.subrange(i + u.len(), i + u.len() + r) == u.take(r),
    ensures
        run(
            repeated_group_row(u),
            input,
            false,
            Cursor {
                k: u.len() + 2int,
                pos: i + u.len() + r,
                repeating: false,
                refs: seq![(closed_body(u), true)],
                last,
                ref_idx: r,
            },
        ) == (if replay_fits(u, input, i + u.len()) {
            Attempt::Matched
        } else {
            Attempt::NextStart
        }),
    decreases u.len() - r,
{
    let row = repeated_group_row(u);
    let q = i + u.len();
    let refs = seq![(closed_body(u), true)];
    let body = closed_body(u);
    let cur = Cursor {
        k: u.len() + 2int,
        pos: q + r,
        repeating: false,
        refs,
        last,
        ref_idx: r,
    };
    assert(row.len() == u.len() + 3);
    assert(row[u.len() + 2int] == SpecPattern::BackRef(0));
    assert(cursor_wf(row, input, cur));
    assert(refs[0] == (body, true));
    let d = u.drop_last();
    assert(d.len() == u.len() - 1);
    assert(literal_row(d).len() == d.len());
    assert(body.len() == u.len());
    if q + r >= input.len() {
        assert(r > 0);
        assert(q < input.len());
        assert(input.len() == q + r);
        assert(input.subrange(q, input.len() as int) == u.take(r));
    } else {
        let c = input[q + r];
        assert forall|j: int| 0 <= j < refs.len() implies (#[trigger] refs[j]).1 by {}
        lemma_record_letter_closed(refs, c);
        if r < u.len() - 1 {
            assert(body[r] == literal_row(d)[r]);
            assert(literal_row(d)[r] == char_matcher(d[r]));
            assert(d[r] == u[r]);
            assert(body[r] == SpecPattern::Char(u[r]));
            assert(is_plain(u[r]));
            if c == u[r] {
                assert(input.subrange(q, q + r + 1) =~= u.take(r + 1));
                lemma_run_replay(u, input, i, r + 1, c);
                if replay_fits(u, input, q) {
                    if q + u.len() <= input.len() {
                        assert(input.subrange(q, q + u.len()).subrange(0, r + 1) =~= input.subrange(
                            q,
                            q + r + 1,
                        ));
                    } else {
                        assert(input.subrange(q, input.len() as int).subrange(0, r + 1)
                            =~= input.subrange(q, q + r + 1));
                    }
                    assert(u.subrange(0, r + 1) =~= u.take(r + 1));
                }
            } else {
                if replay_fits(u, input, q) {
                    if q + u.len() <= input.len() {
                        assert(input.subrange(q, q + u.len())[r] == input[q + r]);
                    } else {
                        assert(input.subrange(q, input.len() as int)[r] == input[q + r]);
                    }
                }
            }
        } else {
            assert(body[r] == validating_matcher(u.last()));
            assert(q + u.len() <= input.len());
            if c == u.last() {
                assert(input.subrange(q, q + u.len()) =~= u);
            } else {
                assert(input.subrange(q, q + u.len())[r] == input[q + r]);
            }
        }
    }
}

/// The capture groups while `(u)` is recording, after `t` characters.
pub open spec fn recording_refs(u: Seq<char>, t: int) -> Seq<SpecRecord> {
    seq![(literal_row(u.take(t)), false)]
}

/// An attempt of `(u)\1` inside the group, after `t` characters of `u`
/// have matched from position `i`.
proof fn lemma_run_recording(u: Seq<char>, input: Seq<char>, i: int, t: int, last: char)
    requires
        all_plain(u),
        u.len() > 0,
        0 <= i,
        0 <= t <= u.len(),
        t > 0 ==> last == u[t - 1],
        i + t <= input.len(),
        input.subrange(i, i + t) == u.take(t),
    ensures
        run(
            repeated_group_row(u),
            input,
            false,
            Cursor {
                k: 1 + t,
                pos: i + t,
                repeating: false,
                refs: recording_refs(u, t),
                last,
                ref_idx: 0,
            },
        ) == (if occurs_at(u, input, i) && replay_fits(u, input, i + u.len()) {
            Attempt::Matched
        } else {
            Attempt::NextStart
        }),
    decreases u.len() - t,
{
    let row = repeated_group_row(u);
    let refs = recording_refs(u, t);
    let cur = Cursor { k: 1 + t, pos: i + t, repeating: false, refs, last, ref_idx: 0 };
    assert(row.len() == u.len() + 3);
    assert(cursor_wf(row, input, cur));
    assert(row[1 + t] == grouped_row(u)[1 + t]);
    if t == u.len() {
        assert(grouped_row(u)[1 + t] == SpecPattern::GroupEnd);
        assert(u.take(t) =~= u);
        if i + t < input.len() {
            assert(last_open(refs) == 0);
            assert(u.take(t) == u);
            let body = literal_row(u);
            assert(body.len() > 0);
            assert(body.drop_last() =~= literal_row(u.drop_last()));
            assert(last == u.last());
            assert(SpecPattern::RefLast(last) == validating_matcher(u.last()));
            assert(refs.update(0, (body.drop_last().push(SpecPattern::RefLast(last)), true))
                =~= seq![(closed_body(u), true)]);
            assert(input.subrange(i + u.len(), i + u.len() + 0) =~= u.take(0));
            lemma_run_replay(u, input, i, 0, last);
        }
    } else {
        assert(grouped_row(u)[1 + t] == literal_row(u)[t]);
        assert(literal_row(u)[t] == SpecPattern::Char(u[t]));
        assert(is_plain(u[t]));
        if i + t < input.len() {
            let c = input[i + t];
            if c == u[t] {
                assert(input.subrange(i, i + t + 1) =~= u.take(t + 1));
                assert(u.take(t).push(c) =~= u.take(t + 1));
                lemma_literal_row_push(u.take(t), c);
                assert(record_letter(refs, c) =~= recording_refs(u, t + 1));
                lemma_run_recording(u, input, i, t + 1, c);
                if occurs_at(u, input, i) {
                    assert(input.subrange(i, i + u.len()).subrange(0, t + 1) =~= input.subrange(
                        i,
                        i + t + 1,
                    ));
                    assert(u.subrange(0, t + 1) =~= u.take(t + 1));
                }
            } else {
                if occurs_at(u, input, i) {
                    assert(input.subrange(i, i + u.len())[t] == input[i + t]);
                }
            }
        }
    }
}

/// The scan of an alternative whose attempt from each position matches
/// exactly where `at` holds.
proof fn lemma_scan_where(row: Seq<SpecPattern>, input: Seq<char>, at: spec_fn(int) -> bool, i: int)
    requires
        0 <= i,
        forall|j: int|
            0 <= j < input.len() ==> #[trigger] attempt_at(row, input, false, j) == (if at(j) {
                Attempt::Matched
            } else {
                Attempt::NextStart
            }),
    ensures
        scan(row, input, false, i) == (if exists|j: int| i <= j < input.len() && #[trigger] at(j) {
            Some(Ok::<bool, SearchError>(true))
        } else {
            None
        }),
    decreases input.len() - i,
{
    if i < input.len() {
        assert(attempt_at(row, input, false, i) == attempt_at(row, input, false, i));
        lemma_scan_where(row, input, at, i + 1);
        if !at(i) {
            assert((exists|j: int| i <= j < input.len() && #[trigger] at(j)) == (exists|j: int|
                i + 1 <= j < input.len() && #[trigger] at(j)));
        }
    }
}

/// Searching for `(u)\1`, with non-empty plain `u`, finds exactly the lines
/// in which `u` occurs and is followed by a replay of it: `u` again in full,
/// or, where the line ends first, a non-empty beginning of `u`. The replay
/// accepts only the characters the group captured, in order.
pub proof fn lemma_back_reference_replays_the_group(u: Seq<char>, input: Seq<char>)
    requires
        all_plain(u),
        u.len() > 0,
    ensures
        search(compiled_alternatives(repeated_group(u)), input, is_anchored(repeated_group(u)))
            == Ok::<bool, SearchError>(
            exists|i: int| #[trigger] occurs_at(u, input, i) && replay_fits(u, input, i + u.len()),
        ),
{
    lemma_repeated_group_compiles(u);
    let row = repeated_group_row(u);
    let at = |j: int| occurs_at(u, input, j) && replay_fits(u, input, j + u.len());
    assert forall|j: int| 0 <= j < input.len() implies #[trigger] attempt_at(row, input, false, j)
        == (if at(j) {
        Attempt::Matched
    } else {
        Attempt::NextStart
    }) by {
        let start = start_cursor(j);
        assert(row.len() == u.len() + 3);
        assert(row[0] == SpecPattern::GroupStart);
        assert(cursor_wf(row, input, start));
        assert(u.take(0) =~= Seq::<char>::empty());
        assert(literal_row(Seq::<char>::empty()) =~= Seq::<SpecPattern>::empty());
        assert(Seq::<SpecRecord>::empty().push((Seq::<SpecPattern>::empty(), false)) =~= recording_refs(
            u,
            0,
        ));
        assert(input.subrange(j, j) =~= u.take(0));
        lemma_run_recording(u, input, j, 0, '\0');
    }
    lemma_scan_where(row, input, at, 0);
    let alts = seq![row];
    assert(alts[0] == row);
    assert(search_upto(alts, input, false, 0) == Ok::<bool, SearchError>(false));
    if exists|i: int| #[trigger] occurs_at(u, input, i) && replay_fits(u, input, i + u.len()) {
        let i = choose|i: int| #[trigger] occurs_at(u, input, i) && replay_fits(u, input, i + u.len());
        assert(0 <= i < input.len() && at(i));
    }
    if exists|j: int| 0 <= j < input.len() && #[trigger] at(j) {
        let j = choose|j: int| 0 <= j < input.len() && #[trigger] at(j);
        assert(occurs_at(u, input, j) && replay_fits(u, input, j + u.len()));
    }
}

} // verus!
