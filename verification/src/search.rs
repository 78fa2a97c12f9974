//! The search of a line for a place where one alternative matches.

use vstd::prelude::*;
use crate::matcher::{Check, Pattern, SpecPattern, chars_of};

verus! {

/// A capture group as it is recorded during one attempt: one matcher per
/// character seen since the group opened, and whether the group has closed.
pub type SpecRecord = (Seq<SpecPattern>, bool);

/// How one attempt, from one start position, ends.
#[derive(PartialEq, Eq, Structural, Clone, Copy, Debug)]
pub enum Attempt {
    /// The alternative matches from this start.
    Matched,
    /// The alternative fails here; try the next start.
    NextStart,
    /// A mismatch on an anchored pattern: the whole search fails.
    Abort,
    /// A back reference names a group that has not been opened.
    Unreachable,
    /// The attempt can make no further progress (the search would spin).
    Stuck,
}

/// Why a search could not give an answer.
#[derive(PartialEq, Eq, Structural, Clone, Copy, Debug)]
pub enum SearchError {
    /// A back reference names a capture group that was never opened.
    UnreachableBackReference,
    /// The search reached a state from which it makes no progress.
    NoProgress,
}

/// The state of one attempt: the index of the matcher in use, the position in
/// the line, whether a repeated matcher has matched at least once, the capture
/// groups, the last character recorded, and the position inside a replayed
/// group.
pub struct Cursor {
    pub k: int,
    pub pos: int,
    pub repeating: bool,
    pub refs: Seq<SpecRecord>,
    pub last: char,
    pub ref_idx: int,
}

/// One step of an attempt: either a new state, or the end of the attempt.
pub enum Step {
    Go(Cursor),
    Done(Attempt),
}

/// Every open capture group with the letter `c` appended (as a literal).
pub open spec fn record_letter(refs: Seq<SpecRecord>, c: char) -> Seq<SpecRecord> {
    refs.map_values(
        |r: SpecRecord|
            if r.1 {
                r
            } else {
                (r.0.push(SpecPattern::Char(c)), false)
            },
    )
}

/// The index of the last open capture group, or -1 when none is open.
pub open spec fn last_open(refs: Seq<SpecRecord>) -> int
    decreases refs.len(),
{
    if refs.len() == 0 {
        -1
    } else if !refs.last().1 {
        refs.len() - 1
    } else {
        last_open(refs.drop_last())
    }
}

/// Closes the last open capture group: its last matcher is replaced by one
/// that validates the group on `letter`.
pub open spec fn close_group(refs: Seq<SpecRecord>, letter: char) -> Seq<SpecRecord> {
    let j = last_open(refs);
    if j < 0 {
        refs
    } else {
        let body = refs[j].0;
        let kept = if body.len() > 0 {
            body.drop_last()
        } else {
            body
        };
        refs.update(j, (kept.push(SpecPattern::RefLast(letter)), true))
    }
}

/// Moves on to the next matcher, or ends the attempt with a match when there
/// is none.
pub open spec fn next_matcher(patt: Seq<SpecPattern>, cur: Cursor) -> Step {
    if cur.k + 1 >= patt.len() {
        Step::Done(Attempt::Matched)
    } else {
        Step::Go(Cursor { k: cur.k + 1, ..cur })
    }
}

/// One step of an attempt of the alternative `patt` on the line `input`.
pub open spec fn step(patt: Seq<SpecPattern>, input: Seq<char>, on_start: bool, cur: Cursor) -> Step {
    let p = patt[cur.k];
    if cur.pos >= input.len() {
        // The line is used up: only an end-of-line matcher, or a last matcher
        // that accepts the end, makes a match.
        let r = p.verdict('\0');
        if r == Check::End {
            Step::Done(Attempt::Matched)
        } else if cur.k + 1 >= patt.len() && r != Check::Nok && (cur.repeating || r
            != Check::EndRepeat) {
            Step::Done(Attempt::Matched)
        } else {
            Step::Done(Attempt::NextStart)
        }
    } else {
        let c = input[cur.pos];
        let consumed = Cursor {
            pos: cur.pos + 1,
            refs: record_letter(cur.refs, c),
            last: c,
            ..cur
        };
        match p.verdict(c) {
            Check::End => Step::Done(Attempt::NextStart),
            Check::Match => next_matcher(patt, consumed),
            Check::OkRepeat => Step::Go(Cursor { repeating: true, ..consumed }),
            Check::EndRepeat => if cur.repeating {
                next_matcher(patt, Cursor { repeating: false, ..cur })
            } else {
                Step::Done(Attempt::NextStart)
            },
            Check::Optional => next_matcher(patt, cur),
            Check::Nok => Step::Done(
                if on_start {
                    Attempt::Abort
                } else {
                    Attempt::NextStart
                },
            ),
            Check::BackRefRecordStart => next_matcher(
                patt,
                Cursor { refs: cur.refs.push((Seq::empty(), false)), ..cur },
            ),
            Check::BackRefRecordEnd => next_matcher(
                patt,
                Cursor { refs: close_group(cur.refs, cur.last), ..cur },
            ),
            Check::BackRefCall(m) => if m < cur.refs.len() {
                let body = cur.refs[m as int].0;
                if 0 <= cur.ref_idx < body.len() {
                    match body[cur.ref_idx].verdict(c) {
                        Check::Match => Step::Go(Cursor { ref_idx: cur.ref_idx + 1, ..consumed }),
                        Check::BackRefValidated => next_matcher(
                            patt,
                            Cursor { ref_idx: 0, ..consumed },
                        ),
                        _ => Step::Done(Attempt::NextStart),
                    }
                } else {
                    Step::Done(Attempt::Stuck)
                }
            } else {
                Step::Done(Attempt::Unreachable)
            },
            Check::BackRefValidated => Step::Done(Attempt::Stuck),
        }
    }
}

/// A state that an attempt can be in.
pub open spec fn cursor_wf(patt: Seq<SpecPattern>, input: Seq<char>, cur: Cursor) -> bool {
    0 <= cur.k < patt.len() && 0 <= cur.pos <= input.len()
}

/// How an attempt ends from the state `cur`.
pub open spec fn run(patt: Seq<SpecPattern>, input: Seq<char>, on_start: bool, cur: Cursor) -> Attempt
    decreases (input.len() - cur.pos) + (patt.len() - cur.k),
    when cursor_wf(patt, input, cur)
{
    match step(patt, input, on_start, cur) {
        Step::Go(next) => run(patt, input, on_start, next),
        Step::Done(a) => a,
    }
}

/// The state at the start of an attempt from position `i`.
pub open spec fn start_cursor(i: int) -> Cursor {
    Cursor { k: 0, pos: i, repeating: false, refs: Seq::empty(), last: '\0', ref_idx: 0 }
}

/// How the attempt of `patt` from position `i` ends.
pub open spec fn attempt_at(patt: Seq<SpecPattern>, input: Seq<char>, on_start: bool, i: int) -> Attempt {
    if patt.len() == 0 {
        Attempt::Matched
    } else {
        run(patt, input, on_start, start_cursor(i))
    }
}

/// The answer of the search, once one alternative has decided it: `None`
/// when every start from `i` on fails and the next alternative is to be tried.
pub open spec fn scan(patt: Seq<SpecPattern>, input: Seq<char>, on_start: bool, i: int) -> Option<
    Result<bool, SearchError>,
>
    decreases input.len() - i,
{
    if i < 0 || i >= input.len() {
        None
    } else {
        match attempt_at(patt, input, on_start, i) {
            Attempt::Matched => Some(Ok(true)),
            Attempt::NextStart => scan(patt, input, on_start, i + 1),
            Attempt::Abort => Some(Ok(false)),
            Attempt::Unreachable => Some(Err(SearchError::UnreachableBackReference)),
            Attempt::Stuck => Some(Err(SearchError::NoProgress)),
        }
    }
}

/// The answer of the search over the first `j` alternatives, the last first.
pub open spec fn search_upto(alts: Seq<Seq<SpecPattern>>, input: Seq<char>, on_start: bool, j: int) -> Result<
    bool,
    SearchError,
>
    decreases j,
{
    if j <= 0 {
        Ok(false)
    } else {
        match scan(alts[j - 1], input, on_start, 0) {
            Some(r) => r,
            None => search_upto(alts, input, on_start, j - 1),
        }
    }
}

/// The answer of the search of `input` for the alternatives `alts`.
pub open spec fn search(alts: Seq<Seq<SpecPattern>>, input: Seq<char>, on_start: bool) -> Result<bool, SearchError> {
    search_upto(alts, input, on_start, alts.len() as int)
}

/// Appends a matcher for `letter` to every capture group that has not closed
/// yet, and returns `letter`.
pub fn add_back_ref_pattern_to_all(letter: char, back_references: &mut [(Vec<Pattern>, bool)]) -> (r: char)
    ensures
        r == letter,
        final(back_references).deep_view() == record_letter(old(back_references).deep_view(), letter),
{
    let n = back_references.len();
    let mut i: usize = 0;
    while i < n
        invariant
            n == back_references@.len(),
            n == old(back_references)@.len(),
            i <= n,
            forall|j: int| 0 <= j < i ==> (#[trigger] back_references@[j]).deep_view()
                == (if old(back_references)@[j].1 {
                    old(back_references)@[j].deep_view()
                } else {
                    (old(back_references)@[j].0.deep_view().push(SpecPattern::Char(letter)), false)
                }),
            forall|j: int| i <= j < n ==> #[trigger] back_references@[j] == old(back_references)@[j],
        decreases n - i,
    {
        if !back_references[i].1 {
            let ghost before = back_references@[i as int].0;
            back_references[i].0.push(Pattern::Char(letter));
            assert(back_references@[i as int].0.deep_view() =~= before.deep_view().push(
                SpecPattern::Char(letter),
            ));
        }
        i += 1;
    }
    assert(back_references.deep_view() =~= record_letter(old(back_references).deep_view(), letter));
    letter
}

/// `last_open` is the last index whose group is open.
proof fn lemma_last_open(refs: Seq<SpecRecord>, j: int)
    requires
        -1 <= j < refs.len(),
        j >= 0 ==> !refs[j].1,
        forall|t: int| j < t < refs.len() ==> #[trigger] refs[t].1,
    ensures
        last_open(refs) == j,
    decreases refs.len(),
{
    if refs.len() > 0 && j < refs.len() - 1 {
        lemma_last_open(refs.drop_last(), j);
    }
}

/// Closes the last open capture group, as `close_group` says.
fn close_last_group(refs: &mut Vec<(Vec<Pattern>, bool)>, letter: char)
    ensures
        final(refs).deep_view() == close_group(old(refs).deep_view(), letter),
{
    let ghost start = refs.deep_view();
    let mut j = refs.len();
    while j > 0 && refs[j - 1].1
        invariant
            j <= refs@.len(),
            forall|t: int| j <= t < refs@.len() ==> #[trigger] refs@[t].1,
        decreases j,
    {
        j -= 1;
    }
    if j > 0 {
        proof {
            lemma_last_open(start, j - 1);
        }
        let ghost body = refs@[j - 1].0.deep_view();
        refs[j - 1].0.pop();
        refs[j - 1].0.push(Pattern::RefLast(letter));
        refs[j - 1].1 = true;
        proof {
            let kept = if body.len() > 0 { body.drop_last() } else { body };
            assert(refs@[j - 1].0.deep_view() =~= kept.push(SpecPattern::RefLast(letter)));
            assert(refs.deep_view() =~= close_group(start, letter));
        }
    } else {
        proof {
            lemma_last_open(start, -1);
        }
    }
}

/// The model of the state of an attempt.
pub open spec fn cursor_of(
    k: usize,
    pos: usize,
    repeating: bool,
    refs: Seq<SpecRecord>,
    last: char,
    ref_idx: usize,
) -> Cursor {
    Cursor { k: k as int, pos: pos as int, repeating, refs, last, ref_idx: ref_idx as int }
}

/// One attempt of the alternative `patt` on the line `input`, from the
/// position `start`.
pub fn attempt(patt: &Vec<Pattern>, input: &Vec<char>, on_start: bool, start: usize) -> (r: Attempt)
    requires
        start <= input@.len(),
    ensures
        r == attempt_at(patt.deep_view(), input@, on_start, start as int),
{
    let ghost pv = patt.deep_view();
    if patt.len() == 0 {
        return Attempt::Matched;
    }
    let n = input.len();
    let plen = patt.len();
    let mut k: usize = 0;
    let mut pos: usize = start;
    let mut repeating = false;
    let mut refs: Vec<(Vec<Pattern>, bool)> = Vec::new();
    let mut last = '\0';
    let mut ref_idx: usize = 0;
    let ghost target = run(pv, input@, on_start, start_cursor(start as int));
    assert(refs.deep_view() =~= Seq::<SpecRecord>::empty());
    loop
        invariant
            pv == patt.deep_view(),
            n == input@.len(),
            plen == patt@.len(),
            k < plen,
            pos <= n,
            run(pv, input@, on_start, cursor_of(k, pos, repeating, refs.deep_view(), last, ref_idx))
                == target,
            target == attempt_at(pv, input@, on_start, start as int),
        decreases (n - pos) + (plen - k),
    {
        let ghost cur = cursor_of(k, pos, repeating, refs.deep_view(), last, ref_idx);
        assert(cursor_wf(pv, input@, cur));
        let p = &patt[k];
        if pos >= n {
            let r = p.check('\0');
            if r == Check::End {
                return Attempt::Matched;
            }
            if k + 1 >= plen && r != Check::Nok && (repeating || r != Check::EndRepeat) {
                return Attempt::Matched;
            }
            return Attempt::NextStart;
        }
        let c = input[pos];
        match p.check(c) {
            Check::End => {
                return Attempt::NextStart;
            },
            Check::Match => {
                last = add_back_ref_pattern_to_all(c, &mut refs);
                pos += 1;
                if k + 1 >= plen {
                    return Attempt::Matched;
                }
                k += 1;
            },
            Check::OkRepeat => {
                last = add_back_ref_pattern_to_all(c, &mut refs);
                pos += 1;
                repeating = true;
            },
            Check::EndRepeat => {
                if repeating {
                    repeating = false;
                    if k + 1 >= plen {
                        return Attempt::Matched;
                    }
                    k += 1;
                } else {
                    return Attempt::NextStart;
                }
            },
            Check::Optional => {
                if k + 1 >= plen {
                    return Attempt::Matched;
                }
                k += 1;
            },
            Check::Nok => {
                if on_start {
                    return Attempt::Abort;
                } else {
                    return Attempt::NextStart;
                }
            },
            Check::BackRefRecordStart => {
                let ghost before = refs.deep_view();
                let fresh: Vec<Pattern> = Vec::new();
                assert(fresh.deep_view() =~= Seq::<SpecPattern>::empty());
                refs.push((fresh, false));
                assert(refs.deep_view() =~= before.push((Seq::<SpecPattern>::empty(), false)));
                if k + 1 >= plen {
                    return Attempt::Matched;
                }
                k += 1;
            },
            Check::BackRefRecordEnd => {
                close_last_group(&mut refs, last);
                if k + 1 >= plen {
                    return Attempt::Matched;
                }
                k += 1;
            },
            Check::BackRefCall(m) => {
                if m < refs.len() {
                    if ref_idx < refs[m].0.len() {
                        match refs[m].0[ref_idx].check(c) {
                            Check::Match => {
                                last = add_back_ref_pattern_to_all(c, &mut refs);
                                ref_idx += 1;
                                pos += 1;
                            },
                            Check::BackRefValidated => {
                                last = add_back_ref_pattern_to_all(c, &mut refs);
                                pos += 1;
                                ref_idx = 0;
                                if k + 1 >= plen {
                                    return Attempt::Matched;
                                }
                                k += 1;
                            },
                            _ => {
                                return Attempt::NextStart;
                            },
                        }
                    } else {
                        return Attempt::Stuck;
                    }
                } else {
                    return Attempt::Unreachable;
                }
            },
            Check::BackRefValidated => {
                return Attempt::Stuck;
            },
        }
    }
}

/// Searches the line `input_line` for a place where one of the alternatives
/// matches, trying the last alternative first and, for each, every start
/// position from the left. With `on_start_only`, the first mismatch ends the
/// search with `false`.
pub fn test_pattern(input_line: &str, patterns: &[Vec<Pattern>], on_start_only: bool) -> (r: Result<
    bool,
    SearchError,
>)
    ensures
        r == search(patterns.deep_view(), input_line@, on_start_only),
{
    let ghost alts = patterns.deep_view();
    let input = chars_of(input_line);
    let n = input.len();
    let mut j = patterns.len();
    while j > 0
        invariant
            alts == patterns.deep_view(),
            input@ == input_line@,
            n == input@.len(),
            j <= patterns@.len(),
            search_upto(alts, input@, on_start_only, j as int) == search(alts, input@, on_start_only),
        decreases j,
    {
        let patt = &patterns[j - 1];
        assert(patt.deep_view() == alts[j - 1]);
        let mut i: usize = 0;
        while i < n
            invariant
                n == input@.len(),
                i <= n,
                0 < j <= patterns@.len(),
                alts == patterns.deep_view(),
                input@ == input_line@,
                search_upto(alts, input@, on_start_only, j as int) == search(alts, input@, on_start_only),
                scan(alts[j - 1], input@, on_start_only, i as int) == scan(
                    alts[j - 1],
                    input@,
                    on_start_only,
                    0,
                ),
                patt.deep_view() == alts[j - 1],
            decreases n - i,
        {
            match attempt(patt, &input, on_start_only, i) {
                Attempt::Matched => {
                    return Ok(true);
                },
                Attempt::NextStart => {},
                Attempt::Abort => {
                    return Ok(false);
                },
                Attempt::Unreachable => {
                    return Err(SearchError::UnreachableBackReference);
                },
                Attempt::Stuck => {
                    return Err(SearchError::NoProgress);
                },
            }
            i += 1;
        }
        j -= 1;
    }
    Ok(false)
}

} // verus!
