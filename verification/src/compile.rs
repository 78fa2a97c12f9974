//! The pattern compiler: reads the pattern one character at a time and grows
//! the list of alternatives.

use vstd::prelude::*;
use crate::matcher::{
    Pattern, SpecPattern, is_ascii_alphanumeric, ascii_alphanumeric, ascii_digit, chars_of,
};
use crate::alternatives::{
    appended, shortened, popped, add_pattern, pop_last_pattern, copy_alternatives,
};

verus! {

/// The model of the compiler's state between two characters of the pattern.
pub struct CompileState {
    /// One sequence of matchers per alternative.
    pub patterns: Seq<Seq<SpecPattern>>,
    /// The alternatives as they stood at the last `(`.
    pub at_parenthesis: Seq<Seq<SpecPattern>>,
    /// The alternatives set aside at each `|` since the last `(`.
    pub at_pipes: Seq<Seq<Seq<SpecPattern>>>,
    /// The characters read but not yet turned into a matcher.
    pub current: Seq<char>,
}

/// `s` is the one-character string `c`.
pub open spec fn is_just(s: Seq<char>, c: char) -> bool {
    s.len() == 1 && s[0] == c
}

pub open spec fn alphanumeric_pred() -> spec_fn(char) -> bool {
    |x: char| is_ascii_alphanumeric(x)
}

pub open spec fn outside_pred(s: Seq<char>) -> spec_fn(char) -> bool {
    |x: char| !s.contains(x)
}

/// The ASCII letters and digits of `s`, in order.
pub open spec fn alphanumerics(s: Seq<char>) -> Seq<char> {
    s.filter(alphanumeric_pred())
}

/// The characters with codes 1 to 126, in order.
pub open spec fn printable_range() -> Seq<char> {
    Seq::new(126, |i: int| (i + 1) as char)
}

/// The characters with codes 1 to 126 that are not in `s`, in order.
pub open spec fn complement(s: Seq<char>) -> Seq<char> {
    printable_range().filter(outside_pred(s))
}

/// The state before the first character.
pub open spec fn initial_state() -> CompileState {
    CompileState {
        patterns: seq![Seq::<SpecPattern>::empty()],
        at_parenthesis: seq![Seq::<SpecPattern>::empty()],
        at_pipes: Seq::empty(),
        current: Seq::empty(),
    }
}

/// Appends `p` to every alternative and clears the pending characters.
pub open spec fn emit(st: CompileState, p: SpecPattern) -> CompileState {
    CompileState { patterns: appended(st.patterns, p), current: Seq::empty(), ..st }
}

/// Removes the last matcher of every alternative and, when the last
/// alternative had one, appends it to every alternative wrapped in `+`
/// (`one_or_more`) or `?`.
pub open spec fn rewrap(st: CompileState, one_or_more: bool) -> CompileState {
    let rest = shortened(st.patterns);
    let patterns = match popped(st.patterns) {
        Some(p) => appended(
            rest,
            if one_or_more {
                SpecPattern::OneOrMore(Box::new(p))
            } else {
                SpecPattern::ZeroOrOne(Box::new(p))
            },
        ),
        None => rest,
    };
    CompileState { patterns, current: Seq::empty(), ..st }
}

/// One step of the compiler: the state after reading `c`, where `anchored`
/// tells whether the whole pattern starts with `^`.
pub open spec fn compile_step(st: CompileState, c: char, anchored: bool) -> CompileState {
    let cur = st.current.push(c);
    if is_just(cur, '^') && anchored {
        CompileState { current: Seq::empty(), ..st }
    } else if is_just(cur, '\\') {
        CompileState { current: cur, ..st }
    } else if cur[0] == '\\' {
        if c == 'd' {
            emit(st, SpecPattern::Digit)
        } else if c == 'w' {
            emit(st, SpecPattern::Word)
        } else if '1' <= c && c <= '9' {
            emit(st, SpecPattern::BackRef((c as int - '1' as int) as usize))
        } else {
            CompileState { current: Seq::empty(), ..st }
        }
    } else if is_just(cur, '$') {
        emit(st, SpecPattern::LineEnd)
    } else if cur[0] == '[' && cur.last() != ']' {
        CompileState { current: cur, ..st }
    } else if cur.len() >= 2 && cur[0] == '[' && cur[1] == '^' {
        // A negated class does not clear the pending characters.
        CompileState {
            patterns: appended(st.patterns, SpecPattern::InClass(complement(alphanumerics(cur)))),
            current: cur,
            ..st
        }
    } else if cur[0] == '[' {
        emit(st, SpecPattern::InClass(alphanumerics(cur)))
    } else if is_just(cur, '(') {
        CompileState {
            patterns: appended(st.patterns, SpecPattern::GroupStart),
            at_parenthesis: st.patterns,
            at_pipes: st.at_pipes,
            current: Seq::empty(),
        }
    } else if is_just(cur, '|') {
        CompileState {
            patterns: appended(st.at_parenthesis, SpecPattern::GroupStart),
            at_parenthesis: st.at_parenthesis,
            at_pipes: st.at_pipes.push(st.patterns),
            current: Seq::empty(),
        }
    } else if is_just(cur, ')') {
        CompileState {
            patterns: appended(st.patterns + st.at_pipes.flatten(), SpecPattern::GroupEnd),
            at_parenthesis: st.at_parenthesis,
            at_pipes: Seq::new(st.at_pipes.len(), |i: int| Seq::<Seq<SpecPattern>>::empty()),
            current: Seq::empty(),
        }
    } else if is_just(cur, '+') {
        rewrap(st, true)
    } else if is_just(cur, '?') {
        rewrap(st, false)
    } else if is_just(cur, '.') {
        emit(st, SpecPattern::AnyChar)
    } else {
        emit(st, SpecPattern::Char(c))
    }
}

/// The state after reading all of `p`.
pub open spec fn compile_prefix(p: Seq<char>, anchored: bool) -> CompileState
    decreases p.len(),
{
    if p.len() == 0 {
        initial_state()
    } else {
        compile_step(compile_prefix(p.drop_last(), anchored), p.last(), anchored)
    }
}

/// Whether the pattern is anchored at the start of the line.
pub open spec fn is_anchored(p: Seq<char>) -> bool {
    p.len() > 0 && p[0] == '^'
}

/// The alternatives compiled from the whole pattern `p`.
pub open spec fn compiled_alternatives(p: Seq<char>) -> Seq<Seq<SpecPattern>> {
    compile_prefix(p, is_anchored(p)).patterns
}

/// The compiler's working state.
pub struct Compiler {
    pub patterns: Vec<Vec<Pattern>>,
    pub temp_at_parenthesis: Vec<Vec<Pattern>>,
    pub temps_at_pipes: Vec<Vec<Vec<Pattern>>>,
    pub current: Vec<char>,
}

impl View for Compiler {
    type V = CompileState;

    open spec fn view(&self) -> CompileState {
        CompileState {
            patterns: self.patterns.deep_view(),
            at_parenthesis: self.temp_at_parenthesis.deep_view(),
            at_pipes: self.temps_at_pipes.deep_view(),
            current: self.current@,
        }
    }
}

/// The ASCII letters and digits of `s`, in order.
pub fn collect_alphanumerics(s: &Vec<char>) -> (r: Vec<char>)
    ensures
        r@ == alphanumerics(s@),
{
    let mut r: Vec<char> = Vec::new();
    let n = s.len();
    let mut i: usize = 0;
    while i < n
        invariant
            n == s@.len(),
            i <= n,
            r@ == s@.take(i as int).filter(alphanumeric_pred()),
        decreases n - i,
    {
        proof {
            assert(s@.take(i + 1) == s@.take(i as int).push(s@[i as int]));
            s@.take(i as int).lemma_filter_push(s@[i as int], alphanumeric_pred());
        }
        if ascii_alphanumeric(s[i]) {
            r.push(s[i]);
        }
        i += 1;
    }
    assert(s@.take(n as int) == s@);
    r
}

/// The characters with codes 1 to 126 that are not in `s`, in order.
pub fn collect_complement(s: &Vec<char>) -> (r: Vec<char>)
    ensures
        r@ == complement(s@),
{
    let mut r: Vec<char> = Vec::new();
    let mut n: u8 = 1;
    while n <= 126
        invariant
            1 <= n <= 127,
            r@ == printable_range().take(n - 1).filter(outside_pred(s@)),
        decreases 127 - n,
    {
        let c = n as char;
        proof {
            assert(printable_range().take(n as int) == printable_range().take(n - 1).push(c));
            printable_range().take(n - 1).lemma_filter_push(c, outside_pred(s@));
        }
        if !crate::matcher::class_contains(s, c) {
            r.push(c);
        }
        n += 1;
    }
    assert(printable_range().take(126) == printable_range());
    r
}

impl Compiler {
    /// A compiler that has read nothing: one empty alternative.
    pub fn new() -> (r: Compiler)
        ensures
            r@ == initial_state(),
    {
        let mut patterns: Vec<Vec<Pattern>> = Vec::new();
        patterns.push(Vec::new());
        let mut temp_at_parenthesis: Vec<Vec<Pattern>> = Vec::new();
        temp_at_parenthesis.push(Vec::new());
        let r = Compiler {
            patterns,
            temp_at_parenthesis,
            temps_at_pipes: Vec::new(),
            current: Vec::new(),
        };
        assert(r.patterns@[0].deep_view() =~= Seq::<SpecPattern>::empty());
        assert(r.temp_at_parenthesis@[0].deep_view() =~= Seq::<SpecPattern>::empty());
        assert(r@.patterns =~= initial_state().patterns);
        assert(r@.at_parenthesis =~= initial_state().at_parenthesis);
        assert(r@.at_pipes =~= initial_state().at_pipes);
        r
    }

    /// Moves the alternatives set aside at each `|` to the end of the current
    /// ones, leaving each of those lists empty.
    fn join_pipes(&mut self)
        ensures
            final(self).patterns.deep_view() == old(self).patterns.deep_view()
                + old(self).temps_at_pipes.deep_view().flatten(),
            final(self).temps_at_pipes.deep_view() == Seq::new(
                old(self).temps_at_pipes.deep_view().len(),
                |i: int| Seq::<Seq<SpecPattern>>::empty(),
            ),
            final(self).temp_at_parenthesis == old(self).temp_at_parenthesis,
            final(self).current == old(self).current,
    {
        let ghost pipes = old(self).temps_at_pipes.deep_view();
        let n = self.temps_at_pipes.len();
        let mut i: usize = 0;
        while i < n
            invariant
                n == self.temps_at_pipes@.len(),
                n == pipes.len(),
                i <= n,
                self.patterns.deep_view() == old(self).patterns.deep_view() + pipes.take(
                    i as int,
                ).flatten_alt(),
                forall|j: int| 0 <= j < i ==> (#[trigger] self.temps_at_pipes@[j])@.len() == 0,
                forall|j: int|
                    i <= j < n ==> (#[trigger] self.temps_at_pipes@[j]).deep_view() == pipes[j],
                self.temp_at_parenthesis == old(self).temp_at_parenthesis,
                self.current == old(self).current,
            decreases n - i,
        {
            let ghost before = self.patterns.deep_view();
            let ghost moved = self.temps_at_pipes@[i as int].deep_view();
            self.patterns.append(&mut self.temps_at_pipes[i]);
            proof {
                assert(self.patterns.deep_view() =~= before + moved);
                assert(pipes.take(i + 1).drop_last() =~= pipes.take(i as int));
                assert(pipes.take(i + 1).last() == pipes[i as int]);
            }
            i += 1;
        }
        proof {
            assert(pipes.take(n as int) =~= pipes);
            pipes.lemma_flatten_and_flatten_alt_are_equivalent();
            assert forall|j: int| 0 <= j < n implies (#[trigger] self.temps_at_pipes@[j]).deep_view()
                =~= Seq::<Seq<SpecPattern>>::empty() by {}
            assert(self.temps_at_pipes.deep_view() =~= Seq::new(
                pipes.len(),
                |i: int| Seq::<Seq<SpecPattern>>::empty(),
            ));
        }
    }

    /// Reads one character of the pattern; `on_start` tells whether the whole
    /// pattern starts with `^`.
    pub fn feed(&mut self, c: char, on_start: bool)
        ensures
            final(self)@ == compile_step(old(self)@, c, on_start),
    {
        self.current.push(c);
        let len = self.current.len();
        let first = self.current[0];
        let last = self.current[len - 1];
        if len == 1 && first == '^' && on_start {
            self.current.clear();
        } else if len == 1 && first == '\\' {
        } else if first == '\\' {
            if c == 'd' {
                add_pattern(Pattern::Digit, &mut self.patterns);
            } else if c == 'w' {
                add_pattern(Pattern::Word, &mut self.patterns);
            } else if ascii_digit(c) && c != '0' {
                let index: u32 = (c as u32) - ('0' as u32);
                add_pattern(Pattern::BackRef((index - 1) as usize), &mut self.patterns);
            }
            self.current.clear();
        } else if len == 1 && first == '$' {
            add_pattern(Pattern::LineEnd, &mut self.patterns);
            self.current.clear();
        } else if first == '[' && last != ']' {
        } else if len >= 2 && first == '[' && self.current[1] == '^' {
            let characters = collect_alphanumerics(&self.current);
            let ascii_reverse = collect_complement(&characters);
            add_pattern(Pattern::InClass(ascii_reverse), &mut self.patterns);
        } else if first == '[' {
            let blah = collect_alphanumerics(&self.current);
            add_pattern(Pattern::InClass(blah), &mut self.patterns);
            self.current.clear();
        } else if len == 1 && first == '(' {
            self.temp_at_parenthesis = copy_alternatives(&self.patterns);
            add_pattern(Pattern::GroupStart, &mut self.patterns);
            self.current.clear();
        } else if len == 1 && first == '|' {
            let mut fresh = copy_alternatives(&self.temp_at_parenthesis);
            std::mem::swap(&mut self.patterns, &mut fresh);
            let ghost pipes = self.temps_at_pipes.deep_view();
            let ghost saved = fresh.deep_view();
            self.temps_at_pipes.push(fresh);
            assert(self.temps_at_pipes.deep_view() =~= pipes.push(saved));
            add_pattern(Pattern::GroupStart, &mut self.patterns);
            self.current.clear();
        } else if len == 1 && first == ')' {
            self.join_pipes();
            add_pattern(Pattern::GroupEnd, &mut self.patterns);
            self.current.clear();
        } else if len == 1 && first == '+' {
            if let Some(last_pat) = pop_last_pattern(&mut self.patterns) {
                add_pattern(Pattern::OneOrMore(Box::new(last_pat)), &mut self.patterns);
            }
            self.current.clear();
        } else if len == 1 && first == '?' {
            if let Some(last_pat) = pop_last_pattern(&mut self.patterns) {
                add_pattern(Pattern::ZeroOrOne(Box::new(last_pat)), &mut self.patterns);
            }
            self.current.clear();
        } else if len == 1 && first == '.' {
            add_pattern(Pattern::AnyChar, &mut self.patterns);
            self.current.clear();
        } else {
            add_pattern(Pattern::Char(c), &mut self.patterns);
            self.current.clear();
        }
    }
}

/// A compiled pattern: its alternatives, and whether it is anchored at the
/// start of the line.
pub struct Compiled {
    pub alternatives: Vec<Vec<Pattern>>,
    pub on_start: bool,
}

/// Compiles a pattern string into its alternatives.
pub fn compile_pattern(raw_pattern: &str) -> (r: Compiled)
    ensures
        r.on_start == is_anchored(raw_pattern@),
        r.alternatives.deep_view() == compiled_alternatives(raw_pattern@),
{
    let chars = chars_of(raw_pattern);
    let on_start = chars.len() > 0 && chars[0] == '^';
    let mut compiler = Compiler::new();
    let n = chars.len();
    let mut i: usize = 0;
    while i < n
        invariant
            n == chars@.len(),
            chars@ == raw_pattern@,
            on_start == is_anchored(raw_pattern@),
            i <= n,
            compiler@ == compile_prefix(chars@.take(i as int), on_start),
        decreases n - i,
    {
        compiler.feed(chars[i], on_start);
        proof {
            assert(chars@.take(i + 1).drop_last() =~= chars@.take(i as int));
        }
        i += 1;
    }
    assert(chars@.take(n as int) =~= chars@);
    Compiled { alternatives: compiler.patterns, on_start }
}

} // verus!
