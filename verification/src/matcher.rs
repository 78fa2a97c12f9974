//! Single-character matchers and the verdict each one gives on a character.

use vstd::prelude::*;

verus! {

/// What a matcher says about one character of the input.
#[derive(PartialEq, Eq, Structural, Clone, Copy, Debug)]
pub enum Check {
    /// The character matches; go on with the next matcher.
    Match,
    /// The character matches a repeated matcher; stay on it.
    OkRepeat,
    /// The character ends a run of a repeated matcher.
    EndRepeat,
    /// An optional matcher did not match; skip it without consuming.
    Optional,
    /// A capture group opens here.
    BackRefRecordStart,
    /// A capture group closes here.
    BackRefRecordEnd,
    /// Replay the capture group with this index.
    BackRefCall(usize),
    /// The last character of a replayed capture group matched.
    BackRefValidated,
    /// The end of the line is required here.
    End,
    /// The character does not match.
    Nok,
}

/// A single-character matcher, as produced by the pattern compiler.
pub enum Pattern {
    /// `\d`: an ASCII digit.
    Digit,
    /// `\w`: an ASCII letter or digit.
    Word,
    /// A plain character, which must be equal.
    Char(char),
    /// `.`: any character.
    AnyChar,
    /// `[...]` (and `[^...]`, with its complement): a character of the list.
    InClass(Vec<char>),
    /// `$`: the end of the line.
    LineEnd,
    /// `(`: a capture group opens.
    GroupStart,
    /// `)`: a capture group closes.
    GroupEnd,
    /// `\1` .. `\9`: replays the capture group with this (0-based) index.
    BackRef(usize),
    /// The last character of a recorded capture group.
    RefLast(char),
    /// `+` applied to the inner matcher.
    OneOrMore(Box<Pattern>),
    /// `?` applied to the inner matcher.
    ZeroOrOne(Box<Pattern>),
}

/// The mathematical model of a [`Pattern`]: the same shape, with the
/// character list of a class as a sequence.
pub enum SpecPattern {
    Digit,
    Word,
    Char(char),
    AnyChar,
    InClass(Seq<char>),
    LineEnd,
    GroupStart,
    GroupEnd,
    BackRef(usize),
    RefLast(char),
    OneOrMore(Box<SpecPattern>),
    ZeroOrOne(Box<SpecPattern>),
}

/// `char::is_ascii_digit`.
pub open spec fn is_ascii_digit(c: char) -> bool {
    '0' <= c && c <= '9'
}

/// `char::is_ascii_alphanumeric`.
pub open spec fn is_ascii_alphanumeric(c: char) -> bool {
    ||| is_ascii_digit(c)
    ||| 'a' <= c && c <= 'z'
    ||| 'A' <= c && c <= 'Z'
}

pub fn ascii_digit(c: char) -> (r: bool)
    ensures
        r == is_ascii_digit(c),
{
    '0' <= c && c <= '9'
}

pub fn ascii_alphanumeric(c: char) -> (r: bool)
    ensures
        r == is_ascii_alphanumeric(c),
{
    ('0' <= c && c <= '9') || ('a' <= c && c <= 'z') || ('A' <= c && c <= 'Z')
}

/// `Match` when `b` holds, `Nok` otherwise.
pub open spec fn ok_if(b: bool) -> Check {
    if b {
        Check::Match
    } else {
        Check::Nok
    }
}

impl SpecPattern {
    /// The verdict of this matcher on the character `c`.
    pub open spec fn verdict(self, c: char) -> Check
        decreases self,
    {
        match self {
            SpecPattern::Digit => ok_if(is_ascii_digit(c)),
            SpecPattern::Word => ok_if(is_ascii_alphanumeric(c)),
            SpecPattern::Char(x) => ok_if(c == x),
            SpecPattern::AnyChar => Check::Match,
            SpecPattern::InClass(chars) => ok_if(chars.contains(c)),
            SpecPattern::LineEnd => Check::End,
            SpecPattern::GroupStart => Check::BackRefRecordStart,
            SpecPattern::GroupEnd => Check::BackRefRecordEnd,
            SpecPattern::BackRef(n) => Check::BackRefCall(n),
            SpecPattern::RefLast(x) => if c == x {
                Check::BackRefValidated
            } else {
                Check::Nok
            },
            SpecPattern::OneOrMore(inner) => if inner.verdict(c) == Check::Match {
                Check::OkRepeat
            } else {
                Check::EndRepeat
            },
            SpecPattern::ZeroOrOne(inner) => if inner.verdict(c) == Check::Match {
                Check::Match
            } else {
                Check::Optional
            },
        }
    }
}

/// The model of a matcher.
pub open spec fn model(p: Pattern) -> SpecPattern
    decreases p,
{
    match p {
        Pattern::Digit => SpecPattern::Digit,
        Pattern::Word => SpecPattern::Word,
        Pattern::Char(x) => SpecPattern::Char(x),
        Pattern::AnyChar => SpecPattern::AnyChar,
        Pattern::InClass(chars) => SpecPattern::InClass(chars@),
        Pattern::LineEnd => SpecPattern::LineEnd,
        Pattern::GroupStart => SpecPattern::GroupStart,
        Pattern::GroupEnd => SpecPattern::GroupEnd,
        Pattern::BackRef(n) => SpecPattern::BackRef(n),
        Pattern::RefLast(x) => SpecPattern::RefLast(x),
        Pattern::OneOrMore(inner) => SpecPattern::OneOrMore(Box::new(model(*inner))),
        Pattern::ZeroOrOne(inner) => SpecPattern::ZeroOrOne(Box::new(model(*inner))),
    }
}

impl View for Pattern {
    type V = SpecPattern;

    open spec fn view(&self) -> SpecPattern {
        model(*self)
    }
}

impl DeepView for Pattern {
    type V = SpecPattern;

    open spec fn deep_view(&self) -> SpecPattern {
        model(*self)
    }
}

/// The characters of `s`, in order.
pub fn chars_of(s: &str) -> (r: Vec<char>)
    ensures
        r@ == s@,
{
    let mut v: Vec<char> = Vec::new();
    for c in it: s.chars()
        invariant
            v@ == it.seq().take(it.index() as int),
    {
        v.push(c);
    }
    v
}

/// Whether `c` occurs in `chars`.
pub fn class_contains(chars: &Vec<char>, c: char) -> (r: bool)
    ensures
        r == chars@.contains(c),
{
    let n = chars.len();
    let mut i: usize = 0;
    while i < n
        invariant
            n == chars@.len(),
            i <= n,
            forall|j: int| 0 <= j < i ==> chars@[j] != c,
        decreases n - i,
    {
        if chars[i] == c {
            return true;
        }
        i += 1;
    }
    false
}

/// A copy of a character list.
pub fn copy_chars(chars: &Vec<char>) -> (r: Vec<char>)
    ensures
        r@ == chars@,
{
    let mut r: Vec<char> = Vec::new();
    let n = chars.len();
    let mut i: usize = 0;
    while i < n
        invariant
            n == chars@.len(),
            i <= n,
            r@ == chars@.take(i as int),
        decreases n - i,
    {
        r.push(chars[i]);
        i += 1;
        assert(chars@.take(i as int) == chars@.take(i - 1).push(chars@[i - 1]));
    }
    assert(chars@.take(n as int) == chars@);
    r
}

impl Pattern {
    /// The verdict of this matcher on the character `c`.
    pub fn check(&self, c: char) -> (r: Check)
        ensures
            r == self@.verdict(c),
        decreases self,
    {
        match self {
            Pattern::Digit => if ascii_digit(c) {
                Check::Match
            } else {
                Check::Nok
            },
            Pattern::Word => if ascii_alphanumeric(c) {
                Check::Match
            } else {
                Check::Nok
            },
            Pattern::Char(x) => if c == *x {
                Check::Match
            } else {
                Check::Nok
            },
            Pattern::AnyChar => Check::Match,
            Pattern::InClass(chars) => if class_contains(chars, c) {
                Check::Match
            } else {
                Check::Nok
            },
            Pattern::LineEnd => Check::End,
            Pattern::GroupStart => Check::BackRefRecordStart,
            Pattern::GroupEnd => Check::BackRefRecordEnd,
            Pattern::BackRef(n) => Check::BackRefCall(*n),
            Pattern::RefLast(x) => if c == *x {
                Check::BackRefValidated
            } else {
                Check::Nok
            },
            Pattern::OneOrMore(inner) => match inner.check(c) {
                Check::Match => Check::OkRepeat,
                _ => Check::EndRepeat,
            },
            Pattern::ZeroOrOne(inner) => match inner.check(c) {
                Check::Match => Check::Match,
                _ => Check::Optional,
            },
        }
    }

    /// A copy of this matcher with the same model.
    pub fn duplicate(&self) -> (r: Pattern)
        ensures
            r@ == self@,
        decreases self,
    {
        match self {
            Pattern::Digit => Pattern::Digit,
            Pattern::Word => Pattern::Word,
            Pattern::Char(x) => Pattern::Char(*x),
            Pattern::AnyChar => Pattern::AnyChar,
            Pattern::InClass(chars) => Pattern::InClass(copy_chars(chars)),
            Pattern::LineEnd => Pattern::LineEnd,
            Pattern::GroupStart => Pattern::GroupStart,
            Pattern::GroupEnd => Pattern::GroupEnd,
            Pattern::BackRef(n) => Pattern::BackRef(*n),
            Pattern::RefLast(x) => Pattern::RefLast(*x),
            Pattern::OneOrMore(inner) => Pattern::OneOrMore(Box::new(inner.duplicate())),
            Pattern::ZeroOrOne(inner) => Pattern::ZeroOrOne(Box::new(inner.duplicate())),
        }
    }
}

} // verus!
