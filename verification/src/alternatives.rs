//! The list of alternatives under construction: one sequence of matchers per
//! branch of the pattern, all of which grow together.

use vstd::prelude::*;
use crate::matcher::{Pattern, SpecPattern};

verus! {

/// Every alternative with `p` appended.
pub open spec fn appended(alts: Seq<Seq<SpecPattern>>, p: SpecPattern) -> Seq<Seq<SpecPattern>> {
    alts.map_values(|a: Seq<SpecPattern>| a.push(p))
}

/// Every alternative with its last matcher removed (an empty one stays empty).
pub open spec fn shortened(alts: Seq<Seq<SpecPattern>>) -> Seq<Seq<SpecPattern>> {
    alts.map_values(|a: Seq<SpecPattern>| if a.len() > 0 { a.drop_last() } else { a })
}

/// The matcher that [`pop_last_pattern`] hands back: the one removed from the
/// last alternative, if there is a last alternative and it is not empty.
pub open spec fn popped(alts: Seq<Seq<SpecPattern>>) -> Option<SpecPattern> {
    if alts.len() > 0 && alts.last().len() > 0 {
        Some(alts.last().last())
    } else {
        None
    }
}

/// Appends a copy of `new_pattern` at the end of every alternative.
pub fn add_pattern(new_pattern: Pattern, patterns: &mut [Vec<Pattern>])
    ensures
        final(patterns).deep_view() == appended(old(patterns).deep_view(), new_pattern@),
{
    let n = patterns.len();
    let mut i: usize = 0;
    while i < n
        invariant
            n == patterns@.len(),
            n == old(patterns)@.len(),
            i <= n,
            forall|j: int| 0 <= j < i ==> (#[trigger] patterns@[j]).deep_view()
                == old(patterns)@[j].deep_view().push(new_pattern@),
            forall|j: int| i <= j < n ==> #[trigger] patterns@[j] == old(patterns)@[j],
        decreases n - i,
    {
        let copy = new_pattern.duplicate();
        let ghost before = patterns@[i as int];
        patterns[i].push(copy);
        assert(patterns@[i as int].deep_view() =~= before.deep_view().push(new_pattern@));
        i += 1;
    }
    assert(patterns.deep_view() =~= appended(old(patterns).deep_view(), new_pattern@));
}

/// Removes the last matcher of every alternative, and returns the one removed
/// from the last alternative.
pub fn pop_last_pattern(patterns: &mut [Vec<Pattern>]) -> (output: Option<Pattern>)
    ensures
        final(patterns).deep_view() == shortened(old(patterns).deep_view()),
        output.is_some() == popped(old(patterns).deep_view()).is_some(),
        output matches Some(p) ==> Some(p@) == popped(old(patterns).deep_view()),
{
    let mut output: Option<Pattern> = None;
    let n = patterns.len();
    let mut i: usize = 0;
    while i < n
        invariant
            n == patterns@.len(),
            n == old(patterns)@.len(),
            i <= n,
            forall|j: int| 0 <= j < i ==> (#[trigger] patterns@[j]).deep_view()
                == (if old(patterns)@[j]@.len() > 0 {
                    old(patterns)@[j].deep_view().drop_last()
                } else {
                    old(patterns)@[j].deep_view()
                }),
            forall|j: int| i <= j < n ==> #[trigger] patterns@[j] == old(patterns)@[j],
            i == 0 ==> output.is_none(),
            i > 0 ==> output.is_some() == (old(patterns)@[i - 1]@.len() > 0),
            i > 0 ==> (output matches Some(p) ==> p@ == old(patterns)@[i - 1].deep_view().last()),
        decreases n - i,
    {
        let ghost before = patterns@[i as int];
        output = patterns[i].pop();
        assert(before@.len() > 0 ==> patterns@[i as int].deep_view() =~= before.deep_view().drop_last());
        i += 1;
    }
    assert(patterns.deep_view() =~= shortened(old(patterns).deep_view()));
    output
}

/// A copy of a list of alternatives, with the same model.
pub fn copy_alternatives(patterns: &[Vec<Pattern>]) -> (r: Vec<Vec<Pattern>>)
    ensures
        r.deep_view() == patterns.deep_view(),
{
    let mut r: Vec<Vec<Pattern>> = Vec::new();
    let n = patterns.len();
    let mut i: usize = 0;
    while i < n
        invariant
            n == patterns@.len(),
            i <= n,
            r@.len() == i,
            forall|j: int| 0 <= j < i ==> (#[trigger] r@[j]).deep_view() == patterns@[j].deep_view(),
        decreases n - i,
    {
        let row = &patterns[i];
        let mut copy: Vec<Pattern> = Vec::new();
        let m = row.len();
        let mut k: usize = 0;
        while k < m
            invariant
                m == row@.len(),
                k <= m,
                copy@.len() == k,
                forall|j: int| 0 <= j < k ==> (#[trigger] copy@[j])@ == row@[j]@,
            decreases m - k,
        {
            copy.push(row[k].duplicate());
            k += 1;
        }
        assert(copy.deep_view() =~= row.deep_view());
        r.push(copy);
        i += 1;
    }
    assert(r.deep_view() =~= patterns.deep_view());
    r
}

/// Removing the last matcher of every alternative undoes appending one: the
/// alternatives come back as they were, and the matcher handed back is the
/// one appended (none when there is no alternative).
pub proof fn lemma_pop_undoes_add(alts: Seq<Seq<SpecPattern>>, p: SpecPattern)
    ensures
        shortened(appended(alts, p)) == alts,
        popped(appended(alts, p)) == (if alts.len() > 0 { Some(p) } else { None::<SpecPattern> }),
{
    let grown = appended(alts, p);
    assert forall|j: int| 0 <= j < alts.len() implies #[trigger] shortened(grown)[j] == alts[j] by {
        assert(grown[j].drop_last() =~= alts[j]);
    }
    assert(shortened(grown) =~= alts);
}

} // verus!
