//! Facts about sequences used by the proofs.

use vstd::prelude::*;

verus! {

/// Filtering keeps a sequence whose elements all pass.
pub proof fn lemma_filter_keeps_all(s: Seq<char>, pred: spec_fn(char) -> bool)
    requires
        forall|t: int| 0 <= t < s.len() ==> #[trigger] pred(s[t]),
    ensures
        s.filter(pred) == s,
    decreases s.len(),
{
    if s.len() == 0 {
        s.lemma_filter_len(pred);
        assert(s.filter(pred) =~= s);
    } else {
        let prev = s.drop_last();
        let c = s.last();
        assert forall|t: int| 0 <= t < prev.len() implies #[trigger] pred(prev[t]) by {
            assert(prev[t] == s[t]);
        }
        lemma_filter_keeps_all(prev, pred);
        assert(pred(s[s.len() - 1]));
        prev.lemma_filter_push(c, pred);
        assert(prev.push(c) =~= s);
    }
}

/// Filtering a sequence framed by two rejected elements, with accepted ones
/// between them, gives back the accepted ones.
pub proof fn lemma_filter_framed(x: char, s: Seq<char>, y: char, pred: spec_fn(char) -> bool)
    requires
        !pred(x),
        !pred(y),
        forall|t: int| 0 <= t < s.len() ==> #[trigger] pred(s[t]),
    ensures
        (seq![x] + s + seq![y]).filter(pred) == s,
{
    let tail = s.push(y);
    lemma_filter_keeps_all(s, pred);
    s.lemma_filter_push(y, pred);
    tail.lemma_filter_prepend(x, pred);
    assert(Seq::<char>::empty() + tail.filter(pred) =~= tail.filter(pred));
    assert(seq![x] + s + seq![y] =~= seq![x] + tail);
}

} // verus!
