//! Facts about filtering a sequence: where the kept items stood, and when
//! nothing is removed.

use vstd::prelude::*;

verus! {

/// Where the items that a filter keeps stood before: for each kept item its
/// index in `s`, in rising order, none left out.
pub proof fn lemma_filter_positions<A>(s: Seq<A>, pred: spec_fn(A) -> bool) -> (pos: Seq<int>)
    ensures
        pos.len() == s.filter(pred).len(),
        forall|a: int|
            0 <= a < pos.len() ==> 0 <= #[trigger] pos[a] < s.len() && s[pos[a]] == s.filter(
                pred,
            )[a],
        forall|a: int, b: int| 0 <= a < b < pos.len() ==> #[trigger] pos[a] < #[trigger] pos[b],
        forall|k: int| 0 <= k < s.len() && pred(#[trigger] s[k]) ==> pos.contains(k),
    decreases s.len(),
{
    reveal(Seq::filter);
    if s.len() == 0 {
        Seq::empty()
    } else {
        let shorter = s.drop_last();
        let sub = lemma_filter_positions(shorter, pred);
        let pos = if pred(s.last()) {
            sub.push(s.len() - 1)
        } else {
            sub
        };
        assert forall|k: int| 0 <= k < s.len() && pred(#[trigger] s[k]) implies pos.contains(
            k,
        ) by {
            if k < s.len() - 1 {
                assert(pred(shorter[k]));
                let a = choose|a: int| 0 <= a < sub.len() && sub[a] == k;
                assert(pos[a] == k);
            } else {
                assert(pos[pos.len() - 1] == k);
            }
        }
        pos
    }
}

/// A filter that keeps as many items as there are keeps them all.
pub proof fn lemma_filter_keeps_all<A>(s: Seq<A>, pred: spec_fn(A) -> bool)
    requires
        s.filter(pred).len() == s.len(),
    ensures
        s.filter(pred) == s,
    decreases s.len(),
{
    reveal(Seq::filter);
    if s.len() > 0 {
        let shorter = s.drop_last();
        shorter.lemma_filter_len(pred);
        lemma_filter_keeps_all(shorter, pred);
        assert(shorter.push(s.last()) =~= s);
    }
}

/// Every kept item passes the test and stood in the sequence.
pub proof fn lemma_filter_members<A>(s: Seq<A>, pred: spec_fn(A) -> bool)
    ensures
        forall|x: A| #[trigger] s.filter(pred).contains(x) ==> pred(x) && s.contains(x),
        forall|x: A| s.contains(x) && pred(x) ==> #[trigger] s.filter(pred).contains(x),
{
    let pos = lemma_filter_positions(s, pred);
    let kept = s.filter(pred);
    assert forall|x: A| #[trigger] kept.contains(x) implies pred(x) && s.contains(x) by {
        let a = choose|a: int| 0 <= a < kept.len() && kept[a] == x;
        s.lemma_filter_pred(pred, a);
        assert(s[pos[a]] == x);
    }
    assert forall|x: A| s.contains(x) && pred(x) implies #[trigger] kept.contains(x) by {
        let k = choose|k: int| 0 <= k < s.len() && s[k] == x;
        assert(pos.contains(k));
        let a = choose|a: int| 0 <= a < pos.len() && pos[a] == k;
        assert(kept[a] == x);
    }
}

} // verus!
