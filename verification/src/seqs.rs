//! Facts about sequences that the loops of this library lean on.

use vstd::prelude::*;

verus! {

/// Filtering one more item of `s` either appends that item or changes
/// nothing.
pub proof fn lemma_filter_step<A>(s: Seq<A>, pred: spec_fn(A) -> bool, i: int)
    requires
        0 <= i < s.len(),
    ensures
        s.take(i + 1).filter(pred) == if pred(s[i]) {
            s.take(i).filter(pred).push(s[i])
        } else {
            s.take(i).filter(pred)
        },
{
    reveal(Seq::filter);
    assert(s.take(i + 1).drop_last() =~= s.take(i));
    assert(s.take(i + 1).last() == s[i]);
}

/// A filtered sequence holds the items of the sequence that pass the test,
/// and no others.
pub proof fn lemma_filter_contains_iff<A>(s: Seq<A>, pred: spec_fn(A) -> bool, item: A)
    ensures
        s.filter(pred).contains(item) <==> s.contains(item) && pred(item),
    decreases s.len(),
{
    reveal(Seq::filter);
    if s.len() > 0 {
        let rest = s.drop_last();
        lemma_filter_contains_iff(rest, pred, item);
        let kept = rest.filter(pred);
        if s.contains(item) && pred(item) {
            let i = choose|i: int| 0 <= i < s.len() && s[i] == item;
            if i == s.len() - 1 {
                assert(s.filter(pred) == kept.push(item));
                assert(kept.push(item)[kept.len() as int] == item);
            } else {
                assert(rest[i] == item);
                assert(kept.contains(item));
                let k = choose|k: int| 0 <= k < kept.len() && kept[k] == item;
                assert(s.filter(pred)[k] == item);
            }
        }
        if s.filter(pred).contains(item) {
            let k = choose|k: int| 0 <= k < s.filter(pred).len() && s.filter(pred)[k] == item;
            if k < kept.len() {
                assert(kept[k] == item);
                assert(kept.contains(item));
                let i = choose|i: int| 0 <= i < rest.len() && rest[i] == item;
                assert(s[i] == item);
            } else {
                assert(s[s.len() - 1] == item);
            }
        }
    }
}

} // verus!
