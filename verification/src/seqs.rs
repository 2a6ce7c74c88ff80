//! Facts about sequences that several modules use.

use vstd::prelude::*;

verus! {

/// The views of `texts`, one by one.
pub open spec fn text_views(texts: Seq<String>) -> Seq<Seq<char>> {
    texts.map_values(|text: String| text@)
}

/// Filtering the first `i + 1` items of `s` filters the first `i`, and keeps
/// `s[i]` where `pred` holds of it.
pub proof fn lemma_filter_take_next<A>(s: Seq<A>, i: int, pred: spec_fn(A) -> bool)
    requires
        0 <= i < s.len(),
    ensures
        s.take(i + 1).filter(pred) == if pred(s[i]) {
            s.take(i).filter(pred).push(s[i])
        } else {
            s.take(i).filter(pred)
        },
{
    assert(s.take(i + 1) =~= s.take(i).push(s[i]));
    s.take(i).lemma_filter_push(s[i], pred);
}

/// Nothing is left of an empty sequence.
pub proof fn lemma_filter_empty<A>(pred: spec_fn(A) -> bool)
    ensures
        Seq::<A>::empty().filter(pred) == Seq::<A>::empty(),
{
    reveal(Seq::filter);
}

/// Where in `s` the item stood that is the `k`-th of those that `pred` keeps.
pub open spec fn kept_from<A>(s: Seq<A>, pred: spec_fn(A) -> bool, k: int) -> int
    decreases s.len(),
{
    if s.len() == 0 {
        0
    } else if pred(s.last()) && k == s.drop_last().filter(pred).len() {
        s.len() - 1
    } else {
        kept_from(s.drop_last(), pred, k)
    }
}

/// Filtering keeps the items that `pred` holds of, each once and in the order
/// in which they stood.
pub proof fn lemma_filter_keeps_order<A>(s: Seq<A>, pred: spec_fn(A) -> bool)
    ensures
        s.filter(pred).len() <= s.len(),
        forall|k: int|
            0 <= k < s.filter(pred).len() ==> {
                let i = #[trigger] kept_from(s, pred, k);
                &&& 0 <= i < s.len()
                &&& s[i] == s.filter(pred)[k]
                &&& pred(s[i])
            },
        forall|k: int, l: int|
            0 <= k < l < s.filter(pred).len() ==> #[trigger] kept_from(s, pred, k)
                < #[trigger] kept_from(s, pred, l),
        forall|i: int|
            0 <= i < s.len() && pred(#[trigger] s[i]) ==> exists|k: int|
                0 <= k < s.filter(pred).len() && #[trigger] kept_from(s, pred, k) == i,
    decreases s.len(),
{
    reveal(Seq::filter);
    if s.len() > 0 {
        let front = s.drop_last();
        lemma_filter_keeps_order(front, pred);
        front.lemma_filter_push(s.last(), pred);
        assert(front.push(s.last()) =~= s);
        assert forall|k: int| 0 <= k < s.filter(pred).len() implies {
            let i = #[trigger] kept_from(s, pred, k);
            &&& 0 <= i < s.len()
            &&& s[i] == s.filter(pred)[k]
            &&& pred(s[i])
        } by {
            if k < front.filter(pred).len() {
                let i = kept_from(front, pred, k);
                assert(front[i] == s[i]);
            }
        }
        assert forall|k: int, l: int| 0 <= k < l < s.filter(pred).len() implies #[trigger] kept_from(
            s,
            pred,
            k,
        ) < #[trigger] kept_from(s, pred, l) by {
            let i = kept_from(front, pred, k);
            assert(0 <= i < front.len());
            if l < front.filter(pred).len() {
                assert(kept_from(front, pred, k) < kept_from(front, pred, l));
            }
        }
        assert forall|i: int| 0 <= i < s.len() && pred(#[trigger] s[i]) implies exists|k: int|
            0 <= k < s.filter(pred).len() && #[trigger] kept_from(s, pred, k) == i by {
            if i < s.len() - 1 {
                assert(front[i] == s[i]);
                let k = choose|k: int|
                    0 <= k < front.filter(pred).len() && #[trigger] kept_from(front, pred, k) == i;
                assert(kept_from(s, pred, k) == i);
            } else {
                assert(kept_from(s, pred, front.filter(pred).len() as int) == i);
            }
        }
    }
}

/// Where `pred` holds of no item, filtering leaves nothing.
pub proof fn lemma_filter_none<A>(s: Seq<A>, pred: spec_fn(A) -> bool)
    requires
        forall|i: int| 0 <= i < s.len() ==> !pred(#[trigger] s[i]),
    ensures
        s.filter(pred) == Seq::<A>::empty(),
    decreases s.len(),
{
    reveal(Seq::filter);
    if s.len() > 0 {
        assert forall|i: int| 0 <= i < s.drop_last().len() implies !pred(
            #[trigger] s.drop_last()[i],
        ) by {
            assert(s.drop_last()[i] == s[i]);
        }
        lemma_filter_none(s.drop_last(), pred);
    }
}

/// Where `pred` holds of every item, filtering leaves all.
pub proof fn lemma_filter_every<A>(s: Seq<A>, pred: spec_fn(A) -> bool)
    requires
        forall|i: int| 0 <= i < s.len() ==> pred(#[trigger] s[i]),
    ensures
        s.filter(pred) == s,
    decreases s.len(),
{
    reveal(Seq::filter);
    if s.len() > 0 {
        assert forall|i: int| 0 <= i < s.drop_last().len() implies pred(
            #[trigger] s.drop_last()[i],
        ) by {
            assert(s.drop_last()[i] == s[i]);
        }
        lemma_filter_every(s.drop_last(), pred);
        assert(s.drop_last().push(s.last()) =~= s);
    }
}

/// Where `pred` holds of the first item and of no other, filtering leaves
/// the first item.
pub proof fn lemma_filter_first_only<A>(s: Seq<A>, pred: spec_fn(A) -> bool)
    requires
        s.len() > 0,
        pred(s[0]),
        forall|i: int| 1 <= i < s.len() ==> !pred(#[trigger] s[i]),
    ensures
        s.filter(pred) == seq![s[0]],
{
    let head = seq![s[0]];
    let tail = s.skip(1);
    assert(s =~= head + tail);
    assert forall|i: int| 0 <= i < tail.len() implies !pred(#[trigger] tail[i]) by {
        assert(tail[i] == s[i + 1]);
    }
    lemma_filter_none(tail, pred);
    lemma_filter_every(head, pred);
    Seq::filter_distributes_over_add(head, tail, pred);
    assert(head + Seq::<A>::empty() =~= head);
}

} // verus!
