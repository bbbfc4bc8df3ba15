//! The order of the occurrences of one query: ascending by start, and among
//! equal starts in the order in which they were found.

use crate::io::Hit;
use vstd::prelude::*;

verus! {

/// The occurrences that start at `start`, as a predicate.
pub open spec fn starts_at(start: int) -> spec_fn(Hit) -> bool {
    |h: Hit| h.q_start == start
}

/// The starts never go down along the list.
pub open spec fn ascending(list: Seq<Hit>) -> bool {
    forall|i: int, j: int|
        0 <= i <= j < list.len() ==> (#[trigger] list[i]).q_start <= (#[trigger] list[j]).q_start
}

/// `sorted` is `given` sorted stably by start: it ascends, and for every
/// start it holds the same occurrences in the same order as `given`.
pub open spec fn is_stable_sort_of(sorted: Seq<Hit>, given: Seq<Hit>) -> bool {
    &&& ascending(sorted)
    &&& forall|start: int| #[trigger]
        sorted.filter(starts_at(start)) == given.filter(starts_at(start))
}

/// `list` from its last entry to its first.
pub open spec fn turned(list: Seq<Hit>) -> Seq<Hit> {
    Seq::new(list.len(), |i: int| list[list.len() - 1 - i])
}

/// One step of a merge from the back. `tail` is what is merged so far, made
/// of the entries `left_taken` and `right_taken` of the two lists. An entry
/// `x` that starts no later than `tail` does goes in front of it; where it
/// comes from the right list, every entry taken from the left list must
/// start later than `x`, so that `x` stays behind the left list's entries
/// with its own start.
pub proof fn lemma_merge_step(
    tail: Seq<Hit>,
    left_taken: Seq<Hit>,
    right_taken: Seq<Hit>,
    x: Hit,
    from_right: bool,
)
    requires
        ascending(tail),
        tail.len() > 0 ==> x.q_start <= tail[0].q_start,
        forall|start: int| #[trigger]
            tail.filter(starts_at(start)) == left_taken.filter(starts_at(start))
                + right_taken.filter(starts_at(start)),
        from_right ==> forall|k: int|
            0 <= k < left_taken.len() ==> (#[trigger] left_taken[k]).q_start > x.q_start,
    ensures
        ascending(seq![x] + tail),
        forall|start: int| #[trigger]
            (seq![x] + tail).filter(starts_at(start)) == (if from_right {
                left_taken
            } else {
                seq![x] + left_taken
            }).filter(starts_at(start)) + (if from_right {
                seq![x] + right_taken
            } else {
                right_taken
            }).filter(starts_at(start)),
{
    let grown = seq![x] + tail;
    assert forall|i: int, j: int| 0 <= i <= j < grown.len() implies (#[trigger] grown[i]).q_start
        <= (#[trigger] grown[j]).q_start by {
        if i > 0 {
            assert(grown[i] == tail[i - 1] && grown[j] == tail[j - 1]);
        } else if j > 0 {
            assert(grown[j] == tail[j - 1]);
            assert(tail[0].q_start <= tail[j - 1].q_start);
        }
    }
    assert forall|start: int| #[trigger]
        grown.filter(starts_at(start)) == (if from_right {
            left_taken
        } else {
            seq![x] + left_taken
        }).filter(starts_at(start)) + (if from_right {
            seq![x] + right_taken
        } else {
            right_taken
        }).filter(starts_at(start)) by {
        let pred = starts_at(start);
        let one = if pred(x) {
            seq![x]
        } else {
            Seq::<Hit>::empty()
        };
        let lf = left_taken.filter(pred);
        let rf = right_taken.filter(pred);
        tail.lemma_filter_prepend(x, pred);
        assert(tail.filter(pred) == lf + rf);
        if from_right {
            right_taken.lemma_filter_prepend(x, pred);
            if pred(x) {
                assert forall|k: int| 0 <= k < left_taken.len() implies !pred(
                    #[trigger] left_taken[k],
                ) by {}
                left_taken.lemma_all_neg_filter_empty(pred);
            }
            assert(one + (lf + rf) =~= lf + (one + rf));
        } else {
            left_taken.lemma_filter_prepend(x, pred);
            assert(one + (lf + rf) =~= (one + lf) + rf);
        }
    }
}

/// Two ascending lists that hold, for every start, the same occurrences in
/// the same order are one list.
pub proof fn lemma_ascending_lists_agree(a: Seq<Hit>, b: Seq<Hit>)
    requires
        ascending(a),
        ascending(b),
        forall|start: int| #[trigger] a.filter(starts_at(start)) == b.filter(starts_at(start)),
    ensures
        a == b,
    decreases a.len() + b.len(),
{
    if a.len() == 0 || b.len() == 0 {
        // A list that is not empty has a last entry, which the filter on its
        // start keeps: so both lists are empty.
        if a.len() > 0 {
            let pred = starts_at(a.last().q_start);
            a.lemma_filter_contains(pred, a.len() - 1);
            b.lemma_filter_contains_rev(pred, a.last());
        }
        if b.len() > 0 {
            let pred = starts_at(b.last().q_start);
            b.lemma_filter_contains(pred, b.len() - 1);
            a.lemma_filter_contains_rev(pred, b.last());
        }
        assert(a =~= b);
    } else {
        let x = a.last();
        let y = b.last();
        let a0 = a.drop_last();
        let b0 = b.drop_last();
        assert(a =~= a0.push(x));
        assert(b =~= b0.push(y));
        // The last entries have the greatest start of their lists, and each
        // start of one list occurs in the other.
        assert(x.q_start <= y.q_start) by {
            let pred = starts_at(x.q_start);
            a.lemma_filter_contains(pred, a.len() - 1);
            b.lemma_filter_contains_rev(pred, x);
            let k = choose|k: int| 0 <= k < b.len() && b[k] == x;
            assert(b[k].q_start <= b[b.len() - 1].q_start);
        }
        assert(y.q_start <= x.q_start) by {
            let pred = starts_at(y.q_start);
            b.lemma_filter_contains(pred, b.len() - 1);
            a.lemma_filter_contains_rev(pred, y);
            let k = choose|k: int| 0 <= k < a.len() && a[k] == y;
            assert(a[k].q_start <= a[a.len() - 1].q_start);
        }
        let top = starts_at(x.q_start);
        a0.lemma_filter_push(x, top);
        b0.lemma_filter_push(y, top);
        assert(a.filter(top) == b.filter(top));
        assert(a0.filter(top).push(x).last() == b0.filter(top).push(y).last());
        assert(x == y);
        assert forall|i: int, j: int| 0 <= i <= j < a0.len() implies (#[trigger] a0[i]).q_start
            <= (#[trigger] a0[j]).q_start by {
            assert(a0[i] == a[i] && a0[j] == a[j]);
        }
        assert forall|i: int, j: int| 0 <= i <= j < b0.len() implies (#[trigger] b0[i]).q_start
            <= (#[trigger] b0[j]).q_start by {
            assert(b0[i] == b[i] && b0[j] == b[j]);
        }
        assert forall|start: int| #[trigger]
            a0.filter(starts_at(start)) == b0.filter(starts_at(start)) by {
            let pred = starts_at(start);
            a0.lemma_filter_push(x, pred);
            b0.lemma_filter_push(y, pred);
            assert(a.filter(pred) == b.filter(pred));
            if start == x.q_start {
                assert(a0.filter(pred) =~= a0.filter(pred).push(x).drop_last());
                assert(b0.filter(pred) =~= b0.filter(pred).push(y).drop_last());
            }
        }
        lemma_ascending_lists_agree(a0, b0);
    }
}

/// A list has one stable sort by start only.
pub proof fn lemma_stable_sort_is_unique(one: Seq<Hit>, other: Seq<Hit>, given: Seq<Hit>)
    requires
        is_stable_sort_of(one, given),
        is_stable_sort_of(other, given),
    ensures
        one == other,
{
    assert forall|start: int| #[trigger]
        one.filter(starts_at(start)) == other.filter(starts_at(start)) by {
        assert(one.filter(starts_at(start)) == given.filter(starts_at(start)));
        assert(other.filter(starts_at(start)) == given.filter(starts_at(start)));
    }
    lemma_ascending_lists_agree(one, other);
}

/// Sorting neither drops nor invents an occurrence.
pub proof fn lemma_stable_sort_keeps(sorted: Seq<Hit>, given: Seq<Hit>, h: Hit)
    requires
        is_stable_sort_of(sorted, given),
    ensures
        sorted.contains(h) <==> given.contains(h),
{
    let pred = starts_at(h.q_start);
    assert(sorted.filter(pred) == given.filter(pred));
    if given.contains(h) {
        let k = choose|k: int| 0 <= k < given.len() && given[k] == h;
        given.lemma_filter_contains(pred, k);
        sorted.lemma_filter_contains_rev(pred, h);
    }
    if sorted.contains(h) {
        let k = choose|k: int| 0 <= k < sorted.len() && sorted[k] == h;
        sorted.lemma_filter_contains(pred, k);
        given.lemma_filter_contains_rev(pred, h);
    }
}

} // verus!
