//! Borders of a motif's prefixes: the table that lets a literal scan resume
//! after a mismatch without going back in the text.

use vstd::prelude::*;

verus! {

/// The first `k` symbols of `p` equal the last `k` of its first `n`, with
/// `k < n`: `k` is the length of a border of the prefix of length `n`.
pub open spec fn is_border(p: Seq<char>, n: int, k: int) -> bool {
    &&& 0 <= k < n <= p.len()
    &&& forall|x: int| 0 <= x < k ==> #[trigger] p[x] == p[n - k + x]
}

/// `k` is the length of the longest border of the prefix of length `n`.
pub open spec fn is_longest_border(p: Seq<char>, n: int, k: int) -> bool {
    &&& is_border(p, n, k)
    &&& forall|other: int| #[trigger] is_border(p, n, other) ==> other <= k
}

/// The first `upto` entries of `lps` are right: entry `i` is the length of
/// the longest border of the prefix of `p` that ends at index `i`.
pub open spec fn is_failure_table(p: Seq<char>, lps: Seq<usize>, upto: int) -> bool {
    &&& 0 <= upto <= lps.len()
    &&& upto <= p.len()
    &&& forall|i: int| 0 <= i < upto ==> is_longest_border(p, i + 1, #[trigger] lps[i] as int)
}

/// A border of a longer prefix, shortened by one, is a border of the prefix
/// that is one shorter, and the symbols behind the two agree.
pub proof fn lemma_border_shrink(p: Seq<char>, n: int, k: int)
    requires
        is_border(p, n + 1, k),
        k > 0,
    ensures
        is_border(p, n, k - 1),
        p[k - 1] == p[n],
{
    assert(p[k - 1] == p[(n + 1) - k + (k - 1)]);
    assert forall|x: int| 0 <= x < k - 1 implies #[trigger] p[x] == p[n - (k - 1) + x] by {
        assert(p[x] == p[(n + 1) - k + x]);
    }
}

/// A border grows by one where the next symbols agree.
pub proof fn lemma_border_grow(p: Seq<char>, n: int, k: int)
    requires
        is_border(p, n, k),
        n < p.len(),
        p[k] == p[n],
    ensures
        is_border(p, n + 1, k + 1),
{
    assert forall|x: int| 0 <= x < k + 1 implies #[trigger] p[x] == p[(n + 1) - (k + 1) + x] by {
        if x < k {
            assert(p[x] == p[n - k + x]);
        }
    }
}

/// A border of a border is a border.
pub proof fn lemma_border_of_border(p: Seq<char>, n: int, k: int, inner: int)
    requires
        is_border(p, n, k),
        is_border(p, k, inner),
    ensures
        is_border(p, n, inner),
{
    assert forall|x: int| 0 <= x < inner implies #[trigger] p[x] == p[n - inner + x] by {
        assert(p[x] == p[k - inner + x]);
        let y = k - inner + x;
        assert(p[y] == p[n - k + y]);
    }
}

/// Of two borders of one prefix, the shorter is a border of the longer.
pub proof fn lemma_border_within(p: Seq<char>, n: int, k: int, inner: int)
    requires
        is_border(p, n, k),
        is_border(p, n, inner),
        inner < k,
    ensures
        is_border(p, k, inner),
{
    assert forall|x: int| 0 <= x < inner implies #[trigger] p[x] == p[k - inner + x] by {
        assert(p[x] == p[n - inner + x]);
        let y = k - inner + x;
        assert(p[y] == p[n - k + y]);
    }
}

} // verus!
