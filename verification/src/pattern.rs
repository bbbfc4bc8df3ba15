//! What it means for a motif to occur in a text, and the list of the places
//! where it does.

use crate::db::symbol_admits;
use vstd::prelude::*;

verus! {

/// The first `len` symbols of `pat` stand in `text` from position `at` on.
pub open spec fn prefix_at(text: Seq<char>, pat: Seq<char>, at: int, len: int) -> bool {
    forall|x: int| 0 <= x < len ==> text[at + x] == #[trigger] pat[x]
}

/// The non-empty motif `pat` stands in `text` at the 0-based position `at`,
/// symbol for symbol.
pub open spec fn literal_at(text: Seq<char>, pat: Seq<char>, at: int) -> bool {
    &&& pat.len() > 0
    &&& 0 <= at
    &&& at + pat.len() <= text.len()
    &&& prefix_at(text, pat, at, pat.len() as int)
}

/// The non-empty motif `pat` fits `text` at the 0-based position `at`: every
/// symbol of the motif admits the character of the text that it faces.
pub open spec fn class_at(text: Seq<char>, pat: Seq<char>, at: int) -> bool {
    &&& pat.len() > 0
    &&& 0 <= at
    &&& at + pat.len() <= text.len()
    &&& forall|x: int| 0 <= x < pat.len() ==> symbol_admits(#[trigger] pat[x], text[at + x])
}

/// `literal_at` as a predicate on positions.
pub open spec fn literal_hit(text: Seq<char>, pat: Seq<char>) -> spec_fn(int) -> bool {
    |at: int| literal_at(text, pat, at)
}

/// `class_at` as a predicate on positions.
pub open spec fn class_hit(text: Seq<char>, pat: Seq<char>) -> spec_fn(int) -> bool {
    |at: int| class_at(text, pat, at)
}

/// `hit` applied to a position.
pub open spec fn holds(hit: spec_fn(int) -> bool, at: int) -> bool {
    hit(at)
}

/// The positions below `n` at which `hit` holds, in ascending order.
pub open spec fn positions_below(hit: spec_fn(int) -> bool, n: int) -> Seq<int>
    decreases n,
{
    if n <= 0 {
        Seq::empty()
    } else if holds(hit, n - 1) {
        positions_below(hit, n - 1).push(n - 1)
    } else {
        positions_below(hit, n - 1)
    }
}

/// Every place where `pat` stands in `text`, ascending; overlapping places
/// are all listed.
pub open spec fn literal_occurrences(text: Seq<char>, pat: Seq<char>) -> Seq<int> {
    positions_below(literal_hit(text, pat), text.len() as int)
}

/// Every place where `pat` fits `text`, ascending; overlapping places are all
/// listed.
pub open spec fn class_occurrences(text: Seq<char>, pat: Seq<char>) -> Seq<int> {
    positions_below(class_hit(text, pat), text.len() as int)
}

/// A list of machine positions as mathematical integers.
pub open spec fn as_ints(s: Seq<usize>) -> Seq<int> {
    s.map_values(|p: usize| p as int)
}

/// Positions at which `hit` fails add nothing to the list.
pub proof fn lemma_positions_skip(hit: spec_fn(int) -> bool, a: int, b: int)
    requires
        a <= b,
        forall|i: int| a <= i < b ==> !#[trigger] holds(hit, i),
    ensures
        positions_below(hit, b) == positions_below(hit, a),
    decreases b - a,
{
    if a < b {
        lemma_positions_skip(hit, a, b - 1);
        if b <= 0 {
            assert(positions_below(hit, a) == Seq::<int>::empty());
        }
    }
}

/// The list holds exactly the positions in range at which `hit` holds.
pub proof fn lemma_positions_contains(hit: spec_fn(int) -> bool, n: int, i: int)
    ensures
        positions_below(hit, n).contains(i) <==> (0 <= i < n && holds(hit, i)),
    decreases n,
{
    if n > 0 {
        lemma_positions_contains(hit, n - 1, i);
        let rest = positions_below(hit, n - 1);
        if holds(hit, n - 1) {
            let all = rest.push(n - 1);
            if all.contains(i) {
                let k = choose|k: int| 0 <= k < all.len() && all[k] == i;
                if k < rest.len() {
                    assert(rest[k] == i);
                }
            }
            if rest.contains(i) {
                let k = choose|k: int| 0 <= k < rest.len() && rest[k] == i;
                assert(all[k] == i);
            }
            if i == n - 1 {
                assert(all[rest.len() as int] == i);
            }
        }
    }
}

/// The base that pairs with `c` on the other strand; a character that is no
/// base stays as it is.
pub open spec fn complement(c: char) -> char {
    if c == 'A' {
        'T'
    } else if c == 'T' {
        'A'
    } else if c == 'C' {
        'G'
    } else if c == 'G' {
        'C'
    } else {
        c
    }
}

/// The reverse complement of `s`: its characters in reverse order, each
/// replaced by its complement.
pub open spec fn reverse_complement_of(s: Seq<char>) -> Seq<char> {
    Seq::new(s.len(), |i: int| complement(s[s.len() - 1 - i]))
}

} // verus!
