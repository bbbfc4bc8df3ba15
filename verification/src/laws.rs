//! What holds of every search and of every lookup.

use crate::db::{iupac_bases, is_wildcard, symbol_admits};
use crate::io::{hits_of, Hit, Query, SearchResult};
use crate::order::lemma_stable_sort_is_unique;
use crate::pattern::{
    class_at, class_hit, class_occurrences, complement, holds, lemma_positions_contains,
    literal_at, literal_hit, positions_below, reverse_complement_of,
};
use crate::place_desc::{
    ac_of, degenerate, has_wildcard, id_of, is_literal_motif, literal_only, lookup, PlaceDB,
};
use crate::strand::{all_hits, is_result_of, lemma_search_reports};
use vstd::prelude::*;

verus! {

/// Taking the reverse complement twice gives the sequence back.
pub proof fn law_reverse_complement_twice(s: Seq<char>)
    ensures
        reverse_complement_of(reverse_complement_of(s)) == s,
{
    assert(reverse_complement_of(reverse_complement_of(s)) =~= s);
}

/// A character that is none of A, C, G, T is its own complement, and keeps
/// its place, mirrored, in the reverse complement.
pub proof fn law_complement_fixes_other_characters(s: Seq<char>, i: int)
    requires
        0 <= i < s.len(),
        s[i] != 'A' && s[i] != 'C' && s[i] != 'G' && s[i] != 'T',
    ensures
        complement(s[i]) == s[i],
        reverse_complement_of(s)[s.len() - 1 - i] == s[i],
{
}

/// A search with a non-empty literal motif of the corpus as the query
/// reports that motif on the forward strand, from position 1 to the motif's
/// length.
pub proof fn law_literal_motif_found_forward(
    db: PlaceDB,
    q: Query,
    result: SearchResult,
    i: int,
)
    requires
        db.wf(),
        0 <= i < db.motifs().len(),
        is_literal_motif(db.motifs()[i].sq),
        db.motifs()[i].sq.len() > 0,
        q.seq == db.motifs()[i].sq,
        is_result_of(result, db, q),
    ensures
        hits_of(result.search_descs@).contains(
            Hit {
                q_id: q.id,
                q_start: 1,
                q_end: db.motifs()[i].sq.len() as int,
                q_dir: 1,
                e_id: db.motifs()[i].id,
                e_len: db.motifs()[i].sq.len() as int,
                e_sq: db.motifs()[i].sq,
                e_ac: db.motifs()[i].ac,
                e_desc: db.motifs()[i].de,
            },
        ),
{
    let m = db.motifs()[i];
    db.motifs().lemma_filter_contains(literal_only(), i);
    let e = choose|e: int| 0 <= e < db.exact_motifs().len() && db.exact_motifs()[e] == m;
    assert(literal_at(q.seq, m.sq, 0));
    assert(holds(literal_hit(q.seq, m.sq), 0));
    lemma_positions_contains(literal_hit(q.seq, m.sq), q.seq.len() as int, 0);
    lemma_search_reports(db, q, result, false, true, e, 0);
}

/// A search with the reverse complement of a non-empty literal motif of the
/// corpus as the query reports that motif on the reverse strand, from
/// position 1 to the motif's length.
pub proof fn law_literal_motif_found_reverse(
    db: PlaceDB,
    q: Query,
    result: SearchResult,
    i: int,
)
    requires
        db.wf(),
        0 <= i < db.motifs().len(),
        is_literal_motif(db.motifs()[i].sq),
        db.motifs()[i].sq.len() > 0,
        q.seq == reverse_complement_of(db.motifs()[i].sq),
        is_result_of(result, db, q),
    ensures
        hits_of(result.search_descs@).contains(
            Hit {
                q_id: q.id,
                q_start: 1,
                q_end: db.motifs()[i].sq.len() as int,
                q_dir: 0,
                e_id: db.motifs()[i].id,
                e_len: db.motifs()[i].sq.len() as int,
                e_sq: db.motifs()[i].sq,
                e_ac: db.motifs()[i].ac,
                e_desc: db.motifs()[i].de,
            },
        ),
{
    let m = db.motifs()[i];
    db.motifs().lemma_filter_contains(literal_only(), i);
    let e = choose|e: int| 0 <= e < db.exact_motifs().len() && db.exact_motifs()[e] == m;
    law_reverse_complement_twice(m.sq);
    let text = reverse_complement_of(q.seq);
    assert(literal_at(text, m.sq, 0));
    assert(holds(literal_hit(text, m.sq), 0));
    lemma_positions_contains(literal_hit(text, m.sq), text.len() as int, 0);
    lemma_search_reports(db, q, result, false, false, e, 0);
}

/// `text` is `pat` with every wildcard symbol replaced by one of the bases
/// that the symbol stands for.
pub open spec fn is_substitution_of(text: Seq<char>, pat: Seq<char>) -> bool {
    &&& text.len() == pat.len()
    &&& forall|x: int|
        0 <= x < pat.len() ==> if is_wildcard(#[trigger] pat[x]) {
            iupac_bases(pat[x])->Some_0.contains(text[x])
        } else {
            text[x] == pat[x]
        }
}

/// A motif fits every string that is made from it by replacing each
/// wildcard symbol by one of its bases: it fits at the string's start, and
/// a search of that string reports a degenerate motif of the corpus on the
/// forward strand, from position 1 to the motif's length.
pub proof fn law_substitution_is_matched(
    db: PlaceDB,
    q: Query,
    result: SearchResult,
    i: int,
)
    requires
        db.wf(),
        0 <= i < db.motifs().len(),
        has_wildcard(db.motifs()[i].sq),
        is_substitution_of(q.seq, db.motifs()[i].sq),
        is_result_of(result, db, q),
    ensures
        class_at(q.seq, db.motifs()[i].sq, 0),
        class_occurrences(q.seq, db.motifs()[i].sq).contains(0),
        hits_of(result.search_descs@).contains(
            Hit {
                q_id: q.id,
                q_start: 1,
                q_end: db.motifs()[i].sq.len() as int,
                q_dir: 1,
                e_id: db.motifs()[i].id,
                e_len: db.motifs()[i].sq.len() as int,
                e_sq: db.motifs()[i].sq,
                e_ac: db.motifs()[i].ac,
                e_desc: db.motifs()[i].de,
            },
        ),
{
    let m = db.motifs()[i];
    db.motifs().lemma_filter_contains(degenerate(), i);
    let e = choose|e: int|
        0 <= e < db.degenerate_motifs().len() && db.degenerate_motifs()[e] == m;
    assert forall|x: int| 0 <= x < m.sq.len() implies symbol_admits(
        #[trigger] m.sq[x],
        q.seq[0 + x],
    ) by {
        let c = m.sq[x];
        if !is_wildcard(c) && iupac_bases(c) is Some {
            assert(iupac_bases(c)->Some_0[0] == c);
        }
    }
    assert(class_at(q.seq, m.sq, 0));
    assert(holds(class_hit(q.seq, m.sq), 0));
    lemma_positions_contains(class_hit(q.seq, m.sq), q.seq.len() as int, 0);
    lemma_search_reports(db, q, result, true, true, e, 0);
}

/// A search is determined by the corpus and the query: two results of the
/// same search hold the same occurrences in the same order.
pub proof fn law_search_is_repeatable(
    db: PlaceDB,
    q: Query,
    first: SearchResult,
    second: SearchResult,
)
    requires
        is_result_of(first, db, q),
        is_result_of(second, db, q),
    ensures
        first.id@ == second.id@,
        first.count == second.count,
        hits_of(first.search_descs@) == hits_of(second.search_descs@),
{
    lemma_stable_sort_is_unique(
        hits_of(first.search_descs@),
        hits_of(second.search_descs@),
        all_hits(db, q),
    );
    assert(hits_of(first.search_descs@).len() == first.search_descs@.len());
    assert(hits_of(second.search_descs@).len() == second.search_descs@.len());
}

/// In a sound corpus, a lookup by a motif's id, or by its accession, gives
/// that motif.
pub proof fn law_lookup_finds_each_motif(db: PlaceDB, i: int)
    requires
        db.wf(),
        0 <= i < db.motifs().len(),
    ensures
        lookup(db.seq_index.id_index@, db.motifs(), db.motifs()[i].id) == Some(db.motifs()[i]),
        lookup(db.seq_index.ac_index@, db.motifs(), db.motifs()[i].ac) == Some(db.motifs()[i]),
{
    let all = db.motifs();
    let m = all[i];
    let by_id = db.seq_index.id_index@;
    let by_ac = db.seq_index.ac_index@;
    assert(by_id.contains_key(id_of()(all[i])));
    assert(by_ac.contains_key(ac_of()(all[i])));
    let j = by_id[m.id] as int;
    assert(id_of()(all[j]) == m.id);
    assert(id_of()(all[i]) == m.id);
    let k = by_ac[m.ac] as int;
    assert(ac_of()(all[k]) == m.ac);
    assert(ac_of()(all[i]) == m.ac);
}

/// In a sound corpus, a lookup by a key that no motif has gives nothing.
pub proof fn law_lookup_misses_unknown_key(db: PlaceDB, key: Seq<char>)
    requires
        db.wf(),
    ensures
        (forall|i: int| 0 <= i < db.motifs().len() ==> (#[trigger] db.motifs()[i]).id != key)
            ==> lookup(db.seq_index.id_index@, db.motifs(), key) is None,
        (forall|i: int| 0 <= i < db.motifs().len() ==> (#[trigger] db.motifs()[i]).ac != key)
            ==> lookup(db.seq_index.ac_index@, db.motifs(), key) is None,
{
    let all = db.motifs();
    let by_id = db.seq_index.id_index@;
    let by_ac = db.seq_index.ac_index@;
    if by_id.contains_key(key) {
        assert(id_of()(all[by_id[key] as int]) == key);
    }
    if by_ac.contains_key(key) {
        assert(ac_of()(all[by_ac[key] as int]) == key);
    }
}

/// A list of occurrences is strictly ascending, so that no place is listed
/// twice, and every place in it lies in the text.
pub proof fn law_occurrences_ascend(hit: spec_fn(int) -> bool, n: int)
    ensures
        forall|a: int, b: int|
            #![trigger positions_below(hit, n)[a], positions_below(hit, n)[b]]
            0 <= a < b < positions_below(hit, n).len() ==> positions_below(hit, n)[a]
                < positions_below(hit, n)[b],
        forall|a: int|
            0 <= a < positions_below(hit, n).len() ==> 0 <= #[trigger] positions_below(hit, n)[a]
                < n,
    decreases n,
{
    if n > 0 {
        law_occurrences_ascend(hit, n - 1);
        let rest = positions_below(hit, n - 1);
        let all = positions_below(hit, n);
        assert forall|a: int| 0 <= a < all.len() implies 0 <= #[trigger] all[a] < n by {
            if a < rest.len() {
                assert(all[a] == rest[a]);
            }
        }
        assert forall|a: int, b: int| 0 <= a < b < all.len() implies #[trigger] all[a]
            < #[trigger] all[b] by {
            assert(all[a] == rest[a]);
            if b < rest.len() {
                assert(all[b] == rest[b]);
            }
        }
    }
}

} // verus!
