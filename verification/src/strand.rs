//! What a search of one query finds: the occurrences of the corpus motifs on
//! both strands, in the coordinates of the query as given.

use crate::io::{hits_of, Hit, Query, SearchResult};
use crate::order::{is_stable_sort_of, lemma_stable_sort_keeps};
use crate::pattern::{class_occurrences, literal_occurrences, reverse_complement_of};
use crate::place_desc::{Motif, PlaceDB};
use vstd::prelude::*;

verus! {

/// The places where `pat` occurs in `text`: by class where `classes` is set,
/// symbol for symbol where it is not.
pub open spec fn occurrences(text: Seq<char>, pat: Seq<char>, classes: bool) -> Seq<int> {
    if classes {
        class_occurrences(text, pat)
    } else {
        literal_occurrences(text, pat)
    }
}

/// The occurrence of motif `m` at the 0-based position `at` of a strand of a
/// query of `qlen` symbols. Positions count from 1 and include both ends. On
/// the forward strand they are those of the strand; on the reverse strand
/// they are mirrored: `start = qlen + 1 - end`, `end = qlen + 1 - start`.
pub open spec fn hit_at(qid: Seq<char>, qlen: int, m: Motif, at: int, forward: bool) -> Hit {
    let len = m.sq.len() as int;
    let start = at + 1;
    let end = at + len;
    Hit {
        q_id: qid,
        q_start: if forward {
            start
        } else {
            qlen + 1 - end
        },
        q_end: if forward {
            end
        } else {
            qlen + 1 - start
        },
        q_dir: if forward {
            1
        } else {
            0
        },
        e_id: m.id,
        e_len: len,
        e_sq: m.sq,
        e_ac: m.ac,
        e_desc: m.de,
    }
}

/// The occurrences of one motif at the given places of a strand, in the
/// order of the places.
pub open spec fn motif_hits(
    qid: Seq<char>,
    qlen: int,
    m: Motif,
    places: Seq<int>,
    forward: bool,
) -> Seq<Hit> {
    places.map_values(|at: int| hit_at(qid, qlen, m, at, forward))
}

/// Everything that the motifs of a list have on one strand: motif by motif
/// in the order of the list, and for each motif by ascending position.
pub open spec fn strand_hits(
    qid: Seq<char>,
    text: Seq<char>,
    motifs: Seq<Motif>,
    classes: bool,
    forward: bool,
) -> Seq<Hit>
    decreases motifs.len(),
{
    if motifs.len() == 0 {
        Seq::empty()
    } else {
        strand_hits(qid, text, motifs.drop_last(), classes, forward) + motif_hits(
            qid,
            text.len() as int,
            motifs.last(),
            occurrences(text, motifs.last().sq, classes),
            forward,
        )
    }
}

/// What the literal motifs have in a query: forward strand, then reverse.
pub open spec fn exact_hits(db: PlaceDB, q: Query) -> Seq<Hit> {
    strand_hits(q.id, q.seq, db.exact_motifs(), false, true) + strand_hits(
        q.id,
        reverse_complement_of(q.seq),
        db.exact_motifs(),
        false,
        false,
    )
}

/// What the degenerate motifs have in a query: forward strand, then reverse.
pub open spec fn iupac_hits(db: PlaceDB, q: Query) -> Seq<Hit> {
    strand_hits(q.id, q.seq, db.degenerate_motifs(), true, true) + strand_hits(
        q.id,
        reverse_complement_of(q.seq),
        db.degenerate_motifs(),
        true,
        false,
    )
}

/// All occurrences in a query in the order in which they are found: literal
/// forward, literal reverse, degenerate forward, degenerate reverse.
pub open spec fn all_hits(db: PlaceDB, q: Query) -> Seq<Hit> {
    exact_hits(db, q) + iupac_hits(db, q)
}

/// `result` is what a search of `q` in the corpus `db` gives: the query's
/// id, the number of occurrences, and all occurrences sorted stably by start.
pub open spec fn is_result_of(result: SearchResult, db: PlaceDB, q: Query) -> bool {
    &&& result.id@ == q.id
    &&& result.count == result.search_descs@.len()
    &&& is_stable_sort_of(hits_of(result.search_descs@), all_hits(db, q))
}

/// What stands in one of two lists stands in the two put together.
pub proof fn lemma_concat_holds(a: Seq<Hit>, b: Seq<Hit>, h: Hit)
    requires
        a.contains(h) || b.contains(h),
    ensures
        (a + b).contains(h),
{
    if a.contains(h) {
        let k = choose|k: int| 0 <= k < a.len() && a[k] == h;
        assert((a + b)[k] == h);
    } else {
        let k = choose|k: int| 0 <= k < b.len() && b[k] == h;
        assert((a + b)[a.len() + k] == h);
    }
}

/// Every place at which a motif of the list occurs on a strand is among
/// what the list has on that strand.
pub proof fn lemma_strand_hits_holds(
    qid: Seq<char>,
    text: Seq<char>,
    motifs: Seq<Motif>,
    classes: bool,
    forward: bool,
    e: int,
    at: int,
)
    requires
        0 <= e < motifs.len(),
        occurrences(text, motifs[e].sq, classes).contains(at),
    ensures
        strand_hits(qid, text, motifs, classes, forward).contains(
            hit_at(qid, text.len() as int, motifs[e], at, forward),
        ),
    decreases motifs.len(),
{
    let h = hit_at(qid, text.len() as int, motifs[e], at, forward);
    let rest = strand_hits(qid, text, motifs.drop_last(), classes, forward);
    let places = occurrences(text, motifs.last().sq, classes);
    let last = motif_hits(qid, text.len() as int, motifs.last(), places, forward);
    if e == motifs.len() - 1 {
        let k = choose|k: int| 0 <= k < places.len() && places[k] == at;
        assert(last[k] == h);
    } else {
        assert(motifs.drop_last()[e] == motifs[e]);
        lemma_strand_hits_holds(qid, text, motifs.drop_last(), classes, forward, e, at);
    }
    lemma_concat_holds(rest, last, h);
}

/// An occurrence of a motif of the corpus on either strand of a query is in
/// the result of the search, in the coordinates of the query as given.
pub proof fn lemma_search_reports(
    db: PlaceDB,
    q: Query,
    result: SearchResult,
    classes: bool,
    forward: bool,
    e: int,
    at: int,
)
    requires
        is_result_of(result, db, q),
        0 <= e < (if classes {
            db.degenerate_motifs()
        } else {
            db.exact_motifs()
        }).len(),
        occurrences(
            if forward {
                q.seq
            } else {
                reverse_complement_of(q.seq)
            },
            (if classes {
                db.degenerate_motifs()
            } else {
                db.exact_motifs()
            })[e].sq,
            classes,
        ).contains(at),
    ensures
        hits_of(result.search_descs@).contains(
            hit_at(
                q.id,
                q.seq.len() as int,
                (if classes {
                    db.degenerate_motifs()
                } else {
                    db.exact_motifs()
                })[e],
                at,
                forward,
            ),
        ),
{
    let motifs = if classes {
        db.degenerate_motifs()
    } else {
        db.exact_motifs()
    };
    let text = if forward {
        q.seq
    } else {
        reverse_complement_of(q.seq)
    };
    let h = hit_at(q.id, q.seq.len() as int, motifs[e], at, forward);
    lemma_strand_hits_holds(q.id, text, motifs, classes, forward, e, at);
    let fwd = strand_hits(q.id, q.seq, motifs, classes, true);
    let rev = strand_hits(q.id, reverse_complement_of(q.seq), motifs, classes, false);
    lemma_concat_holds(fwd, rev, h);
    lemma_concat_holds(exact_hits(db, q), iupac_hits(db, q), h);
    lemma_stable_sort_keeps(hits_of(result.search_descs@), all_hits(db, q), h);
}

} // verus!
