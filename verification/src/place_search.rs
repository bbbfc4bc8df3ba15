//! Search of the motif corpus in query sequences.

use crate::border::{
    is_border, is_failure_table, is_longest_border, lemma_border_grow, lemma_border_of_border,
    lemma_border_shrink, lemma_border_within,
};
use crate::db::{init_iupac_map, iupac_bases, is_iupac_table, symbol_admits};
use crate::io::{hits_of, sort_by_start, Hit, RecordDesc, SearchResult, SearchedDesc};
use crate::pattern::{
    as_ints, class_at, class_hit, class_occurrences, complement, holds, lemma_positions_contains,
    lemma_positions_skip, literal_at, literal_hit, literal_occurrences, positions_below,
    prefix_at, reverse_complement_of,
};
use crate::place_desc::{found_view, lookup, motifs_of, KeyIndex, PlaceDB, SeqDesc};
use crate::strand::{
    exact_hits, hit_at, is_result_of, iupac_hits, motif_hits, occurrences, strand_hits,
};
use crate::text::{chars_of, push_char};
use rayon::iter::{IntoParallelRefIterator, ParallelIterator};
use vstd::prelude::*;
use vstd::string::StrSliceExecFns;

verus! {

/// Why a search of one query failed.
#[derive(Debug)]
pub enum SearchError {
    /// The engine broke one of its own rules while it searched the query.
    MatchEngineFailure,
}

/// rayon's `par_iter().map(scan).collect()` on the list of motifs: `scan` is
/// called once on every motif, on several threads at a time, and the results
/// come back in the order of the motifs.
#[verifier::external_body]
fn scan_in_parallel<F>(motifs: &Vec<SeqDesc>, scan: F) -> (found: Vec<Vec<usize>>) where
    F: Fn(&SeqDesc) -> Vec<usize> + Sync + Send,

    requires
        forall|k: int| 0 <= k < motifs@.len() ==> call_requires(scan, (&#[trigger] motifs@[k],)),
    ensures
        found@.len() == motifs@.len(),
        forall|k: int|
            0 <= k < motifs@.len() ==> call_ensures(scan, (&motifs@[k],), #[trigger] found@[k]),
{
    motifs.par_iter().map(scan).collect()
}

/// The search engine: the corpus and the IUPAC table, both fixed once the
/// engine is made.
pub struct Search {
    db: PlaceDB,
    iupac: Vec<(char, Vec<char>)>,
}

impl Search {
    #[verifier::type_invariant]
    spec fn table_is_right(&self) -> bool {
        is_iupac_table(self.iupac@)
    }

    /// The corpus that the engine searches.
    pub closed spec fn corpus(&self) -> PlaceDB {
        self.db
    }

    /// An engine on the corpus `db`.
    pub fn new(db: PlaceDB) -> (engine: Search)
        ensures
            engine.corpus() == db,
    {
        Search { db, iupac: init_iupac_map() }
    }

    /// The corpus that the engine searches.
    pub fn db(&self) -> (db: &PlaceDB)
        ensures
            *db == self.corpus(),
    {
        &self.db
    }

    /// Whether the motif symbol `pattern_char` accepts `text_char`: a symbol
    /// of the IUPAC table accepts its bases, any other character only
    /// itself.
    pub fn is_iupac_match(&self, text_char: char, pattern_char: char) -> (yes: bool)
        ensures
            yes == symbol_admits(pattern_char, text_char),
    {
        proof {
            use_type_invariant(self);
        }
        let mut k: usize = 0;
        while k < self.iupac.len()
            invariant
                k <= self.iupac@.len(),
                is_iupac_table(self.iupac@),
                forall|e: int| 0 <= e < k ==> (#[trigger] self.iupac@[e]).0 != pattern_char,
            decreases self.iupac@.len() - k,
        {
            if self.iupac[k].0 == pattern_char {
                let bases = &self.iupac[k].1;
                assert(iupac_bases(self.iupac@[k as int].0) == Some(bases@));
                let mut b: usize = 0;
                while b < bases.len()
                    invariant
                        b <= bases@.len(),
                        iupac_bases(pattern_char) == Some(bases@),
                        forall|e: int| 0 <= e < b ==> bases@[e] != text_char,
                    decreases bases@.len() - b,
                {
                    if bases[b] == text_char {
                        assert(bases@[b as int] == text_char);
                        return true;
                    }
                    b += 1;
                }
                return false;
            }
            k += 1;
        }
        text_char == pattern_char
    }

    /// Every 0-based position at which `pattern` fits `text` symbol by
    /// symbol, ascending. Overlapping occurrences are all reported; an empty
    /// pattern fits nowhere.
    pub fn kmp_search_with_iupac(&self, text: &str, pattern: &str) -> (matches: Vec<usize>)
        ensures
            as_ints(matches@) == class_occurrences(text@, pattern@),
    {
        let mut matches: Vec<usize> = Vec::new();
        let ghost t = text@;
        let ghost p = pattern@;
        let ghost hit = class_hit(t, p);
        if pattern.is_empty() {
            proof {
                lemma_positions_skip(hit, 0, t.len() as int);
                assert(as_ints(matches@) =~= Seq::<int>::empty());
            }
            return matches;
        }
        let text_chars = chars_of(text);
        let pattern_chars = chars_of(pattern);
        let n: usize = text_chars.len();
        let m: usize = pattern_chars.len();
        if m > n {
            proof {
                lemma_positions_skip(hit, 0, t.len() as int);
                assert(as_ints(matches@) =~= Seq::<int>::empty());
            }
            return matches;
        }
        proof {
            assert(as_ints(matches@) =~= Seq::<int>::empty());
        }
        let mut i: usize = 0;
        while i <= n - m
            invariant
                t == text_chars@,
                p == pattern_chars@,
                hit == class_hit(t, p),
                n == t.len(),
                m == p.len(),
                0 < m <= n,
                i <= n - m + 1,
                as_ints(matches@) == positions_below(hit, i as int),
            decreases n - m + 1 - i,
        {
            let mut j: usize = 0;
            let mut fits: bool = true;
            while j < m && fits
                invariant
                    t == text_chars@,
                    p == pattern_chars@,
                    n == t.len(),
                    m == p.len(),
                    i + m <= n,
                    j <= m,
                    fits ==> forall|x: int|
                        0 <= x < j ==> symbol_admits(#[trigger] p[x], t[i + x]),
                    !fits ==> !class_at(t, p, i as int),
                decreases m - j + (if fits { 1int } else { 0int }),
            {
                if !self.is_iupac_match(text_chars[i + j], pattern_chars[j]) {
                    fits = false;
                } else {
                    j += 1;
                }
            }
            if fits {
                proof {
                    assert(class_at(t, p, i as int));
                    assert(holds(hit, i as int));
                    assert(as_ints(matches@.push(i)) =~= as_ints(matches@).push(i as int));
                }
                matches.push(i);
            } else {
                proof {
                    assert(!holds(hit, i as int));
                }
            }
            i += 1;
        }
        proof {
            lemma_positions_skip(hit, i as int, t.len() as int);
        }
        matches
    }

    /// The reverse complement of `query`: its characters in reverse order,
    /// with A and T exchanged and C and G exchanged; every other character
    /// stays as it is.
    pub fn reverse_complement(query: &str) -> (rev_comp: String)
        ensures
            rev_comp@ == reverse_complement_of(query@),
    {
        let chars = chars_of(query);
        let mut rev_comp = String::new();
        let mut left: usize = chars.len();
        while left > 0
            invariant
                left <= chars@.len(),
                chars@ == query@,
                rev_comp@.len() == chars@.len() - left,
                forall|x: int|
                    0 <= x < rev_comp@.len() ==> #[trigger] rev_comp@[x] == complement(
                        chars@[chars@.len() - 1 - x],
                    ),
            decreases left,
        {
            left -= 1;
            let c = chars[left];
            if c == 'A' {
                push_char(&mut rev_comp, 'T');
            } else if c == 'T' {
                push_char(&mut rev_comp, 'A');
            } else if c == 'C' {
                push_char(&mut rev_comp, 'G');
            } else if c == 'G' {
                push_char(&mut rev_comp, 'C');
            } else {
                push_char(&mut rev_comp, c);
            }
        }
        proof {
            assert(rev_comp@ =~= reverse_complement_of(query@));
        }
        rev_comp
    }

    /// Searches every query of `query`, one after the other: one result for
    /// each query, in the order of the queries.
    pub fn search_elements(&self, query: &[RecordDesc]) -> (found: Result<
        Vec<SearchResult>,
        SearchError,
    >)
        ensures
            found matches Ok(list) && list@.len() == query@.len() && forall|k: int|
                0 <= k < query@.len() ==> is_result_of(
                    #[trigger] list@[k],
                    self.corpus(),
                    query@[k]@,
                ),
    {
        let mut res_p: Vec<SearchResult> = Vec::new();
        let mut k: usize = 0;
        while k < query.len()
            invariant
                k <= query@.len(),
                res_p@.len() == k,
                forall|e: int|
                    0 <= e < k ==> is_result_of(#[trigger] res_p@[e], self.corpus(), query@[e]@),
            decreases query@.len() - k,
        {
            match self.search_elements_single_seq(&query[k]) {
                Ok(mut r) => {
                    res_p.append(&mut r);
                },
                Err(_) => {},
            }
            k += 1;
        }
        Ok(res_p)
    }

    /// Searches one query on both strands: all occurrences of the literal
    /// and of the degenerate motifs, in the coordinates of the query as
    /// given, ascending by start; occurrences with the same start stand in
    /// the order literal forward, literal reverse, degenerate forward,
    /// degenerate reverse.
    pub fn search_elements_single_seq(&self, query: &RecordDesc) -> (found: Result<
        Vec<SearchResult>,
        SearchError,
    >)
        ensures
            found matches Ok(list) && list@.len() == 1 && is_result_of(
                list@[0],
                self.corpus(),
                query@,
            ),
    {
        let mut searched: Vec<SearchedDesc> = Vec::new();
        let mut res_exact = match self.search_element_exact(query) {
            Ok(list) => list,
            Err(e) => {
                return Err(e);
            },
        };
        let mut res_iupac = match self.search_element_iupac(query) {
            Ok(list) => list,
            Err(e) => {
                return Err(e);
            },
        };
        let ghost exact = hits_of(res_exact@);
        let ghost iupac = hits_of(res_iupac@);
        searched.append(&mut res_exact);
        searched.append(&mut res_iupac);
        proof {
            assert(hits_of(searched@) =~= exact + iupac);
        }
        let searched = sort_by_start(searched);
        let mut total: Vec<SearchResult> = Vec::new();
        total.push(SearchResult::new(query.id(), searched));
        Ok(total)
    }

    /// The motif with each of the given ids, in the order of the ids;
    /// `None` for an id that the corpus does not hold.
    pub fn query_elements_by_id(&self, query: &[&str]) -> (elements: Vec<Option<SeqDesc>>)
        ensures
            elements@.len() == query@.len(),
            forall|k: int|
                0 <= k < query@.len() ==> found_view(#[trigger] elements@[k]) == lookup(
                    self.corpus().seq_index.id_index@,
                    self.corpus().motifs(),
                    query@[k]@,
                ),
    {
        self.query_elements(&self.db.seq_index.id_index, query)
    }

    /// The motif with each of the given accession numbers, in the order of
    /// the numbers; `None` for a number that the corpus does not hold.
    pub fn query_elements_by_ac(&self, query: &[&str]) -> (elements: Vec<Option<SeqDesc>>)
        ensures
            elements@.len() == query@.len(),
            forall|k: int|
                0 <= k < query@.len() ==> found_view(#[trigger] elements@[k]) == lookup(
                    self.corpus().seq_index.ac_index@,
                    self.corpus().motifs(),
                    query@[k]@,
                ),
    {
        self.query_elements(&self.db.seq_index.ac_index, query)
    }

    /// What `index` gives for each key, in the order of the keys.
    fn query_elements(&self, index: &KeyIndex, query: &[&str]) -> (elements: Vec<Option<SeqDesc>>)
        ensures
            elements@.len() == query@.len(),
            forall|k: int|
                0 <= k < query@.len() ==> found_view(#[trigger] elements@[k]) == lookup(
                    index@,
                    self.corpus().motifs(),
                    query@[k]@,
                ),
    {
        let all = &self.db.seq_desc.all;
        let mut elements: Vec<Option<SeqDesc>> = Vec::new();
        let mut k: usize = 0;
        while k < query.len()
            invariant
                k <= query@.len(),
                elements@.len() == k,
                all@ == self.corpus().seq_desc.all@,
                forall|e: int|
                    0 <= e < k ==> found_view(#[trigger] elements@[e]) == lookup(
                        index@,
                        motifs_of(all@),
                        query@[e]@,
                    ),
            decreases query@.len() - k,
        {
            let found = match index.get(query[k]) {
                Some(ordinal) => {
                    if ordinal < all.len() {
                        Some(all[ordinal].clone())
                    } else {
                        None
                    }
                },
                None => None,
            };
            elements.push(found);
            k += 1;
        }
        elements
    }

    /// Appends to `out` what the literal motifs (or, with `classes`, the
    /// degenerate motifs) have on the strand `text` of `query`.
    fn scan_strand(
        &self,
        query: &RecordDesc,
        text: &str,
        classes: bool,
        forward: bool,
        out: &mut Vec<SearchedDesc>,
    )
        requires
            text@.len() == query@.seq.len(),
        ensures
            hits_of(final(out)@) == hits_of(old(out)@) + strand_hits(
                query@.id,
                text@,
                if classes {
                    self.corpus().degenerate_motifs()
                } else {
                    self.corpus().exact_motifs()
                },
                classes,
                forward,
            ),
    {
        let motifs: &Vec<SeqDesc> = if classes {
            &self.db.seq_desc.iupac
        } else {
            &self.db.seq_desc.exact
        };
        let by_class = |m: &SeqDesc| -> (places: Vec<usize>)
            ensures
                as_ints(places@) == class_occurrences(text@, m.sq@),
            { self.kmp_search_with_iupac(text, m.sq.as_str()) };
        let by_symbol = |m: &SeqDesc| -> (places: Vec<usize>)
            ensures
                as_ints(places@) == literal_occurrences(text@, m.sq@),
            { Self::kmp_search(text, m.sq.as_str()) };
        let found: Vec<Vec<usize>> = if classes {
            scan_in_parallel(motifs, by_class)
        } else {
            scan_in_parallel(motifs, by_symbol)
        };
        let qid = query.id();
        let qlen: usize = query.len();
        let ghost base = hits_of(out@);
        let ghost all = motifs_of(motifs@);
        let mut k: usize = 0;
        proof {
            assert(base + strand_hits(qid@, text@, all.take(0), classes, forward) =~= base);
        }
        while k < motifs.len()
            invariant
                k <= motifs@.len(),
                all == motifs_of(motifs@),
                found@.len() == motifs@.len(),
                qid@ == query@.id,
                qlen == text@.len(),
                forall|e: int|
                    0 <= e < motifs@.len() ==> as_ints((#[trigger] found@[e])@) == occurrences(
                        text@,
                        motifs@[e].sq@,
                        classes,
                    ),
                hits_of(out@) == base + strand_hits(
                    qid@,
                    text@,
                    all.take(k as int),
                    classes,
                    forward,
                ),
            decreases motifs@.len() - k,
        {
            let m = &motifs[k];
            let places = &found[k];
            let len: usize = m.sq.as_str().unicode_len();
            let ghost so_far = hits_of(out@);
            let ghost spots = occurrences(text@, m.sq@, classes);
            let mut t: usize = 0;
            proof {
                assert(as_ints(places@) == spots);
                assert(so_far + motif_hits(qid@, qlen as int, m@, spots.take(0), forward)
                    =~= so_far);
            }
            while t < places.len()
                invariant
                    t <= places@.len(),
                    as_ints(places@) == spots,
                    spots == occurrences(text@, m.sq@, classes),
                    len == m.sq@.len(),
                    qlen == text@.len(),
                    qid@ == query@.id,
                    hits_of(out@) == so_far + motif_hits(
                        qid@,
                        qlen as int,
                        m@,
                        spots.take(t as int),
                        forward,
                    ),
                decreases places@.len() - t,
            {
                let at: usize = places[t];
                proof {
                    assert(spots[t as int] == at as int);
                    assert(spots.contains(at as int));
                    if classes {
                        lemma_positions_contains(
                            class_hit(text@, m.sq@),
                            text@.len() as int,
                            at as int,
                        );
                        assert(class_at(text@, m.sq@, at as int));
                    } else {
                        lemma_positions_contains(
                            literal_hit(text@, m.sq@),
                            text@.len() as int,
                            at as int,
                        );
                        assert(literal_at(text@, m.sq@, at as int));
                    }
                }
                let one = if forward {
                    SearchedDesc::new(
                        qid,
                        at + 1,
                        at + len,
                        1,
                        m.id.as_str(),
                        len,
                        m.sq.as_str(),
                        m.ac.as_str(),
                        m.de.as_str(),
                    )
                } else {
                    SearchedDesc::new(
                        qid,
                        qlen - (at + len) + 1,
                        qlen - at,
                        0,
                        m.id.as_str(),
                        len,
                        m.sq.as_str(),
                        m.ac.as_str(),
                        m.de.as_str(),
                    )
                };
                proof {
                    assert(one@ == hit_at(qid@, qlen as int, m@, at as int, forward));
                    assert(spots.take(t + 1) =~= spots.take(t as int).push(at as int));
                    assert(motif_hits(qid@, qlen as int, m@, spots.take(t + 1), forward)
                        =~= motif_hits(qid@, qlen as int, m@, spots.take(t as int), forward).push(
                        one@,
                    ));
                    assert(hits_of(out@.push(one)) =~= hits_of(out@).push(one@));
                }
                out.push(one);
                t += 1;
            }
            proof {
                assert(spots.take(places@.len() as int) =~= spots);
                assert(all.take(k + 1).drop_last() =~= all.take(k as int));
                assert(all.take(k + 1).last() == m@);
            }
            k += 1;
        }
        proof {
            assert(all.take(motifs@.len() as int) =~= all);
        }
    }

    /// What the literal motifs have in `query`, forward strand first.
    pub fn search_element_exact(&self, query: &RecordDesc) -> (found: Result<
        Vec<SearchedDesc>,
        SearchError,
    >)
        ensures
            found matches Ok(list) && hits_of(list@) == exact_hits(self.corpus(), query@),
    {
        let mut descs: Vec<SearchedDesc> = Vec::new();
        proof {
            assert(hits_of(descs@) =~= Seq::<Hit>::empty());
        }
        self.scan_strand(query, query.seq(), false, true, &mut descs);
        let reverse = Self::reverse_complement(query.seq());
        self.scan_strand(query, reverse.as_str(), false, false, &mut descs);
        proof {
            assert(hits_of(descs@) =~= exact_hits(self.corpus(), query@));
        }
        Ok(descs)
    }

    /// What the degenerate motifs have in `query`, forward strand first.
    pub fn search_element_iupac(&self, query: &RecordDesc) -> (found: Result<
        Vec<SearchedDesc>,
        SearchError,
    >)
        ensures
            found matches Ok(list) && hits_of(list@) == iupac_hits(self.corpus(), query@),
    {
        let mut descs: Vec<SearchedDesc> = Vec::new();
        proof {
            assert(hits_of(descs@) =~= Seq::<Hit>::empty());
        }
        self.scan_strand(query, query.seq(), true, true, &mut descs);
        let reverse = Self::reverse_complement(query.seq());
        self.scan_strand(query, reverse.as_str(), true, false, &mut descs);
        proof {
            assert(hits_of(descs@) =~= iupac_hits(self.corpus(), query@));
        }
        Ok(descs)
    }

    /// The failure table of `pattern`: for each index, the length of the
    /// longest border of the prefix that ends there.
    pub fn compute_lps(pattern: &Vec<char>) -> (lps: Vec<usize>)
        ensures
            lps@.len() == pattern@.len(),
            is_failure_table(pattern@, lps@, pattern@.len() as int),
    {
        let n: usize = pattern.len();
        let mut lps: Vec<usize> = Vec::new();
        if n == 0 {
            return lps;
        }
        lps.push(0);
        let mut len: usize = 0;
        let mut i: usize = 1;
        while i < n
            invariant
                n == pattern@.len(),
                1 <= i <= n,
                lps@.len() == i,
                len < i,
                is_border(pattern@, i as int, len as int),
                is_failure_table(pattern@, lps@, i as int),
                i < n ==> forall|k: int|
                    len < k && #[trigger] is_border(pattern@, i as int, k) ==> pattern@[k]
                        != pattern@[i as int],
            decreases 2 * (n - i) + len,
        {
            let ghost p = pattern@;
            let ghost before = lps@;
            if pattern[i] == pattern[len] {
                proof {
                    lemma_border_grow(p, i as int, len as int);
                    assert forall|other: int| #[trigger]
                        is_border(p, i + 1, other) implies other <= len + 1 by {
                        if other > 0 {
                            lemma_border_shrink(p, i as int, other);
                        }
                    }
                }
                len += 1;
                lps.push(len);
                i += 1;
                proof {
                    assert(is_longest_border(p, i as int, len as int));
                    assert forall|x: int| 0 <= x < i implies is_longest_border(
                        p,
                        x + 1,
                        #[trigger] lps@[x] as int,
                    ) by {
                        if x < i - 1 {
                            assert(lps@[x] == before[x]);
                        }
                    }
                }
            } else if len != 0 {
                proof {
                    let shorter = lps@[len - 1] as int;
                    assert(is_longest_border(p, (len - 1) + 1, shorter));
                    lemma_border_of_border(p, i as int, len as int, shorter);
                    assert forall|k: int| shorter < k && #[trigger] is_border(
                        p,
                        i as int,
                        k,
                    ) implies p[k] != p[i as int] by {
                        if k < len {
                            lemma_border_within(p, i as int, len as int, k);
                        }
                    }
                }
                len = lps[len - 1];
            } else {
                proof {
                    assert forall|other: int| #[trigger]
                        is_border(p, i + 1, other) implies other <= 0 by {
                        if other > 0 {
                            lemma_border_shrink(p, i as int, other);
                        }
                    }
                }
                lps.push(0);
                i += 1;
                proof {
                    assert(is_longest_border(p, i as int, 0));
                    assert forall|x: int| 0 <= x < i implies is_longest_border(
                        p,
                        x + 1,
                        #[trigger] lps@[x] as int,
                    ) by {
                        if x < i - 1 {
                            assert(lps@[x] == before[x]);
                        }
                    }
                }
            }
        }
        lps
    }

    /// Every 0-based position at which `pattern` stands in `text`, ascending.
    /// Overlapping occurrences are all reported; an empty pattern occurs
    /// nowhere.
    pub fn kmp_search(text: &str, pattern: &str) -> (matches: Vec<usize>)
        ensures
            as_ints(matches@) == literal_occurrences(text@, pattern@),
    {
        let mut matches: Vec<usize> = Vec::new();
        let ghost t = text@;
        let ghost p = pattern@;
        let ghost hit = literal_hit(t, p);
        if pattern.is_empty() {
            proof {
                lemma_positions_skip(hit, 0, t.len() as int);
                assert(as_ints(matches@) =~= Seq::<int>::empty());
            }
            return matches;
        }
        let text_chars = chars_of(text);
        let pattern_chars = chars_of(pattern);
        let n: usize = text_chars.len();
        let m: usize = pattern_chars.len();
        if m > n {
            proof {
                lemma_positions_skip(hit, 0, t.len() as int);
                assert(as_ints(matches@) =~= Seq::<int>::empty());
            }
            return matches;
        }
        let lps = Self::compute_lps(&pattern_chars);
        let mut i: usize = 0;
        let mut j: usize = 0;
        proof {
            assert(as_ints(matches@) =~= Seq::<int>::empty());
        }
        while i < n
            invariant
                t == text_chars@,
                p == pattern_chars@,
                hit == literal_hit(t, p),
                n == t.len(),
                m == p.len(),
                0 < m <= n,
                lps@.len() == m,
                is_failure_table(p, lps@, m as int),
                j <= i <= n,
                j < m,
                prefix_at(t, p, i - j, j as int),
                as_ints(matches@) == positions_below(hit, i - j),
            decreases 2 * (n - i) + j,
        {
            let ghost a: int = i - j;
            if pattern_chars[j] == text_chars[i] {
                i += 1;
                j += 1;
                proof {
                    assert forall|x: int| 0 <= x < j implies t[a + x] == #[trigger] p[x] by {
                        if x < j - 1 {
                            assert(t[a + x] == p[x]);
                        }
                    }
                }
            }
            if j == m {
                proof {
                    assert(literal_at(t, p, a));
                    assert(holds(hit, a));
                    assert(as_ints(matches@.push((i - j) as usize)) =~= as_ints(matches@).push(a));
                }
                matches.push(i - j);
                let ghost full: int = j as int;
                j = lps[j - 1];
                proof {
                    let next: int = i - j;
                    assert(is_longest_border(p, (full - 1) + 1, j as int));
                    Self::lemma_shift(t, p, a, full, j as int, i as int);
                    lemma_positions_skip(hit, a + 1, next);
                }
            } else if i < n && pattern_chars[j] != text_chars[i] {
                if j != 0 {
                    let ghost held: int = j as int;
                    j = lps[j - 1];
                    proof {
                        let next: int = i - j;
                        assert(is_longest_border(p, (held - 1) + 1, j as int));
                        Self::lemma_shift(t, p, a, held, j as int, i as int);
                        assert(!literal_at(t, p, a)) by {
                            if literal_at(t, p, a) {
                                assert(t[a + held] == p[held]);
                            }
                        }
                        lemma_positions_skip(hit, a, next);
                    }
                } else {
                    proof {
                        assert(!literal_at(t, p, a)) by {
                            if literal_at(t, p, a) {
                                assert(t[a + 0] == p[0]);
                            }
                        }
                        lemma_positions_skip(hit, a, a + 1);
                    }
                    i += 1;
                }
            }
        }
        proof {
            lemma_positions_skip(hit, i - j, t.len() as int);
        }
        matches
    }

    /// Where the first `held` symbols of `p` stand in `t` and end at `end`,
    /// and `kept` is the longest border of those symbols: the first `kept`
    /// symbols stand in `t` and end at `end` too, and `p` stands nowhere
    /// strictly between the two alignments.
    proof fn lemma_shift(t: Seq<char>, p: Seq<char>, a: int, held: int, kept: int, end: int)
        requires
            0 <= a,
            end == a + held,
            end <= t.len(),
            0 < held <= p.len(),
            prefix_at(t, p, a, held),
            is_longest_border(p, held, kept),
        ensures
            prefix_at(t, p, end - kept, kept),
            forall|s: int| a < s < end - kept ==> !#[trigger] holds(literal_hit(t, p), s),
    {
        assert forall|x: int| 0 <= x < kept implies t[(end - kept) + x] == #[trigger] p[x] by {
            assert(p[x] == p[held - kept + x]);
            let y = held - kept + x;
            assert(t[a + y] == p[y]);
        }
        assert forall|s: int| a < s < end - kept implies !#[trigger] holds(
            literal_hit(t, p),
            s,
        ) by {
            if literal_at(t, p, s) {
                let k = end - s;
                assert forall|x: int| 0 <= x < k implies #[trigger] p[x] == p[held - k + x] by {
                    assert(t[s + x] == p[x]);
                    let y = held - k + x;
                    assert(t[a + y] == p[y]);
                }
                assert(is_border(p, held, k));
            }
        }
    }
}

} // verus!
