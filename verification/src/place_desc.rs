//! The motif corpus: its records, their classification and their indices.

use crate::db::{is_base, is_base_symbol, is_wildcard, is_wildcard_symbol};
use crate::text::chars_of;
use vstd::prelude::*;

verus! {

/// One motif of the corpus.
#[derive(Debug)]
pub struct SeqDesc {
    pub id: String,
    /// accession number
    pub ac: String,
    /// date
    pub dt: String,
    /// description
    pub de: String,
    /// keywords
    pub kw: Vec<String>,
    /// organism source
    pub os: String,
    /// reference authors
    pub ra: String,
    /// reference title
    pub rt: String,
    /// reference location
    pub rl: String,
    /// reference details
    pub rd: String,
    /// reference comments
    pub rc: String,
    /// sequence
    pub sq: String,
}

/// A motif as plain values.
pub struct Motif {
    pub id: Seq<char>,
    pub ac: Seq<char>,
    pub dt: Seq<char>,
    pub de: Seq<char>,
    pub kw: Seq<Seq<char>>,
    pub os: Seq<char>,
    pub ra: Seq<char>,
    pub rt: Seq<char>,
    pub rl: Seq<char>,
    pub rd: Seq<char>,
    pub rc: Seq<char>,
    pub sq: Seq<char>,
}

impl View for SeqDesc {
    type V = Motif;

    open spec fn view(&self) -> Motif {
        Motif {
            id: self.id@,
            ac: self.ac@,
            dt: self.dt@,
            de: self.de@,
            kw: self.kw.deep_view(),
            os: self.os@,
            ra: self.ra@,
            rt: self.rt@,
            rl: self.rl@,
            rd: self.rd@,
            rc: self.rc@,
            sq: self.sq@,
        }
    }
}

impl Clone for SeqDesc {
    fn clone(&self) -> (copy: Self)
        ensures
            copy@ == self@,
    {
        let kw = self.kw.clone();
        proof {
            assert(kw.deep_view() =~= self.kw.deep_view());
        }
        SeqDesc {
            id: self.id.clone(),
            ac: self.ac.clone(),
            dt: self.dt.clone(),
            de: self.de.clone(),
            kw,
            os: self.os.clone(),
            ra: self.ra.clone(),
            rt: self.rt.clone(),
            rl: self.rl.clone(),
            rd: self.rd.clone(),
            rc: self.rc.clone(),
            sq: self.sq.clone(),
        }
    }
}

/// The motifs of a list as plain values.
pub open spec fn motifs_of(list: Seq<SeqDesc>) -> Seq<Motif> {
    list.map_values(|m: SeqDesc| m@)
}

/// The map that a list of entries stands for: each entry maps its key to its
/// ordinal, a later entry replacing an earlier one with the same key.
pub open spec fn entries_map(entries: Seq<(String, usize)>) -> Map<Seq<char>, usize>
    decreases entries.len(),
{
    if entries.len() == 0 {
        Map::empty()
    } else {
        entries_map(entries.drop_last()).insert(entries.last().0@, entries.last().1)
    }
}

/// A map from keys to ordinals of the corpus.
#[derive(Debug)]
pub struct KeyIndex {
    pub entries: Vec<(String, usize)>,
}

impl View for KeyIndex {
    type V = Map<Seq<char>, usize>;

    open spec fn view(&self) -> Map<Seq<char>, usize> {
        entries_map(self.entries@)
    }
}

/// The last entry with a given key decides what the map holds for it.
pub proof fn lemma_entries_map_last(entries: Seq<(String, usize)>, k: int, key: Seq<char>)
    requires
        0 <= k < entries.len(),
        entries[k].0@ == key,
        forall|j: int| k < j < entries.len() ==> (#[trigger] entries[j]).0@ != key,
    ensures
        entries_map(entries).contains_key(key),
        entries_map(entries)[key] == entries[k].1,
    decreases entries.len(),
{
    if k < entries.len() - 1 {
        let rest = entries.drop_last();
        assert(entries[entries.len() - 1].0@ != key);
        assert forall|j: int| k < j < rest.len() implies (#[trigger] rest[j]).0@ != key by {
            assert(rest[j] == entries[j]);
        }
        lemma_entries_map_last(rest, k, key);
    }
}

/// The map holds nothing for a key that no entry has.
pub proof fn lemma_entries_map_absent(entries: Seq<(String, usize)>, key: Seq<char>)
    requires
        forall|j: int| 0 <= j < entries.len() ==> (#[trigger] entries[j]).0@ != key,
    ensures
        !entries_map(entries).contains_key(key),
    decreases entries.len(),
{
    if entries.len() > 0 {
        let rest = entries.drop_last();
        assert(entries[entries.len() - 1].0@ != key);
        assert forall|j: int| 0 <= j < rest.len() implies (#[trigger] rest[j]).0@ != key by {
            assert(rest[j] == entries[j]);
        }
        lemma_entries_map_absent(rest, key);
    }
}

impl KeyIndex {
    /// The empty index.
    pub fn new() -> (index: Self)
        ensures
            index@ == Map::<Seq<char>, usize>::empty(),
    {
        KeyIndex { entries: Vec::new() }
    }

    /// Maps `key` to `ordinal`, replacing what the index held for `key`.
    pub fn insert(&mut self, key: &str, ordinal: usize)
        ensures
            final(self)@ == old(self)@.insert(key@, ordinal),
    {
        let ghost before = self.entries@;
        self.entries.push((key.to_owned(), ordinal));
        proof {
            assert(self.entries@.drop_last() =~= before);
        }
    }

    /// The ordinal that the index holds for `key`, if any.
    pub fn get(&self, key: &str) -> (found: Option<usize>)
        ensures
            found == (if self@.contains_key(key@) {
                Some(self@[key@])
            } else {
                None
            }),
    {
        let wanted: String = key.to_owned();
        let mut k: usize = self.entries.len();
        while k > 0
            invariant
                k <= self.entries@.len(),
                wanted@ == key@,
                forall|j: int|
                    k <= j < self.entries@.len() ==> (#[trigger] self.entries@[j]).0@ != key@,
            decreases k,
        {
            k -= 1;
            if self.entries[k].0 == wanted {
                proof {
                    lemma_entries_map_last(self.entries@, k as int, key@);
                }
                return Some(self.entries[k].1);
            }
        }
        proof {
            lemma_entries_map_absent(self.entries@, key@);
        }
        None
    }
}

/// A motif sequence made of the four literal bases only.
pub open spec fn is_literal_motif(sq: Seq<char>) -> bool {
    forall|i: int| 0 <= i < sq.len() ==> is_base(#[trigger] sq[i])
}

/// A motif sequence with at least one wildcard symbol.
pub open spec fn has_wildcard(sq: Seq<char>) -> bool {
    exists|i: int| 0 <= i < sq.len() && is_wildcard(#[trigger] sq[i])
}

/// `is_literal_motif` of a motif's sequence, as a predicate on motifs.
pub open spec fn literal_only() -> spec_fn(Motif) -> bool {
    |m: Motif| is_literal_motif(m.sq)
}

/// `has_wildcard` of a motif's sequence, as a predicate on motifs.
pub open spec fn degenerate() -> spec_fn(Motif) -> bool {
    |m: Motif| has_wildcard(m.sq)
}

impl SeqDesc {
    /// Whether the motif's sequence holds literal bases only.
    pub fn is_exact(&self) -> (yes: bool)
        ensures
            yes == is_literal_motif(self.sq@),
    {
        let sq = chars_of(self.sq.as_str());
        let mut i: usize = 0;
        while i < sq.len()
            invariant
                i <= sq@.len(),
                sq@ == self.sq@,
                forall|j: int| 0 <= j < i ==> is_base(#[trigger] sq@[j]),
            decreases sq@.len() - i,
        {
            if !is_base_symbol(sq[i]) {
                return false;
            }
            i += 1;
        }
        true
    }

    /// Whether the motif's sequence holds a wildcard symbol.
    pub fn is_degenerate(&self) -> (yes: bool)
        ensures
            yes == has_wildcard(self.sq@),
    {
        let sq = chars_of(self.sq.as_str());
        let mut i: usize = 0;
        while i < sq.len()
            invariant
                i <= sq@.len(),
                sq@ == self.sq@,
                forall|j: int| 0 <= j < i ==> !is_wildcard(#[trigger] sq@[j]),
            decreases sq@.len() - i,
        {
            if is_wildcard_symbol(sq[i]) {
                return true;
            }
            i += 1;
        }
        false
    }
}

/// The corpus in three lists: the literal motifs, the degenerate motifs, and
/// all of them by ordinal.
#[derive(Debug)]
pub struct SeqBuilder {
    pub exact: Vec<SeqDesc>,
    pub iupac: Vec<SeqDesc>,
    pub all: Vec<SeqDesc>,
}

impl SeqBuilder {
    /// Classifies the motifs of `seq`: `exact` gets those of literal bases
    /// only, `iupac` those with a wildcard symbol, each in corpus order.
    pub fn from_seq_builder(seq: Vec<SeqDesc>) -> (lists: SeqBuilder)
        ensures
            lists.all == seq,
            motifs_of(lists.exact@) == motifs_of(seq@).filter(literal_only()),
            motifs_of(lists.iupac@) == motifs_of(seq@).filter(degenerate()),
    {
        let mut exact: Vec<SeqDesc> = Vec::new();
        let mut iupac: Vec<SeqDesc> = Vec::new();
        let ghost all = motifs_of(seq@);
        let mut i: usize = 0;
        proof {
            reveal(Seq::filter);
            assert(all.take(0).filter(literal_only()) =~= Seq::<Motif>::empty());
            assert(all.take(0).filter(degenerate()) =~= Seq::<Motif>::empty());
            assert(motifs_of(exact@) =~= Seq::<Motif>::empty());
            assert(motifs_of(iupac@) =~= Seq::<Motif>::empty());
        }
        while i < seq.len()
            invariant
                i <= seq@.len(),
                all == motifs_of(seq@),
                motifs_of(exact@) == all.take(i as int).filter(literal_only()),
                motifs_of(iupac@) == all.take(i as int).filter(degenerate()),
            decreases seq@.len() - i,
        {
            proof {
                assert(all.take(i + 1) =~= all.take(i as int).push(all[i as int]));
                all.take(i as int).lemma_filter_push(all[i as int], literal_only());
                all.take(i as int).lemma_filter_push(all[i as int], degenerate());
            }
            if seq[i].is_exact() {
                let ghost before = exact@;
                exact.push(seq[i].clone());
                proof {
                    assert(motifs_of(exact@) =~= motifs_of(before).push(all[i as int]));
                }
            }
            if seq[i].is_degenerate() {
                let ghost before = iupac@;
                iupac.push(seq[i].clone());
                proof {
                    assert(motifs_of(iupac@) =~= motifs_of(before).push(all[i as int]));
                }
            }
            i += 1;
        }
        proof {
            assert(all.take(seq@.len() as int) =~= all);
        }
        SeqBuilder { exact, iupac, all: seq }
    }
}

/// A motif's id, as a function on motifs.
pub open spec fn id_of() -> spec_fn(Motif) -> Seq<char> {
    |m: Motif| m.id
}

/// A motif's accession, as a function on motifs.
pub open spec fn ac_of() -> spec_fn(Motif) -> Seq<char> {
    |m: Motif| m.ac
}

/// `index` is an index of `all` by `key_of`: every entry resolves into `all`,
/// to a motif with the entry's key, and every motif's key has an entry, which
/// gives the ordinal of the last motif with that key.
pub open spec fn is_index_of(
    index: Map<Seq<char>, usize>,
    all: Seq<Motif>,
    key_of: spec_fn(Motif) -> Seq<char>,
) -> bool {
    &&& forall|key: Seq<char>| #[trigger]
        index.contains_key(key) ==> index[key] < all.len() && key_of(all[index[key] as int])
            == key
    &&& forall|i: int|
        0 <= i < all.len() ==> index.contains_key(key_of(#[trigger] all[i])) && index[key_of(
            all[i],
        )] >= i
}

/// No two motifs of `all` share a key.
pub open spec fn keys_distinct(all: Seq<Motif>, key_of: spec_fn(Motif) -> Seq<char>) -> bool {
    forall|i: int, j: int|
        0 <= i < j < all.len() ==> key_of(#[trigger] all[i]) != key_of(#[trigger] all[j])
}

/// The indices of the corpus, by id and by accession.
#[derive(Debug)]
pub struct PlaceIndex {
    pub id_index: KeyIndex,
    pub ac_index: KeyIndex,
}

impl PlaceIndex {
    /// Indexes `descs` by id and by accession.
    pub fn from_descs(descs: &[SeqDesc]) -> (index: PlaceIndex)
        ensures
            is_index_of(index.id_index@, motifs_of(descs@), id_of()),
            is_index_of(index.ac_index@, motifs_of(descs@), ac_of()),
    {
        let mut id_index = KeyIndex::new();
        let mut ac_index = KeyIndex::new();
        let ghost all = motifs_of(descs@);
        let mut p: usize = 0;
        while p < descs.len()
            invariant
                p <= descs@.len(),
                all == motifs_of(descs@),
                is_index_of(id_index@, all.take(p as int), id_of()),
                is_index_of(ac_index@, all.take(p as int), ac_of()),
            decreases descs@.len() - p,
        {
            let ghost ids = id_index@;
            let ghost acs = ac_index@;
            id_index.insert(descs[p].id.as_str(), p);
            ac_index.insert(descs[p].ac.as_str(), p);
            proof {
                lemma_index_grows(ids, all, id_of(), p as int);
                lemma_index_grows(acs, all, ac_of(), p as int);
            }
            p += 1;
        }
        proof {
            assert(all.take(descs@.len() as int) =~= all);
        }
        PlaceIndex { id_index, ac_index }
    }
}

/// An index of the first `p` motifs, with the next motif's key mapped to
/// `p`, is an index of the first `p + 1`.
pub proof fn lemma_index_grows(
    index: Map<Seq<char>, usize>,
    all: Seq<Motif>,
    key_of: spec_fn(Motif) -> Seq<char>,
    p: int,
)
    requires
        0 <= p < all.len(),
        p <= usize::MAX,
        is_index_of(index, all.take(p), key_of),
    ensures
        is_index_of(index.insert(key_of(all[p]), p as usize), all.take(p + 1), key_of),
{
    let grown = index.insert(key_of(all[p]), p as usize);
    let before = all.take(p);
    let after = all.take(p + 1);
    assert forall|key: Seq<char>| #[trigger] grown.contains_key(key) implies grown[key]
        < after.len() && key_of(after[grown[key] as int]) == key by {
        if key != key_of(all[p]) {
            assert(index.contains_key(key));
            assert(before[index[key] as int] == after[index[key] as int]);
        }
    }
    assert forall|i: int| 0 <= i < after.len() implies grown.contains_key(
        key_of(#[trigger] after[i]),
    ) && grown[key_of(after[i])] >= i by {
        if i < p {
            assert(before[i] == after[i]);
        }
    }
}

/// The corpus: the motifs and their indices.
#[derive(Debug)]
pub struct PlaceDB {
    pub seq_desc: SeqBuilder,
    pub seq_index: PlaceIndex,
}

impl PlaceDB {
    pub fn new(desc: SeqBuilder, index: PlaceIndex) -> (db: PlaceDB)
        ensures
            db.seq_desc == desc,
            db.seq_index == index,
    {
        PlaceDB { seq_desc: desc, seq_index: index }
    }

    /// All motifs by ordinal, as plain values.
    pub open spec fn motifs(&self) -> Seq<Motif> {
        motifs_of(self.seq_desc.all@)
    }

    /// The literal motifs, as plain values.
    pub open spec fn exact_motifs(&self) -> Seq<Motif> {
        motifs_of(self.seq_desc.exact@)
    }

    /// The degenerate motifs, as plain values.
    pub open spec fn degenerate_motifs(&self) -> Seq<Motif> {
        motifs_of(self.seq_desc.iupac@)
    }

    /// The corpus is sound: ids and accessions are unique, both indices are
    /// indices of the motifs, every motif is literal or degenerate, and the
    /// two partial lists hold the motifs of their kind in corpus order.
    pub open spec fn wf(&self) -> bool {
        &&& keys_distinct(self.motifs(), id_of())
        &&& keys_distinct(self.motifs(), ac_of())
        &&& is_index_of(self.seq_index.id_index@, self.motifs(), id_of())
        &&& is_index_of(self.seq_index.ac_index@, self.motifs(), ac_of())
        &&& self.exact_motifs() == self.motifs().filter(literal_only())
        &&& self.degenerate_motifs() == self.motifs().filter(degenerate())
        &&& all_classified(self.motifs())
    }
}

/// What an index gives for `key`: the motif at the ordinal that it holds for
/// the key, or nothing where it holds none (or one past the end of `all`).
pub open spec fn lookup(index: Map<Seq<char>, usize>, all: Seq<Motif>, key: Seq<char>) -> Option<
    Motif,
> {
    if index.contains_key(key) && index[key] < all.len() {
        Some(all[index[key] as int])
    } else {
        None
    }
}

/// A motif that was or was not found, as plain values.
pub open spec fn found_view(found: Option<SeqDesc>) -> Option<Motif> {
    match found {
        Some(m) => Some(m@),
        None => None,
    }
}

/// Every motif of `all` is literal or degenerate.
pub open spec fn all_classified(all: Seq<Motif>) -> bool {
    forall|i: int|
        0 <= i < all.len() ==> is_literal_motif((#[trigger] all[i]).sq) || has_wildcard(all[i].sq)
}

/// Why a list of motifs is no corpus.
#[derive(Debug, PartialEq, Eq)]
pub enum CorpusIntegrityError {
    /// Two motifs have the same id.
    DuplicateId,
    /// Two motifs have the same accession.
    DuplicateAccession,
    /// A motif's sequence has a character that is no base, and no wildcard
    /// symbol.
    MalformedSequence,
}

/// Whether no two motifs share the key that `index` was made by: the id
/// where `by_id` is set, the accession where it is not.
fn keys_are_distinct(index: &KeyIndex, all: &Vec<SeqDesc>, by_id: bool) -> (yes: bool)
    requires
        is_index_of(
            index@,
            motifs_of(all@),
            if by_id {
                id_of()
            } else {
                ac_of()
            },
        ),
    ensures
        yes == keys_distinct(
            motifs_of(all@),
            if by_id {
                id_of()
            } else {
                ac_of()
            },
        ),
{
    let ghost key_of = if by_id {
        id_of()
    } else {
        ac_of()
    };
    let ghost motifs = motifs_of(all@);
    let mut i: usize = 0;
    while i < all.len()
        invariant
            i <= all@.len(),
            motifs == motifs_of(all@),
            key_of == (if by_id {
                id_of()
            } else {
                ac_of()
            }),
            is_index_of(index@, motifs, key_of),
            forall|e: int| 0 <= e < i ==> index@[key_of(#[trigger] motifs[e])] == e,
        decreases all@.len() - i,
    {
        let key = if by_id {
            all[i].id.as_str()
        } else {
            all[i].ac.as_str()
        };
        assert(key@ == key_of(motifs[i as int]));
        let held = index.get(key);
        let same = match held {
            Some(ordinal) => ordinal == i,
            None => false,
        };
        if !same {
            proof {
                let j = index@[key@] as int;
                assert(key_of(motifs[j]) == key_of(motifs[i as int]));
                assert(j > i);
            }
            return false;
        }
        i += 1;
    }
    proof {
        assert forall|a: int, b: int| 0 <= a < b < motifs.len() implies key_of(
            #[trigger] motifs[a],
        ) != key_of(#[trigger] motifs[b]) by {
            assert(index@[key_of(motifs[a])] == a);
            assert(index@[key_of(motifs[b])] == b);
        }
    }
    true
}

impl PlaceDB {
    /// The corpus of the motifs `seq`, classified and indexed. A list in
    /// which two motifs share an id or an accession, or in which a motif is
    /// neither literal nor degenerate, is refused.
    pub fn from_motifs(seq: Vec<SeqDesc>) -> (made: Result<PlaceDB, CorpusIntegrityError>)
        ensures
            match made {
                Ok(db) => db.wf() && db.seq_desc.all == seq,
                Err(CorpusIntegrityError::DuplicateId) => !keys_distinct(motifs_of(seq@), id_of()),
                Err(CorpusIntegrityError::DuplicateAccession) => keys_distinct(
                    motifs_of(seq@),
                    id_of(),
                ) && !keys_distinct(motifs_of(seq@), ac_of()),
                Err(CorpusIntegrityError::MalformedSequence) => keys_distinct(
                    motifs_of(seq@),
                    id_of(),
                ) && keys_distinct(motifs_of(seq@), ac_of()) && !all_classified(motifs_of(seq@)),
            },
    {
        let index = PlaceIndex::from_descs(seq.as_slice());
        if !keys_are_distinct(&index.id_index, &seq, true) {
            return Err(CorpusIntegrityError::DuplicateId);
        }
        if !keys_are_distinct(&index.ac_index, &seq, false) {
            return Err(CorpusIntegrityError::DuplicateAccession);
        }
        let ghost motifs = motifs_of(seq@);
        let mut i: usize = 0;
        while i < seq.len()
            invariant
                i <= seq@.len(),
                motifs == motifs_of(seq@),
                keys_distinct(motifs, id_of()),
                keys_distinct(motifs, ac_of()),
                forall|e: int|
                    0 <= e < i ==> is_literal_motif((#[trigger] motifs[e]).sq) || has_wildcard(
                        motifs[e].sq,
                    ),
            decreases seq@.len() - i,
        {
            if !seq[i].is_exact() && !seq[i].is_degenerate() {
                proof {
                    assert(!is_literal_motif(motifs[i as int].sq));
                }
                return Err(CorpusIntegrityError::MalformedSequence);
            }
            i += 1;
        }
        let lists = SeqBuilder::from_seq_builder(seq);
        Ok(PlaceDB::new(lists, index))
    }
}

} // verus!
