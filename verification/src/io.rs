//! Queries and search results.

use crate::order::{ascending, is_stable_sort_of, lemma_merge_step, starts_at, turned};
use crate::text::{fasta_records, read_fasta, to_uppercase, uppercase};
use vstd::prelude::*;
use vstd::string::StrSliceExecFns;

verus! {

/// A query: an id and the sequence to search in.
#[derive(Debug)]
pub struct RecordDesc {
    id: String,
    seq: String,
    len: usize,
}

/// A query as plain values.
pub struct Query {
    pub id: Seq<char>,
    pub seq: Seq<char>,
}

impl View for RecordDesc {
    type V = Query;

    closed spec fn view(&self) -> Query {
        Query { id: self.id@, seq: self.seq@ }
    }
}

impl RecordDesc {
    #[verifier::type_invariant]
    spec fn length_is_right(&self) -> bool {
        self.len == self.seq@.len()
    }

    /// A query with the given id, whose sequence is `seq` in upper case.
    pub fn new(id: &str, seq: &str) -> (query: Self)
        ensures
            query@ == (Query { id: id@, seq: uppercase(seq@) }),
    {
        let upper = to_uppercase(seq);
        Self::with_sequence(id, upper.as_str())
    }

    /// A query with the given id and the given sequence, taken as it is.
    pub fn with_sequence(id: &str, seq: &str) -> (query: Self)
        ensures
            query@ == (Query { id: id@, seq: seq@ }),
    {
        let len = seq.unicode_len();
        RecordDesc { id: id.to_owned(), seq: seq.to_owned(), len }
    }

    pub fn id(&self) -> (id: &str)
        ensures
            id@ == self@.id,
    {
        self.id.as_str()
    }

    pub fn seq(&self) -> (seq: &str)
        ensures
            seq@ == self@.seq,
    {
        self.seq.as_str()
    }

    /// The number of symbols of the sequence.
    pub fn len(&self) -> (len: usize)
        ensures
            len == self@.seq.len(),
    {
        proof {
            use_type_invariant(self);
        }
        self.len
    }
}

impl RecordDesc {
    /// One query for each record, in order: a record is an id and a
    /// sequence.
    pub fn from_records(records: Vec<(String, String)>) -> (queries: Vec<Self>)
        ensures
            queries@.len() == records@.len(),
            forall|k: int|
                0 <= k < records@.len() ==> (#[trigger] queries@[k])@ == (Query {
                    id: records@[k].0@,
                    seq: uppercase(records@[k].1@),
                }),
    {
        let mut res: Vec<RecordDesc> = Vec::new();
        let mut k: usize = 0;
        while k < records.len()
            invariant
                k <= records@.len(),
                res@.len() == k,
                forall|e: int|
                    0 <= e < k ==> (#[trigger] res@[e])@ == (Query {
                        id: records@[e].0@,
                        seq: uppercase(records@[e].1@),
                    }),
            decreases records@.len() - k,
        {
            res.push(Self::new(records[k].0.as_str(), records[k].1.as_str()));
            k += 1;
        }
        res
    }

    /// One query for each record of a text in FASTA format; `None` where
    /// the text is not in that format.
    pub fn from_string(string: &str) -> (queries: Option<Vec<Self>>)
        ensures
            match queries {
                Some(list) => fasta_records(string@) matches Some(records) && list@.len()
                    == records.len() && forall|k: int|
                    0 <= k < records.len() ==> (#[trigger] list@[k])@ == (Query {
                        id: records[k].0,
                        seq: uppercase(records[k].1),
                    }),
                None => fasta_records(string@) is None,
            },
    {
        match read_fasta(string) {
            Some(records) => {
                let ghost parsed = records.deep_view();
                proof {
                    assert forall|k: int| 0 <= k < records@.len() implies parsed[k].0
                        == records@[k].0@ && parsed[k].1 == records@[k].1@ by {}
                }
                Some(Self::from_records(records))
            },
            None => None,
        }
    }
}

impl Clone for RecordDesc {
    fn clone(&self) -> (copy: Self)
        ensures
            copy@ == self@,
    {
        proof {
            use_type_invariant(self);
        }
        RecordDesc { id: self.id.clone(), seq: self.seq.clone(), len: self.len }
    }
}

/// One occurrence of a motif in a query.
#[derive(Debug)]
pub struct SearchedDesc {
    /// query id
    pub q_id: String,
    /// first position of the occurrence in the query, counted from 1
    pub q_start: usize,
    /// last position of the occurrence in the query, counted from 1
    pub q_end: usize,
    /// strand: 1 for the query as given, 0 for its reverse complement
    pub q_dir: usize,
    /// motif id
    pub e_id: String,
    /// motif length
    pub e_len: usize,
    /// motif sequence
    pub e_sq: String,
    /// motif accession number
    pub e_ac: String,
    /// motif description
    pub e_desc: String,
}

/// An occurrence as plain values.
pub struct Hit {
    pub q_id: Seq<char>,
    pub q_start: int,
    pub q_end: int,
    pub q_dir: int,
    pub e_id: Seq<char>,
    pub e_len: int,
    pub e_sq: Seq<char>,
    pub e_ac: Seq<char>,
    pub e_desc: Seq<char>,
}

impl View for SearchedDesc {
    type V = Hit;

    open spec fn view(&self) -> Hit {
        Hit {
            q_id: self.q_id@,
            q_start: self.q_start as int,
            q_end: self.q_end as int,
            q_dir: self.q_dir as int,
            e_id: self.e_id@,
            e_len: self.e_len as int,
            e_sq: self.e_sq@,
            e_ac: self.e_ac@,
            e_desc: self.e_desc@,
        }
    }
}

impl SearchedDesc {
    pub fn new(
        q_id: &str,
        q_start: usize,
        q_end: usize,
        q_dir: usize,
        e_id: &str,
        e_len: usize,
        e_sq: &str,
        e_ac: &str,
        e_desc: &str,
    ) -> (found: Self)
        ensures
            found@ == (Hit {
                q_id: q_id@,
                q_start: q_start as int,
                q_end: q_end as int,
                q_dir: q_dir as int,
                e_id: e_id@,
                e_len: e_len as int,
                e_sq: e_sq@,
                e_ac: e_ac@,
                e_desc: e_desc@,
            }),
    {
        SearchedDesc {
            q_id: q_id.to_owned(),
            q_start,
            q_end,
            q_dir,
            e_id: e_id.to_owned(),
            e_len,
            e_sq: e_sq.to_owned(),
            e_ac: e_ac.to_owned(),
            e_desc: e_desc.to_owned(),
        }
    }
}

impl Clone for SearchedDesc {
    fn clone(&self) -> (copy: Self)
        ensures
            copy@ == self@,
    {
        SearchedDesc {
            q_id: self.q_id.clone(),
            q_start: self.q_start,
            q_end: self.q_end,
            q_dir: self.q_dir,
            e_id: self.e_id.clone(),
            e_len: self.e_len,
            e_sq: self.e_sq.clone(),
            e_ac: self.e_ac.clone(),
            e_desc: self.e_desc.clone(),
        }
    }
}

/// The occurrences of a list as plain values.
pub open spec fn hits_of(list: Seq<SearchedDesc>) -> Seq<Hit> {
    list.map_values(|d: SearchedDesc| d@)
}

/// Merges two ascending lists into one: where an entry of `left` and one of
/// `right` have the same start, the one of `left` comes first.
fn merge_by_start(left: Vec<SearchedDesc>, right: Vec<SearchedDesc>) -> (merged: Vec<
    SearchedDesc,
>)
    requires
        ascending(hits_of(left@)),
        ascending(hits_of(right@)),
    ensures
        merged@.len() == left@.len() + right@.len(),
        is_stable_sort_of(hits_of(merged@), hits_of(left@) + hits_of(right@)),
{
    let ghost l_all = hits_of(left@);
    let ghost r_all = hits_of(right@);
    let mut left = left;
    let mut right = right;
    // The merge takes the last entries first, and collects them in `back`
    // from the last to the first.
    let mut back: Vec<SearchedDesc> = Vec::new();
    proof {
        assert(l_all.take(l_all.len() as int) =~= l_all);
        assert(r_all.take(r_all.len() as int) =~= r_all);
        assert(turned(hits_of(back@)) =~= Seq::<Hit>::empty());
        assert forall|start: int| #[trigger]
            turned(hits_of(back@)).filter(starts_at(start)) == l_all.skip(
                left@.len() as int,
            ).filter(starts_at(start)) + r_all.skip(right@.len() as int).filter(
                starts_at(start),
            ) by {
            reveal(Seq::filter);
            assert(l_all.skip(l_all.len() as int) =~= Seq::<Hit>::empty());
            assert(r_all.skip(r_all.len() as int) =~= Seq::<Hit>::empty());
            assert(Seq::<Hit>::empty().filter(starts_at(start)) + Seq::<Hit>::empty().filter(
                starts_at(start),
            ) =~= Seq::<Hit>::empty());
        }
    }
    while left.len() > 0 || right.len() > 0
        invariant
            left@.len() <= l_all.len(),
            right@.len() <= r_all.len(),
            hits_of(left@) == l_all.take(left@.len() as int),
            hits_of(right@) == r_all.take(right@.len() as int),
            ascending(l_all),
            ascending(r_all),
            back@.len() == (l_all.len() - left@.len()) + (r_all.len() - right@.len()),
            ascending(turned(hits_of(back@))),
            forall|start: int| #[trigger]
                turned(hits_of(back@)).filter(starts_at(start)) == l_all.skip(
                    left@.len() as int,
                ).filter(starts_at(start)) + r_all.skip(right@.len() as int).filter(
                    starts_at(start),
                ),
            back@.len() > 0 && left@.len() > 0 ==> l_all[left@.len() - 1].q_start
                <= back@[back@.len() - 1]@.q_start,
            back@.len() > 0 && right@.len() > 0 ==> r_all[right@.len() - 1].q_start
                <= back@[back@.len() - 1]@.q_start,
            right@.len() > 0 ==> forall|k: int|
                left@.len() <= k < l_all.len() ==> (#[trigger] l_all[k]).q_start
                    > r_all[right@.len() - 1].q_start,
        decreases left@.len() + right@.len(),
    {
        let from_right: bool = if left.len() == 0 {
            true
        } else if right.len() == 0 {
            false
        } else {
            right[right.len() - 1].q_start >= left[left.len() - 1].q_start
        };
        let ghost tail = turned(hits_of(back@));
        let ghost l = left@.len() as int;
        let ghost r = right@.len() as int;
        let ghost left_before = left@;
        let ghost right_before = right@;
        proof {
            if l > 0 {
                assert(hits_of(left@)[l - 1] == l_all[l - 1]);
            }
            if r > 0 {
                assert(hits_of(right@)[r - 1] == r_all[r - 1]);
            }
            if back@.len() > 0 {
                assert(tail[0] == back@[back@.len() - 1]@);
            }
        }
        let x = if from_right {
            right.pop().unwrap()
        } else {
            left.pop().unwrap()
        };
        proof {
            let left_taken = l_all.skip(l);
            let right_taken = r_all.skip(r);
            if from_right {
                assert(x@ == r_all[r - 1]);
                assert(hits_of(right@) =~= r_all.take(r - 1));
                assert(r_all.skip(r - 1) =~= seq![x@] + right_taken);
                assert forall|k: int| 0 <= k < left_taken.len() implies (
                #[trigger] left_taken[k]).q_start > x@.q_start by {
                    assert(left_taken[k] == l_all[l + k]);
                }
                if r - 1 > 0 {
                    assert(r_all[r - 2].q_start <= r_all[r - 1].q_start);
                }
            } else {
                assert(x@ == l_all[l - 1]);
                assert(hits_of(left@) =~= l_all.take(l - 1));
                assert(l_all.skip(l - 1) =~= seq![x@] + left_taken);
                if l - 1 > 0 {
                    assert(l_all[l - 2].q_start <= l_all[l - 1].q_start);
                }
            }
            lemma_merge_step(tail, left_taken, right_taken, x@, from_right);
            assert(turned(hits_of(back@.push(x))) =~= seq![x@] + tail);
        }
        back.push(x);
    }
    let ghost tail = turned(hits_of(back@));
    proof {
        assert(l_all.skip(0) =~= l_all);
        assert(r_all.skip(0) =~= r_all);
        assert forall|start: int| #[trigger]
            tail.filter(starts_at(start)) == (l_all + r_all).filter(starts_at(start)) by {
            Seq::filter_distributes_over_add(l_all, r_all, starts_at(start));
        }
    }
    let mut merged: Vec<SearchedDesc> = Vec::new();
    proof {
        assert(hits_of(merged@) + turned(hits_of(back@)) =~= tail);
    }
    while back.len() > 0
        invariant
            hits_of(merged@) + turned(hits_of(back@)) == tail,
            merged@.len() + back@.len() == tail.len(),
        decreases back@.len(),
    {
        let ghost done = hits_of(merged@);
        let ghost rest = hits_of(back@);
        let x = back.pop().unwrap();
        proof {
            assert(hits_of(back@) =~= rest.take(rest.len() - 1));
            assert(x@ == rest[rest.len() - 1]);
            assert(done.push(x@) + turned(hits_of(back@)) =~= done + turned(rest));
            assert(hits_of(merged@.push(x)) =~= done.push(x@));
        }
        merged.push(x);
    }
    proof {
        assert(hits_of(merged@) =~= tail);
    }
    merged
}

/// The occurrences of `given`, ascending by start; those with the same start
/// keep the order that they have in `given`.
pub fn sort_by_start(given: Vec<SearchedDesc>) -> (sorted: Vec<SearchedDesc>)
    ensures
        sorted@.len() == given@.len(),
        is_stable_sort_of(hits_of(sorted@), hits_of(given@)),
    decreases given@.len(),
{
    let n: usize = given.len();
    if n <= 1 {
        return given;
    }
    let ghost all = hits_of(given@);
    let mid: usize = n / 2;
    let mut left = given;
    let right = left.split_off(mid);
    let ghost first = hits_of(left@);
    let ghost second = hits_of(right@);
    proof {
        assert(all =~= first + second);
    }
    let left = sort_by_start(left);
    let right = sort_by_start(right);
    let ghost first_sorted = hits_of(left@);
    let ghost second_sorted = hits_of(right@);
    let merged = merge_by_start(left, right);
    proof {
        assert forall|start: int| #[trigger]
            hits_of(merged@).filter(starts_at(start)) == all.filter(starts_at(start)) by {
            let pred = starts_at(start);
            Seq::filter_distributes_over_add(first_sorted, second_sorted, pred);
            Seq::filter_distributes_over_add(first, second, pred);
            assert(hits_of(merged@).filter(pred) == (first_sorted + second_sorted).filter(pred));
            assert(first_sorted.filter(pred) == first.filter(pred));
            assert(second_sorted.filter(pred) == second.filter(pred));
        }
    }
    merged
}

/// The occurrences found in one query.
#[derive(Debug)]
pub struct SearchResult {
    pub id: String,
    pub count: usize,
    pub search_descs: Vec<SearchedDesc>,
}

impl SearchResult {
    pub fn new(id: &str, searched_descs: Vec<SearchedDesc>) -> (result: Self)
        ensures
            result.id@ == id@,
            result.count == searched_descs@.len(),
            result.search_descs == searched_descs,
    {
        SearchResult { id: id.to_owned(), count: searched_descs.len(), search_descs: searched_descs }
    }

    /// Sorts the occurrences by start; those with the same start keep their
    /// order.
    pub fn sort_self(&mut self)
        ensures
            final(self).id == old(self).id,
            final(self).count == old(self).count,
            final(self).search_descs@.len() == old(self).search_descs@.len(),
            is_stable_sort_of(
                hits_of(final(self).search_descs@),
                hits_of(old(self).search_descs@),
            ),
    {
        let mut given: Vec<SearchedDesc> = Vec::new();
        std::mem::swap(&mut self.search_descs, &mut given);
        self.search_descs = sort_by_start(given);
    }
}

/// A list of occurrences, for writing out as a table.
#[derive(Debug)]
pub struct SearchedDescList(pub Vec<SearchedDesc>);

impl From<Vec<SearchedDesc>> for SearchedDescList {
    fn from(v: Vec<SearchedDesc>) -> (list: Self) {
        Self(v)
    }
}

impl vstd::std_specs::convert::FromSpecImpl<Vec<SearchedDesc>> for SearchedDescList {
    open spec fn obeys_from_spec() -> bool {
        true
    }

    open spec fn from_spec(v: Vec<SearchedDesc>) -> Self {
        SearchedDescList(v)
    }
}

} // verus!
