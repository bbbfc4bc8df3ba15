//! Strings as sequences of characters.

use vstd::prelude::*;

verus! {

/// The characters of `s`, in order.
pub fn chars_of(s: &str) -> (v: Vec<char>)
    ensures
        v@ == s@,
{
    let mut v: Vec<char> = Vec::new();
    for c in it: s.chars()
        invariant
            v@ == s@.take(it.index() as int),
            it.seq() == s@,
    {
        v.push(c);
    }
    v
}

/// The upper-case form of a string, as the standard library's Unicode case
/// mapping gives it.
pub uninterp spec fn uppercase(s: Seq<char>) -> Seq<char>;

/// `str::to_uppercase`: the upper-case form of `s` as a new string. The
/// mapping is Unicode's and is taken on trust; the contract only names it.
#[verifier::external_body]
pub(crate) fn to_uppercase(s: &str) -> (upper: String)
    ensures
        upper@ == uppercase(s@),
{
    s.to_uppercase()
}

/// `String::push`: appends the character `c` to `s`.
#[verifier::external_body]
pub(crate) fn push_char(s: &mut String, c: char)
    ensures
        final(s)@ == old(s)@.push(c),
{
    s.push(c)
}

/// What the FASTA reader of the `bio` crate makes of a text: the id and the
/// sequence of each record in order, or `None` where it reports an error.
pub uninterp spec fn fasta_records(text: Seq<char>) -> Option<Seq<(Seq<char>, Seq<char>)>>;

/// `bio::io::fasta::Reader::new(..).records()` on the bytes of `text`: the
/// reader's records from first to last, each as its id and its sequence, or
/// `None` where the reader reports an error. What the reader takes for a
/// record is taken on trust; the contract only names it.
#[verifier::external_body]
pub(crate) fn read_fasta(text: &str) -> (records: Option<Vec<(String, String)>>)
    ensures
        match records {
            Some(list) => fasta_records(text@) == Some(list.deep_view()),
            None => fasta_records(text@) is None,
        },
{
    let mut list = Vec::new();
    for record in bio::io::fasta::Reader::new(text.as_bytes()).records() {
        let record = record.ok()?;
        let seq = std::str::from_utf8(record.seq()).ok()?;
        list.push((record.id().to_owned(), seq.to_owned()));
    }
    Some(list)
}

} // verus!
