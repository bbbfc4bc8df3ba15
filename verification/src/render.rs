//! Search results and motifs as tab-separated text.

use crate::io::{hits_of, Hit, SearchResult, SearchedDesc, SearchedDescList};
use crate::place_desc::{found_view, Motif, SeqDesc};
use crate::text::push_char;
use vstd::prelude::*;
use vstd::string::StringExecFns;

verus! {

/// The character of a decimal digit.
pub open spec fn digit(d: nat) -> char {
    if d == 0 {
        '0'
    } else if d == 1 {
        '1'
    } else if d == 2 {
        '2'
    } else if d == 3 {
        '3'
    } else if d == 4 {
        '4'
    } else if d == 5 {
        '5'
    } else if d == 6 {
        '6'
    } else if d == 7 {
        '7'
    } else if d == 8 {
        '8'
    } else {
        '9'
    }
}

/// A number in decimal digits, without leading zeros.
pub open spec fn decimal(n: nat) -> Seq<char>
    decreases n,
{
    if n < 10 {
        seq![digit(n)]
    } else {
        decimal(n / 10).push(digit(n % 10))
    }
}

/// The character of the decimal digit `d`.
fn digit_char(d: usize) -> (c: char)
    requires
        d < 10,
    ensures
        c == digit(d as nat),
{
    if d == 0 {
        '0'
    } else if d == 1 {
        '1'
    } else if d == 2 {
        '2'
    } else if d == 3 {
        '3'
    } else if d == 4 {
        '4'
    } else if d == 5 {
        '5'
    } else if d == 6 {
        '6'
    } else if d == 7 {
        '7'
    } else if d == 8 {
        '8'
    } else {
        '9'
    }
}

/// Appends `n` in decimal digits to `text`.
pub fn push_decimal(text: &mut String, n: usize)
    ensures
        final(text)@ == old(text)@ + decimal(n as nat),
{
    // the digits from the last to the first
    let mut digits: Vec<char> = Vec::new();
    digits.push(digit_char(n % 10));
    let mut rest: usize = n / 10;
    while rest > 0
        invariant
            digits@.len() > 0,
            decimal(n as nat) == (if rest > 0 {
                decimal(rest as nat)
            } else {
                Seq::<char>::empty()
            }) + digits@.reverse(),
        decreases rest,
    {
        let ghost before = digits@;
        let ghost head = if rest / 10 > 0 {
            decimal((rest / 10) as nat)
        } else {
            Seq::<char>::empty()
        };
        digits.push(digit_char(rest % 10));
        proof {
            assert(digits@.reverse() =~= seq![digit((rest % 10) as nat)] + before.reverse());
            assert(decimal(rest as nat) =~= head + seq![digit((rest % 10) as nat)]);
            assert(decimal(rest as nat) + before.reverse() =~= head + digits@.reverse());
        }
        rest = rest / 10;
    }
    let ghost start = text@;
    let ghost all = digits@.reverse();
    let mut left: usize = digits.len();
    while left > 0
        invariant
            left <= digits@.len(),
            all == digits@.reverse(),
            text@ == start + all.take(digits@.len() - left),
        decreases left,
    {
        left -= 1;
        push_char(text, digits[left]);
        proof {
            assert(all.take(digits@.len() - left) =~= all.take(digits@.len() - left - 1).push(
                digits@[left as int],
            ));
        }
    }
    proof {
        assert(all.take(digits@.len() as int) =~= all);
    }
}

/// One occurrence as a line: its nine fields, each followed by a tab.
pub open spec fn row_of(h: Hit) -> Seq<char> {
    h.q_id + "\t"@ + decimal(h.q_start as nat) + "\t"@ + decimal(h.q_end as nat) + "\t"@ + decimal(
        h.q_dir as nat,
    ) + "\t"@ + h.e_id + "\t"@ + decimal(h.e_len as nat) + "\t"@ + h.e_sq + "\t"@ + h.e_ac + "\t"@
        + h.e_desc + "\t\n"@
}

/// The lines of a list of occurrences, one after the other.
pub open spec fn rows_of(list: Seq<Hit>) -> Seq<char>
    decreases list.len(),
{
    if list.len() == 0 {
        Seq::empty()
    } else {
        rows_of(list.drop_last()) + row_of(list.last())
    }
}

/// A list of occurrences as a table: the header line, then the lines of the
/// occurrences.
pub open spec fn table_of(list: Seq<Hit>) -> Seq<char> {
    "Query ID\tQuery Start\tQuery End\tQuery Direction\tElement ID\tElement Length\tElement Sequence\tElement Accession\tElement Description\n"@
        + rows_of(list)
}

/// The parts of a list, with `sep` between each two.
pub open spec fn joined(parts: Seq<Seq<char>>, sep: Seq<char>) -> Seq<char>
    decreases parts.len(),
{
    if parts.len() == 0 {
        Seq::empty()
    } else if parts.len() == 1 {
        parts[0]
    } else {
        joined(parts.drop_last(), sep) + sep + parts.last()
    }
}

/// One motif as a table: the header line, then the motif's twelve fields
/// with a tab between each two, the keywords with a comma and a blank between
/// each two.
pub open spec fn card_of(m: Motif) -> Seq<char> {
    "ID\tAccession\tDate\tDescription\tKeywords\tOrganism Source\tReference Authors\tReference Title\tReference Location\tReference Details\tReference Comments\tSequence\n"@
        + m.id + "\t"@ + m.ac + "\t"@ + m.dt + "\t"@ + m.de + "\t"@ + joined(m.kw, ", "@) + "\t"@
        + m.os + "\t"@ + m.ra + "\t"@ + m.rt + "\t"@ + m.rl + "\t"@ + m.rd + "\t"@ + m.rc + "\t"@
        + m.sq + "\n"@
}

impl SearchedDesc {
    /// The occurrence as a line of text.
    pub fn to_string(&self) -> (text: String)
        ensures
            text@ == row_of(self@),
    {
        let mut text = String::new();
        text.append(self.q_id.as_str());
        text.append("\t");
        push_decimal(&mut text, self.q_start);
        text.append("\t");
        push_decimal(&mut text, self.q_end);
        text.append("\t");
        push_decimal(&mut text, self.q_dir);
        text.append("\t");
        text.append(self.e_id.as_str());
        text.append("\t");
        push_decimal(&mut text, self.e_len);
        text.append("\t");
        text.append(self.e_sq.as_str());
        text.append("\t");
        text.append(self.e_ac.as_str());
        text.append("\t");
        text.append(self.e_desc.as_str());
        text.append("\t\n");
        proof {
            assert(text@ =~= row_of(self@));
        }
        text
    }
}

/// A list of occurrences as a table of text, with a header line.
pub fn table_text(list: &Vec<SearchedDesc>) -> (text: String)
    ensures
        text@ == table_of(hits_of(list@)),
{
    let mut rows = String::new();
    let ghost all = hits_of(list@);
    let mut k: usize = 0;
    while k < list.len()
        invariant
            k <= list@.len(),
            all == hits_of(list@),
            rows@ == rows_of(all.take(k as int)),
        decreases list@.len() - k,
    {
        let row = list[k].to_string();
        rows.append(row.as_str());
        proof {
            assert(all.take(k + 1).drop_last() =~= all.take(k as int));
        }
        k += 1;
    }
    proof {
        assert(all.take(list@.len() as int) =~= all);
    }
    let mut text = String::new();
    text.append(
        "Query ID\tQuery Start\tQuery End\tQuery Direction\tElement ID\tElement Length\tElement Sequence\tElement Accession\tElement Description\n",
    );
    text.append(rows.as_str());
    text
}

impl SearchedDescList {
    /// The list as a table of text, with a header line.
    pub fn to_string(&self) -> (text: String)
        ensures
            text@ == table_of(hits_of(self.0@)),
    {
        table_text(&self.0)
    }
}

impl SeqDesc {
    /// The motif as a table of text: a header line and one line of fields.
    pub fn to_string(&self) -> (text: String)
        ensures
            text@ == card_of(self@),
    {
        let mut kw = String::new();
        let ghost words = self.kw.deep_view();
        let mut k: usize = 0;
        while k < self.kw.len()
            invariant
                k <= self.kw@.len(),
                words == self.kw.deep_view(),
                kw@ == joined(words.take(k as int), ", "@),
            decreases self.kw@.len() - k,
        {
            if k > 0 {
                kw.append(", ");
            }
            kw.append(self.kw[k].as_str());
            proof {
                assert(words.take(k + 1).drop_last() =~= words.take(k as int));
                assert(words.take(k + 1).last() == self.kw@[k as int]@);
                if k == 0 {
                    assert(kw@ =~= words.take(1)[0]);
                }
            }
            k += 1;
        }
        proof {
            assert(words.take(self.kw@.len() as int) =~= words);
        }
        let mut text = String::new();
        text.append(
            "ID\tAccession\tDate\tDescription\tKeywords\tOrganism Source\tReference Authors\tReference Title\tReference Location\tReference Details\tReference Comments\tSequence\n",
        );
        text.append(self.id.as_str());
        text.append("\t");
        text.append(self.ac.as_str());
        text.append("\t");
        text.append(self.dt.as_str());
        text.append("\t");
        text.append(self.de.as_str());
        text.append("\t");
        text.append(kw.as_str());
        text.append("\t");
        text.append(self.os.as_str());
        text.append("\t");
        text.append(self.ra.as_str());
        text.append("\t");
        text.append(self.rt.as_str());
        text.append("\t");
        text.append(self.rl.as_str());
        text.append("\t");
        text.append(self.rd.as_str());
        text.append("\t");
        text.append(self.rc.as_str());
        text.append("\t");
        text.append(self.sq.as_str());
        text.append("\n");
        proof {
            assert(text@ =~= card_of(self@));
        }
        text
    }
}

/// The first lines of a report of searches: for each result its id and the
/// number of its occurrences.
pub open spec fn counts_of(results: Seq<SearchResult>) -> Seq<char>
    decreases results.len(),
{
    if results.len() == 0 {
        Seq::empty()
    } else {
        counts_of(results.drop_last()) + "ID: "@ + results.last().id@ + "\t"@ + "Count: "@
            + decimal(results.last().count as nat) + "\t"@ + "\n"@
    }
}

/// The tables of a report of searches: for each result the table of its
/// occurrences and an empty line.
pub open spec fn tables_of(results: Seq<SearchResult>) -> Seq<char>
    decreases results.len(),
{
    if results.len() == 0 {
        Seq::empty()
    } else {
        tables_of(results.drop_last()) + table_of(hits_of(results.last().search_descs@)) + "\n"@
    }
}

/// The report of a list of searches: a line for each result with its id and
/// its count, then the table of each result.
pub fn print_search(res: &Vec<SearchResult>) -> (output: String)
    ensures
        output@ == counts_of(res@) + tables_of(res@),
{
    let mut output = String::new();
    let mut k: usize = 0;
    while k < res.len()
        invariant
            k <= res@.len(),
            output@ == counts_of(res@.take(k as int)),
        decreases res@.len() - k,
    {
        output.append("ID: ");
        output.append(res[k].id.as_str());
        output.append("\t");
        output.append("Count: ");
        push_decimal(&mut output, res[k].count);
        output.append("\t");
        output.append("\n");
        proof {
            assert(res@.take(k + 1).drop_last() =~= res@.take(k as int));
        }
        k += 1;
    }
    proof {
        assert(res@.take(res@.len() as int) =~= res@);
    }
    let mut tables = String::new();
    let mut k: usize = 0;
    while k < res.len()
        invariant
            k <= res@.len(),
            tables@ == tables_of(res@.take(k as int)),
        decreases res@.len() - k,
    {
        let table = table_text(&res[k].search_descs);
        tables.append(table.as_str());
        tables.append("\n");
        proof {
            assert(res@.take(k + 1).drop_last() =~= res@.take(k as int));
        }
        k += 1;
    }
    proof {
        assert(res@.take(res@.len() as int) =~= res@);
    }
    output.append(tables.as_str());
    output
}

/// The report of a list of lookups up to its entry `upto`: for a motif its
/// id, accession and description, for a miss its place in the list.
pub open spec fn lookups_of(found: Seq<Option<Motif>>, upto: int) -> Seq<char>
    decreases upto,
{
    if upto <= 0 {
        Seq::empty()
    } else {
        lookups_of(found, upto - 1) + (match found[upto - 1] {
            Some(m) => "ID: "@ + m.id + "\t"@ + "Accession: "@ + m.ac + "\t"@ + "Description: "@
                + m.de + "\t"@ + "\n"@,
            None => "No result found<No."@ + decimal((upto - 1) as nat) + ">\n"@,
        })
    }
}

/// The report of a list of lookups: a line for each entry.
pub fn print_query(res: &Vec<Option<SeqDesc>>) -> (output: String)
    ensures
        output@ == lookups_of(res@.map_values(|o: Option<SeqDesc>| found_view(o)), res@.len() as int),
{
    let mut output = String::new();
    let ghost found = res@.map_values(|o: Option<SeqDesc>| found_view(o));
    let mut i: usize = 0;
    while i < res.len()
        invariant
            i <= res@.len(),
            found == res@.map_values(|o: Option<SeqDesc>| found_view(o)),
            output@ == lookups_of(found, i as int),
        decreases res@.len() - i,
    {
        match &res[i] {
            Some(x) => {
                output.append("ID: ");
                output.append(x.id.as_str());
                output.append("\t");
                output.append("Accession: ");
                output.append(x.ac.as_str());
                output.append("\t");
                output.append("Description: ");
                output.append(x.de.as_str());
                output.append("\t");
                output.append("\n");
            },
            None => {
                output.append("No result found<No.");
                push_decimal(&mut output, i);
                output.append(">\n");
            },
        }
        proof {
            assert(found[i as int] == found_view(res@[i as int]));
        }
        i += 1;
    }
    output
}

} // verus!
