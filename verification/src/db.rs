//! The IUPAC nucleotide codes: which bases each symbol stands for.

use vstd::prelude::*;

verus! {

/// The bases that an IUPAC symbol stands for; `None` for a character that is
/// no IUPAC symbol.
pub open spec fn iupac_bases(symbol: char) -> Option<Seq<char>> {
    if symbol == 'A' {
        Some(seq!['A'])
    } else if symbol == 'C' {
        Some(seq!['C'])
    } else if symbol == 'G' {
        Some(seq!['G'])
    } else if symbol == 'T' {
        Some(seq!['T'])
    } else if symbol == 'R' {
        Some(seq!['A', 'G'])
    } else if symbol == 'Y' {
        Some(seq!['C', 'T'])
    } else if symbol == 'M' {
        Some(seq!['A', 'C'])
    } else if symbol == 'K' {
        Some(seq!['G', 'T'])
    } else if symbol == 'S' {
        Some(seq!['G', 'C'])
    } else if symbol == 'W' {
        Some(seq!['A', 'T'])
    } else if symbol == 'B' {
        Some(seq!['C', 'G', 'T'])
    } else if symbol == 'D' {
        Some(seq!['A', 'G', 'T'])
    } else if symbol == 'H' {
        Some(seq!['A', 'C', 'T'])
    } else if symbol == 'V' {
        Some(seq!['A', 'C', 'G'])
    } else if symbol == 'N' {
        Some(seq!['A', 'C', 'G', 'T'])
    } else {
        None
    }
}

/// One of the four literal bases.
pub open spec fn is_base(c: char) -> bool {
    c == 'A' || c == 'C' || c == 'G' || c == 'T'
}

/// An IUPAC symbol that stands for more than one base.
pub open spec fn is_wildcard(c: char) -> bool {
    iupac_bases(c) is Some && !is_base(c)
}

/// Whether a motif symbol accepts a query character: a symbol of the table
/// accepts exactly its bases, any other character accepts only itself.
pub open spec fn symbol_admits(symbol: char, c: char) -> bool {
    match iupac_bases(symbol) {
        Some(bases) => bases.contains(c),
        None => c == symbol,
    }
}

/// Whether `table` is the IUPAC table: every entry pairs a symbol with its
/// bases, and every symbol has an entry.
pub open spec fn is_iupac_table(table: Seq<(char, Vec<char>)>) -> bool {
    &&& forall|i: int|
        0 <= i < table.len() ==> iupac_bases((#[trigger] table[i]).0) == Some(table[i].1@)
    &&& forall|c: char|
        iupac_bases(c) is Some ==> exists|i: int|
            0 <= i < table.len() && (#[trigger] table[i]).0 == c
}

/// The symbols of the IUPAC table in the order of its entries.
pub open spec fn iupac_symbols() -> Seq<char> {
    seq!['A', 'C', 'G', 'T', 'R', 'Y', 'M', 'K', 'S', 'W', 'B', 'D', 'H', 'V', 'N']
}

/// Builds the IUPAC table: one entry for each symbol, the four bases first.
pub fn init_iupac_map() -> (table: Vec<(char, Vec<char>)>)
    ensures
        table@.len() == iupac_symbols().len(),
        forall|i: int| 0 <= i < table@.len() ==> (#[trigger] table@[i]).0 == iupac_symbols()[i],
        is_iupac_table(table@),
{
    let mut m: Vec<(char, Vec<char>)> = Vec::new();
    m.push(('A', vec!['A']));
    m.push(('C', vec!['C']));
    m.push(('G', vec!['G']));
    m.push(('T', vec!['T']));
    m.push(('R', vec!['A', 'G']));
    m.push(('Y', vec!['C', 'T']));
    m.push(('M', vec!['A', 'C']));
    m.push(('K', vec!['G', 'T']));
    m.push(('S', vec!['G', 'C']));
    m.push(('W', vec!['A', 'T']));
    m.push(('B', vec!['C', 'G', 'T']));
    m.push(('D', vec!['A', 'G', 'T']));
    m.push(('H', vec!['A', 'C', 'T']));
    m.push(('V', vec!['A', 'C', 'G']));
    m.push(('N', vec!['A', 'C', 'G', 'T']));
    proof {
        let t = m@;
        assert(t[0].0 == 'A' && t[1].0 == 'C' && t[2].0 == 'G' && t[3].0 == 'T');
        assert(t[4].0 == 'R' && t[5].0 == 'Y' && t[6].0 == 'M' && t[7].0 == 'K');
        assert(t[8].0 == 'S' && t[9].0 == 'W' && t[10].0 == 'B' && t[11].0 == 'D');
        assert(t[12].0 == 'H' && t[13].0 == 'V' && t[14].0 == 'N');
        assert forall|i: int| 0 <= i < t.len() implies iupac_bases((#[trigger] t[i]).0) == Some(
            t[i].1@,
        ) by {
            assert(t[i].1@ =~= iupac_bases(t[i].0).unwrap());
        }
    }
    m
}

/// Whether `c` is one of the four literal bases.
pub fn is_base_symbol(c: char) -> (yes: bool)
    ensures
        yes == is_base(c),
{
    c == 'A' || c == 'C' || c == 'G' || c == 'T'
}

/// Whether `c` is a symbol that stands for more than one base.
pub fn is_wildcard_symbol(c: char) -> (yes: bool)
    ensures
        yes == is_wildcard(c),
{
    c == 'R' || c == 'Y' || c == 'M' || c == 'K' || c == 'S' || c == 'W' || c == 'B' || c == 'D'
        || c == 'H' || c == 'V' || c == 'N'
}

} // verus!
