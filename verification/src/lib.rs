//! # Placecare
//!
//! Search of cis-acting regulatory elements: every occurrence of a motif of
//! the PLACE corpus in a nucleotide sequence, on both strands. Motifs may use
//! the IUPAC symbols that stand for more than one base.
//!
//! A [`place_search::Search`] is made once from a corpus
//! ([`place_desc::PlaceDB`]) and then searches queries ([`io::RecordDesc`])
//! and looks motifs up by id or by accession. What a search returns is
//! stated in [`strand`], the order of its occurrences in [`order`], and what
//! holds of every search and lookup in [`laws`].

/// The IUPAC nucleotide code table.
pub mod db;

/// Strings as sequences of characters.
pub mod text;

/// Occurrences of a motif in a text.
pub mod pattern;

/// Borders of a motif's prefixes.
pub mod border;

/// The motif corpus.
pub mod place_desc;

/// Queries and search results.
pub mod io;

/// The order of the occurrences of one query.
pub mod order;

/// What a search of one query finds.
pub mod strand;

/// Ways to search the motif corpus.
pub mod place_search;

/// Results and motifs as text.
pub mod render;

/// What holds of every search and of every lookup.
pub mod laws;
