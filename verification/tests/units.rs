use placecare::db::{init_iupac_map, is_base_symbol, is_wildcard_symbol};
use placecare::io::{sort_by_start, RecordDesc, SearchResult, SearchedDesc, SearchedDescList};
use placecare::place_desc::{
    CorpusIntegrityError, KeyIndex, PlaceDB, PlaceIndex, SeqBuilder, SeqDesc,
};
use placecare::place_search::Search;
use placecare::render;
use placecare::text::chars_of;

fn element(id: &str, ac: &str, sq: &str) -> SeqDesc {
    SeqDesc {
        id: id.to_string(),
        ac: ac.to_string(),
        dt: String::new(),
        de: String::new(),
        kw: vec![],
        os: String::new(),
        ra: String::new(),
        rt: String::new(),
        rl: String::new(),
        rd: String::new(),
        rc: String::new(),
        sq: sq.to_string(),
    }
}

fn hit(start: usize, tag: &str) -> SearchedDesc {
    SearchedDesc::new("Q", start, start + 2, 1, tag, 3, "AAA", "AC", "d")
}

fn empty_engine() -> Search {
    Search::new(PlaceDB::from_motifs(vec![]).unwrap())
}

#[test]
fn failure_table_of_known_patterns() {
    assert_eq!(Search::compute_lps(&chars_of("AAACAAAA")), vec![0, 1, 2, 0, 1, 2, 3, 3]);
    assert_eq!(Search::compute_lps(&chars_of("ABABCABAB")), vec![0, 0, 1, 2, 0, 1, 2, 3, 4]);
    assert_eq!(Search::compute_lps(&chars_of("ACGT")), vec![0, 0, 0, 0]);
    assert_eq!(Search::compute_lps(&chars_of("AAAA")), vec![0, 1, 2, 3]);
    assert_eq!(Search::compute_lps(&chars_of("A")), vec![0]);
    assert_eq!(Search::compute_lps(&chars_of("")), Vec::<usize>::new());
}

#[test]
fn literal_scan_finds_every_place() {
    assert_eq!(Search::kmp_search("GTATAC", "TATA"), vec![1]);
    assert_eq!(Search::kmp_search("AAAAAA", "AAAA"), vec![0, 1, 2]);
    assert_eq!(Search::kmp_search("ABABABAB", "ABAB"), vec![0, 2, 4]);
    assert_eq!(Search::kmp_search("AACAACAAC", "AACAAC"), vec![0, 3]);
    assert_eq!(Search::kmp_search("ACGT", "ACGT"), vec![0]);
    assert_eq!(Search::kmp_search("ACGT", "T"), vec![3]);
    assert_eq!(Search::kmp_search("ACGT", "TT"), Vec::<usize>::new());
}

#[test]
fn literal_scan_of_nothing() {
    assert_eq!(Search::kmp_search("ACGT", ""), Vec::<usize>::new());
    assert_eq!(Search::kmp_search("", ""), Vec::<usize>::new());
    assert_eq!(Search::kmp_search("", "A"), Vec::<usize>::new());
    assert_eq!(Search::kmp_search("AC", "ACG"), Vec::<usize>::new());
}

#[test]
fn literal_scan_is_case_sensitive_and_takes_symbols_literally() {
    assert_eq!(Search::kmp_search("gtatac", "TATA"), Vec::<usize>::new());
    assert_eq!(Search::kmp_search("GACGRC", "GRC"), vec![3]);
}

#[test]
fn class_scan_finds_every_place() {
    let search = empty_engine();
    assert_eq!(search.kmp_search_with_iupac("TTGACCTT", "GRC"), vec![2]);
    assert_eq!(search.kmp_search_with_iupac("GACGGCGTC", "GRC"), vec![0, 3]);
    assert_eq!(search.kmp_search_with_iupac("ACGT", "NN"), vec![0, 1, 2]);
    assert_eq!(search.kmp_search_with_iupac("ACGT", "N"), vec![0, 1, 2, 3]);
    assert_eq!(search.kmp_search_with_iupac("ACGT", "NNNN"), vec![0]);
    assert_eq!(search.kmp_search_with_iupac("ACGT", "NNNNN"), Vec::<usize>::new());
    assert_eq!(search.kmp_search_with_iupac("ACGT", ""), Vec::<usize>::new());
    assert_eq!(search.kmp_search_with_iupac("", "N"), Vec::<usize>::new());
}

#[test]
fn class_scan_takes_a_wildcard_in_the_text_for_no_base() {
    let search = empty_engine();
    assert_eq!(search.kmp_search_with_iupac("GRC", "GRC"), Vec::<usize>::new());
    assert_eq!(search.kmp_search_with_iupac("ANT", "ANT"), Vec::<usize>::new());
    assert_eq!(search.kmp_search_with_iupac("AXT", "AXT"), vec![0]);
}

#[test]
fn each_symbol_accepts_its_bases_only() {
    let search = empty_engine();
    let table = [
        ('A', "A"),
        ('C', "C"),
        ('G', "G"),
        ('T', "T"),
        ('R', "AG"),
        ('Y', "CT"),
        ('M', "AC"),
        ('K', "GT"),
        ('S', "GC"),
        ('W', "AT"),
        ('B', "CGT"),
        ('D', "AGT"),
        ('H', "ACT"),
        ('V', "ACG"),
        ('N', "ACGT"),
    ];
    for (symbol, bases) in table {
        for c in ['A', 'C', 'G', 'T', 'R', 'N', 'X', 'a', symbol] {
            assert_eq!(
                search.is_iupac_match(c, symbol),
                bases.contains(c),
                "symbol {} against {}",
                symbol,
                c
            );
        }
    }
}

#[test]
fn a_character_outside_the_table_accepts_itself_only() {
    let search = empty_engine();
    assert!(search.is_iupac_match('X', 'X'));
    assert!(search.is_iupac_match('-', '-'));
    assert!(!search.is_iupac_match('A', 'X'));
    assert!(!search.is_iupac_match('X', 'A'));
    assert!(!search.is_iupac_match('a', 'A'));
}

#[test]
fn the_table_has_fifteen_symbols() {
    let table = init_iupac_map();
    assert_eq!(table.len(), 15);
    let symbols: String = table.iter().map(|e| e.0).collect();
    assert_eq!(symbols, "ACGTRYMKSWBDHVN");
    let n = table.iter().find(|e| e.0 == 'N').unwrap();
    assert_eq!(n.1, vec!['A', 'C', 'G', 'T']);
    let s = table.iter().find(|e| e.0 == 'S').unwrap();
    assert_eq!(s.1, vec!['G', 'C']);
}

#[test]
fn bases_and_wildcards() {
    for c in "ACGT".chars() {
        assert!(is_base_symbol(c));
        assert!(!is_wildcard_symbol(c));
    }
    for c in "RYMKSWBDHVN".chars() {
        assert!(!is_base_symbol(c));
        assert!(is_wildcard_symbol(c));
    }
    for c in "XZacgtn -".chars() {
        assert!(!is_base_symbol(c));
        assert!(!is_wildcard_symbol(c));
    }
}

#[test]
fn reverse_complement_of_known_sequences() {
    assert_eq!(Search::reverse_complement("GTATAC"), "GTATAC");
    assert_eq!(Search::reverse_complement("AACG"), "CGTT");
    assert_eq!(Search::reverse_complement("GGTT"), "AACC");
    assert_eq!(Search::reverse_complement("A"), "T");
    assert_eq!(Search::reverse_complement(""), "");
}

#[test]
fn reverse_complement_leaves_other_characters() {
    assert_eq!(Search::reverse_complement("ANX"), "XNT");
    assert_eq!(Search::reverse_complement("acgt"), "tgca");
    assert_eq!(Search::reverse_complement("GRC"), "GRC");
    assert_eq!(Search::reverse_complement("A-C\u{00e9}"), "\u{00e9}G-T");
}

#[test]
fn reverse_complement_twice_is_the_sequence() {
    for s in ["", "A", "ACGT", "GGGTTTAACC", "GATTACA", "ANNRYX", "acgt\u{00e9}"] {
        let once = Search::reverse_complement(s);
        assert_eq!(Search::reverse_complement(&once), s);
    }
}

#[test]
fn query_is_stored_in_upper_case() {
    let q = RecordDesc::new("Gh_01", "ttatagACTCgatggccgcgcgg");
    assert_eq!(q.id(), "Gh_01");
    assert_eq!(q.seq(), "TTATAGACTCGATGGCCGCGCGG");
    assert_eq!(q.len(), 23);
    let q = RecordDesc::new("", "");
    assert_eq!(q.id(), "");
    assert_eq!(q.seq(), "");
    assert_eq!(q.len(), 0);
    let copy = RecordDesc::new("k", "acgu").clone();
    assert_eq!(copy.id(), "k");
    assert_eq!(copy.seq(), "ACGU");
    assert_eq!(copy.len(), 4);
}

#[test]
fn query_length_counts_the_symbols_of_the_sequence() {
    let q = RecordDesc::new("wide", "a\u{00e9}t");
    assert_eq!(q.seq(), "A\u{00c9}T");
    assert_eq!(q.len(), 3);
    let q = RecordDesc::new("sharp", "stra\u{00df}e");
    assert_eq!(q.seq(), "STRASSE");
    assert_eq!(q.len(), 7);
}

#[test]
fn queries_from_records() {
    let queries = RecordDesc::from_records(vec![
        (String::from("one"), String::from("acgt")),
        (String::from("two"), String::from("")),
        (String::from("one"), String::from("GGnn")),
    ]);
    let seen: Vec<(&str, &str, usize)> =
        queries.iter().map(|q| (q.id(), q.seq(), q.len())).collect();
    assert_eq!(seen, vec![("one", "ACGT", 4), ("two", "", 0), ("one", "GGNN", 4)]);
    assert!(RecordDesc::from_records(vec![]).is_empty());
}

#[test]
fn queries_from_fasta_text() {
    let queries = RecordDesc::from_string(">Gh_01 first one\nATATCCGGatgg\nCATGCTGATC\n>Gh_02\nacgt\n")
        .unwrap();
    let seen: Vec<(&str, &str, usize)> =
        queries.iter().map(|q| (q.id(), q.seq(), q.len())).collect();
    assert_eq!(
        seen,
        vec![("Gh_01", "ATATCCGGATGGCATGCTGATC", 22), ("Gh_02", "ACGT", 4)]
    );
    assert!(RecordDesc::from_string("").unwrap().is_empty());
}

#[test]
fn text_that_is_no_fasta_gives_no_queries() {
    assert!(RecordDesc::from_string("ACGT\n").is_none());
    assert!(RecordDesc::from_string("no header\n>id\nACGT\n").is_none());
}

#[test]
fn characters_of_a_string() {
    assert_eq!(chars_of("AC\u{00e9}T"), vec!['A', 'C', '\u{00e9}', 'T']);
    assert_eq!(chars_of(""), Vec::<char>::new());
}

#[test]
fn occurrence_keeps_what_it_is_given() {
    let d = SearchedDesc::new("Q1", 2, 5, 1, "TATA", 4, "TATA", "AC001", "a box");
    assert_eq!(d.q_id, "Q1");
    assert_eq!(d.q_start, 2);
    assert_eq!(d.q_end, 5);
    assert_eq!(d.q_dir, 1);
    assert_eq!(d.e_id, "TATA");
    assert_eq!(d.e_len, 4);
    assert_eq!(d.e_sq, "TATA");
    assert_eq!(d.e_ac, "AC001");
    assert_eq!(d.e_desc, "a box");
    let c = d.clone();
    assert_eq!((c.q_id, c.q_start, c.q_end, c.q_dir), (d.q_id, 2, 5, 1));
    assert_eq!((c.e_id, c.e_len, c.e_sq, c.e_ac, c.e_desc), (d.e_id, 4, d.e_sq, d.e_ac, d.e_desc));
}

#[test]
fn result_counts_its_occurrences() {
    let r = SearchResult::new("Q", vec![hit(3, "a"), hit(1, "b")]);
    assert_eq!(r.id, "Q");
    assert_eq!(r.count, 2);
    assert_eq!(r.search_descs.len(), 2);
    assert_eq!(r.search_descs[0].e_id, "a");
    let r = SearchResult::new("none", vec![]);
    assert_eq!(r.count, 0);
}

#[test]
fn sort_is_ascending_and_stable() {
    let mut r = SearchResult::new(
        "Q",
        vec![hit(5, "a"), hit(2, "b"), hit(5, "c"), hit(1, "d"), hit(2, "e"), hit(5, "f"), hit(2, "g")],
    );
    r.sort_self();
    let seen: Vec<(usize, &str)> =
        r.search_descs.iter().map(|d| (d.q_start, d.e_id.as_str())).collect();
    assert_eq!(
        seen,
        vec![(1, "d"), (2, "b"), (2, "e"), (2, "g"), (5, "a"), (5, "c"), (5, "f")]
    );
    assert_eq!(r.count, 7);
    assert_eq!(r.id, "Q");
}

#[test]
fn sort_of_short_and_sorted_lists() {
    assert!(sort_by_start(vec![]).is_empty());
    let one = sort_by_start(vec![hit(4, "x")]);
    assert_eq!(one.len(), 1);
    assert_eq!(one[0].q_start, 4);
    let kept = sort_by_start(vec![hit(1, "a"), hit(1, "b"), hit(2, "c")]);
    let seen: Vec<&str> = kept.iter().map(|d| d.e_id.as_str()).collect();
    assert_eq!(seen, vec!["a", "b", "c"]);
    let turned = sort_by_start(vec![hit(3, "a"), hit(2, "b"), hit(1, "c")]);
    let seen: Vec<&str> = turned.iter().map(|d| d.e_id.as_str()).collect();
    assert_eq!(seen, vec!["c", "b", "a"]);
}

#[test]
fn list_of_occurrences_holds_the_list() {
    let list = SearchedDescList::from(vec![hit(3, "a"), hit(1, "b")]);
    assert_eq!(list.0.len(), 2);
    assert_eq!(list.0[0].e_id, "a");
    assert_eq!(list.0[1].q_start, 1);
}

#[test]
fn key_index_holds_the_last_ordinal_of_a_key() {
    let mut index = KeyIndex::new();
    assert_eq!(index.get("a"), None);
    index.insert("a", 0);
    index.insert("b", 1);
    assert_eq!(index.get("a"), Some(0));
    assert_eq!(index.get("b"), Some(1));
    assert_eq!(index.get("c"), None);
    assert_eq!(index.get(""), None);
    index.insert("a", 2);
    assert_eq!(index.get("a"), Some(2));
    assert_eq!(index.get("b"), Some(1));
}

#[test]
fn motifs_are_classified_in_corpus_order() {
    let lists = SeqBuilder::from_seq_builder(vec![
        element("e1", "a1", "TATA"),
        element("d1", "a2", "GRC"),
        element("e2", "a3", "ACGT"),
        element("x1", "a4", "AXC"),
        element("d2", "a5", "NNX"),
        element("e3", "a6", ""),
    ]);
    let ids = |list: &Vec<SeqDesc>| list.iter().map(|m| m.id.clone()).collect::<Vec<_>>();
    assert_eq!(ids(&lists.all), vec!["e1", "d1", "e2", "x1", "d2", "e3"]);
    assert_eq!(ids(&lists.exact), vec!["e1", "e2", "e3"]);
    assert_eq!(ids(&lists.iupac), vec!["d1", "d2"]);
    assert!(element("e", "a", "ACGT").is_exact());
    assert!(!element("e", "a", "ACGT").is_degenerate());
    assert!(!element("e", "a", "ACNT").is_exact());
    assert!(element("e", "a", "ACNT").is_degenerate());
    assert!(!element("e", "a", "acgt").is_exact());
    assert!(!element("e", "a", "acgt").is_degenerate());
}

#[test]
fn index_of_motifs() {
    let motifs = vec![element("e1", "a1", "TATA"), element("d1", "a2", "GRC")];
    let index = PlaceIndex::from_descs(&motifs);
    assert_eq!(index.id_index.get("e1"), Some(0));
    assert_eq!(index.id_index.get("d1"), Some(1));
    assert_eq!(index.id_index.get("a1"), None);
    assert_eq!(index.ac_index.get("a1"), Some(0));
    assert_eq!(index.ac_index.get("a2"), Some(1));
    assert_eq!(index.ac_index.get("e1"), None);
    let db = PlaceDB::new(SeqBuilder::from_seq_builder(motifs), index);
    assert_eq!(db.seq_desc.all.len(), 2);
    assert_eq!(db.seq_index.id_index.get("d1"), Some(1));
}

#[test]
fn corpus_of_sound_motifs() {
    let db = PlaceDB::from_motifs(vec![
        element("e1", "a1", "TATA"),
        element("d1", "a2", "GRC"),
        element("e2", "a3", "ACGT"),
    ])
    .unwrap();
    assert_eq!(db.seq_desc.all.len(), 3);
    assert_eq!(db.seq_desc.exact.len(), 2);
    assert_eq!(db.seq_desc.iupac.len(), 1);
    assert_eq!(db.seq_desc.iupac[0].id, "d1");
    assert_eq!(db.seq_index.id_index.get("e2"), Some(2));
    assert_eq!(db.seq_index.ac_index.get("a2"), Some(1));
    assert!(PlaceDB::from_motifs(vec![]).is_ok());
}

#[test]
fn corpus_with_a_repeated_id_is_refused() {
    let made = PlaceDB::from_motifs(vec![
        element("e1", "a1", "TATA"),
        element("d1", "a2", "GRC"),
        element("e1", "a3", "ACGT"),
    ]);
    assert_eq!(made.err(), Some(CorpusIntegrityError::DuplicateId));
    let made = PlaceDB::from_motifs(vec![
        element("e1", "a1", "TATA"),
        element("e1", "a1", "AXC"),
    ]);
    assert_eq!(made.err(), Some(CorpusIntegrityError::DuplicateId));
}

#[test]
fn corpus_with_a_repeated_accession_is_refused() {
    let made = PlaceDB::from_motifs(vec![
        element("e1", "a1", "TATA"),
        element("d1", "a1", "GRC"),
    ]);
    assert_eq!(made.err(), Some(CorpusIntegrityError::DuplicateAccession));
    let made = PlaceDB::from_motifs(vec![
        element("e1", "a1", "AXC"),
        element("d1", "a1", "GRC"),
    ]);
    assert_eq!(made.err(), Some(CorpusIntegrityError::DuplicateAccession));
}

#[test]
fn corpus_with_a_malformed_sequence_is_refused() {
    let made = PlaceDB::from_motifs(vec![
        element("e1", "a1", "TATA"),
        element("x1", "a2", "AXC"),
    ]);
    assert_eq!(made.err(), Some(CorpusIntegrityError::MalformedSequence));
    let made = PlaceDB::from_motifs(vec![element("l1", "a1", "tata")]);
    assert_eq!(made.err(), Some(CorpusIntegrityError::MalformedSequence));
}

#[test]
fn copy_of_a_motif_holds_every_field() {
    let mut m = element("e1", "a1", "TATA");
    m.dt = String::from("dt");
    m.de = String::from("de");
    m.kw = vec![String::from("k1"), String::from("k2")];
    m.os = String::from("os");
    m.ra = String::from("ra");
    m.rt = String::from("rt");
    m.rl = String::from("rl");
    m.rd = String::from("rd");
    m.rc = String::from("rc");
    let c = m.clone();
    assert_eq!((c.id, c.ac, c.dt, c.de), (m.id, m.ac, m.dt, m.de));
    assert_eq!(c.kw, m.kw);
    assert_eq!((c.os, c.ra, c.rt, c.rl, c.rd, c.rc, c.sq), (m.os, m.ra, m.rt, m.rl, m.rd, m.rc, m.sq));
}

#[test]
fn engine_hands_out_its_corpus() {
    let search = Search::new(PlaceDB::from_motifs(vec![element("e1", "a1", "TATA")]).unwrap());
    assert_eq!(search.db().seq_desc.all.len(), 1);
    assert_eq!(search.db().seq_desc.all[0].id, "e1");
}

#[test]
fn sort_of_a_long_list_keeps_equal_starts_in_order() {
    let mut given = Vec::new();
    let mut state: usize = 12345;
    for k in 0..2000 {
        state = (state * 1103515245 + 12345) % 2147483648;
        given.push(hit(state % 37, &format!("{}", k)));
    }
    let mut want: Vec<(usize, String)> =
        given.iter().map(|d| (d.q_start, d.e_id.clone())).collect();
    want.sort_by_key(|p| p.0);
    let sorted = sort_by_start(given);
    let seen: Vec<(usize, String)> =
        sorted.iter().map(|d| (d.q_start, d.e_id.clone())).collect();
    assert_eq!(seen, want);
}

#[test]
fn occurrence_as_a_line() {
    let d = SearchedDesc::new("Q1", 2, 5, 1, "TATA", 4, "TATA", "AC001", "a box");
    assert_eq!(d.to_string(), "Q1\t2\t5\t1\tTATA\t4\tTATA\tAC001\ta box\t\n");
    let d = SearchedDesc::new("", 0, 1234567890, 0, "", 10, "", "", "");
    assert_eq!(d.to_string(), "\t0\t1234567890\t0\t\t10\t\t\t\t\n");
}

#[test]
fn numbers_in_decimal_digits() {
    for n in [0, 1, 9, 10, 11, 99, 100, 101, 1000, 4096, 65535, 1000000007, usize::MAX] {
        let mut text = String::from("n=");
        render::push_decimal(&mut text, n);
        assert_eq!(text, format!("n={}", n));
    }
}

#[test]
fn list_of_occurrences_as_a_table() {
    let header = "Query ID\tQuery Start\tQuery End\tQuery Direction\tElement ID\tElement Length\tElement Sequence\tElement Accession\tElement Description\n";
    let list = SearchedDescList::from(vec![hit(3, "a"), hit(12, "b")]);
    assert_eq!(
        list.to_string(),
        format!("{}Q\t3\t5\t1\ta\t3\tAAA\tAC\td\t\nQ\t12\t14\t1\tb\t3\tAAA\tAC\td\t\n", header)
    );
    assert_eq!(SearchedDescList::from(vec![]).to_string(), header);
    assert_eq!(render::table_text(&vec![hit(1, "x")]), format!("{}Q\t1\t3\t1\tx\t3\tAAA\tAC\td\t\n", header));
}

#[test]
fn motif_as_a_table() {
    let header = "ID\tAccession\tDate\tDescription\tKeywords\tOrganism Source\tReference Authors\tReference Title\tReference Location\tReference Details\tReference Comments\tSequence\n";
    let mut m = element("e1", "a1", "TATA");
    m.dt = String::from("dt");
    m.de = String::from("de");
    m.kw = vec![String::from("k1"), String::from("k2"), String::from("k3")];
    m.os = String::from("os");
    m.ra = String::from("ra");
    m.rt = String::from("rt");
    m.rl = String::from("rl");
    m.rd = String::from("rd");
    m.rc = String::from("rc");
    assert_eq!(
        m.to_string(),
        format!("{}e1\ta1\tdt\tde\tk1, k2, k3\tos\tra\trt\trl\trd\trc\tTATA\n", header)
    );
    m.kw = vec![String::from("only")];
    assert_eq!(
        m.to_string(),
        format!("{}e1\ta1\tdt\tde\tonly\tos\tra\trt\trl\trd\trc\tTATA\n", header)
    );
    assert_eq!(
        element("e", "a", "").to_string(),
        format!("{}e\ta\t\t\t\t\t\t\t\t\t\t\n", header)
    );
}

#[test]
fn report_of_searches() {
    let header = "Query ID\tQuery Start\tQuery End\tQuery Direction\tElement ID\tElement Length\tElement Sequence\tElement Accession\tElement Description\n";
    let results = vec![
        SearchResult::new("Q1", vec![hit(3, "a"), hit(12, "b")]),
        SearchResult::new("Q2", vec![]),
    ];
    assert_eq!(
        render::print_search(&results),
        format!(
            "ID: Q1\tCount: 2\t\nID: Q2\tCount: 0\t\n{}Q\t3\t5\t1\ta\t3\tAAA\tAC\td\t\nQ\t12\t14\t1\tb\t3\tAAA\tAC\td\t\n\n{}\n",
            header, header
        )
    );
    assert_eq!(render::print_search(&vec![]), "");
}

#[test]
fn report_of_lookups() {
    let mut m = element("TATA", "AC001", "TATA");
    m.de = String::from("a box");
    let mut found = vec![None, Some(m)];
    for _ in 0..9 {
        found.push(None);
    }
    let mut want = String::from("No result found<No.0>\nID: TATA\tAccession: AC001\tDescription: a box\t\n");
    for i in 2..11 {
        want.push_str(&format!("No result found<No.{}>\n", i));
    }
    assert_eq!(render::print_query(&found), want);
    assert_eq!(render::print_query(&vec![]), "");
}
