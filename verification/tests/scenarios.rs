use placecare::io::{RecordDesc, SearchResult, SearchedDesc};
use placecare::place_desc::{PlaceDB, PlaceIndex, SeqBuilder, SeqDesc};
use placecare::place_search::Search;

fn motif(id: &str, ac: &str, sq: &str) -> SeqDesc {
    SeqDesc {
        id: id.to_string(),
        ac: ac.to_string(),
        dt: String::from("2007-01-01"),
        de: format!("description of {}", id),
        kw: vec![String::from("promoter"), String::from("leaf")],
        os: String::from("rice"),
        ra: String::new(),
        rt: String::new(),
        rl: String::new(),
        rd: String::new(),
        rc: String::new(),
        sq: sq.to_string(),
    }
}

fn engine(motifs: Vec<SeqDesc>) -> Search {
    Search::new(PlaceDB::from_motifs(motifs).unwrap())
}

fn seen(result: &SearchResult) -> Vec<(usize, usize, usize, &str)> {
    result
        .search_descs
        .iter()
        .map(|d| (d.q_start, d.q_end, d.q_dir, d.e_id.as_str()))
        .collect()
}

fn search_one(search: &Search, id: &str, seq: &str) -> SearchResult {
    let mut found = search
        .search_elements_single_seq(&RecordDesc::new(id, seq))
        .unwrap();
    assert_eq!(found.len(), 1);
    found.pop().unwrap()
}

#[test]
fn palindromic_strand() {
    let search = engine(vec![motif("TATA", "AC001", "TATA")]);
    let result = search_one(&search, "Q1", "GTATAC");
    assert_eq!(result.id, "Q1");
    assert_eq!(result.count, 2);
    assert_eq!(seen(&result), vec![(2, 5, 1, "TATA"), (2, 5, 0, "TATA")]);
}

#[test]
fn degenerate_match() {
    let search = engine(vec![motif("GRC1", "AC002", "GRC")]);
    let result = search_one(&search, "Q2", "TTGACCTT");
    assert_eq!(result.id, "Q2");
    assert_eq!(result.count, 1);
    assert_eq!(seen(&result), vec![(3, 5, 1, "GRC1")]);
    let only: &SearchedDesc = &result.search_descs[0];
    assert_eq!(only.q_id, "Q2");
    assert_eq!(only.e_len, 3);
    assert_eq!(only.e_sq, "GRC");
    assert_eq!(only.e_ac, "AC002");
    assert_eq!(only.e_desc, "description of GRC1");
}

#[test]
fn lookup_miss() {
    let search = engine(vec![motif("TATA", "AC001", "TATA")]);
    let found = search.query_elements_by_id(&["TATA", "GHOST"]);
    assert_eq!(found.len(), 2);
    let first = found[0].as_ref().unwrap();
    assert_eq!(first.id, "TATA");
    assert_eq!(first.ac, "AC001");
    assert_eq!(first.sq, "TATA");
    assert_eq!(first.de, "description of TATA");
    assert_eq!(first.kw, vec![String::from("promoter"), String::from("leaf")]);
    assert_eq!(first.os, "rice");
    assert_eq!(first.dt, "2007-01-01");
    assert!(found[1].is_none());
}

#[test]
fn lookup_keeps_order_and_repeats() {
    let search = engine(vec![
        motif("TATA", "AC001", "TATA"),
        motif("GRC1", "AC002", "GRC"),
        motif("CAAT", "AC003", "CAAT"),
    ]);
    let found = search.query_elements_by_id(&["CAAT", "nope", "TATA", "CAAT"]);
    let ids: Vec<Option<&str>> = found
        .iter()
        .map(|m| m.as_ref().map(|m| m.ac.as_str()))
        .collect();
    assert_eq!(ids, vec![Some("AC003"), None, Some("AC001"), Some("AC003")]);
    let found = search.query_elements_by_ac(&["AC002", "TATA", "AC001"]);
    let ids: Vec<Option<&str>> = found
        .iter()
        .map(|m| m.as_ref().map(|m| m.id.as_str()))
        .collect();
    assert_eq!(ids, vec![Some("GRC1"), None, Some("TATA")]);
    assert!(search.query_elements_by_id(&[]).is_empty());
}

#[test]
fn lookup_round_trip_for_every_motif() {
    let motifs = vec![
        motif("TATA", "AC001", "TATA"),
        motif("GRC1", "AC002", "GRC"),
        motif("CAAT", "AC003", "CAAT"),
    ];
    let search = engine(motifs);
    for m in &search.db().seq_desc.all {
        let by_id = search.query_elements_by_id(&[m.id.as_str()]);
        assert_eq!(by_id.len(), 1);
        assert_eq!(by_id[0].as_ref().unwrap().ac, m.ac);
        assert_eq!(by_id[0].as_ref().unwrap().sq, m.sq);
        let by_ac = search.query_elements_by_ac(&[m.ac.as_str()]);
        assert_eq!(by_ac.len(), 1);
        assert_eq!(by_ac[0].as_ref().unwrap().id, m.id);
    }
    assert!(search.query_elements_by_id(&["AC001"])[0].is_none());
    assert!(search.query_elements_by_ac(&["TATA"])[0].is_none());
}

#[test]
fn lookup_in_an_index_with_a_dangling_entry_gives_none() {
    let motifs = vec![motif("TATA", "AC001", "TATA")];
    let mut index = PlaceIndex::from_descs(&motifs);
    index.id_index.insert("FAR", 7);
    let search = Search::new(PlaceDB::new(SeqBuilder::from_seq_builder(motifs), index));
    let found = search.query_elements_by_id(&["FAR", "TATA"]);
    assert!(found[0].is_none());
    assert_eq!(found[1].as_ref().unwrap().id, "TATA");
}

#[test]
fn literal_motif_as_query_is_found_forward() {
    let search = engine(vec![
        motif("CAAT", "AC003", "CAAT"),
        motif("GATA", "AC004", "GATA"),
        motif("ACGTG", "AC005", "ACGTG"),
    ]);
    for m in &search.db().seq_desc.exact {
        let result = search_one(&search, "self", &m.sq);
        let want = (1, m.sq.len(), 1, m.id.as_str());
        assert!(seen(&result).contains(&want));
    }
}

#[test]
fn reverse_complement_of_literal_motif_is_found_reverse() {
    let search = engine(vec![
        motif("CAAT", "AC003", "CAAT"),
        motif("GATA", "AC004", "GATA"),
        motif("ACGTG", "AC005", "ACGTG"),
    ]);
    for m in &search.db().seq_desc.exact {
        let query = Search::reverse_complement(&m.sq);
        let result = search_one(&search, "mirror", &query);
        let want = (1, m.sq.len(), 0, m.id.as_str());
        assert!(seen(&result).contains(&want));
    }
}

#[test]
fn degenerate_motif_as_query_is_not_its_own_match() {
    let search = engine(vec![motif("GRC1", "AC002", "GRC")]);
    let result = search_one(&search, "self", "GRC");
    assert_eq!(result.count, 0);
    assert!(result.search_descs.is_empty());
}

#[test]
fn every_substitution_of_a_wildcard_is_matched() {
    let search = engine(vec![motif("WBOX", "AC010", "TNGAY")]);
    for n in ["A", "C", "G", "T"] {
        for y in ["C", "T"] {
            let text = format!("T{}GA{}", n, y);
            let result = search_one(&search, "sub", &text);
            assert!(seen(&result).contains(&(1, 5, 1, "WBOX")));
        }
    }
    let result = search_one(&search, "sub", "TAGAA");
    assert!(!seen(&result).contains(&(1, 5, 1, "WBOX")));
}

#[test]
fn repeated_search_gives_the_same_list() {
    let search = engine(vec![
        motif("TATA", "AC001", "TATA"),
        motif("GRC1", "AC002", "GRC"),
        motif("AT", "AC006", "AT"),
        motif("NN", "AC007", "NN"),
    ]);
    let first = search_one(&search, "Q", "GTATACGACGTATATAT");
    for _ in 0..5 {
        let again = search_one(&search, "Q", "GTATACGACGTATATAT");
        assert_eq!(again.count, first.count);
        assert_eq!(seen(&again), seen(&first));
    }
}

#[test]
fn reverse_strand_positions_are_those_of_the_query_as_given() {
    let search = engine(vec![motif("AAC", "AC020", "AAC")]);
    // the reverse complement of GGTT is AACC: AAC stands at its start, which
    // mirrors to the positions 2 to 4 of the query
    let result = search_one(&search, "Q", "GGTT");
    assert_eq!(seen(&result), vec![(2, 4, 0, "AAC")]);
    let result = search_one(&search, "Q", "AACGGGTT");
    assert_eq!(seen(&result), vec![(1, 3, 1, "AAC"), (6, 8, 0, "AAC")]);
}

#[test]
fn end_minus_start_plus_one_is_the_motif_length() {
    let search = engine(vec![
        motif("TATA", "AC001", "TATA"),
        motif("GRC1", "AC002", "GRC"),
        motif("LONG", "AC030", "ACGTNNACGT"),
    ]);
    let result = search_one(&search, "Q", "TTGACCTATATAACGTGGACGTCCGTATA");
    assert!(result.count > 0);
    for d in &result.search_descs {
        assert_eq!(d.q_end - d.q_start + 1, d.e_len);
        assert_eq!(d.e_len, d.e_sq.len());
        assert!(d.q_dir == 0 || d.q_dir == 1);
        assert!(d.q_start >= 1 && d.q_end <= 29);
    }
}

#[test]
fn overlapping_occurrences_are_all_reported() {
    let search = engine(vec![motif("AA", "AC040", "AA")]);
    let result = search_one(&search, "Q", "AAAA");
    assert_eq!(seen(&result), vec![(1, 2, 1, "AA"), (2, 3, 1, "AA"), (3, 4, 1, "AA")]);
    let result = search_one(&search, "Q", "TTTT");
    assert_eq!(seen(&result), vec![(1, 2, 0, "AA"), (2, 3, 0, "AA"), (3, 4, 0, "AA")]);
}

#[test]
fn equal_starts_stand_in_the_order_of_finding() {
    let search = engine(vec![
        motif("NTAT", "AC050", "NTAT"),
        motif("ATA", "AC051", "ATA"),
        motif("ATAT", "AC052", "ATAT"),
        motif("WTA", "AC053", "WTA"),
    ]);
    let result = search_one(&search, "Q", "ATAT");
    // found: ATA+ ATAT+ | ATA- ATAT- | NTAT+ WTA+ | NTAT- WTA-
    assert_eq!(
        seen(&result),
        vec![
            (1, 3, 1, "ATA"),
            (1, 4, 1, "ATAT"),
            (1, 4, 0, "ATAT"),
            (1, 4, 1, "NTAT"),
            (1, 3, 1, "WTA"),
            (1, 4, 0, "NTAT"),
            (2, 4, 0, "ATA"),
            (2, 4, 0, "WTA"),
        ]
    );
}

#[test]
fn any_string_is_a_query() {
    let search = engine(vec![motif("TATA", "AC001", "TATA"), motif("GRC1", "AC002", "GRC")]);
    assert_eq!(search_one(&search, "empty", "").count, 0);
    assert_eq!(search_one(&search, "short", "TA").count, 0);
    assert_eq!(search_one(&search, "other", "hello, world! 123").count, 0);
    let result = search_one(&search, "wide", "\u{00e9}tata\u{00e9}");
    assert_eq!(seen(&result), vec![(2, 5, 1, "TATA"), (2, 5, 0, "TATA")]);
}

#[test]
fn lower_case_query_is_searched_in_upper_case() {
    let search = engine(vec![motif("TATA", "AC001", "TATA")]);
    let result = search_one(&search, "Q1", "gtatac");
    assert_eq!(seen(&result), vec![(2, 5, 1, "TATA"), (2, 5, 0, "TATA")]);
}

#[test]
fn batch_gives_one_result_for_each_query_in_order() {
    let search = engine(vec![motif("TATA", "AC001", "TATA"), motif("GRC1", "AC002", "GRC")]);
    let queries = vec![
        RecordDesc::new("Q1", "GTATAC"),
        RecordDesc::new("none", "CCCC"),
        RecordDesc::new("Q2", "TTGACCTT"),
    ];
    let found = search.search_elements(&queries).unwrap();
    assert_eq!(found.len(), 3);
    assert_eq!(found[0].id, "Q1");
    assert_eq!(seen(&found[0]), vec![(2, 5, 1, "TATA"), (2, 5, 0, "TATA")]);
    assert_eq!(found[1].id, "none");
    assert_eq!(found[1].count, 0);
    assert_eq!(found[2].id, "Q2");
    assert_eq!(seen(&found[2]), vec![(3, 5, 1, "GRC1")]);
    for (one, query) in found.iter().zip(queries.iter()) {
        let alone = search.search_elements_single_seq(query).unwrap();
        assert_eq!(seen(&alone[0]), seen(one));
    }
    assert!(search.search_elements(&[]).unwrap().is_empty());
}

#[test]
fn the_two_matchers_report_their_own_motifs() {
    let search = engine(vec![motif("TATA", "AC001", "TATA"), motif("GRC1", "AC002", "GRC")]);
    let query = RecordDesc::new("Q", "GACTATAGTC");
    let exact = search.search_element_exact(&query).unwrap();
    let exact: Vec<(usize, usize, usize, &str)> = exact
        .iter()
        .map(|d| (d.q_start, d.q_end, d.q_dir, d.e_id.as_str()))
        .collect();
    assert_eq!(exact, vec![(4, 7, 1, "TATA"), (4, 7, 0, "TATA")]);
    let iupac = search.search_element_iupac(&query).unwrap();
    let iupac: Vec<(usize, usize, usize, &str)> = iupac
        .iter()
        .map(|d| (d.q_start, d.q_end, d.q_dir, d.e_id.as_str()))
        .collect();
    // forward: GAC at 1..3; reverse complement GACTATAGTC has GAC at 1..3,
    // which mirrors to 8..10
    assert_eq!(iupac, vec![(1, 3, 1, "GRC1"), (8, 10, 0, "GRC1")]);
}
