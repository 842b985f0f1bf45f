use b_encontrar_todas_as_nfes_do_cte::{
    combine, extract_info_from_xml, fold_reduce, fold_results, format_report, merge_maps,
    str_lt, usize_to_string, verify_key_code, AggMap, Config, Document, MyError, Pats,
    PerDocResult,
};

const K1: &str = "35210123456789012345570000000112233445566111";
const K2: &str = "35210123456789012345570000000112233445566222";
const J1: &str = "35210123456789012345550000000112233444444444";
const J2: &str = "35210123456789012345550000000112233446666666";

fn doc(path: &str, text: String) -> Document {
    Document {
        path: path.to_string(),
        text,
    }
}

fn doc_a() -> Document {
    doc(
        "./src/tests/teste_cte01.xml",
        format!(
            "<cteProc>\n  <chCTe>{K1}</chCTe>\n  <infNFe>\n    <chave>{J1}</chave>\n  </infNFe>\n</cteProc>"
        ),
    )
}

fn doc_b() -> Document {
    doc(
        "./src/tests/teste_cte02.xml",
        format!("<cteProc><chCTe>{K1}</chCTe><infNFe>{J2}</infNFe></cteProc>"),
    )
}

fn doc_c() -> Document {
    doc(
        "./src/tests/teste_cte03.xml",
        format!("<cteProc><chCTeCompl>{K2}</chCTeCompl><infNFe><chave>{J1}</chave><infUnidTransp>x</infUnidTransp></infNFe></cteProc>"),
    )
}

fn entry_keys(m: &AggMap) -> Vec<String> {
    m.entries.iter().map(|e| e.key.clone()).collect()
}

#[test]
fn read_xml_content() {
    let pats = Pats::new();
    let docs = vec![doc_a(), doc_b(), doc_c()];
    let m = fold_reduce(&docs, &pats).unwrap();

    let e = m.entries.iter().find(|e| e.key == K1).unwrap();
    let nfe_keys: Vec<&str> = e.nfes.iter().map(|n| n.key.as_str()).collect();
    assert_eq!(nfe_keys, vec![J1, J2]);
    for n in &e.nfes {
        let origins: Vec<&str> = n.origins.iter().map(|o| o.as_str()).collect();
        assert_eq!(origins, vec!["infNFe"]);
    }
}

#[test]
fn end_to_end_three_documents() {
    let pats = Pats::new();
    let docs = vec![doc_a(), doc_b(), doc_c()];
    let m = fold_reduce(&docs, &pats).unwrap();

    assert_eq!(entry_keys(&m), vec![K1.to_string(), K2.to_string()]);
    let k2 = &m.entries[1];
    assert_eq!(k2.nfes.len(), 1);
    assert_eq!(k2.nfes[0].key, J1);
    assert_eq!(k2.nfes[0].origins, vec!["infNFe".to_string()]);

    let report = format_report(&m).unwrap();
    assert_eq!(report.lines.len(), 2);
    assert_eq!(
        report.lines[0],
        format!("cte: {K1}, 2 nfes: [{J1}, {J2}]")
    );
    assert_eq!(report.lines[1], format!("cte: {K2}, 1 nfes: [{J1}]"));
    assert_eq!(report.num_ctes, 2);
    assert_eq!(report.num_nfes, 2);
}

#[test]
fn validate_accepts_correct_key() {
    let r = verify_key_code("a.xml", K1, "57");
    assert_eq!(r.unwrap(), K1.to_string());
}

#[test]
fn validate_strips_non_digits() {
    let spaced = "3521.0123 4567-8901_2345 5500 0000 0112 2334 4444 4444";
    let r = verify_key_code("a.xml", spaced, "55");
    assert_eq!(r.unwrap(), J1.to_string());
}

#[test]
fn validate_rejects_43_digits() {
    let short = &K1[..43];
    let r = verify_key_code("a.xml", short, "57");
    match r {
        Err(MyError::InvalidFiscalKey(path, digits, found, expected)) => {
            assert_eq!(path, "a.xml");
            assert_eq!(digits, short);
            assert_eq!(found, "");
            assert_eq!(expected, "57");
        }
        other => panic!("expected a validation error, got {other:?}"),
    }
}

#[test]
fn validate_rejects_wrong_code() {
    let bad = "35210123456789012345120000000112233444444444";
    let r = verify_key_code("a.xml", bad, "55");
    match r {
        Err(MyError::InvalidFiscalKey(path, digits, found, expected)) => {
            assert_eq!(path, "a.xml");
            assert_eq!(digits, bad);
            assert_eq!(found, "12");
            assert_eq!(expected, "55");
        }
        other => panic!("expected a validation error, got {other:?}"),
    }
}

#[test]
fn invalid_cte_key_aborts_document() {
    let pats = Pats::new();
    // A transport marker around an invoice-coded key: code "55" where "57"
    // is expected.
    let docs = vec![doc(
        "bad.xml",
        format!("<chCTe>{J1}</chCTe>"),
    )];
    match fold_reduce(&docs, &pats) {
        Err(MyError::InvalidFiscalKey(path, digits, found, expected)) => {
            assert_eq!(path, "bad.xml");
            assert_eq!(digits, J1);
            assert_eq!(found, "55");
            assert_eq!(expected, "57");
        }
        other => panic!("expected a validation error, got {other:?}"),
    }
}

#[test]
fn mismatched_markers_are_skipped() {
    let pats = Pats::new();
    // Opening and closing invoice markers differ: the match is skipped, no
    // invoice key is recorded, and the document becomes degenerate.
    let text = format!("<chCTe>{K1}</chCTe><infNFe>{J1}</idNFe>");
    let r = extract_info_from_xml("mm.xml", &text, &pats).unwrap();
    assert_eq!(r.ctes, vec![K1.to_string()]);
    assert!(r.nfes.is_empty());

    let m = fold_reduce(&vec![doc("mm.xml", text)], &pats).unwrap();
    assert!(m.entries.is_empty());
    match format_report(&m) {
        Err(MyError::NoComplementaryCtesFound) => {}
        other => panic!("expected an empty-report error, got {other:?}"),
    }
}

#[test]
fn degenerate_documents_contribute_nothing() {
    let pats = Pats::new();
    let only_cte = doc("d1.xml", format!("<chCTe>{K1}</chCTe>"));
    let only_nfe = doc("d2.xml", format!("<infNFe>{J1}</infNFe>"));

    let empty = fold_reduce(&vec![only_cte.clone(), only_nfe.clone()], &pats).unwrap();
    assert!(empty.entries.is_empty());

    let with_noise = fold_reduce(&vec![only_cte, doc_a(), only_nfe], &pats).unwrap();
    let without = fold_reduce(&vec![doc_a()], &pats).unwrap();
    assert_eq!(with_noise, without);
}

#[test]
fn aggregation_is_order_independent() {
    let pats = Pats::new();
    let m1 = fold_reduce(&vec![doc_a(), doc_b(), doc_c()], &pats).unwrap();
    let m2 = fold_reduce(&vec![doc_c(), doc_a(), doc_b()], &pats).unwrap();
    let m3 = fold_reduce(&vec![doc_b(), doc_c(), doc_a()], &pats).unwrap();
    assert_eq!(m1, m2);
    assert_eq!(m1, m3);
}

#[test]
fn aggregation_is_partition_independent() {
    let pats = Pats::new();
    let whole = fold_reduce(&vec![doc_a(), doc_b(), doc_c()], &pats).unwrap();

    let mut left = fold_reduce(&vec![doc_a()], &pats).unwrap();
    let right = fold_reduce(&vec![doc_b(), doc_c()], &pats).unwrap();
    merge_maps(&mut left, &right);
    assert_eq!(left, whole);

    // Three single-document batches, recombined under two different
    // groupings, give the whole aggregate as well.
    let a = fold_reduce(&vec![doc_a()], &pats).unwrap();
    let b = fold_reduce(&vec![doc_b()], &pats).unwrap();
    let c = fold_reduce(&vec![doc_c()], &pats).unwrap();

    let mut left_assoc = a.clone();
    merge_maps(&mut left_assoc, &b);
    merge_maps(&mut left_assoc, &c);
    assert_eq!(left_assoc, whole);

    let mut bc = b;
    merge_maps(&mut bc, &c);
    let mut right_assoc = a;
    merge_maps(&mut right_assoc, &bc);
    assert_eq!(right_assoc, whole);
}

#[test]
fn combine_is_idempotent() {
    let pats = Pats::new();
    let d = doc_a();
    let pd: PerDocResult = extract_info_from_xml(&d.path, &d.text, &pats).unwrap();

    let mut once = fold_reduce(&vec![doc_b()], &pats).unwrap();
    combine(&mut once, &pd);
    let mut twice = once.clone();
    combine(&mut twice, &pd);
    assert_eq!(once, twice);
}

#[test]
fn fold_results_matches_fold_reduce() {
    let pats = Pats::new();
    let docs = vec![doc_a(), doc_b(), doc_c()];
    let results: Vec<PerDocResult> = docs
        .iter()
        .map(|d| extract_info_from_xml(&d.path, &d.text, &pats).unwrap())
        .collect();
    let from_results = fold_results(&results);
    let from_docs = fold_reduce(&docs, &pats).unwrap();
    assert_eq!(from_results, from_docs);
}

#[test]
fn markers_match_case_insensitively() {
    let pats = Pats::new();
    let text = format!("<CHcte>{K1}</chCTE><INFnfe><CHAVE>{J1}</chave></INFnfe>");
    let r = extract_info_from_xml("ci.xml", &text, &pats).unwrap();
    assert_eq!(r.ctes, vec![K1.to_string()]);
    assert_eq!(r.nfes.len(), 1);
    assert_eq!(r.nfes[0].key, J1);
    // The origin is captured verbatim; it is compared case-sensitively
    // against the closing marker text.
    assert_eq!(r.nfes[0].origins, vec!["INFnfe".to_string()]);
}

#[test]
fn whitespace_inside_keys_is_collapsed() {
    let pats = Pats::new();
    let text = format!(
        "<chCTe>\n  3521 0123 4567 8901 2345\n  5700 0000 0112 2334 4556 6111\n</chCTe><infNFe>{J1}</infNFe>"
    );
    let r = extract_info_from_xml("ws.xml", &text, &pats).unwrap();
    assert_eq!(r.ctes, vec![K1.to_string()]);
}

#[test]
fn unicode_whitespace_is_collapsed() {
    let pats = Pats::new();
    // A no-break space and an em space inside the digits, and an ideographic
    // space between the elements, all collapse away before matching.
    let text = format!(
        "<chCTe>35210123456789012345\u{00A0}570000000112\u{2003}233445566111</chCTe>\u{3000}<infNFe>{J1}</infNFe>"
    );
    let r = extract_info_from_xml("uws.xml", &text, &pats).unwrap();
    assert_eq!(r.ctes, vec![K1.to_string()]);
    assert_eq!(r.nfes.len(), 1);
    assert_eq!(r.nfes[0].key, J1);
}

#[test]
fn config_carries_package_identification() {
    let config = Config::new();
    assert_eq!(config.output_filename, "cte_nfes.txt");
    assert_eq!(config.name, "b_encontrar_todas_as_nfes_do_cte");
    assert_eq!(config.version, "0.1.0");
    // The package declares no author, so the author metadata is empty.
    assert_eq!(config.author, "");
    assert_eq!(config.num_files, 0);
}

#[test]
fn no_input_files_is_a_clean_error() {
    let mut config = Config::new();
    let none: Vec<String> = Vec::new();
    match config.get_num_files(&none) {
        Err(MyError::NoXmlFilesFound) => {}
        other => panic!("expected the empty-input error, got {other:?}"),
    }
    assert_eq!(config.num_files, 0);

    let some = vec!["a.xml".to_string(), "b.xml".to_string()];
    assert!(config.get_num_files(&some).is_ok());
    assert_eq!(config.num_files, 2);
}

#[test]
fn duplicate_keys_collapse() {
    let pats = Pats::new();
    let text = format!(
        "<chCTe>{K1}</chCTe><chCTeCompl>{K1}</chCTeCompl><infNFe>{J1}</infNFe><infNFe>{J1}</infNFe>"
    );
    let m = fold_reduce(&vec![doc("dup.xml", text)], &pats).unwrap();
    assert_eq!(entry_keys(&m), vec![K1.to_string()]);
    assert_eq!(m.entries[0].nfes.len(), 1);
    assert_eq!(m.entries[0].nfes[0].key, J1);
    assert_eq!(m.entries[0].nfes[0].origins, vec!["infNFe".to_string()]);
}

#[test]
fn empty_input_aggregates_to_empty() {
    let pats = Pats::new();
    let m = fold_reduce(&Vec::new(), &pats).unwrap();
    assert!(m.entries.is_empty());
}

#[test]
fn transport_keys_are_validated_before_invoice_keys() {
    let pats = Pats::new();
    // Both families carry a wrong code; the transport key's failure is the
    // one reported.
    let bad_cte = "35210123456789012345550000000112233445566111";
    let bad_nfe = "35210123456789012345570000000112233444444444";
    let text = format!("<infNFe>{bad_nfe}</infNFe><chCTe>{bad_cte}</chCTe>");
    match fold_reduce(&vec![doc("order.xml", text)], &pats) {
        Err(MyError::InvalidFiscalKey(_, digits, found, expected)) => {
            assert_eq!(digits, bad_cte);
            assert_eq!(found, "55");
            assert_eq!(expected, "57");
        }
        other => panic!("expected a validation error, got {other:?}"),
    }
}

#[test]
fn numbers_render_in_decimal() {
    assert_eq!(usize_to_string(0), "0");
    assert_eq!(usize_to_string(7), "7");
    assert_eq!(usize_to_string(12), "12");
    assert_eq!(usize_to_string(100), "100");
    assert_eq!(usize_to_string(65535), "65535");
}

#[test]
fn string_order_is_lexicographic() {
    assert!(str_lt("a", "b"));
    assert!(str_lt("a", "ab"));
    assert!(!str_lt("ab", "a"));
    assert!(!str_lt("a", "a"));
    assert!(str_lt(J1, J2));
    assert!(str_lt(K1, K2));
}

#[test]
fn self_reference_is_not_listed() {
    // A transport key that somehow lists itself as an invoice key is
    // filtered out of its own report line.
    let pats = Pats::new();
    let docs = vec![doc_a()];
    let m = fold_reduce(&docs, &pats).unwrap();
    let report = format_report(&m).unwrap();
    assert!(!report.lines[0].contains(&format!("{K1}, 1 nfes: [{K1}]")));
}
