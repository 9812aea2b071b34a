use inspirer::classify::validate_ads_key;
use inspirer::classify::validate_inspire_key;
use inspirer::extract::extract_aux_keys;
use inspirer::extract::extract_log_keys;
use inspirer::BibCode;
use inspirer::Inspirer;
use inspirer::InspirerError;
use inspirer::RecId;
use inspirer::RecordFetcher;
use inspirer::Sources;

#[test]
fn test_aux_bibtex_0_citations() {
    let input = r"\relax ".to_string();

    let output: Vec<String> = Vec::new();
    assert_eq!(Inspirer::init().aux2key(input), output);
}

#[test]
fn test_aux_bibtex_1_citation() {
    let input = r"\relax
            \citation{Abramovici:1992ah}"
        .to_string();

    assert_eq!(Inspirer::init().aux2key(input), vec!["Abramovici:1992ah"]);
}

#[test]
fn test_aux_bibtex_2_citation() {
    let input = r"\relax
            \citation{Abramovici:1992ah}
            \citation{Thorne:1992sdb}"
        .to_string();

    assert_eq!(
        Inspirer::init().aux2key(input),
        vec!["Abramovici:1992ah", "Thorne:1992sdb"]
    );
}

#[test]
fn test_aux_bibtex_2_citation_together() {
    let input = r"\relax
            \citation{Abramovici:1992ah,Thorne:1992sdb}"
        .to_string();

    assert_eq!(
        Inspirer::init().aux2key(input),
        vec!["Abramovici:1992ah", "Thorne:1992sdb"]
    );
}

#[test]
fn test_aux_bibtex_3_citation() {
    let input = r"\relax
            \citation{Abramovici:1992ah}
            \citation{Thorne:1992sdb}
            \citation{Bildsten:1992my}"
        .to_string();

    assert_eq!(
        Inspirer::init().aux2key(input),
        vec!["Abramovici:1992ah", "Bildsten:1992my", "Thorne:1992sdb"]
    );
}

#[test]
fn test_aux_bibtex_3_citation_together() {
    let input = r"\relax
            \citation{Abramovici:1992ah,Thorne:1992sdb,Bildsten:1992my}"
        .to_string();

    assert_eq!(
        Inspirer::init().aux2key(input),
        vec!["Abramovici:1992ah", "Bildsten:1992my", "Thorne:1992sdb"]
    );
}

#[test]
fn test_aux_bibtex_3_citation_duplicate() {
    let input = r"\relax
            \citation{Thorne:1992sdb}
            \citation{Abramovici:1992ah}
            \citation{Thorne:1992sdb}"
        .to_string();

    assert_eq!(
        Inspirer::init().aux2key(input),
        vec!["Abramovici:1992ah", "Thorne:1992sdb"]
    );
}

#[test]
fn aux_biber_citation() {
    let input = r"\relax
\abx@aux@cite{Cutler:1992tc}"
        .to_string();

    assert_eq!(Inspirer::init().aux2key(input), vec!["Cutler:1992tc"]);
}

#[test]
fn aux_ads_formatted_key() {
    let input = r"\relax
\citation{1998PhRvD..58h4020O}"
        .to_string();

    assert_eq!(Inspirer::init().aux2key(input), vec!["1998PhRvD..58h4020O"]);
}

#[test]
fn aux_single_marker_free_function() {
    let keys = extract_aux_keys("\\relax\n\\citation{Abramovici:1992ah}");
    assert_eq!(keys, vec!["Abramovici:1992ah"]);
}

#[test]
fn aux_empty_input() {
    let keys = extract_aux_keys("");
    assert!(keys.is_empty());
}

#[test]
fn aux_empty_payload_yields_nothing() {
    assert!(extract_aux_keys(r"\citation{}").is_empty());
}

#[test]
fn aux_unclosed_marker_yields_nothing() {
    assert!(extract_aux_keys(r"\citation{Abramovici:1992ah").is_empty());
    assert!(extract_aux_keys("\\citation{Abramovici:1992ah\n}").is_empty());
}

#[test]
fn aux_comma_split_keeps_whitespace() {
    // Splitting is strict: nothing is trimmed, so the space after the
    // comma stays part of the second key and sorts before the letters.
    let keys = extract_aux_keys(r"\citation{a, b}");
    assert_eq!(keys, vec![" b", "a"]);
}

#[test]
fn aux_stray_commas_yield_no_empty_keys() {
    let keys = extract_aux_keys(r"\citation{,a,,b,}");
    assert_eq!(keys, vec!["a", "b"]);
}

#[test]
fn aux_mixed_dialects_deduplicated() {
    let input = r"\citation{Thorne:1992sdb}
\abx@aux@cite{Thorne:1992sdb}
\citation{Abramovici:1992ah}";
    let keys = extract_aux_keys(input);
    assert_eq!(keys, vec!["Abramovici:1992ah", "Thorne:1992sdb"]);
}

#[test]
fn blg_bibtex_warning_line() {
    let input = r##"
This is BibTeX, Version 0.99d (TeX Live 2016/Arch Linux)
Capacity: max_strings=35307, hash_size=35307, hash_prime=30011
The top-level auxiliary file: test_bibtex.aux
The style file: unsrt.bst
Database file #1: test_bibtex.bib
Warning--I didn't find a database entry for "2015CQGra..32g4001L"
You've used 0 entries,
....
"##
    .to_string();

    assert_eq!(
        Inspirer::init().blg2key(input),
        vec!["2015CQGra..32g4001L"]
    );
}

#[test]
fn blg_biber_warning_line() {
    let input = "[0] Utils.pm:162> WARN - I didn't find a database entry for 'Thorne:1992sdb'\n";
    assert_eq!(extract_log_keys(input), vec!["Thorne:1992sdb"]);
}

#[test]
fn blg_single_quotes_bibtex_dialect() {
    let input = "Warning--I didn't find a database entry for 'Abramovici:1992ah'\n";
    assert_eq!(extract_log_keys(input), vec!["Abramovici:1992ah"]);
}

#[test]
fn blg_double_quotes_biber_dialect() {
    let input = "WARN - I didn't find a database entry for \"1999PhRvL..83.3370R\"\n";
    assert_eq!(extract_log_keys(input), vec!["1999PhRvL..83.3370R"]);
}

#[test]
fn blg_several_lines_sorted_deduplicated() {
    let input = "Warning--I didn't find a database entry for \"Thorne:1992sdb\"\n\
Warning--I didn't find a database entry for \"Abramovici:1992ah\"\n\
WARN - I didn't find a database entry for 'Thorne:1992sdb'\n";
    assert_eq!(
        extract_log_keys(input),
        vec!["Abramovici:1992ah", "Thorne:1992sdb"]
    );
}

#[test]
fn blg_unterminated_quote_yields_nothing() {
    let input = "Warning--I didn't find a database entry for \"Thorne:1992sdb\n";
    assert!(extract_log_keys(input).is_empty());
}

#[test]
fn blg_no_warnings() {
    assert!(extract_log_keys("The style file: unsrt.bst\n").is_empty());
}

#[test]
fn classify_inspire_key() {
    assert_eq!(
        Sources::from("Randall:1999ee"),
        Sources::Inspire(RecId::new("Randall:1999ee").unwrap())
    );
}

#[test]
fn classify_ads_key() {
    assert_eq!(
        Sources::from("1999PhRvL..83.3370R"),
        Sources::Ads(BibCode::new("1999PhRvL..83.3370R").unwrap())
    );
}

#[test]
fn classify_unknown_key() {
    assert_eq!(Sources::from("not-a-real-key"), Sources::Unclassified);
}

#[test]
fn classify_is_total_on_odd_inputs() {
    for key in ["", ":", "a:19xx", "Randall:1999e", "Randall:1999eeee", "1999PhRvL..83.3370r"] {
        assert_eq!(Sources::from(key), Sources::Unclassified);
    }
}

#[test]
fn classify_three_letter_suffix() {
    assert_eq!(
        Sources::from("Thorne:1992sdb"),
        Sources::Inspire(RecId::new("Thorne:1992sdb").unwrap())
    );
}

#[test]
fn validators_accept_and_reject() {
    assert!(validate_inspire_key("Abramovici:1992ah"));
    assert!(!validate_inspire_key("Abramovici1992ah"));
    assert!(!validate_inspire_key(":1992ah"));
    assert!(!validate_inspire_key("Abramovici:192ah"));
    assert!(validate_ads_key("2015CQGra..32g4001L"));
    assert!(validate_ads_key("1998PhRvD..58h4020O"));
    assert!(!validate_ads_key("2015CQGra..32g4001"));
    assert!(!validate_ads_key("x015CQGra..32g4001L"));
}

struct CountingFetcher {
    inspire_calls: usize,
    ads_calls: usize,
    reply: Option<String>,
}

impl RecordFetcher for CountingFetcher {
    fn fetch_inspire(&mut self, _key: &RecId<'_>) -> Option<String> {
        self.inspire_calls += 1;
        self.reply.clone()
    }

    fn fetch_ads(&mut self, _key: &BibCode<'_>) -> Option<String> {
        self.ads_calls += 1;
        self.reply.clone()
    }
}

#[test]
fn resolve_unclassified_key_fetches_nothing() {
    let lib = Inspirer::init();
    let mut fetcher = CountingFetcher { inspire_calls: 0, ads_calls: 0, reply: Some("@article{}".to_string()) };
    let record = lib.bibtex(&mut fetcher, "not-a-real-key");
    assert_eq!(record, None);
    assert_eq!(fetcher.inspire_calls, 0);
    assert_eq!(fetcher.ads_calls, 0);
}

#[test]
fn resolve_inspire_key_uses_inspire_capability() {
    let lib = Inspirer::init();
    let mut fetcher = CountingFetcher { inspire_calls: 0, ads_calls: 0, reply: Some("@article{Randall:1999ee}".to_string()) };
    let record = lib.bibtex(&mut fetcher, "Randall:1999ee");
    assert_eq!(record, Some("@article{Randall:1999ee}".to_string()));
    assert_eq!(fetcher.inspire_calls, 1);
    assert_eq!(fetcher.ads_calls, 0);
}

#[test]
fn resolve_ads_key_uses_ads_capability() {
    let lib = Inspirer::init();
    let mut fetcher = CountingFetcher { inspire_calls: 0, ads_calls: 0, reply: None };
    let record = lib.bibtex(&mut fetcher, "1999PhRvL..83.3370R");
    assert_eq!(record, None);
    assert_eq!(fetcher.inspire_calls, 0);
    assert_eq!(fetcher.ads_calls, 1);
}

#[test]
fn extraction_is_repeatable() {
    let input = r"\citation{Thorne:1992sdb,Abramovici:1992ah}";
    assert_eq!(extract_aux_keys(input), extract_aux_keys(input));
    let log = "Warning--I didn't find a database entry for \"Thorne:1992sdb\"\n";
    assert_eq!(extract_log_keys(log), extract_log_keys(log));
}

#[test]
fn error_message_text() {
    let err = InspirerError::Io(std::io::Error::new(std::io::ErrorKind::NotFound, "gone"));
    assert_eq!(err.message(), "IO Error");
}
