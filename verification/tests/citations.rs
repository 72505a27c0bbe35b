use doge_guard::cita::{parse_citation, find_citations, FrCita};
use doge_guard::docs::{FrDocInfo, FrDocNo};
use doge_guard::error::FatalError;
use doge_guard::text::u32_to_dec;

fn doc(docno: &str, citation: Option<&str>, start: u32, end: u32) -> FrDocInfo {
    FrDocInfo {
        abstract_text: None,
        agency_names: Vec::new(),
        agency_abbrvs: Some(Vec::new()),
        body_html_url: None,
        cfr_references: Vec::new(),
        citation: citation.map(|c| c.to_string()),
        document_number: FrDocNo(docno.to_string()),
        end_page: end,
        publication_date: None,
        significant: None,
        start_page: start,
        title: None,
    }
}

#[test]
fn decimal_formatting() {
    assert_eq!(u32_to_dec(0), "0");
    assert_eq!(u32_to_dec(7), "7");
    assert_eq!(u32_to_dec(1234567890), "1234567890");
    assert_eq!(u32_to_dec(u32::MAX), "4294967295");
}

#[test]
fn citation_format() {
    let c = FrCita { edition: 89, page: 100 };
    assert_eq!(c.format(), "89 FR 100");
    let c0 = FrCita { edition: 0, page: 0 };
    assert_eq!(c0.format(), "0 FR 0");
}

#[test]
fn citation_parse() {
    assert_eq!(parse_citation("89 FR 100"), Some(FrCita { edition: 89, page: 100 }));
    assert_eq!(parse_citation("007 FR 05"), Some(FrCita { edition: 7, page: 5 }));
    assert_eq!(parse_citation("4294967295 FR 1"), Some(FrCita { edition: 4294967295, page: 1 }));
}

#[test]
fn citation_parse_rejects() {
    assert_eq!(parse_citation(""), None);
    assert_eq!(parse_citation("89FR100"), None);
    assert_eq!(parse_citation("89 FR "), None);
    assert_eq!(parse_citation("FR 100"), None);
    assert_eq!(parse_citation("89 FR 100 "), None);
    assert_eq!(parse_citation(" 89 FR 100"), None);
    assert_eq!(parse_citation("89  FR 100"), None);
    assert_eq!(parse_citation("89 fr 100"), None);
    // a number beyond 32 bits is refused
    assert_eq!(parse_citation("4294967296 FR 5"), None);
    assert_eq!(parse_citation("5 FR 4294967296"), None);
}

#[test]
fn citation_round_trip() {
    for (e, p) in [(0u32, 0u32), (89, 100), (1, 99999), (4294967295, 4294967295)] {
        let c = FrCita { edition: e, page: p };
        assert_eq!(parse_citation(&c.format()), Some(c));
    }
}

#[test]
fn scanner_finds_citations() {
    let v = find_citations("See 60 FR 12345 and 61 FR 1.").unwrap();
    assert_eq!(
        v,
        vec![FrCita { edition: 60, page: 12345 }, FrCita { edition: 61, page: 1 }]
    );
}

#[test]
fn scanner_nonoverlapping() {
    // after "1 FR 2" the scan resumes past the match, so "2 FR 3" is not seen
    let v = find_citations("1 FR 2 FR 3").unwrap();
    assert_eq!(v, vec![FrCita { edition: 1, page: 2 }]);
}

#[test]
fn scanner_empty_and_none() {
    assert_eq!(find_citations("").unwrap(), vec![]);
    assert_eq!(find_citations("no citations here").unwrap(), vec![]);
}

#[test]
fn scanner_overflow_is_fatal() {
    assert_eq!(
        find_citations("see 99999999999 FR 5"),
        Err(FatalError::CitationOverflow)
    );
}

#[test]
fn containment_in_range() {
    let d = doc("91-1", Some("89 FR 100"), 100, 200);
    assert!(d.check_citation());
    assert!(d.contains(&FrCita { edition: 89, page: 100 }));
    assert!(d.contains(&FrCita { edition: 89, page: 150 }));
    assert!(d.contains(&FrCita { edition: 89, page: 200 }));
    assert!(!d.contains(&FrCita { edition: 89, page: 99 }));
    assert!(!d.contains(&FrCita { edition: 89, page: 201 }));
    // same page range, other edition
    assert!(!d.contains(&FrCita { edition: 90, page: 150 }));
}

#[test]
fn containment_without_citation() {
    // e.g. FR Rule document 94-27103 has no declared citation
    let d = doc("94-27103", None, 100, 200);
    assert!(d.check_citation());
    assert!(!d.contains(&FrCita { edition: 89, page: 150 }));
    assert!(!d.contains(&FrCita { edition: 0, page: 0 }));
}

#[test]
fn citation_inconsistency_is_fatal() {
    let d = doc("91-4", Some("89 FR 100"), 101, 200);
    assert_eq!(d.require_citation().err(), Some(FatalError::CitationMismatch));
    let ok = doc("91-5", Some("89 FR 100"), 100, 200);
    assert!(ok.require_citation().is_ok());
}

#[test]
fn citation_consistency_check() {
    // declared start page disagrees with the recorded one
    let d = doc("91-2", Some("89 FR 100"), 101, 200);
    assert!(!d.check_citation());
    // malformed declared citation
    let d2 = doc("91-3", Some("not a citation"), 100, 200);
    assert!(!d2.check_citation());
}
