use doge_guard::cita::FrCita;
use doge_guard::divs::{CfrPart, CfrDivInfo, check_title_selector};
use doge_guard::error::FatalError;
use doge_guard::extract::extract_citations;
use doge_guard::markup::{tokenize, MarkupEvent};

fn part(title: &str, part: &str) -> CfrPart {
    CfrPart { title: title.to_string(), part: part.to_string() }
}

fn div(name: &str, ty: &str) -> CfrDivInfo {
    CfrDivInfo { name: name.to_string(), ty: ty.to_string(), word_count: 0 }
}

#[test]
fn tokenizer_events() {
    let evs = tokenize("<A N=\"1\" TYPE=\"Subpart\"> text <B/></A>").unwrap();
    assert_eq!(evs.len(), 3);
    match &evs[0] {
        MarkupEvent::Open(t) => {
            assert_eq!(t.name, "A");
            assert_eq!(t.attr_n.as_deref(), Some("1"));
            assert_eq!(t.attr_type.as_deref(), Some("Subpart"));
        }
        other => panic!("expected an open tag, got {other:?}"),
    }
    match &evs[1] {
        MarkupEvent::Text(s) => assert_eq!(s, "text"),
        other => panic!("expected text, got {other:?}"),
    }
    assert!(matches!(&evs[2], MarkupEvent::Close));
}

#[test]
fn tokenizer_skips_comments_and_declarations() {
    let evs = tokenize("<?xml version=\"1.0\"?><!-- a > b --><A>x</A>").unwrap();
    assert_eq!(evs.len(), 3);
    assert!(matches!(&evs[0], MarkupEvent::Open(t) if t.name == "A"));
}

#[test]
fn tokenizer_whitespace_only_text_is_dropped() {
    let evs = tokenize("<A>   \n\t </A>").unwrap();
    assert_eq!(evs.len(), 2);
}

#[test]
fn tokenizer_rejects_malformed() {
    assert!(matches!(tokenize("<A"), Err(FatalError::MalformedMarkup)));
    assert!(matches!(tokenize("<A x>"), Err(FatalError::MalformedMarkup)));
    assert!(matches!(tokenize("<A x=1>"), Err(FatalError::MalformedMarkup)));
    assert!(matches!(tokenize("<"), Err(FatalError::MalformedMarkup)));
}

#[test]
fn classify_direct_division() {
    let m = extract_citations(
        &part("40", "50"),
        "<DIV8 N=\"1\" TYPE=\"Subpart\"><CITA>60 FR 100</CITA></DIV8>",
    )
    .unwrap();
    assert_eq!(m.len(), 1);
    assert_eq!(m.key_at(0), FrCita { edition: 60, page: 100 });
    let divs = m.divs_at(0);
    assert_eq!(divs.len(), 1);
    assert!(divs.has(&div("1", "Subpart")));
}

#[test]
fn classify_extract_under_division() {
    let m = extract_citations(
        &part("40", "50"),
        "<DIV8 N=\"1\" TYPE=\"Subpart\"><EXTRACT><CITA>60 FR 100</CITA></EXTRACT></DIV8>",
    )
    .unwrap();
    assert_eq!(m.len(), 1);
    let divs = m.divs_at(0);
    assert!(divs.has(&div("1", "Subpart")));
}

#[test]
fn classify_bare_extract_synthesizes_appendix() {
    let m = extract_citations(
        &part("40", "50"),
        "<ROOT><EXTRACT><CITA>60 FR 100</CITA></EXTRACT></ROOT>",
    )
    .unwrap();
    assert_eq!(m.len(), 1);
    let divs = m.divs_at(0);
    assert_eq!(divs.len(), 1);
    assert!(divs.has(&div("40 CFR Part 50 Appendix X", "EXTRACT")));
}

#[test]
fn classify_other_ancestor_is_fatal() {
    let r = extract_citations(&part("40", "50"), "<ROOT><P><CITA>60 FR 100</CITA></P></ROOT>");
    assert_eq!(r.err(), Some(FatalError::UnclassifiableAncestor));
}

#[test]
fn classify_missing_attributes_is_fatal() {
    let r = extract_citations(&part("40", "50"), "<DIV8><CITA>60 FR 100</CITA></DIV8>");
    assert_eq!(r.err(), Some(FatalError::MissingAttribute));
}

#[test]
fn classify_missing_ancestor_is_fatal() {
    let r = extract_citations(&part("40", "50"), "<CITA>60 FR 100</CITA>");
    assert_eq!(r.err(), Some(FatalError::MissingAncestor));
}

#[test]
fn extractor_accumulates_divisions_per_citation() {
    let m = extract_citations(
        &part("40", "50"),
        "<DIV8 N=\"1\" TYPE=\"Subpart\"><CITA>60 FR 100</CITA></DIV8><DIV8 N=\"2\" TYPE=\"Subpart\"><CITA>60 FR 100 and 61 FR 5</CITA></DIV8>",
    )
    .unwrap();
    assert_eq!(m.len(), 2);
    assert_eq!(m.key_at(0), FrCita { edition: 60, page: 100 });
    assert_eq!(m.key_at(1), FrCita { edition: 61, page: 5 });
    let d0 = m.divs_at(0);
    assert_eq!(d0.len(), 2);
    assert!(d0.has(&div("1", "Subpart")));
    assert!(d0.has(&div("2", "Subpart")));
    let d1 = m.divs_at(1);
    assert_eq!(d1.len(), 1);
    assert!(d1.has(&div("2", "Subpart")));
}

#[test]
fn extractor_text_outside_citation_tags_is_ignored() {
    let m = extract_citations(
        &part("40", "50"),
        "<DIV8 N=\"1\" TYPE=\"Subpart\">60 FR 100<P>61 FR 5</P></DIV8>",
    )
    .unwrap();
    assert_eq!(m.len(), 0);
}

#[test]
fn extractor_duplicate_division_collapses() {
    let m = extract_citations(
        &part("40", "50"),
        "<DIV8 N=\"1\" TYPE=\"Subpart\"><CITA>60 FR 100</CITA><CITA>60 FR 100</CITA></DIV8>",
    )
    .unwrap();
    assert_eq!(m.len(), 1);
    assert_eq!(m.divs_at(0).len(), 1);
}

#[test]
fn extractor_overflow_is_fatal() {
    let r = extract_citations(
        &part("40", "50"),
        "<DIV8 N=\"1\" TYPE=\"Subpart\"><CITA>99999999999 FR 1</CITA></DIV8>",
    );
    assert_eq!(r.err(), Some(FatalError::CitationOverflow));
}

#[test]
fn extractor_unbalanced_close_is_fatal() {
    let r = extract_citations(&part("40", "50"), "<A></A></A>");
    assert_eq!(r.err(), Some(FatalError::MalformedMarkup));
}

#[test]
fn citation_text_entities_are_decoded() {
    // a numeric reference bordering a digit run changes the citation
    let m = extract_citations(
        &part("40", "50"),
        "<DIV8 N=\"1\" TYPE=\"Subpart\"><CITA>&#52;0 FR 100</CITA></DIV8>",
    )
    .unwrap();
    assert_eq!(m.len(), 1);
    assert_eq!(m.key_at(0), FrCita { edition: 40, page: 100 });

    // hexadecimal reference, and a predefined entity between citations
    let m2 = extract_citations(
        &part("40", "50"),
        "<DIV8 N=\"1\" TYPE=\"Subpart\"><CITA>&#x34;1 FR 5 &amp; 42 FR 6</CITA></DIV8>",
    )
    .unwrap();
    assert_eq!(m2.len(), 2);
    assert_eq!(m2.key_at(0), FrCita { edition: 41, page: 5 });
    assert_eq!(m2.key_at(1), FrCita { edition: 42, page: 6 });
}

#[test]
fn bad_entity_in_citation_text_is_fatal() {
    let unknown = extract_citations(
        &part("40", "50"),
        "<DIV8 N=\"1\" TYPE=\"Subpart\"><CITA>&unknown; 60 FR 1</CITA></DIV8>",
    );
    assert_eq!(unknown.err(), Some(FatalError::MalformedMarkup));

    let unterminated = extract_citations(
        &part("40", "50"),
        "<DIV8 N=\"1\" TYPE=\"Subpart\"><CITA>A &amp B</CITA></DIV8>",
    );
    assert_eq!(unterminated.err(), Some(FatalError::MalformedMarkup));

    let surrogate = extract_citations(
        &part("40", "50"),
        "<DIV8 N=\"1\" TYPE=\"Subpart\"><CITA>&#xD800;</CITA></DIV8>",
    );
    assert_eq!(surrogate.err(), Some(FatalError::MalformedMarkup));
}

#[test]
fn entities_outside_citation_tags_are_left_alone() {
    // text outside citation tags is never decoded, so a bad reference
    // there does not stop the walk; attribute values stay raw too
    let m = extract_citations(
        &part("40", "50"),
        "<DIV8 N=\"a&amp;b\" TYPE=\"Subpart\"><P>&unknown;</P><CITA>60 FR 1</CITA></DIV8>",
    )
    .unwrap();
    assert_eq!(m.len(), 1);
    assert!(m.divs_at(0).has(&div("a&amp;b", "Subpart")));
}

#[test]
fn reserved_title_is_rejected() {
    assert_eq!(
        check_title_selector(&"35".to_string()).err(),
        Some(FatalError::ReservedTitle)
    );
    assert!(check_title_selector(&"40".to_string()).is_ok());
    assert!(check_title_selector(&"3".to_string()).is_ok());
}
