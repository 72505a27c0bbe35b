use doge_guard::cache::{accept_fetched, cache_route, CacheRoute};
use doge_guard::cita::FrCita;
use doge_guard::divs::{CfrPart, CfrDivInfo, CitationMap};
use doge_guard::docs::{FrAllAgencyInfo, FrDocInfo, FrDocNo};
use doge_guard::error::FatalError;
use doge_guard::fetch::{classify_response, record_outcome, FetchOutcome};
use doge_guard::matcher::{match_part, DocDb, DocNoSet};
use doge_guard::report::{build_cov_rows, build_doc_rows, Pipeline};
use doge_guard::search::{
    enrich_agencies, merge_pages, strip_nondigits, AgencyTable, FrDocSearch,
};

fn doc(docno: &str, citation: Option<&str>, start: u32, end: u32) -> FrDocInfo {
    FrDocInfo {
        abstract_text: None,
        agency_names: Vec::new(),
        agency_abbrvs: Some(Vec::new()),
        body_html_url: None,
        cfr_references: Vec::new(),
        citation: citation.map(|c| c.to_string()),
        document_number: FrDocNo(docno.to_string()),
        end_page: end,
        publication_date: None,
        significant: None,
        start_page: start,
        title: None,
    }
}

fn page(count: u32, len: usize) -> FrDocSearch {
    let mut results = Vec::with_capacity(len);
    for i in 0..len {
        results.push(doc(&format!("doc-{i}"), None, 1, 1));
    }
    FrDocSearch {
        count,
        description: String::new(),
        total_pages: None,
        next_page_url: None,
        results: Some(results),
    }
}

#[test]
fn pagination_accumulation() {
    // four pages of 1000, 1000, 1000 and 437 results make 3437
    let first = page(3437, 1000);
    let rest = vec![page(3437, 1000), page(3437, 1000), page(3437, 437)];
    let merged = merge_pages(first, rest);
    assert_eq!(merged.result_len(), 3437);
    assert!(merged.check_count());
    assert!(merged.require_count().is_ok());
}

#[test]
fn merged_results_keep_page_order() {
    let mut first = page(4, 0);
    first.results = Some(vec![doc("a", None, 1, 1), doc("b", None, 1, 1)]);
    let mut p2 = page(0, 0);
    p2.results = Some(vec![doc("c", None, 1, 1)]);
    let mut p3 = page(0, 0);
    p3.results = Some(vec![doc("d", None, 1, 1)]);
    let merged = merge_pages(first, vec![p2, p3]);
    let names: Vec<String> = merged
        .results
        .unwrap()
        .iter()
        .map(|d| d.document_number.text().to_string())
        .collect();
    assert_eq!(names, vec!["a", "b", "c", "d"]);
}

#[test]
fn document_accumulates_divisions_across_parts() {
    // one document attributed from two parts unions both division sets
    let c1 = FrCita { edition: 60, page: 10 };
    let mut citas1 = CitationMap::new();
    citas1.add_div(c1, division("1", "Subpart"));
    let mut citas2 = CitationMap::new();
    citas2.add_div(c1, division("2", "Appendix"));

    let search = |count: u32| FrDocSearch {
        count,
        description: String::new(),
        total_pages: None,
        next_page_url: None,
        results: Some(vec![doc("D1", Some("60 FR 5"), 5, 20)]),
    };
    let mut pipeline = Pipeline::new();
    pipeline.process_part(
        CfrPart { title: "40".to_string(), part: "50".to_string() },
        &citas1,
        &search(1),
    );
    pipeline.process_part(
        CfrPart { title: "40".to_string(), part: "51".to_string() },
        &citas2,
        &search(1),
    );
    assert_eq!(pipeline.db.len(), 1);
    let entry = pipeline.db.entry_at(0);
    assert!(entry.1.has(&division("1", "Subpart")));
    assert!(entry.1.has(&division("2", "Appendix")));
    assert_eq!(pipeline.coverage.len(), 2);
}

#[test]
fn count_above_cap_requires_exactly_ten_thousand() {
    let capped = page(12000, 10000);
    assert!(capped.check_count());
    let short = page(12000, 9999);
    assert!(!short.check_count());
    assert_eq!(short.require_count().err(), Some(FatalError::CountInvariant));
}

#[test]
fn count_mismatch_is_fatal() {
    let s = page(5, 4);
    assert_eq!(s.require_count().err(), Some(FatalError::CountInvariant));
}

#[test]
fn merge_without_result_list_changes_nothing() {
    let mut first = page(0, 3);
    first.results = None;
    let merged = merge_pages(first, vec![page(0, 2)]);
    assert!(merged.results.is_none());

    let merged2 = merge_pages(page(0, 3), vec![FrDocSearch {
        count: 0,
        description: String::new(),
        total_pages: None,
        next_page_url: None,
        results: None,
    }]);
    assert_eq!(merged2.result_len(), 3);
}

#[test]
fn agency_table_lookup() {
    let list = vec![
        FrAllAgencyInfo {
            name: "Environmental Protection Agency".to_string(),
            short_name: Some("EPA".to_string()),
        },
        FrAllAgencyInfo { name: "Nameless Commission".to_string(), short_name: None },
    ];
    let table = AgencyTable::from_agency_list(list);
    assert_eq!(
        table.lookup(&"Environmental Protection Agency".to_string()).map(|s| s.as_str()),
        Some("EPA")
    );
    assert_eq!(table.lookup(&"Nameless Commission".to_string()), None);
    assert_eq!(table.lookup(&"Unknown".to_string()), None);
}

#[test]
fn enrichment_filters_and_aligns() {
    let list = vec![
        FrAllAgencyInfo {
            name: "Environmental Protection Agency".to_string(),
            short_name: Some("EPA".to_string()),
        },
        FrAllAgencyInfo {
            name: "Department of Transportation".to_string(),
            short_name: Some("DOT".to_string()),
        },
    ];
    let table = AgencyTable::from_agency_list(list);
    let mut d = doc("91-1", None, 1, 1);
    d.agency_names = vec![
        "Environmental Protection Agency".to_string(),
        "Obscure Office".to_string(),
        "Department of Transportation".to_string(),
    ];
    d.agency_abbrvs = None;
    enrich_agencies(&mut d, &table);
    assert_eq!(
        d.agency_names,
        vec![
            "Environmental Protection Agency".to_string(),
            "Department of Transportation".to_string()
        ]
    );
    assert_eq!(
        d.agency_abbrvs,
        Some(vec!["EPA".to_string(), "DOT".to_string()])
    );
}

#[test]
fn part_identifier_keeps_digits_only() {
    assert_eq!(strip_nondigits(&"4a".to_string()), "4");
    assert_eq!(strip_nondigits(&"799".to_string()), "799");
    assert_eq!(strip_nondigits(&"T1b2".to_string()), "12");
}

#[test]
fn cache_hit_uses_payload_without_fetching() {
    // a pre-populated cache entry is returned as it stands, twice over
    let first = cache_route(Some("payload".to_string()));
    let second = cache_route(Some("payload".to_string()));
    match (first, second) {
        (CacheRoute::UseCached(a), CacheRoute::UseCached(b)) => {
            assert_eq!(a, "payload");
            assert_eq!(a, b);
        }
        _ => panic!("a cached payload must not lead to a fetch"),
    }
}

#[test]
fn cache_miss_fetches() {
    assert!(matches!(cache_route(None), CacheRoute::FetchRemote));
}

#[test]
fn cache_fetch_status_handling() {
    assert_eq!(accept_fetched(200, "body".to_string()), Ok("body".to_string()));
    assert_eq!(accept_fetched(299, "b".to_string()), Ok("b".to_string()));
    assert_eq!(accept_fetched(404, "b".to_string()), Err(FatalError::HttpFailure));
    assert_eq!(accept_fetched(301, "b".to_string()), Err(FatalError::HttpFailure));
}

#[test]
fn fetch_decisions() {
    assert_eq!(
        classify_response(429, true),
        Err(FatalError::RateLimitedWhileThrottled)
    );
    assert_eq!(classify_response(404, true), Ok(FetchOutcome::SkipBadStatus));
    assert_eq!(classify_response(500, false), Ok(FetchOutcome::SkipBadStatus));
    // a redirect is not a success: recorded as a skip, its body never saved
    assert_eq!(classify_response(301, true), Ok(FetchOutcome::SkipBadStatus));
    assert_eq!(classify_response(399, true), Ok(FetchOutcome::SkipBadStatus));
    assert_eq!(classify_response(199, true), Ok(FetchOutcome::SkipBadStatus));
    assert_eq!(classify_response(200, false), Ok(FetchOutcome::SkipNotHtml));
    assert_eq!(classify_response(200, true), Ok(FetchOutcome::Save));
    assert_eq!(classify_response(299, true), Ok(FetchOutcome::Save));
}

#[test]
fn fetch_outcomes_build_skipped_set() {
    let mut skipped = DocNoSet::new();
    record_outcome(&mut skipped, &FrDocNo("a".to_string()), FetchOutcome::Save);
    record_outcome(&mut skipped, &FrDocNo("b".to_string()), FetchOutcome::SkipBadStatus);
    record_outcome(&mut skipped, &FrDocNo("c".to_string()), FetchOutcome::SkipNotHtml);
    record_outcome(&mut skipped, &FrDocNo("b".to_string()), FetchOutcome::SkipBadStatus);
    assert_eq!(skipped.len(), 2);
    assert!(!skipped.has(&FrDocNo("a".to_string())));
    assert!(skipped.has(&FrDocNo("b".to_string())));
    assert!(skipped.has(&FrDocNo("c".to_string())));
}

fn division(name: &str, ty: &str) -> CfrDivInfo {
    CfrDivInfo { name: name.to_string(), ty: ty.to_string(), word_count: 0 }
}

#[test]
fn matcher_attributes_and_reports_gaps() {
    // CFR part 40/50 with citations C1 and C2; D1 covers C1, nothing covers C2
    let c1 = FrCita { edition: 89, page: 100 };
    let c2 = FrCita { edition: 89, page: 9999 };
    let mut citas = CitationMap::new();
    citas.add_div(c1, division("1", "Subpart"));
    citas.add_div(c2, division("2", "Subpart"));

    let docs = vec![
        doc("D1", Some("89 FR 50"), 50, 200),
        doc("D2", Some("89 FR 9000"), 9000, 9500),
    ];
    let mut db = DocDb::new();
    let (attributed, unattributed) = match_part(&citas, &docs, &mut db);

    assert_eq!(attributed.len(), 1);
    assert!(attributed.has(&FrDocNo("D1".to_string())));
    assert!(!attributed.has(&FrDocNo("D2".to_string())));
    assert_eq!(unattributed.len(), 1);
    assert!(unattributed.has(c2));
    assert!(!unattributed.has(c1));

    assert_eq!(db.len(), 1);
    let entry = db.entry_at(0);
    assert_eq!(entry.0, FrDocNo("D1".to_string()));
    assert!(entry.1.has(&division("1", "Subpart")));
    assert!(!entry.1.has(&division("2", "Subpart")));
}

#[test]
fn matcher_citation_matching_many_documents() {
    let c1 = FrCita { edition: 60, page: 10 };
    let mut citas = CitationMap::new();
    citas.add_div(c1, division("1", "Subpart"));
    let docs = vec![
        doc("A", Some("60 FR 5"), 5, 20),
        doc("B", Some("60 FR 10"), 10, 10),
        doc("C", Some("61 FR 5"), 5, 20),
    ];
    let mut db = DocDb::new();
    let (attributed, unattributed) = match_part(&citas, &docs, &mut db);
    assert_eq!(attributed.len(), 2);
    assert!(attributed.has(&FrDocNo("A".to_string())));
    assert!(attributed.has(&FrDocNo("B".to_string())));
    assert_eq!(unattributed.len(), 0);
    assert_eq!(db.len(), 2);
}

#[test]
fn document_without_citation_never_matches() {
    let c1 = FrCita { edition: 60, page: 10 };
    let mut citas = CitationMap::new();
    citas.add_div(c1, division("1", "Subpart"));
    let docs = vec![doc("A", None, 0, 100000)];
    let mut db = DocDb::new();
    let (attributed, unattributed) = match_part(&citas, &docs, &mut db);
    assert_eq!(attributed.len(), 0);
    assert_eq!(unattributed.len(), 1);
    assert_eq!(db.len(), 0);
}

#[test]
fn end_to_end_part_coverage() {
    // the full per-part flow: matching, coverage, fetch skips, reports
    let part = CfrPart { title: "40".to_string(), part: "50".to_string() };
    let c1 = FrCita { edition: 89, page: 100 };
    let c2 = FrCita { edition: 89, page: 9999 };
    let mut citas = CitationMap::new();
    citas.add_div(c1, division("1", "Subpart"));
    citas.add_div(c2, division("1", "Subpart"));

    let search = FrDocSearch {
        count: 2,
        description: String::new(),
        total_pages: None,
        next_page_url: None,
        results: Some(vec![
            doc("D1", Some("89 FR 50"), 50, 200),
            doc("D2", Some("89 FR 9000"), 9000, 9500),
        ]),
    };
    assert!(search.require_count().is_ok());

    let mut pipeline = Pipeline::new();
    pipeline.process_part(part, &citas, &search);

    // no document was skipped during fetch
    let skipped = DocNoSet::new();
    let doc_rows = build_doc_rows(pipeline.db, &skipped);
    assert_eq!(doc_rows.len(), 1);
    assert_eq!(doc_rows[0].docno, FrDocNo("D1".to_string()));
    assert!(doc_rows[0].divs.has(&division("1", "Subpart")));

    let cov_rows = build_cov_rows(pipeline.coverage, &skipped);
    assert_eq!(cov_rows.len(), 1);
    let row = &cov_rows[0];
    assert_eq!(row.part.title, "40");
    assert_eq!(row.part.part, "50");
    assert_eq!(row.fr_citas, vec![c1, c2]);
    assert_eq!(
        row.fr_docs_affecting,
        vec![FrDocNo("D1".to_string()), FrDocNo("D2".to_string())]
    );
    assert!(row.fr_docs_attributed.has(&FrDocNo("D1".to_string())));
    assert!(!row.fr_docs_attributed.has(&FrDocNo("D2".to_string())));
    assert!(row.fr_citas_unattributed.has(c2));
    assert!(!row.fr_citas_unattributed.has(c1));
    assert_eq!(row.fr_docs_unfetched.len(), 0);
}

#[test]
fn skipped_documents_leave_doc_table_but_stay_in_coverage() {
    let part = CfrPart { title: "40".to_string(), part: "50".to_string() };
    let c1 = FrCita { edition: 89, page: 100 };
    let mut citas = CitationMap::new();
    citas.add_div(c1, division("1", "Subpart"));
    let search = FrDocSearch {
        count: 1,
        description: String::new(),
        total_pages: None,
        next_page_url: None,
        results: Some(vec![doc("D1", Some("89 FR 50"), 50, 200)]),
    };
    let mut pipeline = Pipeline::new();
    pipeline.process_part(part, &citas, &search);

    let mut skipped = DocNoSet::new();
    record_outcome(&mut skipped, &FrDocNo("D1".to_string()), FetchOutcome::SkipNotHtml);

    let doc_rows = build_doc_rows(pipeline.db, &skipped);
    assert_eq!(doc_rows.len(), 0);

    let cov_rows = build_cov_rows(pipeline.coverage, &skipped);
    assert_eq!(cov_rows.len(), 1);
    assert!(cov_rows[0].fr_docs_attributed.has(&FrDocNo("D1".to_string())));
    assert!(cov_rows[0].fr_docs_unfetched.has(&FrDocNo("D1".to_string())));
}
