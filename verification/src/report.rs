//! The report builder and the per-part accumulation it reads: the
//! document table has one row per attributed and successfully fetched
//! document; the coverage table has one row per processed CFR part.

use vstd::prelude::*;
use crate::cita::FrCita;
use crate::divs::{CfrPart, CfrPartView, CfrDivView, DivSet, CitationMap};
use crate::docs::{FrDocNo, FrDocInfo, CfrPartAffected, refs_seq, str_seq, opt_str_seq};
use crate::matcher::{DocNoSet, CitaSet, DocDb, MatchState, match_fold, match_part};
use crate::search::FrDocSearch;
use crate::text::opt_str_view;

verus! {

/// The per-part coverage rollup: citations found, documents the search
/// marked as affecting the part, documents actually attributed, and
/// citations left unattributed.
pub struct CfrCovInfo {
    pub fr_citas: Vec<FrCita>,
    pub fr_docs_affecting: Vec<FrDocNo>,
    pub fr_docs_attributed: DocNoSet,
    pub fr_citas_unattributed: CitaSet,
}

/// The document numbers of a result list, in order.
pub open spec fn docnos_of(docs: Seq<FrDocInfo>) -> Seq<Seq<char>> {
    docs.map_values(|d: FrDocInfo| d.document_number@)
}

/// The accumulated state of a run: the cross-part document database and
/// the coverage rollups of the parts processed so far, in order.
pub struct Pipeline {
    pub db: DocDb,
    pub coverage: Vec<(CfrPart, CfrCovInfo)>,
}

impl Pipeline {
    pub open spec fn wf(self) -> bool {
        self.db.wf()
    }

    pub fn new() -> (s: Self)
        ensures
            s.wf(),
            s.db@ == Map::<Seq<char>, (Set<CfrDivView>, crate::docs::FrDocView)>::empty(),
            s.coverage@ == Seq::<(CfrPart, CfrCovInfo)>::empty(),
    {
        Pipeline { db: DocDb::new(), coverage: Vec::new() }
    }

    /// Process one CFR part: match its extracted citations against its
    /// candidate documents, fold the attributions into the database,
    /// and append the part's coverage rollup.
    pub fn process_part(&mut self, part: CfrPart, citas: &CitationMap, search: &FrDocSearch)
        requires
            old(self).wf(),
            citas.wf(),
            forall|i: int|
                0 <= i < search.results_seq().len() ==> (
                #[trigger] search.results_seq()[i]).citation_wf(),
        ensures
            final(self).wf(),
            final(self).coverage@.len() == old(self).coverage@.len() + 1,
            final(self).coverage@.subrange(0, old(self).coverage@.len() as int) == old(
                self,
            ).coverage@,
            ({
                let end = match_fold(
                    MatchState {
                        db: old(self).db@,
                        att: Set::empty(),
                        unatt: Set::empty(),
                    },
                    citas.keys(),
                    citas@,
                    search.results_seq(),
                    citas.keys().len() as int,
                );
                let row = final(self).coverage@.last();
                &&& final(self).db@ == end.db
                &&& row.0@ == part@
                &&& row.1.fr_citas@ == citas.keys()
                &&& docnos_of_list(row.1.fr_docs_affecting@) == docnos_of(search.results_seq())
                &&& row.1.fr_docs_attributed@ == end.att
                &&& row.1.fr_citas_unattributed@ == end.unatt
                &&& row.1.fr_docs_attributed.wf()
                &&& row.1.fr_citas_unattributed.wf()
            }),
    {
        let results: &Vec<FrDocInfo> = match &search.results {
            Some(v) => v,
            None => &Vec::new(),
        };
        proof {
            assert(results@ == search.results_seq());
        }
        let (attributed, unattributed) = match_part(citas, results, &mut self.db);
        let fr_citas = citas.keys_vec();
        let mut affecting: Vec<FrDocNo> = Vec::new();
        let n = results.len();
        let mut i: usize = 0;
        while i < n
            invariant
                n == results@.len(),
                i <= n,
                docnos_of_list(affecting@) =~= docnos_of(results@).subrange(0, i as int),
            decreases n - i,
        {
            let ghost old_a = affecting@;
            let dn = results[i].document_number.clone();
            affecting.push(dn);
            proof {
                assert(docnos_of_list(old_a).len() == old_a.len());
                assert(old_a.len() == i as int);
                assert forall|k: int|
                    0 <= k < affecting@.len() implies #[trigger] docnos_of_list(affecting@)[k]
                    == docnos_of(results@).subrange(0, i as int + 1)[k] by {
                    assert(docnos_of_list(affecting@)[k] == affecting@[k]@);
                    if k < i as int {
                        assert(old_a.push(affecting@.last())[k] == old_a[k]);
                        assert(docnos_of_list(old_a)[k] == old_a[k]@);
                    } else {
                        assert(affecting@[k]@ == results@[i as int].document_number@);
                    }
                    assert(docnos_of(results@)[k] == results@[k].document_number@);
                }
                assert(docnos_of_list(affecting@) =~= docnos_of(results@).subrange(
                    0,
                    i as int + 1,
                ));
            }
            i = i + 1;
        }
        proof {
            assert(docnos_of(results@).subrange(0, n as int) =~= docnos_of(results@));
        }
        let cov = CfrCovInfo {
            fr_citas,
            fr_docs_affecting: affecting,
            fr_docs_attributed: attributed,
            fr_citas_unattributed: unattributed,
        };
        let ghost old_cov = self.coverage@;
        self.coverage.push((part, cov));
        proof {
            assert(self.coverage@.drop_last() =~= old_cov);
            assert(self.coverage@.subrange(0, old_cov.len() as int) =~= old_cov);
        }
    }
}

/// The identifier values of a list of document numbers.
pub open spec fn docnos_of_list(v: Seq<FrDocNo>) -> Seq<Seq<char>> {
    v.map_values(|d: FrDocNo| d@)
}

/// One row of the document table.
pub struct DocRow {
    pub docno: FrDocNo,
    pub divs: DivSet,
    pub citation: Option<String>,
    pub agency_names: Vec<String>,
    pub agency_abbrvs: Vec<String>,
    pub title: Option<String>,
    pub abstract_text: Option<String>,
    pub publication_date: Option<String>,
    pub cfr_parts_affected: Vec<CfrPartAffected>,
}

/// The mathematical value of a `DocRow`.
pub ghost struct DocRowView {
    pub docno: Seq<char>,
    pub divs: Set<CfrDivView>,
    pub citation: Option<Seq<char>>,
    pub agency_names: Seq<Seq<char>>,
    pub agency_abbrvs: Seq<Seq<char>>,
    pub title: Option<Seq<char>>,
    pub abstract_text: Option<Seq<char>>,
    pub publication_date: Option<Seq<char>>,
    pub cfr_parts_affected: Seq<crate::docs::CfrPartAffView>,
}

impl View for DocRow {
    type V = DocRowView;

    open spec fn view(&self) -> DocRowView {
        DocRowView {
            docno: self.docno@,
            divs: self.divs@,
            citation: opt_str_view(self.citation),
            agency_names: str_seq(self.agency_names@),
            agency_abbrvs: str_seq(self.agency_abbrvs@),
            title: opt_str_view(self.title),
            abstract_text: opt_str_view(self.abstract_text),
            publication_date: opt_str_view(self.publication_date),
            cfr_parts_affected: refs_seq(self.cfr_parts_affected@),
        }
    }
}

/// The row one database entry yields.
pub open spec fn row_of_entry(e: (FrDocNo, DivSet, FrDocInfo)) -> DocRowView {
    DocRowView {
        docno: e.0@,
        divs: e.1@,
        citation: opt_str_view(e.2.citation),
        agency_names: str_seq(e.2.agency_names@),
        agency_abbrvs: match opt_str_seq(e.2.agency_abbrvs) {
            Some(ab) => ab,
            None => Seq::empty(),
        },
        title: opt_str_view(e.2.title),
        abstract_text: opt_str_view(e.2.abstract_text),
        publication_date: opt_str_view(e.2.publication_date),
        cfr_parts_affected: refs_seq(e.2.cfr_references@),
    }
}

/// The document-table rows of a run of database entries: one per entry
/// whose document was not skipped during fetch, in order.
pub open spec fn doc_rows_spec(
    entries: Seq<(FrDocNo, DivSet, FrDocInfo)>,
    skipped: Set<Seq<char>>,
) -> Seq<DocRowView>
    decreases entries.len(),
{
    if entries.len() == 0 {
        Seq::empty()
    } else {
        doc_rows_spec(entries.drop_last(), skipped) + (if skipped.contains(entries.last().0@) {
            Seq::empty()
        } else {
            seq![row_of_entry(entries.last())]
        })
    }
}

/// Build the document table: one row per attributed document that was
/// fetched successfully, skipped documents excluded.
pub fn build_doc_rows(db: DocDb, skipped: &DocNoSet) -> (rows: Vec<DocRow>)
    requires
        db.wf(),
        forall|i: int|
            0 <= i < db.entries@.len() ==> (#[trigger] db.entries@[i]).2.agency_abbrvs is Some,
    ensures
        rows@.map_values(|r: DocRow| r@) == doc_rows_spec(db.entries@, skipped@),
{
    let ghost orig = db.entries@;
    let mut entries = db.entries;
    let mut rows: Vec<DocRow> = Vec::new();
    let mut i: usize = 0;
    proof {
        assert(entries.len() == entries@.len());
        assert(orig.len() <= usize::MAX);
    }
    while entries.len() > 0
        invariant
            entries@ =~= orig.skip(i as int),
            i <= orig.len(),
            orig.len() <= usize::MAX,
            forall|k: int| 0 <= k < orig.len() ==> (#[trigger] orig[k]).2.agency_abbrvs is Some,
            rows@.map_values(|r: DocRow| r@) =~= doc_rows_spec(orig.take(i as int), skipped@),
        decreases entries.len(),
    {
        let e = entries.remove(0);
        proof {
            assert(e == orig[i as int]);
            assert(entries@ =~= orig.skip(i as int + 1));
            assert(orig.take(i as int + 1).drop_last() =~= orig.take(i as int));
            assert(orig.take(i as int + 1).last() == orig[i as int]);
        }
        let (docno, divs, info) = e;
        if !skipped.has(&docno) {
            let ghost old_rows = rows@;
            let abbrvs = match info.agency_abbrvs {
                Some(ab) => ab,
                None => Vec::new(),
            };
            let row = DocRow {
                docno,
                divs,
                citation: info.citation,
                agency_names: info.agency_names,
                agency_abbrvs: abbrvs,
                title: info.title,
                abstract_text: info.abstract_text,
                publication_date: info.publication_date,
                cfr_parts_affected: info.cfr_references,
            };
            proof {
                assert(row@ == row_of_entry(orig[i as int]));
            }
            rows.push(row);
            proof {
                assert(rows@ == old_rows.push(rows@.last()));
                assert(rows@.map_values(|r: DocRow| r@) =~= old_rows.map_values(
                    |r: DocRow| r@,
                ).push(rows@.last()@));
            }
        }
        i = i + 1;
    }
    proof {
        assert(i == orig.len());
        assert(orig.take(orig.len() as int) =~= orig);
    }
    rows
}

/// One row of the coverage table.
pub struct CovRow {
    pub part: CfrPart,
    pub fr_citas: Vec<FrCita>,
    pub fr_docs_affecting: Vec<FrDocNo>,
    pub fr_docs_attributed: DocNoSet,
    pub fr_citas_unattributed: CitaSet,
    pub fr_docs_unfetched: DocNoSet,
}

/// Build the coverage table: one row per processed part, its unfetched
/// set being the attributed documents that were skipped during fetch.
pub fn build_cov_rows(coverage: Vec<(CfrPart, CfrCovInfo)>, skipped: &DocNoSet) -> (rows: Vec<
    CovRow,
>)
    requires
        forall|i: int|
            0 <= i < coverage@.len() ==> (#[trigger] coverage@[i]).1.fr_docs_attributed.wf(),
    ensures
        rows@.len() == coverage@.len(),
        forall|i: int|
            0 <= i < coverage@.len() ==> {
                let r = #[trigger] rows@[i];
                let c = coverage@[i];
                &&& r.part == c.0
                &&& r.fr_citas == c.1.fr_citas
                &&& r.fr_docs_affecting == c.1.fr_docs_affecting
                &&& r.fr_docs_attributed == c.1.fr_docs_attributed
                &&& r.fr_citas_unattributed == c.1.fr_citas_unattributed
                &&& r.fr_docs_unfetched@ == c.1.fr_docs_attributed@.intersect(skipped@)
            },
{
    let ghost orig = coverage@;
    let mut coverage = coverage;
    let mut rows: Vec<CovRow> = Vec::new();
    let mut i: usize = 0;
    proof {
        assert(coverage.len() == coverage@.len());
        assert(orig.len() <= usize::MAX);
    }
    while coverage.len() > 0
        invariant
            coverage@ =~= orig.skip(i as int),
            i <= orig.len(),
            orig.len() <= usize::MAX,
            forall|k: int|
                0 <= k < orig.len() ==> (#[trigger] orig[k]).1.fr_docs_attributed.wf(),
            rows@.len() == i,
            forall|k: int|
                0 <= k < i ==> {
                    let r = #[trigger] rows@[k];
                    let c = orig[k];
                    &&& r.part == c.0
                    &&& r.fr_citas == c.1.fr_citas
                    &&& r.fr_docs_affecting == c.1.fr_docs_affecting
                    &&& r.fr_docs_attributed == c.1.fr_docs_attributed
                    &&& r.fr_citas_unattributed == c.1.fr_citas_unattributed
                    &&& r.fr_docs_unfetched@ == c.1.fr_docs_attributed@.intersect(skipped@)
                },
        decreases coverage.len(),
    {
        let e = coverage.remove(0);
        proof {
            assert(e == orig[i as int]);
            assert(coverage@ =~= orig.skip(i as int + 1));
        }
        let (part, cov) = e;
        let unfetched = cov.fr_docs_attributed.intersect(skipped);
        let row = CovRow {
            part,
            fr_citas: cov.fr_citas,
            fr_docs_affecting: cov.fr_docs_affecting,
            fr_docs_attributed: cov.fr_docs_attributed,
            fr_citas_unattributed: cov.fr_citas_unattributed,
            fr_docs_unfetched: unfetched,
        };
        let ghost old_rows = rows@;
        rows.push(row);
        proof {
            assert(rows@ == old_rows.push(rows@.last()));
        }
        i = i + 1;
    }
    proof {
        assert(i == orig.len());
    }
    rows
}

} // verus!
