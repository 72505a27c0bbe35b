//! Federal Register documents: identifiers, search-result metadata, and
//! the containment test that matches a document's declared citation
//! range against a citation found in markup.

use vstd::prelude::*;
use crate::cita::{FrCita, parse_cita_seq, parse_citation};
use crate::error::FatalError;
use crate::text::opt_str_view;

verus! {

/// A unique Federal Register document identifier.
#[derive(Debug, PartialEq, Eq, Hash)]
pub struct FrDocNo(pub String);

impl View for FrDocNo {
    type V = Seq<char>;

    open spec fn view(&self) -> Seq<char> {
        self.0@
    }
}

impl Clone for FrDocNo {
    fn clone(&self) -> (r: Self)
        ensures
            r@ == self@,
    {
        FrDocNo(self.0.clone())
    }
}

impl FrDocNo {
    /// The raw identifier text.
    pub fn text(&self) -> (r: &str)
        ensures
            r@ == self@,
    {
        self.0.as_str()
    }
}

/// One CFR part a document declares it affects.
#[derive(Debug)]
pub struct CfrPartAffected {
    pub chapter: Option<u32>,
    pub citation_url: Option<String>,
    pub part: Option<u32>,
    pub title: u32,
}

/// The mathematical value of a `CfrPartAffected`.
pub ghost struct CfrPartAffView {
    pub chapter: Option<u32>,
    pub citation_url: Option<Seq<char>>,
    pub part: Option<u32>,
    pub title: u32,
}

impl View for CfrPartAffected {
    type V = CfrPartAffView;

    open spec fn view(&self) -> CfrPartAffView {
        CfrPartAffView {
            chapter: self.chapter,
            citation_url: opt_str_view(self.citation_url),
            part: self.part,
            title: self.title,
        }
    }
}

impl Clone for CfrPartAffected {
    fn clone(&self) -> (r: Self)
        ensures
            r@ == self@,
    {
        CfrPartAffected {
            chapter: self.chapter,
            citation_url: match &self.citation_url {
                Some(u) => Some(u.clone()),
                None => None,
            },
            part: self.part,
            title: self.title,
        }
    }
}

/// One entry of the agency list: the full name and the short name, when
/// the agency has one.
#[derive(Debug)]
pub struct FrAllAgencyInfo {
    pub name: String,
    pub short_name: Option<String>,
}

/// Metadata about one FR document, as the document search reports it.
#[derive(Debug)]
pub struct FrDocInfo {
    pub abstract_text: Option<String>,
    pub agency_names: Vec<String>,
    /// Parallel to `agency_names`, filled in once after the search.
    pub agency_abbrvs: Option<Vec<String>>,
    pub body_html_url: Option<String>,
    pub cfr_references: Vec<CfrPartAffected>,
    pub citation: Option<String>,
    pub document_number: FrDocNo,
    pub end_page: u32,
    pub publication_date: Option<String>,
    pub significant: Option<bool>,
    pub start_page: u32,
    pub title: Option<String>,
}

/// The values of a list of strings.
pub open spec fn str_seq(v: Seq<String>) -> Seq<Seq<char>> {
    v.map_values(|s: String| s@)
}

/// The values of a list of affected-part records.
pub open spec fn refs_seq(v: Seq<CfrPartAffected>) -> Seq<CfrPartAffView> {
    v.map_values(|c: CfrPartAffected| c@)
}

/// The values of an optional list of strings.
pub open spec fn opt_str_seq(o: Option<Vec<String>>) -> Option<Seq<Seq<char>>> {
    match o {
        Some(v) => Some(str_seq(v@)),
        None => None,
    }
}

/// The mathematical value of a `FrDocInfo`.
pub ghost struct FrDocView {
    pub abstract_text: Option<Seq<char>>,
    pub agency_names: Seq<Seq<char>>,
    pub agency_abbrvs: Option<Seq<Seq<char>>>,
    pub body_html_url: Option<Seq<char>>,
    pub cfr_references: Seq<CfrPartAffView>,
    pub citation: Option<Seq<char>>,
    pub document_number: Seq<char>,
    pub end_page: u32,
    pub publication_date: Option<Seq<char>>,
    pub significant: Option<bool>,
    pub start_page: u32,
    pub title: Option<Seq<char>>,
}

impl View for FrDocInfo {
    type V = FrDocView;

    open spec fn view(&self) -> FrDocView {
        FrDocView {
            abstract_text: opt_str_view(self.abstract_text),
            agency_names: str_seq(self.agency_names@),
            agency_abbrvs: opt_str_seq(self.agency_abbrvs),
            body_html_url: opt_str_view(self.body_html_url),
            cfr_references: refs_seq(self.cfr_references@),
            citation: opt_str_view(self.citation),
            document_number: self.document_number@,
            end_page: self.end_page,
            publication_date: opt_str_view(self.publication_date),
            significant: self.significant,
            start_page: self.start_page,
            title: opt_str_view(self.title),
        }
    }
}

/// Copy an optional string.
pub fn clone_opt_string(o: &Option<String>) -> (r: Option<String>)
    ensures
        opt_str_view(r) == opt_str_view(*o),
{
    match o {
        Some(s) => Some(s.clone()),
        None => None,
    }
}

/// Copy a list of strings.
pub fn clone_string_vec(v: &Vec<String>) -> (r: Vec<String>)
    ensures
        str_seq(r@) == str_seq(v@),
{
    let n = v.len();
    let mut r: Vec<String> = Vec::new();
    let mut i: usize = 0;
    while i < n
        invariant
            n == v.len(),
            i <= n,
            r@.len() == i,
            forall|k: int| 0 <= k < i ==> (#[trigger] r@[k])@ == v@[k]@,
        decreases n - i,
    {
        let ghost old_r = r@;
        let c = v[i].clone();
        r.push(c);
        proof {
            assert(r@ == old_r.push(c));
            assert forall|k: int| 0 <= k < i + 1 implies (#[trigger] r@[k])@ == v@[k]@ by {
                if k < i as int {
                    assert(old_r.push(c)[k] == old_r[k]);
                } else {
                    assert(old_r.push(c)[k] == c);
                }
            }
        }
        i = i + 1;
    }
    proof {
        assert forall|k: int|
            0 <= k < r@.len() implies str_seq(r@)[k] == str_seq(v@)[k] by {
            assert(r@[k]@ == v@[k]@);
        }
        assert(str_seq(r@) =~= str_seq(v@));
    }
    r
}

impl Clone for FrDocInfo {
    fn clone(&self) -> (r: Self)
        ensures
            r@ == self@,
    {
        let mut refs: Vec<CfrPartAffected> = Vec::new();
        let n = self.cfr_references.len();
        let mut i: usize = 0;
        while i < n
            invariant
                n == self.cfr_references.len(),
                i <= n,
                refs@.len() == i,
                forall|k: int| 0 <= k < i ==> (#[trigger] refs@[k])@ == self.cfr_references@[k]@,
            decreases n - i,
        {
            let ghost old_r = refs@;
            let c = self.cfr_references[i].clone();
            refs.push(c);
            proof {
                assert(refs@ == old_r.push(c));
                assert forall|k: int|
                    0 <= k < i + 1 implies (#[trigger] refs@[k])@ == self.cfr_references@[k]@ by {
                    if k < i as int {
                        assert(old_r.push(c)[k] == old_r[k]);
                    } else {
                        assert(old_r.push(c)[k] == c);
                    }
                }
            }
            i = i + 1;
        }
        proof {
            assert forall|k: int|
                0 <= k < refs@.len() implies #[trigger] refs_seq(refs@)[k] == refs_seq(
                self.cfr_references@,
            )[k] by {
                assert(refs@[k]@ == self.cfr_references@[k]@);
            }
            assert(refs_seq(refs@) =~= refs_seq(self.cfr_references@));
        }
        let r = FrDocInfo {
            abstract_text: clone_opt_string(&self.abstract_text),
            agency_names: clone_string_vec(&self.agency_names),
            agency_abbrvs: match &self.agency_abbrvs {
                Some(v) => Some(clone_string_vec(v)),
                None => None,
            },
            body_html_url: clone_opt_string(&self.body_html_url),
            cfr_references: refs,
            citation: clone_opt_string(&self.citation),
            document_number: self.document_number.clone(),
            end_page: self.end_page,
            publication_date: clone_opt_string(&self.publication_date),
            significant: self.significant,
            start_page: self.start_page,
            title: clone_opt_string(&self.title),
        };
        r
    }
}

impl FrDocInfo {
    /// The `(edition, page)` pair the declared citation string parses
    /// to, when there is one.
    pub open spec fn declared(self) -> Option<(nat, nat)> {
        match self.citation {
            Some(c) => parse_cita_seq(c@),
            None => None,
        }
    }

    /// A present declared citation parses, its edition fits in 32 bits,
    /// and its page component equals the recorded start page.
    pub open spec fn citation_wf(self) -> bool {
        match self.citation {
            Some(c) => parse_cita_seq(c@) matches Some(pr) && pr.0 <= u32::MAX && pr.1
                == self.start_page,
            None => true,
        }
    }

    /// Whether the document's declared citation covers the given
    /// citation: same edition, and the page inside the document's page
    /// range. A document with no declared citation never matches.
    pub open spec fn matches_cita(self, cita: FrCita) -> bool {
        match self.declared() {
            Some(pr) => pr.0 == cita.edition as nat && self.start_page <= cita.page <= self.end_page,
            None => false,
        }
    }

    /// Whether the declared citation is consistent with the recorded
    /// start page, executable counterpart of `citation_wf`.
    pub fn check_citation(&self) -> (r: bool)
        ensures
            r == self.citation_wf(),
    {
        match &self.citation {
            Some(c) => match parse_citation(c.as_str()) {
                Some(pc) => pc.page == self.start_page,
                None => false,
            },
            None => true,
        }
    }

    /// Demand a declared citation consistent with the recorded start
    /// page; a violation is a data-integrity fault in the upstream
    /// source and aborts the run.
    pub fn require_citation(&self) -> (r: Result<(), FatalError>)
        ensures
            r is Ok <==> self.citation_wf(),
            r matches Err(e) ==> e == FatalError::CitationMismatch,
    {
        if self.check_citation() {
            Ok(())
        } else {
            Err(FatalError::CitationMismatch)
        }
    }

    /// Whether this document's declared citation covers `cita`.
    pub fn contains(&self, cita: &FrCita) -> (r: bool)
        requires
            self.citation_wf(),
        ensures
            r == self.matches_cita(*cita),
    {
        match &self.citation {
            Some(c) => match parse_citation(c.as_str()) {
                Some(pc) => pc.edition == cita.edition && self.start_page <= cita.page && cita.page
                    <= self.end_page,
                None => {
                    proof {
                        assert(false);
                    }
                    false
                },
            },
            None => false,
        }
    }
}

} // verus!
