//! The document-search side: one page of search results, the merge of
//! the paged results, the count invariant, and the agency-abbreviation
//! enrichment applied to every merged result.

use vstd::prelude::*;
use crate::docs::{FrDocInfo, FrAllAgencyInfo, str_seq};
use crate::error::FatalError;
use crate::text::{is_dec_digit, str_eq};

verus! {

/// One page of document-search results, and, after merging, the whole
/// logical result collection.
#[derive(Debug)]
pub struct FrDocSearch {
    pub count: u32,
    pub description: String,
    pub total_pages: Option<u32>,
    pub next_page_url: Option<String>,
    pub results: Option<Vec<FrDocInfo>>,
}

impl FrDocSearch {
    /// The result documents; an absent list reads as empty.
    pub open spec fn results_seq(self) -> Seq<FrDocInfo> {
        match self.results {
            Some(v) => v@,
            None => Seq::empty(),
        }
    }

    /// Append another page's results to this one; when either side has
    /// no result list, nothing changes.
    pub fn extend(&mut self, other: FrDocSearch)
        ensures
            final(self).count == old(self).count,
            final(self).description == old(self).description,
            final(self).total_pages == old(self).total_pages,
            final(self).next_page_url == old(self).next_page_url,
            (old(self).results is Some && other.results is Some) ==> final(self).results is Some
                && final(self).results_seq() == old(self).results_seq() + other.results_seq(),
            !(old(self).results is Some && other.results is Some) ==> final(self).results == old(
                self,
            ).results,
    {
        if self.results.is_some() && other.results.is_some() {
            let mut mine = self.results.take().unwrap();
            let mut theirs = other.results.unwrap();
            mine.append(&mut theirs);
            self.results = Some(mine);
        }
    }

    /// How many result documents were accumulated.
    pub fn result_len(&self) -> (r: usize)
        ensures
            r == self.results_seq().len(),
    {
        match &self.results {
            Some(v) => v.len(),
            None => 0,
        }
    }

    /// The reported count matches the accumulated results: exactly
    /// `count` of them, or exactly 10000 when the count exceeds the
    /// search interface's cap of ten pages of one thousand.
    pub open spec fn count_ok(self) -> bool {
        if self.count <= 10000 {
            self.results_seq().len() == self.count
        } else {
            self.results_seq().len() == 10000
        }
    }

    /// Whether the reported count matches the accumulated results.
    pub fn check_count(&self) -> (r: bool)
        ensures
            r == self.count_ok(),
    {
        let len = self.result_len();
        if self.count <= 10000 {
            len == self.count as usize
        } else {
            len == 10000
        }
    }

    /// Demand the count invariant; its violation is a run-aborting
    /// fault.
    pub fn require_count(&self) -> (r: Result<(), FatalError>)
        ensures
            r is Ok <==> self.count_ok(),
            r matches Err(e) ==> e == FatalError::CountInvariant,
    {
        if self.check_count() {
            Ok(())
        } else {
            Err(FatalError::CountInvariant)
        }
    }
}

/// The concatenation of the result lists of a run of pages; a page
/// without a result list contributes nothing.
pub open spec fn concat_some_results(pages: Seq<FrDocSearch>) -> Seq<FrDocInfo>
    decreases pages.len(),
{
    if pages.len() == 0 {
        Seq::empty()
    } else {
        concat_some_results(pages.drop_last()) + (match pages.last().results {
            Some(_) => pages.last().results_seq(),
            None => Seq::empty(),
        })
    }
}

/// Merge the follow-up pages into the first page, in page order.
pub fn merge_pages(first: FrDocSearch, rest: Vec<FrDocSearch>) -> (r: FrDocSearch)
    ensures
        r.count == first.count,
        r.description == first.description,
        r.total_pages == first.total_pages,
        r.next_page_url == first.next_page_url,
        first.results is None ==> r.results == first.results,
        first.results is Some ==> r.results is Some && r.results_seq() == first.results_seq()
            + concat_some_results(rest@),
{
    let ghost orig_rest = rest@;
    let mut merged = first;
    let mut rest = rest;
    let mut i: usize = 0;
    proof {
        assert(rest.len() == rest@.len());
        assert(orig_rest.len() <= usize::MAX);
    }
    while rest.len() > 0
        invariant
            rest@ =~= orig_rest.skip(i as int),
            i <= orig_rest.len(),
            orig_rest.len() <= usize::MAX,
            merged.count == first.count,
            merged.description == first.description,
            merged.total_pages == first.total_pages,
            merged.next_page_url == first.next_page_url,
            first.results is None ==> merged.results == first.results,
            first.results is Some ==> merged.results is Some && merged.results_seq()
                == first.results_seq() + concat_some_results(orig_rest.take(i as int)),
        decreases rest.len(),
    {
        let page = rest.remove(0);
        proof {
            assert(page == orig_rest[i as int]);
            assert(rest@ =~= orig_rest.skip(i as int + 1));
            assert(orig_rest.take(i as int + 1).drop_last() =~= orig_rest.take(i as int));
            assert(orig_rest.take(i as int + 1).last() == orig_rest[i as int]);
        }
        merged.extend(page);
        i = i + 1;
    }
    proof {
        assert(orig_rest.take(orig_rest.len() as int) =~= orig_rest);
        assert(i == orig_rest.len());
    }
    merged
}

/// The agency-name to abbreviation table a list of entries stands for:
/// later entries override earlier ones, entries without a short name
/// contribute nothing.
pub open spec fn agencies_map(list: Seq<FrAllAgencyInfo>) -> Map<Seq<char>, Seq<char>>
    decreases list.len(),
{
    if list.len() == 0 {
        Map::empty()
    } else {
        let m = agencies_map(list.drop_last());
        match list.last().short_name {
            Some(s) => m.insert(list.last().name@, s@),
            None => m,
        }
    }
}

/// The map a list of name/abbreviation pairs stands for.
pub open spec fn amap_of(entries: Seq<(String, String)>) -> Map<Seq<char>, Seq<char>>
    decreases entries.len(),
{
    if entries.len() == 0 {
        Map::empty()
    } else {
        amap_of(entries.drop_last()).insert(entries.last().0@, entries.last().1@)
    }
}

/// A key not among the entries is not in the map.
proof fn lemma_amap_absent(entries: Seq<(String, String)>, k: Seq<char>)
    requires
        forall|i: int| 0 <= i < entries.len() ==> (#[trigger] entries[i]).0@ != k,
    ensures
        !amap_of(entries).dom().contains(k),
    decreases entries.len(),
{
    if entries.len() > 0 {
        assert forall|i: int|
            0 <= i < entries.drop_last().len() implies (#[trigger] entries.drop_last()[i]).0@
            != k by {
            assert(entries.drop_last()[i] == entries[i]);
        }
        lemma_amap_absent(entries.drop_last(), k);
        assert(entries[entries.len() - 1].0@ != k);
    }
}

/// The last entry holding a key gives the key's value in the map.
proof fn lemma_amap_last(entries: Seq<(String, String)>, i: int)
    requires
        0 <= i < entries.len(),
        forall|j: int| i < j < entries.len() ==> (#[trigger] entries[j]).0@ != entries[i].0@,
    ensures
        amap_of(entries).dom().contains(entries[i].0@),
        amap_of(entries)[entries[i].0@] == entries[i].1@,
    decreases entries.len(),
{
    if i == entries.len() - 1 {
    } else {
        assert forall|j: int|
            i < j < entries.drop_last().len() implies (#[trigger] entries.drop_last()[j]).0@
            != entries.drop_last()[i].0@ by {
            assert(entries.drop_last()[j] == entries[j]);
            assert(entries.drop_last()[i] == entries[i]);
        }
        assert(entries.drop_last()[i] == entries[i]);
        lemma_amap_last(entries.drop_last(), i);
        assert(entries[entries.len() - 1].0@ != entries[i].0@);
    }
}

/// The agency-name to abbreviation table.
pub struct AgencyTable {
    pub entries: Vec<(String, String)>,
}

impl View for AgencyTable {
    type V = Map<Seq<char>, Seq<char>>;

    open spec fn view(&self) -> Map<Seq<char>, Seq<char>> {
        amap_of(self.entries@)
    }
}

impl AgencyTable {
    /// Build the table from the agency list, keeping the entries that
    /// have a short name.
    pub fn from_agency_list(list: Vec<FrAllAgencyInfo>) -> (r: AgencyTable)
        ensures
            r@ == agencies_map(list@),
    {
        let ghost lv = list@;
        let mut entries: Vec<(String, String)> = Vec::new();
        let n = list.len();
        let mut list = list;
        let mut i: usize = 0;
        while i < n
            invariant
                n == lv.len(),
                list@ == lv,
                i <= n,
                amap_of(entries@) == agencies_map(lv.take(i as int)),
            decreases n - i,
        {
            proof {
                assert(lv.take(i as int + 1).drop_last() =~= lv.take(i as int));
                assert(lv.take(i as int + 1).last() == lv[i as int]);
            }
            let a = &list[i];
            match &a.short_name {
                Some(s) => {
                    let ghost old_entries = entries@;
                    entries.push((a.name.clone(), s.clone()));
                    proof {
                        assert(entries@.drop_last() =~= old_entries);
                    }
                },
                None => {},
            }
            i = i + 1;
        }
        proof {
            assert(lv.take(n as int) =~= lv);
        }
        AgencyTable { entries }
    }

    /// Look an agency name up; `None` when the name has no known
    /// abbreviation.
    pub fn lookup(&self, name: &String) -> (r: Option<&String>)
        ensures
            match r {
                Some(a) => self@.dom().contains(name@) && a@ == self@[name@],
                None => !self@.dom().contains(name@),
            },
    {
        let n = self.entries.len();
        let mut i: usize = n;
        while i > 0
            invariant
                n == self.entries.len(),
                i <= n,
                forall|j: int| i <= j < n ==> (#[trigger] self.entries@[j]).0@ != name@,
            decreases i,
    {
            i = i - 1;
            if str_eq(&self.entries[i].0, name.as_str()) {
                proof {
                    lemma_amap_last(self.entries@, i as int);
                }
                return Some(&self.entries[i].1);
            }
        }
        proof {
            lemma_amap_absent(self.entries@, name@);
        }
        None
    }
}

/// The names among `names` that the table knows, in order.
pub open spec fn kept_names(names: Seq<Seq<char>>, m: Map<Seq<char>, Seq<char>>) -> Seq<Seq<char>>
    decreases names.len(),
{
    if names.len() == 0 {
        Seq::empty()
    } else {
        kept_names(names.drop_last(), m) + (if m.dom().contains(names.last()) {
            seq![names.last()]
        } else {
            Seq::empty()
        })
    }
}

/// The abbreviations of the names the table knows, index-aligned to
/// `kept_names`.
pub open spec fn kept_abbrvs(names: Seq<Seq<char>>, m: Map<Seq<char>, Seq<char>>) -> Seq<
    Seq<char>,
>
    decreases names.len(),
{
    if names.len() == 0 {
        Seq::empty()
    } else {
        kept_abbrvs(names.drop_last(), m) + (if m.dom().contains(names.last()) {
            seq![m[names.last()]]
        } else {
            Seq::empty()
        })
    }
}

/// The document's agency lists after enrichment: names filtered to
/// those the table knows, abbreviations aligned to them, everything
/// else untouched.
pub open spec fn enriched_from(d2: FrDocInfo, d1: FrDocInfo, m: Map<Seq<char>, Seq<char>>) -> bool {
    &&& str_seq(d2.agency_names@) == kept_names(str_seq(d1.agency_names@), m)
    &&& (d2.agency_abbrvs matches Some(ab) && str_seq(ab@) == kept_abbrvs(
        str_seq(d1.agency_names@),
        m,
    ))
    &&& d2.abstract_text == d1.abstract_text
    &&& d2.body_html_url == d1.body_html_url
    &&& d2.cfr_references == d1.cfr_references
    &&& d2.citation == d1.citation
    &&& d2.document_number == d1.document_number
    &&& d2.end_page == d1.end_page
    &&& d2.publication_date == d1.publication_date
    &&& d2.significant == d1.significant
    &&& d2.start_page == d1.start_page
    &&& d2.title == d1.title
}

/// Filter one document's agency names down to those with a known
/// abbreviation and build the aligned abbreviation list.
pub fn enrich_agencies(doc: &mut FrDocInfo, table: &AgencyTable)
    ensures
        enriched_from(*final(doc), *old(doc), table@),
{
    let ghost nsq = str_seq(doc.agency_names@);
    let n = doc.agency_names.len();
    let mut valid: Vec<String> = Vec::new();
    let mut abbrvs: Vec<String> = Vec::new();
    let mut i: usize = 0;
    while i < n
        invariant
            *doc == *old(doc),
            nsq == str_seq(doc.agency_names@),
            n == doc.agency_names.len(),
            i <= n,
            str_seq(valid@) == kept_names(nsq.take(i as int), table@),
            str_seq(abbrvs@) == kept_abbrvs(nsq.take(i as int), table@),
        decreases n - i,
    {
        proof {
            assert(nsq.take(i as int + 1).drop_last() =~= nsq.take(i as int));
            assert(nsq.take(i as int + 1).last() == nsq[i as int]);
            assert(nsq[i as int] == doc.agency_names@[i as int]@);
        }
        let name = &doc.agency_names[i];
        match table.lookup(name) {
            Some(abbrv) => {
                let ghost old_valid = valid@;
                let ghost old_abbrvs = abbrvs@;
                let a = abbrv.clone();
                valid.push(name.clone());
                abbrvs.push(a);
                proof {
                    assert(valid@.drop_last() =~= old_valid);
                    assert(abbrvs@.drop_last() =~= old_abbrvs);
                    assert(str_seq(valid@) =~= str_seq(old_valid).push(valid@.last()@));
                    assert(str_seq(abbrvs@) =~= str_seq(old_abbrvs).push(abbrvs@.last()@));
                }
            },
            None => {},
        }
        i = i + 1;
    }
    proof {
        assert(nsq.take(n as int) =~= nsq);
    }
    doc.agency_names = valid;
    doc.agency_abbrvs = Some(abbrvs);
}

/// Enrich every merged result document.
pub fn enrich_all(search: &mut FrDocSearch, table: &AgencyTable)
    ensures
        final(search).count == old(search).count,
        final(search).description == old(search).description,
        final(search).total_pages == old(search).total_pages,
        final(search).next_page_url == old(search).next_page_url,
        old(search).results is None ==> final(search).results is None,
        old(search).results is Some ==> final(search).results is Some,
        old(search).results is Some ==> final(search).results_seq().len() == old(
            search,
        ).results_seq().len(),
        old(search).results is Some ==> (forall|i: int|
            0 <= i < old(search).results_seq().len() ==> enriched_from(
                #[trigger] final(search).results_seq()[i],
                old(search).results_seq()[i],
                table@,
            )),
{
    if search.results.is_some() {
        let mut v = search.results.take().unwrap();
        let ghost orig = v@;
        let n = v.len();
        let mut i: usize = 0;
        while i < n
            invariant
                n == v.len(),
                v@.len() == orig.len(),
                i <= n,
                forall|k: int| 0 <= k < i ==> enriched_from(#[trigger] v@[k], orig[k], table@),
                forall|k: int| i <= k < n ==> #[trigger] v@[k] == orig[k],
            decreases n - i,
        {
            let d = &mut v[i];
            proof {
                assert(*d == orig[i as int]);
            }
            enrich_agencies(d, table);
            i = i + 1;
        }
        search.results = Some(v);
    }
}

/// The digit characters of a string, in order: a part identifier with a
/// letter suffix queries under its numeric part alone.
pub open spec fn digits_of(s: Seq<char>) -> Seq<char>
    decreases s.len(),
{
    if s.len() == 0 {
        Seq::empty()
    } else {
        digits_of(s.drop_last()) + (if is_dec_digit(s.last()) {
            seq![s.last()]
        } else {
            Seq::empty()
        })
    }
}

/// Strip every non-digit character from a part identifier.
pub fn strip_nondigits(s: &String) -> (r: String)
    ensures
        r@ == digits_of(s@),
{
    let n = s.as_str().unicode_len();
    let mut r = String::new();
    let mut i: usize = 0;
    while i < n
        invariant
            n == s@.len(),
            i <= n,
            r@ == digits_of(s@.take(i as int)),
        decreases n - i,
    {
        proof {
            assert(s@.take(i as int + 1).drop_last() =~= s@.take(i as int));
            assert(s@.take(i as int + 1).last() == s@[i as int]);
        }
        let c = s.as_str().get_char(i);
        if '0' <= c && c <= '9' {
            r.push(c);
        }
        i = i + 1;
    }
    proof {
        assert(s@.take(n as int) =~= s@);
    }
    r
}

} // verus!
