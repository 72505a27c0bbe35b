//! The matcher: joins the citations extracted from one CFR part with
//! the documents the search reported for it. Each citation is held
//! against every candidate document; matches accumulate the citation's
//! divisions on the document, and citations no document covers form the
//! part's coverage gap.

use vstd::prelude::*;
use crate::cita::FrCita;
use crate::divs::{CfrDivView, DivSet, CitationMap};
use crate::docs::{FrDocNo, FrDocInfo, FrDocView};

verus! {

/// A set of document identifiers: duplicates collapse.
pub struct DocNoSet {
    pub entries: Vec<FrDocNo>,
}

impl DocNoSet {
    /// The identifier values in insertion order.
    pub open spec fn sq(self) -> Seq<Seq<char>> {
        self.entries@.map_values(|d: FrDocNo| d@)
    }

    /// No two stored identifiers have the same value.
    pub open spec fn wf(self) -> bool {
        forall|i: int, j: int| 0 <= i < j < self.sq().len() ==> self.sq()[i] != self.sq()[j]
    }

    pub fn new() -> (s: Self)
        ensures
            s.wf(),
            s@ == Set::<Seq<char>>::empty(),
            s.sq() == Seq::<Seq<char>>::empty(),
    {
        let s = DocNoSet { entries: Vec::new() };
        proof {
            assert(s.sq() =~= Seq::<Seq<char>>::empty());
            assert(s@ =~= Set::<Seq<char>>::empty());
        }
        s
    }

    /// Whether an identifier of this value is in the set.
    pub fn has(&self, d: &FrDocNo) -> (r: bool)
        ensures
            r == self@.contains(d@),
    {
        let n = self.entries.len();
        let mut i: usize = 0;
        while i < n
            invariant
                n == self.entries.len(),
                i <= n,
                forall|k: int| 0 <= k < i ==> self.sq()[k] != d@,
            decreases n - i,
        {
            if self.entries[i].0 == d.0 {
                assert(self.sq()[i as int] == d@);
                return true;
            }
            i = i + 1;
        }
        assert(!self.sq().contains(d@));
        false
    }

    /// Insert an identifier; a value already present is not duplicated.
    pub fn insert(&mut self, d: FrDocNo)
        requires
            old(self).wf(),
        ensures
            final(self).wf(),
            final(self)@ == old(self)@.insert(d@),
    {
        if self.has(&d) {
            proof {
                assert(self@ =~= old(self)@.insert(d@));
            }
        } else {
            let ghost old_sq = self.sq();
            self.entries.push(d);
            proof {
                assert(self.sq() =~= old_sq.push(d@));
                assert forall|x: Seq<char>| self@.contains(x) implies old(self)@.insert(
                    d@,
                ).contains(x) by {
                    let i = choose|i: int| 0 <= i < self.sq().len() && self.sq()[i] == x;
                    if i < old_sq.len() {
                        assert(old_sq[i] == x);
                    }
                }
                assert forall|x: Seq<char>| old(self)@.insert(d@).contains(x) implies self@
                    .contains(x) by {
                    if x == d@ {
                        assert(self.sq()[old_sq.len() as int] == x);
                    } else {
                        let i = choose|i: int| 0 <= i < old_sq.len() && old_sq[i] == x;
                        assert(self.sq()[i] == x);
                    }
                }
                assert(self@ =~= old(self)@.insert(d@));
                assert forall|i: int, j: int|
                    0 <= i < j < self.sq().len() implies self.sq()[i] != self.sq()[j] by {
                    if j < old_sq.len() {
                    } else {
                        assert(self.sq()[j] == d@);
                        assert(old_sq[i] == self.sq()[i]);
                        assert(!old(self)@.contains(d@));
                    }
                }
            }
        }
    }

    /// The identifiers this set and the other both hold.
    pub fn intersect(&self, other: &DocNoSet) -> (r: DocNoSet)
        requires
            self.wf(),
        ensures
            r.wf(),
            r@ == self@.intersect(other@),
    {
        let mut r = DocNoSet::new();
        let n = self.entries.len();
        let mut i: usize = 0;
        while i < n
            invariant
                self.wf(),
                n == self.entries.len(),
                i <= n,
                r.wf(),
                r@ =~= Set::new(|d: Seq<char>| self.sq().subrange(0, i as int).contains(d))
                    .intersect(other@),
            decreases n - i,
        {
            let ghost pre_i = self.sq().subrange(0, i as int);
            let ghost pre_i1 = self.sq().subrange(0, i as int + 1);
            proof {
                assert(pre_i1 =~= pre_i.push(self.sq()[i as int]));
                assert forall|x: Seq<char>| pre_i1.contains(x) implies pre_i.contains(x) || x
                    == self.sq()[i as int] by {
                    let k = choose|k: int| 0 <= k < pre_i1.len() && pre_i1[k] == x;
                    if k < pre_i.len() {
                        assert(pre_i[k] == x);
                    }
                }
                assert forall|x: Seq<char>| pre_i.contains(x) implies pre_i1.contains(x) by {
                    let k = choose|k: int| 0 <= k < pre_i.len() && pre_i[k] == x;
                    assert(pre_i1[k] == x);
                }
                assert(pre_i1[i as int] == self.sq()[i as int]);
                assert(pre_i1.contains(self.sq()[i as int]));
            }
            let e = &self.entries[i];
            assert(e@ == self.sq()[i as int]);
            if other.has(e) {
                r.insert(e.clone());
            }
            proof {
                assert(r@ =~= Set::new(|d: Seq<char>| pre_i1.contains(d)).intersect(other@));
            }
            i = i + 1;
        }
        proof {
            assert(self.sq().subrange(0, n as int) =~= self.sq());
            assert(r@ =~= self@.intersect(other@));
        }
        r
    }

    /// The stored identifiers, in insertion order.
    pub fn elems(&self) -> (r: &Vec<FrDocNo>)
        ensures
            r@.map_values(|d: FrDocNo| d@) == self.sq(),
    {
        &self.entries
    }

    /// The number of stored identifiers.
    pub fn len(&self) -> (r: usize)
        ensures
            r == self.sq().len(),
    {
        self.entries.len()
    }
}

impl View for DocNoSet {
    type V = Set<Seq<char>>;

    open spec fn view(&self) -> Set<Seq<char>> {
        Set::new(|d: Seq<char>| self.sq().contains(d))
    }
}

/// A set of citations: duplicates collapse.
pub struct CitaSet {
    pub entries: Vec<FrCita>,
}

impl CitaSet {
    /// No two stored citations are equal.
    pub open spec fn wf(self) -> bool {
        forall|i: int, j: int|
            0 <= i < j < self.entries@.len() ==> self.entries@[i] != self.entries@[j]
    }

    pub fn new() -> (s: Self)
        ensures
            s.wf(),
            s@ == Set::<FrCita>::empty(),
            s.entries@ == Seq::<FrCita>::empty(),
    {
        let s = CitaSet { entries: Vec::new() };
        proof {
            assert(s@ =~= Set::<FrCita>::empty());
        }
        s
    }

    /// Whether the citation is in the set.
    pub fn has(&self, c: FrCita) -> (r: bool)
        ensures
            r == self@.contains(c),
    {
        let n = self.entries.len();
        let mut i: usize = 0;
        while i < n
            invariant
                n == self.entries.len(),
                i <= n,
                forall|k: int| 0 <= k < i ==> self.entries@[k] != c,
            decreases n - i,
        {
            if self.entries[i] == c {
                assert(self.entries@.contains(c));
                return true;
            }
            i = i + 1;
        }
        assert(!self.entries@.contains(c));
        false
    }

    /// Insert a citation; one already present is not duplicated.
    pub fn insert(&mut self, c: FrCita)
        requires
            old(self).wf(),
        ensures
            final(self).wf(),
            final(self)@ == old(self)@.insert(c),
    {
        if self.has(c) {
            proof {
                assert(self@ =~= old(self)@.insert(c));
            }
        } else {
            let ghost old_sq = self.entries@;
            self.entries.push(c);
            proof {
                assert(self.entries@ =~= old_sq.push(c));
                assert forall|x: FrCita| self@.contains(x) implies old(self)@.insert(c).contains(
                    x,
                ) by {
                    let i = choose|i: int| 0 <= i < self.entries@.len() && self.entries@[i] == x;
                    if i < old_sq.len() {
                        assert(old_sq[i] == x);
                    }
                }
                assert forall|x: FrCita| old(self)@.insert(c).contains(x) implies self@.contains(
                    x,
                ) by {
                    if x == c {
                        assert(self.entries@[old_sq.len() as int] == x);
                    } else {
                        let i = choose|i: int| 0 <= i < old_sq.len() && old_sq[i] == x;
                        assert(self.entries@[i] == x);
                    }
                }
                assert(self@ =~= old(self)@.insert(c));
            }
        }
    }

    /// The stored citations, in insertion order.
    pub fn elems(&self) -> (r: &Vec<FrCita>)
        ensures
            r@ == self.entries@,
    {
        &self.entries
    }

    /// The number of stored citations.
    pub fn len(&self) -> (r: usize)
        ensures
            r == self.entries@.len(),
    {
        self.entries.len()
    }
}

impl View for CitaSet {
    type V = Set<FrCita>;

    open spec fn view(&self) -> Set<FrCita> {
        Set::new(|c: FrCita| self.entries@.contains(c))
    }
}

/// The map a list of attributed-document entries stands for.
pub open spec fn dmap_of(entries: Seq<(FrDocNo, DivSet, FrDocInfo)>) -> Map<
    Seq<char>,
    (Set<CfrDivView>, FrDocView),
>
    decreases entries.len(),
{
    if entries.len() == 0 {
        Map::empty()
    } else {
        dmap_of(entries.drop_last()).insert(
            entries.last().0@,
            (entries.last().1@, entries.last().2@),
        )
    }
}

/// No two entries share a document identifier.
pub open spec fn unique_docnos(entries: Seq<(FrDocNo, DivSet, FrDocInfo)>) -> bool {
    forall|i: int, j: int|
        0 <= i < j < entries.len() ==> (#[trigger] entries[i]).0@ != (#[trigger] entries[j]).0@
}

proof fn lemma_dmap_dom(entries: Seq<(FrDocNo, DivSet, FrDocInfo)>)
    ensures
        forall|k: Seq<char>|
            dmap_of(entries).dom().contains(k) <==> exists|i: int|
                0 <= i < entries.len() && (#[trigger] entries[i]).0@ == k,
    decreases entries.len(),
{
    if entries.len() > 0 {
        lemma_dmap_dom(entries.drop_last());
        assert forall|k: Seq<char>| dmap_of(entries).dom().contains(k) implies exists|i: int|
            0 <= i < entries.len() && (#[trigger] entries[i]).0@ == k by {
            if k == entries.last().0@ {
                assert(entries[entries.len() - 1].0@ == k);
            } else {
                assert(dmap_of(entries.drop_last()).dom().contains(k));
                let i = choose|i: int|
                    0 <= i < entries.drop_last().len() && (#[trigger] entries.drop_last()[i]).0@
                        == k;
                assert(entries[i].0@ == k);
            }
        }
        assert forall|k: Seq<char>|
            exists|i: int|
                0 <= i < entries.len() && (#[trigger] entries[i]).0@ == k implies dmap_of(
            entries,
        ).dom().contains(k) by {
            let i = choose|i: int| 0 <= i < entries.len() && (#[trigger] entries[i]).0@ == k;
            if i < entries.len() - 1 {
                assert(entries.drop_last()[i].0@ == k);
                assert(exists|j: int|
                    0 <= j < entries.drop_last().len() && (#[trigger] entries.drop_last()[j]).0@
                        == k);
                assert(dmap_of(entries.drop_last()).dom().contains(k));
            } else {
                assert(k == entries.last().0@);
            }
        }
    }
}

proof fn lemma_dmap_at(entries: Seq<(FrDocNo, DivSet, FrDocInfo)>, i: int)
    requires
        unique_docnos(entries),
        0 <= i < entries.len(),
    ensures
        dmap_of(entries).dom().contains(entries[i].0@),
        dmap_of(entries)[entries[i].0@] == (entries[i].1@, entries[i].2@),
    decreases entries.len(),
{
    if i < entries.len() - 1 {
        assert(entries.drop_last()[i] == entries[i]);
        assert forall|k: int, j: int|
            0 <= k < j < entries.drop_last().len() implies (#[trigger] entries.drop_last()[k]).0@
            != (#[trigger] entries.drop_last()[j]).0@ by {
            assert(entries.drop_last()[k] == entries[k]);
            assert(entries.drop_last()[j] == entries[j]);
        }
        lemma_dmap_at(entries.drop_last(), i);
        assert(entries[i].0@ != entries.last().0@);
    }
}

proof fn lemma_dmap_update(entries: Seq<(FrDocNo, DivSet, FrDocInfo)>, i: int, v: DivSet)
    requires
        unique_docnos(entries),
        0 <= i < entries.len(),
    ensures
        dmap_of(entries.update(i, (entries[i].0, v, entries[i].2))) =~= dmap_of(entries).insert(
            entries[i].0@,
            (v@, entries[i].2@),
        ),
    decreases entries.len(),
{
    let e2 = entries.update(i, (entries[i].0, v, entries[i].2));
    if i == entries.len() - 1 {
        assert(e2.drop_last() =~= entries.drop_last());
        assert(e2.last() == (entries[i].0, v, entries[i].2));
        assert(dmap_of(entries.drop_last()).insert(entries[i].0@, (v@, entries[i].2@))
            =~= dmap_of(entries.drop_last()).insert(
            entries.last().0@,
            (entries.last().1@, entries.last().2@),
        ).insert(entries[i].0@, (v@, entries[i].2@)));
    } else {
        assert(e2.drop_last() =~= entries.drop_last().update(i, (entries[i].0, v, entries[i].2)));
        assert forall|k: int, j: int|
            0 <= k < j < entries.drop_last().len() implies (#[trigger] entries.drop_last()[k]).0@
            != (#[trigger] entries.drop_last()[j]).0@ by {
            assert(entries.drop_last()[k] == entries[k]);
            assert(entries.drop_last()[j] == entries[j]);
        }
        assert(entries.drop_last()[i] == entries[i]);
        lemma_dmap_update(entries.drop_last(), i, v);
        assert(entries[i].0@ != entries.last().0@);
        assert(e2.last() == entries.last());
    }
}

/// The accumulated set of attributed documents across all processed
/// parts: each document's identifier mapped to the divisions that
/// reference it and its metadata.
pub struct DocDb {
    pub entries: Vec<(FrDocNo, DivSet, FrDocInfo)>,
}

impl DocDb {
    /// Unique identifiers, well-formed division sets.
    pub open spec fn wf(self) -> bool {
        &&& unique_docnos(self.entries@)
        &&& forall|i: int| 0 <= i < self.entries@.len() ==> (#[trigger] self.entries@[i]).1.wf()
    }

    pub fn new() -> (s: Self)
        ensures
            s.wf(),
            s@ == Map::<Seq<char>, (Set<CfrDivView>, FrDocView)>::empty(),
    {
        DocDb { entries: Vec::new() }
    }

    /// Attribute a document: union the divisions into its entry,
    /// creating the entry with the document's metadata when it is new.
    pub fn add_attribution(&mut self, divs: &DivSet, doc: &FrDocInfo)
        requires
            old(self).wf(),
            divs.wf(),
        ensures
            final(self).wf(),
            final(self)@ == attribute_doc(old(self)@, divs@, *doc),
    {
        proof {
            lemma_dmap_dom(self.entries@);
        }
        let ghost orig = *self;
        let n = self.entries.len();
        let mut i: usize = 0;
        while i < n
            invariant
                *self == orig,
                orig == *old(self),
                orig.wf(),
                n == self.entries.len(),
                i <= n,
                forall|k: int| 0 <= k < i ==> (#[trigger] self.entries@[k]).0@ != doc.document_number@,
            decreases n - i,
        {
            if self.entries[i].0.0 == doc.document_number.0 {
                proof {
                    assert(unique_docnos(self.entries@));
                    lemma_dmap_at(self.entries@, i as int);
                    assert(orig.entries@[i as int].1.wf());
                }
                let ghost old_entries = self.entries@;
                let slot = &mut self.entries[i];
                slot.1.union_from(divs);
                proof {
                    assert(self.entries@ =~= old_entries.update(
                        i as int,
                        (old_entries[i as int].0, self.entries@[i as int].1, old_entries[i as int].2),
                    ));
                    lemma_dmap_update(old_entries, i as int, self.entries@[i as int].1);
                    assert(doc.document_number@ == old_entries[i as int].0@);
                    assert(self.entries@[i as int].1@ =~= old(self)@[doc.document_number@].0.union(
                        divs@,
                    ));
                    assert(self@ =~= attribute_doc(old(self)@, divs@, *doc));
                    assert forall|a: int, b: int|
                        0 <= a < b < self.entries@.len() implies (#[trigger] self.entries@[a]).0@
                        != (#[trigger] self.entries@[b]).0@ by {
                        assert(self.entries@[a].0 == old_entries[a].0);
                        assert(self.entries@[b].0 == old_entries[b].0);
                    }
                    assert forall|a: int|
                        0 <= a < self.entries@.len() implies (#[trigger] self.entries@[a]).1.wf() by {
                        if a != i as int {
                            assert(self.entries@[a] == old_entries[a]);
                            assert(orig.entries@[a].1.wf());
                        }
                    }
                }
                return ;
            }
            i = i + 1;
        }
        let mut nd = DivSet::new();
        nd.union_from(divs);
        let ghost old_entries = self.entries@;
        self.entries.push((doc.document_number.clone(), nd, doc.clone()));
        proof {
            assert(self.entries@.drop_last() =~= old_entries);
            assert(!old(self)@.dom().contains(doc.document_number@));
            assert(Set::<CfrDivView>::empty().union(divs@) =~= nd@);
            assert(self@ =~= attribute_doc(old(self)@, divs@, *doc));
            assert forall|k: int, j: int|
                0 <= k < j < self.entries@.len() implies (#[trigger] self.entries@[k]).0@
                != (#[trigger] self.entries@[j]).0@ by {
                if j < old_entries.len() {
                    assert(old_entries[k] == self.entries@[k]);
                    assert(old_entries[j] == self.entries@[j]);
                } else {
                    assert(self.entries@[j].0@ == doc.document_number@);
                    assert(old_entries[k] == self.entries@[k]);
                }
            }
        }
    }

    /// The stored entries, in first-attribution order.
    pub fn entry_at(&self, i: usize) -> (r: &(FrDocNo, DivSet, FrDocInfo))
        requires
            self.wf(),
            i < self.entries@.len(),
        ensures
            r == self.entries@[i as int],
            self@.dom().contains(r.0@),
            self@[r.0@] == (r.1@, r.2@),
    {
        proof {
            lemma_dmap_at(self.entries@, i as int);
        }
        &self.entries[i]
    }

    /// The number of attributed documents.
    pub fn len(&self) -> (r: usize)
        ensures
            r == self.entries@.len(),
    {
        self.entries.len()
    }
}

impl View for DocDb {
    type V = Map<Seq<char>, (Set<CfrDivView>, FrDocView)>;

    open spec fn view(&self) -> Map<Seq<char>, (Set<CfrDivView>, FrDocView)> {
        dmap_of(self.entries@)
    }
}

/// Attributing one matched document: its entry accumulates the
/// citation's divisions; a new entry records the document's metadata.
pub open spec fn attribute_doc(
    db: Map<Seq<char>, (Set<CfrDivView>, FrDocView)>,
    divs: Set<CfrDivView>,
    d: FrDocInfo,
) -> Map<Seq<char>, (Set<CfrDivView>, FrDocView)> {
    let dn = d.document_number@;
    db.insert(
        dn,
        (
            (if db.dom().contains(dn) {
                db[dn].0
            } else {
                Set::empty()
            }).union(divs),
            if db.dom().contains(dn) {
                db[dn].1
            } else {
                d@
            },
        ),
    )
}

/// The database after holding one citation against the first `j`
/// candidate documents.
pub open spec fn db_after_cita(
    db: Map<Seq<char>, (Set<CfrDivView>, FrDocView)>,
    c: FrCita,
    divs: Set<CfrDivView>,
    docs: Seq<FrDocInfo>,
    j: int,
) -> Map<Seq<char>, (Set<CfrDivView>, FrDocView)>
    decreases j,
{
    if j <= 0 {
        db
    } else {
        let db2 = db_after_cita(db, c, divs, docs, j - 1);
        if docs[j - 1].matches_cita(c) {
            attribute_doc(db2, divs, docs[j - 1])
        } else {
            db2
        }
    }
}

/// The attributed-identifier set after holding one citation against the
/// first `j` candidate documents.
pub open spec fn att_after_cita(att: Set<Seq<char>>, c: FrCita, docs: Seq<FrDocInfo>, j: int) -> Set<
    Seq<char>,
>
    decreases j,
{
    if j <= 0 {
        att
    } else {
        let att2 = att_after_cita(att, c, docs, j - 1);
        if docs[j - 1].matches_cita(c) {
            att2.insert(docs[j - 1].document_number@)
        } else {
            att2
        }
    }
}

/// Whether any of the documents covers the citation.
pub open spec fn any_match(c: FrCita, docs: Seq<FrDocInfo>) -> bool {
    exists|i: int| 0 <= i < docs.len() && (#[trigger] docs[i]).matches_cita(c)
}

/// The matcher's state: the cross-part document database, the part's
/// attributed documents, and its unattributed citations.
pub ghost struct MatchState {
    pub db: Map<Seq<char>, (Set<CfrDivView>, FrDocView)>,
    pub att: Set<Seq<char>>,
    pub unatt: Set<FrCita>,
}

/// The matcher's state after processing the first `k` citations.
pub open spec fn match_fold(
    st: MatchState,
    keys: Seq<FrCita>,
    cmap: Map<FrCita, Set<CfrDivView>>,
    docs: Seq<FrDocInfo>,
    k: int,
) -> MatchState
    decreases k,
{
    if k <= 0 {
        st
    } else {
        let st2 = match_fold(st, keys, cmap, docs, k - 1);
        let c = keys[k - 1];
        MatchState {
            db: db_after_cita(st2.db, c, cmap[c], docs, docs.len() as int),
            att: att_after_cita(st2.att, c, docs, docs.len() as int),
            unatt: if any_match(c, docs) {
                st2.unatt
            } else {
                st2.unatt.insert(c)
            },
        }
    }
}

/// Match every extracted citation of one part against the part's
/// candidate documents: accumulates attributions in the cross-part
/// database and yields the part's attributed-document set and its
/// unattributed citations.
pub fn match_part(citas: &CitationMap, docs: &Vec<FrDocInfo>, db: &mut DocDb) -> (cov: (
    DocNoSet,
    CitaSet,
))
    requires
        citas.wf(),
        old(db).wf(),
        forall|i: int| 0 <= i < docs@.len() ==> (#[trigger] docs@[i]).citation_wf(),
    ensures
        final(db).wf(),
        cov.0.wf(),
        cov.1.wf(),
        ({
            let end = match_fold(
                MatchState { db: old(db)@, att: Set::empty(), unatt: Set::empty() },
                citas.keys(),
                citas@,
                docs@,
                citas.keys().len() as int,
            );
            final(db)@ == end.db && cov.0@ == end.att && cov.1@ == end.unatt
        }),
{
    let ghost st0 = MatchState { db: db@, att: Set::empty(), unatt: Set::empty() };
    let mut attributed = DocNoSet::new();
    let mut unattributed = CitaSet::new();
    let nk = citas.len();
    let mut k: usize = 0;
    while k < nk
        invariant
            citas.wf(),
            forall|i: int| 0 <= i < docs@.len() ==> (#[trigger] docs@[i]).citation_wf(),
            nk == citas.keys().len(),
            k <= nk,
            db.wf(),
            attributed.wf(),
            unattributed.wf(),
            st0 == (MatchState { db: old(db)@, att: Set::empty(), unatt: Set::empty() }),
            match_fold(st0, citas.keys(), citas@, docs@, k as int) == (MatchState {
                db: db@,
                att: attributed@,
                unatt: unattributed@,
            }),
        decreases nk - k,
    {
        let c = citas.key_at(k);
        let divs = citas.divs_at(k);
        let ghost dbk = db@;
        let ghost attk = attributed@;
        let nd = docs.len();
        let mut matched = false;
        let mut j: usize = 0;
        while j < nd
            invariant
                citas.wf(),
                forall|i: int| 0 <= i < docs@.len() ==> (#[trigger] docs@[i]).citation_wf(),
                nd == docs@.len(),
                j <= nd,
                k < citas.keys().len(),
                c == citas.keys()[k as int],
                divs.wf(),
                divs@ == citas@[c],
                db.wf(),
                attributed.wf(),
                db@ == db_after_cita(dbk, c, divs@, docs@, j as int),
                attributed@ == att_after_cita(attk, c, docs@, j as int),
                matched == exists|i: int|
                    0 <= i < j && (#[trigger] docs@[i]).matches_cita(c),
            decreases nd - j,
        {
            let doc = &docs[j];
            if doc.contains(&c) {
                db.add_attribution(divs, doc);
                attributed.insert(doc.document_number.clone());
                matched = true;
                proof {
                    assert(docs@[j as int].matches_cita(c));
                    assert(exists|i: int|
                        0 <= i < j + 1 && (#[trigger] docs@[i]).matches_cita(c));
                }
            } else {
                proof {
                    if exists|i: int| 0 <= i < j + 1 && (#[trigger] docs@[i]).matches_cita(c) {
                        let i = choose|i: int|
                            0 <= i < j + 1 && (#[trigger] docs@[i]).matches_cita(c);
                        assert(i < j || i == j);
                    }
                }
            }
            j = j + 1;
        }
        if !matched {
            unattributed.insert(c);
        }
        proof {
            assert(match_fold(st0, citas.keys(), citas@, docs@, k as int + 1) == (MatchState {
                db: db@,
                att: attributed@,
                unatt: unattributed@,
            }));
        }
        k = k + 1;
    }
    proof {
        assert(k == citas.keys().len());
    }
    (attributed, unattributed)
}

} // verus!
