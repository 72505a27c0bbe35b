//! CFR parts and structural divisions, and the two small containers the
//! extractor fills: a set of divisions and a map from citation to the
//! divisions it was seen in.

use vstd::prelude::*;
use crate::cita::FrCita;
use crate::error::FatalError;
use crate::text::str_eq;

verus! {

/// One Title/Part division of the regulation.
#[derive(Debug, PartialEq, Eq, Hash)]
pub struct CfrPart {
    pub title: String,
    pub part: String,
}

/// The mathematical value of a `CfrPart`.
pub ghost struct CfrPartView {
    pub title: Seq<char>,
    pub part: Seq<char>,
}

impl View for CfrPart {
    type V = CfrPartView;

    open spec fn view(&self) -> CfrPartView {
        CfrPartView { title: self.title@, part: self.part@ }
    }
}

impl Clone for CfrPart {
    fn clone(&self) -> (r: Self)
        ensures
            r@ == self@,
    {
        CfrPart { title: self.title.clone(), part: self.part.clone() }
    }
}

/// Refuse the one fully reserved title before any fetch is made for
/// it.
pub fn check_title_selector(title: &String) -> (r: Result<(), FatalError>)
    ensures
        title@ == seq!['3', '5'] ==> (r matches Err(e) && e == FatalError::ReservedTitle),
        title@ != seq!['3', '5'] ==> r is Ok,
{
    proof {
        reveal_strlit("35");
        assert("35"@ =~= seq!['3', '5']);
    }
    if str_eq(title, "35") {
        Err(FatalError::ReservedTitle)
    } else {
        Ok(())
    }
}

/// The structural location within a CFR part where a citation appears.
/// The word count is a placeholder, always zero in this version.
#[derive(Debug, PartialEq, Eq, Hash)]
pub struct CfrDivInfo {
    pub name: String,
    pub ty: String,
    pub word_count: u32,
}

/// The mathematical value of a `CfrDivInfo`.
pub ghost struct CfrDivView {
    pub name: Seq<char>,
    pub ty: Seq<char>,
    pub word_count: u32,
}

impl View for CfrDivInfo {
    type V = CfrDivView;

    open spec fn view(&self) -> CfrDivView {
        CfrDivView { name: self.name@, ty: self.ty@, word_count: self.word_count }
    }
}

impl Clone for CfrDivInfo {
    fn clone(&self) -> (r: Self)
        ensures
            r@ == self@,
    {
        CfrDivInfo { name: self.name.clone(), ty: self.ty.clone(), word_count: self.word_count }
    }
}

impl CfrDivInfo {
    /// Value equality: the two divisions have the same name, type and
    /// word count.
    pub fn same(&self, other: &CfrDivInfo) -> (r: bool)
        ensures
            r == (self@ == other@),
    {
        self.name == other.name && self.ty == other.ty && self.word_count == other.word_count
    }
}

/// A set of division descriptors: duplicates collapse.
pub struct DivSet {
    pub entries: Vec<CfrDivInfo>,
}

impl DivSet {
    /// The element views in insertion order.
    pub open spec fn sq(self) -> Seq<CfrDivView> {
        self.entries@.map_values(|d: CfrDivInfo| d@)
    }

    /// No two stored elements have the same value.
    pub open spec fn wf(self) -> bool {
        forall|i: int, j: int| 0 <= i < j < self.sq().len() ==> self.sq()[i] != self.sq()[j]
    }

    pub fn new() -> (s: Self)
        ensures
            s.wf(),
            s@ == Set::<CfrDivView>::empty(),
            s.sq() == Seq::<CfrDivView>::empty(),
    {
        let s = DivSet { entries: Vec::new() };
        proof {
            assert(s.sq() =~= Seq::<CfrDivView>::empty());
            assert(s@ =~= Set::<CfrDivView>::empty());
        }
        s
    }

    /// Whether a division of this value is in the set.
    pub fn has(&self, d: &CfrDivInfo) -> (r: bool)
        ensures
            r == self@.contains(d@),
    {
        let n = self.entries.len();
        let mut i: usize = 0;
        while i < n
            invariant
                n == self.entries.len(),
                i <= n,
                forall|k: int| 0 <= k < i ==> self.sq()[k] != d@,
            decreases n - i,
        {
            if self.entries[i].same(d) {
                assert(self.sq()[i as int] == d@);
                return true;
            }
            i = i + 1;
        }
        assert(!self.sq().contains(d@));
        false
    }

    /// Insert a division; a value already present is not duplicated.
    pub fn insert(&mut self, d: CfrDivInfo)
        requires
            old(self).wf(),
        ensures
            final(self).wf(),
            final(self)@ == old(self)@.insert(d@),
    {
        if self.has(&d) {
            proof {
                assert(self@ =~= old(self)@.insert(d@));
            }
        } else {
            let ghost old_sq = self.sq();
            self.entries.push(d);
            proof {
                assert(self.sq() =~= old_sq.push(d@));
                assert forall|x: CfrDivView| self@.contains(x) implies old(self)@.insert(
                    d@,
                ).contains(x) by {
                    let i = choose|i: int| 0 <= i < self.sq().len() && self.sq()[i] == x;
                    if i < old_sq.len() {
                        assert(old_sq[i] == x);
                    }
                }
                assert forall|x: CfrDivView| old(self)@.insert(d@).contains(x) implies self@
                    .contains(x) by {
                    if x == d@ {
                        assert(self.sq()[old_sq.len() as int] == x);
                    } else {
                        let i = choose|i: int| 0 <= i < old_sq.len() && old_sq[i] == x;
                        assert(self.sq()[i] == x);
                    }
                }
                assert(self@ =~= old(self)@.insert(d@));
                assert forall|i: int, j: int|
                    0 <= i < j < self.sq().len() implies self.sq()[i] != self.sq()[j] by {
                    if j < old_sq.len() {
                    } else {
                        assert(self.sq()[j] == d@);
                        assert(old_sq[i] == self.sq()[i]);
                        assert(!old(self)@.contains(d@));
                    }
                }
            }
        }
    }

    /// Union another set into this one.
    pub fn union_from(&mut self, other: &DivSet)
        requires
            old(self).wf(),
        ensures
            final(self).wf(),
            final(self)@ == old(self)@.union(other@),
    {
        let n = other.entries.len();
        let mut i: usize = 0;
        while i < n
            invariant
                n == other.entries.len(),
                i <= n,
                self.wf(),
                self@ =~= old(self)@.union(
                    Set::new(|x: CfrDivView| other.sq().subrange(0, i as int).contains(x)),
                ),
            decreases n - i,
        {
            let ghost prev = self@;
            let d = other.entries[i].clone();
            assert(d@ == other.sq()[i as int]);
            self.insert(d);
            proof {
                let pre_i = other.sq().subrange(0, i as int);
                let pre_i1 = other.sq().subrange(0, i as int + 1);
                assert(pre_i1 =~= pre_i.push(other.sq()[i as int]));
                assert forall|x: CfrDivView| pre_i1.contains(x) implies pre_i.contains(x) || x
                    == other.sq()[i as int] by {
                    let k = choose|k: int| 0 <= k < pre_i1.len() && pre_i1[k] == x;
                    if k < pre_i.len() {
                        assert(pre_i[k] == x);
                    }
                }
                assert forall|x: CfrDivView| pre_i.contains(x) implies pre_i1.contains(x) by {
                    let k = choose|k: int| 0 <= k < pre_i.len() && pre_i[k] == x;
                    assert(pre_i1[k] == x);
                }
                assert(pre_i1[i as int] == other.sq()[i as int]);
                assert(pre_i1.contains(other.sq()[i as int]));
                assert(self@ =~= old(self)@.union(Set::new(|x: CfrDivView| pre_i1.contains(x))));
            }
            i = i + 1;
        }
        proof {
            assert(other.sq().subrange(0, n as int) =~= other.sq());
            assert forall|x: CfrDivView| other@.contains(x) implies Set::new(
                |y: CfrDivView| other.sq().subrange(0, n as int).contains(y),
            ).contains(x) by {}
            assert(self@ =~= old(self)@.union(other@));
        }
    }

    /// The number of stored divisions.
    pub fn len(&self) -> (r: usize)
        ensures
            r == self.sq().len(),
    {
        self.entries.len()
    }

    /// The stored divisions, in insertion order.
    pub fn elems(&self) -> (r: &Vec<CfrDivInfo>)
        ensures
            r@.map_values(|d: CfrDivInfo| d@) == self.sq(),
    {
        &self.entries
    }
}

impl View for DivSet {
    type V = Set<CfrDivView>;

    open spec fn view(&self) -> Set<CfrDivView> {
        Set::new(|d: CfrDivView| self.sq().contains(d))
    }
}

/// The map a list of keyed entries stands for: later entries override
/// earlier ones.
pub open spec fn cmap_of(entries: Seq<(FrCita, DivSet)>) -> Map<FrCita, Set<CfrDivView>>
    decreases entries.len(),
{
    if entries.len() == 0 {
        Map::empty()
    } else {
        cmap_of(entries.drop_last()).insert(entries.last().0, entries.last().1@)
    }
}

/// No two entries share a key.
pub open spec fn unique_keys(entries: Seq<(FrCita, DivSet)>) -> bool {
    forall|i: int, j: int|
        0 <= i < j < entries.len() ==> (#[trigger] entries[i]).0 != (#[trigger] entries[j]).0
}

/// The domain of the entry map is exactly the keys that occur.
proof fn lemma_cmap_dom(entries: Seq<(FrCita, DivSet)>)
    ensures
        forall|c: FrCita|
            cmap_of(entries).dom().contains(c) <==> exists|i: int|
                0 <= i < entries.len() && (#[trigger] entries[i]).0 == c,
    decreases entries.len(),
{
    if entries.len() > 0 {
        lemma_cmap_dom(entries.drop_last());
        assert forall|c: FrCita| cmap_of(entries).dom().contains(c) implies exists|i: int|
            0 <= i < entries.len() && (#[trigger] entries[i]).0 == c by {
            if c == entries.last().0 {
                assert(entries[entries.len() - 1].0 == c);
            } else {
                assert(cmap_of(entries.drop_last()).dom().contains(c));
                let i = choose|i: int|
                    0 <= i < entries.drop_last().len() && (#[trigger] entries.drop_last()[i]).0
                        == c;
                assert(entries[i].0 == c);
            }
        }
        assert forall|c: FrCita|
            exists|i: int|
                0 <= i < entries.len() && (#[trigger] entries[i]).0 == c implies cmap_of(
            entries,
        ).dom().contains(c) by {
            let i = choose|i: int| 0 <= i < entries.len() && (#[trigger] entries[i]).0 == c;
            if i < entries.len() - 1 {
                assert(entries.drop_last()[i].0 == c);
                assert(exists|j: int|
                    0 <= j < entries.drop_last().len() && (#[trigger] entries.drop_last()[j]).0
                        == c);
                assert(cmap_of(entries.drop_last()).dom().contains(c));
            } else {
                assert(c == entries.last().0);
            }
        }
    }
}

/// With unique keys, the map sends each entry's key to its value.
proof fn lemma_cmap_at(entries: Seq<(FrCita, DivSet)>, i: int)
    requires
        unique_keys(entries),
        0 <= i < entries.len(),
    ensures
        cmap_of(entries).dom().contains(entries[i].0),
        cmap_of(entries)[entries[i].0] == entries[i].1@,
    decreases entries.len(),
{
    if i < entries.len() - 1 {
        assert(entries.drop_last()[i] == entries[i]);
        assert forall|k: int, j: int|
            0 <= k < j < entries.drop_last().len() implies (#[trigger] entries.drop_last()[k]).0
            != (#[trigger] entries.drop_last()[j]).0 by {
            assert(entries.drop_last()[k] == entries[k]);
            assert(entries.drop_last()[j] == entries[j]);
        }
        lemma_cmap_at(entries.drop_last(), i);
        assert(entries[i].0 != entries.last().0);
    }
}

/// With unique keys, replacing one entry's value updates just that key.
proof fn lemma_cmap_update(entries: Seq<(FrCita, DivSet)>, i: int, v: DivSet)
    requires
        unique_keys(entries),
        0 <= i < entries.len(),
    ensures
        cmap_of(entries.update(i, (entries[i].0, v))) =~= cmap_of(entries).insert(
            entries[i].0,
            v@,
        ),
    decreases entries.len(),
{
    let e2 = entries.update(i, (entries[i].0, v));
    if i == entries.len() - 1 {
        assert(e2.drop_last() =~= entries.drop_last());
        assert(e2.last() == (entries[i].0, v));
        assert(cmap_of(entries.drop_last()).insert(entries[i].0, v@) =~= cmap_of(
            entries.drop_last(),
        ).insert(entries.last().0, entries.last().1@).insert(entries[i].0, v@));
    } else {
        assert(e2.drop_last() =~= entries.drop_last().update(i, (entries[i].0, v)));
        assert forall|k: int, j: int|
            0 <= k < j < entries.drop_last().len() implies (#[trigger] entries.drop_last()[k]).0
            != (#[trigger] entries.drop_last()[j]).0 by {
            assert(entries.drop_last()[k] == entries[k]);
            assert(entries.drop_last()[j] == entries[j]);
        }
        assert(entries.drop_last()[i] == entries[i]);
        lemma_cmap_update(entries.drop_last(), i, v);
        assert(entries[i].0 != entries.last().0);
        assert(e2.last() == entries.last());
    }
}

/// The mapping from each Federal Register citation found in a part's
/// markup to the set of divisions it was encountered in.
pub struct CitationMap {
    pub entries: Vec<(FrCita, DivSet)>,
}

impl CitationMap {
    /// The citations in first-encounter order.
    pub open spec fn keys(self) -> Seq<FrCita> {
        self.entries@.map_values(|e: (FrCita, DivSet)| e.0)
    }

    /// Keys are unique and every stored division set is well formed.
    pub open spec fn wf(self) -> bool {
        &&& unique_keys(self.entries@)
        &&& forall|i: int| 0 <= i < self.entries@.len() ==> (#[trigger] self.entries@[i]).1.wf()
    }

    /// The division set recorded for a citation, empty when the
    /// citation is new.
    pub open spec fn divs_or_empty(self, c: FrCita) -> Set<CfrDivView> {
        if self@.dom().contains(c) {
            self@[c]
        } else {
            Set::empty()
        }
    }

    pub fn new() -> (s: Self)
        ensures
            s.wf(),
            s@ == Map::<FrCita, Set<CfrDivView>>::empty(),
            s.keys() == Seq::<FrCita>::empty(),
    {
        let s = CitationMap { entries: Vec::new() };
        proof {
            assert(s.keys() =~= Seq::<FrCita>::empty());
        }
        s
    }

    /// Record one division for one citation, creating the citation's
    /// entry if it is new.
    pub fn add_div(&mut self, c: FrCita, d: CfrDivInfo)
        requires
            old(self).wf(),
        ensures
            final(self).wf(),
            final(self)@ == old(self)@.insert(c, old(self).divs_or_empty(c).insert(d@)),
            old(self)@.dom().contains(c) ==> final(self).keys() == old(self).keys(),
            !old(self)@.dom().contains(c) ==> final(self).keys() == old(self).keys().push(c),
    {
        proof {
            lemma_cmap_dom(self.entries@);
        }
        let ghost orig = *self;
        let n = self.entries.len();
        let mut i: usize = 0;
        while i < n
            invariant
                *self == orig,
                orig == *old(self),
                orig.wf(),
                n == self.entries.len(),
                i <= n,
                forall|k: int| 0 <= k < i ==> (#[trigger] self.entries@[k]).0 != c,
            decreases n - i,
        {
            if self.entries[i].0 == c {
                proof {
                    assert(unique_keys(self.entries@));
                    lemma_cmap_at(self.entries@, i as int);
                    assert(orig.entries@[i as int].1.wf());
                }
                let ghost old_entries = self.entries@;
                let slot = &mut self.entries[i];
                slot.1.insert(d);
                proof {
                    assert(self.entries@ =~= old_entries.update(
                        i as int,
                        (c, self.entries@[i as int].1),
                    ));
                    lemma_cmap_update(old_entries, i as int, self.entries@[i as int].1);
                    assert(self.keys() =~= old(self).keys());
                    assert forall|k: int, j: int|
                        0 <= k < j < self.entries@.len() implies (#[trigger] self.entries@[k]).0
                        != (#[trigger] self.entries@[j]).0 by {
                        assert(old_entries[k].0 == self.entries@[k].0);
                        assert(old_entries[j].0 == self.entries@[j].0);
                    }
                }
                return ;
            }
            i = i + 1;
        }
        let mut ds = DivSet::new();
        ds.insert(d);
        let ghost old_entries = self.entries@;
        self.entries.push((c, ds));
        proof {
            assert(self.entries@.drop_last() =~= old_entries);
            assert(!old(self)@.dom().contains(c));
            assert(Set::<CfrDivView>::empty().insert(d@) =~= ds@);
            assert(self.keys() =~= old(self).keys().push(c));
            assert forall|k: int, j: int|
                0 <= k < j < self.entries@.len() implies (#[trigger] self.entries@[k]).0
                != (#[trigger] self.entries@[j]).0 by {
                if j < old_entries.len() {
                    assert(old_entries[k].0 == self.entries@[k].0);
                    assert(old_entries[j].0 == self.entries@[j].0);
                } else {
                    assert(self.entries@[j].0 == c);
                    assert(old_entries[k].0 == self.entries@[k].0);
                }
            }
        }
    }

    /// The number of distinct citations recorded.
    pub fn len(&self) -> (r: usize)
        ensures
            r == self.keys().len(),
    {
        self.entries.len()
    }

    /// The citation at one position of the first-encounter order.
    pub fn key_at(&self, i: usize) -> (r: FrCita)
        requires
            i < self.keys().len(),
        ensures
            r == self.keys()[i as int],
    {
        self.entries[i].0
    }

    /// The division set recorded for the citation at one position.
    pub fn divs_at(&self, i: usize) -> (r: &DivSet)
        requires
            self.wf(),
            i < self.keys().len(),
        ensures
            r@ == self@[self.keys()[i as int]],
            r.wf(),
            self@.dom().contains(self.keys()[i as int]),
    {
        proof {
            lemma_cmap_at(self.entries@, i as int);
        }
        &self.entries[i].1
    }

    /// The recorded citations as a list, in first-encounter order.
    pub fn keys_vec(&self) -> (r: Vec<FrCita>)
        ensures
            r@ == self.keys(),
    {
        let n = self.entries.len();
        let mut r: Vec<FrCita> = Vec::new();
        let mut i: usize = 0;
        while i < n
            invariant
                n == self.entries.len(),
                i <= n,
                r@ =~= self.keys().subrange(0, i as int),
            decreases n - i,
        {
            r.push(self.entries[i].0);
            i = i + 1;
        }
        proof {
            assert(r@ =~= self.keys());
        }
        r
    }
}

impl View for CitationMap {
    type V = Map<FrCita, Set<CfrDivView>>;

    open spec fn view(&self) -> Map<FrCita, Set<CfrDivView>> {
        cmap_of(self.entries@)
    }
}

} // verus!
