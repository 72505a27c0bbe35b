//! The citation extractor: a depth-first walk over the markup events of
//! one CFR part, finding every Federal Register citation in citation
//! tags and classifying the structural division each one belongs to.

use vstd::prelude::*;
use crate::cita::{FrCita, scan_citas, scan_fits, find_citations};
use crate::divs::{CfrPart, CfrPartView, CfrDivInfo, CfrDivView, CitationMap};
use crate::error::FatalError;
use crate::markup::{
    MarkupEvent, EventView, TagInfo, TagView, tokenize, tokenize_from, decode_from, decode_text,
};
use crate::text::{starts_with, str_starts_with, str_eq};

verus! {

/// The tag name wrapping citation text.
pub open spec fn cita_lit() -> Seq<char> {
    seq!['C', 'I', 'T', 'A']
}

/// The name prefix of a division tag.
pub open spec fn div_lit() -> Seq<char> {
    seq!['D', 'I', 'V']
}

/// The name prefix of an extract tag, and the division type recorded
/// for a synthesized extract division.
pub open spec fn extract_lit() -> Seq<char> {
    seq!['E', 'X', 'T', 'R', 'A', 'C', 'T']
}

/// The synthesized division name for a citation inside an extract with
/// no division ancestor: "`title` CFR Part `part` Appendix X".
pub open spec fn appendix_name(part: CfrPartView) -> Seq<char> {
    part.title + seq![' ', 'C', 'F', 'R', ' ', 'P', 'a', 'r', 't', ' '] + part.part + seq![
        ' ',
        'A',
        'p',
        'p',
        'e',
        'n',
        'd',
        'i',
        'x',
        ' ',
        'X',
    ]
}

/// The division a tag describes through its `N` and `TYPE` attributes.
pub open spec fn div_from_attrs(t: TagView) -> Result<CfrDivView, FatalError> {
    match (t.attr_n, t.attr_type) {
        (Some(n), Some(ty)) => Ok(CfrDivView { name: n, ty: ty, word_count: 0 }),
        _ => Err(FatalError::MissingAttribute),
    }
}

/// Classify the division a citation belongs to from its ancestor tags,
/// innermost last; the citation tag itself is on top of the stack.
pub open spec fn classify_spec(part: CfrPartView, anc: Seq<TagView>) -> Result<
    CfrDivView,
    FatalError,
> {
    let n = anc.len() as int;
    if n < 2 {
        Err(FatalError::MissingAncestor)
    } else {
        let parent = anc[n - 2];
        if starts_with(parent.name, div_lit()) {
            div_from_attrs(parent)
        } else if starts_with(parent.name, extract_lit()) {
            if n < 3 {
                Err(FatalError::MissingAncestor)
            } else {
                let gp = anc[n - 3];
                if starts_with(gp.name, div_lit()) {
                    div_from_attrs(gp)
                } else {
                    Ok(CfrDivView { name: appendix_name(part), ty: extract_lit(), word_count: 0 })
                }
            }
        } else {
            Err(FatalError::UnclassifiableAncestor)
        }
    }
}

/// Record one division for every citation value in the list, in order.
pub open spec fn add_all(
    m: Map<FrCita, Set<CfrDivView>>,
    pairs: Seq<(nat, nat)>,
    d: CfrDivView,
) -> Map<FrCita, Set<CfrDivView>>
    decreases pairs.len(),
{
    if pairs.len() == 0 {
        m
    } else {
        let m2 = add_all(m, pairs.drop_last(), d);
        let c = FrCita { edition: pairs.last().0 as u32, page: pairs.last().1 as u32 };
        m2.insert(
            c,
            (if m2.contains_key(c) {
                m2[c]
            } else {
                Set::empty()
            }).insert(d),
        )
    }
}

/// The traversal state: the open-tag stack, whether the walk stands
/// directly inside a citation tag, and the citations recorded so far.
pub ghost struct ExtState {
    pub anc: Seq<TagView>,
    pub in_cita: bool,
    pub m: Map<FrCita, Set<CfrDivView>>,
}

/// One traversal step.
pub open spec fn ext_step(part: CfrPartView, st: ExtState, ev: EventView) -> Result<
    ExtState,
    FatalError,
> {
    match ev {
        EventView::Open(t) => Ok(
            ExtState { anc: st.anc.push(t), in_cita: t.name == cita_lit(), m: st.m },
        ),
        EventView::Close => if st.anc.len() == 0 {
            Err(FatalError::MalformedMarkup)
        } else {
            Ok(ExtState { anc: st.anc.drop_last(), in_cita: false, m: st.m })
        },
        EventView::Text(txt) => if !st.in_cita {
            Ok(st)
        } else {
            match decode_from(txt, 0) {
                Err(()) => Err(FatalError::MalformedMarkup),
                Ok(dec) => {
                    let pairs = scan_citas(dec, 0);
                    if pairs.len() == 0 {
                        Ok(st)
                    } else if !scan_fits(pairs) {
                        Err(FatalError::CitationOverflow)
                    } else {
                        match classify_spec(part, st.anc) {
                            Err(e) => Err(e),
                            Ok(d) => Ok(
                                ExtState {
                                    anc: st.anc,
                                    in_cita: st.in_cita,
                                    m: add_all(st.m, pairs, d),
                                },
                            ),
                        }
                    }
                },
            }
        },
    }
}

/// The traversal from event `i` on: the final citation map, or the
/// fault that stopped the walk.
pub open spec fn ext_from(
    part: CfrPartView,
    events: Seq<EventView>,
    i: int,
    st: ExtState,
) -> Result<Map<FrCita, Set<CfrDivView>>, FatalError>
    decreases events.len() - i,
{
    if i < 0 || i >= events.len() {
        Ok(st.m)
    } else {
        match ext_step(part, st, events[i]) {
            Err(e) => Err(e),
            Ok(st2) => ext_from(part, events, i + 1, st2),
        }
    }
}

/// The initial traversal state.
pub open spec fn ext_init() -> ExtState {
    ExtState { anc: Seq::empty(), in_cita: false, m: Map::empty() }
}

/// What extracting from a part's markup text yields: the mapping from
/// each citation found to the divisions it was seen in, or the fault
/// that stopped the walk.
pub open spec fn extract_spec(part: CfrPartView, input: Seq<char>) -> Result<
    Map<FrCita, Set<CfrDivView>>,
    FatalError,
> {
    match tokenize_from(input, 0) {
        Err(()) => Err(FatalError::MalformedMarkup),
        Ok(evs) => ext_from(part, evs, 0, ext_init()),
    }
}

/// Classify the division for the citation whose ancestor stack is
/// `anc`, executable counterpart of `classify_spec`.
fn classify(part: &CfrPart, anc: &Vec<TagInfo>) -> (r: Result<CfrDivInfo, FatalError>)
    ensures
        match r {
            Ok(d) => classify_spec(part@, anc@.map_values(|t: TagInfo| t@)) matches Ok(dv) && dv
                == d@,
            Err(e) => classify_spec(part@, anc@.map_values(|t: TagInfo| t@)) matches Err(e2) && e
                == e2,
        },
{
    let n = anc.len();
    if n < 2 {
        return Err(FatalError::MissingAncestor);
    }
    let parent = &anc[n - 2];
    proof {
        reveal_strlit("DIV");
        reveal_strlit("EXTRACT");
        assert("DIV"@ =~= div_lit());
        assert("EXTRACT"@ =~= extract_lit());
        assert(anc@.map_values(|t: TagInfo| t@)[n - 2] == parent@);
    }
    if str_starts_with(&parent.name, "DIV") {
        match (&parent.attr_n, &parent.attr_type) {
            (Some(nm), Some(ty)) => Ok(
                CfrDivInfo { name: nm.clone(), ty: ty.clone(), word_count: 0 },
            ),
            _ => Err(FatalError::MissingAttribute),
        }
    } else if str_starts_with(&parent.name, "EXTRACT") {
        if n < 3 {
            return Err(FatalError::MissingAncestor);
        }
        let gp = &anc[n - 3];
        proof {
            assert(anc@.map_values(|t: TagInfo| t@)[n - 3] == gp@);
        }
        if str_starts_with(&gp.name, "DIV") {
            match (&gp.attr_n, &gp.attr_type) {
                (Some(nm), Some(ty)) => Ok(
                    CfrDivInfo { name: nm.clone(), ty: ty.clone(), word_count: 0 },
                ),
                _ => Err(FatalError::MissingAttribute),
            }
        } else {
            let mut nm = part.title.clone();
            nm.append(" CFR Part ");
            nm.append(part.part.as_str());
            nm.append(" Appendix X");
            let ty = String::from_str("EXTRACT");
            proof {
                reveal_strlit(" CFR Part ");
                reveal_strlit(" Appendix X");
                assert(nm@ =~= appendix_name(part@));
            }
            Ok(CfrDivInfo { name: nm, ty, word_count: 0 })
        }
    } else {
        Err(FatalError::UnclassifiableAncestor)
    }
}

/// Walk the markup of one CFR part and collect every citation with the
/// divisions it belongs to; a fault aborts the walk.
pub fn extract_citations(part: &CfrPart, input: &str) -> (r: Result<CitationMap, FatalError>)
    ensures
        match r {
            Ok(cm) => cm.wf() && (extract_spec(part@, input@) matches Ok(m) && cm@ == m),
            Err(e) => extract_spec(part@, input@) matches Err(e2) && e == e2,
        },
{
    let events = match tokenize(input) {
        Err(e) => {
            return Err(e);
        },
        Ok(v) => v,
    };
    let ghost evs = events@.map_values(|e: MarkupEvent| e@);
    proof {
        assert(evs =~= tokenize_from(input@, 0)->Ok_0);
    }
    let n = events.len();
    let mut anc: Vec<TagInfo> = Vec::new();
    let mut siblings: Vec<Vec<String>> = Vec::new();
    let mut in_cita = false;
    let mut cmap = CitationMap::new();
    proof {
        assert(anc@.map_values(|t: TagInfo| t@) =~= Seq::<TagView>::empty());
    }
    let mut i: usize = 0;
    while i < n
        invariant
            n == events.len(),
            i <= n,
            evs == events@.map_values(|e: MarkupEvent| e@),
            (tokenize_from(input@, 0) matches Ok(evs0) && evs0 == evs),
            cmap.wf(),
            ext_from(part@, evs, 0, ext_init()) == ext_from(
                part@,
                evs,
                i as int,
                ExtState {
                    anc: anc@.map_values(|t: TagInfo| t@),
                    in_cita: in_cita,
                    m: cmap@,
                },
            ),
        decreases n - i,
    {
        let ghost st = ExtState {
            anc: anc@.map_values(|t: TagInfo| t@),
            in_cita: in_cita,
            m: cmap@,
        };
        proof {
            assert(evs[i as int] == events@[i as int]@);
        }
        let ev = &events[i];
        match ev {
            MarkupEvent::Open(t) => {
                proof {
                    reveal_strlit("CITA");
                    assert("CITA"@ =~= cita_lit());
                }
                in_cita = str_eq(&t.name, "CITA");
                let depth = anc.len();
                if depth < siblings.len() {
                    let slot = &mut siblings[depth];
                    slot.push(t.name.clone());
                } else {
                    siblings.push(Vec::new());
                }
                let tag = TagInfo {
                    name: t.name.clone(),
                    attr_n: match &t.attr_n {
                        Some(v) => Some(v.clone()),
                        None => None,
                    },
                    attr_type: match &t.attr_type {
                        Some(v) => Some(v.clone()),
                        None => None,
                    },
                };
                proof {
                    assert(tag@ == t@);
                }
                anc.push(tag);
                proof {
                    assert(anc@.map_values(|x: TagInfo| x@) =~= st.anc.push(t@));
                }
            },
            MarkupEvent::Close => {
                if anc.len() == 0 {
                    proof {
                        assert(st.anc.len() == 0);
                        assert(ext_from(part@, evs, i as int, st) matches Err(e2) && e2
                            == FatalError::MalformedMarkup);
                    }
                    return Err(FatalError::MalformedMarkup);
                }
                anc.pop();
                in_cita = false;
                proof {
                    assert(anc@.map_values(|x: TagInfo| x@) =~= st.anc.drop_last());
                }
            },
            MarkupEvent::Text(txt) => {
                if in_cita {
                    let decoded = match decode_text(txt.as_str()) {
                        Err(e) => {
                            proof {
                                assert(ext_from(part@, evs, i as int, st) matches Err(e2) && e2
                                    == FatalError::MalformedMarkup);
                            }
                            return Err(e);
                        },
                        Ok(d) => d,
                    };
                    let citas = match find_citations(decoded.as_str()) {
                        Err(e) => {
                            proof {
                                let pairs0 = scan_citas(decoded@, 0);
                                let bad = choose|k: int|
                                    0 <= k < pairs0.len() && !((#[trigger] pairs0[k]).0
                                        <= u32::MAX && pairs0[k].1 <= u32::MAX);
                                assert(0 <= bad < pairs0.len());
                                assert(ext_from(part@, evs, i as int, st) matches Err(e2) && e2
                                    == FatalError::CitationOverflow);
                            }
                            return Err(e);
                        },
                        Ok(v) => v,
                    };
                    if citas.len() > 0 {
                        proof {
                            let pairs0 = scan_citas(decoded@, 0);
                            assert forall|k: int|
                                0 <= k < pairs0.len() implies (#[trigger] pairs0[k]).0
                                <= u32::MAX && pairs0[k].1 <= u32::MAX by {
                                assert(citas@[k].edition as nat == pairs0[k].0);
                                assert(citas@[k].page as nat == pairs0[k].1);
                            }
                            assert(scan_fits(pairs0));
                        }
                        let d = match classify(part, &anc) {
                            Err(e) => {
                                proof {
                                    assert(ext_from(part@, evs, i as int, st) matches Err(e2)
                                        && e2 == e);
                                }
                                return Err(e);
                            },
                            Ok(d) => d,
                        };
                        let ghost pairs = scan_citas(decoded@, 0);
                        let m = citas.len();
                        let mut j: usize = 0;
                        while j < m
                            invariant
                                m == citas.len(),
                                j <= m,
                                pairs == scan_citas(decoded@, 0),
                                citas@.len() == pairs.len(),
                                forall|k: int|
                                    0 <= k < pairs.len() ==> (#[trigger] citas@[k]).edition as nat
                                        == pairs[k].0 && citas@[k].page as nat == pairs[k].1,
                                cmap.wf(),
                                d@ == (classify_spec(part@, st.anc)->Ok_0),
                                classify_spec(part@, st.anc) is Ok,
                                cmap@ == add_all(st.m, pairs.take(j as int), d@),
                            decreases m - j,
                        {
                            let c = citas[j];
                            cmap.add_div(c, d.clone());
                            proof {
                                let pj = pairs.take(j as int + 1);
                                assert(pj.drop_last() =~= pairs.take(j as int));
                                assert(pj.last() == pairs[j as int]);
                                assert(c == FrCita {
                                    edition: pj.last().0 as u32,
                                    page: pj.last().1 as u32,
                                });
                            }
                            j = j + 1;
                        }
                        proof {
                            assert(pairs.take(m as int) =~= pairs);
                        }
                    }
                }
            },
        }
        i = i + 1;
    }
    proof {
        assert(ext_from(
            part@,
            evs,
            i as int,
            ExtState {
                anc: anc@.map_values(|t: TagInfo| t@),
                in_cita: in_cita,
                m: cmap@,
            },
        ) matches Ok(m) && m == cmap@);
    }
    Ok(cmap)
}

} // verus!
