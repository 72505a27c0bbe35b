//! Federal Register citations: the `(edition, page)` pair, its textual
//! form "`edition` FR `page`", and the scanner that finds every such
//! citation in a stretch of text.

use vstd::prelude::*;
use crate::text::{
    is_dec_digit, digit_val, dec_digits, dec_val, dec_val_checked, digit_run_at, u32_to_dec,
    str_chars, lemma_dec_digits_digits, lemma_dec_val_of_digits, lemma_digit_run_len_exact,
    lemma_digit_run_len_bounds, digit_run_len,
};
use crate::error::FatalError;

verus! {

/// One "volume FR page" citation occurrence.
#[derive(Clone, Copy, PartialEq, Eq, Hash, Debug, Structural)]
pub struct FrCita {
    pub edition: u32,
    pub page: u32,
}

/// The separator between the two numbers of a citation.
pub open spec fn fr_sep() -> Seq<char> {
    seq![' ', 'F', 'R', ' ']
}

/// The textual form of a citation: "`edition` FR `page`".
pub open spec fn cita_seq(edition: nat, page: nat) -> Seq<char> {
    dec_digits(edition) + fr_sep() + dec_digits(page)
}

/// Parse a whole string as a citation: a digit run, " FR ", and a digit
/// run reaching the end of the string.
pub open spec fn parse_cita_seq(s: Seq<char>) -> Option<(nat, nat)> {
    let a = digit_run_len(s, 0) as int;
    if a >= 1 && a + 4 <= s.len() && s.subrange(a, a + 4) == fr_sep() && s.len() - (a + 4) >= 1
        && digit_run_len(s, a + 4) == s.len() - (a + 4) {
        Some((dec_val(s.subrange(0, a)), dec_val(s.subrange(a + 4, s.len() as int))))
    } else {
        None
    }
}

/// A citation match starts at `i`: a digit run, " FR ", and at least one
/// more digit.
pub open spec fn match_at(s: Seq<char>, i: int) -> bool {
    let a = digit_run_len(s, i) as int;
    &&& a >= 1
    &&& i + a + 4 <= s.len()
    &&& s.subrange(i + a, i + a + 4) == fr_sep()
    &&& digit_run_len(s, i + a + 4) >= 1
}

/// The position just after the citation match starting at `i`.
pub open spec fn match_end(s: Seq<char>, i: int) -> int {
    let a = digit_run_len(s, i) as int;
    i + a + 4 + digit_run_len(s, i + a + 4)
}

/// The `(edition, page)` values of the citation match starting at `i`.
pub open spec fn match_vals(s: Seq<char>, i: int) -> (nat, nat) {
    let a = digit_run_len(s, i) as int;
    (dec_val(s.subrange(i, i + a)), dec_val(s.subrange(i + a + 4, match_end(s, i))))
}

/// All citations found scanning left to right from position `p`:
/// leftmost matches, greedy digit runs, resuming after each match.
pub open spec fn scan_citas(s: Seq<char>, p: int) -> Seq<(nat, nat)>
    decreases s.len() - p,
    via scan_citas_decreases
{
    if p < 0 || p >= s.len() {
        seq![]
    } else if match_at(s, p) {
        seq![match_vals(s, p)] + scan_citas(s, match_end(s, p))
    } else {
        scan_citas(s, p + 1)
    }
}

#[via_fn]
proof fn scan_citas_decreases(s: Seq<char>, p: int) {
    if 0 <= p < s.len() && match_at(s, p) {
        let a = digit_run_len(s, p) as int;
        lemma_digit_run_len_bounds(s, p + a + 4);
        assert(match_end(s, p) <= s.len());
        assert(match_end(s, p) >= p + 1);
    }
}

/// Every citation value in a scan fits in a `u32`.
pub open spec fn scan_fits(vals: Seq<(nat, nat)>) -> bool {
    forall|k: int|
        0 <= k < vals.len() ==> (#[trigger] vals[k]).0 <= u32::MAX && vals[k].1 <= u32::MAX
}

impl FrCita {
    /// The textual form "`edition` FR `page`" of this citation.
    pub fn format(&self) -> (r: String)
        ensures
            r@ == cita_seq(self.edition as nat, self.page as nat),
    {
        proof {
            reveal_strlit(" FR ");
        }
        let mut r = u32_to_dec(self.edition);
        r.append(" FR ");
        let page = u32_to_dec(self.page);
        r.append(page.as_str());
        proof {
            assert(" FR "@ =~= fr_sep());
            assert(r@ =~= cita_seq(self.edition as nat, self.page as nat));
        }
        r
    }
}

/// Parse a string of the exact form "`edition` FR `page`"; `None` when
/// the string has another shape or a number does not fit in a `u32`.
pub fn parse_citation(s: &str) -> (r: Option<FrCita>)
    ensures
        match r {
            Some(c) => parse_cita_seq(s@) == Some((c.edition as nat, c.page as nat)),
            None => match parse_cita_seq(s@) {
                Some(pr) => pr.0 > u32::MAX || pr.1 > u32::MAX,
                None => true,
            },
        },
{
    let cs = str_chars(s);
    let n = cs.len();
    let a = digit_run_at(&cs, 0);
    if a == 0 || n - a < 4 {
        return None;
    }
    if !(cs[a] == ' ' && cs[a + 1] == 'F' && cs[a + 2] == 'R' && cs[a + 3] == ' ') {
        proof {
            if cs@.subrange(a as int, a as int + 4) == fr_sep() {
                assert(cs@.subrange(a as int, a as int + 4)[0] == cs@[a as int]);
                assert(cs@.subrange(a as int, a as int + 4)[1] == cs@[a as int + 1]);
                assert(cs@.subrange(a as int, a as int + 4)[2] == cs@[a as int + 2]);
                assert(cs@.subrange(a as int, a as int + 4)[3] == cs@[a as int + 3]);
            }
        }
        return None;
    }
    proof {
        assert(cs@.subrange(a as int, a as int + 4) =~= fr_sep());
    }
    let b = digit_run_at(&cs, a + 4);
    if b == 0 || a + 4 + b != n {
        return None;
    }
    proof {
        lemma_digit_run_len_bounds(cs@, 0);
    }
    let edition = match dec_val_checked(&cs, 0, a) {
        Some(v) => v,
        None => {
            return None;
        },
    };
    proof {
        lemma_digit_run_len_bounds(cs@, a as int + 4);
    }
    let page = match dec_val_checked(&cs, a + 4, n) {
        Some(v) => v,
        None => {
            return None;
        },
    };
    Some(FrCita { edition, page })
}

/// Formatting a citation and parsing it back yields the original values,
/// for every pair that fits in a `u32`.
pub proof fn lemma_citation_round_trip(edition: u32, page: u32)
    ensures
        parse_cita_seq(cita_seq(edition as nat, page as nat)) == Some(
            (edition as nat, page as nat),
        ),
{
    let e = edition as nat;
    let p = page as nat;
    let s = cita_seq(e, p);
    let a = dec_digits(e).len() as int;
    lemma_dec_digits_digits(e);
    lemma_dec_digits_digits(p);
    assert forall|k: int| 0 <= k < a implies is_dec_digit(#[trigger] s[k]) by {
        assert(s[k] == dec_digits(e)[k]);
    }
    assert(s[a] == fr_sep()[0]);
    assert(!is_dec_digit(s[a]));
    lemma_digit_run_len_exact(s, 0, a);
    assert(s.subrange(a, a + 4) =~= fr_sep());
    assert forall|k: int| a + 4 <= k < s.len() implies is_dec_digit(#[trigger] s[k]) by {
        assert(s[k] == dec_digits(p)[k - (a + 4)]);
    }
    lemma_digit_run_len_exact(s, a + 4, s.len() as int);
    assert(s.subrange(0, a) =~= dec_digits(e));
    assert(s.subrange(a + 4, s.len() as int) =~= dec_digits(p));
    lemma_dec_val_of_digits(e);
    lemma_dec_val_of_digits(p);
}

/// Find every citation in `text`, scanning left to right; refused when a
/// matched number does not fit in a `u32`.
pub fn find_citations(text: &str) -> (r: Result<Vec<FrCita>, FatalError>)
    ensures
        match r {
            Ok(v) => {
                let sc = scan_citas(text@, 0);
                &&& v@.len() == sc.len()
                &&& forall|k: int|
                    0 <= k < sc.len() ==> (#[trigger] v@[k]).edition as nat == sc[k].0
                        && v@[k].page as nat == sc[k].1
            },
            Err(e) => e == FatalError::CitationOverflow && !scan_fits(scan_citas(text@, 0)),
        },
{
    let cs = str_chars(text);
    let n = cs.len();
    let mut out: Vec<FrCita> = Vec::new();
    let mut p: usize = 0;
    while p < n
        invariant
            cs@ == text@,
            n == cs.len(),
            p <= n,
            scan_citas(cs@, 0) =~= spec_pairs(out@) + scan_citas(cs@, p as int),
        decreases n - p,
    {
        let a = digit_run_at(&cs, p);
        let mut matched = false;
        if a >= 1 && n - (p + a) >= 4 {
            if cs[p + a] == ' ' && cs[p + a + 1] == 'F' && cs[p + a + 2] == 'R' && cs[p + a + 3]
                == ' ' {
                proof {
                    assert(cs@.subrange(p + a, p + a + 4) =~= fr_sep());
                }
                let b = digit_run_at(&cs, p + a + 4);
                if b >= 1 {
                    assert(match_at(cs@, p as int));
                    let e_end = p + a + 4 + b;
                    proof {
                        assert(match_end(cs@, p as int) == e_end);
                        lemma_digit_run_len_bounds(cs@, p as int);
                        lemma_digit_run_len_bounds(cs@, p + a + 4);
                    }
                    let edition = match dec_val_checked(&cs, p, p + a) {
                        Some(v) => v,
                        None => {
                            proof {
                                lemma_scan_member(cs@, spec_pairs(out@), p as int);
                            }
                            return Err(FatalError::CitationOverflow);
                        },
                    };
                    let page = match dec_val_checked(&cs, p + a + 4, e_end) {
                        Some(v) => v,
                        None => {
                            proof {
                                lemma_scan_member(cs@, spec_pairs(out@), p as int);
                            }
                            return Err(FatalError::CitationOverflow);
                        },
                    };
                    let ghost old_out = out@;
                    out.push(FrCita { edition, page });
                    proof {
                        assert(spec_pairs(out@) =~= spec_pairs(old_out) + seq![
                            match_vals(cs@, p as int),
                        ]);
                        assert(spec_pairs(out@) + scan_citas(cs@, e_end as int) =~= spec_pairs(
                            old_out,
                        ) + scan_citas(cs@, p as int));
                    }
                    p = e_end;
                    matched = true;
                }
            }
        }
        if !matched {
            proof {
                if match_at(cs@, p as int) {
                    let ma = digit_run_len(cs@, p as int) as int;
                    assert(cs@.subrange(p + ma, p + ma + 4)[0] == cs@[p + ma]);
                    assert(cs@.subrange(p + ma, p + ma + 4)[1] == cs@[p + ma + 1]);
                    assert(cs@.subrange(p + ma, p + ma + 4)[2] == cs@[p + ma + 2]);
                    assert(cs@.subrange(p + ma, p + ma + 4)[3] == cs@[p + ma + 3]);
                    assert(false);
                }
                assert(scan_citas(cs@, p as int) == scan_citas(cs@, p as int + 1));
            }
            p = p + 1;
        }
    }
    proof {
        assert(scan_citas(cs@, p as int) =~= Seq::<(nat, nat)>::empty());
        assert(spec_pairs(out@) =~= scan_citas(cs@, 0));
    }
    Ok(out)
}

/// The `(edition, page)` value pairs of a citation list.
pub open spec fn spec_pairs(v: Seq<FrCita>) -> Seq<(nat, nat)> {
    v.map_values(|c: FrCita| (c.edition as nat, c.page as nat))
}

/// When the whole scan splits as a prefix of pairs followed by the scan
/// from `p`, and a match starts at `p`, its values stand right after the
/// prefix.
proof fn lemma_scan_member(s: Seq<char>, pre: Seq<(nat, nat)>, p: int)
    requires
        0 <= p < s.len(),
        match_at(s, p),
        scan_citas(s, 0) =~= pre + scan_citas(s, p),
    ensures
        scan_citas(s, 0).len() > pre.len(),
        scan_citas(s, 0)[pre.len() as int] == match_vals(s, p),
{
    assert(scan_citas(s, p) == seq![match_vals(s, p)] + scan_citas(s, match_end(s, p)));
    assert(scan_citas(s, 0)[pre.len() as int] == scan_citas(s, p)[0]);
}

} // verus!
