//! Tokenizer for the hierarchical markup of a CFR part: start tags with
//! their `N` and `TYPE` attributes, end tags, and trimmed text runs.
//! Comments, declarations and self-closing tags produce no event, as
//! the traversal ignores them.

use vstd::prelude::*;
use crate::error::FatalError;
use crate::text::{
    chars_to_string, str_chars, opt_str_view, is_dec_digit, is_hex_digit, dec_val, hex_val,
    dec_val_checked, hex_val_checked,
};

verus! {

/// A start tag: its name and its `N` and `TYPE` attribute values, when
/// present.
#[derive(Debug)]
pub struct TagInfo {
    pub name: String,
    pub attr_n: Option<String>,
    pub attr_type: Option<String>,
}

/// The mathematical value of a `TagInfo`.
pub ghost struct TagView {
    pub name: Seq<char>,
    pub attr_n: Option<Seq<char>>,
    pub attr_type: Option<Seq<char>>,
}

impl View for TagInfo {
    type V = TagView;

    open spec fn view(&self) -> TagView {
        TagView {
            name: self.name@,
            attr_n: match self.attr_n {
                Some(v) => Some(v@),
                None => None,
            },
            attr_type: match self.attr_type {
                Some(v) => Some(v@),
                None => None,
            },
        }
    }
}

/// One traversal event of the markup stream.
#[derive(Debug)]
pub enum MarkupEvent {
    Open(TagInfo),
    Close,
    Text(String),
}

/// The mathematical value of a `MarkupEvent`.
pub ghost enum EventView {
    Open(TagView),
    Close,
    Text(Seq<char>),
}

impl View for MarkupEvent {
    type V = EventView;

    open spec fn view(&self) -> EventView {
        match self {
            MarkupEvent::Open(t) => EventView::Open(t@),
            MarkupEvent::Close => EventView::Close,
            MarkupEvent::Text(s) => EventView::Text(s@),
        }
    }
}

/// Markup whitespace.
pub open spec fn is_space(c: char) -> bool {
    c == ' ' || c == '\t' || c == '\n' || c == '\r'
}

/// A character that ends a tag name.
pub open spec fn ends_name(c: char) -> bool {
    is_space(c) || c == '>' || c == '/'
}

/// A character that ends an attribute name.
pub open spec fn ends_attr_name(c: char) -> bool {
    is_space(c) || c == '=' || c == '>' || c == '/'
}

/// The first position at or after `p` holding `c`, or the length when
/// there is none.
pub open spec fn find_from(s: Seq<char>, p: int, c: char) -> int
    decreases s.len() - p,
{
    if p < 0 || p >= s.len() {
        s.len() as int
    } else if s[p] == c {
        p
    } else {
        find_from(s, p + 1, c)
    }
}

pub proof fn lemma_find_from(s: Seq<char>, p: int, c: char)
    requires
        0 <= p <= s.len(),
    ensures
        p <= find_from(s, p, c) <= s.len(),
        find_from(s, p, c) < s.len() ==> s[find_from(s, p, c)] == c,
        forall|k: int| p <= k < find_from(s, p, c) ==> s[k] != c,
    decreases s.len() - p,
{
    if p < s.len() && s[p] != c {
        lemma_find_from(s, p + 1, c);
    }
}

/// The first position at or after `p` where "-->" begins, or the length
/// when there is none.
pub open spec fn find_dashes(s: Seq<char>, p: int) -> int
    decreases s.len() - p,
{
    if p < 0 || p >= s.len() {
        s.len() as int
    } else if p + 3 <= s.len() && s[p] == '-' && s[p + 1] == '-' && s[p + 2] == '>' {
        p
    } else {
        find_dashes(s, p + 1)
    }
}

pub proof fn lemma_find_dashes(s: Seq<char>, p: int)
    requires
        0 <= p <= s.len(),
    ensures
        p <= find_dashes(s, p) <= s.len(),
        find_dashes(s, p) < s.len() ==> find_dashes(s, p) + 3 <= s.len(),
    decreases s.len() - p,
{
    if p < s.len() && !(p + 3 <= s.len() && s[p] == '-' && s[p + 1] == '-' && s[p + 2] == '>') {
        lemma_find_dashes(s, p + 1);
    }
}

/// The first position at or after `p` holding a non-space, or the
/// length when there is none.
pub open spec fn skip_spaces(s: Seq<char>, p: int) -> int
    decreases s.len() - p,
{
    if p < 0 || p >= s.len() {
        s.len() as int
    } else if is_space(s[p]) {
        skip_spaces(s, p + 1)
    } else {
        p
    }
}

pub proof fn lemma_skip_spaces(s: Seq<char>, p: int)
    requires
        0 <= p <= s.len(),
    ensures
        p <= skip_spaces(s, p) <= s.len(),
        skip_spaces(s, p) < s.len() ==> !is_space(s[skip_spaces(s, p)]),
    decreases s.len() - p,
{
    if p < s.len() && is_space(s[p]) {
        lemma_skip_spaces(s, p + 1);
    }
}

/// The first position at or after `p` that ends a tag name.
pub open spec fn name_end(s: Seq<char>, p: int) -> int
    decreases s.len() - p,
{
    if p < 0 || p >= s.len() {
        s.len() as int
    } else if ends_name(s[p]) {
        p
    } else {
        name_end(s, p + 1)
    }
}

pub proof fn lemma_name_end(s: Seq<char>, p: int)
    requires
        0 <= p <= s.len(),
    ensures
        p <= name_end(s, p) <= s.len(),
    decreases s.len() - p,
{
    if p < s.len() && !ends_name(s[p]) {
        lemma_name_end(s, p + 1);
    }
}

/// The first position at or after `p` that ends an attribute name.
pub open spec fn attr_name_end(s: Seq<char>, p: int) -> int
    decreases s.len() - p,
{
    if p < 0 || p >= s.len() {
        s.len() as int
    } else if ends_attr_name(s[p]) {
        p
    } else {
        attr_name_end(s, p + 1)
    }
}

pub proof fn lemma_attr_name_end(s: Seq<char>, p: int)
    requires
        0 <= p <= s.len(),
    ensures
        p <= attr_name_end(s, p) <= s.len(),
    decreases s.len() - p,
{
    if p < s.len() && !ends_attr_name(s[p]) {
        lemma_attr_name_end(s, p + 1);
    }
}

/// The sequence without its leading spaces.
pub open spec fn trim_front(s: Seq<char>) -> Seq<char>
    decreases s.len(),
{
    if s.len() > 0 && is_space(s[0]) {
        trim_front(s.drop_first())
    } else {
        s
    }
}

/// The sequence without its trailing spaces.
pub open spec fn trim_back(s: Seq<char>) -> Seq<char>
    decreases s.len(),
{
    if s.len() > 0 && is_space(s.last()) {
        trim_back(s.drop_last())
    } else {
        s
    }
}

/// The sequence without leading and trailing spaces.
pub open spec fn trim(s: Seq<char>) -> Seq<char> {
    trim_back(trim_front(s))
}

/// Dropping a run of leading spaces is what `trim_front` does.
proof fn lemma_trim_front_skip(s: Seq<char>, k: int)
    requires
        0 <= k <= s.len(),
        forall|m: int| 0 <= m < k ==> is_space(s[m]),
        k == s.len() || !is_space(s[k]),
    ensures
        trim_front(s) == s.skip(k),
    decreases k,
{
    if k == 0 {
        assert(s.skip(0) =~= s);
    } else {
        lemma_trim_front_skip(s.drop_first(), k - 1);
        assert(s.drop_first().skip(k - 1) =~= s.skip(k));
    }
}

/// Dropping a run of trailing spaces is what `trim_back` does.
proof fn lemma_trim_back_take(s: Seq<char>, k: int)
    requires
        0 <= k <= s.len(),
        forall|m: int| k <= m < s.len() ==> is_space(s[m]),
        k == 0 || !is_space(s[k - 1]),
    ensures
        trim_back(s) == s.take(k),
    decreases s.len() - k,
{
    if k == s.len() {
        assert(s.take(k) =~= s);
    } else {
        lemma_trim_back_take(s.drop_last(), k);
        assert(s.drop_last().take(k) =~= s.take(k));
    }
}

/// Every character of the sequence is a hexadecimal digit.
pub open spec fn all_hex(s: Seq<char>) -> bool {
    forall|i: int| 0 <= i < s.len() ==> is_hex_digit(#[trigger] s[i])
}

/// Every character of the sequence is a decimal digit.
pub open spec fn all_dec(s: Seq<char>) -> bool {
    forall|i: int| 0 <= i < s.len() ==> is_dec_digit(#[trigger] s[i])
}

/// The character of a numeric character reference's value: defined for
/// Unicode scalar values only.
pub open spec fn scalar_char(v: nat) -> Option<char> {
    if v <= 0x10FFFF && !(0xD800 <= v <= 0xDFFF) {
        Some((v as u32) as char)
    } else {
        None
    }
}

/// The character a character reference's name stands for: the five
/// predefined entities, and decimal and hexadecimal numeric references.
pub open spec fn entity_char(name: Seq<char>) -> Option<char> {
    if name == seq!['a', 'm', 'p'] {
        Some('&')
    } else if name == seq!['l', 't'] {
        Some('<')
    } else if name == seq!['g', 't'] {
        Some('>')
    } else if name == seq!['q', 'u', 'o', 't'] {
        Some('"')
    } else if name == seq!['a', 'p', 'o', 's'] {
        Some('\'')
    } else if name.len() >= 3 && name[0] == '#' && (name[1] == 'x' || name[1] == 'X') && all_hex(
        name.subrange(2, name.len() as int),
    ) {
        scalar_char(hex_val(name.subrange(2, name.len() as int)))
    } else if name.len() >= 2 && name[0] == '#' && all_dec(
        name.subrange(1, name.len() as int),
    ) {
        scalar_char(dec_val(name.subrange(1, name.len() as int)))
    } else {
        None
    }
}

/// The text with every character reference decoded, from position `p`
/// on; an unterminated or unknown reference refuses the text.
pub open spec fn decode_from(s: Seq<char>, p: int) -> Result<Seq<char>, ()>
    decreases s.len() - p,
    via decode_from_decreases
{
    if p < 0 {
        Err(())
    } else if p >= s.len() {
        Ok(seq![])
    } else if s[p] != '&' {
        match decode_from(s, p + 1) {
            Err(()) => Err(()),
            Ok(rest) => Ok(seq![s[p]] + rest),
        }
    } else {
        let sc = find_from(s, p + 1, ';');
        if sc >= s.len() {
            Err(())
        } else {
            match entity_char(s.subrange(p + 1, sc)) {
                None => Err(()),
                Some(c) => match decode_from(s, sc + 1) {
                    Err(()) => Err(()),
                    Ok(rest) => Ok(seq![c] + rest),
                },
            }
        }
    }
}

#[via_fn]
proof fn decode_from_decreases(s: Seq<char>, p: int) {
    if 0 <= p < s.len() && s[p] == '&' {
        lemma_find_from(s, p + 1, ';');
    }
}

/// The character the reference name `cs[a..b]` stands for, executable
/// counterpart of `entity_char`.
fn entity_at(cs: &Vec<char>, a: usize, b: usize) -> (r: Option<char>)
    requires
        a <= b <= cs.len(),
    ensures
        r == entity_char(cs@.subrange(a as int, b as int)),
{
    let ghost name = cs@.subrange(a as int, b as int);
    let len = b - a;
    let is_amp = len == 3 && cs[a] == 'a' && cs[a + 1] == 'm' && cs[a + 2] == 'p';
    let is_lt = len == 2 && cs[a] == 'l' && cs[a + 1] == 't';
    let is_gt = len == 2 && cs[a] == 'g' && cs[a + 1] == 't';
    let is_quot = len == 4 && cs[a] == 'q' && cs[a + 1] == 'u' && cs[a + 2] == 'o' && cs[a + 3]
        == 't';
    let is_apos = len == 4 && cs[a] == 'a' && cs[a + 1] == 'p' && cs[a + 2] == 'o' && cs[a + 3]
        == 's';
    proof {
        assert forall|k: int| 0 <= k < name.len() implies #[trigger] name[k] == cs@[a + k] by {}
        if is_amp {
            assert(name =~= seq!['a', 'm', 'p']);
        } else if name == seq!['a', 'm', 'p'] {
            assert(false);
        }
        if is_lt {
            assert(name =~= seq!['l', 't']);
        } else if name == seq!['l', 't'] {
            assert(false);
        }
        if is_gt {
            assert(name =~= seq!['g', 't']);
        } else if name == seq!['g', 't'] {
            assert(false);
        }
        if is_quot {
            assert(name =~= seq!['q', 'u', 'o', 't']);
        } else if name == seq!['q', 'u', 'o', 't'] {
            assert(false);
        }
        if is_apos {
            assert(name =~= seq!['a', 'p', 'o', 's']);
        } else if name == seq!['a', 'p', 'o', 's'] {
            assert(false);
        }
    }
    if is_amp {
        Some('&')
    } else if is_lt {
        Some('<')
    } else if is_gt {
        Some('>')
    } else if is_quot {
        Some('"')
    } else if is_apos {
        Some('\'')
    } else if len >= 3 && cs[a] == '#' && (cs[a + 1] == 'x' || cs[a + 1] == 'X') {
        let mut j: usize = a + 2;
        while j < b
            invariant
                a + 2 <= j <= b <= cs.len(),
                name == cs@.subrange(a as int, b as int),
                b - a >= 3,
                cs@[a as int] == '#',
                cs@[a as int + 1] == 'x' || cs@[a as int + 1] == 'X',
                forall|k: int| a + 2 <= k < j ==> is_hex_digit(#[trigger] cs@[k]),
            decreases b - j,
        {
            if !('0' <= cs[j] && cs[j] <= '9') && !('a' <= cs[j] && cs[j] <= 'f') && !('A'
                <= cs[j] && cs[j] <= 'F') {
                proof {
                    assert(name[0] == '#');
                    assert(name.subrange(2, name.len() as int)[j - a - 2] == cs@[j as int]);
                    assert(!all_hex(name.subrange(2, name.len() as int)));
                    assert(name.subrange(1, name.len() as int)[0] == cs@[a as int + 1]);
                    assert(!all_dec(name.subrange(1, name.len() as int)));
                }
                return None;
            }
            j = j + 1;
        }
        proof {
            assert forall|k: int|
                0 <= k < name.subrange(2, name.len() as int).len() implies is_hex_digit(
                #[trigger] name.subrange(2, name.len() as int)[k],
            ) by {
                assert(name.subrange(2, name.len() as int)[k] == cs@[a + 2 + k]);
            }
            assert(name.subrange(2, name.len() as int) =~= cs@.subrange(a as int + 2, b as int));
        }
        match hex_val_checked(cs, a + 2, b) {
            None => None,
            Some(v) => scalar_from(v),
        }
    } else if len >= 2 && cs[a] == '#' {
        let mut j: usize = a + 1;
        while j < b
            invariant
                a + 1 <= j <= b <= cs.len(),
                name == cs@.subrange(a as int, b as int),
                b - a >= 2,
                cs@[a as int] == '#',
                !(b - a >= 3 && (cs@[a as int + 1] == 'x' || cs@[a as int + 1] == 'X')),
                forall|k: int| a + 1 <= k < j ==> is_dec_digit(#[trigger] cs@[k]),
            decreases b - j,
        {
            if !('0' <= cs[j] && cs[j] <= '9') {
                proof {
                    assert(name[0] == '#');
                    assert(name.subrange(1, name.len() as int)[j - a - 1] == cs@[j as int]);
                    assert(!all_dec(name.subrange(1, name.len() as int)));
                }
                return None;
            }
            j = j + 1;
        }
        proof {
            assert forall|k: int|
                0 <= k < name.subrange(1, name.len() as int).len() implies is_dec_digit(
                #[trigger] name.subrange(1, name.len() as int)[k],
            ) by {
                assert(name.subrange(1, name.len() as int)[k] == cs@[a + 1 + k]);
            }
            assert(name.subrange(1, name.len() as int) =~= cs@.subrange(a as int + 1, b as int));
        }
        match dec_val_checked(cs, a + 1, b) {
            None => None,
            Some(v) => scalar_from(v),
        }
    } else {
        None
    }
}

/// The character of a numeric reference's value, executable counterpart
/// of `scalar_char`.
fn scalar_from(v: u32) -> (r: Option<char>)
    ensures
        r == scalar_char(v as nat),
{
    if v <= 0x10FFFF && !(0xD800 <= v && v <= 0xDFFF) {
        match char::from_u32(v) {
            Some(c) => {
                proof {
                    vstd::utf8::char_u32_cast(c, v);
                }
                Some(c)
            },
            None => {
                proof {
                    assert(vstd::utf8::is_scalar(v));
                    assert(false);
                }
                None
            },
        }
    } else {
        proof {
            if vstd::utf8::is_scalar(v) {
            }
        }
        None
    }
}

/// Decode every character reference in a stretch of text; an
/// unterminated or unknown reference refuses the markup.
pub fn decode_text(input: &str) -> (r: Result<String, FatalError>)
    ensures
        match r {
            Ok(out) => decode_from(input@, 0) matches Ok(d) && d == out@,
            Err(e) => decode_from(input@, 0) is Err && e == FatalError::MalformedMarkup,
        },
{
    let cs = str_chars(input);
    let n = cs.len();
    let mut out = String::new();
    let mut p: usize = 0;
    while p < n
        invariant
            cs@ == input@,
            n == cs.len(),
            p <= n,
            match decode_from(cs@, p as int) {
                Ok(rest) => decode_from(cs@, 0) matches Ok(all) && all == out@ + rest,
                Err(()) => decode_from(cs@, 0) is Err,
            },
        decreases n - p,
    {
        let c = cs[p];
        if c != '&' {
            let ghost old_out = out@;
            out.push(c);
            proof {
                if decode_from(cs@, p as int + 1) is Ok {
                    let rest = decode_from(cs@, p as int + 1)->Ok_0;
                    assert(out@ + rest =~= old_out + (seq![c] + rest));
                }
            }
            p = p + 1;
        } else {
            let sc = find_char_from(&cs, p + 1, ';');
            if sc >= n {
                return Err(FatalError::MalformedMarkup);
            }
            match entity_at(&cs, p + 1, sc) {
                None => {
                    return Err(FatalError::MalformedMarkup);
                },
                Some(ch) => {
                    let ghost old_out = out@;
                    out.push(ch);
                    proof {
                        if decode_from(cs@, sc as int + 1) is Ok {
                            let rest = decode_from(cs@, sc as int + 1)->Ok_0;
                            assert(out@ + rest =~= old_out + (seq![ch] + rest));
                        }
                    }
                    p = sc + 1;
                },
            }
        }
    }
    proof {
        assert(decode_from(cs@, p as int) matches Ok(e) && e == Seq::<char>::empty());
        assert(out@ + Seq::<char>::empty() =~= out@);
    }
    Ok(out)
}

/// The trimmed bounds of `cs[a..b]`: the stretch between them is the
/// slice without leading and trailing spaces.
pub fn trim_bounds(cs: &Vec<char>, a: usize, b: usize) -> (r: (usize, usize))
    requires
        a <= b <= cs.len(),
    ensures
        a <= r.0 <= r.1 <= b,
        cs@.subrange(r.0 as int, r.1 as int) == trim(cs@.subrange(a as int, b as int)),
{
    let mut i: usize = a;
    while i < b && is_space_char(cs[i])
        invariant
            a <= i <= b <= cs.len(),
            forall|m: int| a <= m < i ==> is_space(#[trigger] cs@[m]),
        decreases b - i,
    {
        i = i + 1;
    }
    let mut j: usize = b;
    while j > i && is_space_char(cs[j - 1])
        invariant
            i <= j <= b <= cs.len(),
            forall|m: int| j <= m < b ==> is_space(#[trigger] cs@[m]),
        decreases j,
    {
        j = j - 1;
    }
    proof {
        let s = cs@.subrange(a as int, b as int);
        lemma_trim_front_skip(s, i - a);
        assert(trim_front(s) =~= cs@.subrange(i as int, b as int));
        let t = cs@.subrange(i as int, b as int);
        lemma_trim_back_take(t, j - i);
        assert(trim_back(t) =~= cs@.subrange(i as int, j as int));
    }
    (i, j)
}

/// Whether the character is markup whitespace, executable counterpart
/// of `is_space`.
pub fn is_space_char(c: char) -> (r: bool)
    ensures
        r == is_space(c),
{
    c == ' ' || c == '\t' || c == '\n' || c == '\r'
}

/// The first position at or after `p` holding `c`, executable
/// counterpart of `find_from`.
pub fn find_char_from(cs: &Vec<char>, p: usize, c: char) -> (r: usize)
    requires
        p <= cs.len(),
    ensures
        r as int == find_from(cs@, p as int, c),
        p <= r <= cs.len(),
{
    let n = cs.len();
    let mut i: usize = p;
    while i < n
        invariant
            p <= i <= n == cs.len(),
            find_from(cs@, p as int, c) == find_from(cs@, i as int, c),
        decreases n - i,
    {
        if cs[i] == c {
            return i;
        }
        i = i + 1;
    }
    n
}

/// The first position at or after `p` where "-->" begins, executable
/// counterpart of `find_dashes`.
pub fn find_dashes_from(cs: &Vec<char>, p: usize) -> (r: usize)
    requires
        p <= cs.len(),
    ensures
        r as int == find_dashes(cs@, p as int),
        p <= r <= cs.len(),
{
    let n = cs.len();
    let mut i: usize = p;
    while i < n
        invariant
            p <= i <= n == cs.len(),
            find_dashes(cs@, p as int) == find_dashes(cs@, i as int),
        decreases n - i,
    {
        if n - i >= 3 && cs[i] == '-' && cs[i + 1] == '-' && cs[i + 2] == '>' {
            return i;
        }
        i = i + 1;
    }
    n
}

/// The first non-space at or after `p`, executable counterpart of
/// `skip_spaces`.
pub fn skip_spaces_from(cs: &Vec<char>, p: usize) -> (r: usize)
    requires
        p <= cs.len(),
    ensures
        r as int == skip_spaces(cs@, p as int),
        p <= r <= cs.len(),
{
    let n = cs.len();
    let mut i: usize = p;
    while i < n
        invariant
            p <= i <= n == cs.len(),
            skip_spaces(cs@, p as int) == skip_spaces(cs@, i as int),
        decreases n - i,
    {
        if !is_space_char(cs[i]) {
            return i;
        }
        i = i + 1;
    }
    n
}

/// The end of the tag name starting at `p`, executable counterpart of
/// `name_end`.
pub fn name_end_from(cs: &Vec<char>, p: usize) -> (r: usize)
    requires
        p <= cs.len(),
    ensures
        r as int == name_end(cs@, p as int),
        p <= r <= cs.len(),
{
    let n = cs.len();
    let mut i: usize = p;
    while i < n
        invariant
            p <= i <= n == cs.len(),
            name_end(cs@, p as int) == name_end(cs@, i as int),
        decreases n - i,
    {
        let c = cs[i];
        if is_space_char(c) || c == '>' || c == '/' {
            return i;
        }
        i = i + 1;
    }
    n
}

/// The end of the attribute name starting at `p`, executable
/// counterpart of `attr_name_end`.
pub fn attr_name_end_from(cs: &Vec<char>, p: usize) -> (r: usize)
    requires
        p <= cs.len(),
    ensures
        r as int == attr_name_end(cs@, p as int),
        p <= r <= cs.len(),
{
    let n = cs.len();
    let mut i: usize = p;
    while i < n
        invariant
            p <= i <= n == cs.len(),
            attr_name_end(cs@, p as int) == attr_name_end(cs@, i as int),
        decreases n - i,
    {
        let c = cs[i];
        if is_space_char(c) || c == '=' || c == '>' || c == '/' {
            return i;
        }
        i = i + 1;
    }
    n
}

/// The `N` attribute name.
pub open spec fn n_name() -> Seq<char> {
    seq!['N']
}

/// The `TYPE` attribute name.
pub open spec fn ty_attr_name() -> Seq<char> {
    seq!['T', 'Y', 'P', 'E']
}

/// Scan the attributes of a start tag from position `q`, keeping the
/// first `N` and `TYPE` values: yields the two values, whether the tag
/// was self-closing, and the position after the closing `>`.
pub open spec fn scan_attrs(
    s: Seq<char>,
    q: int,
    an: Option<Seq<char>>,
    at: Option<Seq<char>>,
) -> Result<(Option<Seq<char>>, Option<Seq<char>>, bool, int), ()>
    decreases s.len() - q,
    via scan_attrs_decreases
{
    let q1 = skip_spaces(s, q);
    if q < 0 || q1 >= s.len() {
        Err(())
    } else if s[q1] == '>' {
        Ok((an, at, false, q1 + 1))
    } else if s[q1] == '/' {
        if q1 + 1 < s.len() && s[q1 + 1] == '>' {
            Ok((an, at, true, q1 + 2))
        } else {
            Err(())
        }
    } else {
        let ne = attr_name_end(s, q1);
        if ne == q1 {
            Err(())
        } else {
            let name = s.subrange(q1, ne);
            let q2 = skip_spaces(s, ne);
            if q2 >= s.len() || s[q2] != '=' {
                Err(())
            } else {
                let q3 = skip_spaces(s, q2 + 1);
                if q3 >= s.len() || !(s[q3] == '"' || s[q3] == '\'') {
                    Err(())
                } else {
                    let qe = find_from(s, q3 + 1, s[q3]);
                    if qe >= s.len() {
                        Err(())
                    } else {
                        let value = s.subrange(q3 + 1, qe);
                        let an2 = if an is None && name == n_name() {
                            Some(value)
                        } else {
                            an
                        };
                        let at2 = if at is None && name == ty_attr_name() {
                            Some(value)
                        } else {
                            at
                        };
                        scan_attrs(s, qe + 1, an2, at2)
                    }
                }
            }
        }
    }
}

#[via_fn]
proof fn scan_attrs_decreases(
    s: Seq<char>,
    q: int,
    an: Option<Seq<char>>,
    at: Option<Seq<char>>,
) {
    if 0 <= q && q <= s.len() {
        let q1 = skip_spaces(s, q);
        lemma_skip_spaces(s, q);
        if q1 < s.len() && s[q1] != '>' && s[q1] != '/' {
            let ne = attr_name_end(s, q1);
            lemma_attr_name_end(s, q1);
            if ne != q1 {
                let q2 = skip_spaces(s, ne);
                lemma_skip_spaces(s, ne);
                if q2 < s.len() && s[q2] == '=' {
                    lemma_skip_spaces(s, q2 + 1);
                    let q3 = skip_spaces(s, q2 + 1);
                    if q3 < s.len() {
                        lemma_find_from(s, q3 + 1, s[q3]);
                    }
                }
            }
        }
    }
}

/// An attribute scan moves forward and stays inside the string.
pub proof fn lemma_scan_attrs_bounds(
    s: Seq<char>,
    q: int,
    an: Option<Seq<char>>,
    at: Option<Seq<char>>,
)
    requires
        0 <= q <= s.len(),
    ensures
        match scan_attrs(s, q, an, at) {
            Ok(r) => q < r.3 <= s.len(),
            Err(()) => true,
        },
    decreases s.len() - q,
{
    let q1 = skip_spaces(s, q);
    lemma_skip_spaces(s, q);
    if q1 < s.len() && s[q1] != '>' && s[q1] != '/' {
        let ne = attr_name_end(s, q1);
        lemma_attr_name_end(s, q1);
        if ne != q1 {
            let q2 = skip_spaces(s, ne);
            lemma_skip_spaces(s, ne);
            if q2 < s.len() && s[q2] == '=' {
                lemma_skip_spaces(s, q2 + 1);
                let q3 = skip_spaces(s, q2 + 1);
                if q3 < s.len() && (s[q3] == '"' || s[q3] == '\'') {
                    lemma_find_from(s, q3 + 1, s[q3]);
                    let qe = find_from(s, q3 + 1, s[q3]);
                    if qe < s.len() {
                        let name = s.subrange(q1, ne);
                        let value = s.subrange(q3 + 1, qe);
                        let an2 = if an is None && name == n_name() {
                            Some(value)
                        } else {
                            an
                        };
                        let at2 = if at is None && name == ty_attr_name() {
                            Some(value)
                        } else {
                            at
                        };
                        lemma_scan_attrs_bounds(s, qe + 1, an2, at2);
                    }
                }
            }
        }
    }
}

/// Scan the attributes of a start tag, executable counterpart of
/// `scan_attrs`.
fn scan_attrs_exec(cs: &Vec<char>, q0: usize) -> (r: Result<
    (Option<String>, Option<String>, bool, usize),
    FatalError,
>)
    requires
        q0 <= cs.len(),
    ensures
        match r {
            Ok(t) => scan_attrs(cs@, q0 as int, None, None) matches Ok(sp) && sp.0
                == opt_str_view(t.0) && sp.1 == opt_str_view(t.1) && sp.2 == t.2 && sp.3
                == t.3 as int,
            Err(e) => scan_attrs(cs@, q0 as int, None, None) is Err && e
                == FatalError::MalformedMarkup,
        },
{
    let n = cs.len();
    let mut q: usize = q0;
    let mut an: Option<String> = None;
    let mut at: Option<String> = None;
    loop
        invariant
            q0 <= q <= n == cs.len(),
            scan_attrs(cs@, q0 as int, None, None) == scan_attrs(
                cs@,
                q as int,
                opt_str_view(an),
                opt_str_view(at),
            ),
        decreases n - q,
    {
        let q1 = skip_spaces_from(cs, q);
        if q1 >= n {
            return Err(FatalError::MalformedMarkup);
        }
        if cs[q1] == '>' {
            return Ok((an, at, false, q1 + 1));
        }
        if cs[q1] == '/' {
            if q1 + 1 < n && cs[q1 + 1] == '>' {
                return Ok((an, at, true, q1 + 2));
            }
            return Err(FatalError::MalformedMarkup);
        }
        let ne = attr_name_end_from(cs, q1);
        if ne == q1 {
            return Err(FatalError::MalformedMarkup);
        }
        let q2 = skip_spaces_from(cs, ne);
        if q2 >= n || cs[q2] != '=' {
            return Err(FatalError::MalformedMarkup);
        }
        let q3 = skip_spaces_from(cs, q2 + 1);
        if q3 >= n || !(cs[q3] == '"' || cs[q3] == '\'') {
            return Err(FatalError::MalformedMarkup);
        }
        let qe = find_char_from(cs, q3 + 1, cs[q3]);
        if qe >= n {
            return Err(FatalError::MalformedMarkup);
        }
        let ghost name = cs@.subrange(q1 as int, ne as int);
        let is_n = ne - q1 == 1 && cs[q1] == 'N';
        let is_type = ne - q1 == 4 && cs[q1] == 'T' && cs[q1 + 1] == 'Y' && cs[q1 + 2] == 'P'
            && cs[q1 + 3] == 'E';
        proof {
            if is_n {
                assert(name =~= n_name());
            } else if name == n_name() {
                assert(name.len() == 1);
                assert(name[0] == cs@[q1 as int]);
                assert(false);
            }
            if is_type {
                assert(name =~= ty_attr_name());
            } else if name == ty_attr_name() {
                assert(name.len() == 4);
                assert(name[0] == cs@[q1 as int]);
                assert(name[1] == cs@[q1 as int + 1]);
                assert(name[2] == cs@[q1 as int + 2]);
                assert(name[3] == cs@[q1 as int + 3]);
                assert(false);
            }
        }
        if an.is_none() && is_n {
            an = Some(chars_to_string(cs, q3 + 1, qe));
        } else if at.is_none() && is_type {
            at = Some(chars_to_string(cs, q3 + 1, qe));
        }
        proof {
            lemma_skip_spaces(cs@, q as int);
            lemma_attr_name_end(cs@, q1 as int);
        }
        q = qe + 1;
    }
}

/// One tokenizer step at position `p`: the event produced, if any, and
/// the position where the next step starts.
pub open spec fn step_spec(s: Seq<char>, p: int) -> Result<(Option<EventView>, int), ()> {
    if p < 0 || p >= s.len() {
        Err(())
    } else if s[p] == '<' {
        if p + 1 < s.len() && s[p + 1] == '/' {
            let g = find_from(s, p, '>');
            if g >= s.len() {
                Err(())
            } else {
                Ok((Some(EventView::Close), g + 1))
            }
        } else if p + 3 < s.len() && s[p + 1] == '!' && s[p + 2] == '-' && s[p + 3] == '-' {
            let e = find_dashes(s, p + 4);
            if e >= s.len() {
                Err(())
            } else {
                Ok((None, e + 3))
            }
        } else if p + 1 < s.len() && (s[p + 1] == '!' || s[p + 1] == '?') {
            let g = find_from(s, p, '>');
            if g >= s.len() {
                Err(())
            } else {
                Ok((None, g + 1))
            }
        } else if p + 1 >= s.len() {
            Err(())
        } else {
            let ne = name_end(s, p + 1);
            if ne == p + 1 {
                Err(())
            } else {
                match scan_attrs(s, ne, None, None) {
                    Err(()) => Err(()),
                    Ok((an, at, sc, nx)) => if sc {
                        Ok((None, nx))
                    } else {
                        Ok(
                            (
                                Some(
                                    EventView::Open(
                                        TagView {
                                            name: s.subrange(p + 1, ne),
                                            attr_n: an,
                                            attr_type: at,
                                        },
                                    ),
                                ),
                                nx,
                            ),
                        )
                    },
                }
            }
        }
    } else {
        let lt = find_from(s, p, '<');
        let t = trim(s.subrange(p, lt));
        if t.len() == 0 {
            Ok((None, lt))
        } else {
            Ok((Some(EventView::Text(t)), lt))
        }
    }
}

/// A tokenizer step moves forward and stays inside the string.
pub proof fn lemma_step_bounds(s: Seq<char>, p: int)
    requires
        0 <= p < s.len(),
    ensures
        match step_spec(s, p) {
            Ok(r) => p < r.1 <= s.len(),
            Err(()) => true,
        },
{
    lemma_find_from(s, p, '>');
    lemma_find_from(s, p, '<');
    if p + 3 < s.len() {
        lemma_find_dashes(s, p + 4);
    }
    if p + 1 < s.len() {
        lemma_name_end(s, p + 1);
        let ne = name_end(s, p + 1);
        if 0 <= ne <= s.len() {
            lemma_scan_attrs_bounds(s, ne, None, None);
        }
    }
}

/// The value of an optional event.
pub open spec fn opt_ev_view(o: Option<MarkupEvent>) -> Option<EventView> {
    match o {
        Some(e) => Some(e@),
        None => None,
    }
}

/// One tokenizer step, executable counterpart of `step_spec`.
fn next_token(cs: &Vec<char>, p: usize) -> (r: Result<(Option<MarkupEvent>, usize), FatalError>)
    requires
        p < cs.len(),
    ensures
        match r {
            Ok(t) => step_spec(cs@, p as int) matches Ok(sp) && sp.0 == opt_ev_view(t.0) && sp.1
                == t.1 as int,
            Err(e) => step_spec(cs@, p as int) is Err && e == FatalError::MalformedMarkup,
        },
{
    let n = cs.len();
    if cs[p] == '<' {
        if p + 1 < n && cs[p + 1] == '/' {
            let g = find_char_from(cs, p, '>');
            if g >= n {
                return Err(FatalError::MalformedMarkup);
            }
            return Ok((Some(MarkupEvent::Close), g + 1));
        }
        if n - p > 3 && cs[p + 1] == '!' && cs[p + 2] == '-' && cs[p + 3] == '-' {
            let e = find_dashes_from(cs, p + 4);
            if e >= n {
                return Err(FatalError::MalformedMarkup);
            }
            proof {
                lemma_find_dashes(cs@, p as int + 4);
            }
            return Ok((None, e + 3));
        }
        if p + 1 < n && (cs[p + 1] == '!' || cs[p + 1] == '?') {
            let g = find_char_from(cs, p, '>');
            if g >= n {
                return Err(FatalError::MalformedMarkup);
            }
            return Ok((None, g + 1));
        }
        if p + 1 >= n {
            return Err(FatalError::MalformedMarkup);
        }
        let ne = name_end_from(cs, p + 1);
        if ne == p + 1 {
            return Err(FatalError::MalformedMarkup);
        }
        match scan_attrs_exec(cs, ne) {
            Err(e) => Err(e),
            Ok((an, at, sc, nx)) => {
                if sc {
                    Ok((None, nx))
                } else {
                    let name = chars_to_string(cs, p + 1, ne);
                    Ok((Some(MarkupEvent::Open(TagInfo { name, attr_n: an, attr_type: at })), nx))
                }
            },
        }
    } else {
        let lt = find_char_from(cs, p, '<');
        let (t0, t1) = trim_bounds(cs, p, lt);
        if t0 == t1 {
            proof {
                assert(trim(cs@.subrange(p as int, lt as int)).len() == 0);
            }
            Ok((None, lt))
        } else {
            let t = chars_to_string(cs, t0, t1);
            Ok((Some(MarkupEvent::Text(t)), lt))
        }
    }
}

/// All events of the markup from position `p` on.
pub open spec fn tokenize_from(s: Seq<char>, p: int) -> Result<Seq<EventView>, ()>
    decreases s.len() - p,
    via tokenize_from_decreases
{
    if p < 0 {
        Err(())
    } else if p >= s.len() {
        Ok(seq![])
    } else {
        match step_spec(s, p) {
            Err(()) => Err(()),
            Ok((ev, nx)) => match tokenize_from(s, nx) {
                Err(()) => Err(()),
                Ok(rest) => Ok(
                    match ev {
                        Some(e) => seq![e] + rest,
                        None => rest,
                    },
                ),
            },
        }
    }
}

#[via_fn]
proof fn tokenize_from_decreases(s: Seq<char>, p: int) {
    if 0 <= p < s.len() {
        lemma_step_bounds(s, p);
    }
}

/// Turn the markup text into its event stream; refused when the markup
/// cannot be tokenized.
pub fn tokenize(input: &str) -> (r: Result<Vec<MarkupEvent>, FatalError>)
    ensures
        match r {
            Ok(v) => tokenize_from(input@, 0) matches Ok(evs) && evs == v@.map_values(
                |e: MarkupEvent| e@,
            ),
            Err(e) => tokenize_from(input@, 0) is Err && e == FatalError::MalformedMarkup,
        },
{
    let cs = str_chars(input);
    let n = cs.len();
    let mut out: Vec<MarkupEvent> = Vec::new();
    let mut p: usize = 0;
    while p < n
        invariant
            cs@ == input@,
            n == cs.len(),
            p <= n,
            match tokenize_from(cs@, p as int) {
                Ok(rest) => tokenize_from(cs@, 0) matches Ok(all) && all == out@.map_values(
                    |e: MarkupEvent| e@,
                ) + rest,
                Err(()) => tokenize_from(cs@, 0) is Err,
            },
        decreases n - p,
    {
        match next_token(&cs, p) {
            Err(e) => {
                return Err(e);
            },
            Ok((ev, nx)) => {
                proof {
                    lemma_step_bounds(cs@, p as int);
                }
                let ghost old_out = out@;
                match ev {
                    Some(e) => {
                        out.push(e);
                        proof {
                            assert(out@.map_values(|e: MarkupEvent| e@) =~= old_out.map_values(
                                |e: MarkupEvent| e@,
                            ) + seq![out@.last()@]);
                        }
                    },
                    None => {},
                }
                proof {
                    if tokenize_from(cs@, nx as int) is Ok {
                        let rest = tokenize_from(cs@, nx as int)->Ok_0;
                        let full = tokenize_from(cs@, p as int)->Ok_0;
                        assert(out@.map_values(|e: MarkupEvent| e@) + rest =~= old_out.map_values(
                            |e: MarkupEvent| e@,
                        ) + full);
                    }
                }
                p = nx;
            },
        }
    }
    proof {
        assert(tokenize_from(cs@, p as int) matches Ok(rest) && rest == Seq::<EventView>::empty());
        assert(out@.map_values(|e: MarkupEvent| e@) + Seq::<EventView>::empty() =~= out@.map_values(
            |e: MarkupEvent| e@,
        ));
    }
    Ok(out)
}

} // verus!
