//! CSS colour values, as far as they are integers: `transparent`, `#rgb`
//! and `#rrggbb` (channels 0 to 255), the named colours, and the trimmed
//! arguments of `rgb(..)` / `rgba(..)`, whose numbers (which may be
//! fractions or percentages) are read as floating point by the renderer.
use vstd::prelude::*;
use vstd::utf8::{encode_utf8, is_char_boundary};
use vstd::string::StringSliceAdditionalSpecFns;

use crate::text::{
    chars_of, eq_lit, rspan, split_char, split_on, starts, string_of, to_lowercase, trim, trim_chars,
    trim_str, unicode_lower, vviews, lemma_rspan_le,
};

verus! {

/// The colours that have a name.
#[derive(Clone, Copy, PartialEq, Eq, Structural)]
pub enum NamedColor {
    Black,
    White,
    Gray,
    Red,
    Green,
    Blue,
    Yellow,
}

/// A colour value: fully transparent, three 8-bit channels, a named
/// colour, or the trimmed comma-separated arguments of `rgb(..)` /
/// `rgba(..)` (at least three).
pub enum CssColor {
    Transparent,
    Hex(u8, u8, u8),
    Named(NamedColor),
    Functional(Vec<String>),
}

/// The model of a colour value.
pub enum ColorView {
    Transparent,
    Hex(u8, u8, u8),
    Named(NamedColor),
    Functional(Seq<Seq<char>>),
}

impl CssColor {
    pub open spec fn cv(&self) -> ColorView {
        match self {
            CssColor::Transparent => ColorView::Transparent,
            CssColor::Hex(r, g, b) => ColorView::Hex(*r, *g, *b),
            CssColor::Named(n) => ColorView::Named(*n),
            CssColor::Functional(v) => ColorView::Functional(string_views(v@)),
        }
    }
}

pub open spec fn string_views(v: Seq<String>) -> Seq<Seq<char>> {
    Seq::new(v.len(), |i: int| v[i]@)
}

pub open spec fn trims(v: Seq<Seq<char>>) -> Seq<Seq<char>> {
    Seq::new(v.len(), |i: int| trim(v[i]))
}

/// The value of an ASCII hexadecimal digit byte.
pub open spec fn hex_digit(b: u8) -> Option<nat> {
    if 48 <= b <= 57 {
        Some((b - 48) as nat)
    } else if 97 <= b <= 102 {
        Some((b - 87) as nat)
    } else if 65 <= b <= 70 {
        Some((b - 55) as nat)
    } else {
        None
    }
}

/// The number that hexadecimal digit bytes write, `None` when one is not
/// a digit.
pub open spec fn hex_value(d: Seq<u8>) -> Option<nat>
    decreases d.len(),
{
    if d.len() == 0 {
        Some(0)
    } else {
        match (hex_value(d.drop_last()), hex_digit(d.last())) {
            (Some(v), Some(x)) => Some(v * 16 + x),
            _ => None,
        }
    }
}

/// `u8::from_str_radix(_, 16)` on the bytes of a text: an optional `+`,
/// then at least one digit, and a value below 256.
pub open spec fn hex_u8(bs: Seq<u8>) -> Option<u8> {
    let d = if bs.len() > 0 && bs[0] == 43 {
        bs.drop_first()
    } else {
        bs
    };
    if d.len() == 0 {
        None
    } else {
        match hex_value(d) {
            Some(v) => if v <= 255 {
                Some(v as u8)
            } else {
                None
            },
            None => None,
        }
    }
}

/// A text with every leading `p` removed.
pub open spec fn strip_prefixes(s: Seq<char>, p: Seq<char>) -> Seq<char>
    decreases s.len(),
{
    if p.len() > 0 && starts(s, p) {
        strip_prefixes(s.skip(p.len() as int), p)
    } else {
        s
    }
}

pub open spec fn close_paren_pred() -> spec_fn(char) -> bool {
    |c: char| c == ')'
}

/// A text with every trailing `)` removed.
pub open spec fn strip_close_parens(s: Seq<char>) -> Seq<char> {
    s.take(s.len() - rspan(s, close_paren_pred()))
}

/// The lower-cased, trimmed text a colour is read from.
pub open spec fn color_text(s: Seq<char>) -> Seq<char> {
    unicode_lower(trim(s))
}

/// The bytes after a leading `#`, when the text has one.
pub open spec fn hex_bytes(t: Seq<char>) -> Seq<u8> {
    encode_utf8(t.drop_first())
}

pub open spec fn has_hash(t: Seq<char>) -> bool {
    t.len() > 0 && t[0] == '#'
}

/// The three channels of `#rgb`: each digit written twice.
pub open spec fn hex3(hb: Seq<u8>) -> Option<(u8, u8, u8)> {
    let r = hex_u8(hb.subrange(0, 1) + hb.subrange(0, 1));
    let g = hex_u8(hb.subrange(1, 2) + hb.subrange(1, 2));
    let b = hex_u8(hb.subrange(2, 3) + hb.subrange(2, 3));
    match (r, g, b) {
        (Some(r), Some(g), Some(b)) => Some((r, g, b)),
        _ => None,
    }
}

/// The three channels of `#rrggbb`.
pub open spec fn hex6(hb: Seq<u8>) -> Option<(u8, u8, u8)> {
    let r = hex_u8(hb.subrange(0, 2));
    let g = hex_u8(hb.subrange(2, 4));
    let b = hex_u8(hb.subrange(4, 6));
    match (r, g, b) {
        (Some(r), Some(g), Some(b)) => Some((r, g, b)),
        _ => None,
    }
}

/// Whether reading the colour slices a text inside a character: the
/// digits of `#rgb` and `#rrggbb` are cut at byte offsets, one after the
/// other, and a cut that is not at a character boundary panics.
pub open spec fn color_panics(s: Seq<char>) -> bool {
    let t = color_text(s);
    let hb = hex_bytes(t);
    &&& t != "transparent"@
    &&& has_hash(t)
    &&& ((hb.len() == 3 && (!is_char_boundary(hb, 1) || (hex_u8(hb.subrange(0, 1) + hb.subrange(0, 1))
        is Some && !is_char_boundary(hb, 2)))) || (hb.len() == 6 && (!is_char_boundary(hb, 2) || (
    hex_u8(hb.subrange(0, 2)) is Some && !is_char_boundary(hb, 4)))))
}

/// The arguments of `rgb(..)` / `rgba(..)`: each leading `rgba(`, then
/// each leading `rgb(`, and each trailing `)` removed, split at commas and
/// trimmed.
pub open spec fn color_args(t: Seq<char>) -> Seq<Seq<char>> {
    let inside = strip_close_parens(strip_prefixes(strip_prefixes(t, "rgba("@), "rgb("@));
    trims(split_on(inside, ','))
}

pub open spec fn named_color(t: Seq<char>) -> Option<NamedColor> {
    if t == "black"@ {
        Some(NamedColor::Black)
    } else if t == "white"@ {
        Some(NamedColor::White)
    } else if t == "gray"@ || t == "grey"@ {
        Some(NamedColor::Gray)
    } else if t == "red"@ {
        Some(NamedColor::Red)
    } else if t == "green"@ {
        Some(NamedColor::Green)
    } else if t == "blue"@ {
        Some(NamedColor::Blue)
    } else if t == "yellow"@ {
        Some(NamedColor::Yellow)
    } else {
        None
    }
}

/// The colour a text names, when it names one.
pub open spec fn color_spec(s: Seq<char>) -> Option<ColorView> {
    let t = color_text(s);
    let hb = hex_bytes(t);
    if t == "transparent"@ {
        Some(ColorView::Transparent)
    } else if has_hash(t) && hb.len() == 3 {
        match hex3(hb) {
            Some((r, g, b)) => Some(ColorView::Hex(r, g, b)),
            None => None,
        }
    } else if has_hash(t) && hb.len() == 6 {
        match hex6(hb) {
            Some((r, g, b)) => Some(ColorView::Hex(r, g, b)),
            None => None,
        }
    } else if starts(t, "rgb("@) || starts(t, "rgba("@) {
        let args = color_args(t);
        if args.len() < 3 {
            None
        } else {
            Some(ColorView::Functional(args))
        }
    } else {
        match named_color(t) {
            Some(n) => Some(ColorView::Named(n)),
            None => None,
        }
    }
}

fn hex_digit_of(b: u8) -> (r: Option<u8>)
    ensures
        match r {
            Some(x) => hex_digit(b) == Some(x as nat) && x < 16,
            None => hex_digit(b) is None,
        },
{
    if 48 <= b && b <= 57 {
        Some(b - 48)
    } else if 97 <= b && b <= 102 {
        Some(b - 87)
    } else if 65 <= b && b <= 70 {
        Some(b - 55)
    } else {
        None
    }
}

/// `u8::from_str_radix(_, 16)` on bytes.
fn parse_hex_u8(bs: &[u8]) -> (r: Option<u8>)
    ensures
        r == hex_u8(bs@),
{
    let start: usize = if bs.len() > 0 && bs[0] == 43 {
        1
    } else {
        0
    };
    let ghost d = if bs@.len() > 0 && bs@[0] == 43 {
        bs@.drop_first()
    } else {
        bs@
    };
    assert(d =~= bs@.skip(start as int));
    if start >= bs.len() {
        return None;
    }
    let mut v: u32 = 0;
    let mut i: usize = start;
    while i < bs.len()
        invariant
            start <= i <= bs@.len(),
            d == bs@.skip(start as int),
            d == (if bs@.len() > 0 && bs@[0] == 43 {
                bs@.drop_first()
            } else {
                bs@
            }),
            d.len() > 0,
            hex_value(d.take(i - start)) == Some(v as nat),
            v <= 255,
        decreases bs@.len() - i,
    {
        assert(d.take(i - start + 1).drop_last() =~= d.take(i - start));
        assert(d.take(i - start + 1).last() == bs@[i as int]);
        match hex_digit_of(bs[i]) {
            Some(x) => {
                let nv: u32 = v * 16 + x as u32;
                assert(hex_value(d.take(i - start + 1)) == Some(nv as nat));
                if nv > 255 {
                    proof {
                        lemma_hex_value_not_u8(d, (i - start + 1) as int);
                        assert(not_u8(hex_value(d)));
                    }
                    return None;
                }
                v = nv;
            },
            None => {
                proof {
                    assert(hex_value(d.take(i - start + 1)) is None);
                    lemma_hex_value_not_u8(d, (i - start + 1) as int);
                    assert(not_u8(hex_value(d)));
                }
                return None;
            },
        }
        i += 1;
    }
    assert(d.take(i - start) =~= d);
    Some(v as u8)
}

/// A digit count whose value is missing or too large for a `u8`.
pub open spec fn not_u8(o: Option<nat>) -> bool {
    match o {
        Some(v) => v > 255,
        None => true,
    }
}

proof fn lemma_hex_value_not_u8(d: Seq<u8>, k: int)
    requires
        0 < k <= d.len(),
        not_u8(hex_value(d.take(k))),
    ensures
        not_u8(hex_value(d)),
    decreases d.len() - k,
{
    if k < d.len() {
        assert(d.take(k + 1).drop_last() =~= d.take(k));
        lemma_hex_value_not_u8(d, k + 1);
    } else {
        assert(d.take(k) =~= d);
    }
}

/// Every leading `p` removed.
fn strip_prefixes_exec(s: &[char], p: &str) -> (r: Vec<char>)
    requires
        p@.len() > 0,
    ensures
        r@ == strip_prefixes(s@, p@),
{
    let pc = chars_of(p);
    let mut i: usize = 0;
    assert(s@.skip(0) =~= s@);
    while pc.len() <= s.len() - i && crate::text::matches_at(s, i, pc.as_slice())
        invariant
            i <= s@.len(),
            pc@ == p@,
            p@.len() > 0,
            strip_prefixes(s@.skip(i as int), p@) == strip_prefixes(s@, p@),
        decreases s@.len() - i,
    {
        proof {
            assert(s@.skip(i as int).subrange(0, p@.len() as int) =~= s@.subrange(i as int, i + p@.len()));
            assert(s@.skip(i as int).skip(p@.len() as int) =~= s@.skip(i + p@.len()));
        }
        i += pc.len();
    }
    proof {
        if i + pc@.len() <= s@.len() {
            assert(s@.skip(i as int).subrange(0, p@.len() as int) =~= s@.subrange(i as int, i + p@.len()));
        }
    }
    vstd::slice::slice_to_vec(vstd::slice::slice_subrange(s, i, s.len()))
}

/// Every trailing `)` removed.
fn strip_close_parens_exec(s: &[char]) -> (r: Vec<char>)
    ensures
        r@ == strip_close_parens(s@),
{
    let mut j: usize = s.len();
    while j > 0 && s[j - 1] == ')'
        invariant
            j <= s@.len(),
            forall|k: int| j <= k < s@.len() ==> s@[k] == ')',
        decreases j,
    {
        j -= 1;
    }
    proof {
        crate::text::lemma_rspan_is(s@, close_paren_pred(), (s@.len() - j) as int);
    }
    vstd::slice::slice_to_vec(vstd::slice::slice_subrange(s, 0, j))
}

fn named_color_of(t: &[char]) -> (r: Option<NamedColor>)
    ensures
        r == named_color(t@),
{
    if eq_lit(t, "black") {
        Some(NamedColor::Black)
    } else if eq_lit(t, "white") {
        Some(NamedColor::White)
    } else if eq_lit(t, "gray") || eq_lit(t, "grey") {
        Some(NamedColor::Gray)
    } else if eq_lit(t, "red") {
        Some(NamedColor::Red)
    } else if eq_lit(t, "green") {
        Some(NamedColor::Green)
    } else if eq_lit(t, "blue") {
        Some(NamedColor::Blue)
    } else if eq_lit(t, "yellow") {
        Some(NamedColor::Yellow)
    } else {
        None
    }
}

/// The lower-cased, trimmed text and, after a `#`, the text of the digits.
fn color_parts(s: &str) -> (r: (Vec<char>, String))
    ensures
        r.0@ == color_text(s@),
        has_hash(r.0@) ==> r.1@ == r.0@.drop_first(),
{
    let lowered = to_lowercase(string_of(trim_str(s).as_slice()).as_str());
    let t = chars_of(lowered.as_str());
    if t.len() > 0 && t[0] == '#' {
        let h = string_of(vstd::slice::slice_subrange(t.as_slice(), 1, t.len()));
        assert(t@.subrange(1, t@.len() as int) =~= t@.drop_first());
        (t, h)
    } else {
        (t, String::new())
    }
}

/// Whether a colour text can be read without cutting inside a character
/// (see `color_panics`).
pub fn color_text_ok(s: &str) -> (r: bool)
    ensures
        r == !color_panics(s@),
{
    let (t, h) = color_parts(s);
    if eq_lit(t.as_slice(), "transparent") || !(t.len() > 0 && t[0] == '#') {
        return true;
    }
    let hs = h.as_str();
    let hb = hs.as_bytes();
    assert(hb@ == hex_bytes(t@));
    if hb.len() == 3 {
        if !hs.is_char_boundary(1) {
            return false;
        }
        let one = vstd::slice::slice_subrange(hb, 0, 1);
        let mut dup = vstd::slice::slice_to_vec(one);
        dup.push(hb[0]);
        assert(dup@ =~= hb@.subrange(0, 1) + hb@.subrange(0, 1));
        match parse_hex_u8(dup.as_slice()) {
            Some(_) => hs.is_char_boundary(2),
            None => true,
        }
    } else if hb.len() == 6 {
        if !hs.is_char_boundary(2) {
            return false;
        }
        let first = vstd::slice::slice_subrange(hb, 0, 2);
        match parse_hex_u8(first) {
            Some(_) => hs.is_char_boundary(4),
            None => true,
        }
    } else {
        true
    }
}

/// The colour a text names: `transparent`, `#rgb`, `#rrggbb`, `rgb(..)` /
/// `rgba(..)` with at least three arguments, or a named colour; `None`
/// otherwise.
pub fn parse_css_color(s: &str) -> (r: Option<CssColor>)
    requires
        !color_panics(s@),
    ensures
        match r {
            Some(c) => color_spec(s@) == Some(c.cv()),
            None => color_spec(s@) is None,
        },
{
    let (t, h) = color_parts(s);
    if eq_lit(t.as_slice(), "transparent") {
        return Some(CssColor::Transparent);
    }
    let hash = t.len() > 0 && t[0] == '#';
    if hash {
        let hs = h.as_str();
        let hb = hs.as_bytes();
        assert(hb@ == hex_bytes(t@));
        if hb.len() == 3 {
            let mut r2: Vec<u8> = Vec::new();
            r2.push(hb[0]);
            r2.push(hb[0]);
            assert(r2@ =~= hb@.subrange(0, 1) + hb@.subrange(0, 1));
            let r = match parse_hex_u8(r2.as_slice()) {
                Some(x) => x,
                None => {
                    return None;
                },
            };
            let mut g2: Vec<u8> = Vec::new();
            g2.push(hb[1]);
            g2.push(hb[1]);
            assert(g2@ =~= hb@.subrange(1, 2) + hb@.subrange(1, 2));
            let g = match parse_hex_u8(g2.as_slice()) {
                Some(x) => x,
                None => {
                    return None;
                },
            };
            let mut b2: Vec<u8> = Vec::new();
            b2.push(hb[2]);
            b2.push(hb[2]);
            assert(b2@ =~= hb@.subrange(2, 3) + hb@.subrange(2, 3));
            let b = match parse_hex_u8(b2.as_slice()) {
                Some(x) => x,
                None => {
                    return None;
                },
            };
            return Some(CssColor::Hex(r, g, b));
        }
        if hb.len() == 6 {
            let r = match parse_hex_u8(vstd::slice::slice_subrange(hb, 0, 2)) {
                Some(x) => x,
                None => {
                    return None;
                },
            };
            let g = match parse_hex_u8(vstd::slice::slice_subrange(hb, 2, 4)) {
                Some(x) => x,
                None => {
                    return None;
                },
            };
            let b = match parse_hex_u8(vstd::slice::slice_subrange(hb, 4, 6)) {
                Some(x) => x,
                None => {
                    return None;
                },
            };
            return Some(CssColor::Hex(r, g, b));
        }
    }
    let ts = t.as_slice();
    if crate::text::starts_lit(ts, "rgb(") || crate::text::starts_lit(ts, "rgba(") {
        proof {
            reveal_strlit("rgba(");
            reveal_strlit("rgb(");
        }
        let a = strip_prefixes_exec(ts, "rgba(");
        let b = strip_prefixes_exec(a.as_slice(), "rgb(");
        let inside = strip_close_parens_exec(b.as_slice());
        let pieces = split_char(inside.as_slice(), ',');
        let ghost pv = vviews(pieces@);
        let mut parts: Vec<String> = Vec::new();
        let mut i: usize = 0;
        while i < pieces.len()
            invariant
                i <= pieces@.len(),
                pv == vviews(pieces@),
                string_views(parts@) == trims(pv.take(i as int)),
                parts@.len() == i,
            decreases pieces@.len() - i,
        {
            assert(pieces@[i as int]@ == pv[i as int]);
            let p = string_of(trim_chars(pieces[i].as_slice()).as_slice());
            let ghost before = parts@;
            assert(pv.take(i + 1) =~= pv.take(i as int).push(pv[i as int]));
            assert(p@ == trim(pv[i as int]));
            parts.push(p);
            assert forall|k: int| 0 <= k < i + 1 implies #[trigger] string_views(parts@)[k] == trims(pv.take(i + 1))[k] by {
                if k < i {
                    assert(parts@[k] == before[k]);
                    assert(string_views(before)[k] == trims(pv.take(i as int))[k]);
                }
            }
            assert(string_views(parts@) =~= trims(pv.take(i + 1)));
            i += 1;
        }
        assert(pv.take(i as int) =~= pv);
        assert(string_views(parts@).len() == parts@.len());
        if parts.len() < 3 {
            return None;
        }
        return Some(CssColor::Functional(parts));
    }
    match named_color_of(ts) {
        Some(n) => Some(CssColor::Named(n)),
        None => None,
    }
}

} // verus!
