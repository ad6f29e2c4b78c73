//! HTML parser: elements, attributes, text with entities, raw `script` and
//! `style` text, and a document normalised to `html` / `head` / `body`.
use vstd::prelude::*;

use crate::css::ws_end;
use crate::dom::{
    all_wf, dvs, elem, map_get, text, Attributes, DomView, ElementData, Node, NodeType,
};
use crate::text::{
    at, chars_of, eq_lit, first_of, is_alphanumeric, is_whitespace, is_ws, lemma_span_is,
    lemma_span_le, lower, is_ascii_upper, matches_at, matches_lit_at, ne_pred, parse_uint, parse_unsigned, span,
    string_of, to_ascii_lower, unicode_alnum, ws_pred, sub_pos, find_sub, lemma_sub_pos_bound,
    to_lowercase, trim, unicode_lower,
};

verus! {

// ---------------------------------------------------------------------
// Entities.
// ---------------------------------------------------------------------

/// A Unicode scalar value, the codes that `char::from_u32` accepts.
pub open spec fn is_scalar(v: nat) -> bool {
    v < 0xD800 || (0xE000 <= v && v <= 0x10FFFF)
}

/// The text that the entity `&e;` stands for, if it is known.
pub open spec fn entity_value(e: Seq<char>) -> Option<Seq<char>> {
    if e == "amp"@ {
        Some("&"@)
    } else if e == "lt"@ {
        Some("<"@)
    } else if e == "gt"@ {
        Some(">"@)
    } else if e == "quot"@ {
        Some("\""@)
    } else if e == "apos"@ {
        Some("'"@)
    } else if e == "nbsp"@ {
        Some("\u{00A0}"@)
    } else if e.len() > 0 && e[0] == '#' {
        let num = e.drop_first();
        let code = if num.len() > 0 && (num[0] == 'x' || num[0] == 'X') {
            parse_unsigned(num.drop_first(), 16, 0xffff_ffff)
        } else {
            parse_unsigned(num, 10, 0xffff_ffff)
        };
        match code {
            Some(v) => if is_scalar(v) {
                Some(seq![v as char])
            } else {
                None
            },
            None => None,
        }
    } else {
        None
    }
}

/// The text `cs[i..]` with entities decoded; an entity is `&name;` with the
/// `;` at most 32 characters after the `&`.
pub open spec fn decode_from(cs: Seq<char>, i: int) -> Seq<char>
    decreases cs.len() - i,
{
    if i < 0 || i >= cs.len() {
        Seq::empty()
    } else if cs[i] == '&' {
        let lim = if cs.len() < i + 33 {
            cs.len() as int
        } else {
            i + 33
        };
        let w = cs.subrange(i + 1, lim);
        let k = first_of(w, ';');
        if k < w.len() {
            let end = i + 1 + k;
            match entity_value(cs.subrange(i + 1, end)) {
                Some(d) => d + decode_from(cs, end + 1),
                None => seq!['&'] + decode_from(cs, i + 1),
            }
        } else {
            seq!['&'] + decode_from(cs, i + 1)
        }
    } else {
        seq![cs[i]] + decode_from(cs, i + 1)
    }
}

pub open spec fn decode_entities_spec(cs: Seq<char>) -> Seq<char> {
    decode_from(cs, 0)
}

/// Calls `char::from_u32`, which gives the character of a Unicode scalar
/// value and nothing otherwise.
#[verifier::external_body]
fn char_from_u32(v: u32) -> (r: Option<char>)
    ensures
        r matches Some(c) ==> is_scalar(v as nat) && c == v as char,
        r is None ==> !is_scalar(v as nat),
{
    char::from_u32(v)
}

fn decode_one_entity(entity: &[char]) -> (r: Option<Vec<char>>)
    ensures
        r matches Some(v) ==> entity_value(entity@) == Some(v@),
        r is None ==> entity_value(entity@) is None,
{
    if eq_lit(entity, "amp") {
        return Some(chars_of("&"));
    }
    if eq_lit(entity, "lt") {
        return Some(chars_of("<"));
    }
    if eq_lit(entity, "gt") {
        return Some(chars_of(">"));
    }
    if eq_lit(entity, "quot") {
        return Some(chars_of("\""));
    }
    if eq_lit(entity, "apos") {
        return Some(chars_of("'"));
    }
    if eq_lit(entity, "nbsp") {
        return Some(chars_of("\u{00A0}"));
    }
    if entity.len() > 0 && entity[0] == '#' {
        let num = vstd::slice::slice_subrange(entity, 1, entity.len());
        assert(num@ =~= entity@.drop_first());
        let code = if num.len() > 0 && (num[0] == 'x' || num[0] == 'X') {
            let hex = vstd::slice::slice_subrange(num, 1, num.len());
            assert(hex@ =~= num@.drop_first());
            parse_uint(hex, 16, 0xffff_ffff)
        } else {
            parse_uint(num, 10, 0xffff_ffff)
        };
        return match code {
            Some(v) => match char_from_u32(v) {
                Some(c) => Some(vec![c]),
                None => None,
            },
            None => None,
        };
    }
    None
}

/// Decodes `&name;` and `&#n;` / `&#xh;` entities.
fn decode_entities(input: &[char]) -> (r: Vec<char>)
    ensures
        r@ == decode_entities_spec(input@),
{
    let mut out: Vec<char> = Vec::new();
    let mut i: usize = 0;
    while i < input.len()
        invariant
            i <= input@.len(),
            out@ + decode_from(input@, i as int) == decode_from(input@, 0),
        decreases input@.len() - i,
    {
        let ghost o = out@;
        if input[i] == '&' {
            let mut j = i + 1;
            let mut found: Option<usize> = None;
            while j < input.len() && j - i <= 32
                invariant_except_break
                    found is None,
                invariant
                    i < j <= input@.len(),
                    j <= i + 33,
                    forall|k: int| i + 1 <= k < j ==> input@[k] != ';',
                ensures
                    found matches Some(e) ==> e == j && j < input@.len() && input@[j as int] == ';'
                        && j <= i + 32,
                    found is None ==> j == input@.len() || j == i + 33,
                decreases input@.len() - j,
            {
                if input[j] == ';' {
                    found = Some(j);
                    break;
                }
                j += 1;
            }
            let ghost lim = if input@.len() < i + 33 { input@.len() as int } else { i + 33 };
            let ghost w = input@.subrange(i + 1, lim);
            proof {
                assert forall|k: int| 0 <= k < j - i - 1 implies (ne_pred(';'))(#[trigger] w[k]) by {
                    assert(w[k] == input@[i + 1 + k]);
                }
                if found is Some {
                    assert(w[j - i - 1] == input@[j as int]);
                } else {
                    assert(j == lim);
                }
                lemma_span_is(w, ne_pred(';'), j - i - 1);
            }
            if let Some(end) = found {
                let entity = vstd::slice::slice_subrange(input, i + 1, end);
                if let Some(decoded) = decode_one_entity(entity) {
                    let mut k: usize = 0;
                    while k < decoded.len()
                        invariant
                            k <= decoded@.len(),
                            out@ == o + decoded@.take(k as int),
                        decreases decoded@.len() - k,
                    {
                        out.push(decoded[k]);
                        assert(decoded@.take(k + 1) =~= decoded@.take(k as int).push(decoded@[k as int]));
                        k += 1;
                    }
                    assert(decoded@.take(k as int) =~= decoded@);
                    assert(out@ + decode_from(input@, end + 1) =~= o + (decoded@ + decode_from(input@, end + 1)));
                    i = end + 1;
                    continue;
                }
                out.push('&');
                assert(out@ + decode_from(input@, i + 1) =~= o + (seq!['&'] + decode_from(input@, i + 1)));
                i += 1;
                continue;
            }
        }
        out.push(input[i]);
        assert(out@ + decode_from(input@, i + 1) =~= o + (seq![input@[i as int]] + decode_from(input@, i + 1)));
        i += 1;
    }
    assert(out@ + Seq::<char>::empty() =~= out@);
    out
}

// ---------------------------------------------------------------------
// The grammar, as functions of the input `s` and a position `p`.
// ---------------------------------------------------------------------

pub open spec fn alnum_pred() -> spec_fn(char) -> bool {
    |c: char| unicode_alnum(c)
}

pub open spec fn key_pred() -> spec_fn(char) -> bool {
    |c: char| unicode_alnum(c) || c == '-' || c == '_'
}

pub open spec fn bare_value_pred() -> spec_fn(char) -> bool {
    |c: char| !is_ws(c) && c != '>'
}

/// The end of the run of letters and digits that starts at `p`.
pub open spec fn name_end(s: Seq<char>, p: int) -> int {
    p + span(s.skip(p), alnum_pred())
}

/// The end of the run that starts at `p` and contains no `c`.
pub open spec fn until(s: Seq<char>, p: int, c: char) -> int {
    p + span(s.skip(p), ne_pred(c))
}

/// One past `p` if `p` is inside the input.
pub open spec fn step(s: Seq<char>, p: int) -> int {
    if p < s.len() {
        p + 1
    } else {
        p
    }
}

/// An attribute value at `p` (after `=` and white space): its text and end.
pub open spec fn attr_value_at(s: Seq<char>, v0: int) -> (Seq<char>, int) {
    if v0 < s.len() && (s[v0] == '"' || s[v0] == '\'') {
        let e = until(s, v0 + 1, s[v0]);
        (s.subrange(v0 + 1, e), step(s, e))
    } else {
        let e = v0 + span(s.skip(v0), bare_value_pred());
        (s.subrange(v0, e), e)
    }
}

/// The attributes from `p`, added to `acc`, up to a `>` or `/`.
pub open spec fn attrs_from(s: Seq<char>, p: int, acc: Map<Seq<char>, Seq<char>>) -> (Map<
    Seq<char>,
    Seq<char>,
>, int)
    decreases s.len() - p,
{
    if p < 0 || p > s.len() {
        (acc, p)
    } else {
        let q = ws_end(s, p);
        proof {
            lemma_span_le(s.skip(p), ws_pred());
        }
        if q >= s.len() || s[q] == '>' || s[q] == '/' {
            (acc, q)
        } else {
            let k = q + span(s.skip(q), key_pred());
            proof {
                lemma_span_le(s.skip(q), key_pred());
            }
            if k == q {
                attrs_from(s, q + 1, acc)
            } else {
                let key = lower(s.subrange(q, k));
                let r = ws_end(s, k);
                proof {
                    lemma_span_le(s.skip(k), ws_pred());
                }
                if r >= s.len() || s[r] != '=' {
                    attrs_from(s, r, acc.insert(key, Seq::empty()))
                } else {
                    let v0 = ws_end(s, r + 1);
                    proof {
                        lemma_span_le(s.skip(r + 1), ws_pred());
                        lemma_attr_value_at(s, v0);
                    }
                    let (value, e) = attr_value_at(s, v0);
                    attrs_from(s, e, acc.insert(key, value))
                }
            }
        }
    }
}

pub open spec fn is_void_tag_spec(t: Seq<char>) -> bool {
    t == "meta"@ || t == "img"@ || t == "br"@ || t == "hr"@ || t == "input"@ || t == "link"@ || t
        == "area"@ || t == "base"@ || t == "col"@ || t == "embed"@ || t == "param"@ || t
        == "source"@ || t == "track"@ || t == "wbr"@
}

/// Tags whose start closes an open `p`.
pub open spec fn is_block_tag_spec(t: Seq<char>) -> bool {
    t == "html"@ || t == "body"@ || t == "div"@ || t == "p"@ || t == "h1"@ || t == "h2"@ || t
        == "h3"@ || t == "h4"@ || t == "h5"@ || t == "h6"@ || t == "ul"@ || t == "ol"@ || t
        == "li"@ || t == "section"@ || t == "header"@ || t == "footer"@ || t == "main"@ || t
        == "article"@ || t == "nav"@ || t == "table"@ || t == "form"@ || t == "pre"@
}

/// The raw text from `p` up to the first `end`, and the position after it.
pub open spec fn raw_text(s: Seq<char>, p: int, end: Seq<char>) -> (Seq<char>, int)
    decreases s.len() - p,
{
    if p < 0 || p >= s.len() {
        (Seq::empty(), p)
    } else if at(s, p, end) {
        (Seq::empty(), p + end.len())
    } else {
        let r = raw_text(s, p + 1, end);
        (seq![s[p]] + r.0, r.1)
    }
}

/// The lower-cased name of a start tag at `q`, if there is one.
pub open spec fn peek_start(s: Seq<char>, q: int) -> Option<Seq<char>> {
    if !at(s, q, "<"@) || at(s, q, "</"@) || at(s, q, "<!"@) {
        None
    } else {
        let e = name_end(s, q + 1);
        if e == q + 1 {
            None
        } else {
            Some(lower(s.subrange(q + 1, e)))
        }
    }
}

/// The lower-cased name of an end tag at `q`, if there is one.
pub open spec fn peek_end(s: Seq<char>, q: int) -> Option<Seq<char>> {
    if !at(s, q, "</"@) {
        None
    } else {
        let e = name_end(s, q + 2);
        if e == q + 2 {
            None
        } else {
            Some(lower(s.subrange(q + 2, e)))
        }
    }
}

/// The nodes from `p`, inside an element named `parent`: up to the end of
/// input, an end tag, or (inside `p`) a block start tag.
pub open spec fn nodes_at(s: Seq<char>, p: int, parent: Option<Seq<char>>) -> (Seq<DomView>, int)
    decreases s.len() - p, 2int,
{
    if p < 0 || p > s.len() {
        (Seq::empty(), p)
    } else {
        let q = ws_end(s, p);
        proof {
            lemma_span_le(s.skip(p), ws_pred());
        }
        if q >= s.len() {
            (Seq::empty(), q)
        } else if at(s, q, "</"@) {
            (Seq::empty(), q)
        } else if parent == Some("p"@) && s[q] == '<' && (peek_start(s, q) matches Some(t)
            && is_block_tag_spec(t)) {
            (Seq::empty(), q)
        } else {
            let (n, e) = node_at(s, q);
            if e <= q || e > s.len() {
                (seq![n], e)
            } else {
                let r = nodes_at(s, e, parent);
                (seq![n] + r.0, r.1)
            }
        }
    }
}

/// One node at `p`: a comment or doctype is skipped, then an element or a
/// text run.
pub open spec fn node_at(s: Seq<char>, p: int) -> (DomView, int)
    decreases s.len() - p, 1int,
{
    if 0 <= p < s.len() && s[p] == '<' {
        if at(s, p, "<!"@) {
            let p1 = until(s, p, '>');
            let p2 = step(s, p1);
            let p3 = ws_end(s, p2);
            proof {
                lemma_span_le(s.skip(p), ne_pred('>'));
                assert(s.skip(p)[0] == s[p]);
                lemma_span_le(s.skip(p2), ws_pred());
            }
            node_at(s, p3)
        } else {
            element_at(s, p)
        }
    } else if 0 <= p <= s.len() {
        let e = until(s, p, '<');
        (DomView::Text(decode_entities_spec(s.subrange(p, e))), e)
    } else {
        (DomView::Text(Seq::empty()), p)
    }
}

/// An element at `p`, which holds `<`.
pub open spec fn element_at(s: Seq<char>, p: int) -> (DomView, int)
    decreases s.len() - p, 0int,
{
    if 0 <= p < s.len() {
        let p1 = p + 1;
        let te = name_end(s, p1);
        let tag = lower(s.subrange(p1, te));
        proof {
            lemma_span_le(s.skip(p1), alnum_pred());
            lemma_attrs_from(s, te, Map::empty());
        }
        let (attrs, a_end) = attrs_from(s, te, Map::empty());
        let self_closing = a_end < s.len() && s[a_end] == '/';
        let p2 = if self_closing {
            a_end + 1
        } else {
            a_end
        };
        let p3 = until(s, p2, '>');
        let p4 = step(s, p3);
        proof {
            lemma_span_le(s.skip(p2), ne_pred('>'));
        }
        if self_closing || is_void_tag_spec(tag) {
            (DomView::Element(tag, attrs, Seq::empty()), p4)
        } else if tag == "script"@ || tag == "style"@ {
            let r = raw_text(s, p4, "</"@ + tag + ">"@);
            (DomView::Element(tag, attrs, seq![DomView::Text(r.0)]), r.1)
        } else {
            let (children, c_end) = nodes_at(s, p4, Some(tag));
            if at(s, c_end, "</"@) {
                let e2 = name_end(s, c_end + 2);
                let e3 = until(s, e2, '>');
                (DomView::Element(tag, attrs, children), step(s, e3))
            } else {
                (DomView::Element(tag, attrs, children), c_end)
            }
        }
    } else {
        (DomView::Text(Seq::empty()), p)
    }
}

pub proof fn lemma_attr_value_at(s: Seq<char>, v0: int)
    requires
        0 < v0 <= s.len(),
    ensures
        v0 <= attr_value_at(s, v0).1 <= s.len(),
{
    if v0 < s.len() && (s[v0] == '"' || s[v0] == '\'') {
        lemma_span_le(s.skip(v0 + 1), ne_pred(s[v0]));
    } else {
        lemma_span_le(s.skip(v0), bare_value_pred());
    }
}

pub proof fn lemma_attrs_from(s: Seq<char>, p: int, acc: Map<Seq<char>, Seq<char>>)
    requires
        0 <= p <= s.len(),
    ensures
        p <= attrs_from(s, p, acc).1 <= s.len(),
    decreases s.len() - p,
{
    lemma_span_le(s.skip(p), ws_pred());
    let q = ws_end(s, p);
    if !(q >= s.len() || s[q] == '>' || s[q] == '/') {
        lemma_span_le(s.skip(q), key_pred());
        let k = q + span(s.skip(q), key_pred());
        if k == q {
            lemma_attrs_from(s, q + 1, acc);
        } else {
            let key = lower(s.subrange(q, k));
            lemma_span_le(s.skip(k), ws_pred());
            let r = ws_end(s, k);
            if r >= s.len() || s[r] != '=' {
                lemma_attrs_from(s, r, acc.insert(key, Seq::empty()));
            } else {
                lemma_span_le(s.skip(r + 1), ws_pred());
                let v0 = ws_end(s, r + 1);
                lemma_attr_value_at(s, v0);
                let (value, e) = attr_value_at(s, v0);
                lemma_attrs_from(s, e, acc.insert(key, value));
            }
        }
    }
}

// ---------------------------------------------------------------------
// The parser.
// ---------------------------------------------------------------------

/// An HTML parser over its input and a position in it.
pub struct Parser {
    pos: usize,
    input: Vec<char>,
}

pub fn is_void_tag(t: &[char]) -> (r: bool)
    ensures
        r == is_void_tag_spec(t@),
{
    eq_lit(t, "meta") || eq_lit(t, "img") || eq_lit(t, "br") || eq_lit(t, "hr") || eq_lit(t, "input")
        || eq_lit(t, "link") || eq_lit(t, "area") || eq_lit(t, "base") || eq_lit(t, "col") || eq_lit(
        t,
        "embed",
    ) || eq_lit(t, "param") || eq_lit(t, "source") || eq_lit(t, "track") || eq_lit(t, "wbr")
}

fn is_block_tag(t: &[char]) -> (r: bool)
    ensures
        r == is_block_tag_spec(t@),
{
    eq_lit(t, "html") || eq_lit(t, "body") || eq_lit(t, "div") || eq_lit(t, "p") || eq_lit(t, "h1")
        || eq_lit(t, "h2") || eq_lit(t, "h3") || eq_lit(t, "h4") || eq_lit(t, "h5") || eq_lit(t, "h6")
        || eq_lit(t, "ul") || eq_lit(t, "ol") || eq_lit(t, "li") || eq_lit(t, "section") || eq_lit(
        t,
        "header",
    ) || eq_lit(t, "footer") || eq_lit(t, "main") || eq_lit(t, "article") || eq_lit(t, "nav")
        || eq_lit(t, "table") || eq_lit(t, "form") || eq_lit(t, "pre")
}

fn is_alnum_char(c: char) -> (b: bool)
    ensures
        b == (alnum_pred())(c),
{
    is_alphanumeric(c)
}

fn is_key_char(c: char) -> (b: bool)
    ensures
        b == (key_pred())(c),
{
    is_alphanumeric(c) || c == '-' || c == '_'
}

fn is_bare_value_char(c: char) -> (b: bool)
    ensures
        b == (bare_value_pred())(c),
{
    !is_whitespace(c) && c != '>'
}

fn not_lt(c: char) -> (b: bool)
    ensures
        b == (ne_pred('<'))(c),
{
    c != '<'
}

fn not_gt(c: char) -> (b: bool)
    ensures
        b == (ne_pred('>'))(c),
{
    c != '>'
}

fn not_dquote(c: char) -> (b: bool)
    ensures
        b == (ne_pred('"'))(c),
{
    c != '"'
}

fn not_squote(c: char) -> (b: bool)
    ensures
        b == (ne_pred('\''))(c),
{
    c != '\''
}

impl Parser {
    /// The text being parsed.
    pub closed spec fn src(&self) -> Seq<char> {
        self.input@
    }

    /// The current position.
    pub closed spec fn at_pos(&self) -> int {
        self.pos as int
    }

    pub closed spec fn wf(&self) -> bool {
        self.pos <= self.input@.len() && self.input@.len() <= usize::MAX
    }

    pub fn new(input: String) -> (r: Self)
        ensures
            r.wf(),
            r.src() == input@,
            r.at_pos() == 0,
    {
        let v = chars_of(input.as_str());
        assert(v@.len() == v.len());
        Parser { pos: 0, input: v }
    }

    fn eof(&self) -> (r: bool)
        ensures
            r == (self.pos >= self.input@.len()),
    {
        self.pos >= self.input.len()
    }

    fn next_char(&self) -> (r: char)
        ensures
            r == (if self.pos < self.input@.len() {
                self.input@[self.pos as int]
            } else {
                '\0'
            }),
    {
        if self.pos < self.input.len() {
            self.input[self.pos]
        } else {
            '\0'
        }
    }

    fn starts_with(&self, lit: &str) -> (r: bool)
        ensures
            r == at(self.input@, self.pos as int, lit@),
    {
        matches_lit_at(self.input.as_slice(), self.pos, lit)
    }

    fn consume_char(&mut self) -> (r: char)
        requires
            old(self).wf(),
        ensures
            final(self).wf(),
            final(self).input@ == old(self).input@,
            final(self).pos == step(old(self).input@, old(self).pos as int),
            r == (if old(self).pos < old(self).input@.len() {
                old(self).input@[old(self).pos as int]
            } else {
                '\0'
            }),
    {
        if self.pos >= self.input.len() {
            return '\0';
        }
        let c = self.input[self.pos];
        self.pos += 1;
        c
    }

    fn consume_while<F: Fn(char) -> bool>(&mut self, test: F, Ghost(p): Ghost<spec_fn(char) -> bool>) -> (r: Vec<char>)
        requires
            old(self).wf(),
            forall|c: char| #[trigger] test.requires((c,)),
            forall|c: char, b: bool| test.ensures((c,), b) ==> b == p(c),
        ensures
            final(self).wf(),
            final(self).input@ == old(self).input@,
            final(self).pos == old(self).pos + span(old(self).input@.skip(old(self).pos as int), p),
            r@ == old(self).input@.subrange(old(self).pos as int, final(self).pos as int),
    {
        let start = self.pos;
        let mut out: Vec<char> = Vec::new();
        while self.pos < self.input.len() && test(self.input[self.pos])
            invariant
                start <= self.pos <= self.input@.len(),
                self.input@.len() <= usize::MAX,
                self.input@ == old(self).input@,
                start == old(self).pos,
                forall|c: char| #[trigger] test.requires((c,)),
                forall|c: char, b: bool| test.ensures((c,), b) ==> b == p(c),
                forall|j: int| start <= j < self.pos ==> p(#[trigger] self.input@[j]),
                out@ == self.input@.subrange(start as int, self.pos as int),
            decreases self.input@.len() - self.pos,
        {
            out.push(self.input[self.pos]);
            self.pos += 1;
            assert(out@ =~= self.input@.subrange(start as int, self.pos as int));
        }
        let ghost s = self.input@.skip(start as int);
        assert forall|j: int| 0 <= j < self.pos - start implies p(#[trigger] s[j]) by {
            assert(s[j] == self.input@[j + start]);
        }
        if self.pos < self.input.len() {
            assert(s[self.pos - start] == self.input@[self.pos as int]);
        }
        proof {
            lemma_span_is(s, p, self.pos - start);
        }
        out
    }

    fn consume_whitespace(&mut self)
        requires
            old(self).wf(),
        ensures
            final(self).wf(),
            final(self).input@ == old(self).input@,
            final(self).pos == ws_end(old(self).input@, old(self).pos as int),
    {
        let _ = self.consume_while(is_whitespace, Ghost(ws_pred()));
    }

    fn parse_tag_name(&mut self) -> (r: Vec<char>)
        requires
            old(self).wf(),
        ensures
            final(self).wf(),
            final(self).input@ == old(self).input@,
            final(self).pos == name_end(old(self).input@, old(self).pos as int),
            r@ == lower(old(self).input@.subrange(old(self).pos as int, final(self).pos as int)),
    {
        let n = self.consume_while(is_alnum_char, Ghost(alnum_pred()));
        to_ascii_lower(n.as_slice())
    }

    fn name_from(&self, from: usize) -> (r: usize)
        requires
            self.wf(),
            from <= self.input@.len(),
        ensures
            r == name_end(self.input@, from as int),
            r <= self.input@.len(),
    {
        let mut i = from;
        while i < self.input.len() && is_alphanumeric(self.input[i])
            invariant
                from <= i <= self.input@.len(),
                forall|j: int| from <= j < i ==> unicode_alnum(#[trigger] self.input@[j]),
            decreases self.input@.len() - i,
        {
            i += 1;
        }
        let ghost s = self.input@.skip(from as int);
        assert forall|j: int| 0 <= j < i - from implies (alnum_pred())(#[trigger] s[j]) by {
            assert(s[j] == self.input@[j + from]);
        }
        if i < self.input.len() {
            assert(s[i - from] == self.input@[i as int]);
        }
        proof {
            lemma_span_is(s, alnum_pred(), i - from);
        }
        i
    }

    fn peek_start_tag_name(&self) -> (r: Option<Vec<char>>)
        requires
            self.wf(),
        ensures
            match r {
                Some(n) => peek_start(self.input@, self.pos as int) == Some(n@),
                None => peek_start(self.input@, self.pos as int) is None,
            },
    {
        if !self.starts_with("<") {
            return None;
        }
        if self.starts_with("</") || self.starts_with("<!") {
            return None;
        }
        proof {
            reveal_strlit("<");
        }
        let e = self.name_from(self.pos + 1);
        if e == self.pos + 1 {
            return None;
        }
        let n = vstd::slice::slice_subrange(self.input.as_slice(), self.pos + 1, e);
        Some(to_ascii_lower(n))
    }

    fn peek_end_tag_name(&self) -> (r: Option<Vec<char>>)
        requires
            self.wf(),
        ensures
            match r {
                Some(n) => peek_end(self.input@, self.pos as int) == Some(n@),
                None => peek_end(self.input@, self.pos as int) is None,
            },
    {
        if !self.starts_with("</") {
            return None;
        }
        proof {
            reveal_strlit("</");
        }
        let e = self.name_from(self.pos + 2);
        if e == self.pos + 2 {
            return None;
        }
        let n = vstd::slice::slice_subrange(self.input.as_slice(), self.pos + 2, e);
        Some(to_ascii_lower(n))
    }

    fn parse_text(&mut self) -> (r: Node)
        requires
            old(self).wf(),
        ensures
            final(self).wf(),
            final(self).input@ == old(self).input@,
            final(self).pos == until(old(self).input@, old(self).pos as int, '<'),
            r.dv() == DomView::Text(decode_entities_spec(old(self).input@.subrange(old(self).pos as int, final(self).pos as int))),
            r.wf(),
    {
        let t = self.consume_while(not_lt, Ghost(ne_pred('<')));
        let d = decode_entities(t.as_slice());
        text(string_of(d.as_slice()))
    }

    fn parse_node(&mut self) -> (r: Node)
        requires
            old(self).wf(),
        ensures
            final(self).wf(),
            final(self).input@ == old(self).input@,
            (r.dv(), final(self).pos as int) == node_at(old(self).input@, old(self).pos as int),
            r.wf(),
        decreases old(self).input@.len() - old(self).pos, 1int,
    {
        let ghost s = self.input@;
        let ghost p = self.pos as int;
        if self.next_char() == '<' {
            if self.starts_with("<!") {
                self.consume_while(not_gt, Ghost(ne_pred('>')));
                if !self.eof() {
                    self.consume_char();
                }
                self.consume_whitespace();
                proof {
                    lemma_span_le(s.skip(p), ne_pred('>'));
                    assert(s.skip(p)[0] == s[p]);
                }
                return self.parse_node();
            }
            return self.parse_element();
        }
        self.parse_text()
    }

    fn consume_raw_text_until_end_tag(&mut self, tag_lc: &[char]) -> (r: Vec<char>)
        requires
            old(self).wf(),
        ensures
            final(self).wf(),
            final(self).input@ == old(self).input@,
            (r@, final(self).pos as int) == raw_text(old(self).input@, old(self).pos as int, "</"@ + tag_lc@ + ">"@),
    {
        let ghost s = self.input@;
        let mut end = chars_of("</");
        let mut k: usize = 0;
        let ghost e0 = end@;
        while k < tag_lc.len()
            invariant
                k <= tag_lc@.len(),
                end@ == e0 + tag_lc@.take(k as int),
            decreases tag_lc@.len() - k,
        {
            end.push(tag_lc[k]);
            assert(tag_lc@.take(k + 1) =~= tag_lc@.take(k as int).push(tag_lc@[k as int]));
            k += 1;
        }
        assert(tag_lc@.take(k as int) =~= tag_lc@);
        let close = chars_of(">");
        let mut m: usize = 0;
        let ghost e1 = end@;
        while m < close.len()
            invariant
                m <= close@.len(),
                end@ == e1 + close@.take(m as int),
            decreases close@.len() - m,
        {
            end.push(close[m]);
            assert(close@.take(m + 1) =~= close@.take(m as int).push(close@[m as int]));
            m += 1;
        }
        assert(close@.take(m as int) =~= close@);
        assert(end@ =~= "</"@ + tag_lc@ + ">"@);
        let mut out: Vec<char> = Vec::new();
        while !self.eof()
            invariant
                self.wf(),
                self.input@ == s,
                s == old(self).input@,
                end@ == "</"@ + tag_lc@ + ">"@,
                out@ + raw_text(s, self.pos as int, end@).0 == raw_text(s, old(self).pos as int, end@).0,
                raw_text(s, self.pos as int, end@).1 == raw_text(s, old(self).pos as int, end@).1,
            decreases s.len() - self.pos,
        {
            if matches_at(self.input.as_slice(), self.pos, end.as_slice()) {
                self.pos = self.pos + end.len();
                assert(out@ + Seq::<char>::empty() =~= out@);
                return out;
            }
            let ghost o = out@;
            let c = self.consume_char();
            out.push(c);
            assert(out@ + raw_text(s, self.pos as int, end@).0 =~= o + (seq![c] + raw_text(s, self.pos as int, end@).0));
        }
        assert(out@ + Seq::<char>::empty() =~= out@);
        out
    }

    fn parse_attributes(&mut self) -> (r: Attributes)
        requires
            old(self).wf(),
        ensures
            final(self).wf(),
            final(self).input@ == old(self).input@,
            (r@, final(self).pos as int) == attrs_from(old(self).input@, old(self).pos as int, Map::empty()),
    {
        let ghost s = self.input@;
        let mut attrs = Attributes::new();
        loop
            invariant
                self.wf(),
                self.input@ == s,
                s == old(self).input@,
                attrs_from(s, self.pos as int, attrs@) == attrs_from(s, old(self).pos as int, Map::empty()),
            decreases s.len() - self.pos,
        {
            let ghost p0 = self.pos as int;
            let ghost a0 = attrs@;
            self.consume_whitespace();
            proof {
                lemma_span_le(s.skip(p0), ws_pred());
            }
            let ghost q = self.pos as int;
            if self.eof() {
                return attrs;
            }
            let c = self.next_char();
            if c == '>' || c == '/' {
                return attrs;
            }
            let key_raw = self.consume_while(is_key_char, Ghost(key_pred()));
            if key_raw.len() == 0 {
                self.consume_char();
                continue;
            }
            let key = string_of(to_ascii_lower(key_raw.as_slice()).as_slice());
            let ghost k = self.pos as int;
            self.consume_whitespace();
            proof {
                lemma_span_le(s.skip(k), ws_pred());
            }
            if self.next_char() != '=' {
                attrs.insert(key, string_of(Vec::new().as_slice()));
                continue;
            }
            self.consume_char();
            self.consume_whitespace();
            let ghost v0 = self.pos as int;
            let value = match self.next_char() {
                '"' => {
                    self.consume_char();
                    let v = self.consume_while(not_dquote, Ghost(ne_pred('"')));
                    proof {
                        lemma_span_le(s.skip(v0 + 1), ne_pred('"'));
                        if self.pos < s.len() {
                            assert(s.skip(v0 + 1)[self.pos - v0 - 1] == s[self.pos as int]);
                        }
                    }
                    if self.next_char() == '"' {
                        self.consume_char();
                    }
                    assert(attr_value_at(s, v0) == (v@, self.pos as int));
                    v
                },
                '\'' => {
                    self.consume_char();
                    let v = self.consume_while(not_squote, Ghost(ne_pred('\'')));
                    proof {
                        lemma_span_le(s.skip(v0 + 1), ne_pred('\''));
                        if self.pos < s.len() {
                            assert(s.skip(v0 + 1)[self.pos - v0 - 1] == s[self.pos as int]);
                        }
                    }
                    if self.next_char() == '\'' {
                        self.consume_char();
                    }
                    assert(attr_value_at(s, v0) == (v@, self.pos as int));
                    v
                },
                _ => {
                    let v = self.consume_while(is_bare_value_char, Ghost(bare_value_pred()));
                    assert(attr_value_at(s, v0) == (v@, self.pos as int));
                    v
                },
            };
            proof {
                assert(attrs_from(s, p0, a0) == attrs_from(s, self.pos as int, a0.insert(lower(s.subrange(q, k)), value@)));
            }
            attrs.insert(key, string_of(value.as_slice()));
        }
    }

    fn parse_element(&mut self) -> (r: Node)
        requires
            old(self).wf(),
            old(self).pos < old(self).input@.len(),
            old(self).input@[old(self).pos as int] == '<',
        ensures
            final(self).wf(),
            final(self).input@ == old(self).input@,
            (r.dv(), final(self).pos as int) == element_at(old(self).input@, old(self).pos as int),
            r.wf(),
        decreases old(self).input@.len() - old(self).pos, 0int,
    {
        let ghost s = self.input@;
        let ghost p = self.pos as int;
        self.consume_char();
        let tag_name = self.parse_tag_name();
        proof {
            lemma_span_le(s.skip(p + 1), alnum_pred());
            lemma_attrs_from(s, self.pos as int, Map::empty());
        }
        let attrs = self.parse_attributes();
        let mut self_closing = false;
        if self.next_char() == '/' {
            self_closing = true;
            self.consume_char();
        }
        self.consume_while(not_gt, Ghost(ne_pred('>')));
        if !self.eof() {
            self.consume_char();
        }
        let tag = string_of(tag_name.as_slice());
        if self_closing || is_void_tag(tag_name.as_slice()) {
            let r = elem(tag, attrs, Vec::new());
            assert(dvs(Seq::<Node>::empty()) =~= Seq::<DomView>::empty());
            return r;
        }
        if eq_lit(tag_name.as_slice(), "script") || eq_lit(tag_name.as_slice(), "style") {
            let raw = self.consume_raw_text_until_end_tag(tag_name.as_slice());
            let t = text(string_of(raw.as_slice()));
            let children = vec![t];
            let r = elem(tag, attrs, children);
            assert(dvs(children@) =~= seq![DomView::Text(raw@)]);
            return r;
        }
        proof {
            lemma_span_le(s.skip(self.pos as int), ne_pred('>'));
        }
        let children = self.parse_nodes(Some(tag.as_str()));
        if self.starts_with("</") {
            proof {
                reveal_strlit("</");
            }
            self.consume_char();
            self.consume_char();
            let _end_tag = self.parse_tag_name();
            self.consume_while(not_gt, Ghost(ne_pred('>')));
            if !self.eof() {
                self.consume_char();
            }
        }
        elem(tag, attrs, children)
    }

    /// Parses nodes up to the end of input or an end tag; inside a `p`, a
    /// block start tag ends the paragraph too.
    pub fn parse_nodes(&mut self, parent_tag: Option<&str>) -> (r: Vec<Node>)
        requires
            old(self).wf(),
        ensures
            final(self).wf(),
            final(self).src() == old(self).src(),
            (dvs(r@), final(self).at_pos()) == nodes_at(old(self).src(), old(self).at_pos(), match parent_tag {
                Some(t) => Some(t@),
                None => None,
            }),
                all_wf(r@),
        decreases old(self).src().len() - old(self).at_pos(), 2int,
    {
        let ghost s = self.input@;
        let ghost parent = match parent_tag {
            Some(t) => Some(t@),
            None => None,
        };
        let in_p = match parent_tag {
            Some(t) => eq_lit(chars_of(t).as_slice(), "p"),
            None => false,
        };
        let mut nodes: Vec<Node> = Vec::new();
        loop
            invariant
                self.wf(),
                self.input@ == s,
                s == old(self).input@,
                old(self).pos <= self.pos,
                in_p == (parent == Some("p"@)),
                parent == match parent_tag {
                    Some(t) => Some(t@),
                    None => None,
                },
                all_wf(nodes@),
                dvs(nodes@) + nodes_at(s, self.pos as int, parent).0 == nodes_at(s, old(self).pos as int, parent).0,
                nodes_at(s, self.pos as int, parent).1 == nodes_at(s, old(self).pos as int, parent).1,
            decreases s.len() - self.pos,
        {
            let ghost p0 = self.pos as int;
            self.consume_whitespace();
            proof {
                lemma_span_le(s.skip(p0), ws_pred());
            }
            if self.eof() {
                assert(dvs(nodes@) + Seq::<DomView>::empty() =~= dvs(nodes@));
                return nodes;
            }
            if self.starts_with("</") {
                let _ = self.peek_end_tag_name();
                assert(dvs(nodes@) + Seq::<DomView>::empty() =~= dvs(nodes@));
                return nodes;
            }
            if in_p && self.next_char() == '<' {
                if let Some(next_tag) = self.peek_start_tag_name() {
                    if is_block_tag(next_tag.as_slice()) {
                        assert(dvs(nodes@) + Seq::<DomView>::empty() =~= dvs(nodes@));
                        return nodes;
                    }
                }
            }
            let ghost q = self.pos as int;
            let ghost before = nodes@;
            proof {
                lemma_node_at(s, q);
            }
            let n = self.parse_node();
            nodes.push(n);
            proof {
                assert(dvs(nodes@) =~= dvs(before).push(n.dv()));
                assert(dvs(nodes@) + nodes_at(s, self.pos as int, parent).0 =~= dvs(before) + (seq![n.dv()] + nodes_at(s, self.pos as int, parent).0));
            }
        }
    }
}

pub proof fn lemma_raw_text(s: Seq<char>, p: int, end: Seq<char>)
    requires
        0 <= p <= s.len(),
    ensures
        p <= raw_text(s, p, end).1 <= s.len(),
    decreases s.len() - p,
{
    if p < s.len() && !at(s, p, end) {
        lemma_raw_text(s, p + 1, end);
    }
}

/// Nodes stay inside the input.
pub proof fn lemma_nodes_at(s: Seq<char>, p: int, parent: Option<Seq<char>>)
    requires
        0 <= p <= s.len(),
    ensures
        p <= nodes_at(s, p, parent).1 <= s.len(),
    decreases s.len() - p, 2int,
{
    lemma_span_le(s.skip(p), ws_pred());
    let q = ws_end(s, p);
    if q < s.len() && !at(s, q, "</"@) && !(parent == Some("p"@) && s[q] == '<' && (peek_start(
        s,
        q,
    ) matches Some(t) && is_block_tag_spec(t))) {
        lemma_node_at(s, q);
        let (n, e) = node_at(s, q);
        lemma_nodes_at(s, e, parent);
    }
}

/// A node moves past its start, and stays inside the input.
pub proof fn lemma_node_at(s: Seq<char>, p: int)
    requires
        0 <= p < s.len(),
    ensures
        p < node_at(s, p).1 <= s.len(),
    decreases s.len() - p, 1int,
{
    if s[p] == '<' {
        if at(s, p, "<!"@) {
            lemma_span_le(s.skip(p), ne_pred('>'));
            assert(s.skip(p)[0] == s[p]);
            let p1 = until(s, p, '>');
            let p2 = step(s, p1);
            lemma_span_le(s.skip(p2), ws_pred());
            let p3 = ws_end(s, p2);
            assert(p3 > p);
            assert(node_at(s, p) == node_at(s, p3));
            if p3 < s.len() {
                lemma_node_at(s, p3);
            } else {
                assert(s.skip(p3).len() == 0);
                assert(until(s, p3, '<') == p3);
            }
        } else {
            lemma_element_at(s, p);
            assert(node_at(s, p) == element_at(s, p));
        }
    } else {
        lemma_span_le(s.skip(p), ne_pred('<'));
        assert(s.skip(p)[0] == s[p]);
        assert(until(s, p, '<') > p);
        assert(node_at(s, p).1 == until(s, p, '<'));
    }
}

/// An element moves past its start, and stays inside the input.
pub proof fn lemma_element_at(s: Seq<char>, p: int)
    requires
        0 <= p < s.len(),
    ensures
        p < element_at(s, p).1 <= s.len(),
    decreases s.len() - p, 0int,
{
    let p1 = p + 1;
    lemma_span_le(s.skip(p1), alnum_pred());
    let te = name_end(s, p1);
    let tag = lower(s.subrange(p1, te));
    lemma_attrs_from(s, te, Map::empty());
    let (attrs, a_end) = attrs_from(s, te, Map::empty());
    let self_closing = a_end < s.len() && s[a_end] == '/';
    let p2 = if self_closing {
        a_end + 1
    } else {
        a_end
    };
    lemma_span_le(s.skip(p2), ne_pred('>'));
    let p3 = until(s, p2, '>');
    let p4 = step(s, p3);
    if !(self_closing || is_void_tag_spec(tag)) {
        if tag == "script"@ || tag == "style"@ {
            lemma_raw_text(s, p4, "</"@ + tag + ">"@);
        } else {
            lemma_nodes_at(s, p4, Some(tag));
            let (children, c_end) = nodes_at(s, p4, Some(tag));
            if at(s, c_end, "</"@) {
                reveal_strlit("</");
                lemma_span_le(s.skip(c_end + 2), alnum_pred());
                let e2 = name_end(s, c_end + 2);
                lemma_span_le(s.skip(e2), ne_pred('>'));
            }
        }
    }
}


// ---------------------------------------------------------------------
// The document.
// ---------------------------------------------------------------------

pub open spec fn named(n: DomView, t: Seq<char>) -> bool {
    n matches DomView::Element(tag, _, _) && tag == t
}

pub open spec fn kids(n: DomView) -> Seq<DomView> {
    match n {
        DomView::Element(_, _, c) => c,
        DomView::Text(_) => Seq::empty(),
    }
}

/// The first node named `t` and the others, in order.
pub open spec fn pick(ns: Seq<DomView>, t: Seq<char>) -> (Option<DomView>, Seq<DomView>)
    decreases ns.len(),
{
    if ns.len() == 0 {
        (None, Seq::empty())
    } else if named(ns[0], t) {
        (Some(ns[0]), ns.drop_first())
    } else {
        let r = pick(ns.drop_first(), t);
        (r.0, seq![ns[0]] + r.1)
    }
}

/// Elements that belong in `head`.
pub open spec fn head_like(n: DomView) -> bool {
    n matches DomView::Element(t, _, _) && (t == "meta"@ || t == "title"@ || t == "style"@ || t
        == "link"@ || t == "base"@ || t == "script"@)
}

/// Splits nodes into those that belong in `head` and the rest, in order.
pub open spec fn part_head(ns: Seq<DomView>) -> (Seq<DomView>, Seq<DomView>)
    decreases ns.len(),
{
    if ns.len() == 0 {
        (Seq::empty(), Seq::empty())
    } else {
        let r = part_head(ns.drop_first());
        if head_like(ns[0]) {
            (seq![ns[0]] + r.0, r.1)
        } else {
            (r.0, seq![ns[0]] + r.1)
        }
    }
}

pub open spec fn opt_kids(o: Option<DomView>) -> Seq<DomView> {
    match o {
        Some(n) => kids(n),
        None => Seq::empty(),
    }
}

/// The document built from top-level nodes: the first `html` element (or a
/// new one holding the nodes) with exactly a `head` and a `body`; the
/// children of the first `head` and `body` are kept, and the other nodes go
/// to `head` if they belong there and to `body` otherwise.
pub open spec fn normalize(nodes: Seq<DomView>) -> DomView {
    let (h, rest) = pick(nodes, "html"@);
    let html = match h {
        Some(x) => x,
        None => DomView::Element("html"@, Map::empty(), rest),
    };
    let (head, r1) = pick(kids(html), "head"@);
    let (body, others) = pick(r1, "body"@);
    let (to_head, to_body) = part_head(others);
    let hc = opt_kids(head) + to_head;
    let bc = opt_kids(body) + to_body;
    let new_children = seq![
        DomView::Element("head"@, Map::empty(), hc),
        DomView::Element("body"@, Map::empty(), bc),
    ];
    match html {
        DomView::Element(t, a, _) => DomView::Element(t, a, new_children),
        DomView::Text(x) => DomView::Text(x),
    }
}

proof fn lemma_pick_named(ns: Seq<DomView>, t: Seq<char>)
    ensures
        pick(ns, t).0 matches Some(x) ==> named(x, t),
    decreases ns.len(),
{
    if ns.len() > 0 && !named(ns[0], t) {
        lemma_pick_named(ns.drop_first(), t);
    }
}

proof fn lemma_pick_none(ns: Seq<DomView>, t: Seq<char>)
    ensures
        pick(ns, t).0 is None ==> pick(ns, t).1 == ns,
    decreases ns.len(),
{
    if ns.len() > 0 && !named(ns[0], t) {
        lemma_pick_none(ns.drop_first(), t);
        assert(ns == seq![ns[0]] + ns.drop_first());
    }
}

/// Every document is completed to the shape `html` > `head`, `body`: the
/// root is an `html` element whose only children are a `head` and a
/// `body` element.
pub proof fn lemma_document_shape(src: Seq<char>)
    ensures
        parse_spec(src) matches DomView::Element(tag, _, kids) && tag == "html"@ && kids.len() == 2
            && named(kids[0], "head"@) && named(kids[1], "body"@),
{
    lemma_pick_named(nodes_at(src, 0, None).0, "html"@);
}

pub open spec fn head_pred() -> spec_fn(DomView) -> bool {
    |n: DomView| head_like(n)
}

pub open spec fn body_pred() -> spec_fn(DomView) -> bool {
    |n: DomView| !head_like(n)
}

proof fn lemma_part_head_filter(ns: Seq<DomView>)
    ensures
        part_head(ns).0 == ns.filter(head_pred()),
        part_head(ns).1 == ns.filter(body_pred()),
    decreases ns.len(),
{
    reveal(Seq::filter);
    if ns.len() > 0 {
        let t = ns.drop_first();
        lemma_part_head_filter(t);
        let one = seq![ns[0]];
        assert(ns == one + t);
        Seq::filter_distributes_over_add(one, t, head_pred());
        Seq::filter_distributes_over_add(one, t, body_pred());
        assert(one.drop_last() =~= Seq::<DomView>::empty());
        assert(Seq::<DomView>::empty().filter(head_pred()) == Seq::<DomView>::empty());
        assert(Seq::<DomView>::empty().filter(body_pred()) == Seq::<DomView>::empty());
        assert(one.last() == ns[0]);
        if head_like(ns[0]) {
            assert(one.filter(head_pred()) =~= one);
            assert(one.filter(body_pred()) =~= Seq::<DomView>::empty());
            assert(one + t.filter(body_pred()) == seq![ns[0]] + t.filter(body_pred()));
        } else {
            assert(one.filter(head_pred()) =~= Seq::<DomView>::empty());
            assert(one.filter(body_pred()) =~= one);
        }
        assert(Seq::<DomView>::empty() + t.filter(head_pred()) =~= t.filter(head_pred()));
        assert(Seq::<DomView>::empty() + t.filter(body_pred()) =~= t.filter(body_pred()));
    }
}

/// Where every node of a document goes.  The document's top-level nodes
/// give the `html` element: the first `html` among them (its attributes
/// kept), or a new one with no attributes holding all of them.  Its
/// children become exactly a `head` and a `body`, both with no
/// attributes: the `head` holds the children of the first `head` child,
/// then, in order, the other children (the first `body` aside) that belong
/// in a head (`meta`, `title`, `style`, `link`, `base`, `script`); the
/// `body` holds the children of the first `body` child, then, in order,
/// the other children that do not.
pub proof fn lemma_document_parts(src: Seq<char>)
    ensures
        ({
            let top = nodes_at(src, 0, None).0;
            let html = match pick(top, "html"@).0 {
                Some(x) => x,
                None => DomView::Element("html"@, Map::empty(), top),
            };
            let (head, r1) = pick(kids(html), "head"@);
            let (body, others) = pick(r1, "body"@);
            parse_spec(src) == DomView::Element(
                "html"@,
                match html {
                    DomView::Element(_, a, _) => a,
                    DomView::Text(_) => Map::empty(),
                },
                seq![
                    DomView::Element("head"@, Map::empty(), opt_kids(head) + others.filter(head_pred())),
                    DomView::Element("body"@, Map::empty(), opt_kids(body) + others.filter(body_pred())),
                ],
            )
        }),
{
    let top = nodes_at(src, 0, None).0;
    lemma_pick_named(top, "html"@);
    lemma_pick_none(top, "html"@);
    let html = match pick(top, "html"@).0 {
        Some(x) => x,
        None => DomView::Element("html"@, Map::empty(), top),
    };
    let (head, r1) = pick(kids(html), "head"@);
    let (body, others) = pick(r1, "body"@);
    lemma_part_head_filter(others);
}

/// A name that lower-casing leaves unchanged.
pub open spec fn is_lower(t: Seq<char>) -> bool {
    lower(t) == t
}

/// Every tag name and attribute name in the tree is lower case.
pub open spec fn lower_names(d: DomView) -> bool
    decreases d,
{
    match d {
        DomView::Text(_) => true,
        DomView::Element(t, a, c) => {
            &&& is_lower(t)
            &&& forall|k: Seq<char>| #[trigger] a.contains_key(k) ==> is_lower(k)
            &&& forall|i: int| 0 <= i < c.len() ==> lower_names(#[trigger] c[i])
        },
    }
}

pub open spec fn all_lower_names(ns: Seq<DomView>) -> bool {
    forall|i: int| 0 <= i < ns.len() ==> lower_names(#[trigger] ns[i])
}

proof fn lemma_lower_is_lower(t: Seq<char>)
    ensures
        is_lower(lower(t)),
{
    assert(lower(lower(t)) =~= lower(t));
}

proof fn lemma_lit_lower(t: Seq<char>)
    requires
        forall|i: int| 0 <= i < t.len() ==> !is_ascii_upper(#[trigger] t[i]),
    ensures
        is_lower(t),
{
    assert(lower(t) =~= t);
}

proof fn lemma_attrs_lower(s: Seq<char>, p: int, acc: Map<Seq<char>, Seq<char>>)
    requires
        forall|k: Seq<char>| #[trigger] acc.contains_key(k) ==> is_lower(k),
    ensures
        forall|k: Seq<char>| #[trigger] attrs_from(s, p, acc).0.contains_key(k) ==> is_lower(k),
    decreases s.len() - p,
{
    if 0 <= p <= s.len() {
        let q = ws_end(s, p);
        lemma_span_le(s.skip(p), ws_pred());
        if !(q >= s.len() || s[q] == '>' || s[q] == '/') {
            lemma_span_le(s.skip(q), key_pred());
            let k = q + span(s.skip(q), key_pred());
            if k == q {
                lemma_attrs_lower(s, q + 1, acc);
                assert(attrs_from(s, p, acc) == attrs_from(s, q + 1, acc));
            } else {
                let key = lower(s.subrange(q, k));
                lemma_lower_is_lower(s.subrange(q, k));
                let r = ws_end(s, k);
                lemma_span_le(s.skip(k), ws_pred());
                if r >= s.len() || s[r] != '=' {
                    lemma_attrs_lower(s, r, acc.insert(key, Seq::empty()));
                    assert(attrs_from(s, p, acc) == attrs_from(s, r, acc.insert(key, Seq::empty())));
                } else {
                    let v0 = ws_end(s, r + 1);
                    lemma_span_le(s.skip(r + 1), ws_pred());
                    lemma_attr_value_at(s, v0);
                    let (value, e) = attr_value_at(s, v0);
                    lemma_attrs_lower(s, e, acc.insert(key, value));
                    assert(attrs_from(s, p, acc) == attrs_from(s, e, acc.insert(key, value)));
                }
            }
        }
    }
}

proof fn lemma_nodes_lower(s: Seq<char>, p: int, parent: Option<Seq<char>>)
    ensures
        all_lower_names(nodes_at(s, p, parent).0),
    decreases s.len() - p, 2int,
{
    if 0 <= p <= s.len() {
        lemma_span_le(s.skip(p), ws_pred());
        let q = ws_end(s, p);
        if q < s.len() && !at(s, q, "</"@) && !(parent == Some("p"@) && s[q] == '<' && (peek_start(
            s,
            q,
        ) matches Some(t) && is_block_tag_spec(t))) {
            lemma_node_lower(s, q);
            let (n, e) = node_at(s, q);
            if q < e <= s.len() {
                lemma_nodes_lower(s, e, parent);
                let r = nodes_at(s, e, parent);
                assert(nodes_at(s, p, parent).0 == seq![n] + r.0);
                assert(all_lower_names(seq![n] + r.0)) by {
                    assert forall|i: int| 0 <= i < (seq![n] + r.0).len() implies lower_names(
                        #[trigger] (seq![n] + r.0)[i],
                    ) by {
                        if i > 0 {
                            assert((seq![n] + r.0)[i] == r.0[i - 1]);
                        }
                    }
                }
            }
        }
    }
}

proof fn lemma_node_lower(s: Seq<char>, p: int)
    ensures
        lower_names(node_at(s, p).0),
    decreases s.len() - p, 1int,
{
    if 0 <= p < s.len() && s[p] == '<' {
        if at(s, p, "<!"@) {
            lemma_span_le(s.skip(p), ne_pred('>'));
            assert(s.skip(p)[0] == s[p]);
            let p1 = until(s, p, '>');
            let p2 = step(s, p1);
            lemma_span_le(s.skip(p2), ws_pred());
            let p3 = ws_end(s, p2);
            lemma_node_lower(s, p3);
        } else {
            lemma_element_lower(s, p);
        }
    }
}

proof fn lemma_element_lower(s: Seq<char>, p: int)
    ensures
        lower_names(element_at(s, p).0),
    decreases s.len() - p, 0int,
{
    if 0 <= p < s.len() {
        let p1 = p + 1;
        lemma_span_le(s.skip(p1), alnum_pred());
        let te = name_end(s, p1);
        let tag = lower(s.subrange(p1, te));
        lemma_lower_is_lower(s.subrange(p1, te));
        lemma_attrs_from(s, te, Map::empty());
        lemma_attrs_lower(s, te, Map::empty());
        let (attrs, a_end) = attrs_from(s, te, Map::empty());
        let self_closing = a_end < s.len() && s[a_end] == '/';
        let p2 = if self_closing {
            a_end + 1
        } else {
            a_end
        };
        lemma_span_le(s.skip(p2), ne_pred('>'));
        let p3 = until(s, p2, '>');
        let p4 = step(s, p3);
        if self_closing || is_void_tag_spec(tag) {
            assert(element_at(s, p).0 == DomView::Element(tag, attrs, Seq::empty()));
        } else if tag == "script"@ || tag == "style"@ {
            let r = raw_text(s, p4, "</"@ + tag + ">"@);
            let c = seq![DomView::Text(r.0)];
            assert(lower_names(c[0]));
            assert(element_at(s, p).0 == DomView::Element(tag, attrs, c));
        } else {
            lemma_nodes_lower(s, p4, Some(tag));
            let children = nodes_at(s, p4, Some(tag)).0;
            assert(element_at(s, p).0 == DomView::Element(tag, attrs, children));
        }
    }
}

proof fn lemma_pick_lower(ns: Seq<DomView>, t: Seq<char>)
    requires
        all_lower_names(ns),
    ensures
        pick(ns, t).0 matches Some(x) ==> lower_names(x),
        all_lower_names(pick(ns, t).1),
    decreases ns.len(),
{
    if ns.len() > 0 {
        assert(lower_names(ns[0]));
        if !named(ns[0], t) {
            let d = ns.drop_first();
            assert(all_lower_names(d)) by {
                assert forall|i: int| 0 <= i < d.len() implies lower_names(#[trigger] d[i]) by {
                    assert(d[i] == ns[i + 1]);
                }
            }
            lemma_pick_lower(d, t);
            let r = pick(d, t);
            assert forall|i: int| 0 <= i < (seq![ns[0]] + r.1).len() implies lower_names(
                #[trigger] (seq![ns[0]] + r.1)[i],
            ) by {
                if i > 0 {
                    assert((seq![ns[0]] + r.1)[i] == r.1[i - 1]);
                }
            }
        } else {
            let d = ns.drop_first();
            assert forall|i: int| 0 <= i < d.len() implies lower_names(#[trigger] d[i]) by {
                assert(d[i] == ns[i + 1]);
            }
        }
    }
}

proof fn lemma_part_head_lower(ns: Seq<DomView>)
    requires
        all_lower_names(ns),
    ensures
        all_lower_names(part_head(ns).0),
        all_lower_names(part_head(ns).1),
    decreases ns.len(),
{
    if ns.len() > 0 {
        let d = ns.drop_first();
        assert(all_lower_names(d)) by {
            assert forall|i: int| 0 <= i < d.len() implies lower_names(#[trigger] d[i]) by {
                assert(d[i] == ns[i + 1]);
            }
        }
        lemma_part_head_lower(d);
        let r = part_head(d);
        assert(lower_names(ns[0]));
        assert forall|i: int| 0 <= i < (seq![ns[0]] + r.0).len() implies lower_names(
            #[trigger] (seq![ns[0]] + r.0)[i],
        ) by {
            if i > 0 {
                assert((seq![ns[0]] + r.0)[i] == r.0[i - 1]);
            }
        }
        assert forall|i: int| 0 <= i < (seq![ns[0]] + r.1).len() implies lower_names(
            #[trigger] (seq![ns[0]] + r.1)[i],
        ) by {
            if i > 0 {
                assert((seq![ns[0]] + r.1)[i] == r.1[i - 1]);
            }
        }
    }
}

proof fn lemma_concat_lower(a: Seq<DomView>, b: Seq<DomView>)
    requires
        all_lower_names(a),
        all_lower_names(b),
    ensures
        all_lower_names(a + b),
{
    assert forall|i: int| 0 <= i < (a + b).len() implies lower_names(#[trigger] (a + b)[i]) by {
        if i >= a.len() {
            assert((a + b)[i] == b[i - a.len()]);
        }
    }
}

proof fn lemma_opt_kids_lower(o: Option<DomView>)
    requires
        o matches Some(x) ==> lower_names(x),
    ensures
        all_lower_names(opt_kids(o)),
{
    if let Some(x) = o {
        if let DomView::Element(_, _, c) = x {
            assert forall|i: int| 0 <= i < c.len() implies lower_names(#[trigger] c[i]) by {
                assert(lower_names(x));
            }
        }
    }
}

/// Tag names and attribute names are lower-cased: in every parsed
/// document, each element's tag name and each of its attribute names is
/// unchanged by ASCII lower-casing.
pub proof fn lemma_names_lower_case(src: Seq<char>)
    ensures
        lower_names(parse_spec(src)),
{
    let nodes = nodes_at(src, 0, None).0;
    lemma_nodes_lower(src, 0, None);
    reveal_strlit("html");
    reveal_strlit("head");
    reveal_strlit("body");
    lemma_lit_lower("html"@);
    lemma_lit_lower("head"@);
    lemma_lit_lower("body"@);
    lemma_pick_lower(nodes, "html"@);
    let (h, rest) = pick(nodes, "html"@);
    let html = match h {
        Some(x) => x,
        None => DomView::Element("html"@, Map::empty(), rest),
    };
    assert(lower_names(html));
    let ks = kids(html);
    assert(all_lower_names(ks)) by {
        if let DomView::Element(_, _, c) = html {
            assert forall|i: int| 0 <= i < c.len() implies lower_names(#[trigger] c[i]) by {}
        }
    }
    lemma_pick_lower(ks, "head"@);
    let (head, r1) = pick(ks, "head"@);
    lemma_pick_lower(r1, "body"@);
    let (body, others) = pick(r1, "body"@);
    lemma_part_head_lower(others);
    let (to_head, to_body) = part_head(others);
    lemma_opt_kids_lower(head);
    lemma_opt_kids_lower(body);
    lemma_concat_lower(opt_kids(head), to_head);
    lemma_concat_lower(opt_kids(body), to_body);
    let hc = opt_kids(head) + to_head;
    let bc = opt_kids(body) + to_body;
    let hd = DomView::Element("head"@, Map::empty(), hc);
    let bd = DomView::Element("body"@, Map::empty(), bc);
    assert(lower_names(hd));
    assert(lower_names(bd));
    let new_children = seq![hd, bd];
    assert forall|i: int| 0 <= i < new_children.len() implies lower_names(
        #[trigger] new_children[i],
    ) by {
        if i == 0 {
            assert(new_children[i] == hd);
        } else {
            assert(new_children[i] == bd);
        }
    }
}

/// The document that `parse` builds from `src`.
pub open spec fn parse_spec(src: Seq<char>) -> DomView {
    normalize(nodes_at(src, 0, None).0)
}

fn is_named(n: &Node, t: &str) -> (r: bool)
    ensures
        r == named(n.dv(), t@),
{
    match &n.node_type {
        NodeType::Element(ed) => eq_lit(chars_of(ed.tag_name.as_str()).as_slice(), t),
        NodeType::Text(_) => false,
    }
}

fn is_head_like(n: &Node) -> (r: bool)
    ensures
        r == head_like(n.dv()),
{
    match &n.node_type {
        NodeType::Element(ed) => {
            let t = chars_of(ed.tag_name.as_str());
            eq_lit(t.as_slice(), "meta") || eq_lit(t.as_slice(), "title") || eq_lit(t.as_slice(), "style")
                || eq_lit(t.as_slice(), "link") || eq_lit(t.as_slice(), "base") || eq_lit(
                t.as_slice(),
                "script",
            )
        },
        NodeType::Text(_) => false,
    }
}

/// Moves the children out of `node`.
fn take_children(node: &mut Node) -> (r: Vec<Node>)
    ensures
        r@ == old(node).children@,
        final(node).children@.len() == 0,
        final(node).node_type == old(node).node_type,
{
    let mut out: Vec<Node> = Vec::new();
    std::mem::swap(&mut out, &mut node.children);
    out
}

pub open spec fn opt_dv(o: Option<Node>) -> Option<DomView> {
    match o {
        Some(n) => Some(n.dv()),
        None => None,
    }
}

/// The first node named `t`, and the others in order.
fn pick_named(nodes: Vec<Node>, t: &str) -> (r: (Option<Node>, Vec<Node>))
    requires
        all_wf(nodes@),
    ensures
        (opt_dv(r.0), dvs(r.1@)) == pick(dvs(nodes@), t@),
        r.0 matches Some(n) ==> n.wf(),
        all_wf(r.1@),
{
    let ghost orig = dvs(nodes@);
    let mut nodes = nodes;
    let mut found: Option<Node> = None;
    let mut rest: Vec<Node> = Vec::new();
    let ghost mut i: int = 0;
    assert(orig.skip(0) =~= orig);
    assert(dvs(rest@) + pick(orig, t@).1 =~= pick(orig, t@).1);
    while nodes.len() > 0
        invariant
            0 <= i <= orig.len(),
            dvs(nodes@) == orig.skip(i),
            all_wf(nodes@),
            all_wf(rest@),
            found matches Some(n) ==> n.wf(),
            found is None ==> pick(orig, t@) == (pick(orig.skip(i), t@).0, dvs(rest@) + pick(orig.skip(i), t@).1),
            found matches Some(n) ==> pick(orig, t@) == (Some(n.dv()), dvs(rest@) + orig.skip(i)),
        decreases nodes@.len(),
    {
        let ghost before = nodes@;
        let ghost rb = rest@;
        let n = nodes.remove(0);
        proof {
            assert(dvs(before)[0] == n.dv());
            assert(dvs(nodes@) =~= dvs(before).drop_first());
            assert(orig.skip(i + 1) =~= orig.skip(i).drop_first());
            assert(before[0].wf());
            assert forall|k: int| 0 <= k < nodes@.len() implies (#[trigger] nodes@[k]).wf() by {
                assert(nodes@[k] == before[k + 1]);
            }
        }
        if found.is_none() && is_named(&n, t) {
            found = Some(n);
        } else {
            rest.push(n);
            proof {
                assert(dvs(rest@) =~= dvs(rb).push(n.dv()));
                assert forall|k: int| 0 <= k < rest@.len() implies (#[trigger] rest@[k]).wf() by {
                    if k < rb.len() {
                        assert(rest@[k] == rb[k]);
                    }
                }
                if found is None {
                    assert(dvs(rest@) + pick(orig.skip(i + 1), t@).1 =~= dvs(rb) + (seq![n.dv()] + pick(orig.skip(i + 1), t@).1));
                } else {
                    assert(dvs(rest@) + orig.skip(i + 1) =~= dvs(rb) + orig.skip(i));
                }
            }
        }
        proof {
            i = i + 1;
        }
    }
    proof {
        assert(orig.skip(i).len() == 0);
        assert(dvs(rest@) + Seq::<DomView>::empty() =~= dvs(rest@));
        assert(dvs(rest@) + orig.skip(i) =~= dvs(rest@));
    }
    (found, rest)
}

proof fn lemma_pick(ns: Seq<DomView>, t: Seq<char>)
    ensures
        pick(ns, t).0 matches Some(x) ==> named(x, t),
    decreases ns.len(),
{
    if ns.len() > 0 && !named(ns[0], t) {
        lemma_pick(ns.drop_first(), t);
    }
}

fn opt_children(o: Option<Node>) -> (r: Vec<Node>)
    requires
        o matches Some(n) ==> n.wf() && n.node_type is Element,
    ensures
        dvs(r@) == opt_kids(opt_dv(o)),
        all_wf(r@),
{
    match o {
        Some(mut n) => {
            let c = take_children(&mut n);
            c
        },
        None => {
            let r: Vec<Node> = Vec::new();
            assert(dvs(r@) =~= Seq::<DomView>::empty());
            r
        },
    }
}

fn normalize_document(nodes: Vec<Node>) -> (r: Node)
    requires
        all_wf(nodes@),
    ensures
        r.dv() == normalize(dvs(nodes@)),
        r.wf(),
{
    let ghost ns = dvs(nodes@);
    proof {
        lemma_pick(ns, "html"@);
    }
    let (html_node, rest) = pick_named(nodes, "html");
    let mut html = match html_node {
        Some(h) => h,
        None => elem(string_of(chars_of("html").as_slice()), Attributes::new(), rest),
    };
    let ghost hv = html.dv();
    assert(html.node_type is Element);
    assert(hv == (match pick(ns, "html"@).0 {
        Some(x) => x,
        None => DomView::Element("html"@, Map::empty(), pick(ns, "html"@).1),
    }));
    let html_children = take_children(&mut html);
    assert(dvs(html_children@) == kids(hv));
    proof {
        lemma_pick(dvs(html_children@), "head"@);
    }
    let (head_node, r1) = pick_named(html_children, "head");
    proof {
        lemma_pick(dvs(r1@), "body"@);
    }
    let (body_node, others) = pick_named(r1, "body");
    let mut head_children = opt_children(head_node);
    let mut body_children = opt_children(body_node);
    let ghost ov = dvs(others@);
    let ghost hc0 = dvs(head_children@);
    let ghost bc0 = dvs(body_children@);
    let mut others = others;
    let ghost mut i: int = 0;
    assert(ov.skip(0) =~= ov);
    assert(dvs(head_children@) + part_head(ov).0 =~= hc0 + part_head(ov).0);
    assert(dvs(body_children@) + part_head(ov).1 =~= bc0 + part_head(ov).1);
    while others.len() > 0
        invariant
            0 <= i <= ov.len(),
            dvs(others@) == ov.skip(i),
            all_wf(others@),
            all_wf(head_children@),
            all_wf(body_children@),
            dvs(head_children@) + part_head(ov.skip(i)).0 == hc0 + part_head(ov).0,
            dvs(body_children@) + part_head(ov.skip(i)).1 == bc0 + part_head(ov).1,
        decreases others@.len(),
    {
        let ghost before = others@;
        let ghost hb = head_children@;
        let ghost bb = body_children@;
        let n = others.remove(0);
        proof {
            assert(dvs(before)[0] == n.dv());
            assert(dvs(others@) =~= dvs(before).drop_first());
            assert(ov.skip(i + 1) =~= ov.skip(i).drop_first());
            assert(before[0].wf());
            assert forall|k: int| 0 <= k < others@.len() implies (#[trigger] others@[k]).wf() by {
                assert(others@[k] == before[k + 1]);
            }
        }
        if is_head_like(&n) {
            head_children.push(n);
            proof {
                assert(dvs(head_children@) =~= dvs(hb).push(n.dv()));
                assert(dvs(head_children@) + part_head(ov.skip(i + 1)).0 =~= dvs(hb) + part_head(ov.skip(i)).0);
                assert forall|k: int| 0 <= k < head_children@.len() implies (#[trigger] head_children@[k]).wf() by {
                    if k < hb.len() {
                        assert(head_children@[k] == hb[k]);
                    }
                }
            }
        } else {
            body_children.push(n);
            proof {
                assert(dvs(body_children@) =~= dvs(bb).push(n.dv()));
                assert(dvs(body_children@) + part_head(ov.skip(i + 1)).1 =~= dvs(bb) + part_head(ov.skip(i)).1);
                assert forall|k: int| 0 <= k < body_children@.len() implies (#[trigger] body_children@[k]).wf() by {
                    if k < bb.len() {
                        assert(body_children@[k] == bb[k]);
                    }
                }
            }
        }
        proof {
            i = i + 1;
        }
    }
    proof {
        assert(ov.skip(i).len() == 0);
        assert(dvs(head_children@) + Seq::<DomView>::empty() =~= dvs(head_children@));
        assert(dvs(body_children@) + Seq::<DomView>::empty() =~= dvs(body_children@));
    }
    let head = elem(string_of(chars_of("head").as_slice()), Attributes::new(), head_children);
    let body = elem(string_of(chars_of("body").as_slice()), Attributes::new(), body_children);
    let children = vec![head, body];
    html.children = children;
    proof {
        assert(dvs(html.children@) =~= seq![head.dv(), body.dv()]);
    }
    html
}

/// Parses a document and normalises it to `html` / `head` / `body`.
pub fn parse(source: String) -> (r: Node)
    ensures
        r.dv() == parse_spec(source@),
        r.wf(),
{
    let mut parser = Parser::new(source);
    let nodes = parser.parse_nodes(None);
    normalize_document(nodes)
}

/// The charset that a `meta` element declares, by `charset` or by
/// `http-equiv="content-type"`.
pub open spec fn meta_charset(tag: Seq<char>, attrs: Map<Seq<char>, Seq<char>>) -> Option<Seq<char>> {
    if tag != "meta"@ {
        None
    } else if attrs.contains_key("charset"@) && attrs["charset"@].len() > 0 {
        Some(unicode_lower(attrs["charset"@]))
    } else if attrs.contains_key("http-equiv"@) && unicode_lower(attrs["http-equiv"@]) == "content-type"@
        && attrs.contains_key("content"@) {
        charset_from_content(attrs["content"@])
    } else {
        None
    }
}

/// The charset named in a `content` value such as `text/html; charset=utf-8`.
pub open spec fn charset_from_content(c: Seq<char>) -> Option<Seq<char>> {
    match sub_pos(c, "charset="@, 0) {
        None => None,
        Some(i) => {
            let rest = c.skip(i + "charset="@.len());
            let part = match sub_pos(rest, "charset="@, 0) {
                Some(j) => rest.take(j),
                None => rest,
            };
            let t = trim(part);
            let cs = trim(t.take(first_of(t, ';') as int));
            if cs.len() == 0 {
                None
            } else {
                Some(unicode_lower(cs))
            }
        },
    }
}

pub open spec fn first_some(s: Seq<Option<Seq<char>>>) -> Option<Seq<char>>
    decreases s.len(),
{
    if s.len() == 0 {
        None
    } else if s[0] is Some {
        s[0]
    } else {
        first_some(s.drop_first())
    }
}

/// The charset that a node itself declares.
pub open spec fn own_charset(n: Node) -> Option<Seq<char>> {
    match n.node_type {
        NodeType::Element(ed) => meta_charset(ed.tag_name@, ed.attributes@),
        NodeType::Text(_) => None,
    }
}

/// The first charset declared in document order.
pub open spec fn charset_in(n: Node) -> Option<Seq<char>>
    decreases n,
{
    match own_charset(n) {
        Some(c) => Some(c),
        None => first_some(charsets(n.children@)),
    }
}

/// The charsets that each node of a list declares in its subtree.
pub open spec fn charsets(s: Seq<Node>) -> Seq<Option<Seq<char>>>
    decreases s,
{
    Seq::new(s.len(), |i: int| if 0 <= i < s.len() { charset_in(s[i]) } else { None })
}

/// The first charset declared in document order, on the model.
pub open spec fn charset_dv(d: DomView) -> Option<Seq<char>>
    decreases d,
{
    match d {
        DomView::Element(tag, attrs, kids) => match meta_charset(tag, attrs) {
            Some(c) => Some(c),
            None => first_some(charsets_dv(kids)),
        },
        DomView::Text(_) => None,
    }
}

pub open spec fn charsets_dv(s: Seq<DomView>) -> Seq<Option<Seq<char>>>
    decreases s,
{
    Seq::new(s.len(), |i: int| if 0 <= i < s.len() { charset_dv(s[i]) } else { None })
}

/// The charset a well-formed node declares is that of its model.
pub proof fn lemma_charset_dv(n: Node)
    requires
        n.wf(),
    ensures
        charset_in(n) == charset_dv(n.dv()),
    decreases n,
{
    assert forall|i: int| 0 <= i < n.children@.len() implies charset_in(#[trigger] n.children@[i]) == charset_dv(
        n.children@[i].dv(),
    ) by {
        lemma_charset_dv(n.children@[i]);
    }
    assert(charsets(n.children@) =~= charsets_dv(dvs(n.children@)));
    if n.node_type is Text {
        assert(charsets(n.children@) =~= Seq::<Option<Seq<char>>>::empty());
    }
}

proof fn lemma_first_some_none(s: Seq<Option<Seq<char>>>, k: int)
    requires
        0 <= k <= s.len(),
        forall|j: int| 0 <= j < k ==> s[j] is None,
    ensures
        first_some(s) == first_some(s.skip(k)),
    decreases k,
{
    if k > 0 {
        assert(s.drop_first().skip(k - 1) =~= s.skip(k));
        lemma_first_some_none(s.drop_first(), k - 1);
    } else {
        assert(s.skip(0) =~= s);
    }
}

fn meta_charset_of(ed: &ElementData) -> (r: Option<String>)
    ensures
        opt_str(r) == meta_charset(ed.tag_name@, ed.attributes@),
{
    let tag = chars_of(ed.tag_name.as_str());
    if !eq_lit(tag.as_slice(), "meta") {
        return None;
    }
    if let Some(charset) = ed.attributes.get("charset") {
        if !charset.as_str().is_empty() {
            return Some(to_lowercase(charset.as_str()));
        }
    }
    if let Some(http_equiv) = ed.attributes.get("http-equiv") {
        let he = to_lowercase(http_equiv.as_str());
        if eq_lit(chars_of(he.as_str()).as_slice(), "content-type") {
            if let Some(content) = ed.attributes.get("content") {
                return charset_of_content(content.as_str());
            }
        }
    }
    None
}

pub open spec fn opt_str(o: Option<String>) -> Option<Seq<char>> {
    match o {
        Some(s) => Some(s@),
        None => None,
    }
}

fn charset_of_content(content: &str) -> (r: Option<String>)
    ensures
        opt_str(r) == charset_from_content(content@),
{
    let c = chars_of(content);
    let pat = chars_of("charset=");
    match find_sub(c.as_slice(), 0, pat.as_slice()) {
        None => None,
        Some(i) => {
            proof {
                lemma_sub_pos_bound(c@, pat@, 0);
            }
            assert(c@.len() == c.len());
            let start = i + pat.len();
            let rest = vstd::slice::slice_subrange(c.as_slice(), start, c.len());
            assert(rest@ =~= c@.skip(i + "charset="@.len()));
            let part = match find_sub(rest, 0, pat.as_slice()) {
                Some(j) => {
                    proof {
                        lemma_sub_pos_bound(rest@, pat@, 0);
                    }
                    vstd::slice::slice_subrange(rest, 0, j)
                },
                None => rest,
            };
            let t = crate::text::trim_chars(part);
            let semi = crate::text::find_char_from(t.as_slice(), 0, ';');
            assert(t@.skip(0) =~= t@);
            let head = vstd::slice::slice_subrange(t.as_slice(), 0, semi);
            let cs = crate::text::trim_chars(head);
            if cs.len() == 0 {
                None
            } else {
                Some(to_lowercase(string_of(cs.as_slice()).as_str()))
            }
        },
    }
}

/// The charset that the first `meta` declaring one names, lower-cased.
pub fn extract_charset(node: &Node) -> (r: Option<String>)
    ensures
        opt_str(r) == charset_in(*node),
    decreases node,
{
    if let NodeType::Element(ed) = &node.node_type {
        if let Some(c) = meta_charset_of(ed) {
            return Some(c);
        }
    }
    let ghost rs = charsets(node.children@);
    assert(charset_in(*node) == first_some(rs));
    let mut i: usize = 0;
    while i < node.children.len()
        invariant
            i <= node.children@.len(),
            own_charset(*node) is None,
            charset_in(*node) == first_some(rs),
            rs.len() == node.children@.len(),
            forall|j: int| 0 <= j < i ==> rs[j] is None,
            forall|j: int| 0 <= j < rs.len() ==> rs[j] == charset_in(#[trigger] node.children@[j]),
        decreases node.children@.len() - i,
    {
        let child = &node.children[i];
        assert(rs[i as int] == charset_in(node.children@[i as int]));
        assert(*child == node.children@[i as int]);
        if let Some(c) = extract_charset(child) {
            proof {
                lemma_first_some_none(rs, i as int);
                assert(rs.skip(i as int)[0] == rs[i as int]);
                assert(first_some(rs.skip(i as int)) == rs[i as int]);
                assert(charset_in(*node) == first_some(rs));
            }
            return Some(c);
        }
        i += 1;
    }
    proof {
        lemma_first_some_none(rs, i as int);
    }
    None
}


// ---------------------------------------------------------------------
// Void elements.
// ---------------------------------------------------------------------

/// A void element (`meta`, `img`, `br`, `hr`, `input`, `link`, `area`,
/// `base`, `col`, `embed`, `param`, `source`, `track`, `wbr`) has no
/// children.
pub open spec fn void_childless(d: DomView) -> bool {
    match d {
        DomView::Element(t, _, c) => (t == "meta"@ || t == "img"@ || t == "br"@ || t == "hr"@ || t == "input"@
            || t == "link"@ || t == "area"@ || t == "base"@ || t == "col"@ || t == "embed"@ || t == "param"@
            || t == "source"@ || t == "track"@ || t == "wbr"@) ==> c.len() == 0,
        DomView::Text(_) => true,
    }
}

/// `f` holds of `d` and of every node below it.
pub open spec fn every_node(d: DomView, f: spec_fn(DomView) -> bool) -> bool
    decreases d,
{
    &&& f(d)
    &&& match d {
        DomView::Element(_, _, c) => forall|i: int| 0 <= i < c.len() ==> every_node(#[trigger] c[i], f),
        DomView::Text(_) => true,
    }
}

pub open spec fn every_in(ns: Seq<DomView>, f: spec_fn(DomView) -> bool) -> bool {
    forall|i: int| 0 <= i < ns.len() ==> every_node(#[trigger] ns[i], f)
}

proof fn lemma_every_cons(n: DomView, r: Seq<DomView>, f: spec_fn(DomView) -> bool)
    requires
        every_node(n, f),
        every_in(r, f),
    ensures
        every_in(seq![n] + r, f),
{
    assert forall|i: int| 0 <= i < (seq![n] + r).len() implies every_node(#[trigger] (seq![n] + r)[i], f) by {
        if i > 0 {
            assert((seq![n] + r)[i] == r[i - 1]);
        }
    }
}

proof fn lemma_every_tail(ns: Seq<DomView>, f: spec_fn(DomView) -> bool)
    requires
        ns.len() > 0,
        every_in(ns, f),
    ensures
        every_in(ns.drop_first(), f),
        every_node(ns[0], f),
{
    assert forall|i: int| 0 <= i < ns.drop_first().len() implies every_node(#[trigger] ns.drop_first()[i], f) by {
        assert(ns.drop_first()[i] == ns[i + 1]);
    }
}

proof fn lemma_pick_every(ns: Seq<DomView>, t: Seq<char>, f: spec_fn(DomView) -> bool)
    requires
        every_in(ns, f),
    ensures
        pick(ns, t).0 matches Some(x) ==> every_node(x, f),
        every_in(pick(ns, t).1, f),
    decreases ns.len(),
{
    if ns.len() > 0 {
        lemma_every_tail(ns, f);
        if !named(ns[0], t) {
            lemma_pick_every(ns.drop_first(), t, f);
            lemma_every_cons(ns[0], pick(ns.drop_first(), t).1, f);
        }
    }
}

proof fn lemma_part_head_every(ns: Seq<DomView>, f: spec_fn(DomView) -> bool)
    requires
        every_in(ns, f),
    ensures
        every_in(part_head(ns).0, f),
        every_in(part_head(ns).1, f),
    decreases ns.len(),
{
    if ns.len() > 0 {
        lemma_every_tail(ns, f);
        lemma_part_head_every(ns.drop_first(), f);
        let r = part_head(ns.drop_first());
        lemma_every_cons(ns[0], r.0, f);
        lemma_every_cons(ns[0], r.1, f);
    }
}

proof fn lemma_concat_every(a: Seq<DomView>, b: Seq<DomView>, f: spec_fn(DomView) -> bool)
    requires
        every_in(a, f),
        every_in(b, f),
    ensures
        every_in(a + b, f),
{
    assert forall|i: int| 0 <= i < (a + b).len() implies every_node(#[trigger] (a + b)[i], f) by {
        if i >= a.len() {
            assert((a + b)[i] == b[i - a.len()]);
        }
    }
}

proof fn lemma_kids_every(o: Option<DomView>, f: spec_fn(DomView) -> bool)
    requires
        o matches Some(x) ==> every_node(x, f),
    ensures
        every_in(opt_kids(o), f),
{
    if let Some(x) = o {
        if let DomView::Element(_, _, c) = x {
            assert forall|i: int| 0 <= i < c.len() implies every_node(#[trigger] c[i], f) by {
                assert(every_node(x, f));
            }
        }
    }
}

/// Normalising the document keeps a property of every node that its
/// `html`, `head` and `body` elements have too.
proof fn lemma_normalize_every(nodes: Seq<DomView>, f: spec_fn(DomView) -> bool)
    requires
        every_in(nodes, f),
        forall|a: Map<Seq<char>, Seq<char>>, c: Seq<DomView>| #[trigger] f(DomView::Element("html"@, a, c)),
        forall|c: Seq<DomView>| #[trigger] f(DomView::Element("head"@, Map::empty(), c)),
        forall|c: Seq<DomView>| #[trigger] f(DomView::Element("body"@, Map::empty(), c)),
    ensures
        every_node(normalize(nodes), f),
{
    lemma_pick_every(nodes, "html"@, f);
    lemma_pick_named(nodes, "html"@);
    let (h, rest) = pick(nodes, "html"@);
    let html = match h {
        Some(x) => x,
        None => DomView::Element("html"@, Map::empty(), rest),
    };
    assert(every_node(html, f));
    let ks = kids(html);
    lemma_kids_every(Some(html), f);
    assert(ks == opt_kids(Some(html)));
    lemma_pick_every(ks, "head"@, f);
    let (head, r1) = pick(ks, "head"@);
    lemma_pick_every(r1, "body"@, f);
    let (body, others) = pick(r1, "body"@);
    lemma_part_head_every(others, f);
    let (to_head, to_body) = part_head(others);
    lemma_kids_every(head, f);
    lemma_kids_every(body, f);
    lemma_concat_every(opt_kids(head), to_head, f);
    lemma_concat_every(opt_kids(body), to_body, f);
    let hc = opt_kids(head) + to_head;
    let bc = opt_kids(body) + to_body;
    let hd = DomView::Element("head"@, Map::empty(), hc);
    let bd = DomView::Element("body"@, Map::empty(), bc);
    assert(f(hd));
    assert(f(bd));
    assert(every_node(hd, f));
    assert(every_node(bd, f));
    let new_children = seq![hd, bd];
    assert forall|i: int| 0 <= i < new_children.len() implies every_node(#[trigger] new_children[i], f) by {
        if i == 0 {
            assert(new_children[i] == hd);
        } else {
            assert(new_children[i] == bd);
        }
    }
    if let DomView::Element(t, a, _) = html {
        assert(t == "html"@);
        assert(f(DomView::Element("html"@, a, new_children)));
    }
}

pub open spec fn void_pred() -> spec_fn(DomView) -> bool {
    |d: DomView| void_childless(d)
}

proof fn lemma_nodes_void(s: Seq<char>, p: int, parent: Option<Seq<char>>)
    ensures
        every_in(nodes_at(s, p, parent).0, void_pred()),
    decreases s.len() - p, 2int,
{
    if 0 <= p <= s.len() {
        lemma_span_le(s.skip(p), ws_pred());
        let q = ws_end(s, p);
        if q < s.len() && !at(s, q, "</"@) && !(parent == Some("p"@) && s[q] == '<' && (peek_start(
            s,
            q,
        ) matches Some(t) && is_block_tag_spec(t))) {
            lemma_node_void(s, q);
            let (n, e) = node_at(s, q);
            if q < e <= s.len() {
                lemma_nodes_void(s, e, parent);
                let r = nodes_at(s, e, parent);
                assert(nodes_at(s, p, parent).0 == seq![n] + r.0);
                lemma_every_cons(n, r.0, void_pred());
            } else {
                assert(nodes_at(s, p, parent).0 == seq![n]);
                lemma_every_cons(n, Seq::empty(), void_pred());
                assert(seq![n] + Seq::<DomView>::empty() =~= seq![n]);
            }
        }
    }
}

proof fn lemma_node_void(s: Seq<char>, p: int)
    ensures
        every_node(node_at(s, p).0, void_pred()),
    decreases s.len() - p, 1int,
{
    if 0 <= p < s.len() && s[p] == '<' {
        if at(s, p, "<!"@) {
            lemma_span_le(s.skip(p), ne_pred('>'));
            assert(s.skip(p)[0] == s[p]);
            let p1 = until(s, p, '>');
            let p2 = step(s, p1);
            lemma_span_le(s.skip(p2), ws_pred());
            let p3 = ws_end(s, p2);
            lemma_node_void(s, p3);
        } else {
            lemma_element_void(s, p);
        }
    }
}

proof fn lemma_element_void(s: Seq<char>, p: int)
    ensures
        every_node(element_at(s, p).0, void_pred()),
    decreases s.len() - p, 0int,
{
    if 0 <= p < s.len() {
        let p1 = p + 1;
        lemma_span_le(s.skip(p1), alnum_pred());
        let te = name_end(s, p1);
        let tag = lower(s.subrange(p1, te));
        lemma_attrs_from(s, te, Map::empty());
        let (attrs, a_end) = attrs_from(s, te, Map::empty());
        let self_closing = a_end < s.len() && s[a_end] == '/';
        let p2 = if self_closing {
            a_end + 1
        } else {
            a_end
        };
        lemma_span_le(s.skip(p2), ne_pred('>'));
        let p3 = until(s, p2, '>');
        let p4 = step(s, p3);
        if self_closing || is_void_tag_spec(tag) {
            assert(element_at(s, p).0 == DomView::Element(tag, attrs, Seq::empty()));
        } else if tag == "script"@ || tag == "style"@ {
            let r = raw_text(s, p4, "</"@ + tag + ">"@);
            let c = seq![DomView::Text(r.0)];
            assert(every_node(c[0], void_pred()));
            assert(element_at(s, p).0 == DomView::Element(tag, attrs, c));
        } else {
            lemma_nodes_void(s, p4, Some(tag));
            let children = nodes_at(s, p4, Some(tag)).0;
            assert(element_at(s, p).0 == DomView::Element(tag, attrs, children));
        }
    }
}

/// Void elements stay empty: in every parsed document, each `meta`,
/// `img`, `br`, `hr`, `input`, `link`, `area`, `base`, `col`, `embed`,
/// `param`, `source`, `track` and `wbr` element has no children, so what
/// follows one in the source is its sibling.
pub proof fn lemma_void_elements_empty(src: Seq<char>)
    ensures
        every_node(parse_spec(src), void_pred()),
{
    lemma_nodes_void(src, 0, None);
    reveal_strlit("html");
    reveal_strlit("head");
    reveal_strlit("body");
    reveal_strlit("meta");
    reveal_strlit("img");
    reveal_strlit("br");
    reveal_strlit("hr");
    reveal_strlit("input");
    reveal_strlit("link");
    reveal_strlit("area");
    reveal_strlit("base");
    reveal_strlit("col");
    reveal_strlit("embed");
    reveal_strlit("param");
    reveal_strlit("source");
    reveal_strlit("track");
    reveal_strlit("wbr");
    assert forall|a: Map<Seq<char>, Seq<char>>, c: Seq<DomView>| #[trigger] (void_pred())(
        DomView::Element("html"@, a, c),
    ) by {
        assert("html"@[0] == 'h');
        assert("html"@[1] == 't');
    }
    assert forall|c: Seq<DomView>| #[trigger] (void_pred())(DomView::Element("head"@, Map::empty(), c)) by {
        assert("head"@[0] == 'h');
        assert("head"@[1] == 'e');
    }
    assert forall|c: Seq<DomView>| #[trigger] (void_pred())(DomView::Element("body"@, Map::empty(), c)) by {
        assert("body"@[0] == 'b');
        assert("body"@[1] == 'o');
    }
    lemma_normalize_every(nodes_at(src, 0, None).0, void_pred());
}


// ---------------------------------------------------------------------
// Entities.
// ---------------------------------------------------------------------

proof fn lemma_decode_from_shift(cs: Seq<char>, i: int, m: int)
    requires
        0 <= m <= i,
        m <= cs.len(),
    ensures
        decode_from(cs, i) == decode_from(cs.skip(m), i - m),
    decreases cs.len() - i,
{
    let t = cs.skip(m);
    let j = i - m;
    if m <= cs.len() && i < cs.len() {
        assert(t[j] == cs[i]);
        lemma_decode_from_shift(cs, i + 1, m);
        if cs[i] == '&' {
            let lim = if cs.len() < i + 33 {
                cs.len() as int
            } else {
                i + 33
            };
            let w = cs.subrange(i + 1, lim);
            assert(t.subrange(j + 1, lim - m) =~= w);
            let k = first_of(w, ';');
            if k < w.len() {
                let end = i + 1 + k;
                assert(t.subrange(j + 1, end - m) =~= cs.subrange(i + 1, end));
                lemma_decode_from_shift(cs, end + 1, m);
                assert(first_of(t.subrange(j + 1, lim - m), ';') == k);
            }
        }
    }
}

proof fn lemma_decode_plain(cs: Seq<char>, i: int)
    requires
        0 <= i <= cs.len(),
        forall|j: int| 0 <= j < cs.len() ==> #[trigger] cs[j] != '&',
    ensures
        decode_from(cs, i) == cs.skip(i),
    decreases cs.len() - i,
{
    if i < cs.len() {
        lemma_decode_plain(cs, i + 1);
        assert(cs.skip(i) =~= seq![cs[i]] + cs.skip(i + 1));
    } else {
        assert(cs.skip(i) =~= Seq::<char>::empty());
    }
}

/// Text without `&` is left as it is.
pub proof fn lemma_plain_text_unchanged(cs: Seq<char>)
    requires
        forall|j: int| 0 <= j < cs.len() ==> #[trigger] cs[j] != '&',
    ensures
        decode_entities_spec(cs) == cs,
{
    lemma_decode_plain(cs, 0);
    assert(cs.skip(0) =~= cs);
}

/// The named entities: `&amp;`, `&lt;`, `&gt;`, `&quot;`, `&apos;` and
/// `&nbsp;` stand for `&`, `<`, `>`, `"`, `'` and a no-break space, and
/// the text after one is decoded on its own.
pub proof fn lemma_named_entities(name: Seq<char>, value: Seq<char>, rest: Seq<char>)
    requires
        (name == "amp"@ && value == "&"@) || (name == "lt"@ && value == "<"@) || (name == "gt"@ && value == ">"@)
            || (name == "quot"@ && value == "\""@) || (name == "apos"@ && value == "'"@) || (name == "nbsp"@
            && value == "\u{00A0}"@),
    ensures
        decode_entities_spec(seq!['&'] + name + seq![';'] + rest) == value + decode_entities_spec(rest),
{
    reveal_strlit("amp");
    reveal_strlit("lt");
    reveal_strlit("gt");
    reveal_strlit("quot");
    reveal_strlit("apos");
    reveal_strlit("nbsp");
    let cs = seq!['&'] + name + seq![';'] + rest;
    let n = name.len() as int;
    assert(n <= 4);
    assert(cs[0] == '&');
    let lim = if cs.len() < 33 {
        cs.len() as int
    } else {
        33
    };
    let w = cs.subrange(1, lim);
    assert forall|j: int| 0 <= j < n implies (ne_pred(';'))(#[trigger] w[j]) by {
        assert(w[j] == name[j]);
    }
    assert(w[n] == ';');
    lemma_span_is(w, ne_pred(';'), n);
    assert(cs.subrange(1, 1 + n) =~= name);
    assert(entity_value(name) == Some(value));
    lemma_decode_from_shift(cs, n + 2, n + 2);
    assert(cs.skip(n + 2) =~= rest);
}


// ---------------------------------------------------------------------
// Paragraphs closed by blocks.
// ---------------------------------------------------------------------

/// A block-level tag: one whose start tag ends an open paragraph.
pub open spec fn block_level(t: Seq<char>) -> bool {
    t == "html"@ || t == "body"@ || t == "div"@ || t == "p"@ || t == "h1"@ || t == "h2"@ || t == "h3"@
        || t == "h4"@ || t == "h5"@ || t == "h6"@ || t == "ul"@ || t == "ol"@ || t == "li"@ || t
        == "section"@ || t == "header"@ || t == "footer"@ || t == "main"@ || t == "article"@ || t
        == "nav"@ || t == "table"@ || t == "form"@ || t == "pre"@
}

/// A `p` element has no block-level element among its children.
pub open spec fn paragraph_inline(d: DomView) -> bool {
    match d {
        DomView::Element(t, _, c) => t == "p"@ ==> forall|i: int|
            0 <= i < c.len() ==> !(#[trigger] c[i] matches DomView::Element(u, _, _) && block_level(u)),
        DomView::Text(_) => true,
    }
}

pub open spec fn paragraph_pred() -> spec_fn(DomView) -> bool {
    |d: DomView| paragraph_inline(d)
}

/// The source holds no comment or doctype.
pub open spec fn no_markup_decl(s: Seq<char>) -> bool {
    forall|i: int| 0 <= i < s.len() ==> !at(s, i, "<!"@)
}

proof fn lemma_block_level_nonempty(t: Seq<char>)
    ensures
        block_level(t) ==> t.len() > 0,
{
    reveal_strlit("html");
    reveal_strlit("body");
    reveal_strlit("div");
    reveal_strlit("p");
    reveal_strlit("h1");
    reveal_strlit("h2");
    reveal_strlit("h3");
    reveal_strlit("h4");
    reveal_strlit("h5");
    reveal_strlit("h6");
    reveal_strlit("ul");
    reveal_strlit("ol");
    reveal_strlit("li");
    reveal_strlit("section");
    reveal_strlit("header");
    reveal_strlit("footer");
    reveal_strlit("main");
    reveal_strlit("article");
    reveal_strlit("nav");
    reveal_strlit("table");
    reveal_strlit("form");
    reveal_strlit("pre");
}

proof fn lemma_paragraph_children(s: Seq<char>, p: int)
    requires
        no_markup_decl(s),
    ensures
        forall|i: int|
            0 <= i < nodes_at(s, p, Some("p"@)).0.len() ==> !(#[trigger] nodes_at(s, p, Some("p"@)).0[i] matches DomView::Element(
                u,
                _,
                _,
            ) && block_level(u)),
    decreases s.len() - p,
{
    let parent = Some("p"@);
    if 0 <= p <= s.len() {
        lemma_span_le(s.skip(p), ws_pred());
        let q = ws_end(s, p);
        if q < s.len() && !at(s, q, "</"@) && !(parent == Some("p"@) && s[q] == '<' && (peek_start(
            s,
            q,
        ) matches Some(t) && is_block_tag_spec(t))) {
            let (n, e) = node_at(s, q);
            assert(!(n matches DomView::Element(u, _, _) && block_level(u))) by {
                if s[q] == '<' {
                    assert(!at(s, q, "<!"@));
                    let te = name_end(s, q + 1);
                    assert(n == element_at(s, q).0);
                    lemma_span_le(s.skip(q + 1), alnum_pred());
                    reveal_strlit("<");
                    assert(s.subrange(q, q + 1) =~= "<"@);
                    if te == q + 1 {
                        assert(s.subrange(q + 1, te).len() == 0);
                        assert(lower(s.subrange(q + 1, te)).len() == 0);
                        lemma_block_level_nonempty(lower(s.subrange(q + 1, te)));
                    } else {
                        assert(peek_start(s, q) == Some(lower(s.subrange(q + 1, te))));
                    }
                }
            }
            if q < e <= s.len() {
                lemma_paragraph_children(s, e);
                let r = nodes_at(s, e, parent);
                assert(nodes_at(s, p, parent).0 == seq![n] + r.0);
                assert forall|i: int| 0 <= i < (seq![n] + r.0).len() implies !(#[trigger] (seq![n] + r.0)[i] matches DomView::Element(
                    u,
                    _,
                    _,
                ) && block_level(u)) by {
                    if i > 0 {
                        assert((seq![n] + r.0)[i] == r.0[i - 1]);
                    }
                }
            } else {
                assert(nodes_at(s, p, parent).0 == seq![n]);
            }
        }
    }
}

proof fn lemma_nodes_paragraph(s: Seq<char>, p: int, parent: Option<Seq<char>>)
    requires
        no_markup_decl(s),
    ensures
        every_in(nodes_at(s, p, parent).0, paragraph_pred()),
    decreases s.len() - p, 2int,
{
    if 0 <= p <= s.len() {
        lemma_span_le(s.skip(p), ws_pred());
        let q = ws_end(s, p);
        if q < s.len() && !at(s, q, "</"@) && !(parent == Some("p"@) && s[q] == '<' && (peek_start(
            s,
            q,
        ) matches Some(t) && is_block_tag_spec(t))) {
            lemma_node_paragraph(s, q);
            let (n, e) = node_at(s, q);
            if q < e <= s.len() {
                lemma_nodes_paragraph(s, e, parent);
                let r = nodes_at(s, e, parent);
                assert(nodes_at(s, p, parent).0 == seq![n] + r.0);
                lemma_every_cons(n, r.0, paragraph_pred());
            } else {
                assert(nodes_at(s, p, parent).0 == seq![n]);
                lemma_every_cons(n, Seq::empty(), paragraph_pred());
                assert(seq![n] + Seq::<DomView>::empty() =~= seq![n]);
            }
        }
    }
}

proof fn lemma_node_paragraph(s: Seq<char>, p: int)
    requires
        no_markup_decl(s),
    ensures
        every_node(node_at(s, p).0, paragraph_pred()),
    decreases s.len() - p, 1int,
{
    if 0 <= p < s.len() && s[p] == '<' {
        assert(!at(s, p, "<!"@));
        lemma_element_paragraph(s, p);
    }
}

proof fn lemma_element_paragraph(s: Seq<char>, p: int)
    requires
        no_markup_decl(s),
    ensures
        every_node(element_at(s, p).0, paragraph_pred()),
    decreases s.len() - p, 0int,
{
    if 0 <= p < s.len() {
        let p1 = p + 1;
        lemma_span_le(s.skip(p1), alnum_pred());
        let te = name_end(s, p1);
        let tag = lower(s.subrange(p1, te));
        lemma_attrs_from(s, te, Map::empty());
        let (attrs, a_end) = attrs_from(s, te, Map::empty());
        let self_closing = a_end < s.len() && s[a_end] == '/';
        let p2 = if self_closing {
            a_end + 1
        } else {
            a_end
        };
        lemma_span_le(s.skip(p2), ne_pred('>'));
        let p3 = until(s, p2, '>');
        let p4 = step(s, p3);
        if self_closing || is_void_tag_spec(tag) {
            assert(element_at(s, p).0 == DomView::Element(tag, attrs, Seq::empty()));
        } else if tag == "script"@ || tag == "style"@ {
            let r = raw_text(s, p4, "</"@ + tag + ">"@);
            let c = seq![DomView::Text(r.0)];
            assert(every_node(c[0], paragraph_pred()));
            assert(element_at(s, p).0 == DomView::Element(tag, attrs, c));
        } else {
            lemma_nodes_paragraph(s, p4, Some(tag));
            if tag == "p"@ {
                lemma_paragraph_children(s, p4);
            }
            let children = nodes_at(s, p4, Some(tag)).0;
            assert(element_at(s, p).0 == DomView::Element(tag, attrs, children));
        }
    }
}

/// A paragraph ends where a block begins: in every document parsed from
/// a source without comments or doctypes, no `p` element has a
/// block-level element (`div`, `p`, a heading, a list, `section`, `table`,
/// `form`, `pre` and the like) as a child; the start tag of one closes
/// the open paragraph.
pub proof fn lemma_paragraph_closed_by_blocks(src: Seq<char>)
    requires
        no_markup_decl(src),
    ensures
        every_node(parse_spec(src), paragraph_pred()),
{
    lemma_nodes_paragraph(src, 0, None);
    reveal_strlit("html");
    reveal_strlit("head");
    reveal_strlit("body");
    reveal_strlit("p");
    assert forall|a: Map<Seq<char>, Seq<char>>, c: Seq<DomView>| #[trigger] (paragraph_pred())(
        DomView::Element("html"@, a, c),
    ) by {
        assert("html"@.len() != "p"@.len());
    }
    assert forall|c: Seq<DomView>| #[trigger] (paragraph_pred())(DomView::Element("head"@, Map::empty(), c)) by {
        assert("head"@.len() != "p"@.len());
    }
    assert forall|c: Seq<DomView>| #[trigger] (paragraph_pred())(DomView::Element("body"@, Map::empty(), c)) by {
        assert("body"@.len() != "p"@.len());
    }
    lemma_normalize_every(nodes_at(src, 0, None).0, paragraph_pred());
}

} // verus!
