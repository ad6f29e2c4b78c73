//! Selectors: simple selectors (`tag`, `#id`, `.class`, `tag.class`, with
//! an optional `[attr]` / `[attr=value]` test) joined by descendant and
//! child combinators, how they match an element and its ancestors, and
//! their specificity.
use vstd::prelude::*;

use crate::dom::{map_get, opt_view, Attributes, ElementData};
use crate::text::{
    chars_of, eq_chars, eq_ignore_case, ends_lit, find_char_from, first_of, has_char, is_whitespace,
    is_ws, lemma_span_is, lemma_span_le, span, string_of, trim, trim_chars, vviews, words, ws_pred,
    ends, eq_ic, skip_ws,
};

verus! {

/// What a simple selector is tested against: an element or one of its
/// ancestors, by tag, id, classes and attributes.
pub struct Target {
    pub tag: Seq<char>,
    pub id: Option<Seq<char>>,
    pub classes: Seq<Seq<char>>,
    pub attrs: Map<Seq<char>, Seq<char>>,
}

/// The words of the `class` attribute.
pub open spec fn class_list(attrs: Map<Seq<char>, Seq<char>>) -> Seq<Seq<char>> {
    if attrs.contains_key("class"@) {
        words(attrs["class"@])
    } else {
        Seq::empty()
    }
}

pub open spec fn elem_target(e: ElementData) -> Target {
    Target {
        tag: e.tag_name@,
        id: map_get(e.attributes@, "id"@),
        classes: class_list(e.attributes@),
        attrs: e.attributes@,
    }
}

/// An element on the path from the root down to the element being
/// styled, as selectors see it.
pub struct Ancestor {
    pub tag: String,
    pub id: Option<String>,
    pub classes: Vec<String>,
    pub attributes: Attributes,
}

pub open spec fn strs_view(s: Seq<String>) -> Seq<Seq<char>> {
    s.map_values(|c: String| c@)
}

impl Ancestor {
    pub open spec fn target(&self) -> Target {
        Target {
            tag: self.tag@,
            id: opt_view(self.id),
            classes: strs_view(self.classes@),
            attrs: self.attributes@,
        }
    }
}

pub open spec fn anc_targets(a: Seq<Ancestor>) -> Seq<Target> {
    a.map_values(|x: Ancestor| x.target())
}

/// The ancestor record of an element.
pub fn ancestor_of(e: &ElementData) -> (r: Ancestor)
    ensures
        r.target() == elem_target(*e),
{
    let id = match e.id() {
        Some(s) => Some(s.clone()),
        None => None,
    };
    let cls = e.classes();
    let mut classes: Vec<String> = Vec::new();
    let mut i: usize = 0;
    while i < cls.len()
        invariant
            i <= cls@.len(),
            classes@.len() == i,
            forall|j: int| 0 <= j < i ==> (#[trigger] classes@[j])@ == cls@[j]@,
        decreases cls@.len() - i,
    {
        classes.push(string_of(cls[i].as_slice()));
        i += 1;
    }
    assert(strs_view(classes@) =~= vviews(cls@));
    Ancestor { tag: e.tag_name.clone(), id, classes, attributes: e.attributes.copy() }
}

// ---------------------------------------------------------------------
// Simple selectors.
// ---------------------------------------------------------------------

/// `base[attr]` split into its base and the trimmed attribute test.
pub open spec fn split_attr(s: Seq<char>) -> Option<(Seq<char>, Seq<char>)> {
    let start = first_of(s, '[');
    if start >= s.len() || !ends(s, "]"@) || s.len() - start <= 2 {
        None
    } else {
        let base = trim(s.take(start as int));
        let attr = trim(s.subrange(start + 1int, s.len() - 1));
        if attr.len() == 0 || attr.contains('[') || attr.contains(']') {
            None
        } else {
            Some((base, attr))
        }
    }
}

/// A value without one pair of surrounding double or single quotes.
pub open spec fn unquote(v: Seq<char>) -> Seq<char> {
    if v.len() >= 2 && v[0] == '"' && v.last() == '"' {
        v.subrange(1, v.len() - 1)
    } else if v.len() >= 2 && v[0] == '\'' && v.last() == '\'' {
        v.subrange(1, v.len() - 1)
    } else {
        v
    }
}

/// `name` tests that the attribute is present; `name=value` that its
/// trimmed value equals `value` (unquoted) ignoring ASCII case.
pub open spec fn attr_matches(attrs: Map<Seq<char>, Seq<char>>, sel: Seq<char>) -> bool {
    let i = first_of(sel, '=');
    if i < sel.len() {
        let name = trim(sel.take(i as int));
        let expected = unquote(trim(sel.skip(i + 1int)));
        attrs.contains_key(name) && eq_ic(trim(attrs[name]), expected)
    } else {
        attrs.contains_key(trim(sel))
    }
}

/// `#id`, `.class`, `tag.class` or `tag`; the empty selector matches all.
pub open spec fn base_matches(t: Target, sel: Seq<char>) -> bool {
    let s = trim(sel);
    if s.len() == 0 {
        true
    } else if s[0] == '#' {
        t.id == Some(s.drop_first())
    } else if s[0] == '.' {
        t.classes.contains(s.drop_first())
    } else if s.contains('.') {
        let i = first_of(s, '.');
        t.tag == s.take(i as int) && t.classes.contains(s.skip(i + 1int))
    } else {
        t.tag == s
    }
}

/// A simple selector with its optional attribute test.
pub open spec fn simple_matches(t: Target, sel: Seq<char>) -> bool {
    let s = trim(sel);
    if s.len() == 0 {
        false
    } else {
        match split_attr(s) {
            Some((b, a)) => base_matches(t, b) && attr_matches(t.attrs, a),
            None => base_matches(t, s),
        }
    }
}

pub fn split_attribute_selector(s: &[char]) -> (r: Option<(Vec<char>, Vec<char>)>)
    ensures
        r matches Some(p) ==> split_attr(s@) == Some((p.0@, p.1@)),
        r is None ==> split_attr(s@) is None,
{
    let start = find_char_from(s, 0, '[');
    assert(s@.skip(0) =~= s@);
    if start >= s.len() || !ends_lit(s, "]") || s.len() - start <= 2 {
        return None;
    }
    let head = vstd::slice::slice_subrange(s, 0, start);
    assert(head@ =~= s@.take(start as int));
    let base = trim_chars(head);
    let inner = vstd::slice::slice_subrange(s, start + 1, s.len() - 1);
    let attr = trim_chars(inner);
    if attr.len() == 0 || has_char(attr.as_slice(), '[') || has_char(attr.as_slice(), ']') {
        return None;
    }
    Some((base, attr))
}

pub fn unquote_attr_value(v: &[char]) -> (r: Vec<char>)
    ensures
        r@ == unquote(v@),
{
    let n = v.len();
    if n >= 2 && v[0] == '"' && v[n - 1] == '"' {
        vstd::slice::slice_to_vec(vstd::slice::slice_subrange(v, 1, n - 1))
    } else if n >= 2 && v[0] == '\'' && v[n - 1] == '\'' {
        vstd::slice::slice_to_vec(vstd::slice::slice_subrange(v, 1, n - 1))
    } else {
        vstd::slice::slice_to_vec(v)
    }
}

pub fn attribute_selector_matches(attributes: &Attributes, selector: &[char]) -> (r: bool)
    ensures
        r == attr_matches(attributes@, selector@),
{
    let i = find_char_from(selector, 0, '=');
    assert(selector@.skip(0) =~= selector@);
    if i < selector.len() {
        let head = vstd::slice::slice_subrange(selector, 0, i);
        assert(head@ =~= selector@.take(i as int));
        let name = string_of(trim_chars(head).as_slice());
        let tail = vstd::slice::slice_subrange(selector, i + 1, selector.len());
        assert(tail@ =~= selector@.skip(i + 1));
        let expected = unquote_attr_value(trim_chars(tail).as_slice());
        match attributes.get(name.as_str()) {
            Some(actual) => {
                let a = trim_chars(chars_of(actual.as_str()).as_slice());
                eq_ignore_case(a.as_slice(), expected.as_slice())
            },
            None => false,
        }
    } else {
        let name = string_of(trim_chars(selector).as_slice());
        attributes.contains_key(name.as_str())
    }
}

/// `list` holds `w`.
fn contains_word(list: &Vec<Vec<char>>, w: &[char]) -> (r: bool)
    ensures
        r == vviews(list@).contains(w@),
{
    let mut i: usize = 0;
    while i < list.len()
        invariant
            i <= list@.len(),
            forall|j: int| 0 <= j < i ==> list@[j]@ != w@,
        decreases list@.len() - i,
    {
        if eq_chars(list[i].as_slice(), w) {
            assert(vviews(list@)[i as int] == w@);
            return true;
        }
        i += 1;
    }
    assert forall|j: int| 0 <= j < vviews(list@).len() implies vviews(list@)[j] != w@ by {
        assert(vviews(list@)[j] == list@[j]@);
    }
    false
}

/// `base_matches` on a tag, an optional id and a class list.
fn base_matches_parts(tag: &[char], id: Option<&[char]>, classes: &Vec<Vec<char>>, selector: &[char]) -> (r: bool)
    ensures
        r == base_matches(
            Target {
                tag: tag@,
                id: match id {
                    Some(x) => Some(x@),
                    None => None,
                },
                classes: vviews(classes@),
                attrs: Map::empty(),
            },
            selector@,
        ),
{
    let s = trim_chars(selector);
    let s = s.as_slice();
    if s.len() == 0 {
        return true;
    }
    if s[0] == '#' {
        let rest = vstd::slice::slice_subrange(s, 1, s.len());
        assert(rest@ =~= s@.drop_first());
        return match id {
            Some(x) => eq_chars(x, rest),
            None => false,
        };
    }
    if s[0] == '.' {
        let rest = vstd::slice::slice_subrange(s, 1, s.len());
        assert(rest@ =~= s@.drop_first());
        return contains_word(classes, rest);
    }
    let i = find_char_from(s, 0, '.');
    assert(s@.skip(0) =~= s@);
    if i < s.len() {
        assert(s@.contains('.'));
        let t = vstd::slice::slice_subrange(s, 0, i);
        assert(t@ =~= s@.take(i as int));
        let c = vstd::slice::slice_subrange(s, i + 1, s.len());
        assert(c@ =~= s@.skip(i + 1));
        eq_chars(tag, t) && contains_word(classes, c)
    } else {
        assert(!s@.contains('.'));
        eq_chars(tag, s)
    }
}

pub fn selector_base_matches_elem(elem: &ElementData, selector: &[char]) -> (r: bool)
    ensures
        r == base_matches(elem_target(*elem), selector@),
{
    let tag = chars_of(elem.tag_name.as_str());
    let classes = elem.classes();
    match elem.id() {
        Some(id) => {
            let idc = chars_of(id.as_str());
            base_matches_parts(tag.as_slice(), Some(idc.as_slice()), &classes, selector)
        },
        None => base_matches_parts(tag.as_slice(), None, &classes, selector),
    }
}

pub fn selector_base_matches_ancestor(a: &Ancestor, selector: &[char]) -> (r: bool)
    ensures
        r == base_matches(a.target(), selector@),
{
    let tag = chars_of(a.tag.as_str());
    let mut classes: Vec<Vec<char>> = Vec::new();
    let mut i: usize = 0;
    while i < a.classes.len()
        invariant
            i <= a.classes@.len(),
            classes@.len() == i,
            forall|j: int| 0 <= j < i ==> (#[trigger] classes@[j])@ == a.classes@[j]@,
        decreases a.classes@.len() - i,
    {
        classes.push(chars_of(a.classes[i].as_str()));
        i += 1;
    }
    assert(vviews(classes@) =~= strs_view(a.classes@));
    match &a.id {
        Some(id) => {
            let idc = chars_of(id.as_str());
            base_matches_parts(tag.as_slice(), Some(idc.as_slice()), &classes, selector)
        },
        None => base_matches_parts(tag.as_slice(), None, &classes, selector),
    }
}

pub fn selector_matches_simple_elem(elem: &ElementData, selector: &[char]) -> (r: bool)
    ensures
        r == simple_matches(elem_target(*elem), selector@),
{
    let s = trim_chars(selector);
    if s.len() == 0 {
        return false;
    }
    match split_attribute_selector(s.as_slice()) {
        Some((base, attr)) => selector_base_matches_elem(elem, base.as_slice())
            && attribute_selector_matches(&elem.attributes, attr.as_slice()),
        None => selector_base_matches_elem(elem, s.as_slice()),
    }
}

pub fn selector_matches_simple_ancestor(a: &Ancestor, selector: &[char]) -> (r: bool)
    ensures
        r == simple_matches(a.target(), selector@),
{
    let s = trim_chars(selector);
    if s.len() == 0 {
        return false;
    }
    match split_attribute_selector(s.as_slice()) {
        Some((base, attr)) => selector_base_matches_ancestor(a, base.as_slice())
            && attribute_selector_matches(&a.attributes, attr.as_slice()),
        None => selector_base_matches_ancestor(a, s.as_slice()),
    }
}


// ---------------------------------------------------------------------
// Compound selectors.
// ---------------------------------------------------------------------

/// How a part of a selector relates to the part on its left.
#[derive(Debug, Clone, Copy, PartialEq, Eq, Structural)]
pub enum SelectorCombinator {
    Descendant,
    Child,
}

/// One simple selector of a compound selector.
pub struct SelectorPart {
    pub simple: Vec<char>,
    pub combinator_to_left: Option<SelectorCombinator>,
}

pub type PartView = (Seq<char>, Option<SelectorCombinator>);

pub open spec fn parts_view(p: Seq<SelectorPart>) -> Seq<PartView> {
    p.map_values(|x: SelectorPart| (x.simple@, x.combinator_to_left))
}

/// Characters of a simple selector: anything but white space and `>`.
pub open spec fn tok_pred() -> spec_fn(char) -> bool {
    |c: char| !is_ws(c) && c != '>'
}

/// Sibling combinators and pseudo-classes are not supported.
pub open spec fn unsupported(t: Seq<char>) -> bool {
    t.contains('+') || t.contains(':') || t.contains('~')
}

/// The parts of `s` from `pos` on; `started` says whether a part came
/// before and `pending` holds a `>` that still waits for its right side.
pub open spec fn parts_from(
    s: Seq<char>,
    pos: nat,
    started: bool,
    pending: Option<SelectorCombinator>,
) -> Option<Seq<PartView>>
    decreases s.len() - pos,
{
    if pos >= s.len() {
        if pending is Some {
            None
        } else {
            Some(Seq::empty())
        }
    } else {
        let p = pos + span(s.skip(pos as int), ws_pred());
        proof {
            lemma_span_le(s.skip(pos as int), ws_pred());
        }
        if p >= s.len() {
            if pending is Some {
                None
            } else {
                Some(Seq::empty())
            }
        } else if s[p as int] == '>' {
            if !started || pending is Some {
                None
            } else {
                parts_from(s, p + 1, started, Some(SelectorCombinator::Child))
            }
        } else {
            let e = p + span(s.skip(p as int), tok_pred());
            proof {
                assert(s.skip(pos as int)[(p - pos) as int] == s[p as int]);
                lemma_tok_nonempty(s, p as int);
            }
            let tok = s.subrange(p as int, e as int);
            if unsupported(tok) {
                None
            } else {
                let comb = if started {
                    Some(
                        match pending {
                            Some(c) => c,
                            None => SelectorCombinator::Descendant,
                        },
                    )
                } else {
                    None
                };
                match parts_from(s, e, true, None) {
                    Some(rest) => Some(seq![(trim(tok), comb)] + rest),
                    None => None,
                }
            }
        }
    }
}

/// The parts of a selector, or `None` when it is empty or unsupported.
pub open spec fn sel_parts(sel: Seq<char>) -> Option<Seq<PartView>> {
    let s = trim(sel);
    if s.len() == 0 {
        None
    } else {
        parts_from(s, 0, false, None)
    }
}

pub proof fn lemma_tok_nonempty(s: Seq<char>, p: int)
    requires
        0 <= p < s.len(),
        !is_ws(s[p]),
        s[p] != '>',
    ensures
        span(s.skip(p), tok_pred()) >= 1,
        p + span(s.skip(p), tok_pred()) <= s.len(),
{
    lemma_span_le(s.skip(p), tok_pred());
    assert(s.skip(p)[0] == s[p]);
}

/// A token of `s` from `p`: where it ends and whether it holds an
/// unsupported character.
fn scan_token(s: &[char], p: usize) -> (r: (usize, bool))
    requires
        p <= s@.len(),
    ensures
        r.0 == p + span(s@.skip(p as int), tok_pred()),
        r.0 <= s@.len(),
        r.1 == unsupported(s@.subrange(p as int, r.0 as int)),
{
    let mut e = p;
    let mut bad = false;
    while e < s.len() && !is_whitespace(s[e]) && s[e] != '>'
        invariant
            p <= e <= s@.len(),
            forall|j: int| p <= j < e ==> (tok_pred())(#[trigger] s@[j]),
            bad == unsupported(s@.subrange(p as int, e as int)),
        decreases s@.len() - e,
    {
        let c = s[e];
        proof {
            let a = s@.subrange(p as int, e as int);
            let b = s@.subrange(p as int, e + 1);
            assert(b =~= a.push(c));
            assert(b.contains('+') == (a.contains('+') || c == '+')) by {
                if c == '+' { assert(b[b.len() - 1] == c); }
                if a.contains('+') { let k = choose|k: int| 0 <= k < a.len() && a[k] == '+'; assert(b[k] == '+'); }
            }
            assert(b.contains(':') == (a.contains(':') || c == ':')) by {
                if c == ':' { assert(b[b.len() - 1] == c); }
                if a.contains(':') { let k = choose|k: int| 0 <= k < a.len() && a[k] == ':'; assert(b[k] == ':'); }
            }
            assert(b.contains('~') == (a.contains('~') || c == '~')) by {
                if c == '~' { assert(b[b.len() - 1] == c); }
                if a.contains('~') { let k = choose|k: int| 0 <= k < a.len() && a[k] == '~'; assert(b[k] == '~'); }
            }
        }
        if c == '+' || c == ':' || c == '~' {
            bad = true;
        }
        e += 1;
    }
    proof {
        let t = s@.skip(p as int);
        assert forall|j: int| 0 <= j < e - p implies (tok_pred())(#[trigger] t[j]) by {
            assert(t[j] == s@[p + j]);
        }
        if e < s@.len() {
            assert(t[e - p] == s@[e as int]);
        }
        lemma_span_is(t, tok_pred(), e - p);
    }
    (e, bad)
}

/// The parts of a compound selector, split at white space and `>`.
pub fn parse_selector_parts(selector: &[char]) -> (r: Option<Vec<SelectorPart>>)
    ensures
        r matches Some(v) ==> sel_parts(selector@) == Some(parts_view(v@)),
        r is None ==> sel_parts(selector@) is None,
{
    let sv = trim_chars(selector);
    let s = sv.as_slice();
    if s.len() == 0 {
        return None;
    }
    let mut parts: Vec<SelectorPart> = Vec::new();
    let mut pos: usize = 0;
    let mut pending: Option<SelectorCombinator> = None;
    let ghost whole = parts_from(s@, 0, false, None);
    loop
        invariant
            pos <= s@.len(),
            s@ == trim(selector@),
            s@.len() > 0,
            whole == parts_from(s@, 0, false, None),
            whole == (match parts_from(s@, pos as nat, parts@.len() > 0, pending) {
                Some(rest) => Some(parts_view(parts@) + rest),
                None => None::<Seq<PartView>>,
            }),
            parts@.len() == 0 ==> pending is None,
        decreases s@.len() - pos,
    {
        let ghost old_parts = parts_view(parts@);
        let p = skip_ws(s, pos);
        proof {
            lemma_span_le(s@.skip(pos as int), ws_pred());
        }
        if p >= s.len() {
            if pending.is_some() {
                assert(parts_from(s@, pos as nat, parts@.len() > 0, pending) is None);
                return None;
            }
            proof {
                assert(parts_view(parts@) + Seq::<PartView>::empty() =~= parts_view(parts@));
            }
            return Some(parts);
        }
        proof {
            assert(s@.skip(pos as int)[(p - pos) as int] == s@[p as int]);
            assert(!is_ws(s@[p as int]));
        }
        if s[p] == '>' {
            if parts.len() == 0 || pending.is_some() {
                assert(parts_from(s@, pos as nat, parts@.len() > 0, pending) is None);
                return None;
            }
            pending = Some(SelectorCombinator::Child);
            pos = p + 1;
        } else {
            proof {
                lemma_tok_nonempty(s@, p as int);
            }
            let (e, bad) = scan_token(s, p);
            if bad {
                assert(parts_from(s@, pos as nat, parts@.len() > 0, pending) is None);
                return None;
            }
            let tok = vstd::slice::slice_subrange(s, p, e);
            let simple = trim_chars(tok);
            let comb = if parts.len() == 0 {
                None
            } else {
                match pending {
                    Some(c) => Some(c),
                    None => Some(SelectorCombinator::Descendant),
                }
            };
            let ghost pv = (simple@, comb);
            parts.push(SelectorPart { simple, combinator_to_left: comb });
            pending = None;
            proof {
                assert(parts_view(parts@) =~= old_parts.push(pv));
                match parts_from(s@, e as nat, true, None) {
                    Some(rest) => {
                        assert(old_parts + (seq![pv] + rest) =~= old_parts.push(pv) + rest);
                    },
                    None => {},
                }
            }
            pos = e;
        }
    }
}


// ---------------------------------------------------------------------
// Matching against an element and its ancestors.
// ---------------------------------------------------------------------

/// The nearest ancestor below index `upto` that `sel` matches.
pub open spec fn find_anc(ancs: Seq<Target>, upto: int, sel: Seq<char>) -> Option<int>
    decreases upto,
{
    if upto <= 0 {
        None
    } else if simple_matches(ancs[upto - 1], sel) {
        Some(upto - 1)
    } else {
        find_anc(ancs, upto - 1, sel)
    }
}

/// Parts `0..=i` are matched, part `i` by the ancestor just below index
/// `cur` (or by the element itself when `cur` is the number of
/// ancestors), each combinator taken from right to left, a descendant
/// combinator by the nearest matching ancestor.
pub open spec fn chain_ok(ancs: Seq<Target>, cur: int, parts: Seq<PartView>, i: int) -> bool
    decreases i,
{
    if i <= 0 {
        true
    } else {
        match parts[i].1 {
            None => false,
            Some(SelectorCombinator::Descendant) => match find_anc(ancs, cur, parts[i - 1].0) {
                Some(j) => chain_ok(ancs, j, parts, i - 1),
                None => false,
            },
            Some(SelectorCombinator::Child) => cur > 0 && simple_matches(ancs[cur - 1], parts[i - 1].0)
                && chain_ok(ancs, cur - 1, parts, i - 1),
        }
    }
}

/// A compound selector matches the element with these ancestors (the
/// root first).
pub open spec fn parts_match(t: Target, ancs: Seq<Target>, parts: Seq<PartView>) -> bool {
    parts.len() > 0 && simple_matches(t, parts.last().0) && chain_ok(
        ancs,
        ancs.len() as int,
        parts,
        parts.len() - 1,
    )
}

pub fn find_ancestor_match(ancestors: &[Ancestor], upto: usize, part: &[char]) -> (r: Option<usize>)
    requires
        upto <= ancestors@.len(),
    ensures
        r matches Some(j) ==> j < upto && find_anc(anc_targets(ancestors@), upto as int, part@) == Some(
            j as int,
        ),
        r is None ==> find_anc(anc_targets(ancestors@), upto as int, part@) is None,
{
    let ghost ancs = anc_targets(ancestors@);
    let mut i = upto;
    while i > 0
        invariant
            i <= upto <= ancestors@.len(),
            ancs == anc_targets(ancestors@),
            find_anc(ancs, upto as int, part@) == find_anc(ancs, i as int, part@),
        decreases i,
    {
        i -= 1;
        assert(ancs[i as int] == ancestors@[i as int].target());
        if selector_matches_simple_ancestor(&ancestors[i], part) {
            return Some(i);
        }
    }
    None
}

pub fn selector_matches_parts(elem: &ElementData, ancestors: &[Ancestor], parts: &[SelectorPart]) -> (r: bool)
    ensures
        r == parts_match(elem_target(*elem), anc_targets(ancestors@), parts_view(parts@)),
{
    let ghost ancs = anc_targets(ancestors@);
    let ghost ps = parts_view(parts@);
    if parts.len() == 0 {
        return false;
    }
    let last = parts.len() - 1;
    assert(ps[last as int] == (parts@[last as int].simple@, parts@[last as int].combinator_to_left));
    if !selector_matches_simple_elem(elem, parts[last].simple.as_slice()) {
        return false;
    }
    let mut cur = ancestors.len();
    let mut i = last;
    while i > 0
        invariant
            i <= last < parts@.len(),
            cur <= ancestors@.len(),
            ancs == anc_targets(ancestors@),
            ps == parts_view(parts@),
            ps.len() == parts@.len(),
            last == ps.len() - 1,
            simple_matches(elem_target(*elem), ps.last().0),
            chain_ok(ancs, ancestors@.len() as int, ps, last as int) == chain_ok(ancs, cur as int, ps, i as int),
        decreases i,
    {
        assert(ps[i as int] == (parts@[i as int].simple@, parts@[i as int].combinator_to_left));
        assert(ps[i - 1] == (parts@[i - 1].simple@, parts@[i - 1].combinator_to_left));
        match parts[i].combinator_to_left {
            None => {
                return false;
            },
            Some(SelectorCombinator::Descendant) => {
                match find_ancestor_match(ancestors, cur, parts[i - 1].simple.as_slice()) {
                    Some(pos) => {
                        cur = pos;
                    },
                    None => {
                        return false;
                    },
                }
            },
            Some(SelectorCombinator::Child) => {
                if cur == 0 {
                    return false;
                }
                let parent = cur - 1;
                assert(ancs[parent as int] == ancestors@[parent as int].target());
                if !selector_matches_simple_ancestor(&ancestors[parent], parts[i - 1].simple.as_slice()) {
                    return false;
                }
                cur = parent;
            },
        }
        i -= 1;
    }
    true
}

// ---------------------------------------------------------------------
// Specificity.
// ---------------------------------------------------------------------

/// (ids, classes and attributes, tags), compared in that order.
#[derive(Debug, Clone, Copy, PartialEq, Eq, Structural)]
pub struct Specificity(pub u32, pub u32, pub u32);

pub open spec fn sp_view(s: Specificity) -> (int, int, int) {
    (s.0 as int, s.1 as int, s.2 as int)
}

/// `a` is at most `b` in lexicographic order.
pub open spec fn spec_le(a: (int, int, int), b: (int, int, int)) -> bool {
    a.0 < b.0 || (a.0 == b.0 && (a.1 < b.1 || (a.1 == b.1 && a.2 <= b.2)))
}

pub fn specificity_le(a: Specificity, b: Specificity) -> (r: bool)
    ensures
        r == spec_le(sp_view(a), sp_view(b)),
{
    a.0 < b.0 || (a.0 == b.0 && (a.1 < b.1 || (a.1 == b.1 && a.2 <= b.2)))
}

pub open spec fn base_spec(s: Seq<char>) -> (int, int, int) {
    if s.len() == 0 {
        (0, 0, 0)
    } else if s[0] == '#' {
        (1, 0, 0)
    } else if s[0] == '.' {
        (0, 1, 0)
    } else if s.contains('.') {
        (0, 1, 1)
    } else {
        (0, 0, 1)
    }
}

/// The specificity of a simple selector; an attribute test counts as a
/// class.
pub open spec fn simple_spec(sel: Seq<char>) -> (int, int, int) {
    let s = trim(sel);
    if s.len() == 0 {
        (0, 0, 0)
    } else {
        match split_attr(s) {
            Some((b, _)) => {
                let x = base_spec(trim(b));
                (x.0, x.1 + 1, x.2)
            },
            None => base_spec(s),
        }
    }
}

/// The sum of the specificities of the parts.
pub open spec fn parts_spec(p: Seq<PartView>) -> (int, int, int)
    decreases p.len(),
{
    if p.len() == 0 {
        (0, 0, 0)
    } else {
        let a = parts_spec(p.drop_last());
        let b = simple_spec(p.last().0);
        (a.0 + b.0, a.1 + b.1, a.2 + b.2)
    }
}

/// The specificity of a selector that matches, `None` when it does not.
pub open spec fn sel_spec(t: Target, ancs: Seq<Target>, sel: Seq<char>) -> Option<(int, int, int)> {
    match sel_parts(sel) {
        Some(ps) => if parts_match(t, ancs, ps) {
            Some(parts_spec(ps))
        } else {
            None
        },
        None => None,
    }
}

/// Each count of a specificity fits a `u32` counter.
pub open spec fn fits_u32(sp: (int, int, int)) -> bool {
    sp.0 <= u32::MAX && sp.1 <= u32::MAX && sp.2 <= u32::MAX
}

/// A selector whose specificity, when it has parts, fits the counters.
pub open spec fn spec_fits(sel: Seq<char>) -> bool {
    sel_parts(sel) matches Some(ps) ==> fits_u32(parts_spec(ps))
}

proof fn lemma_simple_spec_nonneg(sel: Seq<char>)
    ensures
        simple_spec(sel).0 >= 0 && simple_spec(sel).1 >= 0 && simple_spec(sel).2 >= 0,
{
}

proof fn lemma_parts_spec_nonneg(p: Seq<PartView>)
    ensures
        parts_spec(p).0 >= 0 && parts_spec(p).1 >= 0 && parts_spec(p).2 >= 0,
    decreases p.len(),
{
    if p.len() > 0 {
        lemma_parts_spec_nonneg(p.drop_last());
        lemma_simple_spec_nonneg(p.last().0);
    }
}

/// The specificity of a prefix of the parts is at most that of all of
/// them, count by count.
proof fn lemma_parts_spec_prefix(p: Seq<PartView>, i: int)
    requires
        0 <= i <= p.len(),
    ensures
        0 <= parts_spec(p.take(i)).0 <= parts_spec(p).0,
        0 <= parts_spec(p.take(i)).1 <= parts_spec(p).1,
        0 <= parts_spec(p.take(i)).2 <= parts_spec(p).2,
    decreases p.len() - i,
{
    lemma_parts_spec_nonneg(p.take(i));
    if i < p.len() {
        lemma_parts_spec_prefix(p, i + 1);
        let q = p.take(i + 1);
        assert(q.drop_last() =~= p.take(i));
        assert(q.last() == p[i]);
        lemma_simple_spec_nonneg(p[i].0);
    } else {
        assert(p.take(i) =~= p);
    }
}

pub fn specificity_of_simple_base(s: &[char]) -> (r: Specificity)
    ensures
        sp_view(r) == base_spec(s@),
{
    if s.len() == 0 {
        return Specificity(0, 0, 0);
    }
    if s[0] == '#' {
        return Specificity(1, 0, 0);
    }
    if s[0] == '.' {
        return Specificity(0, 1, 0);
    }
    if has_char(s, '.') {
        return Specificity(0, 1, 1);
    }
    Specificity(0, 0, 1)
}

pub fn specificity_of_simple(sel: &[char]) -> (r: Specificity)
    ensures
        sp_view(r) == simple_spec(sel@),
        r.0 <= 1 && r.1 <= 2 && r.2 <= 1,
{
    let s = trim_chars(sel);
    if s.len() == 0 {
        return Specificity(0, 0, 0);
    }
    match split_attribute_selector(s.as_slice()) {
        Some((base, _attr)) => {
            let b = trim_chars(base.as_slice());
            let x = specificity_of_simple_base(b.as_slice());
            Specificity(x.0, x.1 + 1, x.2)
        },
        None => specificity_of_simple_base(s.as_slice()),
    }
}

/// Every part takes at least one character.
pub proof fn lemma_parts_len(s: Seq<char>, pos: nat, started: bool, pending: Option<SelectorCombinator>)
    requires
        pos <= s.len(),
    ensures
        parts_from(s, pos, started, pending) matches Some(r) ==> pos + r.len() <= s.len(),
    decreases s.len() - pos,
{
    if pos < s.len() {
        let p = pos + span(s.skip(pos as int), ws_pred());
        lemma_span_le(s.skip(pos as int), ws_pred());
        if p < s.len() {
            assert(s.skip(pos as int)[(p - pos) as int] == s[p as int]);
            if s[p as int] == '>' {
                if started && pending is None {
                    lemma_parts_len(s, p + 1, started, Some(SelectorCombinator::Child));
                }
            } else {
                lemma_tok_nonempty(s, p as int);
                let e = p + span(s.skip(p as int), tok_pred());
                lemma_parts_len(s, e, true, None);
                assert(e >= pos + 1);
            }
        }
    }
}

pub fn selector_specificity_if_matches(elem: &ElementData, ancestors: &[Ancestor], selector: &[char]) -> (r: Option<Specificity>)
    requires
        sel_spec(elem_target(*elem), anc_targets(ancestors@), selector@) matches Some(sp) ==> fits_u32(sp),
    ensures
        r matches Some(sp) ==> sel_spec(elem_target(*elem), anc_targets(ancestors@), selector@) == Some(sp_view(sp)),
        r is None ==> sel_spec(elem_target(*elem), anc_targets(ancestors@), selector@) is None,
{
    let parts = match parse_selector_parts(selector) {
        Some(p) => p,
        None => {
            return None;
        },
    };
    if !selector_matches_parts(elem, ancestors, parts.as_slice()) {
        return None;
    }
    let ghost ps = parts_view(parts@);
    proof {
        lemma_parts_len(trim(selector@), 0, false, None);
        crate::text::lemma_trim_len(selector@);
    }
    assert(fits_u32(parts_spec(ps)));
    let mut id: u32 = 0;
    let mut class: u32 = 0;
    let mut tag: u32 = 0;
    let mut i: usize = 0;
    while i < parts.len()
        invariant
            i <= parts@.len(),
            ps == parts_view(parts@),
            (id as int, class as int, tag as int) == parts_spec(ps.take(i as int)),
            fits_u32(parts_spec(ps)),
        decreases parts@.len() - i,
    {
        let sp = specificity_of_simple(parts[i].simple.as_slice());
        assert(ps.take(i + 1).drop_last() =~= ps.take(i as int));
        assert(ps.take(i + 1).last() == ps[i as int]);
        proof {
            lemma_parts_spec_prefix(ps, i + 1);
        }
        id += sp.0;
        class += sp.1;
        tag += sp.2;
        i += 1;
    }
    assert(ps.take(i as int) =~= ps);
    Some(Specificity(id, class, tag))
}


/// Whether the specificity of a selector fits the counters: the test that
/// `spec_fits` states, made on a selector's text.
pub fn selector_fits(selector: &[char]) -> (r: bool)
    ensures
        r == spec_fits(selector@),
{
    let parts = match parse_selector_parts(selector) {
        Some(p) => p,
        None => {
            return true;
        },
    };
    let ghost ps = parts_view(parts@);
    let mut id: u64 = 0;
    let mut class: u64 = 0;
    let mut tag: u64 = 0;
    let mut i: usize = 0;
    while i < parts.len()
        invariant
            i <= parts@.len(),
            ps == parts_view(parts@),
            (id as int, class as int, tag as int) == parts_spec(ps.take(i as int)),
            fits_u32(parts_spec(ps.take(i as int))),
            sel_parts(selector@) == Some(ps),
        decreases parts@.len() - i,
    {
        let sp = specificity_of_simple(parts[i].simple.as_slice());
        assert(ps.take(i + 1).drop_last() =~= ps.take(i as int));
        assert(ps.take(i + 1).last() == ps[i as int]);
        id += sp.0 as u64;
        class += sp.1 as u64;
        tag += sp.2 as u64;
        i += 1;
        assert((id as int, class as int, tag as int) == parts_spec(ps.take(i as int)));
        if id > 0xffff_ffff || class > 0xffff_ffff || tag > 0xffff_ffff {
            proof {
                lemma_parts_spec_prefix(ps, i as int);
                assert(!fits_u32(parts_spec(ps)));
            }
            return false;
        }
    }
    assert(ps.take(i as int) =~= ps);
    true
}

// ---------------------------------------------------------------------
// Laws of the combinators.
// ---------------------------------------------------------------------

proof fn lemma_find_anc(ancs: Seq<Target>, upto: int, sel: Seq<char>)
    requires
        upto <= ancs.len(),
    ensures
        find_anc(ancs, upto, sel) is Some <==> exists|j: int| 0 <= j < upto && #[trigger] simple_matches(ancs[j], sel),
        find_anc(ancs, upto, sel) matches Some(j) ==> 0 <= j < upto && simple_matches(ancs[j], sel),
    decreases upto,
{
    if upto > 0 && !simple_matches(ancs[upto - 1], sel) {
        lemma_find_anc(ancs, upto - 1, sel);
        if exists|j: int| 0 <= j < upto && #[trigger] simple_matches(ancs[j], sel) {
            let j = choose|j: int| 0 <= j < upto && #[trigger] simple_matches(ancs[j], sel);
            assert(j < upto - 1);
        }
    }
}

/// `A B` matches an element that `B` matches and that has an ancestor
/// `A` matches.
pub proof fn lemma_descendant_pair(t: Target, ancs: Seq<Target>, a: Seq<char>, b: Seq<char>)
    ensures
        parts_match(t, ancs, seq![(a, None), (b, Some(SelectorCombinator::Descendant))]) <==> (simple_matches(t, b)
            && exists|j: int| 0 <= j < ancs.len() && #[trigger] simple_matches(ancs[j], a)),
{
    let ps: Seq<PartView> = seq![(a, None), (b, Some(SelectorCombinator::Descendant))];
    lemma_find_anc(ancs, ancs.len() as int, a);
    assert(ps.last() == ps[1]);
    match find_anc(ancs, ancs.len() as int, a) {
        Some(j) => {
            assert(chain_ok(ancs, j, ps, 0));
        },
        None => {},
    }
}

proof fn lemma_find_anc_nearest(ancs: Seq<Target>, upto: int, sel: Seq<char>, j: int)
    requires
        0 <= j < upto <= ancs.len(),
        simple_matches(ancs[j], sel),
    ensures
        find_anc(ancs, upto, sel) matches Some(k) && j <= k,
    decreases upto,
{
    if j < upto - 1 && !simple_matches(ancs[upto - 1], sel) {
        lemma_find_anc_nearest(ancs, upto - 1, sel, j);
    }
}

/// Ancestors below index `cur`, one for each of parts `0..i`, in order
/// from the root, each matched by its part.
pub open spec fn desc_chain(ancs: Seq<Target>, cur: int, parts: Seq<PartView>, i: int) -> bool
    decreases i,
{
    if i <= 0 {
        true
    } else {
        exists|j: int|
            0 <= j < cur && #[trigger] simple_matches(ancs[j], parts[i - 1].0) && desc_chain(
                ancs,
                j,
                parts,
                i - 1,
            )
    }
}

/// Every combinator of the selector is a descendant combinator.
pub open spec fn all_descendant(parts: Seq<PartView>) -> bool {
    forall|k: int| 1 <= k < parts.len() ==> (#[trigger] parts[k]).1 == Some(SelectorCombinator::Descendant)
}

proof fn lemma_desc_chain_mono(ancs: Seq<Target>, a: int, b: int, parts: Seq<PartView>, i: int)
    requires
        a <= b,
        desc_chain(ancs, a, parts, i),
    ensures
        desc_chain(ancs, b, parts, i),
{
    if i > 0 {
        let j = choose|j: int|
            0 <= j < a && #[trigger] simple_matches(ancs[j], parts[i - 1].0) && desc_chain(
                ancs,
                j,
                parts,
                i - 1,
            );
        assert(0 <= j < b && simple_matches(ancs[j], parts[i - 1].0) && desc_chain(ancs, j, parts, i - 1));
    }
}

proof fn lemma_chain_desc(ancs: Seq<Target>, cur: int, parts: Seq<PartView>, i: int)
    requires
        0 <= cur <= ancs.len(),
        i < parts.len(),
        all_descendant(parts),
    ensures
        chain_ok(ancs, cur, parts, i) <==> desc_chain(ancs, cur, parts, i),
    decreases i,
{
    if i > 0 {
        assert(parts[i].1 == Some(SelectorCombinator::Descendant));
        let sel = parts[i - 1].0;
        lemma_find_anc(ancs, cur, sel);
        match find_anc(ancs, cur, sel) {
            Some(j) => {
                lemma_chain_desc(ancs, j, parts, i - 1);
                if desc_chain(ancs, cur, parts, i) {
                    let j0 = choose|j0: int|
                        0 <= j0 < cur && #[trigger] simple_matches(ancs[j0], sel) && desc_chain(
                            ancs,
                            j0,
                            parts,
                            i - 1,
                        );
                    lemma_find_anc_nearest(ancs, cur, sel, j0);
                    lemma_desc_chain_mono(ancs, j0, j, parts, i - 1);
                }
                if chain_ok(ancs, cur, parts, i) {
                    assert(0 <= j < cur && simple_matches(ancs[j], sel) && desc_chain(ancs, j, parts, i - 1));
                }
            },
            None => {
                if desc_chain(ancs, cur, parts, i) {
                    let j0 = choose|j0: int|
                        0 <= j0 < cur && #[trigger] simple_matches(ancs[j0], sel) && desc_chain(
                            ancs,
                            j0,
                            parts,
                            i - 1,
                        );
                    lemma_find_anc_nearest(ancs, cur, sel, j0);
                }
            },
        }
    }
}

/// A selector whose combinators are all descendant combinators, such as
/// `A B C`, matches an element exactly when its last part matches the
/// element and the element has ancestors, one for each earlier part and
/// in the same order from the root, that those parts match.
pub proof fn lemma_descendant_chain(t: Target, ancs: Seq<Target>, parts: Seq<PartView>)
    requires
        all_descendant(parts),
    ensures
        parts_match(t, ancs, parts) <==> (parts.len() > 0 && simple_matches(t, parts.last().0)
            && desc_chain(ancs, ancs.len() as int, parts, parts.len() - 1)),
{
    if parts.len() > 0 {
        lemma_chain_desc(ancs, ancs.len() as int, parts, parts.len() - 1);
    }
}

/// `A > B` matches an element that `B` matches and whose parent `A`
/// matches.
pub proof fn lemma_child_pair(t: Target, ancs: Seq<Target>, a: Seq<char>, b: Seq<char>)
    ensures
        parts_match(t, ancs, seq![(a, None), (b, Some(SelectorCombinator::Child))]) <==> (simple_matches(t, b)
            && ancs.len() > 0 && simple_matches(ancs.last(), a)),
{
    let ps: Seq<PartView> = seq![(a, None), (b, Some(SelectorCombinator::Child))];
    assert(ps.last() == ps[1]);
    if ancs.len() > 0 {
        assert(chain_ok(ancs, ancs.len() - 1, ps, 0));
    }
}


proof fn lemma_trim_keeps_out(x: Seq<char>, c: char)
    requires
        !x.contains(c),
    ensures
        !trim(x).contains(c),
{
    crate::text::lemma_trim_range(x);
    lemma_span_le(x, ws_pred());
    crate::text::lemma_rspan_le(x.skip(span(x, ws_pred()) as int), ws_pred());
    if trim(x).contains(c) {
        let i = choose|i: int| 0 <= i < trim(x).len() && trim(x)[i] == c;
        assert(x[span(x, ws_pred()) + i] == c);
    }
}

proof fn lemma_trim_first(x: Seq<char>)
    requires
        x.len() > 0,
        !is_ws(x[0]),
    ensures
        trim(x).len() > 0,
        trim(x)[0] == x[0],
{
    crate::text::lemma_trim_range(x);
    lemma_span_is(x, ws_pred(), 0);
    assert(x.skip(0) =~= x);
    crate::text::lemma_rspan_le(x, ws_pred());
}

proof fn lemma_simple_no_id(x: Seq<char>)
    requires
        !x.contains('#'),
    ensures
        simple_spec(x).0 == 0,
{
    let s = trim(x);
    lemma_trim_keeps_out(x, '#');
    if s.len() > 0 {
        match split_attr(s) {
            Some((b, _)) => {
                let start = first_of(s, '[');
                lemma_span_le(s, crate::text::ne_pred('['));
                if s.take(start as int).contains('#') {
                    let i = choose|i: int| 0 <= i < s.take(start as int).len() && s.take(start as int)[i] == '#';
                    assert(s[i] == '#');
                }
                lemma_trim_keeps_out(s.take(start as int), '#');
                lemma_trim_keeps_out(b, '#');
                if trim(b).len() > 0 {
                    assert(trim(b)[0] != '#');
                }
            },
            None => {
                assert(s[0] != '#');
            },
        }
    }
}

proof fn lemma_simple_id(x: Seq<char>)
    requires
        x.len() > 0,
        x[0] == '#',
    ensures
        simple_spec(x).0 == 1,
{
    lemma_trim_first(x);
    let s = trim(x);
    match split_attr(s) {
        Some((b, _)) => {
            let start = first_of(s, '[');
            lemma_span_le(s, crate::text::ne_pred('['));
            assert(start >= 1);
            let h = s.take(start as int);
            assert(h[0] == '#');
            lemma_trim_first(h);
            lemma_trim_first(b);
        },
        None => {},
    }
}

proof fn lemma_parts_keep_out(s: Seq<char>, pos: nat, started: bool, pending: Option<SelectorCombinator>, c: char)
    requires
        !s.contains(c),
    ensures
        parts_from(s, pos, started, pending) matches Some(ps) ==> forall|i: int|
            0 <= i < ps.len() ==> !(#[trigger] ps[i]).0.contains(c),
    decreases s.len() - pos,
{
    if pos < s.len() {
        let p = pos + span(s.skip(pos as int), ws_pred());
        lemma_span_le(s.skip(pos as int), ws_pred());
        if p < s.len() {
            assert(s.skip(pos as int)[(p - pos) as int] == s[p as int]);
            if s[p as int] == '>' {
                if started && pending is None {
                    lemma_parts_keep_out(s, p + 1, started, Some(SelectorCombinator::Child), c);
                }
            } else {
                lemma_tok_nonempty(s, p as int);
                let e = p + span(s.skip(p as int), tok_pred());
                let tok = s.subrange(p as int, e as int);
                if tok.contains(c) {
                    let i = choose|i: int| 0 <= i < tok.len() && tok[i] == c;
                    assert(s[p + i] == c);
                }
                lemma_trim_keeps_out(tok, c);
                lemma_parts_keep_out(s, e, true, None, c);
                if let Some(ps) = parts_from(s, pos, started, pending) {
                    let rest = parts_from(s, e, true, None)->0;
                    assert forall|i: int| 0 <= i < ps.len() implies !(#[trigger] ps[i]).0.contains(c) by {
                        if i > 0 {
                            assert(ps[i] == rest[i - 1]);
                        }
                    }
                }
            }
        }
    }
}

proof fn lemma_parts_spec_no_id(ps: Seq<PartView>)
    requires
        forall|i: int| 0 <= i < ps.len() ==> !(#[trigger] ps[i]).0.contains('#'),
    ensures
        parts_spec(ps).0 == 0,
    decreases ps.len(),
{
    if ps.len() > 0 {
        lemma_parts_spec_no_id(ps.drop_last());
        lemma_simple_no_id(ps.last().0);
    }
}

/// An id selector outranks any selector without one: where a selector
/// starting with `#` and a selector with no `#` anywhere both match an
/// element, the first is the more specific, strictly, whatever their
/// order in the stylesheet.
pub proof fn lemma_id_selector_outranks(t: Target, ancs: Seq<Target>, a: Seq<char>, b: Seq<char>)
    requires
        trim(a).len() > 0,
        trim(a)[0] == '#',
        !b.contains('#'),
        sel_spec(t, ancs, a) is Some,
        sel_spec(t, ancs, b) is Some,
    ensures
        spec_le(sel_spec(t, ancs, b)->0, sel_spec(t, ancs, a)->0),
        sel_spec(t, ancs, b)->0 != sel_spec(t, ancs, a)->0,
{
    let sb = trim(b);
    lemma_trim_keeps_out(b, '#');
    lemma_parts_keep_out(sb, 0, false, None, '#');
    let pb = sel_parts(b)->0;
    lemma_parts_spec_no_id(pb);
    let sa = trim(a);
    let pa = sel_parts(a)->0;
    lemma_span_is(sa.skip(0), ws_pred(), 0);
    assert(sa.skip(0)[0] == sa[0]);
    lemma_tok_nonempty(sa, 0);
    let e = span(sa.skip(0), tok_pred());
    let tok = sa.subrange(0, e as int);
    let rest = parts_from(sa, e, true, None)->0;
    assert(pa == seq![(trim(tok), None::<SelectorCombinator>)] + rest);
    assert(tok[0] == '#');
    lemma_trim_first(tok);
    lemma_simple_id(trim(tok));
    assert(pa[0].0 == trim(tok));
    lemma_parts_spec_prefix(pa, 1);
    let one = pa.take(1);
    assert(one.drop_last() =~= Seq::<PartView>::empty());
    assert(one.last() == pa[0]);
    assert(parts_spec(one.drop_last()) == (0int, 0int, 0int));
    assert(parts_spec(one).0 == 1);
    assert(parts_spec(pa).0 >= 1);
    assert(sel_spec(t, ancs, a) == Some(parts_spec(pa)));
    assert(sel_spec(t, ancs, b) == Some(parts_spec(pb)));
    assert(parts_spec(pb).0 == 0);
    lemma_parts_spec_nonneg(pa);
    lemma_parts_spec_nonneg(pb);
}


proof fn lemma_simple_tag_only(x: Seq<char>)
    requires
        !x.contains('#'),
        !x.contains('.'),
        !x.contains('['),
    ensures
        simple_spec(x).0 == 0,
        simple_spec(x).1 == 0,
{
    let s = trim(x);
    lemma_trim_keeps_out(x, '#');
    lemma_trim_keeps_out(x, '.');
    lemma_trim_keeps_out(x, '[');
    if s.len() > 0 {
        lemma_span_le(s, crate::text::ne_pred('['));
        if first_of(s, '[') < s.len() {
            assert(s[first_of(s, '[') as int] == '[');
        }
        assert(split_attr(s) is None);
        assert(s[0] != '#' && s[0] != '.');
    }
}

proof fn lemma_simple_class(x: Seq<char>)
    requires
        x.len() > 0,
        x[0] == '.',
    ensures
        simple_spec(x).1 >= 1,
{
    lemma_trim_first(x);
    let s = trim(x);
    match split_attr(s) {
        Some((b, _)) => {
            let start = first_of(s, '[');
            lemma_span_le(s, crate::text::ne_pred('['));
            let h = s.take(start as int);
            assert(h[0] == '.');
            lemma_trim_first(h);
            lemma_trim_first(b);
        },
        None => {},
    }
}

proof fn lemma_parts_spec_tag_only(ps: Seq<PartView>)
    requires
        forall|i: int| 0 <= i < ps.len() ==> !(#[trigger] ps[i]).0.contains('#') && !ps[i].0.contains('.')
            && !ps[i].0.contains('['),
    ensures
        parts_spec(ps).0 == 0,
        parts_spec(ps).1 == 0,
    decreases ps.len(),
{
    if ps.len() > 0 {
        lemma_parts_spec_tag_only(ps.drop_last());
        lemma_simple_tag_only(ps.last().0);
    }
}

/// A class selector outranks any selector made of tag names alone: where a
/// selector starting with `.` and a selector with no `#`, `.` or `[`
/// anywhere both match an element, the first is the more specific,
/// strictly, whatever their order in the stylesheet.
pub proof fn lemma_class_selector_outranks_tags(t: Target, ancs: Seq<Target>, a: Seq<char>, b: Seq<char>)
    requires
        trim(a).len() > 0,
        trim(a)[0] == '.',
        !b.contains('#'),
        !b.contains('.'),
        !b.contains('['),
        sel_spec(t, ancs, a) is Some,
        sel_spec(t, ancs, b) is Some,
    ensures
        spec_le(sel_spec(t, ancs, b)->0, sel_spec(t, ancs, a)->0),
        sel_spec(t, ancs, b)->0 != sel_spec(t, ancs, a)->0,
{
    let sb = trim(b);
    lemma_trim_keeps_out(b, '#');
    lemma_trim_keeps_out(b, '.');
    lemma_trim_keeps_out(b, '[');
    lemma_parts_keep_out(sb, 0, false, None, '#');
    lemma_parts_keep_out(sb, 0, false, None, '.');
    lemma_parts_keep_out(sb, 0, false, None, '[');
    let pb = sel_parts(b)->0;
    lemma_parts_spec_tag_only(pb);
    let sa = trim(a);
    let pa = sel_parts(a)->0;
    lemma_span_is(sa.skip(0), ws_pred(), 0);
    assert(sa.skip(0)[0] == sa[0]);
    lemma_tok_nonempty(sa, 0);
    let e = span(sa.skip(0), tok_pred());
    let tok = sa.subrange(0, e as int);
    let rest = parts_from(sa, e, true, None)->0;
    assert(pa == seq![(trim(tok), None::<SelectorCombinator>)] + rest);
    assert(tok[0] == '.');
    lemma_trim_first(tok);
    lemma_simple_class(trim(tok));
    lemma_simple_spec_nonneg(trim(tok));
    assert(pa[0].0 == trim(tok));
    lemma_parts_spec_prefix(pa, 1);
    let one = pa.take(1);
    assert(one.drop_last() =~= Seq::<PartView>::empty());
    assert(one.last() == pa[0]);
    assert(parts_spec(one.drop_last()) == (0int, 0int, 0int));
    assert(parts_spec(one).1 >= 1);
    assert(parts_spec(pa).1 >= 1);
    assert(sel_spec(t, ancs, a) == Some(parts_spec(pa)));
    assert(sel_spec(t, ancs, b) == Some(parts_spec(pb)));
    lemma_parts_spec_nonneg(pa);
    lemma_parts_spec_nonneg(pb);
}

} // verus!
