//! Style rules: selector parsing and matching with specificity, the
//! cascade of declarations onto an element, the keyword properties
//! (`display`, `position`, `float`, `clear`, `z-index`) and the form
//! fields an element contributes.
use vstd::prelude::*;

use crate::css::{
    decls_view, inline_decls, parse_inline_declarations, rules_view, sels_view, DeclView, Declaration,
    Rule, RuleView, Stylesheet,
};
use crate::dom::{
    DomView, dvs, opt_view, lemma_pairs_map_absent, lemma_pairs_map_unique, map_get, pair_view, pairs_map, Attributes,
    ElementData, Node, NodeType,
};
use crate::selector::{
    class_list, anc_targets, elem_target, sel_spec, selector_specificity_if_matches, sp_view, spec_fits, spec_le,
    specificity_le, Ancestor, Specificity, Target,
};
use crate::text::{
    unicode_lower, to_lowercase, chars_of, eq_chars, eq_ic, eq_ignore_case, eq_lit, ends_lit, first_of, has_char, is_ws, lemma_span_is,
    lemma_span_le, lower, ne_pred, span, split_whitespace, string_of, to_ascii_lower, trim,
    trim_chars, vviews, words, ws_pred,
};

verus! {

// ---------------------------------------------------------------------
// Keyword properties.
// ---------------------------------------------------------------------

#[derive(Debug, Clone, Copy, PartialEq, Eq, Structural)]
pub enum Display {
    Inline,
    InlineBlock,
    Block,
    Flex,
    /// `display: none`: the element generates no box.
    Hidden,
}

#[derive(Debug, Clone, Copy, PartialEq, Eq, Structural)]
pub enum Float {
    /// `float: none`.
    NoFloat,
    Left,
    Right,
}

impl Float {
    pub fn is_floating(self) -> (r: bool)
        ensures
            r == !(self is NoFloat),
    {
        !matches!(self, Float::NoFloat)
    }
}

#[derive(Debug, Clone, Copy, PartialEq, Eq, Structural)]
pub enum Clear {
    /// `clear: none`.
    NoClear,
    Left,
    Right,
    Both,
}

#[derive(Debug, Clone, Copy, PartialEq, Eq, Structural)]
pub enum Position {
    Static,
    Relative,
    Absolute,
    Fixed,
    Sticky,
}

impl Position {
    pub fn is_positioned(self) -> (r: bool)
        ensures
            r == !(self is Static),
    {
        !matches!(self, Position::Static)
    }

    pub fn is_out_of_flow(self) -> (r: bool)
        ensures
            r == (self is Absolute || self is Fixed),
    {
        matches!(self, Position::Absolute | Position::Fixed)
    }

    pub fn behaves_like_relative(self) -> (r: bool)
        ensures
            r == (self is Relative || self is Sticky),
    {
        matches!(self, Position::Relative | Position::Sticky)
    }
}

#[derive(Debug, Clone, Copy, PartialEq, Eq, Structural)]
pub enum ZIndex {
    Auto,
    Integer(i32),
}

impl ZIndex {
    pub fn stack_level(self) -> (r: Option<i32>)
        ensures
            r == (match self {
                ZIndex::Auto => None,
                ZIndex::Integer(v) => Some(v),
            }),
    {
        match self {
            ZIndex::Auto => None,
            ZIndex::Integer(value) => Some(value),
        }
    }
}

/// Elements that are never displayed.
pub open spec fn hidden_tag(t: Seq<char>) -> bool {
    t == "head"@ || t == "meta"@ || t == "title"@ || t == "script"@ || t == "style"@ || t
        == "link"@
}

/// Elements displayed as blocks by default.
pub open spec fn block_tag(t: Seq<char>) -> bool {
    t == "html"@ || t == "body"@ || t == "div"@ || t == "p"@ || t == "h1"@ || t == "h2"@ || t
        == "h3"@ || t == "h4"@ || t == "h5"@ || t == "h6"@ || t == "ul"@ || t == "ol"@ || t
        == "li"@ || t == "section"@ || t == "article"@ || t == "header"@ || t == "footer"@ || t
        == "nav"@ || t == "main"@ || t == "form"@ || t == "pre"@ || t == "blockquote"@
}

pub fn is_hidden_element(tag: &str) -> (r: bool)
    ensures
        r == hidden_tag(tag@),
{
    let t = chars_of(tag);
    eq_lit(t.as_slice(), "head") || eq_lit(t.as_slice(), "meta") || eq_lit(t.as_slice(), "title")
        || eq_lit(t.as_slice(), "script") || eq_lit(t.as_slice(), "style") || eq_lit(
        t.as_slice(),
        "link",
    )
}

pub fn is_block_element(tag: &str) -> (r: bool)
    ensures
        r == block_tag(tag@),
{
    let t = chars_of(tag);
    let t = t.as_slice();
    eq_lit(t, "html") || eq_lit(t, "body") || eq_lit(t, "div") || eq_lit(t, "p") || eq_lit(t, "h1")
        || eq_lit(t, "h2") || eq_lit(t, "h3") || eq_lit(t, "h4") || eq_lit(t, "h5") || eq_lit(t, "h6")
        || eq_lit(t, "ul") || eq_lit(t, "ol") || eq_lit(t, "li") || eq_lit(t, "section") || eq_lit(
        t,
        "article",
    ) || eq_lit(t, "header") || eq_lit(t, "footer") || eq_lit(t, "nav") || eq_lit(t, "main")
        || eq_lit(t, "form") || eq_lit(t, "pre") || eq_lit(t, "blockquote")
}

/// An `<input type="hidden">`.
pub open spec fn hidden_input(tag: Seq<char>, attrs: Map<Seq<char>, Seq<char>>) -> bool {
    tag == "input"@ && attrs.contains_key("type"@) && eq_ic(trim(attrs["type"@]), "hidden"@)
}

pub fn is_hidden_input(element: &ElementData) -> (r: bool)
    ensures
        r == hidden_input(element.tag_name@, element.attributes@),
{
    if !eq_lit(chars_of(element.tag_name.as_str()).as_slice(), "input") {
        return false;
    }
    match element.attributes.get("type") {
        Some(v) => {
            let t = trim_chars(chars_of(v.as_str()).as_slice());
            crate::text::eq_ignore_case_lit(t.as_slice(), "hidden")
        },
        None => false,
    }
}

/// The `display` of a node: text is inline; a hidden input is none; then
/// the `display` value; then the tag's default.
pub open spec fn display_spec(n: Node, value: Option<Seq<char>>) -> Display {
    match n.node_type {
        NodeType::Text(_) => Display::Inline,
        NodeType::Element(e) => {
            if hidden_input(e.tag_name@, e.attributes@) {
                Display::Hidden
            } else {
                match value {
                    Some(v) => {
                        let t = trim(v);
                        if t == "block"@ {
                            Display::Block
                        } else if t == "inline-block"@ {
                            Display::InlineBlock
                        } else if t == "flex"@ {
                            Display::Flex
                        } else if t == "none"@ {
                            Display::Hidden
                        } else {
                            Display::Inline
                        }
                    },
                    None => if hidden_tag(e.tag_name@) {
                        Display::Hidden
                    } else if block_tag(e.tag_name@) {
                        Display::Block
                    } else {
                        Display::Inline
                    },
                }
            }
        },
    }
}

/// The `display` of `node` whose `display` property (if any) is `value`.
pub fn display_of(node: &Node, value: Option<&String>) -> (r: Display)
    ensures
        r == display_spec(*node, match value {
            Some(v) => Some(v@),
            None => None,
        }),
{
    match &node.node_type {
        NodeType::Text(_) => Display::Inline,
        NodeType::Element(e) => {
            if is_hidden_input(e) {
                return Display::Hidden;
            }
            match value {
                Some(v) => {
                    let t = trim_chars(chars_of(v.as_str()).as_slice());
                    let t = t.as_slice();
                    if eq_lit(t, "block") {
                        Display::Block
                    } else if eq_lit(t, "inline-block") {
                        Display::InlineBlock
                    } else if eq_lit(t, "flex") {
                        Display::Flex
                    } else if eq_lit(t, "none") {
                        Display::Hidden
                    } else {
                        Display::Inline
                    }
                },
                None => {
                    if is_hidden_element(e.tag_name.as_str()) {
                        Display::Hidden
                    } else if is_block_element(e.tag_name.as_str()) {
                        Display::Block
                    } else {
                        Display::Inline
                    }
                },
            }
        },
    }
}

pub open spec fn position_spec(value: Option<Seq<char>>) -> Position {
    match value {
        Some(v) => {
            let t = trim(v);
            if t == "relative"@ {
                Position::Relative
            } else if t == "absolute"@ {
                Position::Absolute
            } else if t == "fixed"@ {
                Position::Fixed
            } else if t == "sticky"@ {
                Position::Sticky
            } else {
                Position::Static
            }
        },
        None => Position::Static,
    }
}

pub open spec fn opt_s(v: Option<&String>) -> Option<Seq<char>> {
    match v {
        Some(s) => Some(s@),
        None => None,
    }
}

/// The `position` keyword of a value; `sticky` is kept apart for callers
/// that treat it like `relative`.
pub fn position_of(value: Option<&String>) -> (r: Position)
    ensures
        r == position_spec(opt_s(value)),
{
    match value {
        Some(v) => {
            let t = trim_chars(chars_of(v.as_str()).as_slice());
            let t = t.as_slice();
            if eq_lit(t, "relative") {
                Position::Relative
            } else if eq_lit(t, "absolute") {
                Position::Absolute
            } else if eq_lit(t, "fixed") {
                Position::Fixed
            } else if eq_lit(t, "sticky") {
                Position::Sticky
            } else {
                Position::Static
            }
        },
        None => Position::Static,
    }
}

pub open spec fn float_spec(value: Option<Seq<char>>) -> Float {
    match value {
        Some(v) => if trim(v) == "left"@ {
            Float::Left
        } else if trim(v) == "right"@ {
            Float::Right
        } else {
            Float::NoFloat
        },
        None => Float::NoFloat,
    }
}

pub fn float_of(value: Option<&String>) -> (r: Float)
    ensures
        r == float_spec(opt_s(value)),
{
    match value {
        Some(v) => {
            let t = trim_chars(chars_of(v.as_str()).as_slice());
            if eq_lit(t.as_slice(), "left") {
                Float::Left
            } else if eq_lit(t.as_slice(), "right") {
                Float::Right
            } else {
                Float::NoFloat
            }
        },
        None => Float::NoFloat,
    }
}

pub open spec fn clear_spec(value: Option<Seq<char>>) -> Clear {
    match value {
        Some(v) => if trim(v) == "left"@ {
            Clear::Left
        } else if trim(v) == "right"@ {
            Clear::Right
        } else if trim(v) == "both"@ {
            Clear::Both
        } else {
            Clear::NoClear
        },
        None => Clear::NoClear,
    }
}

pub fn clear_of(value: Option<&String>) -> (r: Clear)
    ensures
        r == clear_spec(opt_s(value)),
{
    match value {
        Some(v) => {
            let t = trim_chars(chars_of(v.as_str()).as_slice());
            if eq_lit(t.as_slice(), "left") {
                Clear::Left
            } else if eq_lit(t.as_slice(), "right") {
                Clear::Right
            } else if eq_lit(t.as_slice(), "both") {
                Clear::Both
            } else {
                Clear::NoClear
            }
        },
        None => Clear::NoClear,
    }
}

/// `str::parse::<i32>`: an optional sign and decimal digits that fit.
pub open spec fn parse_i32_spec(s: Seq<char>) -> Option<int> {
    if s.len() > 0 && s[0] == '-' {
        match crate::text::parse_unsigned(s.drop_first(), 10, 0x8000_0000) {
            Some(v) => Some(-(v as int)),
            None => None,
        }
    } else {
        match crate::text::parse_unsigned(s, 10, 0x7fff_ffff) {
            Some(v) => Some(v as int),
            None => None,
        }
    }
}

/// A `-` followed by `+digits` is not a number for `str::parse`.
pub open spec fn parse_i32_ok(s: Seq<char>) -> Option<int> {
    if s.len() > 1 && s[0] == '-' && s[1] == '+' {
        None
    } else {
        parse_i32_spec(s)
    }
}

pub fn parse_i32(s: &[char]) -> (r: Option<i32>)
    ensures
        r matches Some(v) ==> parse_i32_ok(s@) == Some(v as int),
        r is None ==> parse_i32_ok(s@) is None,
{
    if s.len() > 1 && s[0] == '-' && s[1] == '+' {
        return None;
    }
    if s.len() > 0 && s[0] == '-' {
        let rest = vstd::slice::slice_subrange(s, 1, s.len());
        assert(rest@ =~= s@.drop_first());
        match crate::text::parse_uint(rest, 10, 0x8000_0000) {
            Some(v) => {
                if v == 0x8000_0000 {
                    Some(-0x8000_0000i32)
                } else {
                    Some(-(v as i32))
                }
            },
            None => None,
        }
    } else {
        match crate::text::parse_uint(s, 10, 0x7fff_ffff) {
            Some(v) => Some(v as i32),
            None => None,
        }
    }
}

pub open spec fn z_index_spec(value: Option<Seq<char>>) -> ZIndex {
    match value {
        None => ZIndex::Auto,
        Some(v) => {
            let t = trim(v);
            if t == "auto"@ {
                ZIndex::Auto
            } else {
                match parse_i32_ok(t) {
                    Some(n) => ZIndex::Integer(n as i32),
                    None => ZIndex::Auto,
                }
            }
        },
    }
}

pub fn z_index_of(value: Option<&String>) -> (r: ZIndex)
    ensures
        r == z_index_spec(opt_s(value)),
{
    match value {
        None => ZIndex::Auto,
        Some(v) => {
            let t = trim_chars(chars_of(v.as_str()).as_slice());
            if eq_lit(t.as_slice(), "auto") {
                ZIndex::Auto
            } else {
                match parse_i32(t.as_slice()) {
                    Some(n) => ZIndex::Integer(n),
                    None => ZIndex::Auto,
                }
            }
        },
    }
}

// ---------------------------------------------------------------------
// Inherited properties.
// ---------------------------------------------------------------------

pub open spec fn inheritable(name: Seq<char>) -> bool {
    name == "color"@ || name == "font-size"@ || name == "font-family"@ || name == "font-weight"@
        || name == "line-height"@ || name == "text-decoration"@
}

pub fn is_inheritable_prop(name: &str) -> (r: bool)
    ensures
        r == inheritable(name@),
{
    let n = chars_of(name);
    let n = n.as_slice();
    eq_lit(n, "color") || eq_lit(n, "font-size") || eq_lit(n, "font-family") || eq_lit(
        n,
        "font-weight",
    ) || eq_lit(n, "line-height") || eq_lit(n, "text-decoration")
}

/// The inheritable entries of `values`.
pub fn inherit_only(values: &Attributes) -> (r: Attributes)
    ensures
        r@ == values@.restrict(values@.dom().filter(|k: Seq<char>| inheritable(k))),
{
    let mut out = Attributes::new();
    let entries = values.entries();
    let ghost ps = values.pairs();
    let mut i: usize = 0;
    while i < entries.len()
        invariant
            i <= entries@.len(),
            entries@.map_values(|e: (String, String)| pair_view(e)) == ps,
            pairs_map(ps) == values@,
            forall|a: int, b: int| 0 <= a < b < ps.len() ==> #[trigger] ps[a].0 != #[trigger] ps[b].0,
            out@ == pairs_map(ps.take(i as int)).restrict(pairs_map(ps.take(i as int)).dom().filter(
                |k: Seq<char>| inheritable(k),
            )),
        decreases entries@.len() - i,
    {
        let (k, v) = &entries[i];
        let ghost prev = pairs_map(ps.take(i as int));
        assert(ps.take(i + 1).drop_last() =~= ps.take(i as int));
        assert(ps.take(i + 1).last() == (k@, v@));
        if is_inheritable_prop(k.as_str()) {
            out.insert(k.clone(), v.clone());
            assert(out@ =~= pairs_map(ps.take(i + 1)).restrict(pairs_map(ps.take(i + 1)).dom().filter(
                |x: Seq<char>| inheritable(x),
            )));
        } else {
            assert(out@ =~= pairs_map(ps.take(i + 1)).restrict(pairs_map(ps.take(i + 1)).dom().filter(
                |x: Seq<char>| inheritable(x),
            )));
        }
        i += 1;
    }
    assert(ps.take(i as int) =~= ps);
    out
}


// ---------------------------------------------------------------------
// The cascade.
// ---------------------------------------------------------------------

/// The highest specificity among the selectors of a rule that match.
pub open spec fn rule_spec(t: Target, ancs: Seq<Target>, sels: Seq<Seq<char>>) -> Option<(int, int, int)>
    decreases sels.len(),
{
    if sels.len() == 0 {
        None
    } else {
        let prev = rule_spec(t, ancs, sels.drop_last());
        match sel_spec(t, ancs, sels.last()) {
            None => prev,
            Some(x) => match prev {
                None => Some(x),
                Some(y) => if spec_le(x, y) {
                    Some(y)
                } else {
                    Some(x)
                },
            },
        }
    }
}

/// Every selector of every rule fits the specificity counters.
pub open spec fn sheet_fits(rules: Seq<RuleView>) -> bool {
    forall|i: int, k: int|
        0 <= i < rules.len() && 0 <= k < rules[i].selectors.len() ==> spec_fits(
            #[trigger] rules[i].selectors[k],
        )
}

pub fn matching_rule_specificity(elem: &ElementData, rule: &Rule, ancestors: &[Ancestor]) -> (r: Option<
    Specificity,
>)
    requires
        forall|k: int| 0 <= k < rule@.selectors.len() ==> spec_fits(#[trigger] rule@.selectors[k]),
    ensures
        r matches Some(sp) ==> rule_spec(elem_target(*elem), anc_targets(ancestors@), rule@.selectors)
            == Some(sp_view(sp)),
        r is None ==> rule_spec(elem_target(*elem), anc_targets(ancestors@), rule@.selectors) is None,
{
    let ghost t = elem_target(*elem);
    let ghost ancs = anc_targets(ancestors@);
    let ghost sels = rule@.selectors;
    let mut best: Option<Specificity> = None;
    let mut i: usize = 0;
    while i < rule.selectors.len()
        invariant
            i <= rule.selectors@.len(),
            sels == rule@.selectors,
            sels.len() == rule.selectors@.len(),
            t == elem_target(*elem),
            ancs == anc_targets(ancestors@),
            forall|k: int| 0 <= k < sels.len() ==> spec_fits(#[trigger] sels[k]),
            match best {
                Some(b) => rule_spec(t, ancs, sels.take(i as int)) == Some(sp_view(b)),
                None => rule_spec(t, ancs, sels.take(i as int)) is None,
            },
        decreases rule.selectors@.len() - i,
    {
        assert(sels[i as int] == rule.selectors@[i as int].simple@);
        assert(sels.take(i + 1).drop_last() =~= sels.take(i as int));
        assert(sels.take(i + 1).last() == sels[i as int]);
        let sel = chars_of(rule.selectors[i].simple.as_str());
        match selector_specificity_if_matches(elem, ancestors, sel.as_slice()) {
            Some(x) => {
                best = match best {
                    None => Some(x),
                    Some(y) => if specificity_le(x, y) {
                        Some(y)
                    } else {
                        Some(x)
                    },
                };
            },
            None => {},
        }
        i += 1;
    }
    assert(sels.take(i as int) =~= sels);
    best
}

/// The value of the last declaration of `n`.
pub open spec fn decl_of(d: Seq<DeclView>, n: Seq<char>) -> Option<Seq<char>>
    decreases d.len(),
{
    if d.len() == 0 {
        None
    } else if d.last().0 == n {
        Some(d.last().1)
    } else {
        decl_of(d.drop_last(), n)
    }
}

/// A rule for the cascade: its specificity when it matches, and its
/// declarations.
pub type CascadeItem = (Option<(int, int, int)>, Seq<DeclView>);

/// The winning declaration of `n` with its specificity: among the
/// matching rules that declare `n`, the one with the highest specificity
/// and, of those, the last; its last declaration of `n`.
pub open spec fn best(items: Seq<CascadeItem>, n: Seq<char>) -> Option<((int, int, int), Seq<char>)>
    decreases items.len(),
{
    if items.len() == 0 {
        None
    } else {
        let prev = best(items.drop_last(), n);
        match (items.last().0, decl_of(items.last().1, n)) {
            (Some(sp), Some(v)) => match prev {
                Some(pr) => if spec_le(pr.0, sp) {
                    Some((sp, v))
                } else {
                    prev
                },
                None => Some((sp, v)),
            },
            _ => prev,
        }
    }
}

pub open spec fn rule_items(t: Target, ancs: Seq<Target>, rules: Seq<RuleView>) -> Seq<CascadeItem> {
    rules.map_values(|r: RuleView| (rule_spec(t, ancs, r.selectors), r.declarations))
}

/// The values that the style rules give an element.
pub open spec fn cascade_map(t: Target, ancs: Seq<Target>, rules: Seq<RuleView>) -> Map<Seq<char>, Seq<char>> {
    Map::new(
        |n: Seq<char>| best(rule_items(t, ancs, rules), n) is Some,
        |n: Seq<char>| best(rule_items(t, ancs, rules), n).unwrap().1,
    )
}

proof fn lemma_best_step(pi: Seq<CascadeItem>, sp: (int, int, int), d: Seq<DeclView>, j: int, n: Seq<char>)
    requires
        0 <= j < d.len(),
    ensures
        ({
            let before = best(pi.push((Some(sp), d.take(j))), n);
            let after = best(pi.push((Some(sp), d.take(j + 1))), n);
            if d[j].0 == n {
                after == (if before is None || spec_le(before.unwrap().0, sp) {
                    Some((sp, d[j].1))
                } else {
                    before
                })
            } else {
                after == before
            }
        }),
{
    let a = pi.push((Some(sp), d.take(j)));
    let b = pi.push((Some(sp), d.take(j + 1)));
    assert(a.drop_last() =~= pi);
    assert(b.drop_last() =~= pi);
    assert(d.take(j + 1).drop_last() =~= d.take(j));
    assert(d.take(j + 1).last() == d[j]);
}

proof fn lemma_best_same(pi: Seq<CascadeItem>, it: CascadeItem, n: Seq<char>)
    requires
        it.0 is None || it.1.len() == 0,
    ensures
        best(pi.push(it), n) == best(pi, n),
{
    assert(pi.push(it).drop_last() =~= pi);
}

/// Where `name` stands in `st`.
fn find_entry(st: &Vec<(Vec<char>, Specificity, String)>, name: &[char]) -> (r: Option<usize>)
    ensures
        r matches Some(k) ==> k < st@.len() && st@[k as int].0@ == name@,
        r is None ==> forall|k: int| 0 <= k < st@.len() ==> st@[k].0@ != name@,
{
    let mut i: usize = 0;
    while i < st.len()
        invariant
            i <= st@.len(),
            forall|k: int| 0 <= k < i ==> st@[k].0@ != name@,
        decreases st@.len() - i,
    {
        if eq_chars(st[i].0.as_slice(), name) {
            return Some(i);
        }
        i += 1;
    }
    None
}

pub open spec fn entry_view(e: (Vec<char>, Specificity, String)) -> (Seq<char>, (int, int, int), Seq<char>) {
    (e.0@, sp_view(e.1), e.2@)
}

/// The table `st` holds exactly the winners of `items`, each name once.
pub open spec fn winners(st: Seq<(Vec<char>, Specificity, String)>, items: Seq<CascadeItem>) -> bool {
    &&& forall|a: int, b: int| 0 <= a < b < st.len() ==> #[trigger] st[a].0@ != #[trigger] st[b].0@
    &&& forall|k: int|
        0 <= k < st.len() ==> best(items, #[trigger] st[k].0@) == Some((sp_view(st[k].1), st[k].2@))
    &&& forall|n: Seq<char>| #[trigger] best(items, n) is Some ==> exists|k: int| 0 <= k < st.len() && st[k].0@ == n
}

proof fn lemma_winners_same(st: Seq<(Vec<char>, Specificity, String)>, a: Seq<CascadeItem>, b: Seq<CascadeItem>)
    requires
        winners(st, a),
        forall|n: Seq<char>| #[trigger] best(b, n) == best(a, n),
    ensures
        winners(st, b),
{
    assert forall|k: int| 0 <= k < st.len() implies best(b, #[trigger] st[k].0@) == Some((sp_view(st[k].1), st[k].2@)) by {
        assert(best(a, st[k].0@) == Some((sp_view(st[k].1), st[k].2@)));
    }
    assert forall|n: Seq<char>| #[trigger] best(b, n) is Some implies exists|k: int| 0 <= k < st.len() && st[k].0@ == n by {
        assert(best(a, n) is Some);
    }
}

/// The declarations of the rules that match `elem`, the winner of each
/// property decided by specificity and then by order.
pub fn specified_values_for(elem: &ElementData, stylesheet: &Stylesheet, ancestors: &[Ancestor]) -> (r: Attributes)
    requires
        sheet_fits(stylesheet@),
    ensures
        r@ == cascade_map(elem_target(*elem), anc_targets(ancestors@), stylesheet@),
{
    let ghost t = elem_target(*elem);
    let ghost ancs = anc_targets(ancestors@);
    let ghost rules = stylesheet@;
    let mut st: Vec<(Vec<char>, Specificity, String)> = Vec::new();
    let mut i: usize = 0;
    while i < stylesheet.rules.len()
        invariant
            i <= stylesheet.rules@.len(),
            rules == stylesheet@,
            rules.len() == stylesheet.rules@.len(),
            sheet_fits(rules),
            t == elem_target(*elem),
            ancs == anc_targets(ancestors@),
            winners(st@, rule_items(t, ancs, rules.take(i as int))),
        decreases stylesheet.rules@.len() - i,
    {
        let rule = &stylesheet.rules[i];
        let ghost rv = rule@;
        let ghost pi = rule_items(t, ancs, rules.take(i as int));
        assert(rules[i as int] == rv);
        assert forall|k: int| 0 <= k < rv.selectors.len() implies spec_fits(#[trigger] rv.selectors[k]) by {
            assert(rules[i as int].selectors[k] == rv.selectors[k]);
        }
        let sp = matching_rule_specificity(elem, rule, ancestors);
        let ghost next = rule_items(t, ancs, rules.take(i + 1));
        assert(next =~= pi.push((rule_spec(t, ancs, rv.selectors), rv.declarations)));
        match sp {
            None => {
                proof {
                    assert forall|n: Seq<char>| #[trigger] best(next, n) == best(pi, n) by {
                        lemma_best_same(pi, (rule_spec(t, ancs, rv.selectors), rv.declarations), n);
                    }
                    lemma_winners_same(st@, pi, next);
                }
            },
            Some(sp) => {
                let ghost spv = sp_view(sp);
                let ghost d = rv.declarations;
                proof {
                    assert forall|n: Seq<char>| #[trigger] best(pi.push((Some(spv), d.take(0))), n) == best(pi, n) by {
                        lemma_best_same(pi, (Some(spv), d.take(0)), n);
                    }
                    lemma_winners_same(st@, pi, pi.push((Some(spv), d.take(0))));
                }
                let mut j: usize = 0;
                while j < rule.declarations.len()
                    invariant
                        j <= rule.declarations@.len(),
                        d == decls_view(rule.declarations@),
                        spv == sp_view(sp),
                        d.len() == rule.declarations@.len(),
                        winners(st@, pi.push((Some(spv), d.take(j as int)))),
                    decreases rule.declarations@.len() - j,
                {
                    let ghost before = pi.push((Some(spv), d.take(j as int)));
                    let ghost after = pi.push((Some(spv), d.take(j + 1)));
                    let ghost old_st = st@;
                    let decl = &rule.declarations[j];
                    assert(d[j as int] == (decl.name@, decl.value@));
                    let name = chars_of(decl.name.as_str());
                    proof {
                        assert forall|n: Seq<char>| n != name@ implies best(after, n) == best(before, n) by {
                            lemma_best_step(pi, spv, d, j as int, n);
                        }
                        lemma_best_step(pi, spv, d, j as int, name@);
                    }
                    match find_entry(&st, name.as_slice()) {
                        Some(k) => {
                            let stored = st[k].1;
                            assert(stored == old_st[k as int].1);
                            let replace = specificity_le(stored, sp);
                            proof {
                                assert(best(before, old_st[k as int].0@) == Some((sp_view(old_st[k as int].1), old_st[k as int].2@)));
                            }
                            if replace {
                                let v = decl.value.clone();
                                assert(v@ == decl.value@);
                                st.set(k, (name, sp, v));
                                assert(st@[k as int].0@ == name@);
                                assert(d[j as int].0 == name@);
                                assert(spec_le(sp_view(old_st[k as int].1), spv));
                                assert(best(after, name@) == Some((spv, d[j as int].1)));
                                assert(best(after, name@) == Some((sp_view(st@[k as int].1), st@[k as int].2@)));
                            } else {
                                assert(st@ == old_st);
                                assert(best(after, name@) == best(before, name@));
                            }
                            proof {
                                assert forall|a: int, b: int| 0 <= a < b < st@.len() implies #[trigger] st@[a].0@
                                    != #[trigger] st@[b].0@ by {
                                    assert(st@[a].0@ == old_st[a].0@);
                                    assert(st@[b].0@ == old_st[b].0@);
                                }
                                assert forall|q: int| 0 <= q < st@.len() implies best(after, #[trigger] st@[q].0@)
                                    == Some((sp_view(st@[q].1), st@[q].2@)) by {
                                    if q != k {
                                        assert(st@[q] == old_st[q]);
                                        assert(old_st[q].0@ != old_st[k as int].0@);
                                        assert(best(after, old_st[q].0@) == best(before, old_st[q].0@));
                                    }
                                }
                                assert forall|n: Seq<char>| #[trigger] best(after, n) is Some implies exists|q: int|
                                    0 <= q < st@.len() && st@[q].0@ == n by {
                                    if n == name@ {
                                        assert(st@[k as int].0@ == n);
                                    } else {
                                        assert(best(before, n) is Some);
                                        let q = choose|q: int| 0 <= q < old_st.len() && old_st[q].0@ == n;
                                        assert(st@[q].0@ == old_st[q].0@);
                                    }
                                }
                            }
                        },
                        None => {
                            proof {
                                if best(before, name@) is Some {
                                    let q = choose|q: int| 0 <= q < old_st.len() && old_st[q].0@ == name@;
                                    assert(false);
                                }
                            }
                            st.push((name, sp, decl.value.clone()));
                            proof {
                                assert forall|a: int, b: int| 0 <= a < b < st@.len() implies #[trigger] st@[a].0@
                                    != #[trigger] st@[b].0@ by {
                                    assert(st@[a] == old_st[a]);
                                    if b < old_st.len() {
                                        assert(st@[b] == old_st[b]);
                                    }
                                }
                                assert forall|q: int| 0 <= q < st@.len() implies best(after, #[trigger] st@[q].0@)
                                    == Some((sp_view(st@[q].1), st@[q].2@)) by {
                                    if q < old_st.len() {
                                        assert(st@[q] == old_st[q]);
                                        assert(old_st[q].0@ != name@);
                                        assert(best(after, old_st[q].0@) == best(before, old_st[q].0@));
                                    } else {
                                        assert(st@[q].0@ == name@);
                                    }
                                }
                                assert forall|n: Seq<char>| #[trigger] best(after, n) is Some implies exists|q: int|
                                    0 <= q < st@.len() && st@[q].0@ == n by {
                                    if n == name@ {
                                        assert(st@[old_st.len() as int].0@ == n);
                                    } else {
                                        assert(best(before, n) is Some);
                                        let q = choose|q: int| 0 <= q < old_st.len() && old_st[q].0@ == n;
                                        assert(st@[q] == old_st[q]);
                                    }
                                }
                            }
                        },
                    }
                    j += 1;
                }
                assert(d.take(j as int) =~= d);
            },
        }
        i += 1;
    }
    assert(rules.take(i as int) =~= rules);
    let ghost items = rule_items(t, ancs, rules);
    let mut out = Attributes::new();
    let mut k: usize = 0;
    let ghost pv = st@.map_values(|e: (Vec<char>, Specificity, String)| (e.0@, e.2@));
    while k < st.len()
        invariant
            k <= st@.len(),
            pv == st@.map_values(|e: (Vec<char>, Specificity, String)| (e.0@, e.2@)),
            out@ == pairs_map(pv.take(k as int)),
        decreases st@.len() - k,
    {
        out.insert(string_of(st[k].0.as_slice()), st[k].2.clone());
        assert(pv.take(k + 1).drop_last() =~= pv.take(k as int));
        assert(pv.take(k + 1).last() == pv[k as int]);
        k += 1;
    }
    proof {
        assert(pv.take(k as int) =~= pv);
        assert forall|a: int, b: int| 0 <= a < b < pv.len() implies #[trigger] pv[a].0 != #[trigger] pv[b].0 by {
            assert(pv[a].0 == st@[a].0@ && pv[b].0 == st@[b].0@);
        }
        assert forall|n: Seq<char>| #[trigger] out@.contains_key(n) == cascade_map(t, ancs, rules).contains_key(n)
            && (out@.contains_key(n) ==> out@[n] == cascade_map(t, ancs, rules)[n]) by {
            if exists|q: int| 0 <= q < st@.len() && st@[q].0@ == n {
                let q = choose|q: int| 0 <= q < st@.len() && st@[q].0@ == n;
                assert(pv[q] == (st@[q].0@, st@[q].2@));
                lemma_pairs_map_unique(pv, q);
                assert(best(items, st@[q].0@) == Some((sp_view(st@[q].1), st@[q].2@)));
            } else {
                assert forall|q: int| 0 <= q < pv.len() implies #[trigger] pv[q].0 != n by {
                    assert(pv[q].0 == st@[q].0@);
                }
                lemma_pairs_map_absent(pv, n);
                if best(items, n) is Some {
                    assert(false);
                }
            }
        }
        assert(out@ =~= cascade_map(t, ancs, rules));
    }
    out
}

/// The declarations of the element's `style` attribute.
pub fn parse_inline_style_attr(elem: &ElementData) -> (r: Vec<Declaration>)
    ensures
        decls_view(r@) == (match map_get(elem.attributes@, "style"@) {
            Some(s) => inline_decls(s),
            None => Seq::<DeclView>::empty(),
        }),
{
    match elem.attributes.get("style") {
        Some(style) => parse_inline_declarations(style.as_str()),
        None => {
            let r: Vec<Declaration> = Vec::new();
            assert(decls_view(r@) =~= Seq::<DeclView>::empty());
            r
        },
    }
}


// ---------------------------------------------------------------------
// The style tree.
// ---------------------------------------------------------------------

/// A node with the values that apply to it.  `metrics` holds what the
/// caller computes from the values (the resolved font sizes).
#[verifier::reject_recursive_types(M)]
pub struct StyledNode<M> {
    pub node: Node,
    pub specified_values: Attributes,
    pub metrics: M,
    pub children: Vec<StyledNode<M>>,
    pub link_href: Option<String>,
    pub link_id: Option<usize>,
    pub form_context: Option<FormContext>,
    pub input_key: Option<String>,
}

impl<M> StyledNode<M> {
    /// The value of a property.
    pub fn value(&self, name: &str) -> (r: Option<&String>)
        ensures
            opt_s(r) == map_get(self.specified_values@, name@),
    {
        self.specified_values.get(name)
    }

    pub fn display(&self) -> (r: Display)
        ensures
            r == display_spec(self.node, map_get(self.specified_values@, "display"@)),
    {
        display_of(&self.node, self.value("display"))
    }

    pub fn position(&self) -> (r: Position)
        ensures
            r == position_spec(map_get(self.specified_values@, "position"@)),
    {
        position_of(self.value("position"))
    }

    pub fn float(&self) -> (r: Float)
        ensures
            r == float_spec(map_get(self.specified_values@, "float"@)),
    {
        float_of(self.value("float"))
    }

    pub fn clear(&self) -> (r: Clear)
        ensures
            r == clear_spec(map_get(self.specified_values@, "clear"@)),
    {
        clear_of(self.value("clear"))
    }

    pub fn z_index(&self) -> (r: ZIndex)
        ensures
            r == z_index_spec(map_get(self.specified_values@, "z-index"@)),
    {
        z_index_of(self.value("z-index"))
    }
}

// ---------------------------------------------------------------------
// Forms.
// ---------------------------------------------------------------------

/// A name and value that a form sends.
#[derive(Debug, Clone, PartialEq, Eq)]
pub struct FormField {
    pub name: String,
    pub value: String,
}

/// The form an element belongs to: where it is sent, how, and the fields
/// it sends.
#[derive(Debug, Clone, PartialEq, Eq)]
pub struct FormContext {
    pub action: Option<String>,
    pub method: String,
    pub fields: Vec<FormField>,
}

/// What activating a submitter sends.
#[derive(Debug, Clone, PartialEq, Eq)]
pub struct FormSubmit {
    pub action: Option<String>,
    pub method: String,
    pub fields: Vec<FormField>,
}

pub type FieldView = (Seq<char>, Seq<char>);

pub open spec fn field_view(f: FormField) -> FieldView {
    (f.name@, f.value@)
}

pub open spec fn fields_view(f: Seq<FormField>) -> Seq<FieldView> {
    f.map_values(|x: FormField| field_view(x))
}

/// A form's action, method and fields as plain text.
pub struct FormView {
    pub action: Option<Seq<char>>,
    pub method: Seq<char>,
    pub fields: Seq<FieldView>,
}

pub open spec fn context_view(c: FormContext) -> FormView {
    FormView { action: opt_view(c.action), method: c.method@, fields: fields_view(c.fields@) }
}

pub open spec fn submit_view(c: FormSubmit) -> FormView {
    FormView { action: opt_view(c.action), method: c.method@, fields: fields_view(c.fields@) }
}

/// A trimmed, lower-cased attribute, or `default` when it is absent or
/// blank.
pub open spec fn keyword_attr(attrs: Map<Seq<char>, Seq<char>>, name: Seq<char>, default: Seq<char>) -> Seq<char> {
    match map_get(attrs, name) {
        Some(v) => if lower(trim(v)).len() > 0 {
            lower(trim(v))
        } else {
            default
        },
        None => default,
    }
}

/// The `type` of an input, `text` by default.
pub open spec fn input_type_spec(attrs: Map<Seq<char>, Seq<char>>) -> Seq<char> {
    keyword_attr(attrs, "type"@, "text"@)
}

/// A trimmed, non-blank attribute value.
pub open spec fn nonblank_attr(attrs: Map<Seq<char>, Seq<char>>, name: Seq<char>) -> Option<Seq<char>> {
    match map_get(attrs, name) {
        Some(v) => if trim(v).len() > 0 {
            Some(trim(v))
        } else {
            None
        },
        None => None,
    }
}

/// The `value` attribute, or `default`.
pub open spec fn value_or(attrs: Map<Seq<char>, Seq<char>>, default: Seq<char>) -> Seq<char> {
    match map_get(attrs, "value"@) {
        Some(v) => v,
        None => default,
    }
}

fn keyword_attribute(element: &ElementData, name: &str, default: &str) -> (r: String)
    ensures
        r@ == keyword_attr(element.attributes@, name@, default@),
{
    match element.attributes.get(name) {
        Some(v) => {
            let t = to_ascii_lower(trim_chars(chars_of(v.as_str()).as_slice()).as_slice());
            proof {
                crate::text::lemma_lower_len(trim(v@));
            }
            if t.len() > 0 {
                string_of(t.as_slice())
            } else {
                String::from_str(default)
            }
        },
        None => String::from_str(default),
    }
}

fn nonblank_attribute(element: &ElementData, name: &str) -> (r: Option<String>)
    ensures
        opt_view(r) == nonblank_attr(element.attributes@, name@),
{
    match element.attributes.get(name) {
        Some(v) => {
            let t = trim_chars(chars_of(v.as_str()).as_slice());
            if t.len() > 0 {
                Some(string_of(t.as_slice()))
            } else {
                None
            }
        },
        None => None,
    }
}

fn value_or_default(element: &ElementData, default: String) -> (r: String)
    ensures
        r@ == value_or(element.attributes@, default@),
{
    match element.attributes.get("value") {
        Some(v) => v.clone(),
        None => default,
    }
}

pub fn input_type(element: &ElementData) -> (r: String)
    ensures
        r@ == input_type_spec(element.attributes@),
{
    keyword_attribute(element, "type", "text")
}

pub open spec fn editable_type(t: Seq<char>) -> bool {
    t == "text"@ || t == "search"@ || t == "password"@ || t == "email"@ || t == "url"@ || t == "tel"@
}

/// A text-like input the user can type into.
pub open spec fn editable_input(tag: Seq<char>, attrs: Map<Seq<char>, Seq<char>>) -> bool {
    tag == "input"@ && editable_type(input_type_spec(attrs))
}

pub fn is_editable_input(element: &ElementData) -> (r: bool)
    ensures
        r == editable_input(element.tag_name@, element.attributes@),
{
    if !eq_lit(chars_of(element.tag_name.as_str()).as_slice(), "input") {
        return false;
    }
    let t = chars_of(input_type(element).as_str());
    let t = t.as_slice();
    eq_lit(t, "text") || eq_lit(t, "search") || eq_lit(t, "password") || eq_lit(t, "email")
        || eq_lit(t, "url") || eq_lit(t, "tel")
}

/// The value a submit or reset input sends when it has none.
pub open spec fn button_default(t: Seq<char>) -> Seq<char> {
    if t == "submit"@ {
        "Submit"@
    } else if t == "reset"@ {
        "Reset"@
    } else {
        Seq::empty()
    }
}

pub fn input_button_default_value(input_type: &str) -> (r: String)
    ensures
        r@ == button_default(input_type@),
{
    let t = chars_of(input_type);
    if eq_lit(t.as_slice(), "submit") {
        String::from_str("Submit")
    } else if eq_lit(t.as_slice(), "reset") {
        String::from_str("Reset")
    } else {
        String::new()
    }
}

/// The field a named submitter adds.
pub open spec fn submitter_spec(attrs: Map<Seq<char>, Seq<char>>, default: Seq<char>) -> Option<FieldView> {
    match nonblank_attr(attrs, "name"@) {
        Some(n) => Some((n, value_or(attrs, default))),
        None => None,
    }
}

pub fn submitter_field(element: &ElementData, default_value: String) -> (r: Option<FormField>)
    ensures
        match r {
            Some(f) => submitter_spec(element.attributes@, default_value@) == Some(field_view(f)),
            None => submitter_spec(element.attributes@, default_value@) is None,
        },
{
    let name = match nonblank_attribute(element, "name") {
        Some(n) => n,
        None => {
            return None;
        },
    };
    let value = value_or_default(element, default_value);
    Some(FormField { name, value })
}

pub open spec fn never_sent(t: Seq<char>) -> bool {
    t == "button"@ || t == "submit"@ || t == "reset"@ || t == "image"@ || t == "file"@
}

/// The field an element contributes to its form: named inputs that are
/// not buttons or files, and checkboxes and radios only when checked.
pub open spec fn successful_spec(d: DomView) -> Option<FieldView> {
    match d {
        DomView::Element(tag, attrs, _) => {
            let t = input_type_spec(attrs);
            if tag != "input"@ || nonblank_attr(attrs, "name"@) is None || never_sent(t) {
                None
            } else if (t == "checkbox"@ || t == "radio"@) && !attrs.contains_key("checked"@) {
                None
            } else {
                Some((nonblank_attr(attrs, "name"@)->0, value_or(attrs, Seq::empty())))
            }
        },
        DomView::Text(_) => None,
    }
}

pub fn successful_form_field(node: &Node) -> (r: Option<FormField>)
    ensures
        match r {
            Some(f) => successful_spec(node.dv()) == Some(field_view(f)),
            None => successful_spec(node.dv()) is None,
        },
{
    let element = match &node.node_type {
        NodeType::Element(e) => e,
        NodeType::Text(_) => {
            return None;
        },
    };
    if !eq_lit(chars_of(element.tag_name.as_str()).as_slice(), "input") {
        return None;
    }
    let name = match nonblank_attribute(element, "name") {
        Some(n) => n,
        None => {
            return None;
        },
    };
    let t = chars_of(input_type(element).as_str());
    let t = t.as_slice();
    if eq_lit(t, "button") || eq_lit(t, "submit") || eq_lit(t, "reset") || eq_lit(t, "image")
        || eq_lit(t, "file") {
        return None;
    }
    if (eq_lit(t, "checkbox") || eq_lit(t, "radio")) && !element.attributes.contains_key("checked") {
        return None;
    }
    Some(FormField { name, value: value_or_default(element, String::new()) })
}

/// The action and method of a `form` element, with no fields yet.
pub open spec fn form_base_spec(d: DomView) -> FormView {
    match d {
        DomView::Element(_, attrs, _) => FormView {
            action: nonblank_attr(attrs, "action"@),
            method: keyword_attr(attrs, "method"@, "get"@),
            fields: Seq::empty(),
        },
        DomView::Text(_) => FormView { action: None, method: "get"@, fields: Seq::empty() },
    }
}

pub fn form_context_from_node(node: &Node) -> (r: FormContext)
    ensures
        context_view(r) == form_base_spec(node.dv()),
{
    let r = match &node.node_type {
        NodeType::Element(element) => FormContext {
            action: nonblank_attribute(element, "action"),
            method: keyword_attribute(element, "method", "get"),
            fields: Vec::new(),
        },
        NodeType::Text(_) => FormContext { action: None, method: String::from_str("get"), fields: Vec::new() },
    };
    assert(fields_view(r.fields@) =~= Seq::<FieldView>::empty());
    r
}

/// A copy of a list of fields.
pub fn copy_fields(f: &Vec<FormField>) -> (r: Vec<FormField>)
    ensures
        fields_view(r@) == fields_view(f@),
{
    let mut r: Vec<FormField> = Vec::new();
    let mut i: usize = 0;
    while i < f.len()
        invariant
            i <= f@.len(),
            fields_view(r@) == fields_view(f@).take(i as int),
        decreases f@.len() - i,
    {
        let nf = FormField { name: f[i].name.clone(), value: f[i].value.clone() };
        assert(field_view(nf) == field_view(f@[i as int]));
        let ghost prev = r@;
        r.push(nf);
        assert(r@ == prev.push(nf));
        assert(fields_view(prev.push(nf)) =~= fields_view(prev).push(field_view(nf)));
        assert(fields_view(f@)[i as int] == field_view(f@[i as int]));
        assert(fields_view(f@).take(i + 1) =~= fields_view(f@).take(i as int).push(fields_view(f@)[i as int]));
        i += 1;
    }
    assert(fields_view(f@).take(i as int) =~= fields_view(f@));
    r
}

fn copy_opt(s: &Option<String>) -> (r: Option<String>)
    ensures
        opt_view(r) == opt_view(*s),
{
    match s {
        Some(v) => Some(v.clone()),
        None => None,
    }
}

/// What activating `n` sends, given the form context it is in: a
/// `submit` or `image` input adds its own field when named (a submit
/// input's value defaulting to `Submit`), a `button` of type `submit`
/// (the default) adds its own; anything else submits nothing.
pub open spec fn submit_spec(n: Node, ctx: Option<FormView>) -> Option<FormView> {
    match (n.node_type, ctx) {
        (NodeType::Element(e), Some(c)) => {
            let attrs = e.attributes@;
            if e.tag_name@ == "input"@ {
                let t = input_type_spec(attrs);
                if t != "submit"@ && t != "image"@ {
                    None
                } else {
                    Some(FormView {
                        action: c.action,
                        method: c.method,
                        fields: match submitter_spec(attrs, button_default(t)) {
                            Some(f) => c.fields.push(f),
                            None => c.fields,
                        },
                    })
                }
            } else if e.tag_name@ == "button"@ {
                if keyword_attr(attrs, "type"@, "submit"@) != "submit"@ {
                    None
                } else {
                    Some(FormView {
                        action: c.action,
                        method: c.method,
                        fields: match submitter_spec(attrs, Seq::empty()) {
                            Some(f) => c.fields.push(f),
                            None => c.fields,
                        },
                    })
                }
            } else {
                None
            }
        },
        _ => None,
    }
}

pub open spec fn opt_context(c: Option<FormContext>) -> Option<FormView> {
    match c {
        Some(x) => Some(context_view(x)),
        None => None,
    }
}

pub open spec fn opt_submit(c: Option<FormSubmit>) -> Option<FormView> {
    match c {
        Some(x) => Some(submit_view(x)),
        None => None,
    }
}

pub fn form_submit_for_element<M>(node: &StyledNode<M>) -> (r: Option<FormSubmit>)
    ensures
        opt_submit(r) == submit_spec(node.node, opt_context(node.form_context)),
{
    let element = match &node.node.node_type {
        NodeType::Element(e) => e,
        NodeType::Text(_) => {
            return None;
        },
    };
    let context = match &node.form_context {
        Some(c) => c,
        None => {
            return None;
        },
    };
    let mut fields = copy_fields(&context.fields);
    let ghost base = fields_view(fields@);
    let tag = chars_of(element.tag_name.as_str());
    if eq_lit(tag.as_slice(), "input") {
        let ty = input_type(element);
        let t = chars_of(ty.as_str());
        if !eq_lit(t.as_slice(), "submit") && !eq_lit(t.as_slice(), "image") {
            return None;
        }
        match submitter_field(element, input_button_default_value(ty.as_str())) {
            Some(field) => {
                fields.push(field);
                assert(fields_view(fields@) =~= base.push(field_view(field)));
            },
            None => {},
        }
    } else if eq_lit(tag.as_slice(), "button") {
        let bt = keyword_attribute(element, "type", "submit");
        if !eq_lit(chars_of(bt.as_str()).as_slice(), "submit") {
            return None;
        }
        match submitter_field(element, String::new()) {
            Some(field) => {
                fields.push(field);
                assert(fields_view(fields@) =~= base.push(field_view(field)));
            },
            None => {},
        }
    } else {
        return None;
    }
    Some(FormSubmit { action: copy_opt(&context.action), method: context.method.clone(), fields })
}

/// Pressing Enter in an editable input submits its form as it stands.
pub open spec fn implicit_submit_spec(n: Node, ctx: Option<FormView>) -> Option<FormView> {
    match (n.node_type, ctx) {
        (NodeType::Element(e), Some(c)) => if editable_input(e.tag_name@, e.attributes@) {
            Some(c)
        } else {
            None
        },
        _ => None,
    }
}

pub fn implicit_form_submit_for_input<M>(node: &StyledNode<M>) -> (r: Option<FormSubmit>)
    ensures
        opt_submit(r) == implicit_submit_spec(node.node, opt_context(node.form_context)),
{
    let element = match &node.node.node_type {
        NodeType::Element(e) => e,
        NodeType::Text(_) => {
            return None;
        },
    };
    if !is_editable_input(element) {
        return None;
    }
    match &node.form_context {
        Some(context) => Some(
            FormSubmit {
                action: copy_opt(&context.action),
                method: context.method.clone(),
                fields: copy_fields(&context.fields),
            },
        ),
        None => None,
    }
}


/// The target of an element given by its tag and attributes.
pub open spec fn dv_target(tag: Seq<char>, attrs: Map<Seq<char>, Seq<char>>) -> Target {
    Target { tag, id: map_get(attrs, "id"@), classes: class_list(attrs), attrs }
}

/// Declarations applied in order, a later one replacing an earlier one.
pub open spec fn apply_decls(m: Map<Seq<char>, Seq<char>>, d: Seq<DeclView>) -> Map<Seq<char>, Seq<char>>
    decreases d.len(),
{
    if d.len() == 0 {
        m
    } else {
        apply_decls(m, d.drop_last()).insert(d.last().0, d.last().1)
    }
}

/// The declarations of a `style` attribute.
pub open spec fn inline_of(attrs: Map<Seq<char>, Seq<char>>) -> Seq<DeclView> {
    match map_get(attrs, "style"@) {
        Some(s) => inline_decls(s),
        None => Seq::empty(),
    }
}

/// The values an element sets itself: the cascade, then its `style`
/// attribute.
pub open spec fn own_spec(d: DomView, ancs: Seq<Target>, rules: Seq<RuleView>) -> Map<Seq<char>, Seq<char>> {
    match d {
        DomView::Element(tag, attrs, _) => apply_decls(
            cascade_map(dv_target(tag, attrs), ancs, rules),
            inline_of(attrs),
        ),
        DomView::Text(_) => Map::empty(),
    }
}

/// The values of an element: the stylesheet's, then those of its `style`
/// attribute.
pub fn own_values(elem: &ElementData, stylesheet: &Stylesheet, ancestors: &[Ancestor]) -> (r: Attributes)
    requires
        sheet_fits(stylesheet@),
    ensures
        r@ == own_spec(DomView::Element(elem.tag_name@, elem.attributes@, Seq::empty()), anc_targets(ancestors@), stylesheet@),
{
    let mut own = specified_values_for(elem, stylesheet, ancestors);
    let inline = parse_inline_style_attr(elem);
    let ghost d = decls_view(inline@);
    let ghost base = own@;
    let mut i: usize = 0;
    while i < inline.len()
        invariant
            i <= inline@.len(),
            d == decls_view(inline@),
            own@ == apply_decls(base, d.take(i as int)),
        decreases inline@.len() - i,
    {
        own.insert(inline[i].name.clone(), inline[i].value.clone());
        assert(d.take(i + 1).drop_last() =~= d.take(i as int));
        assert(d.take(i + 1).last() == d[i as int]);
        i += 1;
    }
    assert(d.take(i as int) =~= d);
    own
}

/// A link target that navigation can follow: not empty, not a fragment,
/// not `javascript:` or `data:`.
pub open spec fn usable_href(h: Seq<char>) -> bool {
    h.len() > 0 && h[0] != '#' && !crate::text::starts(unicode_lower(h), "javascript:"@)
        && !crate::text::starts(unicode_lower(h), "data:"@)
}

pub fn is_usable_href(h: &[char]) -> (r: bool)
    ensures
        r == usable_href(h@),
{
    if h.len() == 0 || h[0] == '#' {
        return false;
    }
    let l = chars_of(to_lowercase(string_of(h).as_str()).as_str());
    !crate::text::starts_lit(l.as_slice(), "javascript:") && !crate::text::starts_lit(l.as_slice(), "data:")
}

/// The trimmed target of an `a` element with a usable `href`.
pub open spec fn anchor_href(d: DomView) -> Option<Seq<char>> {
    match d {
        DomView::Element(tag, attrs, _) => if tag == "a"@ && attrs.contains_key("href"@) && usable_href(
            trim(attrs["href"@]),
        ) {
            Some(trim(attrs["href"@]))
        } else {
            None
        },
        DomView::Text(_) => None,
    }
}

/// The number of links in a subtree.
pub open spec fn count_links(d: DomView) -> nat
    decreases d,
{
    (if anchor_href(d) is Some {
        1nat
    } else {
        0nat
    }) + match d {
        DomView::Element(_, _, kids) => links_seq(kids),
        DomView::Text(_) => 0nat,
    }
}

/// The number of links in a list of subtrees.
pub open spec fn links_seq(s: Seq<DomView>) -> nat
    decreases s,
{
    if s.len() == 0 {
        0
    } else {
        links_seq(s.drop_last()) + count_links(s.last())
    }
}

pub proof fn lemma_links_take(s: Seq<DomView>, k: int)
    requires
        0 <= k <= s.len(),
    ensures
        links_seq(s.take(k)) <= links_seq(s),
        k < s.len() ==> links_seq(s.take(k + 1)) == links_seq(s.take(k)) + count_links(s[k]),
    decreases s.len() - k,
{
    if k < s.len() {
        assert(s.take(k + 1).drop_last() =~= s.take(k));
        assert(s.take(k + 1).last() == s[k]);
        lemma_links_take(s, k + 1);
    } else {
        assert(s.take(k) =~= s);
    }
}

/// The children of a node model.
pub open spec fn kids_of(d: DomView) -> Seq<DomView> {
    match d {
        DomView::Element(_, _, kids) => kids,
        DomView::Text(_) => Seq::empty(),
    }
}

/// The ancestors of the children of `d`.
pub open spec fn ancs_below(d: DomView, ancs: Seq<Target>) -> Seq<Target> {
    match d {
        DomView::Element(tag, attrs, _) => ancs.push(dv_target(tag, attrs)),
        DomView::Text(_) => ancs,
    }
}

/// What children inherit: the inheritable values, the resolved
/// `font-size`, and the resolved `line-height` when there is one.
pub open spec fn child_inherit(values: Map<Seq<char>, Seq<char>>, fs: Seq<char>, lh: Option<Seq<char>>) -> Map<Seq<char>, Seq<char>> {
    let base = values.restrict(values.dom().filter(|k: Seq<char>| inheritable(k))).insert("font-size"@, fs);
    match lh {
        Some(l) => base.insert("line-height"@, l),
        None => base,
    }
}

pub open spec fn opt_nat(o: Option<usize>) -> Option<int> {
    match o {
        Some(v) => Some(v as int),
        None => None,
    }
}

/// `sn` styles the node `d` under ancestors `ancs` with inherited values
/// `inherited`, inside the link `link` numbered `link_id`, the next link
/// taking number `next`: its values are the inherited ones overridden by
/// its own; an `a` with a usable `href` opens a new link with the next
/// number, numbered in document order; its children inherit the
/// inheritable values with the `font-size` and `line-height` the font
/// sizing gave.
pub open spec fn style_ok<M>(
    sn: StyledNode<M>,
    d: DomView,
    rules: Seq<RuleView>,
    ancs: Seq<Target>,
    inherited: Map<Seq<char>, Seq<char>>,
    link: Option<Seq<char>>,
    link_id: Option<int>,
    next: int,
) -> bool
    decreases d,
{
    let values = inherited.union_prefer_right(own_spec(d, ancs, rules));
    let here = anchor_href(d);
    let link2 = if here is Some {
        here
    } else {
        link
    };
    let id2 = if here is Some {
        Some(next)
    } else {
        link_id
    };
    let next2 = if here is Some {
        next + 1
    } else {
        next
    };
    let kids = kids_of(d);
    &&& sn.node.dv() == d
    &&& sn.specified_values@ == values
    &&& opt_view(sn.link_href) == link2
    &&& opt_nat(sn.link_id) == id2
    &&& sn.form_context is None
    &&& sn.input_key is None
    &&& sn.children@.len() == kids.len()
    &&& exists|fs: Seq<char>, lh: Option<Seq<char>>|
        #![trigger child_inherit(values, fs, lh)]
        forall|k: int|
            0 <= k < kids.len() ==> style_ok(
                #[trigger] sn.children@[k],
                kids[k],
                rules,
                ancs_below(d, ancs),
                child_inherit(values, fs, lh),
                link2,
                id2,
                next2 + links_seq(kids.take(k)),
            )
}

/// How font sizes are resolved: from the parent's metrics, the element's
/// own `font-size` and its `line-height` (and whether it is the root),
/// the element's metrics and the `font-size` and `line-height` values
/// its children inherit (`None`: the `line-height` is inherited as it
/// is).
pub trait FontSizer {
    type Metrics: Copy;

    /// The metrics above the root.
    fn initial(&self) -> Self::Metrics;

    fn size(
        &self,
        parent: Self::Metrics,
        font_size: Option<&String>,
        line_height: Option<&String>,
        is_root: bool,
    ) -> (Self::Metrics, String, Option<String>);
}

/// The values children inherit.
pub fn inherited_values_for_children(values: &Attributes, font_size: String, line_height: Option<String>) -> (r: Attributes)
    ensures
        r@ == child_inherit(values@, font_size@, opt_view(line_height)),
{
    let mut out = inherit_only(values);
    out.insert(String::from_str("font-size"), font_size);
    match line_height {
        Some(l) => {
            out.insert(String::from_str("line-height"), l);
        },
        None => {},
    }
    out
}

/// `values` with `own` laid over it.
fn overlay(values: &mut Attributes, own: &Attributes)
    ensures
        final(values)@ == old(values)@.union_prefer_right(own@),
{
    let entries = own.entries();
    let ghost ps = own.pairs();
    let ghost base = values@;
    let mut i: usize = 0;
    while i < entries.len()
        invariant
            i <= entries@.len(),
            entries@.map_values(|e: (String, String)| pair_view(e)) == ps,
            pairs_map(ps) == own@,
            values@ == base.union_prefer_right(pairs_map(ps.take(i as int))),
        decreases entries@.len() - i,
    {
        let (k, v) = &entries[i];
        assert(ps.take(i + 1).drop_last() =~= ps.take(i as int));
        assert(ps[i as int] == pair_view(entries@[i as int]));
        assert(ps.take(i + 1).last() == (k@, v@));
        values.insert(k.clone(), v.clone());
        assert(values@ =~= base.union_prefer_right(pairs_map(ps.take(i + 1))));
        i += 1;
    }
    assert(ps.take(i as int) =~= ps);
}

impl Ancestor {
    pub fn copy(&self) -> (r: Ancestor)
        ensures
            r.target() == self.target(),
    {
        let id = match &self.id {
            Some(s) => Some(s.clone()),
            None => None,
        };
        let mut classes: Vec<String> = Vec::new();
        let mut i: usize = 0;
        while i < self.classes.len()
            invariant
                i <= self.classes@.len(),
                classes@.len() == i,
                forall|j: int| 0 <= j < i ==> (#[trigger] classes@[j])@ == self.classes@[j]@,
            decreases self.classes@.len() - i,
        {
            classes.push(self.classes[i].clone());
            i += 1;
        }
        assert(crate::selector::strs_view(classes@) =~= crate::selector::strs_view(self.classes@));
        Ancestor { tag: self.tag.clone(), id, classes, attributes: self.attributes.copy() }
    }
}

fn style_tree_with_ctx<S: FontSizer>(
    root: &Node,
    stylesheet: &Stylesheet,
    sizer: &S,
    inherited_link: Option<String>,
    inherited_link_id: Option<usize>,
    ancestors: &mut Vec<Ancestor>,
    inherited_values: &Attributes,
    parent: S::Metrics,
    next_link_id: &mut usize,
) -> (r: StyledNode<S::Metrics>)
    requires
        root.wf(),
        sheet_fits(stylesheet@),
        *old(next_link_id) + count_links(root.dv()) <= usize::MAX,
    ensures
        style_ok(
            r,
            root.dv(),
            stylesheet@,
            anc_targets(old(ancestors)@),
            inherited_values@,
            opt_view(inherited_link),
            opt_nat(inherited_link_id),
            *old(next_link_id) as int,
        ),
        *final(next_link_id) == *old(next_link_id) + count_links(root.dv()),
        anc_targets(final(ancestors)@) == anc_targets(old(ancestors)@),
    decreases root,
{
    let ghost d = root.dv();
    let ghost ancs = anc_targets(ancestors@);
    let ghost start = *next_link_id as int;
    let mut specified = inherited_values.copy();
    let own = match &root.node_type {
        NodeType::Element(e) => own_values(e, stylesheet, ancestors.as_slice()),
        NodeType::Text(_) => Attributes::new(),
    };
    proof {
        if root.node_type is Element {
            let e = root.node_type->Element_0;
            assert(own_spec(d, ancs, stylesheet@) == own_spec(DomView::Element(e.tag_name@, e.attributes@, Seq::empty()), ancs, stylesheet@));
        } else {
            assert(own@ =~= own_spec(d, ancs, stylesheet@));
        }
    }
    overlay(&mut specified, &own);
    let (metrics, font_size, line_height) = sizer.size(
        parent,
        own.get("font-size"),
        specified.get("line-height"),
        ancestors.len() == 0,
    );
    let mut link_here = inherited_link;
    let mut link_id_here = inherited_link_id;
    let ghost here = anchor_href(d);
    match &root.node_type {
        NodeType::Element(e) => {
            if eq_lit(chars_of(e.tag_name.as_str()).as_slice(), "a") {
                match &e.href {
                    Some(href) => {
                        let h = trim_chars(chars_of(href.as_str()).as_slice());
                        if is_usable_href(h.as_slice()) {
                            link_here = Some(string_of(h.as_slice()));
                            link_id_here = Some(*next_link_id);
                            *next_link_id = *next_link_id + 1;
                        }
                    },
                    None => {},
                }
            }
        },
        NodeType::Text(_) => {},
    }
    let ghost link2 = opt_view(link_here);
    let ghost id2 = opt_nat(link_id_here);
    let ghost next2 = *next_link_id as int;
    assert(link2 == (if here is Some { here } else { opt_view(inherited_link) }));
    let pushed = match &root.node_type {
        NodeType::Element(e) => {
            ancestors.push(crate::selector::ancestor_of(e));
            true
        },
        NodeType::Text(_) => false,
    };
    assert(anc_targets(ancestors@) =~= ancs_below(d, ancs));
    let ghost below = anc_targets(ancestors@);
    let ghost values = specified@;
    let ghost fs = font_size@;
    let ghost lh = opt_view(line_height);
    let next_inherited = inherited_values_for_children(&specified, font_size, line_height);
    let ghost kids = kids_of(d);
    assert(kids == dvs(root.children@));
    let mut children: Vec<StyledNode<S::Metrics>> = Vec::new();
    let mut k: usize = 0;
    proof {
        lemma_links_take(kids, 0);
        assert(kids.take(0) =~= Seq::<DomView>::empty());
    }
    while k < root.children.len()
        invariant
            k <= root.children@.len(),
            kids == dvs(root.children@),
            kids.len() == root.children@.len(),
            root.wf(),
            sheet_fits(stylesheet@),
            anc_targets(ancestors@) == below,
            below == ancs_below(d, ancs),
            d == root.dv(),
            pushed == (root.node_type is Element),
            next_inherited@ == child_inherit(values, fs, lh),
            opt_view(link_here) == link2,
            opt_nat(link_id_here) == id2,
            *next_link_id == next2 + links_seq(kids.take(k as int)),
            next2 + links_seq(kids) <= usize::MAX,
            children@.len() == k,
            forall|j: int|
                0 <= j < k ==> style_ok(
                    #[trigger] children@[j],
                    kids[j],
                    stylesheet@,
                    below,
                    child_inherit(values, fs, lh),
                    link2,
                    id2,
                    next2 + links_seq(kids.take(j)),
                ),
        decreases root.children@.len() - k,
    {
        proof {
            lemma_links_take(kids, k as int);
            lemma_links_take(kids, k + 1);
            assert(kids[k as int] == root.children@[k as int].dv());
            assert(root.children@[k as int].wf());
        }
        let ghost before = *next_link_id as int;
        let lh2 = match &link_here {
            Some(l) => Some(l.clone()),
            None => None,
        };
        let c = style_tree_with_ctx(
            &root.children[k],
            stylesheet,
            sizer,
            lh2,
            link_id_here,
            ancestors,
            &next_inherited,
            metrics,
            next_link_id,
        );
        children.push(c);
        k += 1;
    }
    proof {
        assert(kids.take(k as int) =~= kids);
    }
    let ghost before_pop = ancestors@;
    if pushed {
        ancestors.pop();
        assert(ancestors@ == before_pop.drop_last());
        assert(anc_targets(before_pop.drop_last()) =~= anc_targets(before_pop).drop_last());
    }
    assert(anc_targets(ancestors@) =~= ancs);
    let node = root.copy();
    let r = StyledNode {
        node,
        specified_values: specified,
        metrics,
        children,
        link_href: link_here,
        link_id: link_id_here,
        form_context: None,
        input_key: None,
    };
    assert(forall|j: int|
        0 <= j < kids.len() ==> style_ok(
            #[trigger] r.children@[j],
            kids[j],
            stylesheet@,
            ancs_below(d, ancs),
            child_inherit(values, fs, lh),
            link2,
            id2,
            next2 + links_seq(kids.take(j)),
        ));
    r
}


/// An element with the given tag.
pub open spec fn is_tag(d: DomView, t: Seq<char>) -> bool {
    d matches DomView::Element(tag, _, _) && tag == t
}

/// The fields of a styled subtree, in document order.
pub open spec fn sn_fields<M>(sn: StyledNode<M>) -> Seq<FieldView>
    decreases sn,
{
    (match successful_spec(sn.node.dv()) {
        Some(f) => seq![f],
        None => Seq::empty(),
    }) + sn_fields_seq(sn.children@)
}

pub open spec fn sn_fields_seq<M>(s: Seq<StyledNode<M>>) -> Seq<FieldView>
    decreases s,
{
    if s.len() == 0 {
        Seq::empty()
    } else {
        sn_fields_seq(s.drop_last()) + sn_fields(s.last())
    }
}

/// The context a `form` element gives its subtree.
pub open spec fn full_form<M>(sn: StyledNode<M>) -> FormView {
    let b = form_base_spec(sn.node.dv());
    FormView { action: b.action, method: b.method, fields: sn_fields(sn) }
}

/// `after` is `before` with each node's form context set to that of the
/// nearest enclosing `form` (the node itself included), or `ctx` where
/// there is none.
pub open spec fn forms_ok<M>(after: StyledNode<M>, before: StyledNode<M>, ctx: Option<FormView>) -> bool
    decreases before,
{
    let ctx2 = if is_tag(before.node.dv(), "form"@) {
        Some(full_form(before))
    } else {
        ctx
    };
    &&& after.node == before.node
    &&& after.specified_values == before.specified_values
    &&& after.metrics == before.metrics
    &&& after.link_href == before.link_href
    &&& after.link_id == before.link_id
    &&& after.input_key == before.input_key
    &&& opt_context(after.form_context) == ctx2
    &&& after.children@.len() == before.children@.len()
    &&& forall|k: int|
        0 <= k < before.children@.len() ==> forms_ok(
            #[trigger] after.children@[k],
            before.children@[k],
            ctx2,
        )
}

fn collect_form_fields_into<M>(node: &StyledNode<M>, fields: &mut Vec<FormField>)
    ensures
        fields_view(final(fields)@) == fields_view(old(fields)@) + sn_fields(*node),
    decreases node,
{
    let ghost start = fields_view(fields@);
    match successful_form_field(&node.node) {
        Some(field) => {
            fields.push(field);
            assert(fields_view(fields@) =~= start.push(field_view(field)));
            assert(start.push(field_view(field)) =~= start + seq![field_view(field)]);
        },
        None => {
            assert(start + Seq::<FieldView>::empty() =~= start);
        },
    }
    let ghost mid = fields_view(fields@);
    let mut i: usize = 0;
    while i < node.children.len()
        invariant
            i <= node.children@.len(),
            fields_view(fields@) == mid + sn_fields_seq(node.children@.take(i as int)),
        decreases node.children@.len() - i,
    {
        collect_form_fields_into(&node.children[i], fields);
        assert(node.children@.take(i + 1).drop_last() =~= node.children@.take(i as int));
        assert(node.children@.take(i + 1).last() == node.children@[i as int]);
        i += 1;
    }
    assert(node.children@.take(i as int) =~= node.children@);
    assert(fields_view(fields@) =~= start + sn_fields(*node));
}

/// The fields a subtree sends.
pub fn collect_form_fields<M>(node: &StyledNode<M>) -> (r: Vec<FormField>)
    ensures
        fields_view(r@) == sn_fields(*node),
{
    let mut fields: Vec<FormField> = Vec::new();
    collect_form_fields_into(node, &mut fields);
    assert(fields_view(Seq::<FormField>::empty()) + sn_fields(*node) =~= sn_fields(*node));
    fields
}

pub fn copy_context(c: &Option<FormContext>) -> (r: Option<FormContext>)
    ensures
        opt_context(r) == opt_context(*c),
{
    match c {
        Some(x) => Some(FormContext { action: copy_opt(&x.action), method: x.method.clone(), fields: copy_fields(&x.fields) }),
        None => None,
    }
}

/// Sets the form context of every node of the subtree.
pub fn annotate_form_contexts<M>(node: &mut StyledNode<M>, active_form: Option<FormContext>)
    ensures
        forms_ok(*final(node), *old(node), opt_context(active_form)),
    decreases *old(node),
{
    let is_form = match &node.node.node_type {
        NodeType::Element(e) => eq_lit(chars_of(e.tag_name.as_str()).as_slice(), "form"),
        NodeType::Text(_) => false,
    };
    let ctx = if is_form {
        let mut c = form_context_from_node(&node.node);
        c.fields = collect_form_fields(node);
        Some(c)
    } else {
        active_form
    };
    let ghost ctx2 = opt_context(ctx);
    assert(ctx2 == (if is_tag(old(node).node.dv(), "form"@) {
        Some(full_form(*old(node)))
    } else {
        opt_context(active_form)
    }));
    node.form_context = copy_context(&ctx);
    let mut kids: Vec<StyledNode<M>> = Vec::new();
    std::mem::swap(&mut kids, &mut node.children);
    let ghost orig = kids@;
    let n_kids = kids.len();
    assert(orig.len() == n_kids);
    assert(orig == old(node).children@);
    let mut out: Vec<StyledNode<M>> = Vec::new();
    let mut j: usize = 0;
    while kids.len() > 0
        invariant
            j + kids@.len() == orig.len(),
            orig.len() <= usize::MAX,
            kids@ == orig.skip(j as int),
            out@.len() == j,
            orig == old(node).children@,
            opt_context(ctx) == ctx2,
            forall|q: int| 0 <= q < j ==> forms_ok(#[trigger] out@[q], orig[q], ctx2),
        decreases kids@.len(),
    {
        let mut c = kids.remove(0);
        assert(c == orig[j as int]);
        proof {
            assert(decreases_to!(*old(node) => old(node).children));
            assert(decreases_to!(old(node).children => old(node).children@));
            assert(decreases_to!(old(node).children@ => old(node).children@[j as int]));
        }
        annotate_form_contexts(&mut c, copy_context(&ctx));
        out.push(c);
        assert(kids@ =~= orig.skip(j + 1));
        j += 1;
    }
    node.children = out;
}

/// An input the user can type into.
pub open spec fn editable_dv(d: DomView) -> bool {
    d matches DomView::Element(tag, attrs, _) && editable_input(tag, attrs)
}

/// `after` is `before` with each editable input keyed `input:` and its
/// path of child indices from the root, `path` being this node's.
pub open spec fn keys_ok<M>(after: StyledNode<M>, before: StyledNode<M>, path: Seq<char>) -> bool
    decreases before,
{
    &&& after.node == before.node
    &&& after.specified_values == before.specified_values
    &&& after.metrics == before.metrics
    &&& after.link_href == before.link_href
    &&& after.link_id == before.link_id
    &&& after.form_context == before.form_context
    &&& opt_view(after.input_key) == (if editable_dv(before.node.dv()) {
        Some("input:"@ + path)
    } else {
        None
    })
    &&& after.children@.len() == before.children@.len()
    &&& forall|k: int|
        0 <= k < before.children@.len() ==> keys_ok(
            #[trigger] after.children@[k],
            before.children@[k],
            path + "."@ + crate::text::dec(k as nat),
        )
}

pub fn assign_input_keys<M>(node: &mut StyledNode<M>, path: &[char])
    ensures
        keys_ok(*final(node), *old(node), path@),
    decreases *old(node),
{
    let editable = match &node.node.node_type {
        NodeType::Element(e) => eq_lit(chars_of(e.tag_name.as_str()).as_slice(), "input") && is_editable_input(e),
        NodeType::Text(_) => false,
    };
    if editable {
        let mut key = chars_of("input:");
        crate::text::append_chars(&mut key, path);
        node.input_key = Some(string_of(key.as_slice()));
    } else {
        node.input_key = None;
    }
    let mut kids: Vec<StyledNode<M>> = Vec::new();
    std::mem::swap(&mut kids, &mut node.children);
    let ghost orig = kids@;
    let n_kids = kids.len();
    assert(orig.len() == n_kids);
    let mut out: Vec<StyledNode<M>> = Vec::new();
    let mut j: usize = 0;
    while kids.len() > 0
        invariant
            j + kids@.len() == orig.len(),
            orig.len() <= usize::MAX,
            kids@ == orig.skip(j as int),
            out@.len() == j,
            orig == old(node).children@,
            forall|q: int| 0 <= q < j ==> keys_ok(#[trigger] out@[q], orig[q], path@ + "."@ + crate::text::dec(q as nat)),
        decreases kids@.len(),
    {
        let mut c = kids.remove(0);
        assert(c == orig[j as int]);
        let mut child_path = vstd::slice::slice_to_vec(path);
        child_path.push('.');
        let idx = crate::text::dec_usize(j);
        crate::text::append_chars(&mut child_path, idx.as_slice());
        proof {
            reveal_strlit(".");
            assert(child_path@ =~= path@ + "."@ + crate::text::dec(j as nat));
            assert(decreases_to!(*old(node) => old(node).children));
            assert(decreases_to!(old(node).children => old(node).children@));
            assert(decreases_to!(old(node).children@ => old(node).children@[j as int]));
        }
        assign_input_keys(&mut c, child_path.as_slice());
        out.push(c);
        assert(kids@ =~= orig.skip(j + 1));
        j += 1;
    }
    node.children = out;
}


/// `r` is the style tree of the document `root` under `rules`: the tree
/// that styling gives, with form contexts annotated and input keys
/// assigned from the root's path `0`.
pub open spec fn styled_from<M>(r: StyledNode<M>, root: DomView, rules: Seq<RuleView>) -> bool {
    exists|a: StyledNode<M>, b: StyledNode<M>|
        #![trigger forms_ok(b, a, None)]
        style_ok(a, root, rules, Seq::empty(), Map::empty(), None, None, 1) && forms_ok(b, a, None) && keys_ok(
            r,
            b,
            "0"@,
        )
}

/// The style tree of a document: the values of each node, its link, the
/// form it belongs to and the key of each editable input.
pub fn style_tree<S: FontSizer>(root: Node, stylesheet: &Stylesheet, sizer: &S) -> (r: StyledNode<S::Metrics>)
    requires
        root.wf(),
        sheet_fits(stylesheet@),
        count_links(root.dv()) < usize::MAX,
    ensures
        styled_from(r, root.dv(), stylesheet@),
{
    let mut next_link_id: usize = 1;
    let mut ancestors: Vec<Ancestor> = Vec::new();
    assert(anc_targets(ancestors@) =~= Seq::<Target>::empty());
    let empty = Attributes::new();
    let initial = sizer.initial();
    let mut styled = style_tree_with_ctx(
        &root,
        stylesheet,
        sizer,
        None,
        None,
        &mut ancestors,
        &empty,
        initial,
        &mut next_link_id,
    );
    let ghost a = styled;
    annotate_form_contexts(&mut styled, None);
    let ghost b = styled;
    let zero = chars_of("0");
    assign_input_keys(&mut styled, zero.as_slice());
    assert(forms_ok(b, a, None));
    styled
}

/// `sn` is an element whose input key is `key`.
pub open spec fn key_hit<M>(sn: StyledNode<M>, key: Seq<char>) -> bool {
    opt_view(sn.input_key) == Some(key) && sn.node.node_type is Element
}

/// Some node of the subtree has the input key `key`.
pub open spec fn has_hit<M>(sn: StyledNode<M>, key: Seq<char>) -> bool
    decreases sn,
{
    key_hit(sn, key) || exists|q: int| 0 <= q < sn.children@.len() && has_hit(#[trigger] sn.children@[q], key)
}

/// `after` is `before` with the value of the first input keyed `key`, in
/// document order, set to `v`.
pub open spec fn set_rel<M>(after: StyledNode<M>, before: StyledNode<M>, key: Seq<char>, v: Seq<char>) -> bool
    decreases before,
{
    &&& after.specified_values == before.specified_values
    &&& after.metrics == before.metrics
    &&& after.link_href == before.link_href
    &&& after.link_id == before.link_id
    &&& after.form_context == before.form_context
    &&& after.input_key == before.input_key
    &&& if key_hit(before, key) {
        &&& after.children == before.children
        &&& after.node.children == before.node.children
        &&& after.node.node_type matches NodeType::Element(ea)
        &&& before.node.node_type matches NodeType::Element(eb)
        &&& ea.tag_name == eb.tag_name
        &&& ea.href == eb.href
        &&& ea.alt == eb.alt
        &&& ea.attributes@ == eb.attributes@.insert("value"@, v)
    } else {
        &&& after.node == before.node
        &&& after.children@.len() == before.children@.len()
        &&& exists|j: int|
            #![trigger before.children@[j]]
            0 <= j < before.children@.len() && has_hit(before.children@[j], key) && set_rel(
                after.children@[j],
                before.children@[j],
                key,
                v,
            ) && (forall|q: int|
                0 <= q < j ==> !has_hit(#[trigger] before.children@[q], key))
                && (forall|q: int|
                0 <= q < before.children@.len() && q != j ==> #[trigger] after.children@[q]
                    == before.children@[q])
    }
}

fn is_key_hit<M>(node: &StyledNode<M>, key: &[char]) -> (r: bool)
    ensures
        r == key_hit(*node, key@),
{
    let keyed = match &node.input_key {
        Some(k) => eq_chars(chars_of(k.as_str()).as_slice(), key),
        None => false,
    };
    keyed && match &node.node.node_type {
        NodeType::Element(_) => true,
        NodeType::Text(_) => false,
    }
}

fn has_input_key<M>(node: &StyledNode<M>, key: &[char]) -> (r: bool)
    ensures
        r == has_hit(*node, key@),
    decreases node,
{
    if is_key_hit(node, key) {
        return true;
    }
    let mut i: usize = 0;
    while i < node.children.len()
        invariant
            i <= node.children@.len(),
            forall|q: int| 0 <= q < i ==> !has_hit(#[trigger] node.children@[q], key@),
        decreases node.children@.len() - i,
    {
        if has_input_key(&node.children[i], key) {
            return true;
        }
        i += 1;
    }
    false
}

fn set_input_value_inner<M>(node: &mut StyledNode<M>, key: &[char], value: &String)
    requires
        has_hit(*old(node), key@),
    ensures
        set_rel(*final(node), *old(node), key@, value@),
    decreases *old(node),
{
    if is_key_hit(node, key) {
        let mut nt = NodeType::Text(String::new());
        std::mem::swap(&mut nt, &mut node.node.node_type);
        match nt {
            NodeType::Element(mut element) => {
                element.attributes.insert(String::from_str("value"), value.clone());
                node.node.node_type = NodeType::Element(element);
            },
            NodeType::Text(t) => {
                node.node.node_type = NodeType::Text(t);
            },
        }
        return;
    }
    let mut kids: Vec<StyledNode<M>> = Vec::new();
    std::mem::swap(&mut kids, &mut node.children);
    let ghost orig = kids@;
    let n_kids = kids.len();
    assert(orig.len() == n_kids);
    let mut out: Vec<StyledNode<M>> = Vec::new();
    let mut found = false;
    let ghost mut at: int = 0;
    let mut j: usize = 0;
    while kids.len() > 0
        invariant
            j + kids@.len() == orig.len(),
            orig.len() <= usize::MAX,
            kids@ == orig.skip(j as int),
            out@.len() == j,
            orig == old(node).children@,
            !found ==> forall|q: int| 0 <= q < j ==> !has_hit(#[trigger] orig[q], key@),
            !found ==> forall|q: int| 0 <= q < j ==> #[trigger] out@[q] == orig[q],
            found ==> 0 <= at < j,
            found ==> has_hit(orig[at], key@),
            found ==> set_rel(out@[at], orig[at], key@, value@),
            found ==> forall|q: int| 0 <= q < at ==> !has_hit(#[trigger] orig[q], key@),
            found ==> forall|q: int| 0 <= q < j && q != at ==> #[trigger] out@[q] == orig[q],
        decreases kids@.len(),
    {
        let mut c = kids.remove(0);
        assert(c == orig[j as int]);
        if !found && has_input_key(&c, key) {
            proof {
                assert(decreases_to!(*old(node) => old(node).children));
                assert(decreases_to!(old(node).children => old(node).children@));
                assert(decreases_to!(old(node).children@ => old(node).children@[j as int]));
            }
            set_input_value_inner(&mut c, key, value);
            found = true;
            proof {
                at = j as int;
            }
        }
        out.push(c);
        assert(kids@ =~= orig.skip(j + 1));
        j += 1;
    }
    proof {
        if !found {
            let q = choose|q: int| 0 <= q < orig.len() && has_hit(orig[q], key@);
            assert(false);
        }
    }
    node.children = out;
}

/// Sets the value of the editable input keyed `key` and brings the form
/// contexts up to date; false when no input has that key.
pub fn set_input_value<M>(root: &mut StyledNode<M>, key: &str, value: String) -> (r: bool)
    ensures
        r == has_hit(*old(root), key@),
        !r ==> *final(root) == *old(root),
        r ==> exists|mid: StyledNode<M>|
            #![trigger set_rel(mid, *old(root), key@, value@)]
            set_rel(mid, *old(root), key@, value@) && forms_ok(*final(root), mid, None),
{
    let k = chars_of(key);
    if !has_input_key(root, k.as_slice()) {
        return false;
    }
    set_input_value_inner(root, k.as_slice(), &value);
    let ghost mid = *root;
    refresh_form_contexts(root);
    assert(set_rel(mid, *old(root), key@, value@));
    true
}

/// Recomputes the form contexts of the whole tree.
pub fn refresh_form_contexts<M>(root: &mut StyledNode<M>)
    ensures
        forms_ok(*final(root), *old(root), None),
{
    annotate_form_contexts(root, None);
}

/// The value of the first input keyed `key`, in document order.
pub open spec fn value_for<M>(sn: StyledNode<M>, key: Seq<char>) -> Option<Seq<char>>
    decreases sn,
{
    if key_hit(sn, key) {
        match sn.node.node_type {
            NodeType::Element(e) => Some(value_or(e.attributes@, Seq::empty())),
            NodeType::Text(_) => None,
        }
    } else {
        first_value(sn.children@, key)
    }
}

pub open spec fn first_value<M>(s: Seq<StyledNode<M>>, key: Seq<char>) -> Option<Seq<char>>
    decreases s,
{
    if s.len() == 0 {
        None
    } else {
        match value_for(s[0], key) {
            Some(v) => Some(v),
            None => first_value(s.drop_first(), key),
        }
    }
}

pub fn input_value<M>(root: &StyledNode<M>, key: &str) -> (r: Option<String>)
    ensures
        opt_view(r) == value_for(*root, key@),
    decreases root,
{
    let k = chars_of(key);
    if is_key_hit(root, k.as_slice()) {
        match &root.node.node_type {
            NodeType::Element(element) => {
                return Some(value_or_default(element, String::new()));
            },
            NodeType::Text(_) => {
                return None;
            },
        }
    }
    let mut i: usize = 0;
    assert(root.children@.skip(0) =~= root.children@);
    while i < root.children.len()
        invariant
            i <= root.children@.len(),
            !key_hit(*root, key@),
            value_for(*root, key@) == first_value(root.children@.skip(i as int), key@),
        decreases root.children@.len() - i,
    {
        let ghost s = root.children@.skip(i as int);
        assert(s[0] == root.children@[i as int]);
        assert(s.drop_first() =~= root.children@.skip(i + 1));
        match input_value(&root.children[i], key) {
            Some(v) => {
                return Some(v);
            },
            None => {},
        }
        i += 1;
    }
    None
}


// ---------------------------------------------------------------------
// Laws of the cascade and of inheritance.
// ---------------------------------------------------------------------

/// A matching rule that declares `n`.
pub open spec fn declares(it: CascadeItem, n: Seq<char>) -> bool {
    it.0 is Some && decl_of(it.1, n) is Some
}

proof fn lemma_best_winner(items: Seq<CascadeItem>, n: Seq<char>)
    ensures
        best(items, n) is Some <==> exists|i: int| 0 <= i < items.len() && #[trigger] declares(items[i], n),
        best(items, n) matches Some((sp, v)) ==> exists|i: int|
            #![trigger items[i]]
            0 <= i < items.len() && items[i].0 == Some(sp) && decl_of(items[i].1, n) == Some(v) && forall|j: int|
                0 <= j < items.len() && #[trigger] declares(items[j], n) ==> spec_le(items[j].0->0, sp) && (j > i
                    ==> items[j].0->0 != sp),
    decreases items.len(),
{
    if items.len() > 0 {
        let prev = items.drop_last();
        let last = items.len() - 1;
        lemma_best_winner(prev, n);
        assert forall|j: int| 0 <= j < prev.len() implies prev[j] == items[j] by {}
        if declares(items[last], n) {
            let sp = items[last].0->0;
            let v = decl_of(items[last].1, n)->0;
            match best(prev, n) {
                None => {
                    assert forall|j: int| 0 <= j < items.len() && #[trigger] declares(items[j], n) implies spec_le(
                        items[j].0->0,
                        sp,
                    ) && (j > last ==> items[j].0->0 != sp) by {
                        if j < last {
                            assert(declares(prev[j], n));
                        }
                    }
                    assert(items[last].0 == Some(sp) && decl_of(items[last].1, n) == Some(v));
                },
                Some(pr) => {
                    let i = choose|i: int|
                        #![trigger prev[i]]
                        0 <= i < prev.len() && prev[i].0 == Some(pr.0) && decl_of(prev[i].1, n) == Some(pr.1)
                            && forall|j: int|
                            0 <= j < prev.len() && #[trigger] declares(prev[j], n) ==> spec_le(prev[j].0->0, pr.0) && (j
                                > i ==> prev[j].0->0 != pr.0);
                    if spec_le(pr.0, sp) {
                        assert forall|j: int| 0 <= j < items.len() && #[trigger] declares(items[j], n) implies spec_le(
                            items[j].0->0,
                            sp,
                        ) && (j > last ==> items[j].0->0 != sp) by {
                            if j < last {
                                assert(declares(prev[j], n));
                                assert(spec_le(prev[j].0->0, pr.0));
                            }
                        }
                        assert(items[last].0 == Some(sp) && decl_of(items[last].1, n) == Some(v));
                    } else {
                        assert(items[i] == prev[i]);
                        assert forall|j: int| 0 <= j < items.len() && #[trigger] declares(items[j], n) implies spec_le(
                            items[j].0->0,
                            pr.0,
                        ) && (j > i ==> items[j].0->0 != pr.0) by {
                            if j < last {
                                assert(declares(prev[j], n));
                            }
                        }
                    }
                },
            }
        } else {
            match best(prev, n) {
                None => {},
                Some(pr) => {
                    let i = choose|i: int|
                        #![trigger prev[i]]
                        0 <= i < prev.len() && prev[i].0 == Some(pr.0) && decl_of(prev[i].1, n) == Some(pr.1)
                            && forall|j: int|
                            0 <= j < prev.len() && #[trigger] declares(prev[j], n) ==> spec_le(prev[j].0->0, pr.0) && (j
                                > i ==> prev[j].0->0 != pr.0);
                    assert(items[i] == prev[i]);
                    assert forall|j: int| 0 <= j < items.len() && #[trigger] declares(items[j], n) implies spec_le(
                        items[j].0->0,
                        pr.0,
                    ) && (j > i ==> items[j].0->0 != pr.0) by {
                        if j < last {
                            assert(declares(prev[j], n));
                        }
                    }
                },
            }
            assert forall|j: int| 0 <= j < items.len() && #[trigger] declares(items[j], n) implies j < last by {}
            if exists|j: int| 0 <= j < items.len() && #[trigger] declares(items[j], n) {
                let j = choose|j: int| 0 <= j < items.len() && #[trigger] declares(items[j], n);
                assert(declares(prev[j], n));
            }
        }
    }
}

/// Specificity and order decide the cascade: an element has a value for
/// `n` exactly when a rule that matches it declares `n`, and that value
/// is the last declaration of `n` in a matching rule whose specificity no
/// other matching rule declaring `n` exceeds, and which no later such
/// rule equals.
pub proof fn lemma_cascade_winner(t: Target, ancs: Seq<Target>, rules: Seq<RuleView>, n: Seq<char>)
    ensures
        cascade_map(t, ancs, rules).contains_key(n) <==> exists|i: int|
            0 <= i < rules.len() && rule_spec(t, ancs, #[trigger] rules[i].selectors) is Some && decl_of(
                rules[i].declarations,
                n,
            ) is Some,
        cascade_map(t, ancs, rules).contains_key(n) ==> exists|i: int|
            #![trigger rules[i]]
            0 <= i < rules.len() && rule_spec(t, ancs, rules[i].selectors) is Some && decl_of(rules[i].declarations, n)
                == Some(cascade_map(t, ancs, rules)[n]) && forall|j: int|
                0 <= j < rules.len() && rule_spec(t, ancs, #[trigger] rules[j].selectors) is Some && decl_of(
                    rules[j].declarations,
                    n,
                ) is Some ==> spec_le(rule_spec(t, ancs, rules[j].selectors)->0, rule_spec(t, ancs, rules[i].selectors)->0)
                    && (j > i ==> rule_spec(t, ancs, rules[j].selectors)->0 != rule_spec(
                    t,
                    ancs,
                    rules[i].selectors,
                )->0),
{
    let items = rule_items(t, ancs, rules);
    lemma_best_winner(items, n);
    assert forall|i: int| 0 <= i < rules.len() implies #[trigger] items[i] == (rule_spec(t, ancs, rules[i].selectors), rules[i].declarations) by {}
    if exists|i: int| 0 <= i < rules.len() && rule_spec(t, ancs, #[trigger] rules[i].selectors) is Some && decl_of(
        rules[i].declarations,
        n,
    ) is Some {
        let i = choose|i: int| 0 <= i < rules.len() && rule_spec(t, ancs, #[trigger] rules[i].selectors) is Some && decl_of(
            rules[i].declarations,
            n,
        ) is Some;
        assert(declares(items[i], n));
    }
    if best(items, n) is Some {
        let i0 = choose|i: int| 0 <= i < items.len() && #[trigger] declares(items[i], n);
        assert(items[i0] == (rule_spec(t, ancs, rules[i0].selectors), rules[i0].declarations));
        let (sp, v) = best(items, n)->0;
        let i = choose|i: int|
            #![trigger items[i]]
            0 <= i < items.len() && items[i].0 == Some(sp) && decl_of(items[i].1, n) == Some(v) && forall|j: int|
                0 <= j < items.len() && #[trigger] declares(items[j], n) ==> spec_le(items[j].0->0, sp) && (j > i
                    ==> items[j].0->0 != sp);
        assert(items[i] == (rule_spec(t, ancs, rules[i].selectors), rules[i].declarations));
        assert forall|j: int|
            0 <= j < rules.len() && rule_spec(t, ancs, #[trigger] rules[j].selectors) is Some && decl_of(
                rules[j].declarations,
                n,
            ) is Some implies spec_le(rule_spec(t, ancs, rules[j].selectors)->0, rule_spec(t, ancs, rules[i].selectors)->0)
            && (j > i ==> rule_spec(t, ancs, rules[j].selectors)->0 != rule_spec(t, ancs, rules[i].selectors)->0) by {
            assert(items[j] == (rule_spec(t, ancs, rules[j].selectors), rules[j].declarations));
            assert(declares(items[j], n));
        }
    }
}

/// Inheritance: a child that does not set a property itself has its
/// parent's value when the property is inherited (`font-size` and
/// `line-height` aside, which font sizing resolves), and no value when it
/// is not.
pub proof fn lemma_inherited_values<M>(
    sn: StyledNode<M>,
    d: DomView,
    rules: Seq<RuleView>,
    ancs: Seq<Target>,
    inherited: Map<Seq<char>, Seq<char>>,
    link: Option<Seq<char>>,
    link_id: Option<int>,
    next: int,
    k: int,
    p: Seq<char>,
)
    requires
        style_ok(sn, d, rules, ancs, inherited, link, link_id, next),
        0 <= k < kids_of(d).len(),
        !own_spec(kids_of(d)[k], ancs_below(d, ancs), rules).contains_key(p),
        p != "font-size"@,
        p != "line-height"@,
    ensures
        map_get(sn.children@[k].specified_values@, p) == (if inheritable(p) {
            map_get(sn.specified_values@, p)
        } else {
            None
        }),
{
    let values = inherited.union_prefer_right(own_spec(d, ancs, rules));
    let here = anchor_href(d);
    let link2 = if here is Some { here } else { link };
    let id2 = if here is Some { Some(next) } else { link_id };
    let next2 = if here is Some { next + 1 } else { next };
    let kids = kids_of(d);
    let (fs, lh) = choose|fs: Seq<char>, lh: Option<Seq<char>>|
        #![trigger child_inherit(values, fs, lh)]
        forall|k: int|
            0 <= k < kids.len() ==> style_ok(
                #[trigger] sn.children@[k],
                kids[k],
                rules,
                ancs_below(d, ancs),
                child_inherit(values, fs, lh),
                link2,
                id2,
                next2 + links_seq(kids.take(k)),
            );
    assert(style_ok(
        sn.children@[k],
        kids[k],
        rules,
        ancs_below(d, ancs),
        child_inherit(values, fs, lh),
        link2,
        id2,
        next2 + links_seq(kids.take(k)),
    ));
}

/// `path` is a path of child indices from `d` to one of its nodes.
pub open spec fn dom_path(d: DomView, path: Seq<int>) -> bool
    decreases path.len(),
{
    path.len() == 0 || (0 <= path[0] < kids_of(d).len() && dom_path(kids_of(d)[path[0]], path.drop_first()))
}

/// The node of `d` at the path `path`.
pub open spec fn dv_at(d: DomView, path: Seq<int>) -> DomView
    decreases path.len(),
{
    if path.len() == 0 {
        d
    } else {
        dv_at(kids_of(d)[path[0]], path.drop_first())
    }
}

/// The ancestors of the node of `d` at `path`, `ancs` being those of `d`.
pub open spec fn ancs_at(d: DomView, ancs: Seq<Target>, path: Seq<int>) -> Seq<Target>
    decreases path.len(),
{
    if path.len() == 0 {
        ancs
    } else {
        ancs_at(kids_of(d)[path[0]], ancs_below(d, ancs), path.drop_first())
    }
}

/// `path` is a path of child indices from `sn` to one of its nodes.
pub open spec fn sn_path<M>(sn: StyledNode<M>, path: Seq<int>) -> bool
    decreases path.len(),
{
    path.len() == 0 || (0 <= path[0] < sn.children@.len() && sn_path(sn.children@[path[0]], path.drop_first()))
}

/// The node of the style tree `sn` at the path `path`.
pub open spec fn sub_at<M>(sn: StyledNode<M>, path: Seq<int>) -> StyledNode<M>
    decreases path.len(),
{
    if path.len() == 0 {
        sn
    } else {
        sub_at(sn.children@[path[0]], path.drop_first())
    }
}

proof fn lemma_style_ok_at<M>(
    sn: StyledNode<M>,
    d: DomView,
    rules: Seq<RuleView>,
    ancs: Seq<Target>,
    inherited: Map<Seq<char>, Seq<char>>,
    link: Option<Seq<char>>,
    link_id: Option<int>,
    next: int,
    path: Seq<int>,
)
    requires
        style_ok(sn, d, rules, ancs, inherited, link, link_id, next),
        dom_path(d, path),
    ensures
        sn_path(sn, path),
        exists|i: Map<Seq<char>, Seq<char>>, l: Option<Seq<char>>, li: Option<int>, n: int|
            style_ok(#[trigger] sub_at(sn, path), dv_at(d, path), rules, ancs_at(d, ancs, path), i, l, li, n),
    decreases path.len(),
{
    if path.len() == 0 {
        assert(style_ok(sub_at(sn, path), dv_at(d, path), rules, ancs_at(d, ancs, path), inherited, link, link_id, next));
    } else {
        let values = inherited.union_prefer_right(own_spec(d, ancs, rules));
        let here = anchor_href(d);
        let link2 = if here is Some { here } else { link };
        let id2 = if here is Some { Some(next) } else { link_id };
        let next2 = if here is Some { next + 1 } else { next };
        let kids = kids_of(d);
        let (fs, lh) = choose|fs: Seq<char>, lh: Option<Seq<char>>|
            #![trigger child_inherit(values, fs, lh)]
            forall|k: int|
                0 <= k < kids.len() ==> style_ok(
                    #[trigger] sn.children@[k],
                    kids[k],
                    rules,
                    ancs_below(d, ancs),
                    child_inherit(values, fs, lh),
                    link2,
                    id2,
                    next2 + links_seq(kids.take(k)),
                );
        let k = path[0];
        assert(style_ok(
            sn.children@[k],
            kids[k],
            rules,
            ancs_below(d, ancs),
            child_inherit(values, fs, lh),
            link2,
            id2,
            next2 + links_seq(kids.take(k)),
        ));
        lemma_style_ok_at(
            sn.children@[k],
            kids[k],
            rules,
            ancs_below(d, ancs),
            child_inherit(values, fs, lh),
            link2,
            id2,
            next2 + links_seq(kids.take(k)),
            path.drop_first(),
        );
        assert(sub_at(sn, path) == sub_at(sn.children@[k], path.drop_first()));
        assert(dv_at(d, path) == dv_at(kids[k], path.drop_first()));
        assert(ancs_at(d, ancs, path) == ancs_at(kids[k], ancs_below(d, ancs), path.drop_first()));
        let (i, l, li, n) = choose|i: Map<Seq<char>, Seq<char>>, l: Option<Seq<char>>, li: Option<int>, n: int|
            style_ok(
                #[trigger] sub_at(sn.children@[k], path.drop_first()),
                dv_at(kids[k], path.drop_first()),
                rules,
                ancs_at(kids[k], ancs_below(d, ancs), path.drop_first()),
                i,
                l,
                li,
                n,
            );
        assert(style_ok(sub_at(sn, path), dv_at(d, path), rules, ancs_at(d, ancs, path), i, l, li, n));
    }
}

proof fn lemma_forms_at<M>(after: StyledNode<M>, before: StyledNode<M>, ctx: Option<FormView>, path: Seq<int>)
    requires
        forms_ok(after, before, ctx),
        sn_path(before, path),
    ensures
        sn_path(after, path),
        sub_at(after, path).specified_values == sub_at(before, path).specified_values,
        sub_at(after, path).children@.len() == sub_at(before, path).children@.len(),
    decreases path.len(),
{
    if path.len() > 0 {
        let ctx2 = if is_tag(before.node.dv(), "form"@) {
            Some(full_form(before))
        } else {
            ctx
        };
        let k = path[0];
        assert(forms_ok(after.children@[k], before.children@[k], ctx2));
        lemma_forms_at(after.children@[k], before.children@[k], ctx2, path.drop_first());
    }
}

proof fn lemma_keys_at<M>(after: StyledNode<M>, before: StyledNode<M>, key: Seq<char>, path: Seq<int>)
    requires
        keys_ok(after, before, key),
        sn_path(before, path),
    ensures
        sn_path(after, path),
        sub_at(after, path).specified_values == sub_at(before, path).specified_values,
        sub_at(after, path).children@.len() == sub_at(before, path).children@.len(),
    decreases path.len(),
{
    if path.len() > 0 {
        let k = path[0];
        let key2 = key + "."@ + crate::text::dec(k as nat);
        assert(keys_ok(after.children@[k], before.children@[k], key2));
        lemma_keys_at(after.children@[k], before.children@[k], key2, path.drop_first());
    }
}

/// Inheritance over a whole style tree: in the style tree of a document,
/// a child that does not set a property itself has its parent's value
/// when the property is inherited (`font-size` and `line-height` aside,
/// which font sizing resolves), and no value when it is not.
pub proof fn lemma_style_tree_inherits<M>(
    r: StyledNode<M>,
    root: DomView,
    rules: Seq<RuleView>,
    path: Seq<int>,
    k: int,
    p: Seq<char>,
)
    requires
        styled_from(r, root, rules),
        dom_path(root, path.push(k)),
        !own_spec(dv_at(root, path.push(k)), ancs_at(root, Seq::empty(), path.push(k)), rules).contains_key(p),
        p != "font-size"@,
        p != "line-height"@,
    ensures
        sn_path(r, path.push(k)),
        map_get(sub_at(r, path.push(k)).specified_values@, p) == (if inheritable(p) {
            map_get(sub_at(r, path).specified_values@, p)
        } else {
            None
        }),
{
    let (a, b) = choose|a: StyledNode<M>, b: StyledNode<M>|
        #![trigger forms_ok(b, a, None)]
        style_ok(a, root, rules, Seq::empty(), Map::empty(), None, None, 1) && forms_ok(b, a, None) && keys_ok(
            r,
            b,
            "0"@,
        );
    lemma_dom_path_prefix(root, path, k);
    lemma_style_ok_at(a, root, rules, Seq::empty(), Map::empty(), None, None, 1, path);
    let (i, l, li, n) = choose|i: Map<Seq<char>, Seq<char>>, l: Option<Seq<char>>, li: Option<int>, n: int|
        style_ok(#[trigger] sub_at(a, path), dv_at(root, path), rules, ancs_at(root, Seq::empty(), path), i, l, li, n);
    lemma_at_push(a, root, Seq::empty(), path, k);
    lemma_inherited_values(sub_at(a, path), dv_at(root, path), rules, ancs_at(root, Seq::empty(), path), i, l, li, n, k, p);
    lemma_style_ok_at(a, root, rules, Seq::empty(), Map::empty(), None, None, 1, path.push(k));
    lemma_forms_at(b, a, None, path);
    lemma_forms_at(b, a, None, path.push(k));
    lemma_keys_at(r, b, "0"@, path);
    lemma_keys_at(r, b, "0"@, path.push(k));
}

proof fn lemma_dom_path_prefix(d: DomView, path: Seq<int>, k: int)
    requires
        dom_path(d, path.push(k)),
    ensures
        dom_path(d, path),
        0 <= k < kids_of(dv_at(d, path)).len(),
    decreases path.len(),
{
    if path.len() > 0 {
        assert(path.push(k).drop_first() =~= path.drop_first().push(k));
        assert(path.push(k)[0] == path[0]);
        lemma_dom_path_prefix(kids_of(d)[path[0]], path.drop_first(), k);
    } else {
        assert(path.push(k).drop_first() =~= Seq::<int>::empty());
    }
}

proof fn lemma_at_push<M>(sn: StyledNode<M>, d: DomView, ancs: Seq<Target>, path: Seq<int>, k: int)
    ensures
        sub_at(sn, path.push(k)) == sub_at(sn, path).children@[k],
        dv_at(d, path.push(k)) == kids_of(dv_at(d, path))[k],
        ancs_at(d, ancs, path.push(k)) == ancs_below(dv_at(d, path), ancs_at(d, ancs, path)),
    decreases path.len(),
{
    if path.len() > 0 {
        assert(path.push(k).drop_first() =~= path.drop_first().push(k));
        assert(path.push(k)[0] == path[0]);
        lemma_at_push(sn.children@[path[0]], kids_of(d)[path[0]], ancs_below(d, ancs), path.drop_first(), k);
    } else {
        assert(path.push(k).drop_first() =~= Seq::<int>::empty());
        assert(path.push(k)[0] == k);
        assert(sub_at(sn, path.push(k)) == sub_at(sn.children@[k], Seq::<int>::empty()));
        assert(dv_at(d, path.push(k)) == dv_at(kids_of(d)[k], Seq::<int>::empty()));
        assert(ancs_at(d, ancs, path.push(k)) == ancs_at(kids_of(d)[k], ancs_below(d, ancs), Seq::<int>::empty()));
    }
}


// ---------------------------------------------------------------------
// Laws of editing inputs.
// ---------------------------------------------------------------------

proof fn lemma_no_hit_no_value<M>(sn: StyledNode<M>, key: Seq<char>)
    requires
        !has_hit(sn, key),
    ensures
        value_for(sn, key) is None,
    decreases sn,
{
    assert forall|q: int| 0 <= q < sn.children@.len() implies value_for(#[trigger] sn.children@[q], key) is None by {
        lemma_no_hit_no_value(sn.children@[q], key);
    }
    lemma_first_value_none(sn.children@, key);
}

proof fn lemma_first_value_none<M>(s: Seq<StyledNode<M>>, key: Seq<char>)
    requires
        forall|q: int| 0 <= q < s.len() ==> value_for(#[trigger] s[q], key) is None,
    ensures
        first_value(s, key) is None,
    decreases s.len(),
{
    if s.len() > 0 {
        assert(value_for(s[0], key) is None);
        assert forall|q: int| 0 <= q < s.drop_first().len() implies value_for(#[trigger] s.drop_first()[q], key) is None by {
            assert(s.drop_first()[q] == s[q + 1]);
        }
        lemma_first_value_none(s.drop_first(), key);
    }
}

proof fn lemma_first_value_at<M>(s: Seq<StyledNode<M>>, key: Seq<char>, j: int)
    requires
        0 <= j < s.len(),
        forall|q: int| 0 <= q < j ==> value_for(#[trigger] s[q], key) is None,
        value_for(s[j], key) is Some,
    ensures
        first_value(s, key) == value_for(s[j], key),
    decreases j,
{
    if j > 0 {
        assert(value_for(s[0], key) is None);
        assert forall|q: int| 0 <= q < j - 1 implies value_for(#[trigger] s.drop_first()[q], key) is None by {
            assert(s.drop_first()[q] == s[q + 1]);
        }
        lemma_first_value_at(s.drop_first(), key, j - 1);
        assert(s.drop_first()[j - 1] == s[j]);
    }
}

proof fn lemma_set_gives_value<M>(after: StyledNode<M>, before: StyledNode<M>, key: Seq<char>, v: Seq<char>)
    requires
        has_hit(before, key),
        set_rel(after, before, key, v),
    ensures
        value_for(after, key) == Some(v),
    decreases before,
{
    if key_hit(before, key) {
        assert(key_hit(after, key));
    } else {
        let j = choose|j: int|
            #![trigger before.children@[j]]
            0 <= j < before.children@.len() && has_hit(before.children@[j], key) && set_rel(
                after.children@[j],
                before.children@[j],
                key,
                v,
            ) && (forall|q: int| 0 <= q < j ==> !has_hit(#[trigger] before.children@[q], key)) && (forall|q: int|
                0 <= q < before.children@.len() && q != j ==> #[trigger] after.children@[q] == before.children@[q]);
        lemma_set_gives_value(after.children@[j], before.children@[j], key, v);
        assert forall|q: int| 0 <= q < j implies value_for(#[trigger] after.children@[q], key) is None by {
            assert(after.children@[q] == before.children@[q]);
            assert(!has_hit(before.children@[q], key));
            lemma_no_hit_no_value(before.children@[q], key);
        }
        lemma_first_value_at(after.children@, key, j);
    }
}

proof fn lemma_forms_keep_values<M>(after: StyledNode<M>, before: StyledNode<M>, ctx: Option<FormView>, key: Seq<char>)
    requires
        forms_ok(after, before, ctx),
    ensures
        value_for(after, key) == value_for(before, key),
    decreases before,
{
    let ctx2 = if is_tag(before.node.dv(), "form"@) {
        Some(full_form(before))
    } else {
        ctx
    };
    assert forall|q: int| 0 <= q < before.children@.len() implies value_for(#[trigger] after.children@[q], key)
        == value_for(before.children@[q], key) by {
        assert(forms_ok(after.children@[q], before.children@[q], ctx2));
        lemma_forms_keep_values(after.children@[q], before.children@[q], ctx2, key);
    }
    lemma_first_value_same(after.children@, before.children@, key);
}

proof fn lemma_first_value_same<M>(a: Seq<StyledNode<M>>, b: Seq<StyledNode<M>>, key: Seq<char>)
    requires
        a.len() == b.len(),
        forall|q: int| 0 <= q < b.len() ==> value_for(#[trigger] a[q], key) == value_for(b[q], key),
    ensures
        first_value(a, key) == first_value(b, key),
    decreases a.len(),
{
    if a.len() > 0 {
        assert(value_for(a[0], key) == value_for(b[0], key));
        assert forall|q: int| 0 <= q < b.drop_first().len() implies value_for(#[trigger] a.drop_first()[q], key)
            == value_for(b.drop_first()[q], key) by {
            assert(a.drop_first()[q] == a[q + 1]);
            assert(b.drop_first()[q] == b[q + 1]);
        }
        lemma_first_value_same(a.drop_first(), b.drop_first(), key);
    }
}

/// Reading an input gives back what was written to it: after
/// `set_input_value` has set the input keyed `key` to `v` (and the forms
/// were brought up to date), `input_value` of that key gives `v`.
pub proof fn lemma_set_then_read<M>(before: StyledNode<M>, mid: StyledNode<M>, after: StyledNode<M>, key: Seq<char>, v: Seq<char>)
    requires
        has_hit(before, key),
        set_rel(mid, before, key, v),
        forms_ok(after, mid, None),
    ensures
        value_for(after, key) == Some(v),
{
    lemma_set_gives_value(mid, before, key, v);
    lemma_forms_keep_values(after, mid, None, key);
}


proof fn lemma_apply_decls_get(m: Map<Seq<char>, Seq<char>>, d: Seq<DeclView>, n: Seq<char>)
    ensures
        map_get(apply_decls(m, d), n) == (match decl_of(d, n) {
            Some(v) => Some(v),
            None => map_get(m, n),
        }),
    decreases d.len(),
{
    if d.len() > 0 {
        lemma_apply_decls_get(m, d.drop_last(), n);
    }
}

/// The `style` attribute wins: an element's own value for `n` is the last
/// declaration of `n` in its `style` attribute where there is one, and
/// what the stylesheet's cascade gives it otherwise.
pub proof fn lemma_inline_style_wins(
    tag: Seq<char>,
    attrs: Map<Seq<char>, Seq<char>>,
    kids: Seq<DomView>,
    ancs: Seq<Target>,
    rules: Seq<RuleView>,
    n: Seq<char>,
)
    ensures
        map_get(own_spec(DomView::Element(tag, attrs, kids), ancs, rules), n) == (match decl_of(inline_of(attrs), n) {
            Some(v) => Some(v),
            None => map_get(cascade_map(dv_target(tag, attrs), ancs, rules), n),
        }),
{
    lemma_apply_decls_get(cascade_map(dv_target(tag, attrs), ancs, rules), inline_of(attrs), n);
}

} // verus!
