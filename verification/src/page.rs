//! Loading a page: what a document asks for (its `<style>` text, its
//! linked stylesheets, its images, its `@import`s), the charset its text
//! is decoded with, the image sizes layout asks for, and the URL a form
//! submission leads to.
use vstd::prelude::*;
use vstd::string::StringExecFns;

use crate::dom::{map_get, opt_view, DomView, Node, NodeType};
use crate::http::{charset_spec, label_decoded, strip_all, utf8_decoded, utf8_lossy, Response};
use crate::image::utf8_bytes;
use crate::selector::strs_view;
use crate::style::{fields_view, usable_href, FieldView, FormField, FormSubmit, FormView, submit_view};
use crate::text::{
    append_chars, chars_of, contains_sub, eq_ic, eq_ignore_case_lit, first_of, join, starts, string_of,
    to_lowercase, trim, trim_chars, unicode_lower, vviews, words,
};
use crate::url::{location_ok, resolve_spec, with_path, UrlView, URL};
use crate::utility::url_utils::{abs_string, normalize_against, normalized_key_against, url_to_abs_string};

verus! {

// ---------------------------------------------------------------------
// What a document refers to.
// ---------------------------------------------------------------------

/// The texts of the text children, each followed by a line break.
pub open spec fn text_children(kids: Seq<DomView>) -> Seq<char>
    decreases kids.len(),
{
    if kids.len() == 0 {
        Seq::empty()
    } else {
        text_children(kids.drop_last()) + match kids.last() {
            DomView::Text(t) => t.push('\n'),
            DomView::Element(_, _, _) => Seq::empty(),
        }
    }
}

/// The text of the `<style>` elements of a subtree, in document order.
pub open spec fn style_text(d: DomView) -> Seq<char>
    decreases d,
{
    match d {
        DomView::Element(tag, _, kids) => if tag == "style"@ {
            text_children(kids)
        } else {
            style_text_seq(kids)
        },
        DomView::Text(_) => Seq::empty(),
    }
}

pub open spec fn style_text_seq(s: Seq<DomView>) -> Seq<char>
    decreases s,
{
    if s.len() == 0 {
        Seq::empty()
    } else {
        style_text_seq(s.drop_last()) + style_text(s.last())
    }
}

/// Appends the `<style>` text of a subtree.
pub fn extract_style_text(node: &Node, out: &mut String)
    requires
        node.wf(),
    ensures
        final(out)@ == old(out)@ + style_text(node.dv()),
    decreases node,
{
    let ghost start = out@;
    match &node.node_type {
        NodeType::Element(ed) => {
            if crate::text::eq_lit(chars_of(ed.tag_name.as_str()).as_slice(), "style") {
                let mut i: usize = 0;
                let ghost kids = crate::dom::dvs(node.children@);
                while i < node.children.len()
                    invariant
                        i <= node.children@.len(),
                        kids == crate::dom::dvs(node.children@),
                        out@ == start + text_children(kids.take(i as int)),
                    decreases node.children@.len() - i,
                {
                    assert(kids.take(i + 1).drop_last() =~= kids.take(i as int));
                    assert(kids.take(i + 1).last() == node.children@[i as int].dv());
                    match &node.children[i].node_type {
                        NodeType::Text(t) => {
                            out.append(t.as_str());
                            out.append("\n");
                            proof {
                                reveal_strlit("\n");
                            }
                            assert(out@ =~= start + text_children(kids.take(i + 1)));
                        },
                        NodeType::Element(_) => {
                            assert(out@ =~= start + text_children(kids.take(i + 1)));
                        },
                    }
                    i += 1;
                }
                assert(kids.take(i as int) =~= kids);
                return;
            }
        },
        NodeType::Text(_) => {},
    }
    let ghost kids = crate::dom::dvs(node.children@);
    let mut i: usize = 0;
    while i < node.children.len()
        invariant
            i <= node.children@.len(),
            node.wf(),
            kids == crate::dom::dvs(node.children@),
            out@ == start + style_text_seq(kids.take(i as int)),
        decreases node.children@.len() - i,
    {
        assert(kids.take(i + 1).drop_last() =~= kids.take(i as int));
        assert(kids.take(i + 1).last() == node.children@[i as int].dv());
        assert(node.children@[i as int].wf());
        extract_style_text(&node.children[i], out);
        assert(out@ =~= start + style_text_seq(kids.take(i + 1)));
        i += 1;
    }
    assert(kids.take(i as int) =~= kids);
    proof {
        if node.node_type is Text {
            assert(kids.len() == 0);
            assert(style_text_seq(kids.take(0)) =~= Seq::<char>::empty());
        }
    }
    assert(out@ =~= start + style_text(node.dv()));
}

/// The elements of a subtree that `pick` gives a text for, those texts
/// in document order.
pub open spec fn preorder(d: DomView, pick: spec_fn(DomView) -> Option<Seq<char>>) -> Seq<Seq<char>>
    decreases d,
{
    (match pick(d) {
        Some(t) => seq![t],
        None => Seq::empty(),
    }) + match d {
        DomView::Element(_, _, kids) => preorder_seq(kids, pick),
        DomView::Text(_) => Seq::empty(),
    }
}

pub open spec fn preorder_seq(s: Seq<DomView>, pick: spec_fn(DomView) -> Option<Seq<char>>) -> Seq<Seq<char>>
    decreases s,
{
    if s.len() == 0 {
        Seq::empty()
    } else {
        preorder_seq(s.drop_last(), pick) + preorder(s.last(), pick)
    }
}

/// A `<link>` whose `rel` mentions `stylesheet`, with a usable `href`:
/// the trimmed `href`.
pub open spec fn stylesheet_link(d: DomView) -> Option<Seq<char>> {
    match d {
        DomView::Element(tag, attrs, _) => if tag == "link"@ && attrs.contains_key("rel"@) && contains_sub(
            unicode_lower(attrs["rel"@]),
            "stylesheet"@,
        ) && attrs.contains_key("href"@) && usable_href(trim(attrs["href"@])) {
            Some(trim(attrs["href"@]))
        } else {
            None
        },
        DomView::Text(_) => None,
    }
}

pub open spec fn link_pick() -> spec_fn(DomView) -> Option<Seq<char>> {
    |d: DomView| stylesheet_link(d)
}

/// An `<img>` with a `src` that is not a `data:` or `javascript:` URL:
/// the trimmed `src`.
pub open spec fn image_src(d: DomView) -> Option<Seq<char>> {
    match d {
        DomView::Element(tag, attrs, _) => if tag == "img"@ && attrs.contains_key("src"@) && trim(attrs["src"@]).len()
            > 0 && !starts(unicode_lower(trim(attrs["src"@])), "data:"@) && !starts(
            unicode_lower(trim(attrs["src"@])),
            "javascript:"@,
        ) {
            Some(trim(attrs["src"@]))
        } else {
            None
        },
        DomView::Text(_) => None,
    }
}

pub open spec fn img_pick() -> spec_fn(DomView) -> Option<Seq<char>> {
    |d: DomView| image_src(d)
}

fn stylesheet_link_of(node: &Node) -> (r: Option<String>)
    ensures
        opt_view(r) == stylesheet_link(node.dv()),
{
    match &node.node_type {
        NodeType::Element(ed) => {
            if !crate::text::eq_lit(chars_of(ed.tag_name.as_str()).as_slice(), "link") {
                return None;
            }
            let rel = match ed.attributes.get("rel") {
                Some(r) => chars_of(to_lowercase(r.as_str()).as_str()),
                None => {
                    return None;
                },
            };
            if !crate::text::contains_lit(rel.as_slice(), "stylesheet") {
                return None;
            }
            match ed.attributes.get("href") {
                Some(href) => {
                    let h = trim_chars(chars_of(href.as_str()).as_slice());
                    if crate::style::is_usable_href(h.as_slice()) {
                        Some(string_of(h.as_slice()))
                    } else {
                        None
                    }
                },
                None => None,
            }
        },
        NodeType::Text(_) => None,
    }
}

fn image_src_of(node: &Node) -> (r: Option<String>)
    ensures
        opt_view(r) == image_src(node.dv()),
{
    match &node.node_type {
        NodeType::Element(ed) => {
            if !crate::text::eq_lit(chars_of(ed.tag_name.as_str()).as_slice(), "img") {
                return None;
            }
            match ed.attributes.get("src") {
                Some(src) => {
                    let s = trim_chars(chars_of(src.as_str()).as_slice());
                    let st = string_of(s.as_slice());
                    let l = chars_of(to_lowercase(st.as_str()).as_str());
                    if s.len() > 0 && !crate::text::starts_lit(l.as_slice(), "data:")
                        && !crate::text::starts_lit(l.as_slice(), "javascript:") {
                        Some(st)
                    } else {
                        None
                    }
                },
                None => None,
            }
        },
        NodeType::Text(_) => None,
    }
}

/// Appends the stylesheet links of a subtree.
pub fn extract_link_stylesheets(node: &Node, out: &mut Vec<String>)
    requires
        node.wf(),
    ensures
        strs_view(final(out)@) == strs_view(old(out)@) + preorder(node.dv(), link_pick()),
    decreases node,
{
    let ghost start = strs_view(out@);
    match stylesheet_link_of(node) {
        Some(h) => {
            out.push(h);
            assert(strs_view(out@) =~= start + seq![h@]);
        },
        None => {
            assert(strs_view(out@) =~= start + Seq::<Seq<char>>::empty());
        },
    }
    let ghost mid = strs_view(out@);
    let ghost kids = crate::dom::dvs(node.children@);
    let mut i: usize = 0;
    while i < node.children.len()
        invariant
            i <= node.children@.len(),
            node.wf(),
            kids == crate::dom::dvs(node.children@),
            strs_view(out@) == mid + preorder_seq(kids.take(i as int), link_pick()),
        decreases node.children@.len() - i,
    {
        assert(kids.take(i + 1).drop_last() =~= kids.take(i as int));
        assert(kids.take(i + 1).last() == node.children@[i as int].dv());
        assert(node.children@[i as int].wf());
        extract_link_stylesheets(&node.children[i], out);
        assert(strs_view(out@) =~= mid + preorder_seq(kids.take(i + 1), link_pick()));
        i += 1;
    }
    assert(kids.take(i as int) =~= kids);
    proof {
        if node.node_type is Text {
            assert(preorder_seq(kids.take(0), link_pick()) =~= Seq::<Seq<char>>::empty());
        }
    }
    assert(strs_view(out@) =~= start + preorder(node.dv(), link_pick()));
}

/// Appends the image sources of a subtree.
pub fn extract_img_srcs(node: &Node, out: &mut Vec<String>)
    requires
        node.wf(),
    ensures
        strs_view(final(out)@) == strs_view(old(out)@) + preorder(node.dv(), img_pick()),
    decreases node,
{
    let ghost start = strs_view(out@);
    match image_src_of(node) {
        Some(h) => {
            out.push(h);
            assert(strs_view(out@) =~= start + seq![h@]);
        },
        None => {
            assert(strs_view(out@) =~= start + Seq::<Seq<char>>::empty());
        },
    }
    let ghost mid = strs_view(out@);
    let ghost kids = crate::dom::dvs(node.children@);
    let mut i: usize = 0;
    while i < node.children.len()
        invariant
            i <= node.children@.len(),
            node.wf(),
            kids == crate::dom::dvs(node.children@),
            strs_view(out@) == mid + preorder_seq(kids.take(i as int), img_pick()),
        decreases node.children@.len() - i,
    {
        assert(kids.take(i + 1).drop_last() =~= kids.take(i as int));
        assert(kids.take(i + 1).last() == node.children@[i as int].dv());
        assert(node.children@[i as int].wf());
        extract_img_srcs(&node.children[i], out);
        assert(strs_view(out@) =~= mid + preorder_seq(kids.take(i + 1), img_pick()));
        i += 1;
    }
    assert(kids.take(i as int) =~= kids);
    proof {
        if node.node_type is Text {
            assert(preorder_seq(kids.take(0), img_pick()) =~= Seq::<Seq<char>>::empty());
        }
    }
    assert(strs_view(out@) =~= start + preorder(node.dv(), img_pick()));
}

/// A `Content-Type` of CSS.
pub open spec fn css_type(ct: Option<Seq<char>>) -> bool {
    match ct {
        Some(c) => contains_sub(unicode_lower(c), "text/css"@),
        None => false,
    }
}

pub fn is_css_content_type(ct: &Option<String>) -> (r: bool)
    ensures
        r == css_type(opt_view(*ct)),
{
    match ct {
        Some(c) => crate::text::contains_lit(chars_of(to_lowercase(c.as_str()).as_str()).as_slice(), "text/css"),
        None => false,
    }
}

// ---------------------------------------------------------------------
// `@import`.
// ---------------------------------------------------------------------

/// `str::trim_start_matches` with a text: every leading copy removed.
pub open spec fn strip_prefix_all(s: Seq<char>, p: Seq<char>) -> Seq<char>
    decreases s.len(),
{
    if p.len() > 0 && starts(s, p) {
        strip_prefix_all(s.skip(p.len() as int), p)
    } else {
        s
    }
}

/// The URL of an `@import` line: `url(...)` or a quoted or bare word.
pub open spec fn import_url_spec(line: Seq<char>) -> Option<Seq<char>> {
    let s0 = trim(line);
    if !starts(s0, "@import"@) {
        None
    } else {
        let s1 = trim(strip_prefix_all(s0, "@import"@));
        let s = if s1.len() > 0 && s1.last() == ';' {
            trim(s1.drop_last())
        } else {
            s1
        };
        if starts(s, "url("@) {
            let inner = trim(s.skip(4));
            let pos = first_of(inner, ')');
            if pos >= inner.len() {
                None
            } else {
                let v = trim(strip_all(strip_all(trim(inner.take(pos as int)), '"'), '\''));
                if v.len() > 0 {
                    Some(v)
                } else {
                    None
                }
            }
        } else {
            let ws = words(s);
            let first = trim(
                if ws.len() > 0 {
                    ws[0]
                } else {
                    Seq::empty()
                },
            );
            let v = trim(strip_all(strip_all(first, '"'), '\''));
            if v.len() > 0 {
                Some(v)
            } else {
                None
            }
        }
    }
}

fn strip_prefix_repeated(s: &[char], p: &str) -> (r: Vec<char>)
    ensures
        r@ == strip_prefix_all(s@, p@),
{
    let pv = chars_of(p);
    let mut i: usize = 0;
    let sl = s.len();
    assert(s@.skip(0) =~= s@);
    while pv.len() > 0 && crate::text::matches_at(s, i, pv.as_slice())
        invariant
            i <= s@.len(),
            sl == s@.len(),
            pv@ == p@,
            strip_prefix_all(s@, p@) == strip_prefix_all(s@.skip(i as int), p@),
        decreases s@.len() - i,
    {
        assert(crate::text::at(s@, i as int, p@));
        assert(s@.skip(i as int).subrange(0, p@.len() as int) =~= s@.subrange(i as int, i + p@.len()));
        assert(s@.skip(i as int).skip(p@.len() as int) =~= s@.skip(i + p@.len()));
        assert(i + pv@.len() <= s@.len());
        i = i + pv.len();
    }
    proof {
        if pv@.len() > 0 {
            if starts(s@.skip(i as int), p@) {
                assert(s@.skip(i as int).subrange(0, p@.len() as int) =~= s@.subrange(i as int, i + p@.len()));
            }
        }
    }
    vstd::slice::slice_to_vec(vstd::slice::slice_subrange(s, i, s.len()))
}

/// The URL an `@import` line names.
pub fn extract_import_url(line: &[char]) -> (r: Option<String>)
    ensures
        opt_view(r) == import_url_spec(line@),
{
    let s0 = trim_chars(line);
    if !crate::text::starts_lit(s0.as_slice(), "@import") {
        return None;
    }
    let s1 = trim_chars(strip_prefix_repeated(s0.as_slice(), "@import").as_slice());
    let s = if s1.len() > 0 && s1[s1.len() - 1] == ';' {
        let t = vstd::slice::slice_subrange(s1.as_slice(), 0, s1.len() - 1);
        assert(t@ =~= s1@.drop_last());
        trim_chars(t)
    } else {
        s1
    };
    if crate::text::starts_lit(s.as_slice(), "url(") {
        proof {
            reveal_strlit("url(");
        }
        let rest = vstd::slice::slice_subrange(s.as_slice(), 4, s.len());
        assert(rest@ =~= s@.skip(4));
        let inner = trim_chars(rest);
        let pos = crate::text::find_char_from(inner.as_slice(), 0, ')');
        assert(inner@.skip(0) =~= inner@);
        if pos >= inner.len() {
            return None;
        }
        let head = vstd::slice::slice_subrange(inner.as_slice(), 0, pos);
        assert(head@ =~= inner@.take(pos as int));
        let v = trim_chars(
            crate::http::strip_char(crate::http::strip_char(trim_chars(head).as_slice(), '"').as_slice(), '\'').as_slice(),
        );
        if v.len() > 0 {
            Some(string_of(v.as_slice()))
        } else {
            None
        }
    } else {
        let ws = crate::text::split_whitespace(s.as_slice());
        let first = if ws.len() > 0 {
            assert(vviews(ws@)[0] == ws@[0]@);
            trim_chars(ws[0].as_slice())
        } else {
            let e: Vec<char> = Vec::new();
            assert(e@ =~= trim(Seq::<char>::empty())) by {
                crate::text::lemma_trim_len(Seq::<char>::empty());
            }
            e
        };
        let v = trim_chars(
            crate::http::strip_char(crate::http::strip_char(first.as_slice(), '"').as_slice(), '\'').as_slice(),
        );
        if v.len() > 0 {
            Some(string_of(v.as_slice()))
        } else {
            None
        }
    }
}

/// A line of a stylesheet whose `@import`s are being expanded.
pub enum CssLine {
    /// A line kept as it is.
    Keep(String),
    /// An `@import` of this URL, with the key that marks it as visited.
    Import(URL, String),
}

pub enum CssLineView {
    Keep(Seq<char>),
    Import(UrlView, Seq<char>),
}

impl View for CssLine {
    type V = CssLineView;

    open spec fn view(&self) -> CssLineView {
        match self {
            CssLine::Keep(l) => CssLineView::Keep(l@),
            CssLine::Import(u, k) => CssLineView::Import(u@, k@),
        }
    }
}

/// What becomes of a line: an `@import` of a usable URL is resolved
/// against the stylesheet's URL; an `@import` of any other URL is
/// dropped; other lines are kept.
pub open spec fn plan_line(base: UrlView, line: Seq<char>) -> Option<CssLineView> {
    match import_url_spec(line) {
        Some(href) => if usable_href(trim(href)) {
            let u = resolve_spec(base, trim(trim(href)));
            Some(CssLineView::Import(u, abs_string(u)))
        } else {
            None
        },
        None => Some(CssLineView::Keep(line)),
    }
}

/// The lines of a stylesheet, planned.
pub open spec fn plan_lines(base: UrlView, lines: Seq<Seq<char>>) -> Seq<CssLineView>
    decreases lines.len(),
{
    if lines.len() == 0 {
        Seq::empty()
    } else {
        plan_lines(base, lines.drop_last()) + match plan_line(base, lines.last()) {
            Some(x) => seq![x],
            None => Seq::empty(),
        }
    }
}

/// Every usable `@import` of the text can be resolved.
pub open spec fn imports_resolvable(base: UrlView, text: Seq<char>) -> bool {
    forall|i: int|
        0 <= i < crate::config::lines_of(text).len() ==> match #[trigger] import_url_spec(
            crate::config::lines_of(text)[i],
        ) {
            Some(href) => usable_href(trim(href)) ==> location_ok(base, trim(trim(href))),
            None => true,
        }
}

pub open spec fn css_views(v: Seq<CssLine>) -> Seq<CssLineView> {
    v.map_values(|x: CssLine| x@)
}

fn line_resolvable(base: &URL, line: &[char]) -> (r: bool)
    ensures
        r == match import_url_spec(line@) {
            Some(href) => usable_href(trim(href)) ==> location_ok(base@, trim(trim(href))),
            None => true,
        },
{
    match extract_import_url(line) {
        Some(href) => {
            let h = trim_chars(chars_of(href.as_str()).as_slice());
            if !crate::style::is_usable_href(h.as_slice()) {
                return true;
            }
            base.can_resolve(string_of(trim_chars(h.as_slice()).as_slice()).as_str())
        },
        None => true,
    }
}

/// Whether every usable `@import` of the text can be resolved.
pub fn css_imports_resolvable(base: &URL, css_text: &str) -> (r: bool)
    ensures
        r == imports_resolvable(base@, css_text@),
{
    let ls = crate::config::lines(chars_of(css_text).as_slice());
    let ghost lv = vviews(ls@);
    let mut i: usize = 0;
    while i < ls.len()
        invariant
            i <= ls@.len(),
            lv == vviews(ls@),
            lv == crate::config::lines_of(css_text@),
            forall|j: int| 0 <= j < i ==> match #[trigger] import_url_spec(lv[j]) {
                Some(href) => usable_href(trim(href)) ==> location_ok(base@, trim(trim(href))),
                None => true,
            },
        decreases ls@.len() - i,
    {
        assert(lv[i as int] == ls@[i as int]@);
        if !line_resolvable(base, ls[i].as_slice()) {
            return false;
        }
        i += 1;
    }
    true
}

/// The lines of a stylesheet with each usable `@import` resolved.
pub fn css_import_plan(base: &URL, css_text: &str) -> (r: Vec<CssLine>)
    requires
        imports_resolvable(base@, css_text@),
    ensures
        css_views(r@) == plan_lines(base@, crate::config::lines_of(css_text@)),
{
    let ls = crate::config::lines(chars_of(css_text).as_slice());
    let ghost lv = vviews(ls@);
    let mut out: Vec<CssLine> = Vec::new();
    let mut i: usize = 0;
    while i < ls.len()
        invariant
            i <= ls@.len(),
            lv == vviews(ls@),
            lv == crate::config::lines_of(css_text@),
            imports_resolvable(base@, css_text@),
            css_views(out@) == plan_lines(base@, lv.take(i as int)),
        decreases ls@.len() - i,
    {
        assert(lv[i as int] == ls@[i as int]@);
        assert(lv.take(i + 1).drop_last() =~= lv.take(i as int));
        assert(lv.take(i + 1).last() == lv[i as int]);
        let ghost before = css_views(out@);
        let line = ls[i].as_slice();
        match extract_import_url(line) {
            Some(href) => {
                let h = trim_chars(chars_of(href.as_str()).as_slice());
                if crate::style::is_usable_href(h.as_slice()) {
                    assert(match import_url_spec(lv[i as int]) {
                        Some(href) => usable_href(trim(href)) ==> location_ok(base@, trim(trim(href))),
                        None => true,
                    });
                    let hs = string_of(h.as_slice());
                    let u = normalize_against(base, hs.as_str());
                    let key = url_to_abs_string(&u);
                    let item = CssLine::Import(u, key);
                    out.push(item);
                    assert(css_views(out@) =~= before.push(item@));
                } else {
                    assert(css_views(out@) =~= before + Seq::<CssLineView>::empty());
                }
            },
            None => {
                let item = CssLine::Keep(string_of(line));
                out.push(item);
                assert(css_views(out@) =~= before.push(item@));
            },
        }
        i += 1;
    }
    assert(lv.take(i as int) =~= lv);
    out
}

// ---------------------------------------------------------------------
// The document's text and charset.
// ---------------------------------------------------------------------

/// The charset a page's text is decoded with: the `Content-Type`'s, else
/// the one the document declares, else UTF-8.
pub open spec fn page_charset_spec(ct: Option<Seq<char>>, body: Seq<u8>) -> Seq<char> {
    match charset_spec(ct) {
        Some(c) => c,
        None => match crate::html::charset_dv(crate::html::parse_spec(utf8_lossy(body))) {
            Some(c) => c,
            None => "utf-8"@,
        },
    }
}

pub fn page_charset(response: &Response) -> (r: String)
    ensures
        r@ == page_charset_spec(opt_view(response.content_type), response.body@),
{
    match response.charset_from_header() {
        Some(c) => c,
        None => {
            let temp_dom = crate::html::parse(response.body_text_lossy());
            proof {
                crate::html::lemma_charset_dv(temp_dom);
            }
            match crate::html::extract_charset(&temp_dom) {
                Some(c) => c,
                None => String::from_str("utf-8"),
            }
        },
    }
}

/// The text of a page: its body decoded in the charset `page_charset`
/// chooses (UTF-8 when that names no encoding).
pub fn page_text(response: &Response) -> (r: String)
    requires
        response.body@.len() <= usize::MAX / 4,
    ensures
        r@ == match label_decoded(page_charset_spec(opt_view(response.content_type), response.body@), response.body@) {
            Some(t) => t,
            None => utf8_decoded(response.body@),
        },
{
    let charset = page_charset(response);
    response.body_text_with_charset(charset.as_str())
}

/// The stylesheet text of a page before its linked stylesheets: the user
/// agent's, a line break, then the `<style>` text.
pub fn page_style_text(ua_css: &str, dom: &Node) -> (r: String)
    requires
        dom.wf(),
    ensures
        r@ == ua_css@ + seq!['\n'] + style_text(dom.dv()),
{
    let mut css = String::from_str(ua_css);
    css.append("\n");
    proof {
        reveal_strlit("\n");
    }
    extract_style_text(dom, &mut css);
    css
}

// ---------------------------------------------------------------------
// Images.
// ---------------------------------------------------------------------

/// The texts with each repeat after its first occurrence removed.
pub open spec fn dedup(s: Seq<Seq<char>>) -> Seq<Seq<char>>
    decreases s.len(),
{
    if s.len() == 0 {
        Seq::empty()
    } else {
        let d = dedup(s.drop_last());
        if d.contains(s.last()) {
            d
        } else {
            d.push(s.last())
        }
    }
}

/// The cache keys of the non-blank image sources: each resolved against
/// the page.
pub open spec fn keys_of(base: UrlView, srcs: Seq<Seq<char>>) -> Seq<Seq<char>>
    decreases srcs.len(),
{
    if srcs.len() == 0 {
        Seq::empty()
    } else {
        let prev = keys_of(base, srcs.drop_last());
        if trim(srcs.last()).len() > 0 {
            prev.push(abs_string(resolve_spec(base, trim(trim(srcs.last())))))
        } else {
            prev
        }
    }
}

/// The distinct cache keys of image sources, in order.
pub open spec fn image_keys_spec(base: UrlView, srcs: Seq<Seq<char>>) -> Seq<Seq<char>> {
    dedup(keys_of(base, srcs))
}

proof fn lemma_dedup(s: Seq<Seq<char>>)
    ensures
        dedup(s).no_duplicates(),
        forall|x: Seq<char>| dedup(s).contains(x) <==> s.contains(x),
    decreases s.len(),
{
    if s.len() > 0 {
        let t = s.drop_last();
        lemma_dedup(t);
        let d = dedup(t);
        assert forall|x: Seq<char>| s.contains(x) <==> (t.contains(x) || x == s.last()) by {
            if s.contains(x) {
                let i = choose|i: int| 0 <= i < s.len() && s[i] == x;
                if i < s.len() - 1 {
                    assert(t[i] == x);
                }
            }
            if t.contains(x) {
                let i = choose|i: int| 0 <= i < t.len() && t[i] == x;
                assert(s[i] == x);
            }
            if x == s.last() {
                assert(s[s.len() - 1] == x);
            }
        }
        if !d.contains(s.last()) {
            let e = d.push(s.last());
            assert forall|x: Seq<char>| e.contains(x) <==> (d.contains(x) || x == s.last()) by {
                if e.contains(x) {
                    let i = choose|i: int| 0 <= i < e.len() && e[i] == x;
                    if i < d.len() {
                        assert(d[i] == x);
                    }
                }
                if d.contains(x) {
                    let i = choose|i: int| 0 <= i < d.len() && d[i] == x;
                    assert(e[i] == x);
                }
                if x == s.last() {
                    assert(e[d.len() as int] == x);
                }
            }
            assert forall|i: int, j: int| 0 <= i < e.len() && 0 <= j < e.len() && i != j implies e[i]
                != e[j] by {
                if i < d.len() && j < d.len() {
                    assert(e[i] == d[i] && e[j] == d[j]);
                } else if i < d.len() {
                    assert(e[i] == d[i]);
                } else if j < d.len() {
                    assert(e[j] == d[j]);
                }
            }
        }
    }
}

/// Each image is asked for once: the keys of a page's images are
/// distinct, and a key is among them exactly when some non-blank image
/// source of the page resolves to it.
pub proof fn lemma_image_keys_distinct(base: UrlView, srcs: Seq<Seq<char>>)
    ensures
        image_keys_spec(base, srcs).no_duplicates(),
        forall|k: Seq<char>| #[trigger] image_keys_spec(base, srcs).contains(k) <==> keys_of(base, srcs).contains(k),
{
    lemma_dedup(keys_of(base, srcs));
}

/// Every image source of the document can be resolved.
pub open spec fn images_resolvable(base: UrlView, d: DomView) -> bool {
    forall|i: int|
        0 <= i < preorder(d, img_pick()).len() ==> location_ok(
            base,
            trim(trim(#[trigger] preorder(d, img_pick())[i])),
        )
}

/// How many levels of `@import` are followed.
pub const MAX_CSS_IMPORT_DEPTH: usize = 10;

/// Whether imports are still followed at this depth.
pub fn import_depth_allows(depth: usize) -> (r: bool)
    ensures
        r == (depth <= MAX_CSS_IMPORT_DEPTH),
{
    depth <= MAX_CSS_IMPORT_DEPTH
}

/// Marks a style sheet as visited: true, with the key added, the first
/// time a key is seen; false, with nothing changed, after that.
pub fn first_visit(visited: &mut Vec<String>, key: String) -> (r: bool)
    ensures
        r == !strs_view(old(visited)@).contains(key@),
        strs_view(final(visited)@) == (if r {
            strs_view(old(visited)@).push(key@)
        } else {
            strs_view(old(visited)@)
        }),
{
    if contains_str(visited, &key) {
        false
    } else {
        let ghost before = visited@;
        let ghost k = key@;
        visited.push(key);
        assert(strs_view(visited@) =~= strs_view(before).push(k));
        true
    }
}

/// Whether a fetched style sheet is expanded in place of its `@import`:
/// the request reached the server, the body is not empty, the status is a
/// success (2xx) and the content type is CSS.
pub fn import_response_usable(resp: &Response) -> (r: bool)
    ensures
        r == (resp.status_code != 0 && resp.body@.len() > 0 && 200 <= resp.status_code < 300 && css_type(
            opt_view(resp.content_type),
        )),
{
    resp.status_code != 0 && resp.body.len() > 0 && 200 <= resp.status_code && resp.status_code < 300
        && is_css_content_type(&resp.content_type)
}

fn contains_str(v: &Vec<String>, s: &String) -> (r: bool)
    ensures
        r == strs_view(v@).contains(s@),
{
    let sc = chars_of(s.as_str());
    let mut i: usize = 0;
    while i < v.len()
        invariant
            i <= v@.len(),
            sc@ == s@,
            forall|j: int| 0 <= j < i ==> v@[j]@ != s@,
        decreases v@.len() - i,
    {
        assert(strs_view(v@)[i as int] == v@[i as int]@);
        if crate::text::eq_chars(chars_of(v[i].as_str()).as_slice(), sc.as_slice()) {
            assert(strs_view(v@)[i as int] == s@);
            return true;
        }
        i += 1;
    }
    assert forall|j: int| 0 <= j < strs_view(v@).len() implies strs_view(v@)[j] != s@ by {
        assert(strs_view(v@)[j] == v@[j]@);
    }
    false
}

/// The distinct cache keys of the images of a document, in document
/// order.
pub fn image_keys(url: &URL, dom: &Node) -> (r: Vec<String>)
    requires
        dom.wf(),
        images_resolvable(url@, dom.dv()),
    ensures
        strs_view(r@) == image_keys_spec(url@, preorder(dom.dv(), img_pick())),
{
    let mut srcs: Vec<String> = Vec::new();
    extract_img_srcs(dom, &mut srcs);
    let ghost sv = strs_view(srcs@);
    assert(sv =~= preorder(dom.dv(), img_pick()));
    let mut keys: Vec<String> = Vec::new();
    let mut i: usize = 0;
    while i < srcs.len()
        invariant
            i <= srcs@.len(),
            sv == strs_view(srcs@),
            sv == preorder(dom.dv(), img_pick()),
            images_resolvable(url@, dom.dv()),
            strs_view(keys@) == keys_of(url@, sv.take(i as int)),
        decreases srcs@.len() - i,
    {
        assert(sv[i as int] == srcs@[i as int]@);
        assert(location_ok(url@, trim(trim(sv[i as int]))));
        assert(sv.take(i + 1).drop_last() =~= sv.take(i as int));
        assert(sv.take(i + 1).last() == sv[i as int]);
        let ghost before = strs_view(keys@);
        match normalized_key_against(url, srcs[i].as_str()) {
            Some(key) => {
                keys.push(key);
                assert(strs_view(keys@) =~= before.push(key@));
            },
            None => {},
        }
        i += 1;
    }
    assert(sv.take(i as int) =~= sv);
    let mut seen: Vec<String> = Vec::new();
    let mut j: usize = 0;
    let ghost kv = strs_view(keys@);
    while j < keys.len()
        invariant
            j <= keys@.len(),
            kv == strs_view(keys@),
            strs_view(seen@) == dedup(kv.take(j as int)),
        decreases keys@.len() - j,
    {
        assert(kv.take(j + 1).drop_last() =~= kv.take(j as int));
        assert(kv.take(j + 1).last() == keys@[j as int]@);
        if !contains_str(&seen, &keys[j]) {
            let ghost before = strs_view(seen@);
            let k = keys[j].clone();
            seen.push(k);
            assert(strs_view(seen@) =~= before.push(kv[j as int]));
        }
        j += 1;
    }
    assert(kv.take(j as int) =~= kv);
    seen
}

/// What layout asks of the images it places: the cache key of a source,
/// and the natural size cached under a key.
pub trait ImageSizeProvider {
    /// The key (the absolute URL) that a source is cached under.
    fn normalize_src_key(&self, src: &str) -> Option<String>;

    /// The natural size cached under a key.
    fn natural_size_px(&self, key: &str) -> Option<(u32, u32)>;
}

/// The size cached under a key: the first entry with that key.
pub open spec fn size_lookup(s: Seq<(Seq<char>, u32, u32)>, k: Seq<char>) -> Option<(u32, u32)>
    decreases s.len(),
{
    if s.len() == 0 {
        None
    } else if s[0].0 == k {
        Some((s[0].1, s[0].2))
    } else {
        size_lookup(s.drop_first(), k)
    }
}

/// The natural sizes of a page's images, by key.
pub struct ImageCache {
    base_url: URL,
    sizes: Vec<(String, u32, u32)>,
}

impl ImageCache {
    /// The page the sources are resolved against.
    pub closed spec fn base_view(&self) -> UrlView {
        self.base_url@
    }

    pub closed spec fn entries(&self) -> Seq<(Seq<char>, u32, u32)> {
        self.sizes@.map_values(|e: (String, u32, u32)| (e.0@, e.1, e.2))
    }

    /// The size cached under a key.
    pub open spec fn size_of(&self, k: Seq<char>) -> Option<(u32, u32)> {
        size_lookup(self.entries(), k)
    }

    pub fn new(base_url: URL) -> (r: Self)
        ensures
            r.base_view() == base_url@,
            forall|k: Seq<char>| r.size_of(k) is None,
    {
        let r = ImageCache { base_url, sizes: Vec::new() };
        assert(r.entries() =~= Seq::<(Seq<char>, u32, u32)>::empty());
        r
    }

    fn find_key(&self, k: &[char]) -> (r: Option<usize>)
        ensures
            r matches Some(i) ==> i < self.entries().len() && self.entries()[i as int].0 == k@ && forall|j: int|
                0 <= j < i ==> self.entries()[j].0 != k@,
            r is None ==> forall|j: int| 0 <= j < self.entries().len() ==> self.entries()[j].0 != k@,
    {
        let ghost e = self.entries();
        let mut i: usize = 0;
        while i < self.sizes.len()
            invariant
                i <= self.sizes@.len(),
                e == self.entries(),
                e.len() == self.sizes@.len(),
                forall|j: int| 0 <= j < i ==> e[j].0 != k@,
            decreases self.sizes@.len() - i,
        {
            assert(e[i as int] == (self.sizes@[i as int].0@, self.sizes@[i as int].1, self.sizes@[i as int].2));
            if crate::text::eq_chars(chars_of(self.sizes[i].0.as_str()).as_slice(), k) {
                return Some(i);
            }
            i += 1;
        }
        None
    }

    /// Caches the size of the image under `key`.
    pub fn insert_size(&mut self, key: String, w: u32, h: u32)
        ensures
            final(self).base_view() == old(self).base_view(),
            final(self).size_of(key@) == Some((w, h)),
            forall|k: Seq<char>| k != key@ ==> final(self).size_of(k) == old(self).size_of(k),
    {
        let kc = chars_of(key.as_str());
        let ghost e = self.entries();
        match self.find_key(kc.as_slice()) {
            Some(i) => {
                self.sizes.set(i, (key, w, h));
                proof {
                    let n = self.entries();
                    assert(n =~= e.update(i as int, (key@, w, h)));
                    assert forall|k: Seq<char>| true implies #[trigger] size_lookup(n, k) == (if k == key@ {
                        Some((w, h))
                    } else {
                        size_lookup(e, k)
                    }) by {
                        lemma_lookup_update(e, i as int, key@, w, h, k);
                    }
                }
            },
            None => {
                self.sizes.push((key, w, h));
                proof {
                    let n = self.entries();
                    assert(n =~= e.push((key@, w, h)));
                    assert forall|k: Seq<char>| true implies #[trigger] size_lookup(n, k) == (if k == key@ {
                        Some((w, h))
                    } else {
                        size_lookup(e, k)
                    }) by {
                        lemma_lookup_push(e, key@, w, h, k);
                    }
                }
            },
        }
    }
}

proof fn lemma_lookup_first(e: Seq<(Seq<char>, u32, u32)>, i: int, k: Seq<char>)
    requires
        0 <= i < e.len(),
        e[i].0 == k,
        forall|j: int| 0 <= j < i ==> e[j].0 != k,
    ensures
        size_lookup(e, k) == Some((e[i].1, e[i].2)),
    decreases i,
{
    if i > 0 {
        lemma_lookup_first(e.drop_first(), i - 1, k);
    }
}

proof fn lemma_lookup_absent(e: Seq<(Seq<char>, u32, u32)>, k: Seq<char>)
    requires
        forall|j: int| 0 <= j < e.len() ==> e[j].0 != k,
    ensures
        size_lookup(e, k) is None,
    decreases e.len(),
{
    if e.len() > 0 {
        lemma_lookup_absent(e.drop_first(), k);
    }
}

proof fn lemma_lookup_update(e: Seq<(Seq<char>, u32, u32)>, i: int, key: Seq<char>, w: u32, h: u32, k: Seq<char>)
    requires
        0 <= i < e.len(),
        e[i].0 == key,
        forall|j: int| 0 <= j < i ==> e[j].0 != key,
    ensures
        size_lookup(e.update(i, (key, w, h)), k) == (if k == key {
            Some((w, h))
        } else {
            size_lookup(e, k)
        }),
    decreases i,
{
    let n = e.update(i, (key, w, h));
    if i > 0 {
        assert(n[0] == e[0]);
        assert(n.drop_first() =~= e.drop_first().update(i - 1, (key, w, h)));
        lemma_lookup_update(e.drop_first(), i - 1, key, w, h, k);
    } else {
        assert(n.drop_first() =~= e.drop_first());
    }
}

proof fn lemma_lookup_push(e: Seq<(Seq<char>, u32, u32)>, key: Seq<char>, w: u32, h: u32, k: Seq<char>)
    requires
        forall|j: int| 0 <= j < e.len() ==> e[j].0 != key,
    ensures
        size_lookup(e.push((key, w, h)), k) == (if k == key {
            Some((w, h))
        } else {
            size_lookup(e, k)
        }),
    decreases e.len(),
{
    let n = e.push((key, w, h));
    if e.len() > 0 {
        assert(n[0] == e[0]);
        assert(n.drop_first() =~= e.drop_first().push((key, w, h)));
        assert forall|j: int| 0 <= j < e.drop_first().len() implies e.drop_first()[j].0 != key by {
            assert(e.drop_first()[j] == e[j + 1]);
        }
        lemma_lookup_push(e.drop_first(), key, w, h, k);
        assert(e[0].0 != key);
        if e[0].0 == k {
            assert(size_lookup(n, k) == Some((e[0].1, e[0].2)));
            assert(size_lookup(e, k) == Some((e[0].1, e[0].2)));
        } else {
            assert(size_lookup(n, k) == size_lookup(n.drop_first(), k));
            assert(size_lookup(e, k) == size_lookup(e.drop_first(), k));
        }
    } else {
        assert(n[0] == (key, w, h));
        assert(n.drop_first() =~= Seq::<(Seq<char>, u32, u32)>::empty());
        assert(size_lookup(n.drop_first(), k) is None);
        assert(size_lookup(e, k) is None);
    }
}

impl ImageSizeProvider for ImageCache {
    /// The cache key of a non-blank source; `None` for a blank one, or one
    /// that cannot be resolved against the page.
    fn normalize_src_key(&self, src: &str) -> (r: Option<String>)
        ensures
            trim(src@).len() > 0 && location_ok(self.base_view(), trim(trim(src@))) ==> (r matches Some(k)
                && k@ == abs_string(resolve_spec(self.base_view(), trim(trim(src@))))),
            trim(src@).len() == 0 ==> r is None,
    {
        let s = trim_chars(chars_of(src).as_slice());
        if s.len() == 0 {
            return None;
        }
        let st = string_of(s.as_slice());
        proof {
            crate::text::lemma_trim_idem(src@);
        }
        if !self.base_url.can_resolve(string_of(trim_chars(s.as_slice()).as_slice()).as_str()) {
            return None;
        }
        normalized_key_against(&self.base_url, st.as_str())
    }

    fn natural_size_px(&self, key: &str) -> (r: Option<(u32, u32)>)
        ensures
            r == self.size_of(key@),
    {
        let kc = chars_of(key);
        match self.find_key(kc.as_slice()) {
            Some(i) => {
                proof {
                    lemma_lookup_first(self.entries(), i as int, key@);
                    assert(self.entries()[i as int] == (self.sizes@[i as int].0@, self.sizes@[i as int].1, self.sizes@[i as int].2));
                }
                Some((self.sizes[i].1, self.sizes[i].2))
            },
            None => {
                proof {
                    lemma_lookup_absent(self.entries(), key@);
                }
                None
            },
        }
    }
}

// ---------------------------------------------------------------------
// Form submission.
// ---------------------------------------------------------------------

/// Bytes sent as they are.
pub open spec fn unreserved(b: u8) -> bool {
    (65 <= b <= 90) || (97 <= b <= 122) || (48 <= b <= 57) || b == 45 || b == 95 || b == 46 || b == 42
}

/// An upper-case hexadecimal digit.
pub open spec fn hex_digit_upper(v: int) -> char {
    if v < 10 {
        ((48 + v) as u8) as char
    } else {
        ((55 + v) as u8) as char
    }
}

/// A byte in a form body: itself, `+` for a space, `%XX` otherwise.
pub open spec fn enc_byte(b: u8) -> Seq<char> {
    if unreserved(b) {
        seq![b as char]
    } else if b == 32 {
        seq!['+']
    } else {
        seq!['%', hex_digit_upper(b as int / 16), hex_digit_upper(b as int % 16)]
    }
}

pub open spec fn enc_bytes(bs: Seq<u8>) -> Seq<char>
    decreases bs.len(),
{
    if bs.len() == 0 {
        Seq::empty()
    } else {
        enc_bytes(bs.drop_last()) + enc_byte(bs.last())
    }
}

/// A name or value encoded for a form body, byte by byte of its UTF-8.
pub open spec fn form_component(s: Seq<char>) -> Seq<char> {
    enc_bytes(utf8_bytes(s))
}

/// `name=value` pairs joined by `&`.
pub open spec fn encode_fields_spec(f: Seq<FieldView>) -> Seq<char> {
    join(f.map_values(|x: FieldView| form_component(x.0) + seq!['='] + form_component(x.1)), seq!['&'])
}

fn hex_upper(v: u8) -> (r: char)
    requires
        v < 16,
    ensures
        r == hex_digit_upper(v as int),
{
    if v < 10 {
        (48u8 + v) as char
    } else {
        (55u8 + v) as char
    }
}

pub fn percent_encode_form_component(value: &str) -> (r: String)
    ensures
        r@ == form_component(value@),
{
    let bytes = crate::image::bytes_of(value);
    let mut out: Vec<char> = Vec::new();
    let mut i: usize = 0;
    while i < bytes.len()
        invariant
            i <= bytes@.len(),
            out@ == enc_bytes(bytes@.take(i as int)),
        decreases bytes@.len() - i,
    {
        let b = bytes[i];
        assert(bytes@.take(i + 1).drop_last() =~= bytes@.take(i as int));
        assert(bytes@.take(i + 1).last() == b);
        let ghost before = out@;
        if (65 <= b && b <= 90) || (97 <= b && b <= 122) || (48 <= b && b <= 57) || b == 45 || b == 95 || b
            == 46 || b == 42 {
            out.push(b as char);
        } else if b == 32 {
            out.push('+');
        } else {
            out.push('%');
            out.push(hex_upper(b / 16));
            out.push(hex_upper(b % 16));
        }
        assert(out@ =~= before + enc_byte(b));
        i += 1;
    }
    assert(bytes@.take(i as int) =~= bytes@);
    string_of(out.as_slice())
}

pub fn encode_form_fields(fields: &[FormField]) -> (r: String)
    ensures
        r@ == encode_fields_spec(fields_view(fields@)),
{
    let mut parts: Vec<Vec<char>> = Vec::new();
    let ghost fv = fields_view(fields@);
    let ghost pv = fv.map_values(|x: FieldView| form_component(x.0) + seq!['='] + form_component(x.1));
    let mut i: usize = 0;
    while i < fields.len()
        invariant
            i <= fields@.len(),
            fv == fields_view(fields@),
            pv == fv.map_values(|x: FieldView| form_component(x.0) + seq!['='] + form_component(x.1)),
            vviews(parts@) == pv.take(i as int),
        decreases fields@.len() - i,
    {
        let mut p = chars_of(percent_encode_form_component(fields[i].name.as_str()).as_str());
        p.push('=');
        append_chars(&mut p, chars_of(percent_encode_form_component(fields[i].value.as_str()).as_str()).as_slice());
        let ghost before = vviews(parts@);
        assert(p@ =~= pv[i as int]);
        parts.push(p);
        assert(vviews(parts@) =~= before.push(pv[i as int]));
        assert(pv.take(i + 1) =~= pv.take(i as int).push(pv[i as int]));
        i += 1;
    }
    assert(pv.take(i as int) =~= pv);
    let sep: [char; 1] = ['&'];
    assert(sep@ =~= seq!['&']);
    string_of(crate::text::join_chars(&parts, sep.as_slice()).as_slice())
}

/// Where a form submission leads: only `get` is supported; the action
/// resolved against the page (the page itself without one), the encoded
/// fields added as a query (after `&` when the path has one already).
pub open spec fn submission_spec(base: UrlView, s: FormView) -> Option<UrlView> {
    if !eq_ic(s.method, "get"@) {
        None
    } else {
        let target = match s.action {
            Some(a) => resolve_spec(base, a),
            None => base,
        };
        let q = encode_fields_spec(s.fields);
        if q.len() == 0 {
            Some(target)
        } else {
            Some(
                with_path(
                    target,
                    target.path + seq![
                        if target.path.contains('?') {
                            '&'
                        } else {
                            '?'
                        },
                    ] + q,
                ),
            )
        }
    }
}

/// The action of a `get` submission can be resolved.
pub open spec fn submission_ok(base: UrlView, s: FormView) -> bool {
    eq_ic(s.method, "get"@) ==> match s.action {
        Some(a) => location_ok(base, a),
        None => true,
    }
}

pub fn form_submission_url(base_url: &URL, submit: &FormSubmit) -> (r: Option<URL>)
    requires
        submission_ok(base_url@, submit_view(*submit)),
    ensures
        match r {
            Some(u) => submission_spec(base_url@, submit_view(*submit)) == Some(u@),
            None => submission_spec(base_url@, submit_view(*submit)) is None,
        },
{
    if !eq_ignore_case_lit(chars_of(submit.method.as_str()).as_slice(), "get") {
        return None;
    }
    let mut target = match &submit.action {
        Some(action) => base_url.resolve_location(action.as_str()),
        None => base_url.clone(),
    };
    let query = chars_of(encode_form_fields(submit.fields.as_slice()).as_str());
    let ghost t0 = target@;
    if query.len() > 0 {
        let mut path = chars_of(target.path.as_str());
        let sep = if crate::text::has_char(path.as_slice(), '?') {
            '&'
        } else {
            '?'
        };
        path.push(sep);
        append_chars(&mut path, query.as_slice());
        assert(path@ =~= t0.path + seq![sep] + query@);
        target.path = string_of(path.as_slice());
        assert(target@ == with_path(t0, t0.path + seq![sep] + query@));
    }
    Some(target)
}

} // verus!
