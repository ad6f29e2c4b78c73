//! CSS parser: rules made of comma-separated selectors and declarations,
//! with comments, at-rules and the `border` / `list-style` shorthands.
use vstd::prelude::*;

use crate::text::{
    at, chars_of, first_of, ne_pred, eq_ic, eq_ignore_case_lit, ends, ends_lit, is_whitespace, is_alphanumeric,
    lemma_span_is, lemma_span_le, lower, matches_lit_at, span, split_whitespace, string_of,
    to_ascii_lower, trim, trim_bounds, unicode_alnum, vviews, words, ws_pred, is_ws, is_ascii_alpha,
    lemma_rspan_is, lemma_trim_idem, lemma_trim_range, lemma_rspan_le, not_ws_pred, rspan,
    trim_start, lower_char,
};

verus! {

/// A declaration `name: value` as plain text.
pub type DeclView = (Seq<char>, Seq<char>);

/// A rule as plain text.
pub struct RuleView {
    pub selectors: Seq<Seq<char>>,
    pub declarations: Seq<DeclView>,
}

pub struct Stylesheet {
    pub rules: Vec<Rule>,
}

pub struct Rule {
    pub selectors: Vec<Selector>,
    pub declarations: Vec<Declaration>,
}

pub struct Selector {
    pub simple: String,
}

pub struct Declaration {
    pub name: String,
    pub value: String,
}

impl View for Declaration {
    type V = DeclView;

    open spec fn view(&self) -> DeclView {
        (self.name@, self.value@)
    }
}

pub open spec fn decls_view(d: Seq<Declaration>) -> Seq<DeclView> {
    d.map_values(|x: Declaration| x@)
}

pub open spec fn sels_view(d: Seq<Selector>) -> Seq<Seq<char>> {
    d.map_values(|x: Selector| x.simple@)
}

impl View for Rule {
    type V = RuleView;

    open spec fn view(&self) -> RuleView {
        RuleView { selectors: sels_view(self.selectors@), declarations: decls_view(self.declarations@) }
    }
}

pub open spec fn rules_view(d: Seq<Rule>) -> Seq<RuleView> {
    d.map_values(|x: Rule| x@)
}

impl View for Stylesheet {
    type V = Seq<RuleView>;

    open spec fn view(&self) -> Seq<RuleView> {
        rules_view(self.rules@)
    }
}

impl Default for Stylesheet {
    fn default() -> (r: Self)
        ensures
            r@ == Seq::<RuleView>::empty(),
    {
        let r = Stylesheet { rules: Vec::new() };
        assert(r@ =~= Seq::<RuleView>::empty());
        r
    }
}

// ---------------------------------------------------------------------
// The grammar, as functions of the input `s` and a position `p`.
// ---------------------------------------------------------------------

pub open spec fn open_comment() -> Seq<char> {
    seq!['/', '*']
}

pub open spec fn close_comment() -> Seq<char> {
    seq!['*', '/']
}

/// The end of the white space that starts at `p`.
pub open spec fn ws_end(s: Seq<char>, p: int) -> int {
    p + span(s.skip(p), ws_pred())
}

/// The position after the `*/` that closes a comment whose body starts at
/// `p`, or the end of the input.
pub open spec fn comment_close(s: Seq<char>, p: int) -> int
    decreases s.len() - p,
{
    if p >= s.len() {
        p
    } else if at(s, p, close_comment()) {
        p + 2
    } else {
        comment_close(s, p + 1)
    }
}

/// Skips white space and comments from `p`.
pub open spec fn skip_wsc(s: Seq<char>, p: int) -> int
    decreases s.len() - p,
{
    if 0 <= p <= s.len() {
        let q = ws_end(s, p);
        proof {
            lemma_ws_end(s, p);
        }
        if at(s, q, open_comment()) {
            proof {
                lemma_comment_close(s, q + 2);
            }
            skip_wsc(s, comment_close(s, q + 2))
        } else {
            q
        }
    } else {
        p
    }
}

/// The `;` or `{` that ends the prelude of an at-rule, or the end of input.
pub open spec fn at_rule_head(s: Seq<char>, p: int) -> int
    decreases s.len() - p,
{
    if p < 0 || p >= s.len() || s[p] == ';' || s[p] == '{' {
        p
    } else if at(s, p, open_comment()) {
        proof {
            lemma_skip_wsc_comment(s, p);
        }
        at_rule_head(s, skip_wsc(s, p))
    } else {
        at_rule_head(s, p + 1)
    }
}

/// The end of a `{}` block body whose nesting depth at `p` is `depth`.
pub open spec fn block_end(s: Seq<char>, p: int, depth: int) -> int
    decreases s.len() - p,
{
    if p < 0 || p >= s.len() || depth <= 0 {
        p
    } else if at(s, p, open_comment()) {
        proof {
            lemma_skip_wsc_comment(s, p);
        }
        block_end(s, skip_wsc(s, p), depth)
    } else {
        let c = s[p];
        block_end(
            s,
            p + 1,
            if c == '{' {
                depth + 1
            } else if c == '}' {
                depth - 1
            } else {
                depth
            },
        )
    }
}

/// Skips an at-rule that starts at `p`: its prelude and then either the
/// `;` or the whole `{}` block.
pub open spec fn at_rule_end(s: Seq<char>, p: int) -> int {
    let q = at_rule_head(s, p);
    if q < 0 || q >= s.len() {
        q
    } else if s[q] == ';' {
        q + 1
    } else {
        block_end(s, q + 1, 1)
    }
}

/// Skips what follows an unparsable rule: up to and including the next
/// `{`, `}` or `;`.
pub open spec fn recover_end(s: Seq<char>, p: int) -> int
    decreases s.len() - p,
{
    if p < 0 || p >= s.len() {
        p
    } else if at(s, p, open_comment()) {
        proof {
            lemma_skip_wsc_comment(s, p);
        }
        recover_end(s, skip_wsc(s, p))
    } else if s[p] == '{' || s[p] == '}' || s[p] == ';' {
        p + 1
    } else {
        recover_end(s, p + 1)
    }
}

/// Skips a declaration that could not be parsed: up to and including the
/// next `;`, or up to the next `}`.
pub open spec fn bad_decl_end(s: Seq<char>, p: int) -> int
    decreases s.len() - p,
{
    if p < 0 || p >= s.len() {
        p
    } else if at(s, p, open_comment()) {
        proof {
            lemma_skip_wsc_comment(s, p);
        }
        bad_decl_end(s, skip_wsc(s, p))
    } else if s[p] == ';' {
        p + 1
    } else if s[p] == '}' {
        p
    } else {
        bad_decl_end(s, p + 1)
    }
}

pub open spec fn sel_pred() -> spec_fn(char) -> bool {
    |c: char| c != '{' && c != '\0'
}

pub open spec fn name_pred() -> spec_fn(char) -> bool {
    |c: char| unicode_alnum(c) || c == '-' || c == '_'
}

/// The trimmed, non-empty pieces of `t` between commas.
pub open spec fn sel_pieces(t: Seq<char>) -> Seq<Seq<char>>
    decreases t.len(),
{
    let i = first_of(t, ',');
    let piece = trim(t.take(i as int));
    let head: Seq<Seq<char>> = if piece.len() > 0 {
        seq![piece]
    } else {
        Seq::empty()
    };
    if i < t.len() {
        proof {
            lemma_span_le(t, ne_pred(','));
        }
        head + sel_pieces(t.skip(i as int + 1))
    } else {
        head
    }
}

/// The selectors of a rule prelude: the trimmed, non-empty pieces between
/// commas.
pub open spec fn selectors_of(raw: Seq<char>) -> Seq<Seq<char>> {
    sel_pieces(trim(raw))
}

/// The text of a declaration value from `p`: comments are dropped, and it
/// ends at a `;` or `}` outside parentheses.  Returns the text and the end.
pub open spec fn value_scan(s: Seq<char>, p: int, up: int, down: int) -> (Seq<char>, int)
    decreases s.len() - p,
{
    if p < 0 || p >= s.len() {
        (Seq::empty(), p)
    } else if at(s, p, open_comment()) {
        proof {
            lemma_skip_wsc_comment(s, p);
        }
        value_scan(s, skip_wsc(s, p), up, down)
    } else {
        let c = s[p];
        if c == '(' {
            let r = value_scan(s, p + 1, up + 1, down);
            (seq![c] + r.0, r.1)
        } else if c == ')' {
            let r = value_scan(s, p + 1, up, down + 1);
            (seq![c] + r.0, r.1)
        } else if up == down && (c == ';' || c == '}') {
            (Seq::empty(), p)
        } else {
            let r = value_scan(s, p + 1, up, down);
            (seq![c] + r.0, r.1)
        }
    }
}

/// Widths and colours picked from the tokens of a `border` value.
pub open spec fn border_scan(tokens: Seq<Seq<char>>, width: Option<Seq<char>>, color: Option<
    Seq<char>,
>) -> (Option<Seq<char>>, Option<Seq<char>>)
    decreases tokens.len(),
{
    if tokens.len() == 0 {
        (width, color)
    } else {
        let t = tokens[0];
        let rest = tokens.drop_first();
        if ends(t, "px"@) && width is None {
            border_scan(rest, Some(t), color)
        } else if eq_ic(t, "solid"@) {
            border_scan(rest, width, color)
        } else if color is None {
            border_scan(rest, width, Some(t))
        } else {
            border_scan(rest, width, color)
        }
    }
}

/// `border: <width>px solid <color>` as `border-width` and `border-color`.
pub open spec fn expand_border(value: Seq<char>) -> Seq<DeclView> {
    let (w, c) = border_scan(words(value), None, None);
    let a: Seq<DeclView> = match w {
        Some(w) => seq![("border-width"@, w)],
        None => Seq::empty(),
    };
    let b: Seq<DeclView> = match c {
        Some(c) => seq![("border-color"@, c)],
        None => Seq::empty(),
    };
    if a.len() + b.len() == 0 {
        seq![("border"@, value)]
    } else {
        a + b
    }
}

pub open spec fn is_list_style_type(t: Seq<char>) -> bool {
    let l = lower(t);
    l == "none"@ || l == "disc"@ || l == "circle"@ || l == "square"@ || l == "decimal"@
}

/// The declarations that the tokens of a `list-style` value give.
pub open spec fn list_style_scan(tokens: Seq<Seq<char>>) -> Seq<DeclView>
    decreases tokens.len(),
{
    if tokens.len() == 0 {
        Seq::empty()
    } else {
        let t = tokens[0];
        let rest = list_style_scan(tokens.drop_first());
        if is_list_style_type(t) {
            seq![("list-style-type"@, lower(t))] + rest
        } else if lower(t) == "inside"@ || lower(t) == "outside"@ {
            seq![("list-style-position"@, lower(t))] + rest
        } else {
            rest
        }
    }
}

pub open spec fn expand_list_style(value: Seq<char>) -> Seq<DeclView> {
    let d = list_style_scan(words(value));
    if d.len() == 0 {
        seq![("list-style"@, value)]
    } else {
        d
    }
}

/// The declarations that `name: value` stands for.
pub open spec fn expand(name: Seq<char>, value: Seq<char>) -> Seq<DeclView> {
    if eq_ic(name, "border"@) {
        expand_border(value)
    } else if eq_ic(name, "list-style"@) {
        expand_list_style(value)
    } else {
        seq![(name, value)]
    }
}

/// One declaration from `p`: the declarations it gives, if it parses, and
/// the position after it.
pub open spec fn decl_at(s: Seq<char>, p: int) -> (Option<Seq<DeclView>>, int) {
    let a = skip_wsc(s, p);
    let b = a + span(s.skip(a), name_pred());
    let name = s.subrange(a, b);
    let c = skip_wsc(s, b);
    if name.len() == 0 {
        (None, c)
    } else if c >= s.len() || s[c] != ':' {
        (None, c)
    } else {
        let d = skip_wsc(s, c + 1);
        let (raw, e) = value_scan(s, d, 0, 0);
        let f = if 0 <= e < s.len() && s[e] == ';' {
            e + 1
        } else {
            e
        };
        (Some(expand(name, trim(raw))), f)
    }
}

/// The declarations of a block body from `p`, up to its `}`.
pub open spec fn decls_loop(s: Seq<char>, p: int) -> (Seq<DeclView>, int)
    decreases s.len() - p,
{
    if p < 0 || p > s.len() {
        (Seq::empty(), p)
    } else {
        let q = skip_wsc(s, p);
        proof {
            lemma_skip_wsc(s, p);
        }
        if q >= s.len() {
            (Seq::empty(), q)
        } else if s[q] == '}' {
            (Seq::empty(), q + 1)
        } else if s[q] == '@' {
            proof {
                lemma_at_rule_end(s, q);
            }
            decls_loop(s, at_rule_end(s, q))
        } else {
            proof {
                lemma_skip_wsc(s, p);
                lemma_decl_at(s, q);
            }
            let (d, e) = decl_at(s, q);
            match d {
                Some(ds) => {
                    let r = decls_loop(s, e);
                    (ds + r.0, r.1)
                },
                None => {
                    proof {
                        lemma_bad_decl_end(s, e);
                    }
                    decls_loop(s, bad_decl_end(s, e))
                },
            }
        }
    }
}

/// A `{ ... }` block from `p`.
pub open spec fn decls_at(s: Seq<char>, p: int) -> (Seq<DeclView>, int) {
    let q = skip_wsc(s, p);
    if q < 0 || q >= s.len() || s[q] != '{' {
        (Seq::empty(), q)
    } else {
        decls_loop(s, q + 1)
    }
}

/// One rule from `p`, if its prelude has a selector, and the position after
/// it.
pub open spec fn rule_at(s: Seq<char>, p: int) -> (Option<RuleView>, int) {
    let a = skip_wsc(s, p);
    let b = a + span(s.skip(a), sel_pred());
    let sels = selectors_of(s.subrange(a, b));
    let c = skip_wsc(s, b);
    if sels.len() == 0 {
        (None, c)
    } else {
        let (ds, d) = decls_at(s, c);
        (Some(RuleView { selectors: sels, declarations: ds }), d)
    }
}

/// The rules of a stylesheet from `p` to the end of the input.
pub open spec fn sheet_from(s: Seq<char>, p: int) -> Seq<RuleView>
    decreases s.len() - p,
{
    if p < 0 || p >= s.len() {
        Seq::empty()
    } else {
        let q = skip_wsc(s, p);
        proof {
            lemma_skip_wsc(s, p);
        }
        if q >= s.len() {
            Seq::empty()
        } else if s[q] == '@' {
            proof {
                lemma_at_rule_end(s, q);
            }
            sheet_from(s, at_rule_end(s, q))
        } else {
            proof {
                lemma_rule_at(s, q);
            }
            let (r, e) = rule_at(s, q);
            match r {
                Some(rule) => seq![rule] + sheet_from(s, e),
                None => {
                    proof {
                        lemma_recover_end(s, e);
                    }
                    sheet_from(s, recover_end(s, e))
                },
            }
        }
    }
}

/// The text that `parse_inline_declarations` parses as a rule.
pub open spec fn inline_wrapped(input: Seq<char>) -> Seq<char> {
    "inline {"@ + input + "}"@
}

/// The declarations of a `style` attribute.
pub open spec fn inline_decls(input: Seq<char>) -> Seq<DeclView> {
    match rule_at(inline_wrapped(input), 0).0 {
        Some(r) => r.declarations,
        None => Seq::empty(),
    }
}

// ---------------------------------------------------------------------
// Facts about the grammar functions: each stays within the input and
// moves forward.
// ---------------------------------------------------------------------

pub proof fn lemma_ws_end(s: Seq<char>, p: int)
    requires
        0 <= p <= s.len(),
    ensures
        p <= ws_end(s, p) <= s.len(),
        ws_end(s, p) < s.len() ==> !is_ws(s[ws_end(s, p)]),
{
    lemma_span_le(s.skip(p), ws_pred());
    if ws_end(s, p) < s.len() {
        assert(s.skip(p)[span(s.skip(p), ws_pred()) as int] == s[ws_end(s, p)]);
    }
}

pub proof fn lemma_not_open_comment(s: Seq<char>, p: int)
    requires
        0 <= p < s.len(),
        s[p] != '/',
    ensures
        !at(s, p, open_comment()),
{
    if p + 2 <= s.len() {
        assert(s.subrange(p, p + 2)[0] == s[p]);
    }
}

pub proof fn lemma_comment_close(s: Seq<char>, p: int)
    requires
        0 <= p <= s.len(),
    ensures
        p <= comment_close(s, p) <= s.len(),
    decreases s.len() - p,
{
    if p < s.len() && !at(s, p, close_comment()) {
        lemma_comment_close(s, p + 1);
    }
}

pub proof fn lemma_skip_wsc(s: Seq<char>, p: int)
    requires
        0 <= p <= s.len(),
    ensures
        p <= skip_wsc(s, p) <= s.len(),
        !at(s, skip_wsc(s, p), open_comment()),
        skip_wsc(s, p) < s.len() ==> !is_ws(s[skip_wsc(s, p)]),
        skip_wsc(s, skip_wsc(s, p)) == skip_wsc(s, p),
    decreases s.len() - p,
{
    let q = ws_end(s, p);
    lemma_ws_end(s, p);
    if at(s, q, open_comment()) {
        lemma_comment_close(s, q + 2);
        lemma_skip_wsc(s, comment_close(s, q + 2));
    } else {
        if q < s.len() {
            assert(s.skip(q)[0] == s[q]);
        }
        lemma_span_is(s.skip(q), ws_pred(), 0);
        assert(ws_end(s, q) == q);
    }
}

pub proof fn lemma_skip_wsc_comment(s: Seq<char>, p: int)
    requires
        0 <= p < s.len(),
        at(s, p, open_comment()),
    ensures
        p + 2 <= skip_wsc(s, p) <= s.len(),
{
    lemma_ws_end(s, p);
    assert(s.subrange(p, p + 2)[0] == '/');
    assert(!is_ws(s[p]));
    lemma_span_is(s.skip(p), ws_pred(), 0);
    lemma_comment_close(s, p + 2);
    lemma_skip_wsc(s, comment_close(s, p + 2));
}

pub proof fn lemma_at_rule_head(s: Seq<char>, p: int)
    requires
        0 <= p <= s.len(),
    ensures
        p <= at_rule_head(s, p) <= s.len(),
        at_rule_head(s, p) < s.len() ==> s[at_rule_head(s, p)] == ';' || s[at_rule_head(s, p)]
            == '{',
    decreases s.len() - p,
{
    if p < s.len() && s[p] != ';' && s[p] != '{' {
        if at(s, p, open_comment()) {
            lemma_skip_wsc_comment(s, p);
            lemma_at_rule_head(s, skip_wsc(s, p));
        } else {
            lemma_at_rule_head(s, p + 1);
        }
    }
}

pub proof fn lemma_block_end(s: Seq<char>, p: int, depth: int)
    requires
        0 <= p <= s.len(),
    ensures
        p <= block_end(s, p, depth) <= s.len(),
    decreases s.len() - p,
{
    if p < s.len() && depth > 0 {
        if at(s, p, open_comment()) {
            lemma_skip_wsc_comment(s, p);
            lemma_block_end(s, skip_wsc(s, p), depth);
        } else {
            let c = s[p];
            lemma_block_end(
                s,
                p + 1,
                if c == '{' {
                    depth + 1
                } else if c == '}' {
                    depth - 1
                } else {
                    depth
                },
            );
        }
    }
}

pub proof fn lemma_at_rule_end(s: Seq<char>, p: int)
    requires
        0 <= p < s.len(),
        s[p] == '@',
    ensures
        p < at_rule_end(s, p) <= s.len(),
{
    lemma_at_rule_head(s, p);
    let q = at_rule_head(s, p);
    if q < s.len() && s[q] != ';' {
        lemma_block_end(s, q + 1, 1);
    }
    if q == p {
        assert(s[p] == '@');
    }
}

pub proof fn lemma_recover_end(s: Seq<char>, p: int)
    requires
        0 <= p <= s.len(),
    ensures
        p <= recover_end(s, p) <= s.len(),
        p < s.len() ==> p < recover_end(s, p),
    decreases s.len() - p,
{
    if p < s.len() {
        if at(s, p, open_comment()) {
            lemma_skip_wsc_comment(s, p);
            lemma_recover_end(s, skip_wsc(s, p));
        } else if !(s[p] == '{' || s[p] == '}' || s[p] == ';') {
            lemma_recover_end(s, p + 1);
        }
    }
}

pub proof fn lemma_bad_decl_end(s: Seq<char>, p: int)
    requires
        0 <= p <= s.len(),
    ensures
        p <= bad_decl_end(s, p) <= s.len(),
        p < s.len() && s[p] != '}' ==> p < bad_decl_end(s, p),
    decreases s.len() - p,
{
    if p < s.len() {
        if at(s, p, open_comment()) {
            lemma_skip_wsc_comment(s, p);
            lemma_bad_decl_end(s, skip_wsc(s, p));
        } else if s[p] != ';' && s[p] != '}' {
            lemma_bad_decl_end(s, p + 1);
        }
    }
}

pub proof fn lemma_value_scan(s: Seq<char>, p: int, up: int, down: int)
    requires
        0 <= p <= s.len(),
    ensures
        p <= value_scan(s, p, up, down).1 <= s.len(),
    decreases s.len() - p,
{
    if p < s.len() {
        if at(s, p, open_comment()) {
            lemma_skip_wsc_comment(s, p);
            lemma_value_scan(s, skip_wsc(s, p), up, down);
        } else {
            let c = s[p];
            if c == '(' {
                lemma_value_scan(s, p + 1, up + 1, down);
            } else if c == ')' {
                lemma_value_scan(s, p + 1, up, down + 1);
            } else if !(up == down && (c == ';' || c == '}')) {
                lemma_value_scan(s, p + 1, up, down);
            }
        }
    }
}

/// A declaration either moves past its start or stops at a character from
/// which skipping a bad declaration moves on.
pub proof fn lemma_decl_at(s: Seq<char>, p: int)
    requires
        0 <= p < s.len(),
        skip_wsc(s, p) == p,
        s[p] != '}',
    ensures
        p <= decl_at(s, p).1 <= s.len(),
        decl_at(s, p).0 is Some ==> p < decl_at(s, p).1,
        decl_at(s, p).0 is None ==> p < decl_at(s, p).1 || (decl_at(s, p).1 < s.len() && s[decl_at(
            s,
            p,
        ).1] != '}'),
{
    let a = skip_wsc(s, p);
    lemma_span_le(s.skip(a), name_pred());
    let b = a + span(s.skip(a), name_pred());
    lemma_skip_wsc(s, b);
    let c = skip_wsc(s, b);
    if b > a && c < s.len() && s[c] == ':' {
        lemma_skip_wsc(s, c + 1);
        let d = skip_wsc(s, c + 1);
        lemma_value_scan(s, d, 0, 0);
    }
}

pub proof fn lemma_selectors_of_empty(raw: Seq<char>)
    requires
        raw.len() == 0,
    ensures
        selectors_of(raw).len() == 0,
{
    let t = trim(raw);
    assert(t.len() == 0);
    assert(first_of(t, ',') == 0);
    assert(t.take(0).len() == 0);
}

pub proof fn lemma_decls_loop(s: Seq<char>, p: int)
    requires
        0 <= p <= s.len(),
    ensures
        p <= decls_loop(s, p).1 <= s.len(),
    decreases s.len() - p,
{
    lemma_skip_wsc(s, p);
    let q = skip_wsc(s, p);
    if q < s.len() && s[q] != '}' {
        if s[q] == '@' {
            lemma_at_rule_end(s, q);
            lemma_decls_loop(s, at_rule_end(s, q));
        } else {
            lemma_decl_at(s, q);
            let (d, e) = decl_at(s, q);
            match d {
                Some(ds) => {
                    lemma_decls_loop(s, e);
                },
                None => {
                    lemma_bad_decl_end(s, e);
                    lemma_decls_loop(s, bad_decl_end(s, e));
                },
            }
        }
    }
}

pub proof fn lemma_rule_at(s: Seq<char>, p: int)
    requires
        0 <= p <= s.len(),
    ensures
        p <= rule_at(s, p).1 <= s.len(),
        rule_at(s, p).0 is Some ==> p < rule_at(s, p).1,
{
    lemma_skip_wsc(s, p);
    let a = skip_wsc(s, p);
    lemma_span_le(s.skip(a), sel_pred());
    let b = a + span(s.skip(a), sel_pred());
    lemma_skip_wsc(s, b);
    let c = skip_wsc(s, b);
    if b == a {
        lemma_selectors_of_empty(s.subrange(a, b));
    }
    if selectors_of(s.subrange(a, b)).len() > 0 {
        lemma_skip_wsc(s, c);
        let q = skip_wsc(s, c);
        if q < s.len() && s[q] == '{' {
            lemma_decls_loop(s, q + 1);
        }
    }
}

// ---------------------------------------------------------------------
// What every parsed stylesheet looks like.
// ---------------------------------------------------------------------

/// A character of a property name: alphanumeric, `-` or `_`.
pub open spec fn name_char(c: char) -> bool {
    unicode_alnum(c) || is_ascii_alpha(c) || c == '-' || c == '_'
}

pub open spec fn no_ws(x: Seq<char>) -> bool {
    forall|i: int| 0 <= i < x.len() ==> !is_ws(#[trigger] x[i])
}

/// A declaration with a non-empty name of name characters and a trimmed
/// value.
pub open spec fn decl_ok(d: DeclView) -> bool {
    &&& d.0.len() > 0
    &&& forall|i: int| 0 <= i < d.0.len() ==> name_char(#[trigger] d.0[i])
    &&& trim(d.1) == d.1
}

/// A selector that is trimmed, non-empty and holds no comma.
pub open spec fn sel_ok(x: Seq<char>) -> bool {
    x.len() > 0 && trim(x) == x && !x.contains(',')
}

/// A rule with at least one selector, each well formed, and well formed
/// declarations.
pub open spec fn rule_ok(r: RuleView) -> bool {
    &&& r.selectors.len() > 0
    &&& forall|k: int| 0 <= k < r.selectors.len() ==> sel_ok(#[trigger] r.selectors[k])
    &&& forall|k: int| 0 <= k < r.declarations.len() ==> decl_ok(#[trigger] r.declarations[k])
}

pub open spec fn decls_ok(d: Seq<DeclView>) -> bool {
    forall|k: int| 0 <= k < d.len() ==> decl_ok(#[trigger] d[k])
}

proof fn lemma_no_ws_trimmed(x: Seq<char>)
    requires
        no_ws(x),
    ensures
        trim(x) == x,
{
    lemma_span_is(x, ws_pred(), 0);
    assert(trim_start(x) =~= x);
    lemma_rspan_is(x, ws_pred(), 0);
    assert(x.take(x.len() as int) =~= x);
}

proof fn lemma_words_no_ws(v: Seq<char>)
    ensures
        forall|i: int| 0 <= i < words(v).len() ==> no_ws(#[trigger] words(v)[i]),
    decreases v.len(),
{
    let t = trim_start(v);
    lemma_span_le(v, ws_pred());
    if t.len() > 0 {
        let w = span(t, not_ws_pred());
        lemma_span_le(t, not_ws_pred());
        if w > 0 {
            lemma_words_no_ws(t.skip(w as int));
            let head = t.take(w as int);
            assert(no_ws(head)) by {
                assert forall|i: int| 0 <= i < head.len() implies !is_ws(#[trigger] head[i]) by {
                    assert(head[i] == t[i]);
                }
            }
            let r = words(t.skip(w as int));
            assert(words(v) == seq![head] + r);
            assert forall|i: int| 0 <= i < words(v).len() implies no_ws(#[trigger] words(v)[i]) by {
                if i > 0 {
                    assert(words(v)[i] == r[i - 1]);
                }
            }
        }
    }
}

proof fn lemma_border_scan_no_ws(tokens: Seq<Seq<char>>, width: Option<Seq<char>>, color: Option<Seq<char>>)
    requires
        forall|i: int| 0 <= i < tokens.len() ==> no_ws(#[trigger] tokens[i]),
        width matches Some(w) ==> no_ws(w),
        color matches Some(c) ==> no_ws(c),
    ensures
        border_scan(tokens, width, color).0 matches Some(w) ==> no_ws(w),
        border_scan(tokens, width, color).1 matches Some(c) ==> no_ws(c),
    decreases tokens.len(),
{
    if tokens.len() > 0 {
        let rest = tokens.drop_first();
        assert(no_ws(tokens[0]));
        assert forall|i: int| 0 <= i < rest.len() implies no_ws(#[trigger] rest[i]) by {
            assert(rest[i] == tokens[i + 1]);
        }
        let t = tokens[0];
        if ends(t, "px"@) && width is None {
            lemma_border_scan_no_ws(rest, Some(t), color);
        } else if eq_ic(t, "solid"@) {
            lemma_border_scan_no_ws(rest, width, color);
        } else if color is None {
            lemma_border_scan_no_ws(rest, width, Some(t));
        } else {
            lemma_border_scan_no_ws(rest, width, color);
        }
    }
}

proof fn lemma_lower_no_ws(t: Seq<char>)
    requires
        no_ws(t),
    ensures
        no_ws(lower(t)),
{
    assert forall|i: int| 0 <= i < lower(t).len() implies !is_ws(#[trigger] lower(t)[i]) by {
        assert(lower(t)[i] == lower_char(t[i]));
        assert(!is_ws(t[i]));
    }
}

proof fn lemma_lit_name(n: Seq<char>)
    requires
        forall|i: int| 0 <= i < n.len() ==> is_ascii_alpha(#[trigger] n[i]) || n[i] == '-',
        n.len() > 0,
    ensures
        forall|i: int| 0 <= i < n.len() ==> name_char(#[trigger] n[i]),
{
}

proof fn lemma_list_scan_ok(tokens: Seq<Seq<char>>)
    requires
        forall|i: int| 0 <= i < tokens.len() ==> no_ws(#[trigger] tokens[i]),
    ensures
        decls_ok(list_style_scan(tokens)),
    decreases tokens.len(),
{
    if tokens.len() > 0 {
        let rest = tokens.drop_first();
        assert forall|i: int| 0 <= i < rest.len() implies no_ws(#[trigger] rest[i]) by {
            assert(rest[i] == tokens[i + 1]);
        }
        lemma_list_scan_ok(rest);
        let t = tokens[0];
        assert(no_ws(t));
        lemma_lower_no_ws(t);
        lemma_no_ws_trimmed(lower(t));
        let r = list_style_scan(rest);
        let n1 = "list-style-type"@;
        let n2 = "list-style-position"@;
        reveal_strlit("list-style-type");
        reveal_strlit("list-style-position");
        assert(n1 =~= seq!['l', 'i', 's', 't', '-', 's', 't', 'y', 'l', 'e', '-', 't', 'y', 'p', 'e']);
        assert(n2 =~= seq![
            'l', 'i', 's', 't', '-', 's', 't', 'y', 'l', 'e', '-', 'p', 'o', 's', 'i', 't', 'i', 'o', 'n',
        ]);
        lemma_lit_name(n1);
        lemma_lit_name(n2);
        let l = list_style_scan(tokens);
        if is_list_style_type(t) {
            assert(decl_ok((n1, lower(t))));
            assert forall|k: int| 0 <= k < l.len() implies decl_ok(#[trigger] l[k]) by {
                if k > 0 {
                    assert(l[k] == r[k - 1]);
                }
            }
        } else if lower(t) == "inside"@ || lower(t) == "outside"@ {
            assert(decl_ok((n2, lower(t))));
            assert forall|k: int| 0 <= k < l.len() implies decl_ok(#[trigger] l[k]) by {
                if k > 0 {
                    assert(l[k] == r[k - 1]);
                }
            }
        }
    }
}

proof fn lemma_expand_ok(name: Seq<char>, value: Seq<char>)
    requires
        name.len() > 0,
        forall|i: int| 0 <= i < name.len() ==> name_char(#[trigger] name[i]),
        trim(value) == value,
    ensures
        decls_ok(expand(name, value)),
{
    reveal_strlit("border-width");
    reveal_strlit("border-color");
    reveal_strlit("border");
    reveal_strlit("list-style");
    let bw = "border-width"@;
    let bc = "border-color"@;
    let b = "border"@;
    let ls = "list-style"@;
    assert(bw =~= seq!['b', 'o', 'r', 'd', 'e', 'r', '-', 'w', 'i', 'd', 't', 'h']);
    assert(bc =~= seq!['b', 'o', 'r', 'd', 'e', 'r', '-', 'c', 'o', 'l', 'o', 'r']);
    assert(b =~= seq!['b', 'o', 'r', 'd', 'e', 'r']);
    assert(ls =~= seq!['l', 'i', 's', 't', '-', 's', 't', 'y', 'l', 'e']);
    lemma_lit_name(bw);
    lemma_lit_name(bc);
    lemma_lit_name(b);
    lemma_lit_name(ls);
    lemma_words_no_ws(value);
    let e = expand(name, value);
    if eq_ic(name, "border"@) {
        lemma_border_scan_no_ws(words(value), None, None);
        let (w, c) = border_scan(words(value), None, None);
        if let Some(x) = w {
            lemma_no_ws_trimmed(x);
        }
        if let Some(x) = c {
            lemma_no_ws_trimmed(x);
        }
        assert forall|k: int| 0 <= k < e.len() implies decl_ok(#[trigger] e[k]) by {}
    } else if eq_ic(name, "list-style"@) {
        lemma_list_scan_ok(words(value));
    } else {
        assert(e[0] == (name, value));
    }
}

proof fn lemma_decls_loop_ok(s: Seq<char>, p: int)
    requires
        0 <= p <= s.len(),
    ensures
        decls_ok(decls_loop(s, p).0),
    decreases s.len() - p,
{
    lemma_skip_wsc(s, p);
    let q = skip_wsc(s, p);
    if q < s.len() && s[q] != '}' {
        if s[q] == '@' {
            lemma_at_rule_end(s, q);
            lemma_decls_loop_ok(s, at_rule_end(s, q));
        } else {
            lemma_decl_at(s, q);
            let (d, e) = decl_at(s, q);
            match d {
                Some(ds) => {
                    lemma_decls_loop_ok(s, e);
                    let a = skip_wsc(s, q);
                    lemma_skip_wsc(s, q);
                    lemma_span_le(s.skip(a), name_pred());
                    let bb = a + span(s.skip(a), name_pred());
                    let name = s.subrange(a, bb);
                    assert forall|i: int| 0 <= i < name.len() implies name_char(#[trigger] name[i]) by {
                        assert(name[i] == s.skip(a)[i]);
                    }
                    let c = skip_wsc(s, bb);
                    let dd = skip_wsc(s, c + 1);
                    let raw = value_scan(s, dd, 0, 0).0;
                    lemma_trim_idem(raw);
                    lemma_expand_ok(name, trim(raw));
                    assert(ds == expand(name, trim(raw)));
                    let r = decls_loop(s, e);
                    assert(decls_loop(s, p).0 == ds + r.0);
                    assert forall|k: int| 0 <= k < (ds + r.0).len() implies decl_ok(#[trigger] (ds + r.0)[k]) by {
                        if k >= ds.len() {
                            assert((ds + r.0)[k] == r.0[k - ds.len()]);
                        }
                    }
                },
                None => {
                    lemma_bad_decl_end(s, e);
                    lemma_decls_loop_ok(s, bad_decl_end(s, e));
                },
            }
        }
    }
}

proof fn lemma_sel_pieces_ok(t: Seq<char>)
    ensures
        forall|k: int| 0 <= k < sel_pieces(t).len() ==> sel_ok(#[trigger] sel_pieces(t)[k]),
    decreases t.len(),
{
    let i = first_of(t, ',');
    lemma_span_le(t, ne_pred(','));
    let x = t.take(i as int);
    let piece = trim(x);
    lemma_trim_idem(x);
    lemma_trim_range(x);
    lemma_span_le(x, ws_pred());
    lemma_rspan_le(x.skip(span(x, ws_pred()) as int), ws_pred());
    assert(!piece.contains(',')) by {
        if piece.contains(',') {
            let j = choose|j: int| 0 <= j < piece.len() && piece[j] == ',';
            let a = span(x, ws_pred()) as int;
            assert(piece[j] == x[a + j]);
            assert(x[a + j] == t[a + j]);
        }
    }
    let head: Seq<Seq<char>> = if piece.len() > 0 {
        seq![piece]
    } else {
        Seq::empty()
    };
    if i < t.len() {
        lemma_sel_pieces_ok(t.skip(i as int + 1));
        let r = sel_pieces(t.skip(i as int + 1));
        assert(sel_pieces(t) == head + r);
        assert forall|k: int| 0 <= k < (head + r).len() implies sel_ok(#[trigger] (head + r)[k]) by {
            if k >= head.len() {
                assert((head + r)[k] == r[k - head.len()]);
            }
        }
    }
}

proof fn lemma_sheet_from_ok(s: Seq<char>, p: int)
    ensures
        forall|k: int| 0 <= k < sheet_from(s, p).len() ==> rule_ok(#[trigger] sheet_from(s, p)[k]),
    decreases s.len() - p,
{
    if 0 <= p < s.len() {
        lemma_skip_wsc(s, p);
        let q = skip_wsc(s, p);
        if q < s.len() {
            if s[q] == '@' {
                lemma_at_rule_end(s, q);
                lemma_sheet_from_ok(s, at_rule_end(s, q));
                assert(sheet_from(s, p) == sheet_from(s, at_rule_end(s, q)));
            } else {
                lemma_rule_at(s, q);
                let (r, e) = rule_at(s, q);
                match r {
                    Some(rule) => {
                        lemma_sheet_from_ok(s, e);
                        lemma_skip_wsc(s, q);
                        let a = skip_wsc(s, q);
                        lemma_span_le(s.skip(a), sel_pred());
                        let b = a + span(s.skip(a), sel_pred());
                        lemma_sel_pieces_ok(trim(s.subrange(a, b)));
                        lemma_skip_wsc(s, b);
                        let c = skip_wsc(s, b);
                        lemma_skip_wsc(s, c);
                        let qq = skip_wsc(s, c);
                        if 0 <= qq < s.len() && s[qq] == '{' {
                            lemma_decls_loop_ok(s, qq + 1);
                        }
                        assert(rule_ok(rule));
                        let rest = sheet_from(s, e);
                        assert(sheet_from(s, p) == seq![rule] + rest);
                        assert forall|k: int| 0 <= k < (seq![rule] + rest).len() implies rule_ok(
                            #[trigger] (seq![rule] + rest)[k],
                        ) by {
                            if k > 0 {
                                assert((seq![rule] + rest)[k] == rest[k - 1]);
                            }
                        }
                    },
                    None => {
                        lemma_recover_end(s, e);
                        lemma_sheet_from_ok(s, recover_end(s, e));
                        assert(sheet_from(s, p) == sheet_from(s, recover_end(s, e)));
                    },
                }
            }
        }
    }
}

/// Every stylesheet the parser builds from a text is well formed: each
/// rule has at least one selector; each selector is trimmed, non-empty and
/// holds no comma; each declaration has a non-empty name made of
/// alphanumerics, `-` and `_`, and a trimmed value.
pub proof fn lemma_stylesheet_well_formed(src: Seq<char>)
    ensures
        forall|k: int| 0 <= k < sheet_from(src, 0).len() ==> rule_ok(#[trigger] sheet_from(src, 0)[k]),
{
    lemma_sheet_from_ok(src, 0);
}

// ---------------------------------------------------------------------
// The parser.
// ---------------------------------------------------------------------

/// A CSS parser over its input and a position in it.
pub struct Parser {
    pos: usize,
    input: Vec<char>,
}

/// The declarations of a `style` attribute, parsed as the body of a rule.
pub fn parse_inline_declarations(input: &str) -> (r: Vec<Declaration>)
    ensures
        decls_view(r@) == inline_decls(input@),
{
    let mut text = chars_of("inline {");
    let body = chars_of(input);
    let mut i: usize = 0;
    let ghost head = text@;
    while i < body.len()
        invariant
            i <= body@.len(),
            text@ == head + body@.take(i as int),
        decreases body@.len() - i,
    {
        text.push(body[i]);
        assert(body@.take(i + 1) == body@.take(i as int).push(body@[i as int]));
        i += 1;
    }
    let close = chars_of("}");
    proof {
        reveal_strlit("}");
    }
    text.push('}');
    assert(body@.take(body@.len() as int) =~= body@);
    assert(text@ =~= inline_wrapped(input@));
    assert(text@.len() == text.len());
    let mut parser = Parser { pos: 0, input: text };
    match parser.parse_rule() {
        Some(rule) => rule.declarations,
        None => Vec::new(),
    }
}

impl Parser {
    /// The text being parsed.
    pub closed spec fn src(&self) -> Seq<char> {
        self.input@
    }

    /// The current position.
    pub closed spec fn at_pos(&self) -> int {
        self.pos as int
    }

    pub closed spec fn wf(&self) -> bool {
        self.pos <= self.input@.len() && self.input@.len() <= usize::MAX
    }

    pub fn new(input: String) -> (r: Self)
        ensures
            r.wf(),
            r.src() == input@,
            r.at_pos() == 0,
    {
        let v = chars_of(input.as_str());
        assert(v@.len() == v.len());
        Parser { pos: 0, input: v }
    }

    fn eof(&self) -> (r: bool)
        ensures
            r == (self.pos >= self.input@.len()),
    {
        self.pos >= self.input.len()
    }

    fn next_char(&self) -> (r: char)
        ensures
            r == (if self.pos < self.input@.len() {
                self.input@[self.pos as int]
            } else {
                '\0'
            }),
    {
        if self.pos < self.input.len() {
            self.input[self.pos]
        } else {
            '\0'
        }
    }

    fn at_open_comment(&self) -> (r: bool)
        requires
            self.wf(),
        ensures
            r == at(self.input@, self.pos as int, open_comment()),
    {
        if self.pos < self.input.len() && self.input.len() - self.pos >= 2 && self.input[self.pos]
            == '/' && self.input[self.pos + 1] == '*' {
            assert(self.input@.subrange(self.pos as int, self.pos + 2) =~= open_comment());
            true
        } else {
            if self.input.len() - self.pos >= 2 {
                assert(self.input@.subrange(self.pos as int, self.pos + 2)[0] == self.input@[self.pos as int]);
                assert(self.input@.subrange(self.pos as int, self.pos + 2)[1] == self.input@[self.pos + 1]);
            }
            false
        }
    }

    fn at_close_comment(&self) -> (r: bool)
        requires
            self.wf(),
        ensures
            r == at(self.input@, self.pos as int, close_comment()),
    {
        if self.pos < self.input.len() && self.input.len() - self.pos >= 2 && self.input[self.pos]
            == '*' && self.input[self.pos + 1] == '/' {
            assert(self.input@.subrange(self.pos as int, self.pos + 2) =~= close_comment());
            true
        } else {
            if self.input.len() - self.pos >= 2 {
                assert(self.input@.subrange(self.pos as int, self.pos + 2)[0] == self.input@[self.pos as int]);
                assert(self.input@.subrange(self.pos as int, self.pos + 2)[1] == self.input@[self.pos + 1]);
            }
            false
        }
    }

    fn consume_char(&mut self) -> (r: char)
        requires
            old(self).wf(),
        ensures
            final(self).wf(),
            final(self).input@ == old(self).input@,
            final(self).pos == (if old(self).pos < old(self).input@.len() {
                old(self).pos + 1
            } else {
                old(self).pos as int
            }),
            r == (if old(self).pos < old(self).input@.len() {
                old(self).input@[old(self).pos as int]
            } else {
                '\0'
            }),
    {
        if self.eof() {
            return '\0';
        }
        let c = self.input[self.pos];
        self.pos += 1;
        c
    }

    /// Consumes the characters that satisfy `test` and returns them.
    fn consume_while<F: Fn(char) -> bool>(&mut self, test: F, Ghost(p): Ghost<spec_fn(char) -> bool>) -> (r: Vec<char>)
        requires
            old(self).wf(),
            forall|c: char| #[trigger] test.requires((c,)),
            forall|c: char, b: bool| test.ensures((c,), b) ==> b == p(c),
        ensures
            final(self).wf(),
            final(self).input@ == old(self).input@,
            final(self).pos == old(self).pos + span(old(self).input@.skip(old(self).pos as int), p),
            r@ == old(self).input@.subrange(old(self).pos as int, final(self).pos as int),
    {
        let start = self.pos;
        let mut out: Vec<char> = Vec::new();
        while self.pos < self.input.len() && test(self.input[self.pos])
            invariant
                start <= self.pos <= self.input@.len(),
                self.input@ == old(self).input@,
                start == old(self).pos,
                forall|c: char| #[trigger] test.requires((c,)),
                forall|c: char, b: bool| test.ensures((c,), b) ==> b == p(c),
                forall|j: int| start <= j < self.pos ==> p(#[trigger] self.input@[j]),
                out@ == self.input@.subrange(start as int, self.pos as int),
            decreases self.input@.len() - self.pos,
        {
            out.push(self.input[self.pos]);
            self.pos += 1;
            assert(out@ =~= self.input@.subrange(start as int, self.pos as int));
        }
        let ghost s = self.input@.skip(start as int);
        assert forall|j: int| 0 <= j < self.pos - start implies p(#[trigger] s[j]) by {
            assert(s[j] == self.input@[j + start]);
        }
        if self.pos < self.input.len() {
            assert(s[self.pos - start] == self.input@[self.pos as int]);
        }
        proof {
            lemma_span_is(s, p, self.pos - start);
        }
        out
    }

    fn consume_whitespace(&mut self)
        requires
            old(self).wf(),
        ensures
            final(self).wf(),
            final(self).input@ == old(self).input@,
            final(self).pos == ws_end(old(self).input@, old(self).pos as int),
    {
        let _ = self.consume_while(is_whitespace, Ghost(ws_pred()));
    }

    fn consume_whitespace_and_comments(&mut self)
        requires
            old(self).wf(),
        ensures
            final(self).wf(),
            final(self).input@ == old(self).input@,
            final(self).pos == skip_wsc(old(self).input@, old(self).pos as int),
    {
        loop
            invariant
                self.wf(),
                self.input@ == old(self).input@,
                skip_wsc(self.input@, self.pos as int) == skip_wsc(
                    old(self).input@,
                    old(self).pos as int,
                ),
            decreases self.input@.len() - self.pos,
        {
            let ghost p0 = self.pos as int;
            self.consume_whitespace();
            proof {
                lemma_ws_end(self.input@, p0);
            }
            if self.at_open_comment() {
                self.pos = self.pos + 2;
                let ghost q = self.pos as int;
                while !self.eof() && !self.at_close_comment()
                    invariant
                        self.wf(),
                        self.input@ == old(self).input@,
                        q <= self.pos,
                        comment_close(self.input@, self.pos as int) == comment_close(self.input@, q),
                    decreases self.input@.len() - self.pos,
                {
                    self.pos = self.pos + 1;
                }
                if self.at_close_comment() {
                    self.pos = self.pos + 2;
                }
                continue;
            }
            return;
        }
    }

    fn skip_at_rule(&mut self)
        requires
            old(self).wf(),
        ensures
            final(self).wf(),
            final(self).input@ == old(self).input@,
            final(self).pos == at_rule_end(old(self).input@, old(self).pos as int),
    {
        let ghost s = self.input@;
        while !self.eof() && self.next_char() != ';' && self.next_char() != '{'
            invariant
                self.wf(),
                self.input@ == s,
                s == old(self).input@,
                at_rule_head(s, self.pos as int) == at_rule_head(s, old(self).pos as int),
            decreases s.len() - self.pos,
        {
            if self.at_open_comment() {
                proof {
                    lemma_skip_wsc_comment(s, self.pos as int);
                }
                self.consume_whitespace_and_comments();
                continue;
            }
            self.consume_char();
        }
        if self.eof() {
            return;
        }
        if self.next_char() == ';' {
            self.consume_char();
            return;
        }
        self.consume_char();
        let mut depth: usize = 1;
        while !self.eof() && depth > 0
            invariant
                self.wf(),
                self.input@ == s,
                depth <= self.pos,
                block_end(s, self.pos as int, depth as int) == at_rule_end(s, old(self).pos as int),
            decreases s.len() - self.pos,
        {
            if self.at_open_comment() {
                proof {
                    lemma_skip_wsc_comment(s, self.pos as int);
                }
                self.consume_whitespace_and_comments();
                continue;
            }
            let c = self.consume_char();
            if c == '{' {
                depth += 1;
            } else if c == '}' {
                depth -= 1;
            }
        }
    }

    /// Parses rules up to the end of the input.
    pub fn parse_stylesheet(&mut self) -> (r: Stylesheet)
        requires
            old(self).wf(),
        ensures
            final(self).wf(),
            final(self).src() == old(self).src(),
            final(self).at_pos() == final(self).src().len(),
            r@ == sheet_from(old(self).src(), old(self).at_pos()),
    {
        let ghost s = self.input@;
        let mut rules: Vec<Rule> = Vec::new();
        while !self.eof()
            invariant
                self.wf(),
                self.input@ == s,
                s == old(self).input@,
                rules_view(rules@) + sheet_from(s, self.pos as int) == sheet_from(
                    s,
                    old(self).pos as int,
                ),
            decreases s.len() - self.pos,
        {
            let ghost p0 = self.pos as int;
            self.consume_whitespace_and_comments();
            proof {
                lemma_skip_wsc(s, p0);
            }
            if self.eof() {
                assert(sheet_from(s, self.pos as int) == Seq::<RuleView>::empty());
                assert(rules_view(rules@) + Seq::<RuleView>::empty() =~= rules_view(rules@));
                return Stylesheet { rules };
            }
            if self.next_char() == '@' {
                proof {
                    lemma_at_rule_end(s, self.pos as int);
                }
                self.skip_at_rule();
                continue;
            }
            let ghost q = self.pos as int;
            proof {
                lemma_rule_at(s, q);
            }
            match self.parse_rule() {
                Some(rule) => {
                    let ghost before = rules@;
                    rules.push(rule);
                    proof {
                        assert(rules_view(rules@) =~= rules_view(before).push(rule@));
                        assert(rules_view(rules@) + sheet_from(s, self.pos as int) =~= rules_view(
                            before,
                        ) + (seq![rule@] + sheet_from(s, self.pos as int)));
                    }
                },
                None => {
                    proof {
                        lemma_recover_end(s, self.pos as int);
                    }
                    self.recover_to_next_rule();
                },
            }
        }
        assert(sheet_from(s, self.pos as int) == Seq::<RuleView>::empty());
        assert(rules_view(rules@) + Seq::<RuleView>::empty() =~= rules_view(rules@));
        Stylesheet { rules }
    }

    fn recover_to_next_rule(&mut self)
        requires
            old(self).wf(),
        ensures
            final(self).wf(),
            final(self).input@ == old(self).input@,
            final(self).pos == recover_end(old(self).input@, old(self).pos as int),
    {
        let ghost s = self.input@;
        while !self.eof()
            invariant
                self.wf(),
                self.input@ == s,
                s == old(self).input@,
                recover_end(s, self.pos as int) == recover_end(s, old(self).pos as int),
            decreases s.len() - self.pos,
        {
            if self.at_open_comment() {
                proof {
                    lemma_skip_wsc_comment(s, self.pos as int);
                }
                self.consume_whitespace_and_comments();
                continue;
            }
            let c = self.next_char();
            if c == '{' || c == '}' || c == ';' {
                self.consume_char();
                return;
            }
            self.consume_char();
        }
    }

    fn parse_rule(&mut self) -> (r: Option<Rule>)
        requires
            old(self).wf(),
        ensures
            final(self).wf(),
            final(self).input@ == old(self).input@,
            final(self).pos == rule_at(old(self).input@, old(self).pos as int).1,
            match r {
                Some(rule) => rule_at(old(self).input@, old(self).pos as int).0 == Some(rule@),
                None => rule_at(old(self).input@, old(self).pos as int).0 is None,
            },
    {
        let ghost s = self.input@;
        self.consume_whitespace_and_comments();
        let selectors = self.parse_selectors();
        self.consume_whitespace_and_comments();
        if selectors.len() == 0 {
            return None;
        }
        let declarations = self.parse_declarations();
        Some(Rule { selectors, declarations })
    }

    fn parse_selectors(&mut self) -> (r: Vec<Selector>)
        requires
            old(self).wf(),
        ensures
            final(self).wf(),
            final(self).input@ == old(self).input@,
            final(self).pos == old(self).pos + span(old(self).input@.skip(old(self).pos as int), sel_pred()),
            sels_view(r@) == selectors_of(old(self).input@.subrange(old(self).pos as int, final(self).pos as int)),
    {
        let raw = self.consume_while(is_selector_char, Ghost(sel_pred()));
        let (a, b) = trim_bounds(raw.as_slice(), 0, raw.len());
        assert(raw@.subrange(0, raw@.len() as int) =~= raw@);
        let t = vstd::slice::slice_to_vec(vstd::slice::slice_subrange(raw.as_slice(), a, b));
        split_selectors(t.as_slice())
    }

    fn parse_declarations(&mut self) -> (r: Vec<Declaration>)
        requires
            old(self).wf(),
        ensures
            final(self).wf(),
            final(self).input@ == old(self).input@,
            final(self).pos == decls_at(old(self).input@, old(self).pos as int).1,
            decls_view(r@) == decls_at(old(self).input@, old(self).pos as int).0,
    {
        let ghost s = self.input@;
        let mut decls: Vec<Declaration> = Vec::new();
        self.consume_whitespace_and_comments();
        if self.eof() || self.next_char() != '{' {
            assert(decls_view(decls@) =~= Seq::<DeclView>::empty());
            return decls;
        }
        self.consume_char();
        let ghost start = self.pos as int;
        assert(decls_view(decls@) + decls_loop(s, self.pos as int).0 =~= decls_loop(s, start).0);
        loop
            invariant
                self.wf(),
                self.input@ == s,
                s == old(self).input@,
                decls_view(decls@) + decls_loop(s, self.pos as int).0 == decls_loop(s, start).0,
                decls_loop(s, self.pos as int).1 == decls_loop(s, start).1,
                decls_at(s, old(self).pos as int) == decls_loop(s, start),
            decreases s.len() - self.pos,
        {
            let ghost p0 = self.pos as int;
            self.consume_whitespace_and_comments();
            proof {
                lemma_skip_wsc(s, p0);
            }
            if self.eof() {
                assert(decls_loop(s, p0) == (Seq::<DeclView>::empty(), self.pos as int));
                assert(decls_view(decls@) + Seq::<DeclView>::empty() =~= decls_view(decls@));
                return decls;
            }
            if self.next_char() == '}' {
                self.consume_char();
                assert(decls_loop(s, p0) == (Seq::<DeclView>::empty(), self.pos as int));
                assert(decls_view(decls@) + Seq::<DeclView>::empty() =~= decls_view(decls@));
                return decls;
            }
            if self.next_char() == '@' {
                proof {
                    lemma_at_rule_end(s, self.pos as int);
                }
                self.skip_at_rule();
                continue;
            }
            let ghost q = self.pos as int;
            proof {
                lemma_skip_wsc(s, p0);
                lemma_decl_at(s, q);
            }
            match self.parse_declaration() {
                Some(ds) => {
                    let ghost before = decls@;
                    let mut ds = ds;
                    decls.append(&mut ds);
                    proof {
                        assert(decls_view(decls@) =~= decls_view(before) + decl_at(s, q).0->0);
                        assert(decls_view(decls@) + decls_loop(s, self.pos as int).0 =~= decls_view(
                            before,
                        ) + (decl_at(s, q).0->0 + decls_loop(s, self.pos as int).0));
                    }
                },
                None => {
                    proof {
                        lemma_bad_decl_end(s, self.pos as int);
                    }
                    self.skip_bad_declaration();
                },
            }
        }
    }

    fn parse_declaration(&mut self) -> (r: Option<Vec<Declaration>>)
        requires
            old(self).wf(),
        ensures
            final(self).wf(),
            final(self).input@ == old(self).input@,
            final(self).pos == decl_at(old(self).input@, old(self).pos as int).1,
            match r {
                Some(ds) => decl_at(old(self).input@, old(self).pos as int).0 == Some(decls_view(ds@)),
                None => decl_at(old(self).input@, old(self).pos as int).0 is None,
            },
    {
        let ghost s = self.input@;
        self.consume_whitespace_and_comments();
        let name = self.consume_while(is_name_char, Ghost(name_pred()));
        self.consume_whitespace_and_comments();
        if name.len() == 0 {
            return None;
        }
        if self.eof() || self.next_char() != ':' {
            return None;
        }
        self.consume_char();
        self.consume_whitespace_and_comments();
        let ghost d = self.pos as int;
        proof {
            lemma_value_scan(s, d, 0, 0);
        }
        let mut value: Vec<char> = Vec::new();
        let mut up: usize = 0;
        let mut down: usize = 0;
        loop
            invariant
                self.wf(),
                self.input@ == s,
                s == old(self).input@,
                d <= self.pos,
                up <= self.pos,
                down <= self.pos,
                value@ + value_scan(s, self.pos as int, up as int, down as int).0 == value_scan(
                    s,
                    d,
                    0,
                    0,
                ).0,
                value_scan(s, self.pos as int, up as int, down as int).1 == value_scan(s, d, 0, 0).1,
            ensures
                value@ == value_scan(s, d, 0, 0).0,
                self.pos == value_scan(s, d, 0, 0).1,
                self.wf(),
                self.input@ == s,
            decreases s.len() - self.pos,
        {
            if self.eof() {
                assert(value@ + Seq::<char>::empty() =~= value@);
                break;
            }
            if self.at_open_comment() {
                proof {
                    lemma_skip_wsc_comment(s, self.pos as int);
                }
                self.consume_whitespace_and_comments();
                continue;
            }
            let c = self.next_char();
            let ghost v0 = value@;
            if c == '(' {
                up += 1;
                let x = self.consume_char();
                value.push(x);
                assert(value@ + value_scan(s, self.pos as int, up as int, down as int).0 =~= v0 + (
                seq![c] + value_scan(s, self.pos as int, up as int, down as int).0));
                continue;
            }
            if c == ')' {
                down += 1;
                let x = self.consume_char();
                value.push(x);
                assert(value@ + value_scan(s, self.pos as int, up as int, down as int).0 =~= v0 + (
                seq![c] + value_scan(s, self.pos as int, up as int, down as int).0));
                continue;
            }
            if up == down && (c == ';' || c == '}') {
                proof {
                    lemma_not_open_comment(s, self.pos as int);
                    assert(value_scan(s, self.pos as int, up as int, down as int).0 =~= Seq::<char>::empty());
                    assert(value@ + Seq::<char>::empty() =~= value@);
                }
                break;
            }
            let x = self.consume_char();
            value.push(x);
            assert(value@ + value_scan(s, self.pos as int, up as int, down as int).0 =~= v0 + (seq![c]
                + value_scan(s, self.pos as int, up as int, down as int).0));
        }

        if !self.eof() && self.next_char() == ';' {
            self.consume_char();
        }
        let (a, b) = trim_bounds(value.as_slice(), 0, value.len());
        assert(value@.subrange(0, value@.len() as int) =~= value@);
        let tv = vstd::slice::slice_to_vec(vstd::slice::slice_subrange(value.as_slice(), a, b));
        Some(self.expand_declaration(string_of(name.as_slice()), string_of(tv.as_slice())))
    }

    fn skip_bad_declaration(&mut self)
        requires
            old(self).wf(),
        ensures
            final(self).wf(),
            final(self).input@ == old(self).input@,
            final(self).pos == bad_decl_end(old(self).input@, old(self).pos as int),
    {
        let ghost s = self.input@;
        while !self.eof()
            invariant
                self.wf(),
                self.input@ == s,
                s == old(self).input@,
                bad_decl_end(s, self.pos as int) == bad_decl_end(s, old(self).pos as int),
            decreases s.len() - self.pos,
        {
            if self.at_open_comment() {
                proof {
                    lemma_skip_wsc_comment(s, self.pos as int);
                }
                self.consume_whitespace_and_comments();
                continue;
            }
            let c = self.next_char();
            if c == ';' {
                self.consume_char();
                return;
            }
            if c == '}' {
                return;
            }
            self.consume_char();
        }
    }

    fn expand_declaration(&self, name: String, value: String) -> (r: Vec<Declaration>)
        ensures
            decls_view(r@) == expand(name@, value@),
    {
        let n = chars_of(name.as_str());
        if eq_ignore_case_lit(n.as_slice(), "border") {
            self.expand_border_shorthand(value)
        } else if eq_ignore_case_lit(n.as_slice(), "list-style") {
            self.expand_list_style_shorthand(value)
        } else {
            let r = vec![Declaration { name, value }];
            assert(decls_view(r@) =~= expand(name@, value@));
            r
        }
    }

    fn expand_list_style_shorthand(&self, value: String) -> (r: Vec<Declaration>)
        ensures
            decls_view(r@) == expand_list_style(value@),
    {
        let v = chars_of(value.as_str());
        let tokens = split_whitespace(v.as_slice());
        let ghost ts = vviews(tokens@);
        let mut decls: Vec<Declaration> = Vec::new();
        let mut i: usize = 0;
        assert(ts.skip(0) =~= ts);
        assert(decls_view(decls@) + list_style_scan(ts) =~= list_style_scan(ts));
        while i < tokens.len()
            invariant
                i <= tokens@.len(),
                ts == vviews(tokens@),
                ts == words(value@),
                decls_view(decls@) + list_style_scan(ts.skip(i as int)) == list_style_scan(ts),
            decreases tokens@.len() - i,
        {
            let token = &tokens[i];
            let ghost rest = ts.skip(i + 1);
            assert(ts.skip(i as int).drop_first() =~= rest);
            assert(ts.skip(i as int)[0] == token@);
            let ghost before = decls@;
            let low = to_ascii_lower(token.as_slice());
            if is_list_style_type_token(token.as_slice()) {
                decls.push(Declaration { name: string_of(chars_of("list-style-type").as_slice()), value: string_of(low.as_slice()) });
                assert(decls_view(decls@) =~= decls_view(before).push(("list-style-type"@, lower(token@))));
                assert(decls_view(decls@) + list_style_scan(rest) =~= decls_view(before) + list_style_scan(ts.skip(i as int)));
            } else if crate::text::eq_lit(low.as_slice(), "inside") || crate::text::eq_lit(low.as_slice(), "outside") {
                decls.push(Declaration { name: string_of(chars_of("list-style-position").as_slice()), value: string_of(low.as_slice()) });
                assert(decls_view(decls@) =~= decls_view(before).push(("list-style-position"@, lower(token@))));
                assert(decls_view(decls@) + list_style_scan(rest) =~= decls_view(before) + list_style_scan(ts.skip(i as int)));
            }
            i += 1;
        }
        assert(ts.skip(i as int) =~= Seq::<Seq<char>>::empty());
        assert(decls_view(decls@) + Seq::<DeclView>::empty() =~= decls_view(decls@));
        if decls.len() == 0 {
            let r = vec![Declaration { name: string_of(chars_of("list-style").as_slice()), value }];
            assert(decls_view(r@) =~= expand_list_style(value@));
            return r;
        }
        decls
    }

    fn expand_border_shorthand(&self, value: String) -> (r: Vec<Declaration>)
        ensures
            decls_view(r@) == expand_border(value@),
    {
        let v = chars_of(value.as_str());
        let tokens = split_whitespace(v.as_slice());
        let ghost ts = vviews(tokens@);
        let mut width: Option<Vec<char>> = None;
        let mut color: Option<Vec<char>> = None;
        let mut i: usize = 0;
        assert(ts.skip(0) =~= ts);
        while i < tokens.len()
            invariant
                i <= tokens@.len(),
                ts == vviews(tokens@),
                ts == words(value@),
                border_scan(ts.skip(i as int), opt_chars(width), opt_chars(color)) == border_scan(
                    ts,
                    None,
                    None,
                ),
            decreases tokens@.len() - i,
        {
            let token = &tokens[i];
            assert(ts.skip(i as int).drop_first() =~= ts.skip(i + 1));
            assert(ts.skip(i as int)[0] == token@);
            if ends_lit(token.as_slice(), "px") && width.is_none() {
                width = Some(vstd::slice::slice_to_vec(token.as_slice()));
            } else if eq_ignore_case_lit(token.as_slice(), "solid") {
            } else if color.is_none() {
                color = Some(vstd::slice::slice_to_vec(token.as_slice()));
            }
            i += 1;
        }
        assert(ts.skip(i as int) =~= Seq::<Seq<char>>::empty());
        let mut decls: Vec<Declaration> = Vec::new();
        if let Some(w) = width {
            decls.push(Declaration { name: string_of(chars_of("border-width").as_slice()), value: string_of(w.as_slice()) });
        }
        if let Some(c) = color {
            decls.push(Declaration { name: string_of(chars_of("border-color").as_slice()), value: string_of(c.as_slice()) });
        }
        if decls.len() == 0 {
            decls.push(Declaration { name: string_of(chars_of("border").as_slice()), value });
        }
        assert(decls_view(decls@) =~= expand_border(value@));
        decls
    }
}

fn is_selector_char(c: char) -> (b: bool)
    ensures
        b == (sel_pred())(c),
{
    c != '{' && c != '\0'
}

fn is_name_char(c: char) -> (b: bool)
    ensures
        b == (name_pred())(c),
{
    is_alphanumeric(c) || c == '-' || c == '_'
}

pub open spec fn opt_chars(o: Option<Vec<char>>) -> Option<Seq<char>> {
    match o {
        Some(v) => Some(v@),
        None => None,
    }
}

fn is_list_style_type_token(token: &[char]) -> (r: bool)
    ensures
        r == is_list_style_type(token@),
{
    let l = to_ascii_lower(token);
    crate::text::eq_lit(l.as_slice(), "none") || crate::text::eq_lit(l.as_slice(), "disc")
        || crate::text::eq_lit(l.as_slice(), "circle") || crate::text::eq_lit(l.as_slice(), "square")
        || crate::text::eq_lit(l.as_slice(), "decimal")
}

/// The trimmed, non-empty comma-separated pieces of `t` as selectors.
fn split_selectors(t: &[char]) -> (r: Vec<Selector>)
    ensures
        sels_view(r@) == sel_pieces(t@),
{
    let mut out: Vec<Selector> = Vec::new();
    let mut i: usize = 0;
    assert(t@.skip(0) =~= t@);
    loop
        invariant
            i <= t@.len(),
            sels_view(out@) + sel_pieces(t@.skip(i as int)) == sel_pieces(t@),
        decreases t@.len() - i,
    {
        let j = crate::text::find_char_from(t, i, ',');
        let (a, b) = trim_bounds(t, i, j);
        let ghost rest = t@.skip(i as int);
        proof {
            lemma_span_le(rest, ne_pred(','));
            assert(rest.take(j - i) =~= t@.subrange(i as int, j as int));
        }
        let ghost before = out@;
        if a < b {
            let piece = vstd::slice::slice_to_vec(vstd::slice::slice_subrange(t, a, b));
            out.push(Selector { simple: string_of(piece.as_slice()) });
            assert(sels_view(out@) =~= sels_view(before).push(piece@));
        } else {
            assert(sels_view(out@) =~= sels_view(before));
        }
        if j == t.len() {
            assert(sels_view(out@) + Seq::<Seq<char>>::empty() =~= sels_view(out@));
            assert(sels_view(out@) =~= sels_view(before) + sel_pieces(rest));
            return out;
        }
        proof {
            crate::text::lemma_skip_skip(t@, i as int, j - i + 1);
            assert(sels_view(out@) + sel_pieces(t@.skip(j + 1)) =~= sels_view(before) + sel_pieces(rest));
        }
        i = j + 1;
    }
}


/// `list-style` with one list marker keyword (`none`, `disc`, `circle`,
/// `square` or `decimal`, in any case) stands for exactly one
/// `list-style-type` declaration, whose value is that keyword in lower
/// case.
pub proof fn lemma_list_style_marker(name: Seq<char>, value: Seq<char>)
    requires
        lower(name) == "list-style"@,
        value.len() > 0,
        forall|j: int| 0 <= j < value.len() ==> !is_ws(#[trigger] value[j]),
        lower(value) == "none"@ || lower(value) == "disc"@ || lower(value) == "circle"@ || lower(value) == "square"@
            || lower(value) == "decimal"@,
    ensures
        expand(name, value) == seq![("list-style-type"@, lower(value))],
{
    reveal_strlit("list-style");
    reveal_strlit("border");
    assert(lower("list-style"@) =~= "list-style"@);
    assert(lower("border"@).len() == 6);
    assert(eq_ic(name, "list-style"@));
    assert(!eq_ic(name, "border"@));
    lemma_one_word(value);
    let ts = seq![value];
    assert(ts.drop_first() =~= Seq::<Seq<char>>::empty());
    assert(ts[0] == value);
    assert(is_list_style_type(value));
    assert(list_style_scan(ts.drop_first()) == Seq::<DeclView>::empty());
    assert(list_style_scan(ts) == seq![("list-style-type"@, lower(value))] + Seq::<DeclView>::empty());
    assert(seq![("list-style-type"@, lower(value))] + Seq::<DeclView>::empty() =~= seq![("list-style-type"@, lower(value))]);
}


proof fn lemma_one_word(value: Seq<char>)
    requires
        value.len() > 0,
        forall|j: int| 0 <= j < value.len() ==> !is_ws(#[trigger] value[j]),
    ensures
        words(value) == seq![value],
{
    lemma_span_is(value, ws_pred(), 0);
    assert(value.skip(0) =~= value);
    assert forall|j: int| 0 <= j < value.len() implies (not_ws_pred())(#[trigger] value[j]) by {}
    lemma_span_is(value, not_ws_pred(), value.len() as int);
    assert(value.take(value.len() as int) =~= value);
    assert(words(value.skip(value.len() as int)) == Seq::<Seq<char>>::empty()) by {
        let e = value.skip(value.len() as int);
        assert(e.len() == 0);
        lemma_span_is(e, ws_pred(), 0);
        assert(trim_start(e).len() == 0);
    }
    assert(words(value) == seq![value] + Seq::<Seq<char>>::empty());
    assert(seq![value] + Seq::<Seq<char>>::empty() =~= seq![value]);
}

proof fn lemma_word_then_space(a: Seq<char>, rest: Seq<char>)
    requires
        a.len() > 0,
        forall|j: int| 0 <= j < a.len() ==> !is_ws(#[trigger] a[j]),
    ensures
        words(a + seq![' '] + rest) == seq![a] + words(rest),
{
    let v = a + seq![' '] + rest;
    lemma_span_is(v, ws_pred(), 0);
    assert(v.skip(0) =~= v);
    assert forall|j: int| 0 <= j < a.len() implies (not_ws_pred())(#[trigger] v[j]) by {
        assert(v[j] == a[j]);
    }
    assert(v[a.len() as int] == ' ');
    lemma_span_is(v, not_ws_pred(), a.len() as int);
    assert(v.take(a.len() as int) =~= a);
    let u = v.skip(a.len() as int);
    assert(u =~= seq![' '] + rest);
    lemma_span_le(rest, ws_pred());
    let k: int = span(rest, ws_pred()) as int;
    assert forall|j: int| 0 <= j < k + 1 implies (ws_pred())(#[trigger] u[j]) by {
        if j > 0 {
            assert(u[j] == rest[j - 1]);
        }
    }
    if k < rest.len() {
        assert(u[k + 1] == rest[k]);
    }
    lemma_span_is(u, ws_pred(), k + 1);
    assert(u.skip(k + 1) =~= rest.skip(k));
    assert(trim_start(u) =~= trim_start(rest));
    assert(words(u) == words(rest));
}

/// `border: <width> solid <color>`, with a width in `px`, stands for
/// exactly a `border-width` and a `border-color` declaration, with the
/// width and the colour as written.
pub proof fn lemma_border_width_and_color(name: Seq<char>, w: Seq<char>, c: Seq<char>)
    requires
        lower(name) == "border"@,
        w.len() > 2,
        ends(w, "px"@),
        forall|j: int| 0 <= j < w.len() ==> !is_ws(#[trigger] w[j]),
        c.len() > 0,
        forall|j: int| 0 <= j < c.len() ==> !is_ws(#[trigger] c[j]),
        lower(c) != "solid"@,
    ensures
        expand(name, w + " solid "@ + c) == seq![("border-width"@, w), ("border-color"@, c)],
{
    reveal_strlit("border");
    reveal_strlit(" solid ");
    reveal_strlit("solid");
    assert(lower("border"@) =~= "border"@);
    assert(lower("solid"@) =~= "solid"@);
    assert(eq_ic(name, "border"@));
    let solid = "solid"@;
    assert forall|j: int| 0 <= j < solid.len() implies !is_ws(#[trigger] solid[j]) by {}
    lemma_one_word(c);
    lemma_word_then_space(solid, c);
    assert(solid + seq![' '] + c =~= "solid "@ + c) by {
        reveal_strlit("solid ");
    }
    lemma_word_then_space(w, "solid "@ + c);
    assert(w + seq![' '] + ("solid "@ + c) =~= w + " solid "@ + c) by {
        reveal_strlit("solid ");
    }
    let ts = seq![w, solid, c];
    assert(words(w + " solid "@ + c) =~= ts);
    assert(ts.drop_first() =~= seq![solid, c]);
    assert(seq![solid, c].drop_first() =~= seq![c]);
    assert(seq![c].drop_first() =~= Seq::<Seq<char>>::empty());
    assert(eq_ic(solid, "solid"@));
    assert(!eq_ic(c, "solid"@));
    assert(ts[0] == w);
    assert(border_scan(ts, None, None) == border_scan(seq![solid, c], Some(w), None));
    assert(seq![solid, c][0] == solid);
    assert(border_scan(seq![solid, c], Some(w), None) == border_scan(seq![c], Some(w), None));
    assert(seq![c][0] == c);
    assert(border_scan(seq![c], Some(w), None) == border_scan(Seq::empty(), Some(w), Some(c)));
    assert(border_scan(ts, None, None) == (Some(w), Some(c)));
    assert(seq![("border-width"@, w)] + seq![("border-color"@, c)] =~= seq![("border-width"@, w), ("border-color"@, c)]);
}

} // verus!
