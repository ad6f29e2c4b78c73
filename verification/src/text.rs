//! Character-level text model shared by the HTML, CSS, URL and HTTP code.
//!
//! Text is specified as `Seq<char>`; executable helpers work on `&[char]`
//! and convert to and from `String` at the edges.
use vstd::prelude::*;

verus! {

/// Unicode `White_Space`, the set that `char::is_whitespace` tests.
pub open spec fn is_ws(c: char) -> bool {
    ||| c == '\t'
    ||| c == '\n'
    ||| c == '\u{0B}'
    ||| c == '\u{0C}'
    ||| c == '\r'
    ||| c == ' '
    ||| c == '\u{85}'
    ||| c == '\u{A0}'
    ||| c == '\u{1680}'
    ||| ('\u{2000}' <= c && c <= '\u{200A}')
    ||| c == '\u{2028}'
    ||| c == '\u{2029}'
    ||| c == '\u{202F}'
    ||| c == '\u{205F}'
    ||| c == '\u{3000}'
}

pub open spec fn not_ws(c: char) -> bool {
    !is_ws(c)
}

pub open spec fn is_ascii_upper(c: char) -> bool {
    'A' <= c && c <= 'Z'
}

pub open spec fn is_ascii_alpha(c: char) -> bool {
    ('A' <= c && c <= 'Z') || ('a' <= c && c <= 'z')
}

pub open spec fn is_ascii_digit(c: char) -> bool {
    '0' <= c && c <= '9'
}

pub open spec fn is_ascii_hex(c: char) -> bool {
    is_ascii_digit(c) || ('a' <= c && c <= 'f') || ('A' <= c && c <= 'F')
}

/// ASCII lower-casing of one character; other characters are unchanged.
pub open spec fn lower_char(c: char) -> char {
    if is_ascii_upper(c) {
        ((c as u32) + 32) as char
    } else {
        c
    }
}

/// `to_ascii_lowercase` on a whole string.
pub open spec fn lower(s: Seq<char>) -> Seq<char> {
    s.map_values(|c: char| lower_char(c))
}

/// `eq_ignore_ascii_case`.
pub open spec fn eq_ic(a: Seq<char>, b: Seq<char>) -> bool {
    lower(a) == lower(b)
}

/// Number of leading characters of `s` that satisfy `p`.
pub open spec fn span(s: Seq<char>, p: spec_fn(char) -> bool) -> nat
    decreases s.len(),
{
    if s.len() > 0 && p(s[0]) {
        1 + span(s.drop_first(), p)
    } else {
        0
    }
}

/// Number of trailing characters of `s` that satisfy `p`.
pub open spec fn rspan(s: Seq<char>, p: spec_fn(char) -> bool) -> nat
    decreases s.len(),
{
    if s.len() > 0 && p(s.last()) {
        1 + rspan(s.drop_last(), p)
    } else {
        0
    }
}

pub open spec fn ws_pred() -> spec_fn(char) -> bool {
    |c: char| is_ws(c)
}

pub open spec fn not_ws_pred() -> spec_fn(char) -> bool {
    |c: char| !is_ws(c)
}

pub open spec fn ne_pred(c: char) -> spec_fn(char) -> bool {
    |x: char| x != c
}

pub open spec fn trim_start(s: Seq<char>) -> Seq<char> {
    s.skip(span(s, ws_pred()) as int)
}

pub open spec fn trim_end(s: Seq<char>) -> Seq<char> {
    s.take(s.len() - rspan(s, ws_pred()))
}

/// `str::trim`: leading and trailing white space removed.
pub open spec fn trim(s: Seq<char>) -> Seq<char> {
    trim_end(trim_start(s))
}

/// Index of the first `c` in `s`, or `s.len()` when there is none.
pub open spec fn first_of(s: Seq<char>, c: char) -> nat {
    span(s, ne_pred(c))
}

/// `pat` occurs in `s` at index `i`.
pub open spec fn at(s: Seq<char>, i: int, pat: Seq<char>) -> bool {
    0 <= i && i + pat.len() <= s.len() && s.subrange(i, i + pat.len()) == pat
}

pub open spec fn starts(s: Seq<char>, pat: Seq<char>) -> bool {
    at(s, 0, pat)
}

pub open spec fn ends(s: Seq<char>, pat: Seq<char>) -> bool {
    at(s, s.len() - pat.len(), pat)
}

pub open spec fn contains_sub(s: Seq<char>, pat: Seq<char>) -> bool {
    exists|i: int| at(s, i, pat)
}

/// `str::split(c)`: the pieces between occurrences of `c`.
pub open spec fn split_on(s: Seq<char>, c: char) -> Seq<Seq<char>>
    decreases s.len(),
{
    let i = first_of(s, c);
    if i < s.len() {
        proof {
            lemma_span_le(s, ne_pred(c));
        }
        seq![s.take(i as int)] + split_on(s.skip(i as int + 1), c)
    } else {
        seq![s]
    }
}

/// `str::split` gives at least one piece.
pub proof fn lemma_split_nonempty(s: Seq<char>, c: char)
    ensures
        split_on(s, c).len() >= 1,
{
    let i = first_of(s, c);
    lemma_span_le(s, ne_pred(c));
    if i < s.len() {
        assert(split_on(s, c) == seq![s.take(i as int)] + split_on(s.skip(i as int + 1), c));
    }
}

/// `str::split_whitespace`: the maximal runs of non-white-space characters.
pub open spec fn words(s: Seq<char>) -> Seq<Seq<char>>
    decreases s.len(),
{
    let t = trim_start(s);
    if t.len() == 0 {
        Seq::empty()
    } else {
        let w = span(t, not_ws_pred());
        proof {
            lemma_span_le(s, ws_pred());
            lemma_span_le(t, not_ws_pred());
        }
        if w == 0 {
            Seq::empty()
        } else {
            seq![t.take(w as int)] + words(t.skip(w as int))
        }
    }
}

pub proof fn lemma_span_le(s: Seq<char>, p: spec_fn(char) -> bool)
    ensures
        span(s, p) <= s.len(),
        forall|j: int| 0 <= j < span(s, p) ==> p(#[trigger] s[j]),
        span(s, p) < s.len() ==> !p(s[span(s, p) as int]),
    decreases s.len(),
{
    if s.len() > 0 && p(s[0]) {
        lemma_span_le(s.drop_first(), p);
        assert forall|j: int| 0 <= j < span(s, p) implies p(#[trigger] s[j]) by {
            if j > 0 {
                assert(s[j] == s.drop_first()[j - 1]);
            }
        }
    }
}

/// `span` is the first index where `p` fails.
pub proof fn lemma_span_is(s: Seq<char>, p: spec_fn(char) -> bool, i: int)
    requires
        0 <= i <= s.len(),
        forall|j: int| 0 <= j < i ==> p(#[trigger] s[j]),
        i == s.len() || !p(s[i]),
    ensures
        span(s, p) == i,
    decreases i,
{
    if i > 0 {
        let t = s.drop_first();
        assert forall|j: int| 0 <= j < i - 1 implies p(#[trigger] t[j]) by {
            assert(t[j] == s[j + 1]);
        }
        if i < s.len() {
            assert(t[i - 1] == s[i]);
        }
        lemma_span_is(t, p, i - 1);
    }
}

pub proof fn lemma_rspan_le(s: Seq<char>, p: spec_fn(char) -> bool)
    ensures
        rspan(s, p) <= s.len(),
        forall|j: int| s.len() - rspan(s, p) <= j < s.len() ==> p(#[trigger] s[j]),
        rspan(s, p) < s.len() ==> !p(s[s.len() - rspan(s, p) - 1]),
    decreases s.len(),
{
    if s.len() > 0 && p(s.last()) {
        lemma_rspan_le(s.drop_last(), p);
        assert forall|j: int| s.len() - rspan(s, p) <= j < s.len() implies p(#[trigger] s[j]) by {
            if j < s.len() - 1 {
                assert(s[j] == s.drop_last()[j]);
            }
        }
    }
}

pub proof fn lemma_rspan_is(s: Seq<char>, p: spec_fn(char) -> bool, k: int)
    requires
        0 <= k <= s.len(),
        forall|j: int| s.len() - k <= j < s.len() ==> p(#[trigger] s[j]),
        k == s.len() || !p(s[s.len() - k - 1]),
    ensures
        rspan(s, p) == k,
    decreases k,
{
    if k > 0 {
        let t = s.drop_last();
        assert forall|j: int| t.len() - (k - 1) <= j < t.len() implies p(#[trigger] t[j]) by {
            assert(t[j] == s[j]);
        }
        if k < s.len() {
            assert(t[t.len() - (k - 1) - 1] == s[s.len() - k - 1]);
        }
        assert(p(s.last()));
        lemma_rspan_is(t, p, k - 1);
    }
}

/// The contents of a list of character vectors.
pub open spec fn vviews(r: Seq<Vec<char>>) -> Seq<Seq<char>> {
    r.map_values(|x: Vec<char>| x@)
}

pub proof fn lemma_skip_skip(s: Seq<char>, a: int, b: int)
    requires
        0 <= a,
        0 <= b,
        a + b <= s.len(),
    ensures
        s.skip(a).skip(b) == s.skip(a + b),
{
    assert(s.skip(a).skip(b) =~= s.skip(a + b));
}

/// Copies a string into its characters.
pub(crate) fn chars_of(s: &str) -> (v: Vec<char>)
    ensures
        v@ == s@,
{
    broadcast use vstd::string::axiom_spec_iter;
    let mut v: Vec<char> = Vec::new();
    for c in it: s.chars()
        invariant
            v@.len() == it.index(),
            forall|i: int| 0 <= i < v@.len() ==> v@[i] == it.seq()[i],
            it.seq() == s@,
    {
        v.push(c);
    }
    assert(v@ =~= s@);
    v
}

/// Builds a `String` from characters.
#[verifier::external_body]
pub(crate) fn string_of(v: &[char]) -> (s: String)
    ensures
        s@ == v@,
{
    v.iter().collect()
}

/// `char::is_whitespace`.
pub fn is_whitespace(c: char) -> (r: bool)
    ensures
        r == is_ws(c),
{
    c == '\t' || c == '\n' || c == '\u{0B}' || c == '\u{0C}' || c == '\r' || c == ' ' || c
        == '\u{85}' || c == '\u{A0}' || c == '\u{1680}' || ('\u{2000}' <= c && c <= '\u{200A}')
        || c == '\u{2028}' || c == '\u{2029}' || c == '\u{202F}' || c == '\u{205F}' || c
        == '\u{3000}'
}

/// The Unicode `Alphabetic` or `Numeric` property of a character, as
/// `char::is_alphanumeric` decides it.
pub uninterp spec fn unicode_alnum(c: char) -> bool;

/// Calls `char::is_alphanumeric`; its result is named `unicode_alnum`.
/// Among ASCII characters exactly the letters and digits are alphabetic or
/// numeric, and that is stated too.
#[verifier::external_body]
pub(crate) fn is_alphanumeric(c: char) -> (r: bool)
    ensures
        r == unicode_alnum(c),
        (c as u32) < 128 ==> (r <==> (is_ascii_alpha(c) || is_ascii_digit(c))),
{
    c.is_alphanumeric()
}

/// The Unicode full lower-case mapping of a string, as `str::to_lowercase`
/// computes it.
pub uninterp spec fn unicode_lower(s: Seq<char>) -> Seq<char>;

/// Calls `str::to_lowercase`; its result is named `unicode_lower`.  The
/// lower-case mapping of an ASCII character is its ASCII lower case, so an
/// ASCII text gives its ASCII lower case, and that is stated too.
#[verifier::external_body]
pub(crate) fn to_lowercase(s: &str) -> (r: String)
    ensures
        r@ == unicode_lower(s@),
        (forall|i: int| 0 <= i < s@.len() ==> (#[trigger] s@[i] as u32) < 128) ==> r@ == lower(s@),
{
    s.to_lowercase()
}

pub fn lower_c(c: char) -> (r: char)
    ensures
        r == lower_char(c),
{
    if 'A' <= c && c <= 'Z' {
        ((c as u8) + 32) as char
    } else {
        c
    }
}

/// `to_ascii_lowercase`.
pub fn to_ascii_lower(v: &[char]) -> (r: Vec<char>)
    ensures
        r@ == lower(v@),
{
    let mut out: Vec<char> = Vec::new();
    let mut i: usize = 0;
    while i < v.len()
        invariant
            i <= v@.len(),
            out@ == lower(v@.take(i as int)),
        decreases v@.len() - i,
    {
        let c = lower_c(v[i]);
        out.push(c);
        assert(v@.take(i + 1) == v@.take(i as int).push(v@[i as int]));
        i += 1;
    }
    assert(v@.take(v@.len() as int) == v@);
    out
}

pub proof fn lemma_lower_len(s: Seq<char>)
    ensures
        lower(s).len() == s.len(),
{
}

/// Index of the first character at or after `from` that fails
/// `!is_ws`, i.e. the end of a run of white space.
pub fn skip_ws(v: &[char], from: usize) -> (r: usize)
    requires
        from <= v@.len(),
    ensures
        r == from + span(v@.skip(from as int), ws_pred()),
        r <= v@.len(),
{
    let mut i = from;
    while i < v.len() && is_whitespace(v[i])
        invariant
            from <= i <= v@.len(),
            forall|j: int| from <= j < i ==> is_ws(#[trigger] v@[j]),
        decreases v@.len() - i,
    {
        i += 1;
    }
    let ghost s = v@.skip(from as int);
    assert forall|j: int| 0 <= j < i - from implies (ws_pred())(#[trigger] s[j]) by {
        assert(s[j] == v@[j + from]);
    }
    if i < v.len() {
        assert(s[i - from] == v@[i as int]);
    }
    proof {
        lemma_span_is(s, ws_pred(), i - from);
    }
    i
}

/// Index one past the last character before `to` that is not white space.
pub fn rskip_ws(v: &[char], from: usize, to: usize) -> (r: usize)
    requires
        from <= to <= v@.len(),
    ensures
        r == to - rspan(v@.subrange(from as int, to as int), ws_pred()),
        from <= r <= to,
{
    let mut i = to;
    while i > from && is_whitespace(v[i - 1])
        invariant
            from <= i <= to,
            to <= v@.len(),
            forall|j: int| i <= j < to ==> is_ws(#[trigger] v@[j]),
        decreases i,
    {
        i -= 1;
    }
    let ghost s = v@.subrange(from as int, to as int);
    assert forall|j: int| s.len() - (to - i) <= j < s.len() implies (ws_pred())(#[trigger] s[j]) by {
        assert(s[j] == v@[j + from]);
    }
    if i > from {
        assert(s[s.len() - (to - i) - 1] == v@[i - 1]);
    }
    proof {
        lemma_rspan_is(s, ws_pred(), to - i);
    }
    i
}

pub proof fn lemma_trim_range(s: Seq<char>)
    ensures
        ({
            let a = span(s, ws_pred()) as int;
            let t = s.skip(a);
            trim(s) == s.subrange(a, s.len() - rspan(t, ws_pred()))
        }),
{
    lemma_span_le(s, ws_pred());
    let a = span(s, ws_pred()) as int;
    let t = s.skip(a);
    lemma_rspan_le(t, ws_pred());
    assert(trim(s) =~= s.subrange(a, s.len() - rspan(t, ws_pred())));
}

/// Trimming twice is trimming once.
pub proof fn lemma_trim_idem(s: Seq<char>)
    ensures
        trim(trim(s)) == trim(s),
{
    lemma_span_le(s, ws_pred());
    let a = span(s, ws_pred()) as int;
    let t = s.skip(a);
    lemma_rspan_le(t, ws_pred());
    let u = trim(s);
    assert(u =~= t.take(t.len() - rspan(t, ws_pred())));
    if u.len() > 0 {
        assert(u[0] == t[0]);
        assert(t[0] == s[a]);
        lemma_span_is(u, ws_pred(), 0);
        assert(u.skip(0) =~= u);
        assert(u[u.len() - 1] == t[t.len() - rspan(t, ws_pred()) - 1]);
        lemma_rspan_is(u, ws_pred(), 0);
        assert(u.take(u.len() as int) =~= u);
    } else {
        assert(trim(u) =~= u);
    }
}

/// Bounds `(a, b)` of the trimmed part of `v[from..to]`.
pub fn trim_bounds(v: &[char], from: usize, to: usize) -> (r: (usize, usize))
    requires
        from <= to <= v@.len(),
    ensures
        from <= r.0 <= r.1 <= to,
        v@.subrange(r.0 as int, r.1 as int) == trim(v@.subrange(from as int, to as int)),
{
    let s = Ghost(v@.subrange(from as int, to as int));
    let mut a = from;
    while a < to && is_whitespace(v[a])
        invariant
            from <= a <= to,
            to <= v@.len(),
            forall|j: int| from <= j < a ==> is_ws(#[trigger] v@[j]),
        decreases to - a,
    {
        a += 1;
    }
    proof {
        assert forall|j: int| 0 <= j < a - from implies (ws_pred())(#[trigger] s@[j]) by {
            assert(s@[j] == v@[j + from]);
        }
        if a < to {
            assert(s@[a - from] == v@[a as int]);
        }
        lemma_span_is(s@, ws_pred(), a - from);
    }
    let b = rskip_ws(v, a, to);
    proof {
        lemma_trim_range(s@);
        let t = s@.skip(a - from);
        assert(t =~= v@.subrange(a as int, to as int));
        assert(v@.subrange(a as int, b as int) =~= s@.subrange(a - from, s@.len() - rspan(t, ws_pred())));
    }
    (a, b)
}

/// Trimming never makes a sequence longer.
pub proof fn lemma_trim_len(s: Seq<char>)
    ensures
        trim(s).len() <= s.len(),
{
    lemma_span_le(s, ws_pred());
    lemma_rspan_le(trim_start(s), ws_pred());
}

/// `str::trim` on characters.
pub fn trim_chars(v: &[char]) -> (r: Vec<char>)
    ensures
        r@ == trim(v@),
{
    let (a, b) = trim_bounds(v, 0, v.len());
    assert(v@.subrange(0, v@.len() as int) =~= v@);
    vstd::slice::slice_to_vec(vstd::slice::slice_subrange(v, a, b))
}

/// `str::trim` on a string.
pub fn trim_str(s: &str) -> (r: Vec<char>)
    ensures
        r@ == trim(s@),
{
    let v = chars_of(s);
    trim_chars(v.as_slice())
}

/// Whether `pat` occurs in `v` at index `i`.
pub fn matches_at(v: &[char], i: usize, pat: &[char]) -> (r: bool)
    ensures
        r == at(v@, i as int, pat@),
{
    if i > v.len() || pat.len() > v.len() - i {
        return false;
    }
    let mut k: usize = 0;
    while k < pat.len()
        invariant
            k <= pat@.len(),
            i + pat@.len() <= v@.len(),
            v@.len() == v.len(),
            forall|j: int| 0 <= j < k ==> v@[i + j] == pat@[j],
        decreases pat@.len() - k,
    {
        if v[i + k] != pat[k] {
            assert(v@.subrange(i as int, i + pat@.len())[k as int] != pat@[k as int]);
            return false;
        }
        k += 1;
    }
    assert(v@.subrange(i as int, i + pat@.len()) =~= pat@);
    true
}

/// Whether the literal `lit` occurs in `v` at index `i`.
pub fn matches_lit_at(v: &[char], i: usize, lit: &str) -> (r: bool)
    ensures
        r == at(v@, i as int, lit@),
{
    let p = chars_of(lit);
    matches_at(v, i, p.as_slice())
}

pub fn eq_chars(a: &[char], b: &[char]) -> (r: bool)
    ensures
        r == (a@ == b@),
{
    if a.len() != b.len() {
        return false;
    }
    let r = matches_at(a, 0, b);
    assert(a@.subrange(0, b@.len() as int) =~= a@);
    r
}

/// `v == lit`.
pub fn eq_lit(v: &[char], lit: &str) -> (r: bool)
    ensures
        r == (v@ == lit@),
{
    let p = chars_of(lit);
    eq_chars(v, p.as_slice())
}

/// `v.starts_with(lit)`.
pub fn starts_lit(v: &[char], lit: &str) -> (r: bool)
    ensures
        r == starts(v@, lit@),
{
    matches_lit_at(v, 0, lit)
}

/// `v.ends_with(lit)`.
pub fn ends_lit(v: &[char], lit: &str) -> (r: bool)
    ensures
        r == ends(v@, lit@),
{
    let p = chars_of(lit);
    if p.len() > v.len() {
        return false;
    }
    matches_at(v, v.len() - p.len(), p.as_slice())
}

/// `eq_ignore_ascii_case`.
pub fn eq_ignore_case(a: &[char], b: &[char]) -> (r: bool)
    ensures
        r == eq_ic(a@, b@),
{
    let la = to_ascii_lower(a);
    let lb = to_ascii_lower(b);
    eq_chars(la.as_slice(), lb.as_slice())
}

pub fn eq_ignore_case_lit(a: &[char], lit: &str) -> (r: bool)
    ensures
        r == eq_ic(a@, lit@),
{
    let p = chars_of(lit);
    eq_ignore_case(a, p.as_slice())
}

/// Index of the first `c` in `v[from..]`, or `v.len()`.
pub fn find_char_from(v: &[char], from: usize, c: char) -> (r: usize)
    requires
        from <= v@.len(),
    ensures
        r == from + first_of(v@.skip(from as int), c),
        from <= r <= v@.len(),
        r < v@.len() ==> v@[r as int] == c,
        forall|j: int| from <= j < r ==> v@[j] != c,
{
    let mut i = from;
    while i < v.len() && v[i] != c
        invariant
            from <= i <= v@.len(),
            forall|j: int| from <= j < i ==> v@[j] != c,
        decreases v@.len() - i,
    {
        i += 1;
    }
    let ghost s = v@.skip(from as int);
    assert forall|j: int| 0 <= j < i - from implies (ne_pred(c))(#[trigger] s[j]) by {
        assert(s[j] == v@[j + from]);
    }
    if i < v.len() {
        assert(s[i - from] == v@[i as int]);
    }
    proof {
        lemma_span_is(s, ne_pred(c), i - from);
    }
    i
}

/// Whether `c` occurs in `v`.
pub fn has_char(v: &[char], c: char) -> (r: bool)
    ensures
        r == v@.contains(c),
{
    let i = find_char_from(v, 0, c);
    assert(v@.skip(0) =~= v@);
    if i < v.len() {
        assert(v@[i as int] == c);
    }
    i < v.len()
}

/// Index of the first occurrence of `pat` in `v[from..]`, if any.
pub fn find_sub_from(v: &[char], from: usize, pat: &[char]) -> (r: Option<usize>)
    requires
        from <= v@.len(),
    ensures
        r matches Some(i) ==> from <= i && at(v@, i as int, pat@) && forall|j: int|
            from <= j < i ==> !at(v@, j, pat@),
        r is None ==> forall|j: int| from <= j ==> !at(v@, j, pat@),
{
    let mut i = from;
    while i < v.len()
        invariant
            from <= i <= v@.len(),
            forall|j: int| from <= j < i ==> !at(v@, j, pat@),
        decreases v@.len() - i,
    {
        if matches_at(v, i, pat) {
            return Some(i);
        }
        i += 1;
    }
    if matches_at(v, i, pat) {
        return Some(i);
    }
    None
}

/// Whether `pat` occurs anywhere in `v`.
pub fn contains_lit(v: &[char], lit: &str) -> (r: bool)
    ensures
        r == contains_sub(v@, lit@),
{
    let p = chars_of(lit);
    let f = find_sub_from(v, 0, p.as_slice());
    match f {
        Some(i) => true,
        None => false,
    }
}

/// Index of the first white-space character at or after `from`, or `v.len()`.
pub fn skip_non_ws(v: &[char], from: usize) -> (r: usize)
    requires
        from <= v@.len(),
    ensures
        r == from + span(v@.skip(from as int), not_ws_pred()),
        r <= v@.len(),
{
    let mut i = from;
    while i < v.len() && !is_whitespace(v[i])
        invariant
            from <= i <= v@.len(),
            forall|j: int| from <= j < i ==> !is_ws(#[trigger] v@[j]),
        decreases v@.len() - i,
    {
        i += 1;
    }
    let ghost s = v@.skip(from as int);
    assert forall|j: int| 0 <= j < i - from implies (not_ws_pred())(#[trigger] s[j]) by {
        assert(s[j] == v@[j + from]);
    }
    if i < v.len() {
        assert(s[i - from] == v@[i as int]);
    }
    proof {
        lemma_span_is(s, not_ws_pred(), i - from);
    }
    i
}

/// `str::split_whitespace`.
pub fn split_whitespace(v: &[char]) -> (r: Vec<Vec<char>>)
    ensures
        vviews(r@) == words(v@),
{
    let mut out: Vec<Vec<char>> = Vec::new();
    let mut i: usize = 0;
    assert(v@.skip(0) =~= v@);
    loop
        invariant
            i <= v@.len(),
            vviews(out@) + words(v@.skip(i as int)) == words(v@),
        decreases v@.len() - i,
    {
        let a = skip_ws(v, i);
        proof {
            lemma_skip_skip(v@, i as int, a - i);
            lemma_span_le(v@.skip(i as int), ws_pred());
        }
        if a == v.len() {
            assert(words(v@.skip(i as int)) =~= Seq::<Seq<char>>::empty());
            assert(vviews(out@) + Seq::<Seq<char>>::empty() =~= vviews(out@));
            return out;
        }
        let b = skip_non_ws(v, a);
        proof {
            lemma_skip_skip(v@, a as int, b - a);
            let t = v@.skip(a as int);
            lemma_span_le(t, not_ws_pred());
            assert(t[0] == v@[a as int]);
            lemma_span_le(v@.skip(i as int), ws_pred());
            assert(t.take(b - a) =~= v@.subrange(a as int, b as int));
        }
        let w = vstd::slice::slice_to_vec(vstd::slice::slice_subrange(v, a, b));
        let ghost old_out = out@;
        out.push(w);
        proof {
            assert(vviews(out@) =~= vviews(old_out).push(w@));
            assert(words(v@.skip(i as int)) == seq![w@] + words(v@.skip(b as int)));
            assert(vviews(out@) + words(v@.skip(b as int)) =~= vviews(old_out) + (seq![w@]
                + words(v@.skip(b as int))));
        }
        i = b;
    }
}

/// Value of a digit in base 10 or 16, or -1 when `c` is not one.
pub open spec fn digit_val(c: char, radix: nat) -> int {
    if '0' <= c && c <= '9' {
        (c as int) - ('0' as int)
    } else if radix == 16 && 'a' <= c && c <= 'f' {
        (c as int) - ('a' as int) + 10
    } else if radix == 16 && 'A' <= c && c <= 'F' {
        (c as int) - ('A' as int) + 10
    } else {
        -1
    }
}

pub open spec fn all_digits(s: Seq<char>, radix: nat) -> bool {
    forall|i: int| 0 <= i < s.len() ==> digit_val(#[trigger] s[i], radix) >= 0
}

/// The number that the digits `s` write in base `radix`.
pub open spec fn digits_value(s: Seq<char>, radix: nat) -> nat
    decreases s.len(),
{
    if s.len() == 0 {
        0
    } else {
        (digits_value(s.drop_last(), radix) * radix + digit_val(s.last(), radix)) as nat
    }
}

/// `from_str_radix` for an unsigned type whose largest value is `max`: an
/// optional `+`, then at least one digit, and a value that fits.
pub open spec fn parse_unsigned(s: Seq<char>, radix: nat, max: nat) -> Option<nat> {
    let d = if s.len() > 0 && s[0] == '+' {
        s.drop_first()
    } else {
        s
    };
    if d.len() == 0 || !all_digits(d, radix) || digits_value(d, radix) > max {
        None
    } else {
        Some(digits_value(d, radix))
    }
}

pub proof fn lemma_digits_value_mono(s: Seq<char>, radix: nat)
    requires
        radix == 10 || radix == 16,
        all_digits(s, radix),
        s.len() > 0,
    ensures
        digits_value(s, radix) >= digits_value(s.drop_last(), radix),
{
    assert(digit_val(s.last(), radix) >= 0);
    assert(digits_value(s.drop_last(), radix) * radix >= digits_value(s.drop_last(), radix)) by (nonlinear_arith)
        requires radix >= 1;
}

fn digit_of(c: char, radix: u32) -> (r: Option<u32>)
    requires
        radix == 10 || radix == 16,
    ensures
        r matches Some(d) ==> d == digit_val(c, radix as nat) && d < radix,
        r is None ==> digit_val(c, radix as nat) < 0,
{
    if '0' <= c && c <= '9' {
        Some((c as u32) - ('0' as u32))
    } else if radix == 16 && 'a' <= c && c <= 'f' {
        Some((c as u32) - ('a' as u32) + 10)
    } else if radix == 16 && 'A' <= c && c <= 'F' {
        Some((c as u32) - ('A' as u32) + 10)
    } else {
        None
    }
}

/// `from_str_radix` / `str::parse` for an unsigned type whose largest value
/// is `max`.
pub fn parse_uint(s: &[char], radix: u32, max: u32) -> (r: Option<u32>)
    requires
        radix == 10 || radix == 16,
    ensures
        r matches Some(v) ==> parse_unsigned(s@, radix as nat, max as nat) == Some(v as nat),
        r is None ==> parse_unsigned(s@, radix as nat, max as nat) is None,
{
    let start: usize = if s.len() > 0 && s[0] == '+' { 1 } else { 0 };
    let ghost d = if s@.len() > 0 && s@[0] == '+' { s@.drop_first() } else { s@ };
    assert(d =~= s@.skip(start as int));
    if start == s.len() {
        return None;
    }
    let mut value: u64 = 0;
    let mut i: usize = start;
    while i < s.len()
        invariant
            start <= i <= s@.len(),
            d == s@.skip(start as int),
            d == (if s@.len() > 0 && s@[0] == '+' { s@.drop_first() } else { s@ }),
            d.len() > 0,
            all_digits(d.take(i - start), radix as nat),
            value == digits_value(d.take(i - start), radix as nat),
            value <= max,
            radix == 10 || radix == 16,
        decreases s@.len() - i,
    {
        let dg = digit_of(s[i], radix);
        let ghost t = d.take(i + 1 - start);
        assert(t.drop_last() =~= d.take(i - start));
        assert(t.last() == s@[i as int]);
        match dg {
            None => {
                assert(d[i - start] == s@[i as int]);
                assert(digit_val(d[i - start], radix as nat) < 0);
                assert(!all_digits(d, radix as nat));
                return None;
            },
            Some(x) => {
                assert(value * (radix as u64) <= 0xffff_ffffu64 * 16) by (nonlinear_arith)
                    requires
                        value <= 0xffff_ffffu64,
                        radix <= 16;
                let next: u64 = value * (radix as u64) + (x as u64);
                assert(next == digits_value(t, radix as nat));
                assert forall|j: int| 0 <= j < t.len() implies digit_val(#[trigger] t[j], radix as nat) >= 0 by {
                    if j < t.len() - 1 {
                        assert(t[j] == d.take(i - start)[j]);
                    }
                }
                if next > max as u64 {
                    proof {
                        lemma_digits_value_prefix(d, radix as nat, i + 1 - start);
                    }
                    return None;
                }
                value = next;
            },
        }
        i += 1;
    }
    assert(d.take(i - start) =~= d);
    Some(value as u32)
}

/// `usize::from_str_radix`: an optional `+`, then digits whose value fits.
pub fn parse_usize(s: &[char], radix: u32) -> (r: Option<usize>)
    requires
        radix == 10 || radix == 16,
    ensures
        r matches Some(v) ==> parse_unsigned(s@, radix as nat, usize::MAX as nat) == Some(v as nat),
        r is None ==> parse_unsigned(s@, radix as nat, usize::MAX as nat) is None,
{
    let start: usize = if s.len() > 0 && s[0] == '+' { 1 } else { 0 };
    let ghost d = if s@.len() > 0 && s@[0] == '+' { s@.drop_first() } else { s@ };
    assert(d =~= s@.skip(start as int));
    if start == s.len() {
        return None;
    }
    let mut value: usize = 0;
    let mut i: usize = start;
    while i < s.len()
        invariant
            start <= i <= s@.len(),
            d == s@.skip(start as int),
            d == (if s@.len() > 0 && s@[0] == '+' { s@.drop_first() } else { s@ }),
            d.len() > 0,
            all_digits(d.take(i - start), radix as nat),
            value == digits_value(d.take(i - start), radix as nat),
            radix == 10 || radix == 16,
        decreases s@.len() - i,
    {
        let dg = digit_of(s[i], radix);
        let ghost t = d.take(i + 1 - start);
        assert(t.drop_last() =~= d.take(i - start));
        assert(t.last() == s@[i as int]);
        match dg {
            None => {
                assert(d[i - start] == s@[i as int]);
                assert(digit_val(d[i - start], radix as nat) < 0);
                assert(!all_digits(d, radix as nat));
                return None;
            },
            Some(x) => {
                assert forall|j: int| 0 <= j < t.len() implies digit_val(#[trigger] t[j], radix as nat) >= 0 by {
                    if j < t.len() - 1 {
                        assert(t[j] == d.take(i - start)[j]);
                    }
                }
                let m = value.checked_mul(radix as usize);
                let next = match m {
                    Some(mv) => mv.checked_add(x as usize),
                    None => None,
                };
                match next {
                    Some(nv) => {
                        assert(nv == digits_value(t, radix as nat));
                        value = nv;
                    },
                    None => {
                        assert(digits_value(t, radix as nat) > usize::MAX) by (nonlinear_arith)
                            requires
                                digits_value(t, radix as nat) == value * radix + x,
                                m is None ==> value * radix > usize::MAX,
                                m matches Some(mv) ==> mv == value * radix && mv + x > usize::MAX,
                        ;
                        proof {
                            lemma_digits_value_prefix(d, radix as nat, i + 1 - start);
                        }
                        return None;
                    },
                }
            },
        }
        i += 1;
    }
    assert(d.take(i - start) =~= d);
    Some(value)
}

/// A longer run of digits never writes a smaller number.
pub proof fn lemma_digits_value_prefix(s: Seq<char>, radix: nat, k: int)
    requires
        radix == 10 || radix == 16,
        0 <= k <= s.len(),
    ensures
        all_digits(s, radix) ==> digits_value(s.take(k), radix) <= digits_value(s, radix),
    decreases s.len() - k,
{
    if k < s.len() && all_digits(s, radix) {
        lemma_digits_value_prefix(s, radix, k + 1);
        let t = s.take(k + 1);
        assert(t.drop_last() =~= s.take(k));
        assert forall|j: int| 0 <= j < t.len() implies digit_val(#[trigger] t[j], radix) >= 0 by {
            assert(t[j] == s[j]);
        }
        lemma_digits_value_mono(t, radix);
    } else if k == s.len() {
        assert(s.take(k) =~= s);
    }
}

/// The first index at or after `from` where `pat` occurs.
pub open spec fn sub_pos(s: Seq<char>, pat: Seq<char>, from: int) -> Option<int>
    decreases s.len() + 1 - from,
{
    if from < 0 || from + pat.len() > s.len() {
        None
    } else if at(s, from, pat) {
        Some(from)
    } else {
        sub_pos(s, pat, from + 1)
    }
}

pub proof fn lemma_sub_pos_bound(s: Seq<char>, pat: Seq<char>, from: int)
    ensures
        sub_pos(s, pat, from) matches Some(i) ==> from <= i && i + pat.len() <= s.len() && at(s, i, pat),
    decreases s.len() + 1 - from,
{
    if !(from < 0 || from + pat.len() > s.len()) && !at(s, from, pat) {
        lemma_sub_pos_bound(s, pat, from + 1);
    }
}

pub proof fn lemma_sub_pos(s: Seq<char>, pat: Seq<char>, from: int, i: int)
    requires
        0 <= from <= i,
        forall|j: int| from <= j < i ==> !at(s, j, pat),
    ensures
        at(s, i, pat) ==> sub_pos(s, pat, from) == Some(i),
        (forall|j: int| i <= j ==> !at(s, j, pat)) ==> sub_pos(s, pat, from) is None,
    decreases i - from,
{
    if from < i {
        lemma_sub_pos(s, pat, from + 1, i);
    } else {
        if forall|j: int| i <= j ==> !at(s, j, pat) {
            lemma_sub_pos_none(s, pat, from);
        }
    }
}

pub proof fn lemma_sub_pos_none(s: Seq<char>, pat: Seq<char>, from: int)
    requires
        0 <= from,
        forall|j: int| from <= j ==> !at(s, j, pat),
    ensures
        sub_pos(s, pat, from) is None,
    decreases s.len() + 1 - from,
{
    if from + pat.len() <= s.len() {
        lemma_sub_pos_none(s, pat, from + 1);
    }
}

/// `str::find` from `from`.
pub fn find_sub(v: &[char], from: usize, pat: &[char]) -> (r: Option<usize>)
    requires
        from <= v@.len(),
    ensures
        r matches Some(i) ==> sub_pos(v@, pat@, from as int) == Some(i as int),
        r is None ==> sub_pos(v@, pat@, from as int) is None,
{
    let f = find_sub_from(v, from, pat);
    proof {
        match f {
            Some(i) => {
                lemma_sub_pos(v@, pat@, from as int, i as int);
            },
            None => {
                lemma_sub_pos_none(v@, pat@, from as int);
            },
        }
    }
    f
}

/// `str::split(c)` on characters.
pub fn split_char(v: &[char], c: char) -> (r: Vec<Vec<char>>)
    ensures
        vviews(r@) == split_on(v@, c),
{
    let mut out: Vec<Vec<char>> = Vec::new();
    let mut i: usize = 0;
    assert(v@.skip(0) =~= v@);
    loop
        invariant
            i <= v@.len(),
            vviews(out@) + split_on(v@.skip(i as int), c) == split_on(v@, c),
        decreases v@.len() - i,
    {
        let j = find_char_from(v, i, c);
        let ghost rest = v@.skip(i as int);
        proof {
            lemma_span_le(rest, ne_pred(c));
            assert(rest.take(j - i) =~= v@.subrange(i as int, j as int));
        }
        let piece = vstd::slice::slice_to_vec(vstd::slice::slice_subrange(v, i, j));
        let ghost before = out@;
        out.push(piece);
        assert(vviews(out@) =~= vviews(before).push(piece@));
        if j == v.len() {
            assert(split_on(rest, c) == seq![rest]);
            assert(rest =~= piece@);
            assert(vviews(out@) + Seq::<Seq<char>>::empty() =~= vviews(before) + split_on(rest, c));
            return out;
        }
        proof {
            lemma_skip_skip(v@, i as int, j - i + 1);
            assert(vviews(out@) + split_on(v@.skip(j + 1), c) =~= vviews(before) + split_on(rest, c));
        }
        i = j + 1;
    }
}

/// `s.replace(a, b)` for single characters.
pub open spec fn replace_char(s: Seq<char>, a: char, b: char) -> Seq<char> {
    s.map_values(|x: char| if x == a { b } else { x })
}

pub fn replace_chars(v: &[char], a: char, b: char) -> (r: Vec<char>)
    ensures
        r@ == replace_char(v@, a, b),
{
    let mut out: Vec<char> = Vec::new();
    let mut i: usize = 0;
    while i < v.len()
        invariant
            i <= v@.len(),
            out@ == replace_char(v@.take(i as int), a, b),
        decreases v@.len() - i,
    {
        let x = v[i];
        out.push(if x == a { b } else { x });
        assert(v@.take(i + 1) == v@.take(i as int).push(v@[i as int]));
        i += 1;
    }
    assert(v@.take(v@.len() as int) =~= v@);
    out
}

/// Pieces joined with `sep` between them.
pub open spec fn join(parts: Seq<Seq<char>>, sep: Seq<char>) -> Seq<char>
    decreases parts.len(),
{
    if parts.len() == 0 {
        Seq::empty()
    } else if parts.len() == 1 {
        parts[0]
    } else {
        join(parts.drop_last(), sep) + sep + parts.last()
    }
}

/// `parts.join(sep)`.
pub fn join_chars(parts: &Vec<Vec<char>>, sep: &[char]) -> (r: Vec<char>)
    ensures
        r@ == join(vviews(parts@), sep@),
{
    let mut out: Vec<char> = Vec::new();
    let mut i: usize = 0;
    while i < parts.len()
        invariant
            i <= parts@.len(),
            out@ == join(vviews(parts@).take(i as int), sep@),
        decreases parts@.len() - i,
    {
        let ghost o = out@;
        if i > 0 {
            append_chars(&mut out, sep);
        }
        append_chars(&mut out, parts[i].as_slice());
        proof {
            let t = vviews(parts@).take(i + 1);
            assert(t.drop_last() =~= vviews(parts@).take(i as int));
            if i == 0 {
                assert(t.len() == 1);
            }
        }
        i += 1;
    }
    assert(vviews(parts@).take(parts@.len() as int) =~= vviews(parts@));
    out
}

/// Appends characters to `out`.
pub fn append_chars(out: &mut Vec<char>, v: &[char])
    ensures
        final(out)@ == old(out)@ + v@,
{
    let mut i: usize = 0;
    while i < v.len()
        invariant
            i <= v@.len(),
            out@ == old(out)@ + v@.take(i as int),
        decreases v@.len() - i,
    {
        out.push(v[i]);
        assert(v@.take(i + 1) == v@.take(i as int).push(v@[i as int]));
        i += 1;
    }
    assert(v@.take(v@.len() as int) =~= v@);
}

/// The decimal digits of `n`.
pub open spec fn dec(n: nat) -> Seq<char>
    decreases n,
{
    if n < 10 {
        seq![(('0' as nat) + n) as char]
    } else {
        dec(n / 10) + seq![(('0' as nat) + n % 10) as char]
    }
}

/// `n.to_string()` for a `u16` value.
pub fn dec_u16(n: u16) -> (r: Vec<char>)
    ensures
        r@ == dec(n as nat),
    decreases n,
{
    if n < 10 {
        let c = (('0' as u8) + (n as u8)) as char;
        vec![c]
    } else {
        let mut r = dec_u16(n / 10);
        let c = (('0' as u8) + ((n % 10) as u8)) as char;
        r.push(c);
        r
    }
}

/// `n.to_string()` for a `usize` value.
pub fn dec_usize(n: usize) -> (r: Vec<char>)
    ensures
        r@ == dec(n as nat),
    decreases n,
{
    if n < 10 {
        let c = (('0' as u8) + (n as u8)) as char;
        vec![c]
    } else {
        let mut r = dec_usize(n / 10);
        let c = (('0' as u8) + ((n % 10) as u8)) as char;
        r.push(c);
        r
    }
}

/// `s` up to and including its last `c`, or `s` followed by `c` when it has
/// none (how a base directory is taken from a path).
pub open spec fn dir_of(s: Seq<char>, c: char) -> Seq<char> {
    let r = rspan(s, ne_pred(c));
    if r < s.len() {
        s.take(s.len() - r)
    } else {
        s.push(c)
    }
}

/// `dir_of` on characters: truncates after the last `c` or appends one.
pub fn dir_chars(v: &[char], c: char) -> (r: Vec<char>)
    ensures
        r@ == dir_of(v@, c),
{
    let mut i = v.len();
    while i > 0 && v[i - 1] != c
        invariant
            i <= v@.len(),
            forall|j: int| i <= j < v@.len() ==> v@[j] != c,
        decreases i,
    {
        i -= 1;
    }
    let ghost s = v@;
    assert forall|j: int| s.len() - (v@.len() - i) <= j < s.len() implies (ne_pred(c))(#[trigger] s[j]) by {
    }
    proof {
        lemma_rspan_is(s, ne_pred(c), v@.len() - i);
    }
    if i > 0 {
        let r = vstd::slice::slice_to_vec(vstd::slice::slice_subrange(v, 0, i));
        r
    } else {
        let mut r = vstd::slice::slice_to_vec(v);
        r.push(c);
        r
    }
}

} // verus!
