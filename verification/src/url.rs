//! URLs: parsing `http`, `https` and `file` URLs and resolving links
//! against a base URL.
use vstd::prelude::*;

use crate::text::{
    append_chars, at, chars_of, dec, eq_lit, find_char_from, first_of, is_ascii_alpha, join,
    join_chars, lemma_span_le, lemma_sub_pos_bound, ne_pred, parse_uint, parse_unsigned,
    replace_char, replace_chars, split_char, split_on, starts, string_of, sub_pos, trim,
    trim_chars, vviews, ends,
};

verus! {

pub const HTTP_PORT: u16 = 80;

pub const HTTPS_PORT: u16 = 443;

pub const FILE_PORT: u16 = 0;

/// A URL split into scheme, host, port and path (the path keeps any query).
pub struct URL {
    pub scheme: String,
    pub host: String,
    pub port: u16,
    pub path: String,
}

/// The plain-text model of a URL.
pub struct UrlView {
    pub scheme: Seq<char>,
    pub host: Seq<char>,
    pub port: u16,
    pub path: Seq<char>,
}

impl View for URL {
    type V = UrlView;

    open spec fn view(&self) -> UrlView {
        UrlView { scheme: self.scheme@, host: self.host@, port: self.port, path: self.path@ }
    }
}

impl Clone for URL {
    fn clone(&self) -> (r: Self)
        ensures
            r@ == self@,
    {
        URL {
            scheme: self.scheme.clone(),
            host: self.host.clone(),
            port: self.port,
            path: self.path.clone(),
        }
    }
}

// ---------------------------------------------------------------------
// Paths.
// ---------------------------------------------------------------------

/// A drive letter at the start: `C:`.
pub open spec fn is_drive(p: Seq<char>) -> bool {
    p.len() >= 2 && p[1] == ':' && is_ascii_alpha(p[0])
}

/// `/C:...` loses its leading slash.
pub open spec fn strip_slash_before_drive(p: Seq<char>) -> Seq<char> {
    if p.len() >= 3 && p[0] == '/' && p[2] == ':' && is_ascii_alpha(p[1]) {
        p.drop_first()
    } else {
        p
    }
}

/// One path segment applied to the segments kept so far: empty and `.`
/// segments are dropped, `..` removes the last kept one (but not a lone
/// drive such as `C:`).
pub open spec fn norm_step(out: Seq<Seq<char>>, seg0: Seq<char>) -> Seq<Seq<char>> {
    let seg = trim(seg0);
    if seg.len() == 0 || seg == "."@ {
        out
    } else if seg == ".."@ {
        if out.len() == 0 {
            out
        } else if out.len() == 1 && (out[0].len() == 0 || ends(out[0], ":"@)) {
            out
        } else {
            out.drop_last()
        }
    } else {
        out.push(seg)
    }
}

pub open spec fn norm_fold(parts: Seq<Seq<char>>, out: Seq<Seq<char>>) -> Seq<Seq<char>>
    decreases parts.len(),
{
    if parts.len() == 0 {
        out
    } else {
        norm_fold(parts.drop_first(), norm_step(out, parts[0]))
    }
}

/// A `/`-separated path with `.`, `..` and empty segments resolved; a
/// leading `/` is kept and a bare drive `C:` becomes `C:/`.
pub open spec fn normalize_path(p: Seq<char>) -> Seq<char> {
    let out = norm_fold(split_on(p, '/'), Seq::empty());
    let j = join(out, "/"@);
    let j2 = if p.len() > 0 && p[0] == '/' && !(j.len() > 0 && j[0] == '/') {
        seq!['/'] + j
    } else {
        j
    };
    if j2.len() == 2 && j2[1] == ':' && (j2[0] as u32) < 128 {
        j2.push('/')
    } else {
        j2
    }
}

// ---------------------------------------------------------------------
// Parsing.
// ---------------------------------------------------------------------

pub open spec fn scheme_sep() -> Seq<char> {
    seq![':', '/', '/']
}

/// The scheme of `u`, if it has `://`.
pub open spec fn scheme_of(u: Seq<char>) -> Option<Seq<char>> {
    match sub_pos(u, scheme_sep(), 0) {
        Some(i) => Some(u.take(i)),
        None => None,
    }
}

/// What follows the first `://`.
pub open spec fn after_scheme(u: Seq<char>) -> Seq<char> {
    match sub_pos(u, scheme_sep(), 0) {
        Some(i) => u.skip(i + 3),
        None => Seq::empty(),
    }
}

/// Host and path of an `http`/`https` URL after `://`, and the text after a
/// `:` in the host, if any.
pub open spec fn host_part(rest: Seq<char>) -> Seq<char> {
    let r = if rest.contains('/') {
        rest
    } else {
        rest.push('/')
    };
    r.take(first_of(r, '/') as int)
}

pub open spec fn http_path(rest: Seq<char>) -> Seq<char> {
    let r = if rest.contains('/') {
        rest
    } else {
        rest.push('/')
    };
    seq!['/'] + r.skip(first_of(r, '/') as int + 1)
}

/// The URLs that `URL::new` accepts: a scheme among `http`, `https`,
/// `file`, and for `http`/`https` a port that fits in `u16` after a `:`.
pub open spec fn url_valid(u: Seq<char>) -> bool {
    match scheme_of(u) {
        None => false,
        Some(sch) => {
            if sch == "file"@ {
                true
            } else if sch == "http"@ || sch == "https"@ {
                let host = host_part(after_scheme(u));
                host.contains(':') ==> parse_unsigned(
                    host.skip(first_of(host, ':') as int + 1),
                    10,
                    0xffff,
                ) is Some
            } else {
                false
            }
        },
    }
}

/// Host and path of a `file` URL after `://`.
pub open spec fn file_parts(rest: Seq<char>) -> (Seq<char>, Seq<char>) {
    let path = replace_char(rest, '\\', '/');
    let (host, path2) = if !(path.len() > 0 && path[0] == '/') && !is_drive(path) {
        if path.contains('/') {
            let i = first_of(path, '/') as int;
            (path.take(i), seq!['/'] + path.skip(i + 1))
        } else {
            (path, seq!['/'])
        }
    } else {
        (Seq::empty(), path)
    };
    let host2 = if host == "localhost"@ {
        Seq::empty()
    } else {
        host
    };
    (host2, normalize_path(strip_slash_before_drive(path2)))
}

/// The URL that `URL::new` builds.
pub open spec fn url_of(u: Seq<char>) -> UrlView {
    let sch = scheme_of(u)->0;
    let rest = after_scheme(u);
    if sch == "file"@ {
        let (h, p) = file_parts(rest);
        UrlView { scheme: sch, host: h, port: FILE_PORT, path: p }
    } else {
        let host = host_part(rest);
        let path = http_path(rest);
        let default_port = if sch == "http"@ {
            HTTP_PORT
        } else {
            HTTPS_PORT
        };
        if host.contains(':') {
            let i = first_of(host, ':') as int;
            UrlView {
                scheme: sch,
                host: host.take(i),
                port: parse_unsigned(host.skip(i + 1), 10, 0xffff)->0 as u16,
                path,
            }
        } else {
            UrlView { scheme: sch, host, port: default_port, path }
        }
    }
}

pub proof fn lemma_first_of(s: Seq<char>, c: char)
    ensures
        first_of(s, c) <= s.len(),
        first_of(s, c) < s.len() <==> s.contains(c),
        first_of(s, c) < s.len() ==> s[first_of(s, c) as int] == c,
        forall|j: int| 0 <= j < first_of(s, c) ==> s[j] != c,
{
    lemma_span_le(s, ne_pred(c));
    if s.contains(c) {
        let k = choose|k: int| 0 <= k < s.len() && s[k] == c;
        if first_of(s, c) == s.len() {
            assert(s[k] != c);
        }
    }
}

/// Index of `c` in `v`, or `None`.
fn find(v: &[char], c: char) -> (r: Option<usize>)
    ensures
        r matches Some(i) ==> i < v@.len() && i == first_of(v@, c) && v@.contains(c),
        r is None ==> !v@.contains(c) && first_of(v@, c) == v@.len(),
{
    let i = find_char_from(v, 0, c);
    assert(v@.skip(0) =~= v@);
    proof {
        lemma_first_of(v@, c);
    }
    if i < v.len() {
        Some(i)
    } else {
        None
    }
}

fn strip_leading_slash_before_drive(p: Vec<char>) -> (r: Vec<char>)
    ensures
        r@ == strip_slash_before_drive(p@),
{
    if p.len() >= 3 && p[0] == '/' && p[2] == ':' && is_ascii_alphabetic(p[1]) {
        let r = vstd::slice::slice_to_vec(vstd::slice::slice_subrange(p.as_slice(), 1, p.len()));
        assert(r@ =~= p@.drop_first());
        r
    } else {
        p
    }
}

pub fn is_ascii_alphabetic(c: char) -> (r: bool)
    ensures
        r == is_ascii_alpha(c),
{
    ('A' <= c && c <= 'Z') || ('a' <= c && c <= 'z')
}

fn normalize_file_path(p: Vec<char>) -> (r: Vec<char>)
    ensures
        r@ == normalize_path(p@),
{
    let parts = split_char(p.as_slice(), '/');
    let ghost ps = vviews(parts@);
    let mut out: Vec<Vec<char>> = Vec::new();
    let mut i: usize = 0;
    assert(ps.skip(0) =~= ps);
    assert(vviews(out@) =~= Seq::<Seq<char>>::empty());
    while i < parts.len()
        invariant
            i <= parts@.len(),
            ps == vviews(parts@),
            ps == split_on(p@, '/'),
            norm_fold(ps.skip(i as int), vviews(out@)) == norm_fold(ps, Seq::empty()),
        decreases parts@.len() - i,
    {
        let seg = trim_chars(parts[i].as_slice());
        let ghost o = vviews(out@);
        assert(ps.skip(i as int).drop_first() =~= ps.skip(i + 1));
        assert(ps.skip(i as int)[0] == parts@[i as int]@);
        if seg.len() == 0 || eq_lit(seg.as_slice(), ".") {
        } else if eq_lit(seg.as_slice(), "..") {
            if out.len() > 0 {
                let last_is_drive = out.len() == 1 && (out[0].len() == 0 || crate::text::ends_lit(
                    out[0].as_slice(),
                    ":",
                ));
                if !last_is_drive {
                    let ghost ob = out@;
                    out.pop();
                    assert(vviews(out@) =~= o.drop_last());
                }
            }
        } else {
            out.push(seg);
            assert(vviews(out@) =~= o.push(seg@));
        }
        i += 1;
    }
    assert(ps.skip(i as int) =~= Seq::<Seq<char>>::empty());
    let slash = chars_of("/");
    let mut joined = join_chars(&out, slash.as_slice());
    if p.len() > 0 && p[0] == '/' && !(joined.len() > 0 && joined[0] == '/') {
        let mut j2 = vec!['/'];
        append_chars(&mut j2, joined.as_slice());
        joined = j2;
    }
    if joined.len() == 2 && joined[1] == ':' && (joined[0] as u32) < 128 {
        joined.push('/');
    }
    joined
}

impl URL {
    /// Parses an `http`, `https` or `file` URL.  The input must be
    /// `url_valid` (which `is_valid_url` tests); callers check it first.
    pub fn new(url: &str) -> (r: Self)
        requires
            url_valid(url@),
        ensures
            r@ == url_of(url@),
    {
        let u = chars_of(url);
        let sep = chars_of("://");
        proof {
            reveal_strlit("://");
            assert("://"@ =~= scheme_sep());
            lemma_sub_pos_bound(u@, scheme_sep(), 0);
        }
        let i = match crate::text::find_sub(u.as_slice(), 0, sep.as_slice()) {
            Some(i) => i,
            None => {
                return vstd::pervasive::unreached();
            },
        };
        assert(u@.len() == u.len());
        let scheme = vstd::slice::slice_to_vec(vstd::slice::slice_subrange(u.as_slice(), 0, i));
        let rest = vstd::slice::slice_to_vec(vstd::slice::slice_subrange(u.as_slice(), i + 3, u.len()));
        assert(scheme@ =~= u@.take(i as int));
        assert(rest@ =~= u@.skip(i + 3));
        if eq_lit(scheme.as_slice(), "file") {
            let mut host: Vec<char> = Vec::new();
            let mut path = replace_chars(rest.as_slice(), '\\', '/');
            let ghost path0 = path@;
            if !(path.len() > 0 && path[0] == '/') {
                let is_windows_drive = path.len() >= 2 && path[1] == ':' && is_ascii_alphabetic(path[0]);
                if !is_windows_drive {
                    match find(path.as_slice(), '/') {
                        Some(k) => {
                            host = vstd::slice::slice_to_vec(vstd::slice::slice_subrange(path.as_slice(), 0, k));
                            let mut np = vec!['/'];
                            append_chars(&mut np, vstd::slice::slice_subrange(path.as_slice(), k + 1, path.len()));
                            assert(host@ =~= path0.take(k as int));
                            assert(np@ =~= seq!['/'] + path0.skip(k + 1));
                            path = np;
                        },
                        None => {
                            host = path;
                            path = vec!['/'];
                            assert(path@ =~= seq!['/']);
                        },
                    }
                }
            }
            let path = strip_leading_slash_before_drive(path);
            let path = normalize_file_path(path);
            if eq_lit(host.as_slice(), "localhost") {
                host = Vec::new();
                assert(host@ =~= Seq::<char>::empty());
            }
            let r = URL {
                scheme: string_of(scheme.as_slice()),
                host: string_of(host.as_slice()),
                port: FILE_PORT,
                path: string_of(path.as_slice()),
            };
            return r;
        }
        let mut rest = rest;
        let ghost rest0 = rest@;
        if find(rest.as_slice(), '/').is_none() {
            rest.push('/');
        }
        let k = match find(rest.as_slice(), '/') {
            Some(k) => k,
            None => {
                assert(rest@.contains('/')) by {
                    assert(rest@[rest@.len() - 1] == '/');
                }
                return vstd::pervasive::unreached();
            },
        };
        let host = vstd::slice::slice_to_vec(vstd::slice::slice_subrange(rest.as_slice(), 0, k));
        let mut path = vec!['/'];
        append_chars(&mut path, vstd::slice::slice_subrange(rest.as_slice(), k + 1, rest.len()));
        assert(host@ =~= host_part(rest0));
        assert(path@ =~= http_path(rest0));
        let default_port = if eq_lit(scheme.as_slice(), "http") {
            HTTP_PORT
        } else {
            HTTPS_PORT
        };
        match find(host.as_slice(), ':') {
            Some(c) => {
                let h = vstd::slice::slice_to_vec(vstd::slice::slice_subrange(host.as_slice(), 0, c));
                let digits = vstd::slice::slice_subrange(host.as_slice(), c + 1, host.len());
                assert(digits@ =~= host@.skip(c + 1));
                assert(h@ =~= host@.take(c as int));
                let port = match parse_uint(digits, 10, 0xffff) {
                    Some(p) => p as u16,
                    None => {
                        return vstd::pervasive::unreached();
                    },
                };
                URL {
                    scheme: string_of(scheme.as_slice()),
                    host: string_of(h.as_slice()),
                    port,
                    path: string_of(path.as_slice()),
                }
            },
            None => URL {
                scheme: string_of(scheme.as_slice()),
                host: string_of(host.as_slice()),
                port: default_port,
                path: string_of(path.as_slice()),
            },
        }
    }
}

// ---------------------------------------------------------------------
// Resolving links.
// ---------------------------------------------------------------------

pub open spec fn with_path(u: UrlView, p: Seq<char>) -> UrlView {
    UrlView { scheme: u.scheme, host: u.host, port: u.port, path: p }
}

pub open spec fn is_absolute_url(loc: Seq<char>) -> bool {
    starts(loc, "http://"@) || starts(loc, "https://"@) || starts(loc, "file://"@)
}

pub open spec fn first_is(s: Seq<char>, c: char) -> bool {
    s.len() > 0 && s[0] == c
}

/// The path of `base` before any query.
pub open spec fn before_query(p: Seq<char>) -> Seq<char> {
    p.take(first_of(p, '?') as int)
}

/// The URL that a link `loc0` on the page `base` leads to.
pub open spec fn resolve_spec(base: UrlView, loc0: Seq<char>) -> UrlView {
    let loc = trim(loc0);
    if is_absolute_url(loc) {
        url_of(loc)
    } else if base.scheme == "file"@ {
        if first_is(loc, '#') || first_is(loc, '?') {
            base
        } else if first_is(loc, '/') || is_drive(loc) {
            with_path(base, normalize_path(strip_slash_before_drive(replace_char(loc, '\\', '/'))))
        } else {
            let b = crate::text::dir_of(replace_char(base.path, '\\', '/'), '/');
            with_path(base, normalize_path(b + replace_char(loc, '\\', '/')))
        }
    } else if starts(loc, "//"@) {
        url_of(base.scheme + "://"@ + loc.skip(2))
    } else if first_is(loc, '?') {
        with_path(base, before_query(base.path) + loc)
    } else if first_is(loc, '#') {
        base
    } else if first_is(loc, '/') {
        with_path(base, loc)
    } else {
        with_path(base, crate::text::dir_of(before_query(base.path), '/') + loc)
    }
}

/// The links that `resolve_location` can follow without a URL that
/// `URL::new` refuses.
pub open spec fn location_ok(base: UrlView, loc0: Seq<char>) -> bool {
    let loc = trim(loc0);
    if is_absolute_url(loc) {
        url_valid(loc)
    } else if base.scheme == "file"@ {
        true
    } else if starts(loc, "//"@) {
        url_valid(base.scheme + "://"@ + loc.skip(2))
    } else {
        true
    }
}

impl URL {
    /// The URL that the link `loc` on this page leads to.
    pub fn resolve_location(&self, loc: &str) -> (r: Self)
        requires
            location_ok(self@, loc@),
        ensures
            r@ == resolve_spec(self@, loc@),
    {
        let l = trim_chars(chars_of(loc).as_slice());
        let ls = string_of(l.as_slice());
        if crate::text::starts_lit(l.as_slice(), "http://") || crate::text::starts_lit(l.as_slice(), "https://")
            || crate::text::starts_lit(l.as_slice(), "file://") {
            return URL::new(ls.as_str());
        }
        let sch = chars_of(self.scheme.as_str());
        if eq_lit(sch.as_slice(), "file") {
            if l.len() > 0 && (l[0] == '#' || l[0] == '?') {
                return self.clone();
            }
            let is_windows_drive = l.len() >= 2 && l[1] == ':' && is_ascii_alphabetic(l[0]);
            if (l.len() > 0 && l[0] == '/') || is_windows_drive {
                let p = replace_chars(l.as_slice(), '\\', '/');
                let p = strip_leading_slash_before_drive(p);
                let p = normalize_file_path(p);
                let mut u = self.clone();
                u.path = string_of(p.as_slice());
                return u;
            }
            let base0 = replace_chars(chars_of(self.path.as_str()).as_slice(), '\\', '/');
            let mut base = crate::text::dir_chars(base0.as_slice(), '/');
            let tail = replace_chars(l.as_slice(), '\\', '/');
            append_chars(&mut base, tail.as_slice());
            let p = normalize_file_path(base);
            let mut u = self.clone();
            u.path = string_of(p.as_slice());
            return u;
        }
        if crate::text::starts_lit(l.as_slice(), "//") {
            proof {
                reveal_strlit("//");
            }
            let mut full = chars_of(self.scheme.as_str());
            append_chars(&mut full, chars_of("://").as_slice());
            append_chars(&mut full, vstd::slice::slice_subrange(l.as_slice(), 2, l.len()));
            assert(full@ =~= self.scheme@ + "://"@ + l@.skip(2));
            return URL::new(string_of(full.as_slice()).as_str());
        }
        let path = chars_of(self.path.as_str());
        if l.len() > 0 && l[0] == '?' {
            let q = find_char_from(path.as_slice(), 0, '?');
            assert(path@.skip(0) =~= path@);
            let mut p = vstd::slice::slice_to_vec(vstd::slice::slice_subrange(path.as_slice(), 0, q));
            append_chars(&mut p, l.as_slice());
            let mut u = self.clone();
            u.path = string_of(p.as_slice());
            return u;
        }
        if l.len() > 0 && l[0] == '#' {
            return self.clone();
        }
        if l.len() > 0 && l[0] == '/' {
            let mut u = self.clone();
            u.path = ls;
            return u;
        }
        let q = find_char_from(path.as_slice(), 0, '?');
        assert(path@.skip(0) =~= path@);
        let b0 = vstd::slice::slice_subrange(path.as_slice(), 0, q);
        let mut base = crate::text::dir_chars(b0, '/');
        append_chars(&mut base, l.as_slice());
        let mut u = self.clone();
        u.path = string_of(base.as_slice());
        u
    }
}


/// Whether `URL::new` accepts a text.
pub fn is_valid_url(url: &str) -> (r: bool)
    ensures
        r == url_valid(url@),
{
    let u = chars_of(url);
    let sep = chars_of("://");
    proof {
        reveal_strlit("://");
        assert("://"@ =~= scheme_sep());
        lemma_sub_pos_bound(u@, scheme_sep(), 0);
    }
    let i = match crate::text::find_sub(u.as_slice(), 0, sep.as_slice()) {
        Some(i) => i,
        None => {
            return false;
        },
    };
    assert(u@.len() == u.len());
    assert(sep@ == scheme_sep());
    assert(i + 3 <= u@.len());
    let scheme = vstd::slice::slice_subrange(u.as_slice(), 0, i);
    assert(scheme@ =~= u@.take(i as int));
    if eq_lit(scheme, "file") {
        return true;
    }
    if !eq_lit(scheme, "http") && !eq_lit(scheme, "https") {
        return false;
    }
    let rest = vstd::slice::slice_subrange(u.as_slice(), i + 3, u.len());
    assert(rest@ =~= u@.skip(i + 3));
    let mut r = vstd::slice::slice_to_vec(rest);
    if !crate::text::has_char(rest, '/') {
        r.push('/');
    }
    let slash = find_char_from(r.as_slice(), 0, '/');
    assert(r@.skip(0) =~= r@);
    let host = vstd::slice::slice_subrange(r.as_slice(), 0, slash);
    assert(host@ =~= host_part(rest@));
    let colon = find_char_from(host, 0, ':');
    assert(host@.skip(0) =~= host@);
    if colon >= host.len() {
        assert(!host@.contains(':'));
        return true;
    }
    assert(host@.contains(':')) by {
        assert(host@[colon as int] == ':');
    }
    let port = vstd::slice::slice_subrange(host, colon + 1, host.len());
    assert(port@ =~= host@.skip(first_of(host@, ':') as int + 1));
    parse_uint(port, 10, 0xffff).is_some()
}

impl URL {
    /// Whether `resolve_location` can follow `loc` from this page.
    pub fn can_resolve(&self, loc: &str) -> (r: bool)
        ensures
            r == location_ok(self@, loc@),
    {
        let l = trim_chars(chars_of(loc).as_slice());
        let ls = string_of(l.as_slice());
        if crate::text::starts_lit(l.as_slice(), "http://") || crate::text::starts_lit(l.as_slice(), "https://")
            || crate::text::starts_lit(l.as_slice(), "file://") {
            return is_valid_url(ls.as_str());
        }
        if eq_lit(chars_of(self.scheme.as_str()).as_slice(), "file") {
            return true;
        }
        if crate::text::starts_lit(l.as_slice(), "//") {
            proof {
                reveal_strlit("//");
            }
            let mut full = chars_of(self.scheme.as_str());
            append_chars(&mut full, chars_of("://").as_slice());
            let tail = vstd::slice::slice_subrange(l.as_slice(), 2, l.len());
            assert(tail@ =~= l@.skip(2));
            append_chars(&mut full, tail);
            return is_valid_url(string_of(full.as_slice()).as_str());
        }
        true
    }
}


/// A relative link on a `file` page resolves in the page's directory: the
/// page's path up to and including its last `/`, followed by the link,
/// then normalised. The page's file name is never kept as a directory.
pub proof fn lemma_file_link_in_page_directory(base: UrlView, loc: Seq<char>, k: int)
    requires
        base.scheme == "file"@,
        0 <= k < base.path.len(),
        base.path[k] == '/',
        forall|j: int| k < j < base.path.len() ==> #[trigger] base.path[j] != '/',
        forall|j: int| 0 <= j < base.path.len() ==> #[trigger] base.path[j] != '\\',
        !starts(trim(loc), "http://"@),
        !starts(trim(loc), "https://"@),
        !starts(trim(loc), "file://"@),
        trim(loc).len() > 0,
        trim(loc)[0] != '#' && trim(loc)[0] != '?' && trim(loc)[0] != '/',
        !(trim(loc).len() >= 2 && trim(loc)[1] == ':' && is_ascii_alpha(trim(loc)[0])),
        forall|j: int| 0 <= j < trim(loc).len() ==> #[trigger] trim(loc)[j] != '\\',
    ensures
        resolve_spec(base, loc) == (UrlView {
            scheme: base.scheme,
            host: base.host,
            port: base.port,
            path: normalize_path(base.path.take(k + 1) + trim(loc)),
        }),
{
    let l = trim(loc);
    let p = base.path;
    assert(replace_char(p, '\\', '/') =~= p);
    assert(replace_char(l, '\\', '/') =~= l);
    crate::text::lemma_rspan_is(p, ne_pred('/'), p.len() - 1 - k);
    assert(p.take(p.len() - (p.len() - 1 - k)) =~= p.take(k + 1));
}


/// A relative link on an `http` or `https` page resolves in the page's
/// directory: the page's path up to and including its last `/`, followed
/// by the link.
pub proof fn lemma_web_link_in_page_directory(base: UrlView, loc: Seq<char>, k: int)
    requires
        base.scheme != "file"@,
        0 <= k < base.path.len(),
        base.path[k] == '/',
        forall|j: int| k < j < base.path.len() ==> #[trigger] base.path[j] != '/',
        forall|j: int| 0 <= j < base.path.len() ==> #[trigger] base.path[j] != '?',
        !starts(trim(loc), "http://"@),
        !starts(trim(loc), "https://"@),
        !starts(trim(loc), "file://"@),
        trim(loc).len() > 0,
        trim(loc)[0] != '#' && trim(loc)[0] != '?' && trim(loc)[0] != '/',
    ensures
        resolve_spec(base, loc) == (UrlView {
            scheme: base.scheme,
            host: base.host,
            port: base.port,
            path: base.path.take(k + 1) + trim(loc),
        }),
{
    let l = trim(loc);
    let p = base.path;
    lemma_span_le(p, ne_pred('?'));
    crate::text::lemma_span_is(p, ne_pred('?'), p.len() as int);
    assert(p.take(p.len() as int) =~= p);
    assert(!starts(l, "//"@)) by {
        reveal_strlit("//");
        if starts(l, "//"@) {
            assert(l.subrange(0, 2)[0] == "//"@[0]);
            assert(l[0] == '/');
        }
    }
    crate::text::lemma_rspan_is(p, ne_pred('/'), p.len() - 1 - k);
    assert(p.take(p.len() - (p.len() - 1 - k)) =~= p.take(k + 1));
}


/// An `http` or `https` URL is its scheme, `://`, a host and a path: the
/// host is kept, the path is kept, and the port is the scheme's default
/// (80 for `http`, 443 for `https`) when the host names none.
pub proof fn lemma_web_url_parts(scheme: Seq<char>, host: Seq<char>, path: Seq<char>)
    requires
        scheme == "http"@ || scheme == "https"@,
        forall|j: int| 0 <= j < host.len() ==> #[trigger] host[j] != '/' && host[j] != ':',
        path.len() > 0,
        path[0] == '/',
    ensures
        url_of(scheme + "://"@ + host + path) == (UrlView {
            scheme,
            host,
            port: if scheme == "http"@ {
                80u16
            } else {
                443u16
            },
            path,
        }),
{
    reveal_strlit("http");
    reveal_strlit("https");
    reveal_strlit("://");
    let u = scheme + "://"@ + host + path;
    let n = scheme.len() as int;
    assert forall|j: int| 0 <= j < n implies !at(u, j, scheme_sep()) by {
        if at(u, j, scheme_sep()) {
            assert(u.subrange(j, j + 3)[0] == u[j]);
            assert(u[j] == scheme[j]);
        }
    }
    assert(u.subrange(n, n + 3) =~= scheme_sep());
    crate::text::lemma_sub_pos(u, scheme_sep(), 0, n);
    assert(u.take(n) =~= scheme);
    let rest = host + path;
    assert(u.skip(n + 3) =~= rest);
    assert(rest[host.len() as int] == '/');
    assert forall|j: int| 0 <= j < host.len() implies (ne_pred('/'))(#[trigger] rest[j]) by {
        assert(rest[j] == host[j]);
    }
    crate::text::lemma_span_is(rest, ne_pred('/'), host.len() as int);
    assert(rest.take(host.len() as int) =~= host);
    assert(seq!['/'] + rest.skip(host.len() + 1int) =~= path);
    if host.contains(':') {
        let j = choose|j: int| 0 <= j < host.len() && host[j] == ':';
        assert(host[j] != ':');
    }
    assert(sub_pos(u, scheme_sep(), 0) == Some(n));
    assert(scheme_of(u) == Some(scheme));
    assert(after_scheme(u) == rest);
    reveal_strlit("file");
    assert(scheme != "file"@) by {
        assert("file"@[0] == 'f');
        assert(scheme[0] == 'h');
    }
    assert(rest.contains('/'));
    assert(first_of(rest, '/') == host.len());
    assert(host_part(rest) == host);
    assert(http_path(rest) == path);
}

} // verus!
