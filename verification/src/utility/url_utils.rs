//! Absolute URL strings used as keys for images, visited links and the
//! display list.
use vstd::prelude::*;

use crate::text::{
    all_digits, append_chars, at, chars_of, dec, lemma_trim_idem, dec_u16, digit_val, digits_value, eq_lit, first_of,
    lemma_sub_pos, parse_unsigned, string_of, trim, trim_chars,
};
use crate::url::{
    after_scheme, host_part, http_path, lemma_first_of, location_ok, resolve_spec, scheme_of,
    scheme_sep, url_of, url_valid, UrlView, HTTPS_PORT, HTTP_PORT, URL,
};

verus! {

/// The absolute form of a URL; a default port is left out.
pub open spec fn abs_string(u: UrlView) -> Seq<char> {
    if u.scheme == "file"@ {
        if u.path.len() > 0 && u.path[0] == '/' {
            "file://"@ + u.path
        } else {
            "file:///"@ + u.path
        }
    } else if u.scheme == "http"@ && u.port == 80 {
        "http://"@ + u.host + u.path
    } else if u.scheme == "https"@ && u.port == 443 {
        "https://"@ + u.host + u.path
    } else if u.scheme == "http"@ {
        "http://"@ + u.host + ":"@ + dec(u.port as nat) + u.path
    } else if u.scheme == "https"@ {
        "https://"@ + u.host + ":"@ + dec(u.port as nat) + u.path
    } else {
        u.scheme + "://"@ + u.host + ":"@ + dec(u.port as nat) + u.path
    }
}

/// The absolute form of a URL; a default port is left out.
pub fn url_to_abs_string(u: &URL) -> (r: String)
    ensures
        r@ == abs_string(u@),
{
    let scheme = chars_of(u.scheme.as_str());
    let host = chars_of(u.host.as_str());
    let path = chars_of(u.path.as_str());
    let mut out: Vec<char>;
    if eq_lit(scheme.as_slice(), "file") {
        if path.len() > 0 && path[0] == '/' {
            out = chars_of("file://");
        } else {
            out = chars_of("file:///");
        }
        append_chars(&mut out, path.as_slice());
        return string_of(out.as_slice());
    }
    let is_http = eq_lit(scheme.as_slice(), "http");
    let is_https = eq_lit(scheme.as_slice(), "https");
    proof {
        reveal_strlit("http");
        reveal_strlit("https");
        assert("http"@.len() != "https"@.len());
    }
    let ghost o0 = if is_http { "http://"@ } else if is_https { "https://"@ } else { scheme@ + "://"@ };
    if is_http {
        out = chars_of("http://");
    } else if is_https {
        out = chars_of("https://");
    } else {
        out = scheme;
        append_chars(&mut out, chars_of("://").as_slice());
    }
    append_chars(&mut out, host.as_slice());
    let default_port = (is_http && u.port == 80) || (is_https && u.port == 443);
    if !default_port {
        append_chars(&mut out, chars_of(":").as_slice());
        let d = dec_u16(u.port);
        append_chars(&mut out, d.as_slice());
    }
    append_chars(&mut out, path.as_slice());
    proof {
        if default_port {
            assert(out@ =~= o0 + u.host@ + u.path@);
        } else {
            assert(out@ =~= o0 + u.host@ + ":"@ + dec(u.port as nat) + u.path@);
        }
    }
    string_of(out.as_slice())
}

/// Resolves `href` (trimmed) against `base`.
pub fn normalize_against(base: &URL, href: &str) -> (r: URL)
    requires
        location_ok(base@, trim(href@)),
    ensures
        r@ == resolve_spec(base@, trim(href@)),
{
    let h = string_of(trim_chars(chars_of(href).as_slice()).as_slice());
    base.resolve_location(h.as_str())
}

/// The absolute-URL key of `href` resolved against `base`; `None` for an
/// empty `href`.
pub fn normalized_key_against(base: &URL, href: &str) -> (r: Option<String>)
    requires
        trim(href@).len() > 0 ==> location_ok(base@, trim(trim(href@))),
    ensures
        r matches Some(k) ==> trim(href@).len() > 0 && k@ == abs_string(resolve_spec(base@, trim(trim(href@)))),
        r is None ==> trim(href@).len() == 0,
{
    let h = string_of(trim_chars(chars_of(href).as_slice()).as_slice());
    if chars_of(h.as_str()).len() == 0 {
        None
    } else {
        Some(url_to_abs_string(&normalize_against(base, h.as_str())))
    }
}

// ---------------------------------------------------------------------
// The absolute string parses back to the same URL.
// ---------------------------------------------------------------------

proof fn lemma_dec_digits(n: nat)
    ensures
        dec(n).len() > 0,
        all_digits(dec(n), 10),
        digits_value(dec(n), 10) == n,
        forall|i: int| 0 <= i < dec(n).len() ==> '0' <= #[trigger] dec(n)[i] && dec(n)[i] <= '9',
    decreases n,
{
    let k = n % 10;
    let c = (('0' as nat) + k) as char;
    assert(c as int == 48 + k);
    assert('0' <= c && c <= '9');
    assert(digit_val(c, 10) == k);
    if n < 10 {
        assert(dec(n) == seq![c]);
        assert(dec(n).drop_last() =~= Seq::<char>::empty());
        assert(dec(n).last() == c);
        assert(digits_value(Seq::<char>::empty(), 10) == 0);
        assert(digits_value(dec(n), 10) == digits_value(dec(n).drop_last(), 10) * 10 + digit_val(c, 10));
    } else {
        lemma_dec_digits(n / 10);
        let d = dec(n / 10);
        assert(dec(n) == d + seq![c]);
        assert((d + seq![c]).drop_last() =~= d);
        assert(dec(n).last() == c);
        assert(digits_value(dec(n), 10) == digits_value(d, 10) * 10 + k);
        assert(n == (n / 10) * 10 + k);
        assert forall|i: int| 0 <= i < dec(n).len() implies '0' <= #[trigger] dec(n)[i] && dec(n)[i] <= '9' by {
            if i < d.len() {
                assert(dec(n)[i] == d[i]);
            }
        }
    }
}

proof fn lemma_first_is(s: Seq<char>, c: char, k: int)
    requires
        0 <= k < s.len(),
        s[k] == c,
        forall|j: int| 0 <= j < k ==> s[j] != c,
    ensures
        first_of(s, c) == k,
{
    lemma_first_of(s, c);
    assert(s.contains(c));
}

/// `sch://host<port part>path` splits back into its parts.
proof fn lemma_reparse(sch: Seq<char>, host: Seq<char>, port_part: Seq<char>, path: Seq<char>)
    requires
        sch == "http"@ || sch == "https"@,
        forall|i: int| 0 <= i < host.len() ==> #[trigger] host[i] != '/' && host[i] != ':',
        forall|i: int| 0 <= i < port_part.len() ==> #[trigger] port_part[i] != '/',
        path.len() > 0,
        path[0] == '/',
    ensures
        scheme_of(sch + "://"@ + host + port_part + path) == Some(sch),
        after_scheme(sch + "://"@ + host + port_part + path) == host + port_part + path,
        host_part(host + port_part + path) == host + port_part,
        http_path(host + port_part + path) == path,
{
    reveal_strlit("http");
    reveal_strlit("https");
    reveal_strlit("://");
    assert("://"@ =~= scheme_sep());
    let t = sch + "://"@ + host + port_part + path;
    let l = sch.len() as int;
    assert forall|j: int| 0 <= j < l implies !at(t, j, scheme_sep()) by {
        assert(t[j] == sch[j]);
        assert(t.subrange(j, j + 3)[0] == t[j]);
    }
    assert(t.subrange(l, l + 3) =~= scheme_sep());
    lemma_sub_pos(t, scheme_sep(), 0, l);
    assert(t.take(l) =~= sch);
    let rest = host + port_part + path;
    assert(t.skip(l + 3) =~= rest);
    let k = (host.len() + port_part.len()) as int;
    assert(rest[k] == '/');
    assert forall|j: int| 0 <= j < k implies rest[j] != '/' by {
        if j < host.len() {
            assert(rest[j] == host[j]);
        } else {
            assert(rest[j] == port_part[j - host.len()]);
        }
    }
    lemma_first_is(rest, '/', k);
    assert(rest.contains('/'));
    assert(rest.take(k) =~= host + port_part);
    assert(seq!['/'] + rest.skip(k + 1) =~= path);
}

/// The absolute string of an `http` or `https` URL parses back to the
/// same URL: same scheme, host, port and path.
pub proof fn lemma_abs_string_round_trip(s: Seq<char>)
    requires
        url_valid(s),
        scheme_of(s) == Some("http"@) || scheme_of(s) == Some("https"@),
    ensures
        url_valid(abs_string(url_of(s))),
        url_of(abs_string(url_of(s))) == url_of(s),
{
    reveal_strlit("http");
    reveal_strlit("https");
    reveal_strlit("file");
    reveal_strlit("http://");
    reveal_strlit("https://");
    reveal_strlit("://");
    reveal_strlit(":");
    let v = url_of(s);
    let sch = scheme_of(s)->0;
    assert(sch != "file"@) by {
        assert(sch[0] != "file"@[0]);
    }
    let rest = after_scheme(s);
    let r = if rest.contains('/') {
        rest
    } else {
        rest.push('/')
    };
    lemma_first_of(r, '/');
    if !rest.contains('/') {
        assert(r[r.len() - 1] == '/');
    }
    let hp = host_part(rest);
    assert(forall|i: int| 0 <= i < hp.len() ==> #[trigger] hp[i] != '/');
    let path = http_path(rest);
    assert(path == v.path);
    assert(path[0] == '/');
    assert(v.scheme == sch);
    if hp.contains(':') {
        lemma_first_of(hp, ':');
        let i = first_of(hp, ':') as int;
        assert(v.host == hp.take(i));
        assert(forall|j: int| 0 <= j < v.host.len() ==> #[trigger] v.host[j] == hp[j]);
    } else {
        assert(v.host == hp);
    }
    assert(forall|j: int| 0 <= j < v.host.len() ==> #[trigger] v.host[j] != '/' && v.host[j] != ':');
    let default_port: u16 = if sch == "http"@ {
        HTTP_PORT
    } else {
        HTTPS_PORT
    };
    let t = abs_string(v);
    if v.port == default_port {
        assert(t =~= sch + "://"@ + v.host + Seq::<char>::empty() + v.path);
        lemma_reparse(sch, v.host, Seq::empty(), v.path);
        assert(v.host + Seq::<char>::empty() =~= v.host);
        assert(!v.host.contains(':'));
        assert(url_of(t) =~= v);
    } else {
        lemma_dec_digits(v.port as nat);
        let d = dec(v.port as nat);
        let pp = ":"@ + d;
        assert(t =~= sch + "://"@ + v.host + pp + v.path);
        assert forall|i: int| 0 <= i < pp.len() implies #[trigger] pp[i] != '/' by {
            if i > 0 {
                assert(pp[i] == d[i - 1]);
            }
        }
        lemma_reparse(sch, v.host, pp, v.path);
        let h2 = v.host + pp;
        let hl = v.host.len() as int;
        assert(h2[hl] == ':');
        assert forall|j: int| 0 <= j < hl implies h2[j] != ':' by {
            assert(h2[j] == v.host[j]);
        }
        lemma_first_is(h2, ':', hl);
        assert(h2.contains(':'));
        assert(h2.take(hl) =~= v.host);
        assert(h2.skip(hl + 1) =~= d);
        assert(d[0] != '+');
        assert(parse_unsigned(d, 10, 0xffff) == Some(v.port as nat));
        assert(url_of(t) =~= v);
    }
}


/// Resolving a link does not depend on the white space around it: the
/// trimmed link is accepted exactly when the link is, and resolves to the
/// same URL, so `normalize_against(base, href)` gives what
/// `base.resolve_location(href)` and `base.resolve_location(href.trim())`
/// give.
pub proof fn lemma_resolve_ignores_surrounding_space(base: UrlView, href: Seq<char>)
    ensures
        location_ok(base, trim(href)) == location_ok(base, href),
        resolve_spec(base, trim(href)) == resolve_spec(base, href),
{
    lemma_trim_idem(href);
}

} // verus!
