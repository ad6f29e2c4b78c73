//! HTTP responses: parsing a raw response (status, headers, chunked
//! transfer, gzip and brotli content encodings), the charset of a body,
//! the request a page is fetched with, and the redirect decisions.
use vstd::prelude::*;

use crate::dom::{map_get, opt_view, Attributes};
use crate::text::{
    append_chars, at, chars_of, contains_lit, ends, ends_lit, eq_ic, eq_ignore_case_lit, eq_lit,
    first_of, lemma_span_le, ne_pred, parse_unsigned, parse_usize, rspan, span, split_char, split_on,
    string_of, to_lowercase, trim, trim_chars, unicode_lower, vviews, words, split_whitespace,
};
use crate::url::{UrlView, URL};

verus! {

/// A response: status, headers under lower-case names, body and
/// `Content-Type`.
pub struct Response {
    pub status_code: u16,
    pub headers: Attributes,
    pub body: Vec<u8>,
    pub content_type: Option<String>,
}

/// What went wrong fetching a resource.
pub enum HttpError {
    Io(String),
    Tls(String),
    TlsHandshakeWouldBlock,
    InvalidResponse(String),
    UnsupportedEncoding(String),
    DecodeFailed(String),
    TooManyRedirects,
    File(String),
}

/// The text `String::from_utf8_lossy` makes of some bytes: their UTF-8
/// decoding with each malformed sequence replaced by U+FFFD.
pub uninterp spec fn utf8_lossy(b: Seq<u8>) -> Seq<char>;

/// Calls `String::from_utf8_lossy`; its result is named `utf8_lossy`, and
/// for valid UTF-8 it is the text the bytes encode, as its documentation
/// says.
#[verifier::external_body]
pub(crate) fn string_from_utf8_lossy(b: &[u8]) -> (r: String)
    ensures
        r@ == utf8_lossy(b@),
        vstd::utf8::valid_utf8(b@) ==> r@ == vstd::utf8::decode_utf8(b@),
{
    String::from_utf8_lossy(b).into_owned()
}

/// The text `encoding_rs` makes of some bytes in the encoding a label
/// names (`Encoding::for_label`, then `Encoding::decode`, which sniffs a
/// byte order mark first and replaces malformed sequences), or `None` when
/// the label names no encoding.
pub uninterp spec fn label_decoded(label: Seq<char>, bytes: Seq<u8>) -> Option<Seq<char>>;

/// The text `encoding_rs::UTF_8.decode` makes of some bytes.
pub uninterp spec fn utf8_decoded(bytes: Seq<u8>) -> Seq<char>;

/// Looks up the encoding a label names with `Encoding::for_label` and
/// decodes the bytes in it with `Encoding::decode`; the result is named
/// `label_decoded`.  `decode` panics when the buffer size for the text
/// overflows (the text is at most three times as long), hence the bound.
#[verifier::external_body]
fn decode_for_label(label: &str, bytes: &[u8]) -> (r: Option<String>)
    requires
        bytes@.len() <= usize::MAX / 4,
    ensures
        opt_view(r) == label_decoded(label@, bytes@),
{
    encoding_rs::Encoding::for_label(label.as_bytes()).map(|e| e.decode(bytes).0.into_owned())
}

/// Decodes the bytes with `encoding_rs::UTF_8.decode`; the result is named
/// `utf8_decoded`.  The bound is that of `decode_for_label`.
#[verifier::external_body]
fn decode_utf8(bytes: &[u8]) -> (r: String)
    requires
        bytes@.len() <= usize::MAX / 4,
    ensures
        r@ == utf8_decoded(bytes@),
{
    encoding_rs::UTF_8.decode(bytes).0.into_owned()
}

/// The characters equal to `c`.
pub open spec fn eq_pred(c: char) -> spec_fn(char) -> bool {
    |x: char| x == c
}

/// `str::trim_matches(c)`: every leading and trailing `c` removed.
pub open spec fn strip_all(s: Seq<char>, c: char) -> Seq<char> {
    let t = s.skip(span(s, eq_pred(c)) as int);
    t.take(t.len() - rspan(t, eq_pred(c)))
}

/// The charset a `name=value` parameter gives, lower-cased, when its name
/// is `charset` and its value is not empty once quotes are removed.
pub open spec fn charset_param(part: Seq<char>) -> Option<Seq<char>> {
    let p = trim(part);
    let i = first_of(p, '=');
    if i >= p.len() {
        None
    } else if !eq_ic(trim(p.take(i as int)), "charset"@) {
        None
    } else {
        let cs = strip_all(strip_all(trim(p.skip(i + 1int)), '"'), '\'');
        if cs.len() == 0 {
            None
        } else {
            Some(unicode_lower(cs))
        }
    }
}

pub open spec fn first_charset(parts: Seq<Seq<char>>) -> Option<Seq<char>>
    decreases parts.len(),
{
    if parts.len() == 0 {
        None
    } else {
        match charset_param(parts[0]) {
            Some(c) => Some(c),
            None => first_charset(parts.drop_first()),
        }
    }
}

/// The charset of a `Content-Type` value: the first `charset` parameter
/// after the media type.
pub open spec fn charset_spec(ct: Option<Seq<char>>) -> Option<Seq<char>> {
    match ct {
        Some(c) => first_charset(split_on(c, ';').drop_first()),
        None => None,
    }
}

/// The text without leading and trailing `c`.
pub fn strip_char(v: &[char], c: char) -> (r: Vec<char>)
    ensures
        r@ == strip_all(v@, c),
{
    let mut a: usize = 0;
    while a < v.len() && v[a] == c
        invariant
            a <= v@.len(),
            forall|j: int| 0 <= j < a ==> (eq_pred(c))(#[trigger] v@[j]),
        decreases v@.len() - a,
    {
        a += 1;
    }
    proof {
        crate::text::lemma_span_is(v@, eq_pred(c), a as int);
    }
    let t = vstd::slice::slice_subrange(v, a, v.len());
    assert(t@ =~= v@.skip(a as int));
    let mut b: usize = t.len();
    while b > 0 && t[b - 1] == c
        invariant
            b <= t@.len(),
            forall|j: int| b <= j < t@.len() ==> (eq_pred(c))(#[trigger] t@[j]),
        decreases b,
    {
        b -= 1;
    }
    proof {
        crate::text::lemma_rspan_is(t@, eq_pred(c), t@.len() - b);
    }
    let r = vstd::slice::slice_to_vec(vstd::slice::slice_subrange(t, 0, b));
    assert(r@ =~= t@.take(b as int));
    r
}

fn charset_of_param(part: &[char]) -> (r: Option<String>)
    ensures
        opt_view(r) == charset_param(part@),
{
    let p = trim_chars(part);
    let i = crate::text::find_char_from(p.as_slice(), 0, '=');
    assert(p@.skip(0) =~= p@);
    if i >= p.len() {
        return None;
    }
    let name = vstd::slice::slice_subrange(p.as_slice(), 0, i);
    assert(name@ =~= p@.take(i as int));
    if !eq_ignore_case_lit(trim_chars(name).as_slice(), "charset") {
        return None;
    }
    let value = vstd::slice::slice_subrange(p.as_slice(), i + 1, p.len());
    assert(value@ =~= p@.skip(i + 1int));
    let cs = strip_char(strip_char(trim_chars(value).as_slice(), '"').as_slice(), '\'');
    if cs.len() == 0 {
        None
    } else {
        Some(to_lowercase(string_of(cs.as_slice()).as_str()))
    }
}

impl Response {
    /// The body as text, malformed UTF-8 replaced.
    pub fn body_text_lossy(&self) -> (r: String)
        ensures
            r@ == utf8_lossy(self.body@),
    {
        string_from_utf8_lossy(self.body.as_slice())
    }

    /// The charset the `Content-Type` header names, lower-cased.
    pub fn charset_from_header(&self) -> (r: Option<String>)
        ensures
            opt_view(r) == charset_spec(opt_view(self.content_type)),
    {
        let ct = match &self.content_type {
            Some(c) => c,
            None => {
                return None;
            },
        };
        let parts = split_char(chars_of(ct.as_str()).as_slice(), ';');
        let ghost pv = vviews(parts@);
        assert(pv == split_on(ct@, ';'));
        let mut i: usize = 1;
        proof {
            crate::text::lemma_split_nonempty(ct@, ';');
            assert(pv.skip(1) =~= pv.drop_first());
        }
        while i < parts.len()
            invariant
                1 <= i <= parts@.len(),
                pv == vviews(parts@),
                charset_spec(opt_view(self.content_type)) == first_charset(pv.skip(i as int)),
            decreases parts@.len() - i,
        {
            let ghost rest = pv.skip(i as int);
            assert(rest[0] == parts@[i as int]@);
            assert(rest.drop_first() =~= pv.skip(i + 1));
            match charset_of_param(parts[i].as_slice()) {
                Some(c) => {
                    return Some(c);
                },
                None => {},
            }
            i += 1;
        }
        assert(pv.skip(i as int) =~= Seq::<Seq<char>>::empty());
        None
    }

    /// The body decoded in the encoding `charset` names, and in UTF-8 when
    /// it names none.
    pub fn body_text_with_charset(&self, charset: &str) -> (r: String)
        requires
            self.body@.len() <= usize::MAX / 4,
        ensures
            r@ == match label_decoded(charset@, self.body@) {
                Some(t) => t,
                None => utf8_decoded(self.body@),
            },
    {
        match decode_for_label(charset, self.body.as_slice()) {
            Some(t) => t,
            None => decode_utf8(self.body.as_slice()),
        }
    }

    /// The value of a header, its name taken in lower case.
    pub fn header(&self, name: &str) -> (r: Option<&String>)
        ensures
            crate::style::opt_s(r) == map_get(self.headers@, unicode_lower(name@)),
    {
        let key = to_lowercase(name);
        self.headers.get(key.as_str())
    }
}

// ---------------------------------------------------------------------
// Raw bytes.
// ---------------------------------------------------------------------

/// `n` occurs in `h` at index `i`.
pub open spec fn bytes_at(h: Seq<u8>, i: int, n: Seq<u8>) -> bool {
    0 <= i && i + n.len() <= h.len() && h.subrange(i, i + n.len()) == n
}

/// The first index at or after `i` where `n` occurs.
pub open spec fn find_from(h: Seq<u8>, n: Seq<u8>, i: nat) -> Option<nat>
    decreases h.len() + 1 - i,
{
    if i + n.len() > h.len() {
        None
    } else if bytes_at(h, i as int, n) {
        Some(i)
    } else {
        find_from(h, n, i + 1)
    }
}

/// The first index where a non-empty `n` occurs in `h`.
pub open spec fn find_spec(h: Seq<u8>, n: Seq<u8>) -> Option<nat> {
    if n.len() == 0 || h.len() < n.len() {
        None
    } else {
        find_from(h, n, 0)
    }
}

fn bytes_match(h: &[u8], i: usize, n: &[u8]) -> (r: bool)
    requires
        i + n@.len() <= h@.len(),
    ensures
        r == bytes_at(h@, i as int, n@),
{
    let mut k: usize = 0;
    let hl = h.len();
    while k < n.len()
        invariant
            k <= n@.len(),
            hl == h@.len(),
            i + n@.len() <= h@.len(),
            forall|j: int| 0 <= j < k ==> h@[i + j] == n@[j],
        decreases n@.len() - k,
    {
        assert(i + k < h@.len());
        if h[i + k] != n[k] {
            assert(h@.subrange(i as int, i + n@.len())[k as int] != n@[k as int]);
            return false;
        }
        k += 1;
    }
    assert(h@.subrange(i as int, i + n@.len()) =~= n@);
    true
}

/// Where `needle` first occurs in `haystack`.
pub fn find_bytes(haystack: &[u8], needle: &[u8]) -> (r: Option<usize>)
    ensures
        r matches Some(i) ==> find_spec(haystack@, needle@) == Some(i as nat),
        r is None ==> find_spec(haystack@, needle@) is None,
{
    if needle.len() == 0 || haystack.len() < needle.len() {
        return None;
    }
    let mut i: usize = 0;
    while needle.len() <= haystack.len() - i
        invariant
            i <= haystack@.len(),
            needle@.len() > 0,
            needle@.len() <= haystack@.len(),
            find_spec(haystack@, needle@) == find_from(haystack@, needle@, i as nat),
        decreases haystack@.len() - i,
    {
        if bytes_match(haystack, i, needle) {
            return Some(i);
        }
        i += 1;
    }
    None
}

pub open spec fn crlf() -> Seq<u8> {
    seq![13u8, 10u8]
}

/// The first index of `b` in `s`, or its length.
pub open spec fn first_byte(s: Seq<u8>, b: u8) -> nat
    decreases s.len(),
{
    if s.len() == 0 || s[0] == b {
        0
    } else {
        1 + first_byte(s.drop_first(), b)
    }
}

/// The text `String::from_utf8_lossy` makes of some bytes, written out
/// where they are valid UTF-8.
pub open spec fn lossy_text(b: Seq<u8>) -> Seq<char> {
    if vstd::utf8::valid_utf8(b) {
        vstd::utf8::decode_utf8(b)
    } else {
        utf8_lossy(b)
    }
}

/// The size a chunk header line gives: hexadecimal digits before any `;`.
pub open spec fn chunk_size(line: Seq<u8>) -> Option<nat> {
    parse_unsigned(trim(lossy_text(line.take(first_byte(line, 59u8) as int))), 16, usize::MAX as nat)
}

/// The data of a chunked body from index `i`: each chunk a size line,
/// the data and a line break; it ends at a size of zero, at anything
/// malformed, or where the input runs out.
pub open spec fn chunks_from(input: Seq<u8>, i: nat) -> Seq<u8>
    decreases input.len() - i,
{
    if i >= input.len() {
        Seq::empty()
    } else {
        match find_spec(input.skip(i as int), crlf()) {
            None => Seq::empty(),
            Some(p) => {
                let line = input.subrange(i as int, (i + p) as int);
                let j = i + p + 2;
                match chunk_size(line) {
                    None => Seq::empty(),
                    Some(n) => if n == 0 || j + n > input.len() {
                        Seq::empty()
                    } else {
                        let data = input.subrange(j as int, (j + n) as int);
                        let k = j + n;
                        if k + 2 <= input.len() && input.subrange(k as int, (k + 2) as int) == crlf() {
                            data + chunks_from(input, k + 2)
                        } else {
                            data
                        }
                    },
                }
            },
        }
    }
}

proof fn lemma_find_from_bound(h: Seq<u8>, n: Seq<u8>, i: nat)
    ensures
        find_from(h, n, i) matches Some(p) ==> i <= p && p + n.len() <= h.len(),
    decreases h.len() + 1 - i,
{
    if i + n.len() <= h.len() && !bytes_at(h, i as int, n) {
        lemma_find_from_bound(h, n, i + 1);
    }
}

fn find_byte(s: &[u8], b: u8) -> (r: usize)
    ensures
        r == first_byte(s@, b),
        r <= s@.len(),
{
    let mut i: usize = 0;
    assert(s@.skip(0) =~= s@);
    while i < s.len() && s[i] != b
        invariant
            i <= s@.len(),
            first_byte(s@, b) == i + first_byte(s@.skip(i as int), b),
        decreases s@.len() - i,
    {
        assert(s@.skip(i as int).drop_first() =~= s@.skip(i + 1));
        i += 1;
    }
    assert(s@.skip(0) =~= s@);
    if i < s.len() {
        assert(s@.skip(i as int)[0] == s@[i as int]);
    }
    i
}

/// The data of a chunked body.
pub fn decode_chunked(input: &[u8]) -> (r: Vec<u8>)
    ensures
        r@ == chunks_from(input@, 0),
{
    let mut out: Vec<u8> = Vec::new();
    let mut i: usize = 0;
    let ghost whole = chunks_from(input@, 0);
    let crlf_bytes: [u8; 2] = [13u8, 10u8];
    assert(crlf_bytes@ =~= crlf());
    while i < input.len()
        invariant
            i <= input@.len(),
            crlf_bytes@ == crlf(),
            whole == chunks_from(input@, 0),
            whole == out@ + chunks_from(input@, i as nat),
        decreases input@.len() - i,
    {
        let rest = vstd::slice::slice_subrange(input, i, input.len());
        assert(rest@ =~= input@.skip(i as int));
        let p = match find_bytes(rest, crlf_bytes.as_slice()) {
            Some(p) => p,
            None => {
                assert(out@ + Seq::<u8>::empty() =~= out@);
                return out;
            },
        };
        proof {
            lemma_find_from_bound(rest@, crlf(), 0);
        }
        let line = vstd::slice::slice_subrange(input, i, i + p);
        let j = i + p + 2;
        let semi = find_byte(line, 59u8);
        let size_part = vstd::slice::slice_subrange(line, 0, semi);
        assert(size_part@ =~= line@.take(semi as int));
        let text = string_from_utf8_lossy(size_part);
        let hex = trim_chars(chars_of(text.as_str()).as_slice());
        let size = match parse_usize(hex.as_slice(), 16) {
            Some(v) => v,
            None => {
                assert(out@ + Seq::<u8>::empty() =~= out@);
                return out;
            },
        };
        if size == 0 || size > input.len() - j {
            assert(out@ + Seq::<u8>::empty() =~= out@);
            return out;
        }
        let data = vstd::slice::slice_subrange(input, j, j + size);
        let ghost before = out@;
        let mut q: usize = 0;
        while q < size
            invariant
                q <= size,
                j + size <= input@.len(),
                data@ == input@.subrange(j as int, j + size),
                out@ == before + data@.take(q as int),
            decreases size - q,
        {
            out.push(data[q]);
            assert(data@.take(q + 1) =~= data@.take(q as int).push(data@[q as int]));
            q += 1;
        }
        assert(data@.take(size as int) =~= data@);
        let k = j + size;
        if input.len() - k >= 2 && input[k] == 13u8 && input[k + 1] == 10u8 {
            assert(input@.subrange(k as int, k + 2) =~= crlf());
            assert(before + (data@ + chunks_from(input@, (k + 2) as nat)) =~= (before + data@) + chunks_from(input@, (k + 2) as nat));
            i = k + 2;
        } else {
            proof {
                if k + 2 <= input@.len() {
                    assert(input@.subrange(k as int, k + 2)[0] == input@[k as int]);
                    assert(input@.subrange(k as int, k + 2)[1] == input@[k + 1]);
                }
            }
            return out;
        }
    }
    assert(out@ + Seq::<u8>::empty() =~= out@);
    out
}

/// The content type a file name suggests, by its (lower-cased) extension.
pub open spec fn content_type_for(path: Seq<char>) -> Seq<char> {
    let p = unicode_lower(path);
    if ends(p, ".html"@) || ends(p, ".htm"@) {
        "text/html; charset=utf-8"@
    } else if ends(p, ".css"@) {
        "text/css; charset=utf-8"@
    } else if ends(p, ".txt"@) {
        "text/plain; charset=utf-8"@
    } else if ends(p, ".png"@) {
        "image/png"@
    } else if ends(p, ".jpg"@) || ends(p, ".jpeg"@) {
        "image/jpeg"@
    } else if ends(p, ".gif"@) {
        "image/gif"@
    } else if ends(p, ".webp"@) {
        "image/webp"@
    } else {
        "application/octet-stream"@
    }
}

pub fn guess_content_type_from_path(path: &str) -> (r: Option<String>)
    ensures
        r matches Some(t) && t@ == content_type_for(path@),
{
    let p = chars_of(to_lowercase(path).as_str());
    let p = p.as_slice();
    let t = if ends_lit(p, ".html") || ends_lit(p, ".htm") {
        "text/html; charset=utf-8"
    } else if ends_lit(p, ".css") {
        "text/css; charset=utf-8"
    } else if ends_lit(p, ".txt") {
        "text/plain; charset=utf-8"
    } else if ends_lit(p, ".png") {
        "image/png"
    } else if ends_lit(p, ".jpg") || ends_lit(p, ".jpeg") {
        "image/jpeg"
    } else if ends_lit(p, ".gif") {
        "image/gif"
    } else if ends_lit(p, ".webp") {
        "image/webp"
    } else {
        "application/octet-stream"
    };
    Some(String::from_str(t))
}

/// The request a resource is fetched with.
pub open spec fn request_text(u: UrlView) -> Seq<char> {
    "GET "@ + (if u.path.len() == 0 {
        "/"@
    } else {
        u.path
    }) + " HTTP/1.1\r\nHost: "@ + u.host
        + "\r\nUser-Agent: rust-browser/0.1\r\nAccept: text/html,application/xhtml+xml,text/css,image/*,*/*;q=0.8\r\nAccept-Language: ja,en-US;q=0.9,en;q=0.8\r\nAccept-Encoding: gzip, br\r\nConnection: close\r\n\r\n"@
}

pub fn build_request(url: &URL) -> (r: String)
    ensures
        r@ == request_text(url@),
{
    let mut out = chars_of("GET ");
    let path = chars_of(url.path.as_str());
    if path.len() == 0 {
        append_chars(&mut out, chars_of("/").as_slice());
    } else {
        append_chars(&mut out, path.as_slice());
    }
    append_chars(&mut out, chars_of(" HTTP/1.1\r\nHost: ").as_slice());
    append_chars(&mut out, chars_of(url.host.as_str()).as_slice());
    append_chars(
        &mut out,
        chars_of(
            "\r\nUser-Agent: rust-browser/0.1\r\nAccept: text/html,application/xhtml+xml,text/css,image/*,*/*;q=0.8\r\nAccept-Language: ja,en-US;q=0.9,en;q=0.8\r\nAccept-Encoding: gzip, br\r\nConnection: close\r\n\r\n",
        ).as_slice(),
    );
    string_of(out.as_slice())
}

/// The response that stands for a request that failed.
pub fn failed_response() -> (r: Response)
    ensures
        r.status_code == 0,
        r.headers@ == Map::<Seq<char>, Seq<char>>::empty(),
        r.body@.len() == 0,
        r.content_type is None,
{
    Response { status_code: 0, headers: Attributes::new(), body: Vec::new(), content_type: None }
}

/// The path of a `file:` URL with `\` turned into `/`, and that path with
/// `/` turned into `\` (how the file is opened).
pub fn file_request_paths(path: &str) -> (r: (String, String))
    ensures
        r.0@ == crate::text::replace_char(path@, '\\', '/'),
        r.1@ == crate::text::replace_char(crate::text::replace_char(path@, '\\', '/'), '/', '\\'),
{
    let fs_path = crate::text::replace_chars(chars_of(path).as_slice(), '\\', '/');
    let os_path = crate::text::replace_chars(fs_path.as_slice(), '/', '\\');
    (string_of(fs_path.as_slice()), string_of(os_path.as_slice()))
}

/// The response for a file read from disk.
pub fn file_response(bytes: Vec<u8>, fs_path: &str) -> (r: Response)
    ensures
        r.status_code == 200,
        r.headers@ == Map::<Seq<char>, Seq<char>>::empty(),
        r.body@ == bytes@,
        opt_view(r.content_type) == Some(content_type_for(fs_path@)),
{
    Response {
        status_code: 200,
        headers: Attributes::new(),
        body: bytes,
        content_type: guess_content_type_from_path(fs_path),
    }
}


// ---------------------------------------------------------------------
// Parsing a response.
// ---------------------------------------------------------------------

/// A response as plain values.
pub struct ResponseView {
    pub status: u16,
    pub headers: Map<Seq<char>, Seq<char>>,
    pub body: Seq<u8>,
    pub content_type: Option<Seq<char>>,
}

impl View for Response {
    type V = ResponseView;

    open spec fn view(&self) -> ResponseView {
        ResponseView {
            status: self.status_code,
            headers: self.headers@,
            body: self.body@,
            content_type: opt_view(self.content_type),
        }
    }
}

/// An error as plain values.
pub enum HttpErrorView {
    Io(Seq<char>),
    Tls(Seq<char>),
    TlsHandshakeWouldBlock,
    InvalidResponse(Seq<char>),
    UnsupportedEncoding(Seq<char>),
    DecodeFailed(Seq<char>),
    TooManyRedirects,
    File(Seq<char>),
}

impl View for HttpError {
    type V = HttpErrorView;

    open spec fn view(&self) -> HttpErrorView {
        match self {
            HttpError::Io(m) => HttpErrorView::Io(m@),
            HttpError::Tls(m) => HttpErrorView::Tls(m@),
            HttpError::TlsHandshakeWouldBlock => HttpErrorView::TlsHandshakeWouldBlock,
            HttpError::InvalidResponse(m) => HttpErrorView::InvalidResponse(m@),
            HttpError::UnsupportedEncoding(m) => HttpErrorView::UnsupportedEncoding(m@),
            HttpError::DecodeFailed(m) => HttpErrorView::DecodeFailed(m@),
            HttpError::TooManyRedirects => HttpErrorView::TooManyRedirects,
            HttpError::File(m) => HttpErrorView::File(m@),
        }
    }
}

impl HttpError {
    /// The message that describes the error.
    pub fn message(&self) -> (r: String)
        ensures
            r@ == (match self@ {
                HttpErrorView::Io(m) => "io error: "@ + m,
                HttpErrorView::Tls(m) => "tls error: "@ + m,
                HttpErrorView::TlsHandshakeWouldBlock => "tls handshake would-block"@,
                HttpErrorView::InvalidResponse(m) => "invalid response: "@ + m,
                HttpErrorView::UnsupportedEncoding(m) => "unsupported content-encoding: "@ + m,
                HttpErrorView::DecodeFailed(m) => "decode failed: "@ + m,
                HttpErrorView::TooManyRedirects => "too many redirects"@,
                HttpErrorView::File(m) => "file error: "@ + m,
            }),
    {
        let (prefix, detail): (&str, Option<&String>) = match self {
            HttpError::Io(m) => ("io error: ", Some(m)),
            HttpError::Tls(m) => ("tls error: ", Some(m)),
            HttpError::TlsHandshakeWouldBlock => ("tls handshake would-block", None),
            HttpError::InvalidResponse(m) => ("invalid response: ", Some(m)),
            HttpError::UnsupportedEncoding(m) => ("unsupported content-encoding: ", Some(m)),
            HttpError::DecodeFailed(m) => ("decode failed: ", Some(m)),
            HttpError::TooManyRedirects => ("too many redirects", None),
            HttpError::File(m) => ("file error: ", Some(m)),
        };
        let mut out = chars_of(prefix);
        match detail {
            Some(m) => append_chars(&mut out, chars_of(m.as_str()).as_slice()),
            None => {},
        }
        let r = string_of(out.as_slice());
        assert(r@ =~= (match self@ {
            HttpErrorView::Io(m) => "io error: "@ + m,
            HttpErrorView::Tls(m) => "tls error: "@ + m,
            HttpErrorView::TlsHandshakeWouldBlock => "tls handshake would-block"@,
            HttpErrorView::InvalidResponse(m) => "invalid response: "@ + m,
            HttpErrorView::UnsupportedEncoding(m) => "unsupported content-encoding: "@ + m,
            HttpErrorView::DecodeFailed(m) => "decode failed: "@ + m,
            HttpErrorView::TooManyRedirects => "too many redirects"@,
            HttpErrorView::File(m) => "file error: "@ + m,
        }));
        r
    }
}

/// What gzip decompression (`flate2::read::GzDecoder`, read to the end)
/// makes of some bytes; `None` when they are not valid gzip data.
pub uninterp spec fn gunzip(input: Seq<u8>) -> Option<Seq<u8>>;

/// What brotli decompression (`brotli::Decompressor`, read to the end)
/// makes of some bytes; `None` when they are not valid brotli data.
pub uninterp spec fn unbrotli(input: Seq<u8>) -> Option<Seq<u8>>;

/// Reads a `GzDecoder` over `input` to the end; the result is named
/// `gunzip`.
#[verifier::external_body]
fn gzip_read_to_end(input: &[u8]) -> (r: Option<Vec<u8>>)
    ensures
        match r {
            Some(v) => gunzip(input@) == Some(v@),
            None => gunzip(input@) is None,
        },
{
    let mut out = Vec::new();
    match std::io::Read::read_to_end(&mut flate2::read::GzDecoder::new(input), &mut out) {
        Ok(_) => Some(out),
        Err(_) => None,
    }
}

/// Reads a brotli `Decompressor` (buffer of 4096 bytes) over `input` to
/// the end; the result is named `unbrotli`.
#[verifier::external_body]
fn brotli_read_to_end(input: &[u8]) -> (r: Option<Vec<u8>>)
    ensures
        match r {
            Some(v) => unbrotli(input@) == Some(v@),
            None => unbrotli(input@) is None,
        },
{
    let mut out = Vec::new();
    match std::io::Read::read_to_end(&mut brotli::Decompressor::new(input, 4096), &mut out) {
        Ok(_) => Some(out),
        Err(_) => None,
    }
}

pub fn decode_gzip(input: &[u8]) -> (r: Result<Vec<u8>, HttpError>)
    ensures
        match r {
            Ok(v) => gunzip(input@) == Some(v@),
            Err(e) => gunzip(input@) is None && e@ == HttpErrorView::DecodeFailed("gzip"@),
        },
{
    match gzip_read_to_end(input) {
        Some(v) => Ok(v),
        None => Err(HttpError::DecodeFailed(String::from_str("gzip"))),
    }
}

pub fn decode_brotli(input: &[u8]) -> (r: Result<Vec<u8>, HttpError>)
    ensures
        match r {
            Ok(v) => unbrotli(input@) == Some(v@),
            Err(e) => unbrotli(input@) is None && e@ == HttpErrorView::DecodeFailed("brotli"@),
        },
{
    match brotli_read_to_end(input) {
        Some(v) => Ok(v),
        None => Err(HttpError::DecodeFailed(String::from_str("brotli"))),
    }
}

pub open spec fn crlf_chars() -> Seq<char> {
    seq!['\r', '\n']
}

/// `str::split` with a text pattern.
pub open spec fn split_str(s: Seq<char>, pat: Seq<char>) -> Seq<Seq<char>>
    decreases s.len(),
{
    if pat.len() == 0 {
        seq![s]
    } else {
        match crate::text::sub_pos(s, pat, 0) {
            Some(i) => {
                proof {
                    crate::text::lemma_sub_pos_bound(s, pat, 0);
                }
                seq![s.take(i)] + split_str(s.skip(i + pat.len()), pat)
            },
            None => seq![s],
        }
    }
}

fn split_on_str(v: &[char], pat: &[char]) -> (r: Vec<Vec<char>>)
    requires
        pat@.len() > 0,
    ensures
        vviews(r@) == split_str(v@, pat@),
        r@.len() >= 1,
{
    let mut r: Vec<Vec<char>> = Vec::new();
    let mut pos: usize = 0;
    assert(v@.skip(0) =~= v@);
    loop
        invariant
            pos <= v@.len(),
            pat@.len() > 0,
            split_str(v@, pat@) == vviews(r@) + split_str(v@.skip(pos as int), pat@),
        decreases v@.len() - pos,
    {
        let rest = vstd::slice::slice_subrange(v, pos, v.len());
        assert(rest@ =~= v@.skip(pos as int));
        let ghost before = vviews(r@);
        match crate::text::find_sub(rest, 0, pat) {
            Some(i) => {
                proof {
                    crate::text::lemma_sub_pos_bound(rest@, pat@, 0);
                }
                let piece = vstd::slice::slice_to_vec(vstd::slice::slice_subrange(rest, 0, i));
                assert(piece@ =~= rest@.take(i as int));
                r.push(piece);
                assert(vviews(r@) =~= before.push(piece@));
                assert(rest@.skip(i + pat@.len()) =~= v@.skip(pos + i + pat@.len()));
                assert(before.push(piece@) + split_str(v@.skip(pos + i + pat@.len()), pat@) =~= before + (seq![piece@]
                    + split_str(rest@.skip(i + pat@.len()), pat@)));
                pos = pos + i + pat.len();
            },
            None => {
                let piece = vstd::slice::slice_to_vec(rest);
                r.push(piece);
                assert(vviews(r@) =~= before.push(piece@));
                assert(before.push(piece@) =~= before + seq![rest@]);
                return r;
            },
        }
    }
}

/// A header line `Name: value`: the name lower-cased, the value trimmed.
pub open spec fn header_line(line: Seq<char>) -> Option<(Seq<char>, Seq<char>)> {
    let i = first_of(line, ':');
    if i < line.len() {
        Some((unicode_lower(line.take(i as int)), trim(line.skip(i + 1int))))
    } else {
        None
    }
}

/// The headers of some lines, a later one replacing an earlier one.
pub open spec fn headers_from(lines: Seq<Seq<char>>) -> Map<Seq<char>, Seq<char>>
    decreases lines.len(),
{
    if lines.len() == 0 {
        Map::empty()
    } else {
        let m = headers_from(lines.drop_last());
        match header_line(lines.last()) {
            Some((k, v)) => m.insert(k, v),
            None => m,
        }
    }
}

/// The status code of a status line, 0 when it has none.
pub open spec fn status_of(line: Seq<char>) -> u16 {
    let w = words(line);
    if w.len() >= 2 {
        match parse_unsigned(w[1], 10, 65535) {
            Some(v) => v as u16,
            None => 0,
        }
    } else {
        0
    }
}

/// The content codings to undo: the lower-cased, trimmed pieces of the
/// header that are neither empty nor `identity`.
pub open spec fn enc_tokens(pieces: Seq<Seq<char>>) -> Seq<Seq<char>>
    decreases pieces.len(),
{
    if pieces.len() == 0 {
        Seq::empty()
    } else {
        let prev = enc_tokens(pieces.drop_last());
        let t = unicode_lower(trim(pieces.last()));
        if t.len() > 0 && t != "identity"@ {
            prev.push(t)
        } else {
            prev
        }
    }
}

/// One content coding undone.
pub open spec fn decode_one(body: Seq<u8>, e: Seq<char>) -> Result<Seq<u8>, HttpErrorView> {
    if e == "gzip"@ {
        match gunzip(body) {
            Some(b) => Ok(b),
            None => Err(HttpErrorView::DecodeFailed("gzip"@)),
        }
    } else if e == "br"@ {
        match unbrotli(body) {
            Some(b) => Ok(b),
            None => Err(HttpErrorView::DecodeFailed("brotli"@)),
        }
    } else {
        Err(HttpErrorView::UnsupportedEncoding(e))
    }
}

/// The codings undone, the last applied first.
pub open spec fn decode_all(body: Seq<u8>, encs: Seq<Seq<char>>) -> Result<Seq<u8>, HttpErrorView>
    decreases encs.len(),
{
    if encs.len() == 0 {
        Ok(body)
    } else {
        match decode_one(body, encs.last()) {
            Ok(b) => decode_all(b, encs.drop_last()),
            Err(x) => Err(x),
        }
    }
}

/// A status whose response has no body.
pub open spec fn bodiless(status: u16) -> bool {
    status == 204 || status == 304 || (100 <= status && status < 200)
}

/// The body after the transfer coding: chunked when the
/// `Transfer-Encoding` mentions `chunked`.
pub open spec fn transfer_decoded(headers: Map<Seq<char>, Seq<char>>, body: Seq<u8>) -> Seq<u8> {
    if headers.contains_key("transfer-encoding"@) && crate::text::contains_sub(
        unicode_lower(headers["transfer-encoding"@]),
        "chunked"@,
    ) {
        chunks_from(body, 0)
    } else {
        body
    }
}

/// A raw response: the head up to the first empty line, the status code
/// from the status line, the headers, then the body with its transfer
/// and content codings undone.
pub open spec fn response_spec(raw: Seq<u8>) -> Result<ResponseView, HttpErrorView> {
    match find_spec(raw, seq![13u8, 10u8, 13u8, 10u8]) {
        None => Err(HttpErrorView::InvalidResponse("missing header terminator"@)),
        Some(he) => {
            let lines = split_str(utf8_lossy(raw.take(he as int)), crlf_chars());
            let status = status_of(lines[0]);
            let headers = headers_from(lines.drop_first());
            let ct = map_get(headers, "content-type"@);
            if bodiless(status) {
                Ok(ResponseView { status, headers, body: Seq::empty(), content_type: ct })
            } else {
                let b1 = transfer_decoded(headers, raw.skip(he + 4int));
                match map_get(headers, "content-encoding"@) {
                    None => Ok(ResponseView { status, headers, body: b1, content_type: ct }),
                    Some(enc) => match decode_all(b1, enc_tokens(split_on(enc, ','))) {
                        Ok(b2) => Ok(ResponseView { status, headers, body: b2, content_type: ct }),
                        Err(e) => Err(e),
                    },
                }
            }
        },
    }
}

fn status_code_of(line: &[char]) -> (r: u16)
    ensures
        r == status_of(line@),
{
    let w = split_whitespace(line);
    if w.len() >= 2 {
        assert(vviews(w@)[1] == w@[1]@);
        match crate::text::parse_uint(w[1].as_slice(), 10, 65535) {
            Some(v) => v as u16,
            None => 0,
        }
    } else {
        0
    }
}

fn parse_headers(lines: &Vec<Vec<char>>) -> (r: Attributes)
    requires
        lines@.len() >= 1,
    ensures
        r@ == headers_from(vviews(lines@).drop_first()),
{
    let ghost lv = vviews(lines@).drop_first();
    let mut headers = Attributes::new();
    let mut i: usize = 1;
    while i < lines.len()
        invariant
            1 <= i <= lines@.len(),
            lv == vviews(lines@).drop_first(),
            headers@ == headers_from(lv.take(i - 1)),
        decreases lines@.len() - i,
    {
        let line = lines[i].as_slice();
        assert(lv[i - 1] == lines@[i as int]@);
        assert(lv.take(i as int).drop_last() =~= lv.take(i - 1));
        assert(lv.take(i as int).last() == lv[i - 1]);
        let c = crate::text::find_char_from(line, 0, ':');
        assert(line@.skip(0) =~= line@);
        if c < line.len() {
            let name = vstd::slice::slice_subrange(line, 0, c);
            assert(name@ =~= line@.take(c as int));
            let value = vstd::slice::slice_subrange(line, c + 1, line.len());
            assert(value@ =~= line@.skip(c + 1int));
            let key = to_lowercase(string_of(name).as_str());
            headers.insert(key, string_of(trim_chars(value).as_slice()));
        }
        i += 1;
    }
    assert(lv.take(i - 1) =~= lv);
    headers
}

fn content_encodings(enc: &String) -> (r: Vec<Vec<char>>)
    ensures
        vviews(r@) == enc_tokens(split_on(enc@, ',')),
{
    let pieces = split_char(chars_of(enc.as_str()).as_slice(), ',');
    let ghost pv = vviews(pieces@);
    let mut out: Vec<Vec<char>> = Vec::new();
    let mut i: usize = 0;
    while i < pieces.len()
        invariant
            i <= pieces@.len(),
            pv == vviews(pieces@),
            pv == split_on(enc@, ','),
            vviews(out@) == enc_tokens(pv.take(i as int)),
        decreases pieces@.len() - i,
    {
        assert(pv.take(i + 1).drop_last() =~= pv.take(i as int));
        assert(pv.take(i + 1).last() == pieces@[i as int]@);
        let t = chars_of(to_lowercase(string_of(trim_chars(pieces[i].as_slice()).as_slice()).as_str()).as_str());
        if t.len() > 0 && !eq_lit(t.as_slice(), "identity") {
            let ghost before = vviews(out@);
            out.push(t);
            assert(vviews(out@) =~= before.push(t@));
        }
        i += 1;
    }
    assert(pv.take(i as int) =~= pv);
    out
}

fn chunked_transfer(headers: &Attributes) -> (r: bool)
    ensures
        r == (headers@.contains_key("transfer-encoding"@) && crate::text::contains_sub(
            unicode_lower(headers@["transfer-encoding"@]),
            "chunked"@,
        )),
{
    match headers.get("transfer-encoding") {
        Some(v) => contains_lit(chars_of(to_lowercase(v.as_str()).as_str()).as_slice(), "chunked"),
        None => false,
    }
}

/// Parses a raw HTTP response.
pub fn parse_response_bytes(resp: Vec<u8>) -> (r: Result<Response, HttpError>)
    ensures
        match r {
            Ok(x) => response_spec(resp@) == Ok::<ResponseView, HttpErrorView>(x@),
            Err(e) => response_spec(resp@) == Err::<ResponseView, HttpErrorView>(e@),
        },
{
    let terminator: [u8; 4] = [13u8, 10u8, 13u8, 10u8];
    assert(terminator@ =~= seq![13u8, 10u8, 13u8, 10u8]);
    let header_end = match find_bytes(resp.as_slice(), terminator.as_slice()) {
        Some(p) => p,
        None => {
            return Err(HttpError::InvalidResponse(String::from_str("missing header terminator")));
        },
    };
    proof {
        lemma_find_from_bound(resp@, terminator@, 0);
        assert(find_from(resp@, terminator@, 0) == Some(header_end as nat));
    }
    assert(header_end + 4 <= resp.len());
    let head_bytes = vstd::slice::slice_subrange(resp.as_slice(), 0, header_end);
    assert(head_bytes@ =~= resp@.take(header_end as int));
    let head = chars_of(string_from_utf8_lossy(head_bytes).as_str());
    let sep: [char; 2] = ['\r', '\n'];
    assert(sep@ =~= crlf_chars());
    let lines = split_on_str(head.as_slice(), sep.as_slice());
    let ghost lv = vviews(lines@);
    assert(lv[0] == lines@[0]@);
    let status_code = status_code_of(lines[0].as_slice());
    let headers = parse_headers(&lines);
    let content_type = match headers.get("content-type") {
        Some(c) => Some(c.clone()),
        None => None,
    };
    if status_code == 204 || status_code == 304 || (100 <= status_code && status_code < 200) {
        let r = Response { status_code, headers, body: Vec::new(), content_type };
        assert(r@.body =~= Seq::<u8>::empty());
        return Ok(r);
    }
    let body_bytes = vstd::slice::slice_subrange(resp.as_slice(), header_end + 4, resp.len());
    assert(body_bytes@ =~= resp@.skip(header_end + 4));
    let mut decoded = if chunked_transfer(&headers) {
        decode_chunked(body_bytes)
    } else {
        vstd::slice::slice_to_vec(body_bytes)
    };
    match headers.get("content-encoding") {
        Some(enc) => {
            let encs = content_encodings(enc);
            let ghost ev = vviews(encs@);
            let ghost b1 = decoded@;
            let mut i = encs.len();
            assert(ev.take(i as int) =~= ev);
            let ghost st = status_code;
            let ghost hv = headers@;
            let ghost cv = opt_view(content_type);
            assert(response_spec(resp@) == match decode_all(b1, ev) {
                Ok(b2) => Ok(ResponseView { status: st, headers: hv, body: b2, content_type: cv }),
                Err(e) => Err(e),
            });
            while i > 0
                invariant
                    i <= encs@.len(),
                    ev == vviews(encs@),
                    response_spec(resp@) == match decode_all(b1, ev) {
                        Ok(b2) => Ok(ResponseView { status: st, headers: hv, body: b2, content_type: cv }),
                        Err(e) => Err::<ResponseView, HttpErrorView>(e),
                    },
                    decode_all(b1, ev) == decode_all(decoded@, ev.take(i as int)),
                decreases i,
            {
                let e = encs[i - 1].as_slice();
                assert(ev.take(i as int).last() == e@);
                assert(ev.take(i as int).drop_last() =~= ev.take(i - 1));
                if eq_lit(e, "gzip") {
                    decoded = match decode_gzip(decoded.as_slice()) {
                        Ok(v) => v,
                        Err(x) => {
                            return Err(x);
                        },
                    };
                } else if eq_lit(e, "br") {
                    decoded = match decode_brotli(decoded.as_slice()) {
                        Ok(v) => v,
                        Err(x) => {
                            return Err(x);
                        },
                    };
                } else {
                    return Err(HttpError::UnsupportedEncoding(string_of(e)));
                }
                i -= 1;
            }
        },
        None => {},
    }
    Ok(Response { status_code, headers, body: decoded, content_type })
}


// ---------------------------------------------------------------------
// Fetching.
// ---------------------------------------------------------------------

/// Redirects a fetch follows.
pub const HTTP_MAX_REDIRECTS: usize = 10;

/// How a URL is fetched.
#[derive(Debug, Clone, Copy, PartialEq, Eq, Structural)]
pub enum FetchKind {
    /// Read from the file system.
    File,
    /// Requested over HTTP or HTTPS.
    Network,
}

pub fn fetch_kind(url: &URL) -> (r: Result<FetchKind, HttpError>)
    ensures
        match r {
            Ok(FetchKind::File) => url.scheme@ == "file"@,
            Ok(FetchKind::Network) => url.scheme@ == "http"@ || url.scheme@ == "https"@,
            Err(e) => url.scheme@ != "file"@ && url.scheme@ != "http"@ && url.scheme@ != "https"@ && e@
                == HttpErrorView::InvalidResponse("unsupported scheme"@),
        },
{
    let s = chars_of(url.scheme.as_str());
    if eq_lit(s.as_slice(), "file") {
        Ok(FetchKind::File)
    } else if eq_lit(s.as_slice(), "http") || eq_lit(s.as_slice(), "https") {
        Ok(FetchKind::Network)
    } else {
        Err(HttpError::InvalidResponse(String::from_str("unsupported scheme")))
    }
}

/// A status that redirects.
pub open spec fn is_redirect(status: u16) -> bool {
    status == 301 || status == 302 || status == 303 || status == 307 || status == 308
}

pub fn is_redirect_status(status: u16) -> (r: bool)
    ensures
        r == is_redirect(status),
{
    status == 301 || status == 302 || status == 303 || status == 307 || status == 308
}

/// Where a redirecting response sends the fetch next.
pub fn redirect_location(resp: &Response) -> (r: Option<String>)
    ensures
        opt_view(r) == (if is_redirect(resp.status_code) {
            map_get(resp.headers@, "location"@)
        } else {
            None
        }),
{
    if !is_redirect_status(resp.status_code) {
        return None;
    }
    match resp.headers.get("location") {
        Some(l) => Some(l.clone()),
        None => None,
    }
}


/// A hexadecimal digit.
pub open spec fn is_hex_digit(c: char) -> bool {
    ('0' <= c && c <= '9') || ('a' <= c && c <= 'f') || ('A' <= c && c <= 'F')
}

/// The value of a hexadecimal digit.
pub open spec fn hex_value(c: char) -> nat {
    if '0' <= c && c <= '9' {
        (c as nat - 48) as nat
    } else if 'a' <= c && c <= 'f' {
        (c as nat - 87) as nat
    } else {
        (c as nat - 55) as nat
    }
}

proof fn lemma_ascii_encoding(d: Seq<char>)
    requires
        forall|j: int| 0 <= j < d.len() ==> (#[trigger] d[j] as u32) < 128,
    ensures
        vstd::utf8::encode_utf8(d).len() == d.len(),
        forall|j: int| 0 <= j < d.len() ==> #[trigger] vstd::utf8::encode_utf8(d)[j] == (d[j] as u32) as u8,
    decreases d.len(),
{
    if d.len() > 0 {
        let v = d[0] as u32;
        assert(v & 0x7F == v) by (bit_vector)
            requires
                v < 128,
        ;
        let t = d.drop_first();
        assert forall|j: int| 0 <= j < t.len() implies (#[trigger] t[j] as u32) < 128 by {
            assert(t[j] == d[j + 1]);
        }
        lemma_ascii_encoding(t);
        let e = vstd::utf8::encode_utf8(d);
        assert(e == vstd::utf8::encode_scalar(v) + vstd::utf8::encode_utf8(t));
        assert forall|j: int| 0 <= j < d.len() implies #[trigger] e[j] == (d[j] as u32) as u8 by {
            if j > 0 {
                assert(t[j - 1] == d[j]);
            }
        }
    }
}

proof fn lemma_first_byte_absent(s: Seq<u8>, b: u8)
    requires
        forall|j: int| 0 <= j < s.len() ==> #[trigger] s[j] != b,
    ensures
        first_byte(s, b) == s.len(),
    decreases s.len(),
{
    if s.len() > 0 {
        let t = s.drop_first();
        assert forall|j: int| 0 <= j < t.len() implies #[trigger] t[j] != b by {
            assert(t[j] == s[j + 1]);
        }
        lemma_first_byte_absent(t, b);
    }
}

/// A size line made of hexadecimal digits reads as their text.
proof fn lemma_hex_line(d: Seq<char>)
    requires
        d.len() > 0,
        forall|j: int| 0 <= j < d.len() ==> is_hex_digit(#[trigger] d[j]),
    ensures
        chunk_size(vstd::utf8::encode_utf8(d)) == parse_unsigned(d, 16, usize::MAX as nat),
{
    broadcast use vstd::utf8::encode_utf8_valid_utf8, vstd::utf8::encode_utf8_decode_utf8;

    let line = vstd::utf8::encode_utf8(d);
    assert forall|j: int| 0 <= j < d.len() implies (#[trigger] d[j] as u32) < 128 by {
        assert(is_hex_digit(d[j]));
    }
    lemma_ascii_encoding(d);
    assert forall|j: int| 0 <= j < line.len() implies #[trigger] line[j] != 59u8 by {
        assert(is_hex_digit(d[j]));
        assert(line[j] == (d[j] as u32) as u8);
    }
    lemma_first_byte_absent(line, 59u8);
    assert(line.take(line.len() as int) =~= line);
    crate::text::lemma_trim_range(d);
    crate::text::lemma_span_is(d, crate::text::ws_pred(), 0);
    assert(d.skip(0) =~= d);
    assert(is_hex_digit(d[d.len() - 1]));
    crate::text::lemma_rspan_is(d, crate::text::ws_pred(), 0);
    assert(trim(d) =~= d);
}

/// Chunk sizes are hexadecimal: a one-digit size line carries the
/// digit's value in bytes, and a digit added to a size line multiplies
/// its size by sixteen and adds the digit's value (where the size fits a
/// `usize`).
pub proof fn lemma_chunk_size_hexadecimal(d: Seq<char>, c: char)
    requires
        d.len() > 0,
        forall|j: int| 0 <= j < d.len() ==> is_hex_digit(#[trigger] d[j]),
        is_hex_digit(c),
    ensures
        chunk_size(vstd::utf8::encode_utf8(seq![c])) == Some(hex_value(c)),
        chunk_size(vstd::utf8::encode_utf8(d)) matches Some(n) ==> chunk_size(vstd::utf8::encode_utf8(d.push(c)))
            == (if n * 16 + hex_value(c) <= usize::MAX {
            Some(n * 16 + hex_value(c))
        } else {
            None
        }),
{
    let one = seq![c];
    assert forall|j: int| 0 <= j < one.len() implies is_hex_digit(#[trigger] one[j]) by {}
    lemma_hex_line(one);
    assert(one.drop_last() =~= Seq::<char>::empty());
    assert(crate::text::digit_val(c, 16) == hex_value(c));
    assert(one[0] != '+');
    assert(one.last() == c);
    assert(crate::text::digits_value(one.drop_last(), 16) == 0);
    assert(crate::text::digits_value(one, 16) == hex_value(c));
    assert(crate::text::all_digits(one, 16));
    assert(hex_value(c) <= usize::MAX);
    let e = d.push(c);
    assert forall|j: int| 0 <= j < e.len() implies is_hex_digit(#[trigger] e[j]) by {
        if j < d.len() {
            assert(e[j] == d[j]);
        }
    }
    lemma_hex_line(d);
    lemma_hex_line(e);
    assert(e.drop_last() =~= d);
    assert(e.last() == c);
    assert(d[0] != '+');
    assert(e[0] == d[0]);
    assert forall|j: int| 0 <= j < d.len() implies crate::text::digit_val(#[trigger] d[j], 16) >= 0 by {
        assert(is_hex_digit(d[j]));
    }
    assert forall|j: int| 0 <= j < e.len() implies crate::text::digit_val(#[trigger] e[j], 16) >= 0 by {
        assert(is_hex_digit(e[j]));
    }
}


proof fn lemma_find_from_first(h: Seq<u8>, n: Seq<u8>, i: nat, m: nat)
    requires
        i <= m,
        bytes_at(h, m as int, n),
        forall|k: int| i <= k < m ==> !#[trigger] bytes_at(h, k, n),
    ensures
        find_from(h, n, i) == Some(m),
    decreases m - i,
{
    if i < m {
        assert(!bytes_at(h, i as int, n));
        lemma_find_from_first(h, n, i + 1, m);
    }
}

proof fn lemma_chunks_shift(h: Seq<u8>, i: nat, m: nat)
    requires
        m <= i,
        m <= h.len(),
    ensures
        chunks_from(h, i) == chunks_from(h.skip(m as int), (i - m) as nat),
    decreases h.len() - i,
{
    let t = h.skip(m as int);
    let j = (i - m) as nat;
    if i < h.len() {
        assert(t.skip(j as int) =~= h.skip(i as int));
        match find_spec(h.skip(i as int), crlf()) {
            None => {},
            Some(p) => {
                lemma_find_from_bound(h.skip(i as int), crlf(), 0);
                assert(t.subrange(j as int, (j + p) as int) =~= h.subrange(i as int, (i + p) as int));
                let jj = i + p + 2;
                match chunk_size(h.subrange(i as int, (i + p) as int)) {
                    None => {},
                    Some(n) => {
                        if !(n == 0 || jj + n > h.len()) {
                            let k = jj + n;
                            assert(t.subrange(jj - m, jj + n - m) =~= h.subrange(jj as int, (jj + n) as int));
                            if k + 2 <= h.len() {
                                assert(t.subrange(k - m, k + 2 - m) =~= h.subrange(k as int, (k + 2) as int));
                                lemma_chunks_shift(h, (k + 2) as nat, m);
                            }
                        }
                    },
                }
            },
        }
    }
}

/// Chunked framing: a size line, a line break, as many bytes as the line
/// gives, and a line break carry those bytes, and the body goes on with
/// what follows.
pub proof fn lemma_one_chunk(line: Seq<u8>, data: Seq<u8>, rest: Seq<u8>)
    requires
        forall|j: int| 0 <= j < line.len() ==> #[trigger] line[j] != 13u8,
        chunk_size(line) == Some(data.len()),
        data.len() > 0,
    ensures
        chunks_from(line + crlf() + data + crlf() + rest, 0) == data + chunks_from(rest, 0),
{
    let h = line + crlf() + data + crlf() + rest;
    let m = line.len();
    assert(h.skip(0) =~= h);
    assert(h.subrange(m as int, m + 2int) =~= crlf());
    assert forall|k: int| 0 <= k < m implies !#[trigger] bytes_at(h, k, crlf()) by {
        assert(h.subrange(k, k + 2)[0] == h[k]);
        assert(h[k] == line[k]);
    }
    lemma_find_from_first(h, crlf(), 0, m);
    assert(h.subrange(0, m as int) =~= line);
    let j = m + 2;
    let n = data.len();
    assert(h.subrange(j as int, (j + n) as int) =~= data);
    let k = j + n;
    assert(h.subrange(k as int, (k + 2) as int) =~= crlf());
    lemma_chunks_shift(h, (k + 2) as nat, (k + 2) as nat);
    assert(h.skip((k + 2) as int) =~= rest);
}

} // verus!
