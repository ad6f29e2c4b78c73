//! Images: where the bytes of an image source come from (a `file:` URL,
//! an `http`/`https` URL or a local path), the minimal percent-decoding
//! of paths, the decision at each response of an image fetch, and the
//! natural size of decoded image data.
use vstd::prelude::*;

use vstd::string::StringSliceAdditionalSpecFns;
use vstd::utf8::{decode_utf8, encode_utf8, valid_utf8};

use crate::dom::opt_view;
use crate::http::Response;
use crate::text::{chars_of, eq_ic, eq_ignore_case, eq_lit, lower, string_of, trim, trim_chars};

verus! {

/// Redirects an image fetch follows.
pub const MAX_REDIRECTS: usize = 5;

/// The number of bytes UTF-8 takes for a character.
pub open spec fn char_len(c: char) -> nat {
    if (c as u32) < 0x80 {
        1
    } else if (c as u32) < 0x800 {
        2
    } else if (c as u32) < 0x10000 {
        3
    } else {
        4
    }
}

/// The number of UTF-8 bytes of the first `k` characters.
pub open spec fn bytes_upto(s: Seq<char>, k: int) -> nat
    decreases k,
{
    if k <= 0 || k > s.len() {
        0
    } else {
        bytes_upto(s, k - 1) + char_len(s[k - 1])
    }
}

/// Taking the first `n` bytes of `s` does not cut a character: `s` is
/// shorter, or `n` falls between two characters.
pub open spec fn prefix_cut_ok(s: Seq<char>, n: nat) -> bool {
    bytes_upto(s, s.len() as int) < n || exists|k: int| 0 <= k <= s.len() && #[trigger] bytes_upto(s, k) == n
}

/// The byte-level ASCII case-insensitive prefix test, on a text where it
/// does not cut a character.
pub open spec fn starts_ic(s: Seq<char>, p: Seq<char>) -> bool {
    s.len() >= p.len() && eq_ic(s.take(p.len() as int), p)
}

fn utf8_len(c: char) -> (r: usize)
    ensures
        r == char_len(c),
{
    let v = c as u32;
    if v < 0x80 {
        1
    } else if v < 0x800 {
        2
    } else if v < 0x10000 {
        3
    } else {
        4
    }
}

/// Whether the first `n` bytes of `s` can be taken without cutting a
/// character.
pub fn prefix_cut_is_ok(s: &[char], n: usize) -> (r: bool)
    ensures
        r == prefix_cut_ok(s@, n as nat),
{
    let mut k: usize = 0;
    let mut b: usize = 0;
    while k < s.len()
        invariant
            k <= s@.len(),
            b == bytes_upto(s@, k as int),
            b <= n,
            forall|j: int| 0 <= j < k ==> bytes_upto(s@, j) < n,
        decreases s@.len() - k,
    {
        if b == n {
            return true;
        }
        let l = utf8_len(s[k]);
        if l > n - b {
            proof {
                lemma_bytes_mono(s@, k + 1);
                assert forall|j: int| 0 <= j <= s@.len() implies #[trigger] bytes_upto(s@, j) != n by {
                    if j > k {
                        lemma_bytes_grow(s@, k + 1, j);
                    }
                }
                lemma_bytes_grow(s@, k + 1, s@.len() as int);
            }
            return false;
        }
        b = b + l;
        k += 1;
    }
    if b == n {
        return true;
    }
    proof {
        assert forall|j: int| 0 <= j <= s@.len() implies #[trigger] bytes_upto(s@, j) != n by {}
    }
    b < n
}

proof fn lemma_bytes_mono(s: Seq<char>, k: int)
    requires
        0 < k <= s.len(),
    ensures
        bytes_upto(s, k) == bytes_upto(s, k - 1) + char_len(s[k - 1]),
{
}

proof fn lemma_bytes_grow(s: Seq<char>, a: int, b: int)
    requires
        0 <= a <= b <= s.len(),
    ensures
        bytes_upto(s, a) <= bytes_upto(s, b),
    decreases b - a,
{
    if a < b {
        lemma_bytes_grow(s, a, b - 1);
    }
}

/// `s` starts with the ASCII text `prefix`, ignoring ASCII case.
pub fn starts_with_ignore_ascii_case(s: &[char], prefix: &str) -> (r: bool)
    ensures
        r == starts_ic(s@, prefix@),
{
    let p = chars_of(prefix);
    if s.len() < p.len() {
        return false;
    }
    let head = vstd::slice::slice_subrange(s, 0, p.len());
    assert(head@ =~= s@.take(p@.len() as int));
    eq_ignore_case(head, p.as_slice())
}

/// `s` without `prefix` when it starts with it (ASCII case ignored).
pub fn trim_prefix_ignore_ascii_case(s: &[char], prefix: &str) -> (r: Vec<char>)
    ensures
        r@ == (if starts_ic(s@, prefix@) {
            s@.skip(prefix@.len() as int)
        } else {
            s@
        }),
{
    if starts_with_ignore_ascii_case(s, prefix) {
        let p = chars_of(prefix);
        let t = vstd::slice::slice_subrange(s, p.len(), s.len());
        assert(t@ =~= s@.skip(prefix@.len() as int));
        vstd::slice::slice_to_vec(t)
    } else {
        vstd::slice::slice_to_vec(s)
    }
}

/// A drive path such as `D:\...` or `D:/...`.
pub open spec fn windows_path(s: Seq<char>) -> bool {
    s.len() >= 3 && (s[0] as u32) < 0x80 && s[1] == ':' && (s[2] == '\\' || s[2] == '/')
}

pub fn looks_like_windows_path(s: &[char]) -> (r: bool)
    ensures
        r == windows_path(s@),
{
    s.len() >= 3 && (s[0] as u32) < 0x80 && s[1] == ':' && (s[2] == '\\' || s[2] == '/')
}

/// The UTF-8 bytes of a text (`str::as_bytes`).
pub open spec fn utf8_bytes(s: Seq<char>) -> Seq<u8> {
    encode_utf8(s)
}

/// The text that some bytes encode in UTF-8 (`String::from_utf8`), or
/// `None` when they are not valid UTF-8.
pub open spec fn utf8_text(b: Seq<u8>) -> Option<Seq<char>> {
    if valid_utf8(b) {
        Some(decode_utf8(b))
    } else {
        None
    }
}

/// The UTF-8 bytes of a text, copied.
pub(crate) fn bytes_of(s: &str) -> (r: Vec<u8>)
    ensures
        r@ == utf8_bytes(s@),
{
    vstd::slice::slice_to_vec(s.as_bytes())
}

/// Calls `String::from_utf8`, which gives the text the bytes encode when
/// they are valid UTF-8 and an error otherwise.
#[verifier::external_body]
fn string_from_utf8(b: Vec<u8>) -> (r: Option<String>)
    ensures
        opt_view(r) == utf8_text(b@),
{
    String::from_utf8(b).ok()
}

/// The value of an ASCII hexadecimal digit.
pub open spec fn hex_val(c: u8) -> Option<u8> {
    if 48 <= c <= 57 {
        Some((c - 48) as u8)
    } else if 97 <= c <= 102 {
        Some((c - 97 + 10) as u8)
    } else if 65 <= c <= 70 {
        Some((c - 65 + 10) as u8)
    } else {
        None
    }
}

/// The bytes from index `i` with each `%XX` (two hexadecimal digits,
/// not at the very end) replaced by the byte it writes.
pub open spec fn pct_from(b: Seq<u8>, i: int) -> Seq<u8>
    decreases b.len() - i,
{
    if i < 0 || i >= b.len() {
        Seq::empty()
    } else if b[i] == 37u8 && i + 2 < b.len() && hex_val(b[i + 1]) is Some && hex_val(b[i + 2]) is Some {
        seq![((hex_val(b[i + 1])->0 as int) * 16 + (hex_val(b[i + 2])->0 as int)) as u8] + pct_from(b, i + 3)
    } else {
        seq![b[i]] + pct_from(b, i + 1)
    }
}

/// `%XX` sequences decoded in the UTF-8 bytes of `s`; `s` itself when the
/// result is not valid UTF-8.
pub open spec fn percent_decoded(s: Seq<char>) -> Seq<char> {
    match utf8_text(pct_from(utf8_bytes(s), 0)) {
        Some(t) => t,
        None => s,
    }
}

fn hex_digit(c: u8) -> (r: Option<u8>)
    ensures
        r == hex_val(c),
        r matches Some(v) ==> v < 16,
{
    if 48 <= c && c <= 57 {
        Some(c - 48)
    } else if 97 <= c && c <= 102 {
        Some(c - 97 + 10)
    } else if 65 <= c && c <= 70 {
        Some(c - 65 + 10)
    } else {
        None
    }
}

pub fn percent_decode_minimal(s: &str) -> (r: String)
    ensures
        r@ == percent_decoded(s@),
{
    let bytes = bytes_of(s);
    let mut out: Vec<u8> = Vec::new();
    let mut i: usize = 0;
    while i < bytes.len()
        invariant
            i <= bytes@.len(),
            pct_from(bytes@, 0) == out@ + pct_from(bytes@, i as int),
        decreases bytes@.len() - i,
    {
        let ghost before = out@;
        if bytes[i] == 37u8 && bytes.len() - i > 2 {
            let h1 = hex_digit(bytes[i + 1]);
            let h2 = hex_digit(bytes[i + 2]);
            match (h1, h2) {
                (Some(a), Some(b)) => {
                    let v: u8 = a * 16 + b;
                    out.push(v);
                    assert(before + pct_from(bytes@, i as int) =~= out@ + pct_from(bytes@, i + 3));
                    i += 3;
                    continue;
                },
                _ => {},
            }
        }
        out.push(bytes[i]);
        assert(before + pct_from(bytes@, i as int) =~= out@ + pct_from(bytes@, i + 1));
        i += 1;
    }
    assert(out@ + pct_from(bytes@, i as int) =~= out@);
    match string_from_utf8(out) {
        Some(t) => t,
        None => String::from_str(s),
    }
}

/// A `file:` URL's path: the scheme and a `localhost` host dropped,
/// percent-decoded, and the slashes before a drive letter removed;
/// `None` for `file://localhost` alone.
pub open spec fn file_url_path_spec(src: Seq<char>) -> Option<Seq<char>> {
    let rest0 = trim(src);
    let rest1 = if starts_ic(rest0, "file://"@) {
        rest0.skip(7)
    } else {
        rest0
    };
    if !starts_ic(rest1, "localhost/"@) && starts_ic(rest1, "localhost"@) && rest1.len() == 9 {
        None
    } else {
        let rest = if starts_ic(rest1, "localhost/"@) {
            rest1.skip(10)
        } else {
            rest1
        };
        let path = percent_decoded(rest);
        if path.len() >= 3 && path[0] == '/' && (path[1] as u32) < 0x80 && path[2] == ':' {
            Some(path.skip(crate::text::span(path, crate::http::eq_pred('/')) as int))
        } else {
            Some(path)
        }
    }
}

/// The prefix tests of a `file:` URL do not cut a character.
pub open spec fn file_url_safe(src: Seq<char>) -> bool {
    let rest0 = trim(src);
    let rest1 = if starts_ic(rest0, "file://"@) {
        rest0.skip(7)
    } else {
        rest0
    };
    prefix_cut_ok(rest0, 7) && prefix_cut_ok(rest1, 10) && prefix_cut_ok(rest1, 9)
}

pub fn file_url_path(src: &str) -> (r: Option<String>)
    requires
        file_url_safe(src@),
    ensures
        opt_view(r) == file_url_path_spec(src@),
{
    let rest0 = trim_chars(chars_of(src).as_slice());
    let rest1 = trim_prefix_ignore_ascii_case(rest0.as_slice(), "file://");
    proof {
        reveal_strlit("file://");
        reveal_strlit("localhost/");
        reveal_strlit("localhost");
    }
    let rest = if starts_with_ignore_ascii_case(rest1.as_slice(), "localhost/") {
        let t = vstd::slice::slice_subrange(rest1.as_slice(), 10, rest1.len());
        assert(t@ =~= rest1@.skip(10));
        vstd::slice::slice_to_vec(t)
    } else if starts_with_ignore_ascii_case(rest1.as_slice(), "localhost") && rest1.len() == 9 {
        return None;
    } else {
        rest1
    };
    let path = chars_of(percent_decode_minimal(string_of(rest.as_slice()).as_str()).as_str());
    if path.len() >= 3 && path[0] == '/' && (path[1] as u32) < 0x80 && path[2] == ':' {
        let mut a: usize = 0;
        while a < path.len() && path[a] == '/'
            invariant
                a <= path@.len(),
                forall|j: int| 0 <= j < a ==> (crate::http::eq_pred('/'))(#[trigger] path@[j]),
            decreases path@.len() - a,
        {
            a += 1;
        }
        proof {
            crate::text::lemma_span_is(path@, crate::http::eq_pred('/'), a as int);
        }
        let t = vstd::slice::slice_subrange(path.as_slice(), a, path.len());
        assert(t@ =~= path@.skip(a as int));
        Some(string_of(t))
    } else {
        Some(string_of(path.as_slice()))
    }
}

/// Where the bytes of an image come from.
pub enum ImageSource {
    /// A `file:` URL and the path it names (`None`: nothing to read).
    FileUrl(Option<String>),
    /// An `http` or `https` URL.
    Network(String),
    /// A local path.
    LocalPath(String),
}

pub enum ImageSourceView {
    FileUrl(Option<Seq<char>>),
    Network(Seq<char>),
    LocalPath(Seq<char>),
}

impl View for ImageSource {
    type V = ImageSourceView;

    open spec fn view(&self) -> ImageSourceView {
        match self {
            ImageSource::FileUrl(p) => ImageSourceView::FileUrl(opt_view(*p)),
            ImageSource::Network(u) => ImageSourceView::Network(u@),
            ImageSource::LocalPath(p) => ImageSourceView::LocalPath(p@),
        }
    }
}

/// The source of an image `src`: a `file:` URL, an `http`/`https` URL, a
/// drive path or an absolute path; nothing for anything else.
pub open spec fn image_source_spec(src0: Seq<char>) -> Option<ImageSourceView> {
    let src = trim(src0);
    if src.len() == 0 {
        None
    } else if starts_ic(src, "file://"@) {
        Some(ImageSourceView::FileUrl(file_url_path_spec(src)))
    } else if starts_ic(src, "http://"@) || starts_ic(src, "https://"@) {
        Some(ImageSourceView::Network(src))
    } else if windows_path(src) || src[0] == '/' {
        Some(ImageSourceView::LocalPath(percent_decoded(src)))
    } else {
        None
    }
}

/// The prefix tests on `src` do not cut a character.
pub open spec fn image_src_safe(src0: Seq<char>) -> bool {
    let src = trim(src0);
    prefix_cut_ok(src, 7) && prefix_cut_ok(src, 8) && (starts_ic(src, "file://"@) ==> file_url_safe(src))
}

/// Whether `image_source` can classify `src` (its prefix tests cut no
/// character).
pub fn image_src_is_safe(src: &str) -> (r: bool)
    ensures
        r == image_src_safe(src@),
{
    let s = trim_chars(chars_of(src).as_slice());
    if !prefix_cut_is_ok(s.as_slice(), 7) || !prefix_cut_is_ok(s.as_slice(), 8) {
        return false;
    }
    if !starts_with_ignore_ascii_case(s.as_slice(), "file://") {
        return true;
    }
    proof {
        crate::text::lemma_trim_idem(src@);
        reveal_strlit("file://");
    }
    let rest1 = trim_prefix_ignore_ascii_case(s.as_slice(), "file://");
    prefix_cut_is_ok(s.as_slice(), 7) && prefix_cut_is_ok(rest1.as_slice(), 10) && prefix_cut_is_ok(
        rest1.as_slice(),
        9,
    )
}

pub fn image_source(src: &str) -> (r: Option<ImageSource>)
    requires
        image_src_safe(src@),
    ensures
        match r {
            Some(x) => image_source_spec(src@) == Some(x@),
            None => image_source_spec(src@) is None,
        },
{
    let s = trim_chars(chars_of(src).as_slice());
    if s.len() == 0 {
        return None;
    }
    let st = string_of(s.as_slice());
    if starts_with_ignore_ascii_case(s.as_slice(), "file://") {
        proof {
            crate::text::lemma_trim_idem(src@);
        }
        return Some(ImageSource::FileUrl(file_url_path(st.as_str())));
    }
    if starts_with_ignore_ascii_case(s.as_slice(), "http://") || starts_with_ignore_ascii_case(s.as_slice(), "https://") {
        return Some(ImageSource::Network(st));
    }
    if looks_like_windows_path(s.as_slice()) || s[0] == '/' {
        return Some(ImageSource::LocalPath(percent_decode_minimal(st.as_str())));
    }
    None
}

/// What an image fetch does after a response.
pub enum ImageFetch {
    /// The body is the image.
    Bytes,
    /// Follow a redirect to this location.
    Follow(String),
    /// Give up.
    Stop,
}

/// The decision after a response: a failed or empty response stops, a
/// 2xx response gives the image, a redirect with a `Location` is
/// followed, anything else stops.
pub open spec fn image_step_spec(status: u16, body_len: nat, location: Option<Seq<char>>) -> Option<Option<Seq<char>>> {
    if status == 0 || body_len == 0 {
        None
    } else if 200 <= status < 300 {
        Some(None)
    } else if crate::http::is_redirect(status) {
        match location {
            Some(l) => if trim(l).len() > 0 {
                Some(Some(trim(l)))
            } else {
                None
            },
            None => None,
        }
    } else {
        None
    }
}

pub fn image_fetch_step(resp: &Response) -> (r: ImageFetch)
    ensures
        image_step_spec(resp.status_code, resp.body@.len(), crate::dom::map_get(resp.headers@, "location"@))
            == match r {
            ImageFetch::Bytes => Some(None),
            ImageFetch::Follow(l) => Some(Some(l@)),
            ImageFetch::Stop => None::<Option<Seq<char>>>,
        },
{
    if resp.status_code == 0 || resp.body.len() == 0 {
        return ImageFetch::Stop;
    }
    if 200 <= resp.status_code && resp.status_code < 300 {
        return ImageFetch::Bytes;
    }
    if crate::http::is_redirect_status(resp.status_code) {
        match resp.headers.get("location") {
            Some(l) => {
                let t = trim_chars(chars_of(l.as_str()).as_slice());
                if t.len() > 0 {
                    return ImageFetch::Follow(string_of(t.as_slice()));
                }
                return ImageFetch::Stop;
            },
            None => {
                return ImageFetch::Stop;
            },
        }
    }
    ImageFetch::Stop
}

/// The width and height of the image that some bytes hold, as the
/// `image` crate decodes it, or `None` when it cannot.
pub uninterp spec fn image_dims(bytes: Seq<u8>) -> Option<(u32, u32)>;

/// Decodes with `image::load_from_memory` and reads the decoded image's
/// dimensions; the result is named `image_dims`.
#[verifier::external_body]
fn decoded_dimensions(bytes: &[u8]) -> (r: Option<(u32, u32)>)
    ensures
        r == image_dims(bytes@),
{
    match image::load_from_memory(bytes) {
        Ok(img) => Some(image::GenericImageView::dimensions(&img)),
        Err(_) => None,
    }
}

/// The natural size of an image: its decoded dimensions, neither zero.
pub open spec fn natural_size_spec(bytes: Seq<u8>) -> Option<(u32, u32)> {
    match image_dims(bytes) {
        Some((w, h)) => if w == 0 || h == 0 {
            None
        } else {
            Some((w, h))
        },
        None => None,
    }
}

pub fn natural_size_of_bytes(bytes: &[u8]) -> (r: Option<(u32, u32)>)
    ensures
        r == natural_size_spec(bytes@),
{
    match decoded_dimensions(bytes) {
        Some((w, h)) => if w == 0 || h == 0 {
            None
        } else {
            Some((w, h))
        },
        None => None,
    }
}

} // verus!
