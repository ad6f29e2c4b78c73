//! The browser's configuration file: lines of `key = value`, `#`
//! comments, optional quotes around values; the only key is `font.path`,
//! a path relative to the configuration file.
use vstd::prelude::*;

use crate::dom::opt_view;
use crate::selector::{unquote, unquote_attr_value};
use crate::text::{
    append_chars, chars_of, dec, dec_usize, eq_lit, find_char_from, first_of, lemma_span_le, ne_pred,
    string_of, trim, trim_chars, rspan, lemma_rspan_le,
};

verus! {

/// The configuration: the font to use, if one is set.
pub struct AppConfig {
    pub font_path: Option<String>,
}

impl Default for AppConfig {
    fn default() -> (r: Self)
        ensures
            r.font_path is None,
    {
        AppConfig { font_path: None }
    }
}

/// `str::lines`: pieces between `\n`, each without a `\r` before its
/// `\n`; a final `\n` ends the last line rather than starting an empty
/// one.
pub open spec fn lines_of(s: Seq<char>) -> Seq<Seq<char>>
    decreases s.len(),
{
    if s.len() == 0 {
        Seq::empty()
    } else {
        let i = first_of(s, '\n');
        if i < s.len() {
            let l = s.take(i as int);
            let l2 = if l.len() > 0 && l.last() == '\r' {
                l.drop_last()
            } else {
                l
            };
            proof {
                lemma_span_le(s, ne_pred('\n'));
            }
            seq![l2] + lines_of(s.skip(i + 1int))
        } else {
            seq![s]
        }
    }
}

/// The part of a line before its first `#`.
pub open spec fn strip_comment_spec(line: Seq<char>) -> Seq<char> {
    line.take(first_of(line, '#') as int)
}

/// `line N: msg`.
pub open spec fn line_error(n: nat, msg: Seq<char>) -> Seq<char> {
    "line "@ + dec(n) + ": "@ + msg
}

/// A value: not empty, one pair of surrounding quotes removed, trimmed,
/// and not empty after that.
pub open spec fn value_spec(raw: Seq<char>, n: nat) -> Result<Seq<char>, Seq<char>> {
    if raw.len() == 0 {
        Err(line_error(n, "missing value"@))
    } else if trim(unquote(raw)).len() == 0 {
        Err(line_error(n, "empty value"@))
    } else {
        Ok(trim(unquote(raw)))
    }
}

/// What line `n` says: nothing (blank or comment), a font path, or an
/// error.
pub open spec fn config_line(line: Seq<char>, n: nat) -> Option<Result<Seq<char>, Seq<char>>> {
    let l = trim(strip_comment_spec(line));
    if l.len() == 0 {
        None
    } else {
        let i = first_of(l, '=');
        if i >= l.len() {
            Some(Err(line_error(n, "expected `key = value`"@)))
        } else {
            let key = trim(l.take(i as int));
            match value_spec(trim(l.skip(i + 1int)), n) {
                Err(e) => Some(Err(e)),
                Ok(v) => if key == "font.path"@ {
                    Some(Ok(v))
                } else {
                    Some(Err(line_error(n, "unsupported key `"@ + key + "`"@)))
                },
            }
        }
    }
}

/// The lines from index `i` on, with `cur` the font path so far: the
/// last font path, or the first error.
pub open spec fn config_from(lines: Seq<Seq<char>>, i: nat, cur: Option<Seq<char>>) -> Result<
    Option<Seq<char>>,
    Seq<char>,
>
    decreases lines.len() - i,
{
    if i >= lines.len() {
        Ok(cur)
    } else {
        match config_line(lines[i as int], i + 1) {
            None => config_from(lines, i + 1, cur),
            Some(Ok(v)) => config_from(lines, i + 1, Some(v)),
            Some(Err(e)) => Err(e),
        }
    }
}

/// The font path a configuration text sets (relative paths not yet
/// resolved), or the error of its first bad line.
pub open spec fn config_spec(text: Seq<char>) -> Result<Option<Seq<char>>, Seq<char>> {
    config_from(lines_of(text), 0, None)
}

proof fn lemma_lines_len(s: Seq<char>)
    ensures
        lines_of(s).len() <= s.len(),
    decreases s.len(),
{
    if s.len() > 0 {
        let i = first_of(s, '\n');
        lemma_span_le(s, ne_pred('\n'));
        if i < s.len() {
            lemma_lines_len(s.skip(i + 1int));
        }
    }
}

/// The lines of a text.
pub fn lines(text: &[char]) -> (r: Vec<Vec<char>>)
    ensures
        crate::text::vviews(r@) == lines_of(text@),
{
    let mut r: Vec<Vec<char>> = Vec::new();
    let mut pos: usize = 0;
    assert(text@.skip(0) =~= text@);
    assert(crate::text::vviews(r@) =~= Seq::<Seq<char>>::empty());
    assert(Seq::<Seq<char>>::empty() + lines_of(text@) =~= lines_of(text@));
    while pos < text.len()
        invariant
            pos <= text@.len(),
            lines_of(text@) == crate::text::vviews(r@) + lines_of(text@.skip(pos as int)),
        decreases text@.len() - pos,
    {
        let ghost rest = text@.skip(pos as int);
        let e = find_char_from(text, pos, '\n');
        let ghost i = first_of(rest, '\n');
        assert(e == pos + i);
        let ghost before = crate::text::vviews(r@);
        if e < text.len() {
            let mut stop = e;
            if stop > pos && text[stop - 1] == '\r' {
                stop = stop - 1;
            }
            let line = vstd::slice::slice_to_vec(vstd::slice::slice_subrange(text, pos, stop));
            proof {
                let l = rest.take(i as int);
                assert(l =~= text@.subrange(pos as int, e as int));
                if l.len() > 0 && l.last() == '\r' {
                    assert(line@ =~= l.drop_last());
                } else {
                    assert(line@ =~= l);
                }
                assert(rest.skip(i + 1int) =~= text@.skip(e + 1));
            }
            r.push(line);
            assert(crate::text::vviews(r@) =~= before.push(line@));
            assert(before.push(line@) + lines_of(text@.skip(e + 1)) =~= before + (seq![line@] + lines_of(text@.skip(e + 1))));
            pos = e + 1;
        } else {
            let line = vstd::slice::slice_to_vec(vstd::slice::slice_subrange(text, pos, text.len()));
            assert(line@ =~= rest);
            r.push(line);
            assert(crate::text::vviews(r@) =~= before.push(line@));
            assert(text@.skip(text@.len() as int) =~= Seq::<char>::empty());
            assert(before.push(line@) =~= before + seq![rest]);
            pos = text.len();
            assert(lines_of(text@.skip(pos as int)) =~= Seq::<Seq<char>>::empty());
            assert(crate::text::vviews(r@) + Seq::<Seq<char>>::empty() =~= crate::text::vviews(r@));
        }
    }
    assert(text@.skip(pos as int) =~= Seq::<char>::empty());
    assert(crate::text::vviews(r@) + Seq::<Seq<char>>::empty() =~= crate::text::vviews(r@));
    r
}

/// `line` up to its first `#`.
pub fn strip_comment(line: &[char]) -> (r: Vec<char>)
    ensures
        r@ == strip_comment_spec(line@),
{
    let i = find_char_from(line, 0, '#');
    assert(line@.skip(0) =~= line@);
    vstd::slice::slice_to_vec(vstd::slice::slice_subrange(line, 0, i))
}

/// A value: quotes removed, trimmed, not empty.
pub fn parse_value(raw_value: &[char], line_number: usize) -> (r: Result<String, String>)
    ensures
        match r {
            Ok(v) => value_spec(raw_value@, line_number as nat) == Ok::<Seq<char>, Seq<char>>(v@),
            Err(e) => value_spec(raw_value@, line_number as nat) == Err::<Seq<char>, Seq<char>>(e@),
        },
{
    if raw_value.len() == 0 {
        return Err(line_error_text(line_number, chars_of("missing value").as_slice()));
    }
    let v = trim_chars(unquote_attr_value(raw_value).as_slice());
    if v.len() == 0 {
        return Err(line_error_text(line_number, chars_of("empty value").as_slice()));
    }
    Ok(string_of(v.as_slice()))
}

/// `/` and `\\`, the characters that separate path components on some
/// platform.
pub open spec fn is_sep(c: char) -> bool {
    c == '/' || c == '\\'
}

/// A path that is relative on every platform: it does not start with a
/// separator and holds no `:` (so it has no drive or other prefix).
pub open spec fn relative_everywhere(p: Seq<char>) -> bool {
    !(p.len() > 0 && is_sep(p[0])) && !p.contains(':')
}

/// A path without its leading `/`, if it has one.
pub open spec fn strip_root(p: Seq<char>) -> Seq<char> {
    if p.len() > 0 && p[0] == '/' {
        p.drop_first()
    } else {
        p
    }
}

/// A path of plain components on every platform: after an optional
/// leading `/`, one or more components separated by single `/`, none of
/// them empty, `.` or `..`, and no `\\` or `:` anywhere (so no drive or
/// other prefix).
pub open spec fn plain_path(p: Seq<char>) -> bool {
    let q = strip_root(p);
    &&& q.len() > 0
    &&& q[0] != '/'
    &&& q[q.len() - 1] != '/'
    &&& forall|i: int| 0 <= i < q.len() ==> #[trigger] q[i] != '\\' && q[i] != ':'
    &&& forall|i: int| 0 <= i < q.len() - 1 && #[trigger] q[i] == '/' ==> q[i + 1] != '/'
    &&& forall|i: int|
        0 <= i < q.len() && #[trigger] q[i] == '.' && (i == 0 || q[i - 1] == '/') ==> (i + 1 < q.len()
            && q[i + 1] != '/' && !(q[i + 1] == '.' && (i + 2 == q.len() || q[i + 2] == '/')))
}

pub open spec fn not_slash_pred() -> spec_fn(char) -> bool {
    |c: char| c != '/'
}

/// The directory of a path of two or more plain components: the path
/// without its last `/` and last component.
pub open spec fn plain_dir(p: Seq<char>) -> Option<Seq<char>> {
    if plain_path(p) && strip_root(p).contains('/') {
        Some(p.take(p.len() - rspan(p, not_slash_pred()) - 1))
    } else {
        None
    }
}

/// The directory of a plain path is a plain path.
pub proof fn lemma_plain_dir(p: Seq<char>)
    requires
        plain_dir(p) is Some,
    ensures
        plain_path(plain_dir(p)->0),
{
    let q = strip_root(p);
    let lead: int = if p.len() > 0 && p[0] == '/' {
        1
    } else {
        0
    };
    assert(q =~= p.skip(lead));
    lemma_rspan_le(p, not_slash_pred());
    let j = choose|j: int| 0 <= j < q.len() && q[j] == '/';
    assert(p[lead + j] == '/');
    let k = p.len() - rspan(p, not_slash_pred()) - 1;
    if rspan(p, not_slash_pred()) == p.len() {
        assert(!not_slash_pred()(p[lead + j]));
    }
    assert(p[k] == '/');
    let d = p.take(k);
    let kq = k - lead;
    assert(kq >= 1) by {
        if kq <= 0 {
            assert(q[j] == p[lead + j]);
            assert(lead + j <= k || !not_slash_pred()(p[lead + j]));
        }
    }
    assert(q[kq] == '/');
    let e = strip_root(d);
    if lead == 1 {
        assert(d[0] == '/');
    }
    assert(e =~= q.take(kq));
    assert forall|i: int| 0 <= i < e.len() implies #[trigger] e[i] != '\\' && e[i] != ':' by {
        assert(e[i] == q[i]);
    }
    assert forall|i: int| 0 <= i < e.len() - 1 && #[trigger] e[i] == '/' implies e[i + 1] != '/' by {
        assert(e[i] == q[i] && e[i + 1] == q[i + 1]);
    }
    assert(e[e.len() - 1] == q[kq - 1]);
    assert(q[kq - 1] == '/' ==> q[kq] != '/');
    assert forall|i: int|
        0 <= i < e.len() && #[trigger] e[i] == '.' && (i == 0 || e[i - 1] == '/') implies (i + 1 < e.len()
            && e[i + 1] != '/' && !(e[i + 1] == '.' && (i + 2 == e.len() || e[i + 2] == '/'))) by {
        assert(e[i] == q[i]);
        if i > 0 {
            assert(e[i - 1] == q[i - 1]);
        }
        assert(q[i] == '.');
        assert(i + 1 < q.len() && q[i + 1] != '/');
        assert(i + 1 < e.len());
        assert(e[i + 1] == q[i + 1]);
        if i + 2 < e.len() {
            assert(e[i + 2] == q[i + 2]);
        }
    }
}

/// `rest` joined onto `dir` with the platform's separator.
pub open spec fn joined_onto(dir: Seq<char>, rest: Seq<char>, r: Seq<char>) -> bool {
    r == dir + seq!['/'] + rest || r == dir + seq!['\\'] + rest
}

/// What holds on every platform of a path `raw` resolved against the
/// configuration file `config`: when the file's path is made of plain
/// components (`p1/.../pn/f` or `/p1/.../pn/f`, n at least one) and `raw`
/// is relative everywhere, the result is `raw` joined onto `p1/.../pn`.
pub open spec fn resolved(config: Seq<char>, raw: Seq<char>, r: Seq<char>) -> bool {
    match plain_dir(config) {
        Some(d) => relative_everywhere(raw) ==> joined_onto(d, raw, r),
        None => true,
    }
}

/// `Path::is_absolute` on the platform this runs on.  Stated: a path that
/// does not start with `/` or `\\` and holds no `:` is absolute nowhere (on
/// Unix an absolute path starts with the root `/`; on Windows it has a
/// prefix such as `C:` or `\\\\server` and a root).
#[verifier::external_body]
fn path_is_absolute(p: &str) -> (r: bool)
    ensures
        relative_everywhere(p@) ==> !r,
{
    std::path::Path::new(p).is_absolute()
}

/// `Path::parent`, as a string.  Stated: the parent of a path of two or
/// more plain components (`plain_dir`) is the path without its last
/// component and the `/` before it, on every platform (the documentation's
/// example: `foo/bar` has the parent `foo`).  Other parents follow the
/// platform's rules and are left unsaid.
#[verifier::external_body]
fn path_parent(p: &str) -> (r: Option<String>)
    ensures
        plain_dir(p@) is Some ==> opt_view(r) == plain_dir(p@),
{
    match std::path::Path::new(p).parent() {
        Some(q) => Some(q.to_string_lossy().into_owned()),
        None => None,
    }
}

/// `Path::join` (that is, `PathBuf::push`), as a string.  Stated: a
/// non-empty path adjoined gives a non-empty path; and a path that is
/// relative everywhere, adjoined to a path of plain components (which has
/// no prefix and no trailing separator), follows it after the platform's
/// separator, `/` or `\\`.  Other spellings are left unsaid.
#[verifier::external_body]
fn path_join(base: &str, rest: &str) -> (r: String)
    ensures
        rest@.len() > 0 ==> r@.len() > 0,
        plain_path(base@) && relative_everywhere(rest@) ==> joined_onto(base@, rest@, r@),
{
    std::path::Path::new(base).join(rest).to_string_lossy().into_owned()
}

/// The directory a configured path is joined onto: none for an absolute
/// path (it is kept as it is), else the configuration file's parent, or
/// the current directory `.` when the file has no parent.
pub fn join_base(absolute: bool, parent: Option<String>) -> (b: Option<String>)
    ensures
        opt_view(b) == (if absolute {
            None
        } else {
            match parent {
                Some(p) => Some(p@),
                None => Some("."@),
            }
        }),
{
    if absolute {
        None
    } else {
        match parent {
            Some(p) => Some(p),
            None => Some(String::from_str(".")),
        }
    }
}

/// `raw_path` as it is when absolute, else joined onto the directory that
/// `join_base` picks.  Stated is what holds on every platform: a
/// non-empty result for a non-empty path, and for a configuration file
/// whose path is made of plain components and a path relative
/// everywhere, the path joined onto the file's directory.
pub fn resolve_path(config_path: &str, raw_path: &str) -> (r: String)
    ensures
        raw_path@.len() > 0 ==> r@.len() > 0,
        resolved(config_path@, raw_path@, r@),
{
    let absolute = path_is_absolute(raw_path);
    let parent = if absolute {
        None
    } else {
        path_parent(config_path)
    };
    proof {
        if plain_dir(config_path@) is Some {
            lemma_plain_dir(config_path@);
        }
    }
    match join_base(absolute, parent) {
        None => String::from_str(raw_path),
        Some(dir) => path_join(dir.as_str(), raw_path),
    }
}

/// The configuration a text sets, relative paths resolved against the
/// configuration file's directory.
pub fn parse_config_text(config_text: &str, config_path: &str) -> (r: Result<AppConfig, String>)
    ensures
        match r {
            Ok(c) => config_spec(config_text@) matches Ok(o) && (c.font_path is Some <==> o is Some) && (
            c.font_path matches Some(p) ==> p@.len() > 0 && (o matches Some(v) && resolved(
                config_path@,
                v,
                p@,
            ))),
            Err(e) => config_spec(config_text@) == Err::<Option<Seq<char>>, Seq<char>>(e@),
        },
{
    let text = chars_of(config_text);
    let ls = lines(text.as_slice());
    proof {
        lemma_lines_len(text@);
    }
    let ghost lv = crate::text::vviews(ls@);
    let mut font_path: Option<String> = None;
    let ghost mut raw: Option<Seq<char>> = None;
    let mut i: usize = 0;
    while i < ls.len()
        invariant
            i <= ls@.len() <= text@.len(),
            lv == crate::text::vviews(ls@),
            lv == lines_of(text@),
            text@ == config_text@,
            config_spec(config_text@) == config_from(lv, i as nat, raw),
            font_path is Some <==> raw is Some,
            font_path matches Some(p) ==> p@.len() > 0 && (raw matches Some(v) && resolved(
                config_path@,
                v,
                p@,
            )),
        decreases ls@.len() - i,
    {
        let line_number = i + 1;
        assert(lv[i as int] == ls@[i as int]@);
        let line = trim_chars(strip_comment(ls[i].as_slice()).as_slice());
        if line.len() == 0 {
            i += 1;
            continue;
        }
        let eq = find_char_from(line.as_slice(), 0, '=');
        assert(line@.skip(0) =~= line@);
        if eq >= line.len() {
            return Err(line_error_text(line_number, chars_of("expected `key = value`").as_slice()));
        }
        let head = vstd::slice::slice_subrange(line.as_slice(), 0, eq);
        assert(head@ =~= line@.take(eq as int));
        let key = trim_chars(head);
        let tail = vstd::slice::slice_subrange(line.as_slice(), eq + 1, line.len());
        assert(tail@ =~= line@.skip(eq + 1));
        let value = match parse_value(trim_chars(tail).as_slice(), line_number) {
            Ok(v) => v,
            Err(e) => {
                return Err(e);
            },
        };
        if eq_lit(key.as_slice(), "font.path") {
            font_path = Some(resolve_path(config_path, value.as_str()));
            proof {
                raw = Some(value@);
            }
        } else {
            let mut msg = chars_of("unsupported key `");
            append_chars(&mut msg, key.as_slice());
            msg.push('`');
            proof {
                reveal_strlit("`");
                assert(msg@ =~= "unsupported key `"@ + key@ + "`"@);
            }
            return Err(line_error_text(line_number, msg.as_slice()));
        }
        i += 1;
    }
    Ok(AppConfig { font_path })
}

fn line_error_text(n: usize, msg: &[char]) -> (r: String)
    ensures
        r@ == line_error(n as nat, msg@),
{
    let mut out = chars_of("line ");
    let d = dec_usize(n);
    append_chars(&mut out, d.as_slice());
    let sep = chars_of(": ");
    append_chars(&mut out, sep.as_slice());
    append_chars(&mut out, msg);
    string_of(out.as_slice())
}

} // verus!
