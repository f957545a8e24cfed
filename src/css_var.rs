use vstd::prelude::*;
use vstd::string::*;
use crate::text::{chars_of, is_whitespace, is_ws, push_char, string_of};

verus! {

/// How token paths become CSS custom property names.
#[derive(Debug, Clone, PartialEq, Eq)]
pub struct CssKeyOptions {
    /// A namespace put before every name, itself normalized.
    pub prefix: Option<String>,
    /// The character that joins the segments of a name.
    pub separator: char,
    /// Whether letters are lowercased.
    pub lowercase: bool,
}

impl Default for CssKeyOptions {
    fn default() -> (r: Self)
        ensures
            r.prefix is None,
            r.separator == '-',
            r.lowercase,
    {
        CssKeyOptions { prefix: None, separator: '-', lowercase: true }
    }
}

pub open spec fn is_upper(c: char) -> bool {
    'A' <= c <= 'Z'
}

pub open spec fn is_alnum(c: char) -> bool {
    ('a' <= c <= 'z') || ('A' <= c <= 'Z') || ('0' <= c <= '9')
}

/// A path delimiter: `.`, `/` or whitespace.
pub open spec fn is_delim(c: char) -> bool {
    c == '.' || c == '/' || is_ws(c)
}

/// `c` as it is written into a name: ASCII uppercase letters are lowered
/// when `lowercase` is set.
pub open spec fn cased(c: char, lowercase: bool) -> char {
    if lowercase && is_upper(c) {
        ((c as u8) + 32u8) as char
    } else {
        c
    }
}

pub open spec fn ends_with_char(s: Seq<char>, c: char) -> bool {
    s.len() > 0 && s.last() == c
}

/// The separator-normalizing scan of one segment, as (text so far, last
/// character was a separator, last character was a letter or digit).
pub open spec fn scan_token(s: Seq<char>, sep: char, lowercase: bool) -> (Seq<char>, bool, bool)
    decreases s.len(),
{
    if s.len() == 0 {
        (Seq::empty(), false, false)
    } else {
        let (out, prev_sep, prev_alnum) = scan_token(s.drop_last(), sep, lowercase);
        let ch = s.last();
        if is_alnum(ch) {
            let boundary = is_upper(ch) && prev_alnum && !prev_sep && !ends_with_char(out, sep);
            let out1 = if boundary {
                out.push(sep)
            } else {
                out
            };
            (out1.push(cased(ch, lowercase)), false, true)
        } else {
            (if ends_with_char(out, sep) {
                out
            } else {
                out.push(sep)
            }, true, false)
        }
    }
}

pub open spec fn strip_front(s: Seq<char>, c: char) -> Seq<char>
    decreases s.len(),
{
    if s.len() > 0 && s[0] == c {
        strip_front(s.subrange(1, s.len() as int), c)
    } else {
        s
    }
}

pub open spec fn strip_back(s: Seq<char>, c: char) -> Seq<char>
    decreases s.len(),
{
    if s.len() > 0 && s.last() == c {
        strip_back(s.drop_last(), c)
    } else {
        s
    }
}

/// One segment normalized: every run of characters other than ASCII letters
/// and digits becomes one separator, a separator goes before an uppercase
/// letter that follows a letter or digit, and separators at either end go.
pub open spec fn norm_token(s: Seq<char>, sep: char, lowercase: bool) -> Seq<char> {
    strip_back(strip_front(scan_token(s, sep, lowercase).0, sep), sep)
}

/// Splitting at delimiters, as (finished non-empty segments, current segment).
pub open spec fn split_scan(s: Seq<char>) -> (Seq<Seq<char>>, Seq<char>)
    decreases s.len(),
{
    if s.len() == 0 {
        (Seq::empty(), Seq::empty())
    } else {
        let (parts, cur) = split_scan(s.drop_last());
        if is_delim(s.last()) {
            if cur.len() > 0 {
                (parts.push(cur), Seq::empty())
            } else {
                (parts, cur)
            }
        } else {
            (parts, cur.push(s.last()))
        }
    }
}

/// The non-empty segments of `s` between delimiters.
pub open spec fn path_segments(s: Seq<char>) -> Seq<Seq<char>> {
    let (parts, cur) = split_scan(s);
    if cur.len() > 0 {
        parts.push(cur)
    } else {
        parts
    }
}

/// The normalized segments joined by the separator, empty ones left out.
pub open spec fn join_segments(parts: Seq<Seq<char>>, sep: char, lowercase: bool) -> Seq<char>
    decreases parts.len(),
{
    if parts.len() == 0 {
        Seq::empty()
    } else {
        let o = join_segments(parts.drop_last(), sep, lowercase);
        let t = norm_token(parts.last(), sep, lowercase);
        if t.len() == 0 {
            o
        } else if o.len() == 0 {
            t
        } else {
            o.push(sep) + t
        }
    }
}

pub open spec fn norm_path(s: Seq<char>, sep: char, lowercase: bool) -> Seq<char> {
    join_segments(path_segments(s), sep, lowercase)
}

pub open spec fn strip_ws_front(s: Seq<char>) -> Seq<char>
    decreases s.len(),
{
    if s.len() > 0 && is_ws(s[0]) {
        strip_ws_front(s.subrange(1, s.len() as int))
    } else {
        s
    }
}

/// The part of a path that is named: an existing `--` marker after leading
/// whitespace is taken as already consumed.
pub open spec fn key_body(path: Seq<char>) -> Seq<char> {
    let t = strip_ws_front(path);
    if t.len() >= 2 && t[0] == '-' && t[1] == '-' {
        t.subrange(2, t.len() as int)
    } else {
        path
    }
}

pub open spec fn marker() -> Seq<char> {
    seq!['-', '-']
}

/// The CSS custom property name of `path`: `--`, then the normalized prefix
/// and the normalized path joined by the separator.
pub open spec fn css_key(
    path: Seq<char>,
    prefix: Option<Seq<char>>,
    sep: char,
    lowercase: bool,
) -> Seq<char> {
    let p = match prefix {
        Some(x) => norm_token(x, sep, lowercase),
        None => Seq::empty(),
    };
    let b = norm_path(key_body(path), sep, lowercase);
    let body = if b.len() == 0 {
        p
    } else if p.len() == 0 {
        b
    } else {
        p.push(sep) + b
    };
    marker() + body
}

impl CssKeyOptions {
    pub open spec fn prefix_view(&self) -> Option<Seq<char>> {
        match self.prefix {
            Some(p) => Some(p@),
            None => None,
        }
    }

    pub open spec fn key_of(&self, path: Seq<char>) -> Seq<char> {
        css_key(path, self.prefix_view(), self.separator, self.lowercase)
    }

    pub open spec fn var_of(&self, path: Seq<char>) -> Seq<char> {
        seq!['v', 'a', 'r', '('] + self.key_of(path) + seq![')']
    }
}

fn cased_char(c: char, lowercase: bool) -> (r: char)
    ensures
        r == cased(c, lowercase),
{
    if lowercase && 'A' <= c && c <= 'Z' {
        ((c as u8) + 32u8) as char
    } else {
        c
    }
}

/// Normalizes one path segment (see `norm_token`).
pub fn normalize_token(s: &str, separator: char, lowercase: bool) -> (r: String)
    ensures
        r@ == norm_token(s@, separator, lowercase),
{
    let chars = chars_of(s);
    let mut out: Vec<char> = Vec::new();
    let mut prev_sep = false;
    let mut prev_alnum = false;
    let mut i: usize = 0;
    while i < chars.len()
        invariant
            chars@ == s@,
            i <= chars.len(),
            (out@, prev_sep, prev_alnum) == scan_token(s@.subrange(0, i as int), separator, lowercase),
        decreases chars.len() - i,
    {
        let ch = chars[i];
        proof {
            assert(s@.subrange(0, i + 1).drop_last() =~= s@.subrange(0, i as int));
        }
        let ends_sep = out.len() > 0 && out[out.len() - 1] == separator;
        if ('a' <= ch && ch <= 'z') || ('A' <= ch && ch <= 'Z') || ('0' <= ch && ch <= '9') {
            if 'A' <= ch && ch <= 'Z' && prev_alnum && !prev_sep && !ends_sep {
                out.push(separator);
            }
            out.push(cased_char(ch, lowercase));
            prev_sep = false;
            prev_alnum = true;
        } else {
            if !ends_sep {
                out.push(separator);
            }
            prev_sep = true;
            prev_alnum = false;
        }
        i = i + 1;
    }
    assert(s@.subrange(0, chars.len() as int) =~= s@);
    let ghost scanned = out@;
    assert(out@.subrange(0, out.len() as int) =~= out@);
    let mut a: usize = 0;
    while a < out.len() && out[a] == separator
        invariant
            a <= out.len(),
            strip_front(scanned, separator) == strip_front(out@.subrange(a as int, out.len() as int), separator),
            out@ == scanned,
        decreases out.len() - a,
    {
        assert(out@.subrange(a as int, out.len() as int).subrange(1, out.len() - a) =~= out@.subrange(a + 1, out.len() as int));
        a = a + 1;
    }
    let ghost front = out@.subrange(a as int, out.len() as int);
    assert(strip_front(front, separator) == front);
    let mut b: usize = out.len();
    while b > a && out[b - 1] == separator
        invariant
            a <= b <= out.len(),
            strip_back(front, separator) == strip_back(out@.subrange(a as int, b as int), separator),
            out@ == scanned,
            front == out@.subrange(a as int, out.len() as int),
        decreases b,
    {
        assert(out@.subrange(a as int, b as int).drop_last() =~= out@.subrange(a as int, b - 1));
        b = b - 1;
    }
    string_of(&out, a, b)
}

/// Normalizes a whole path: segments split at `.`, `/` and whitespace, each
/// normalized, joined by the separator.
pub fn normalize_path(s: &str, separator: char, lowercase: bool) -> (r: String)
    ensures
        r@ == norm_path(s@, separator, lowercase),
{
    let chars = chars_of(s);
    let mut parts: Vec<String> = Vec::new();
    let mut current = String::new();
    let mut i: usize = 0;
    while i < chars.len()
        invariant
            chars@ == s@,
            i <= chars.len(),
            parts.len() == split_scan(s@.subrange(0, i as int)).0.len(),
            forall|k: int|
                0 <= k < parts.len() ==> (#[trigger] parts@[k])@ == split_scan(
                    s@.subrange(0, i as int),
                ).0[k],
            current@ == split_scan(s@.subrange(0, i as int)).1,
        decreases chars.len() - i,
    {
        let ch = chars[i];
        proof {
            assert(s@.subrange(0, i + 1).drop_last() =~= s@.subrange(0, i as int));
        }
        if ch == '.' || ch == '/' || is_whitespace(ch) {
            if current.unicode_len() > 0 {
                parts.push(current);
                current = String::new();
            }
        } else {
            push_char(&mut current, ch);
        }
        i = i + 1;
    }
    assert(s@.subrange(0, chars.len() as int) =~= s@);
    if current.unicode_len() > 0 {
        parts.push(current);
    }
    let ghost segs = path_segments(s@);
    assert(parts.len() == segs.len());
    assert(forall|k: int| 0 <= k < parts.len() ==> (#[trigger] parts@[k])@ == segs[k]);
    let mut out = String::new();
    let mut j: usize = 0;
    while j < parts.len()
        invariant
            j <= parts.len(),
            parts.len() == segs.len(),
            forall|k: int| 0 <= k < parts.len() ==> (#[trigger] parts@[k])@ == segs[k],
            out@ == join_segments(segs.subrange(0, j as int), separator, lowercase),
        decreases parts.len() - j,
    {
        proof {
            assert(segs.subrange(0, j + 1).drop_last() =~= segs.subrange(0, j as int));
        }
        let t = normalize_token(parts[j].as_str(), separator, lowercase);
        if t.unicode_len() > 0 {
            if out.unicode_len() > 0 {
                push_char(&mut out, separator);
            }
            out.append(t.as_str());
        }
        j = j + 1;
    }
    assert(segs.subrange(0, parts.len() as int) =~= segs);
    out
}

/// The CSS custom property name (`--...`) for a token path.
pub fn make_css_custom_property_key(path: &str, opts: &CssKeyOptions) -> (r: String)
    ensures
        r@ == opts.key_of(path@),
{
    let mut out = String::new();
    match &opts.prefix {
        Some(prefix) => {
            let norm_prefix = normalize_token(prefix.as_str(), opts.separator, opts.lowercase);
            out.append(norm_prefix.as_str());
        },
        None => {},
    }
    let chars = chars_of(path);
    assert(path@.subrange(0, path@.len() as int) =~= path@);
    let mut a: usize = 0;
    while a < chars.len() && is_whitespace(chars[a])
        invariant
            chars@ == path@,
            a <= chars.len(),
            strip_ws_front(path@) == strip_ws_front(path@.subrange(a as int, path@.len() as int)),
        decreases chars.len() - a,
    {
        assert(path@.subrange(a as int, path@.len() as int).subrange(1, path@.len() - a)
            =~= path@.subrange(a + 1, path@.len() as int));
        a = a + 1;
    }
    let ghost t = path@.subrange(a as int, path@.len() as int);
    assert(strip_ws_front(t) == t);
    let norm_body = if chars.len() - a >= 2 && chars[a] == '-' && chars[a + 1] == '-' {
        let body = string_of(&chars, a + 2, chars.len());
        assert(body@ =~= t.subrange(2, t.len() as int));
        normalize_path(body.as_str(), opts.separator, opts.lowercase)
    } else {
        normalize_path(path, opts.separator, opts.lowercase)
    };
    if norm_body.unicode_len() > 0 {
        if out.unicode_len() > 0 {
            push_char(&mut out, opts.separator);
        }
        out.append(norm_body.as_str());
    }
    let mut final_key = String::new();
    push_char(&mut final_key, '-');
    push_char(&mut final_key, '-');
    final_key.append(out.as_str());
    assert(final_key@ =~= opts.key_of(path@));
    final_key
}

/// A CSS `var(...)` indirection to the custom property of a token path.
pub fn css_var(path: &str, opts: &CssKeyOptions) -> (r: String)
    ensures
        r@ == opts.var_of(path@),
{
    let key = make_css_custom_property_key(path, opts);
    let mut r = String::new();
    push_char(&mut r, 'v');
    push_char(&mut r, 'a');
    push_char(&mut r, 'r');
    push_char(&mut r, '(');
    r.append(key.as_str());
    push_char(&mut r, ')');
    assert(r@ =~= opts.var_of(path@));
    r
}

} // verus!
