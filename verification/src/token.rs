//! How a raw token of text becomes a local path: trimming, source-location
//! suffixes, and the shapes that count as local paths.

use vstd::prelude::*;
use crate::text::{char_is_whitespace, is_unicode_whitespace};

verus! {

/// Classes of chars that are trimmed from the ends of a token.
#[derive(Clone, Copy)]
pub enum CharClass {
    Whitespace,
    Quote,
    TrailingPunctuation,
}

pub open spec fn is_quote(c: char) -> bool {
    c == '`' || c == '\'' || c == '"'
}

/// Prose punctuation that ends a sentence or a clause, ASCII and full-width.
pub open spec fn is_trailing_punctuation(c: char) -> bool {
    ||| c == '.'
    ||| c == ','
    ||| c == ';'
    ||| c == '!'
    ||| c == '?'
    ||| c == '，'
    ||| c == '。'
    ||| c == '；'
    ||| c == '！'
    ||| c == '？'
    ||| c == ':'
}

pub open spec fn in_class(class: CharClass, c: char) -> bool {
    match class {
        CharClass::Whitespace => is_unicode_whitespace(c),
        CharClass::Quote => is_quote(c),
        CharClass::TrailingPunctuation => is_trailing_punctuation(c),
    }
}

pub open spec fn is_ascii_digit(c: char) -> bool {
    '0' <= c && c <= '9'
}

pub open spec fn is_ascii_alphabetic(c: char) -> bool {
    ('a' <= c && c <= 'z') || ('A' <= c && c <= 'Z')
}

/// The first index in `i..j` whose char is not in `class` (or `j`).
pub open spec fn skip_start(s: Seq<char>, i: int, j: int, class: CharClass) -> int
    decreases j - i,
{
    if i < j && in_class(class, s[i]) {
        skip_start(s, i + 1, j, class)
    } else {
        i
    }
}

/// The end of `i..j` once the chars in `class` are removed from its end.
pub open spec fn skip_end(s: Seq<char>, i: int, j: int, class: CharClass) -> int
    decreases j - i,
{
    if i < j && in_class(class, s[j - 1]) {
        skip_end(s, i, j - 1, class)
    } else {
        j
    }
}

/// The bounds of the token inside `raw`: surrounding whitespace removed,
/// then surrounding quotes, then (when asked) trailing prose punctuation.
pub open spec fn token_bounds(raw: Seq<char>, trim_punctuation: bool) -> (int, int) {
    let a = skip_start(raw, 0, raw.len() as int, CharClass::Whitespace);
    let b = skip_end(raw, a, raw.len() as int, CharClass::Whitespace);
    let a2 = skip_start(raw, a, b, CharClass::Quote);
    let b2 = skip_end(raw, a2, b, CharClass::Quote);
    if trim_punctuation {
        (a2, skip_end(raw, a2, b2, CharClass::TrailingPunctuation))
    } else {
        (a2, b2)
    }
}

/// The index of the last `:` in `lo..hi`.
pub open spec fn last_colon(s: Seq<char>, lo: int, hi: int) -> Option<int>
    decreases hi - lo,
{
    if hi <= lo {
        None
    } else if s[hi - 1] == ':' {
        Some(hi - 1)
    } else {
        last_colon(s, lo, hi - 1)
    }
}

pub open spec fn all_ascii_digits(s: Seq<char>, lo: int, hi: int) -> bool {
    forall|i: int| lo <= i < hi ==> is_ascii_digit(#[trigger] s[i])
}

/// Where `lo..hi` ends once one `:digits` suffix is removed, if it has one.
pub open spec fn strip_location(s: Seq<char>, lo: int, hi: int) -> Option<int> {
    match last_colon(s, lo, hi) {
        Some(m) => if m + 1 < hi && all_ascii_digits(s, m + 1, hi) {
            Some(m)
        } else {
            None
        },
        None => None,
    }
}

/// Where `lo..hi` ends once up to two `:digits` suffixes (a line and a
/// column) are removed.
pub open spec fn location_end(s: Seq<char>, lo: int, hi: int) -> int {
    match strip_location(s, lo, hi) {
        Some(h1) => match strip_location(s, lo, h1) {
            Some(h2) => h2,
            None => h1,
        },
        None => hi,
    }
}

pub open spec fn has_scheme_separator(p: Seq<char>) -> bool {
    exists|i: int| 0 <= i && i + 3 <= p.len() && #[trigger] p[i] == ':' && p[i + 1] == '/' && p[i + 2] == '/'
}

pub open spec fn starts_with_double_slash(p: Seq<char>) -> bool {
    p.len() >= 2 && p[0] == '/' && p[1] == '/'
}

/// A drive-letter path such as `C:/dir` or `C:\dir`.
pub open spec fn is_windows_drive_path(p: Seq<char>) -> bool {
    p.len() >= 3 && is_ascii_alphabetic(p[0]) && p[1] == ':' && (p[2] == '/' || p[2] == '\\')
}

/// A path with a `/` and no `:`.
pub open spec fn is_unix_path(p: Seq<char>) -> bool {
    p.contains('/') && !p.contains(':')
}

/// The shapes of text accepted as a local path.
pub open spec fn is_local_path_shape(p: Seq<char>) -> bool {
    &&& p.len() > 0
    &&& !has_scheme_separator(p)
    &&& !starts_with_double_slash(p)
    &&& is_windows_drive_path(p) || is_unix_path(p)
}

/// The bounds in `raw` of the path it names, if it names one.
pub open spec fn clean_bounds(raw: Seq<char>, trim_punctuation: bool) -> Option<(int, int)> {
    let (a, b) = token_bounds(raw, trim_punctuation);
    let e = location_end(raw, a, b);
    if is_local_path_shape(raw.subrange(a, e)) {
        Some((a, e))
    } else {
        None
    }
}

/// The first index `p` at or after `from` where `needle` occurs in `hay`.
pub open spec fn find_from(hay: Seq<char>, needle: Seq<char>, from: int) -> Option<int>
    decreases hay.len() + 1 - from,
{
    if from < 0 || from + needle.len() > hay.len() {
        None
    } else if hay.subrange(from, from + needle.len()) == needle {
        Some(from)
    } else {
        find_from(hay, needle, from + 1)
    }
}

pub proof fn lemma_find_from(hay: Seq<char>, needle: Seq<char>, from: int)
    ensures
        find_from(hay, needle, from) matches Some(p) ==> from <= p && p + needle.len() <= hay.len()
            && hay.subrange(p, p + needle.len()) == needle,
    decreases hay.len() + 1 - from,
{
    if !(from < 0 || from + needle.len() > hay.len()) && hay.subrange(from, from + needle.len()) != needle {
        lemma_find_from(hay, needle, from + 1);
    }
}

proof fn lemma_skip_bounds_spec(s: Seq<char>, i: int, j: int, class: CharClass)
    requires
        i <= j,
    ensures
        i <= skip_start(s, i, j, class) <= j,
        i <= skip_end(s, i, j, class) <= j,
    decreases j - i,
{
    if i < j {
        lemma_skip_bounds_spec(s, i + 1, j, class);
        lemma_skip_bounds_spec(s, i, j - 1, class);
    }
}

pub proof fn lemma_token_bounds(raw: Seq<char>, trim_punctuation: bool)
    ensures
        0 <= token_bounds(raw, trim_punctuation).0 <= token_bounds(raw, trim_punctuation).1 <= raw.len(),
{
    let n = raw.len() as int;
    let a = skip_start(raw, 0, n, CharClass::Whitespace);
    lemma_skip_bounds_spec(raw, 0, n, CharClass::Whitespace);
    let b = skip_end(raw, a, n, CharClass::Whitespace);
    lemma_skip_bounds_spec(raw, a, n, CharClass::Whitespace);
    let a2 = skip_start(raw, a, b, CharClass::Quote);
    lemma_skip_bounds_spec(raw, a, b, CharClass::Quote);
    let b2 = skip_end(raw, a2, b, CharClass::Quote);
    lemma_skip_bounds_spec(raw, a2, b, CharClass::Quote);
    lemma_skip_bounds_spec(raw, a2, b2, CharClass::TrailingPunctuation);
}

proof fn lemma_last_colon(s: Seq<char>, lo: int, hi: int)
    ensures
        last_colon(s, lo, hi) matches Some(m) ==> lo <= m < hi && s[m] == ':',
    decreases hi - lo,
{
    if hi > lo && s[hi - 1] != ':' {
        lemma_last_colon(s, lo, hi - 1);
    }
}

pub proof fn lemma_location_end(s: Seq<char>, lo: int, hi: int)
    requires
        lo <= hi,
    ensures
        lo <= location_end(s, lo, hi) <= hi,
{
    lemma_last_colon(s, lo, hi);
    if let Some(h1) = strip_location(s, lo, hi) {
        lemma_last_colon(s, lo, h1);
    }
}

/// A path taken from raw text lies within it and has the shape of a local
/// path.
pub proof fn lemma_clean_bounds(raw: Seq<char>, trim_punctuation: bool)
    ensures
        clean_bounds(raw, trim_punctuation) matches Some((a, e)) ==> 0 <= a <= e <= raw.len()
            && is_local_path_shape(raw.subrange(a, e)),
{
    lemma_token_bounds(raw, trim_punctuation);
    let (a, b) = token_bounds(raw, trim_punctuation);
    lemma_location_end(raw, a, b);
}

/// `s1` and `s2` hold the same chars in `lo..hi`.
pub open spec fn agree(s1: Seq<char>, s2: Seq<char>, lo: int, hi: int) -> bool {
    0 <= lo && hi <= s1.len() && hi <= s2.len() && forall|k: int| lo <= k < hi ==> #[trigger] s1[k] == s2[k]
}

pub proof fn lemma_skip_end_agree(s1: Seq<char>, s2: Seq<char>, i: int, j: int, class: CharClass)
    requires
        i <= j,
        agree(s1, s2, i, j),
    ensures
        skip_end(s1, i, j, class) == skip_end(s2, i, j, class),
    decreases j - i,
{
    if i < j {
        assert(s1[j - 1] == s2[j - 1]);
        lemma_skip_end_agree(s1, s2, i, j - 1, class);
    }
}

proof fn lemma_last_colon_agree(s1: Seq<char>, s2: Seq<char>, lo: int, hi: int)
    requires
        lo <= hi,
        agree(s1, s2, lo, hi),
    ensures
        last_colon(s1, lo, hi) == last_colon(s2, lo, hi),
    decreases hi - lo,
{
    if lo < hi {
        assert(s1[hi - 1] == s2[hi - 1]);
        lemma_last_colon_agree(s1, s2, lo, hi - 1);
    }
}

proof fn lemma_strip_location_agree(s1: Seq<char>, s2: Seq<char>, lo: int, hi: int)
    requires
        lo <= hi,
        agree(s1, s2, lo, hi),
    ensures
        strip_location(s1, lo, hi) == strip_location(s2, lo, hi),
        strip_location(s1, lo, hi) matches Some(m) ==> lo <= m < hi,
{
    lemma_last_colon_agree(s1, s2, lo, hi);
    lemma_last_colon(s1, lo, hi);
    if let Some(m) = last_colon(s1, lo, hi) {
        if m + 1 < hi {
            assert(all_ascii_digits(s1, m + 1, hi) == all_ascii_digits(s2, m + 1, hi)) by {
                assert forall|i: int| m + 1 <= i < hi implies s1[i] == s2[i] by {}
            }
        }
    }
}

/// The path named by the chars `lo..hi` depends on those chars alone.
pub proof fn lemma_location_end_agree(s1: Seq<char>, s2: Seq<char>, lo: int, hi: int)
    requires
        lo <= hi,
        agree(s1, s2, lo, hi),
    ensures
        location_end(s1, lo, hi) == location_end(s2, lo, hi),
        lo <= location_end(s1, lo, hi) <= hi,
{
    lemma_strip_location_agree(s1, s2, lo, hi);
    if let Some(h1) = strip_location(s1, lo, hi) {
        lemma_strip_location_agree(s1, s2, lo, h1);
    }
}

/// One `:digits` part of a source location.
pub open spec fn is_location_part(t: Seq<char>) -> bool {
    t.len() >= 2 && t[0] == ':' && forall|i: int| 1 <= i < t.len() ==> is_ascii_digit(#[trigger] t[i])
}

/// A source-location suffix: nothing, `:line` or `:line:column`.
pub open spec fn is_location_suffix(t: Seq<char>) -> bool {
    ||| t.len() == 0
    ||| is_location_part(t)
    ||| exists|m: int| 0 < m < t.len() && is_location_part(#[trigger] t.take(m)) && is_location_part(t.skip(m))
}

proof fn lemma_strip_location_part(s: Seq<char>, lo: int, hi: int)
    requires
        0 <= lo <= hi <= s.len(),
    ensures
        strip_location(s, lo, hi) matches Some(m) ==> lo <= m < hi && is_location_part(s.subrange(m, hi)),
{
    lemma_last_colon(s, lo, hi);
    if let Some(m) = strip_location(s, lo, hi) {
        let t = s.subrange(m, hi);
        assert forall|i: int| 1 <= i < t.len() implies is_ascii_digit(#[trigger] t[i]) by {
            assert(t[i] == s[m + i]);
        }
    }
}

/// What the location end cuts off is a source-location suffix.
pub proof fn lemma_location_suffix(s: Seq<char>, lo: int, hi: int)
    requires
        0 <= lo <= hi <= s.len(),
    ensures
        lo <= location_end(s, lo, hi) <= hi,
        is_location_suffix(s.subrange(location_end(s, lo, hi), hi)),
{
    lemma_location_end(s, lo, hi);
    lemma_strip_location_part(s, lo, hi);
    if let Some(h1) = strip_location(s, lo, hi) {
        lemma_strip_location_part(s, lo, h1);
        if let Some(h2) = strip_location(s, lo, h1) {
            let t = s.subrange(h2, hi);
            let m = h1 - h2;
            assert(t.take(m) =~= s.subrange(h2, h1));
            assert(t.skip(m) =~= s.subrange(h1, hi));
        }
    } else {
        assert(s.subrange(hi, hi).len() == 0);
    }
}

pub open spec fn is_space_or_quote(c: char) -> bool {
    is_unicode_whitespace(c) || is_quote(c)
}

proof fn lemma_skip_start_class(s: Seq<char>, i: int, j: int, class: CharClass)
    requires
        i <= j,
    ensures
        forall|t: int| i <= t < skip_start(s, i, j, class) ==> in_class(class, #[trigger] s[t]),
    decreases j - i,
{
    if i < j && in_class(class, s[i]) {
        lemma_skip_start_class(s, i + 1, j, class);
    }
}

/// Only whitespace and quotes come before a token.
proof fn lemma_token_prefix(raw: Seq<char>, trim_punctuation: bool)
    ensures
        forall|t: int| 0 <= t < token_bounds(raw, trim_punctuation).0 ==> is_space_or_quote(#[trigger] raw[t]),
{
    let n = raw.len() as int;
    let a = skip_start(raw, 0, n, CharClass::Whitespace);
    lemma_skip_bounds_spec(raw, 0, n, CharClass::Whitespace);
    lemma_skip_start_class(raw, 0, n, CharClass::Whitespace);
    let b = skip_end(raw, a, n, CharClass::Whitespace);
    lemma_skip_bounds_spec(raw, a, n, CharClass::Whitespace);
    lemma_skip_start_class(raw, a, b, CharClass::Quote);
}

/// If the text of `ta..tb` also occurs earlier, at `q`, where only
/// whitespace and quotes precede `ta`, then it is all whitespace and quotes.
proof fn lemma_earlier_occurrence(raw: Seq<char>, ta: int, tb: int, q: int, j: int)
    requires
        0 <= q < ta <= tb <= raw.len(),
        q + (tb - ta) <= raw.len(),
        forall|t: int| 0 <= t < ta ==> is_space_or_quote(#[trigger] raw[t]),
        raw.subrange(q, q + (tb - ta)) == raw.subrange(ta, tb),
        0 <= j < tb - ta,
    ensures
        is_space_or_quote(raw[ta + j]),
    decreases j,
{
    let s1 = raw.subrange(q, q + (tb - ta));
    let s2 = raw.subrange(ta, tb);
    assert(s1[j] == raw[q + j]);
    assert(s2[j] == raw[ta + j]);
    assert(s1[j] == s2[j]);
    if q + j >= ta {
        lemma_earlier_occurrence(raw, ta, tb, q, q + j - ta);
    }
}

proof fn lemma_find_from_first(hay: Seq<char>, needle: Seq<char>, from: int, t: int)
    requires
        0 <= from <= t,
        t + needle.len() <= hay.len(),
        hay.subrange(t, t + needle.len()) == needle,
    ensures
        find_from(hay, needle, from) matches Some(p) && p <= t,
    decreases t - from,
{
    if hay.subrange(from, from + needle.len()) != needle {
        lemma_find_from_first(hay, needle, from + 1, t);
    }
}

/// The token of a raw text that names a path is found where it starts.
pub proof fn lemma_token_found_at_start(raw: Seq<char>, trim_punctuation: bool)
    requires
        clean_bounds(raw, trim_punctuation) is Some,
    ensures
        ({
            let (ta, tb) = token_bounds(raw, trim_punctuation);
            find_from(raw, raw.subrange(ta, tb), 0) == Some(ta)
        }),
{
    let (ta, tb) = token_bounds(raw, trim_punctuation);
    lemma_token_bounds(raw, trim_punctuation);
    lemma_token_prefix(raw, trim_punctuation);
    let tok = raw.subrange(ta, tb);
    lemma_find_from_first(raw, tok, 0, ta);
    lemma_find_from(raw, tok, 0);
    let pf = find_from(raw, tok, 0)->0;
    if pf < ta {
        let e = location_end(raw, ta, tb);
        lemma_location_end(raw, ta, tb);
        let path = raw.subrange(ta, e);
        // A local path holds `/` or a drive `:`, which are neither.
        let j: int = if is_windows_drive_path(path) { 1 } else { choose|j: int| 0 <= j < path.len() && path[j] == '/' };
        assert(path[j] == raw[ta + j]);
        lemma_earlier_occurrence(raw, ta, tb, pf, j);
        assert(false);
    }
}

// ---------------------------------------------------------------------------
// Executable counterparts

pub fn in_class_exec(class: CharClass, c: char) -> (res: bool)
    ensures
        res == in_class(class, c),
{
    match class {
        CharClass::Whitespace => char_is_whitespace(c),
        CharClass::Quote => c == '`' || c == '\'' || c == '"',
        CharClass::TrailingPunctuation => c == '.' || c == ',' || c == ';' || c == '!' || c == '?'
            || c == '，' || c == '。' || c == '；' || c == '！' || c == '？' || c == ':',
    }
}

pub fn skip_start_exec(s: &[char], i: usize, j: usize, class: CharClass) -> (res: usize)
    requires
        i <= j <= s@.len(),
    ensures
        res == skip_start(s@, i as int, j as int, class),
        i <= res <= j,
{
    let mut k = i;
    while k < j && in_class_exec(class, s[k])
        invariant
            i <= k <= j <= s@.len(),
            skip_start(s@, k as int, j as int, class) == skip_start(s@, i as int, j as int, class),
        decreases j - k,
    {
        k = k + 1;
    }
    k
}

pub fn skip_end_exec(s: &[char], i: usize, j: usize, class: CharClass) -> (res: usize)
    requires
        i <= j <= s@.len(),
    ensures
        res == skip_end(s@, i as int, j as int, class),
        i <= res <= j,
{
    let mut k = j;
    while k > i && in_class_exec(class, s[k - 1])
        invariant
            i <= k <= j <= s@.len(),
            skip_end(s@, i as int, k as int, class) == skip_end(s@, i as int, j as int, class),
        decreases k - i,
    {
        k = k - 1;
    }
    k
}

/// The bounds of the token of `raw` (see `token_bounds`).
pub fn path_token(raw: &[char], trim_punctuation: bool) -> (res: (usize, usize))
    ensures
        res.0 as int == token_bounds(raw@, trim_punctuation).0,
        res.1 as int == token_bounds(raw@, trim_punctuation).1,
        res.0 <= res.1 <= raw@.len(),
{
    let n = raw.len();
    let a = skip_start_exec(raw, 0, n, CharClass::Whitespace);
    let b = skip_end_exec(raw, a, n, CharClass::Whitespace);
    let a2 = skip_start_exec(raw, a, b, CharClass::Quote);
    let b2 = skip_end_exec(raw, a2, b, CharClass::Quote);
    if trim_punctuation {
        (a2, skip_end_exec(raw, a2, b2, CharClass::TrailingPunctuation))
    } else {
        (a2, b2)
    }
}

fn last_colon_exec(s: &[char], lo: usize, hi: usize) -> (res: Option<usize>)
    requires
        lo <= hi <= s@.len(),
    ensures
        res matches Some(m) ==> last_colon(s@, lo as int, hi as int) == Some(m as int),
        res is None ==> last_colon(s@, lo as int, hi as int) is None,
        res matches Some(m) ==> lo <= m < hi,
{
    let mut h = hi;
    while h > lo
        invariant
            lo <= h <= hi <= s@.len(),
            last_colon(s@, lo as int, h as int) == last_colon(s@, lo as int, hi as int),
        decreases h - lo,
    {
        if s[h - 1] == ':' {
            return Some(h - 1);
        }
        h = h - 1;
    }
    None
}

fn all_ascii_digits_exec(s: &[char], lo: usize, hi: usize) -> (res: bool)
    requires
        lo <= hi <= s@.len(),
    ensures
        res == all_ascii_digits(s@, lo as int, hi as int),
{
    let mut i = lo;
    while i < hi
        invariant
            lo <= i <= hi <= s@.len(),
            all_ascii_digits(s@, lo as int, i as int),
        decreases hi - i,
    {
        let c = s[i];
        if !('0' <= c && c <= '9') {
            return false;
        }
        i = i + 1;
    }
    true
}

fn strip_location_exec(s: &[char], lo: usize, hi: usize) -> (res: Option<usize>)
    requires
        lo <= hi <= s@.len(),
    ensures
        res matches Some(m) ==> strip_location(s@, lo as int, hi as int) == Some(m as int),
        res is None ==> strip_location(s@, lo as int, hi as int) is None,
        res matches Some(m) ==> lo <= m < hi,
{
    match last_colon_exec(s, lo, hi) {
        Some(m) => if m + 1 < hi && all_ascii_digits_exec(s, m + 1, hi) {
            Some(m)
        } else {
            None
        },
        None => None,
    }
}

fn has_scheme_separator_exec(s: &[char], lo: usize, hi: usize) -> (res: bool)
    requires
        lo <= hi <= s@.len(),
    ensures
        res == has_scheme_separator(s@.subrange(lo as int, hi as int)),
{
    let ghost p = s@.subrange(lo as int, hi as int);
    let mut i = lo;
    while i < hi && hi - i >= 3
        invariant
            lo <= i <= hi <= s@.len(),
            p == s@.subrange(lo as int, hi as int),
            forall|t: int| 0 <= t < i - lo && t + 3 <= p.len() ==> !(#[trigger] p[t] == ':' && p[t + 1] == '/' && p[t + 2] == '/'),
        decreases hi - i,
    {
        if s[i] == ':' && s[i + 1] == '/' && s[i + 2] == '/' {
            assert(p[i - lo] == ':');
            return true;
        }
        i = i + 1;
    }
    false
}

fn contains_char_exec(s: &[char], lo: usize, hi: usize, c: char) -> (res: bool)
    requires
        lo <= hi <= s@.len(),
    ensures
        res == s@.subrange(lo as int, hi as int).contains(c),
{
    let ghost p = s@.subrange(lo as int, hi as int);
    let mut i = lo;
    while i < hi
        invariant
            lo <= i <= hi <= s@.len(),
            p == s@.subrange(lo as int, hi as int),
            forall|t: int| 0 <= t < i - lo ==> #[trigger] p[t] != c,
        decreases hi - i,
    {
        if s[i] == c {
            assert(p[i - lo] == c);
            return true;
        }
        i = i + 1;
    }
    false
}

/// The bounds in `raw` of the path it names (see `clean_bounds`).
pub fn clean_path(raw: &[char], trim_punctuation: bool) -> (res: Option<(usize, usize)>)
    ensures
        res matches Some((a, e)) ==> clean_bounds(raw@, trim_punctuation) == Some((a as int, e as int)),
        res is None ==> clean_bounds(raw@, trim_punctuation) is None,
        res matches Some((a, e)) ==> a <= e <= raw@.len(),
{
    let (a, b) = path_token(raw, trim_punctuation);
    let e = match strip_location_exec(raw, a, b) {
        Some(h1) => match strip_location_exec(raw, a, h1) {
            Some(h2) => h2,
            None => h1,
        },
        None => b,
    };
    assert(e as int == location_end(raw@, a as int, b as int));
    let ghost p = raw@.subrange(a as int, e as int);
    if e == a || has_scheme_separator_exec(raw, a, e) || (e - a >= 2 && raw[a] == '/' && raw[a + 1] == '/') {
        return None;
    }
    let c0 = raw[a];
    let windows_drive = e - a >= 3 && (('a' <= c0 && c0 <= 'z') || ('A' <= c0 && c0 <= 'Z'))
        && raw[a + 1] == ':' && (raw[a + 2] == '/' || raw[a + 2] == '\\');
    let unix_path = contains_char_exec(raw, a, e, '/') && !contains_char_exec(raw, a, e, ':');
    if windows_drive || unix_path {
        Some((a, e))
    } else {
        None
    }
}

/// The first occurrence in `hay` of its own subrange `ns..ne`.
pub fn find_exec(hay: &[char], ns: usize, ne: usize) -> (res: Option<usize>)
    requires
        ns <= ne <= hay@.len(),
    ensures
        res matches Some(p) ==> find_from(hay@, hay@.subrange(ns as int, ne as int), 0) == Some(p as int),
        res is None ==> find_from(hay@, hay@.subrange(ns as int, ne as int), 0) is None,
        res matches Some(p) ==> p + (ne - ns) <= hay@.len(),
{
    let ghost needle = hay@.subrange(ns as int, ne as int);
    let len = ne - ns;
    let hl = hay.len();
    let mut p: usize = 0;
    while p <= hay.len() && len <= hay.len() - p
        invariant
            ns <= ne <= hay@.len(),
            len == ne - ns,
            needle == hay@.subrange(ns as int, ne as int),
            hl == hay@.len(),
            find_from(hay@, needle, p as int) == find_from(hay@, needle, 0),
        decreases hay@.len() + 1 - p,
    {
        let mut t: usize = 0;
        while t < len && hay[p + t] == hay[ns + t]
            invariant
                ns <= ne <= hay@.len(),
                hl == hay@.len(),
                len == ne - ns,
                p + len <= hay@.len(),
                t <= len,
                hay@.subrange(p as int, p + t) =~= hay@.subrange(ns as int, ns + t),
            decreases len - t,
        {
            assert(hay@.subrange(p as int, p + t + 1) =~= hay@.subrange(p as int, p + t).push(hay@[p + t]));
            assert(hay@.subrange(ns as int, ns + t + 1) =~= hay@.subrange(ns as int, ns + t).push(hay@[ns + t]));
            t = t + 1;
        }
        if t == len {
            assert(hay@.subrange(p as int, p + len) =~= needle) by {
                assert(hay@.subrange(ns as int, ns + len) =~= needle);
            }
            return Some(p);
        }
        assert(hay@[p + t] != hay@[ns + t]);
        assert(hay@.subrange(p as int, p + len)[t as int] != needle[t as int]);
        p = p + 1;
    }
    None
}

} // verus!
