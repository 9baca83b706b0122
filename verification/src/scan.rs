//! Scanning one logical line for the path under a display column: Markdown
//! links first, then quoted and plain tokens.

use vstd::prelude::*;
use crate::text::{char_is_whitespace, is_unicode_whitespace};
use crate::token::{
    is_local_path_shape, lemma_clean_bounds, lemma_find_from, lemma_token_bounds,
    clean_bounds, clean_path, find_exec, find_from, is_quote, path_token, token_bounds,
    agree, is_trailing_punctuation, lemma_location_end_agree, lemma_skip_end_agree, skip_start,
    skip_end, CharClass, location_end, is_location_suffix, lemma_location_suffix,
    lemma_token_found_at_start,
};
use crate::width::{char_display_width, char_width};

verus! {

/// Chars that end a plain token: brackets, comparison and pipe signs, and
/// the full-width punctuation of CJK prose.
pub open spec fn is_boundary_char(ch: char) -> bool {
    ||| ch == '<'
    ||| ch == '>'
    ||| ch == '|'
    ||| ch == '='
    ||| ch == '['
    ||| ch == ']'
    ||| ch == '{'
    ||| ch == '}'
    ||| ch == '('
    ||| ch == ')'
    ||| ch == '：'
    ||| ch == '，'
    ||| ch == '；'
    ||| ch == '。'
    ||| ch == '！'
    ||| ch == '？'
    ||| ch == '、'
    ||| ch == '（'
    ||| ch == '）'
    ||| ch == '【'
    ||| ch == '】'
}

pub open spec fn is_separator(ch: char) -> bool {
    is_unicode_whitespace(ch) || is_boundary_char(ch)
}

/// The columns a char takes, with control chars taking none.
pub open spec fn column_width(c: char) -> int {
    match char_width(c) {
        Some(w) => w as int,
        None => 0,
    }
}

/// The index of the first char at or after `i` whose columns, counted from
/// `column` at char `i`, cover `col`.
pub open spec fn column_from(s: Seq<char>, col: int, i: int, column: int) -> Option<int>
    decreases s.len() - i,
{
    if i < 0 || i >= s.len() {
        None
    } else if column <= col < column + column_width(s[i]) {
        Some(i)
    } else {
        column_from(s, col, i + 1, column + column_width(s[i]))
    }
}

/// The index of the char shown at display column `col`.
pub open spec fn char_at_column_spec(s: Seq<char>, col: int) -> Option<int> {
    column_from(s, col, 0, 0)
}

/// Sets of chars at which a forward search stops.
#[derive(Clone, Copy)]
pub enum Stop {
    /// The end of a Markdown link label: `]` or a line break.
    Label,
    /// The end of an angle-bracketed link destination: `>` or a line break.
    Angle,
    /// The end of a plain link destination: a parenthesis or a line break.
    Paren,
    /// The end of a plain token: whitespace or a boundary char.
    Separator,
    /// The given char.
    Char(char),
}

pub open spec fn stops(set: Stop, c: char) -> bool {
    match set {
        Stop::Label => c == ']' || c == '\r' || c == '\n',
        Stop::Angle => c == '>' || c == '\r' || c == '\n',
        Stop::Paren => c == '(' || c == ')' || c == '\r' || c == '\n',
        Stop::Separator => is_separator(c),
        Stop::Char(q) => c == q,
    }
}

/// The first index at or after `j` whose char is in `set`, or the length.
pub open spec fn first_stop(s: Seq<char>, j: int, set: Stop) -> int
    decreases s.len() - j,
{
    if j >= s.len() {
        s.len() as int
    } else if stops(set, s[j]) {
        j
    } else {
        first_stop(s, j + 1, set)
    }
}

pub proof fn lemma_first_stop(s: Seq<char>, j: int, set: Stop)
    requires
        0 <= j <= s.len(),
    ensures
        j <= first_stop(s, j, set) <= s.len(),
        first_stop(s, j, set) < s.len() ==> stops(set, s[first_stop(s, j, set)]),
        forall|t: int| j <= t < first_stop(s, j, set) ==> !stops(set, #[trigger] s[t]),
    decreases s.len() - j,
{
    if j < s.len() && !stops(set, s[j]) {
        lemma_first_stop(s, j + 1, set);
    }
}

/// The Markdown link `[label](destination)` or `[label](<destination>)`
/// that starts at `s`, as (end, destination start, destination end). The
/// label runs to the first `]`, an angle-bracketed destination to the first
/// `>`, a plain one to the first parenthesis, and none of them spans a line
/// break; a non-empty angle-bracketed destination is preferred.
pub open spec fn markdown_link_at(c: Seq<char>, s: int) -> Option<(int, int, int)> {
    if !(0 <= s < c.len() && c[s] == '[') {
        None
    } else {
        let j = first_stop(c, s + 1, Stop::Label);
        if !(j + 1 < c.len() && c[j] == ']' && c[j + 1] == '(') {
            None
        } else {
            let o = j + 2;
            let q = first_stop(c, o + 1, Stop::Angle);
            if o < c.len() && c[o] == '<' && q > o + 1 && q + 1 < c.len() && c[q] == '>' && c[q + 1] == ')' {
                Some((q + 2, o + 1, q))
            } else {
                let r = first_stop(c, o, Stop::Paren);
                if r > o && r < c.len() && c[r] == ')' {
                    Some((r + 1, o, r))
                } else {
                    None
                }
            }
        }
    }
}

pub proof fn lemma_markdown_link_at(c: Seq<char>, s: int)
    ensures
        markdown_link_at(c, s) matches Some((e, ds, de)) ==> s < ds <= de < e <= c.len(),
{
    if 0 <= s < c.len() && c[s] == '[' {
        let j = first_stop(c, s + 1, Stop::Label);
        lemma_first_stop(c, s + 1, Stop::Label);
        if j + 1 < c.len() && c[j] == ']' && c[j + 1] == '(' {
            let o = j + 2;
            if o < c.len() {
                lemma_first_stop(c, o + 1, Stop::Angle);
            }
            lemma_first_stop(c, o, Stop::Paren);
        }
    }
}

/// The Markdown links of `c` in order from `p`, each search resuming where
/// the previous link ended: the first one that covers char `k`, as (start,
/// end, destination start, destination end).
pub open spec fn markdown_scan(c: Seq<char>, k: int, p: int) -> Option<(int, int, int, int)>
    decreases c.len() - p,
{
    if p < 0 || p >= c.len() {
        None
    } else {
        match markdown_link_at(c, p) {
            Some((e, ds, de)) => if p <= k < e {
                Some((p, e, ds, de))
            } else {
                proof {
                    lemma_markdown_link_at(c, p);
                }
                markdown_scan(c, k, e)
            },
            None => markdown_scan(c, k, p + 1),
        }
    }
}

/// The path of the token `c[st..en]` and the span of its trimmed text, if
/// that span covers char `k`.
pub open spec fn match_token_spec(c: Seq<char>, st: int, en: int, k: int, trim_punctuation: bool) -> Option<(Seq<char>, int, int)> {
    let raw = c.subrange(st, en);
    match clean_bounds(raw, trim_punctuation) {
        None => None,
        Some((a, e)) => {
            let (ta, tb) = token_bounds(raw, trim_punctuation);
            match find_from(raw, raw.subrange(ta, tb), 0) {
                None => None,
                Some(p) => {
                    let b0 = st + p;
                    let b1 = b0 + (tb - ta);
                    if b0 <= k < b1 {
                        Some((raw.subrange(a, e), b0, b1))
                    } else {
                        None
                    }
                },
            }
        },
    }
}

/// The tokens of `c` from `i`: separators are skipped, a quote opens a
/// region that runs to the same quote char (or the end), and any other char
/// starts a plain token that runs to the next separator. The token that
/// holds char `k` decides the result.
pub open spec fn token_scan(c: Seq<char>, k: int, i: int) -> Option<(Seq<char>, int, int)>
    decreases c.len() + 1 - i,
{
    if i < 0 || i >= c.len() {
        None
    } else if is_separator(c[i]) {
        token_scan(c, k, i + 1)
    } else if is_quote(c[i]) {
        let end = first_stop(c, i + 1, Stop::Char(c[i]));
        if i + 1 <= k < end {
            match_token_spec(c, i + 1, end, k, false)
        } else {
            proof {
                lemma_first_stop(c, i + 1, Stop::Char(c[i]));
            }
            token_scan(c, k, end + 1)
        }
    } else {
        let end = first_stop(c, i + 1, Stop::Separator);
        if i <= k < end {
            match_token_spec(c, i, end, k, true)
        } else {
            proof {
                lemma_first_stop(c, i + 1, Stop::Separator);
            }
            token_scan(c, k, end)
        }
    }
}

/// The path under display column `col` of line `c` and the span of chars
/// to underline: a Markdown link that covers the column gives its
/// destination and the whole link, and otherwise the quoted or plain
/// token under the column gives its path and its trimmed text.
pub open spec fn path_match_spec(c: Seq<char>, col: int) -> Option<(Seq<char>, int, int)> {
    match char_at_column_spec(c, col) {
        None => None,
        Some(k) => match markdown_scan(c, k, 0) {
            Some((s, e, ds, de)) => match clean_bounds(c.subrange(ds, de), false) {
                Some((a, b)) => Some((c.subrange(ds + a, ds + b), s, e)),
                None => None,
            },
            None => token_scan(c, k, 0),
        },
    }
}

// ---------------------------------------------------------------------------
// What a match is

/// Some `lo <= a <= b <= hi` has `p == c.subrange(a, b)`.
pub open spec fn is_text_of(p: Seq<char>, c: Seq<char>, lo: int, hi: int) -> bool {
    exists|a: int, b: int| lo <= a <= b <= hi && p == c.subrange(a, b)
}

pub proof fn lemma_markdown_scan(c: Seq<char>, k: int, p: int)
    ensures
        markdown_scan(c, k, p) matches Some((s, e, ds, de)) ==> p <= s <= k < e <= c.len() && s < ds <= de < e,
    decreases c.len() - p,
{
    if 0 <= p < c.len() {
        lemma_markdown_link_at(c, p);
        match markdown_link_at(c, p) {
            Some((e, ds, de)) => if !(p <= k < e) {
                lemma_markdown_scan(c, k, e);
            },
            None => lemma_markdown_scan(c, k, p + 1),
        }
    }
}

pub proof fn lemma_match_token_spec(c: Seq<char>, st: int, en: int, k: int, trim_punctuation: bool)
    requires
        0 <= st <= en <= c.len(),
    ensures
        match_token_spec(c, st, en, k, trim_punctuation) matches Some((p, b0, b1)) ==> {
            &&& st <= b0 <= k < b1 <= en
            &&& is_local_path_shape(p)
            &&& is_text_of(p, c, st, en)
        },
{
    let raw = c.subrange(st, en);
    lemma_clean_bounds(raw, trim_punctuation);
    lemma_token_bounds(raw, trim_punctuation);
    let (ta, tb) = token_bounds(raw, trim_punctuation);
    lemma_find_from(raw, raw.subrange(ta, tb), 0);
    if let Some((a, e)) = clean_bounds(raw, trim_punctuation) {
        assert(raw.subrange(a, e) =~= c.subrange(st + a, st + e));
    }
}

pub proof fn lemma_token_scan(c: Seq<char>, k: int, i: int)
    requires
        0 <= i,
    ensures
        token_scan(c, k, i) matches Some((p, s, e)) ==> {
            &&& i <= s <= k < e <= c.len()
            &&& is_local_path_shape(p)
            &&& is_text_of(p, c, 0, c.len() as int)
        },
    decreases c.len() + 1 - i,
{
    if 0 <= i < c.len() {
        if is_separator(c[i]) {
            lemma_token_scan(c, k, i + 1);
        } else if is_quote(c[i]) {
            lemma_first_stop(c, i + 1, Stop::Char(c[i]));
            let end = first_stop(c, i + 1, Stop::Char(c[i]));
            if i + 1 <= k < end {
                lemma_match_token_spec(c, i + 1, end, k, false);
            } else {
                lemma_token_scan(c, k, end + 1);
            }
        } else {
            lemma_first_stop(c, i + 1, Stop::Separator);
            let end = first_stop(c, i + 1, Stop::Separator);
            if i <= k < end {
                lemma_match_token_spec(c, i, end, k, true);
            } else {
                lemma_token_scan(c, k, end);
            }
        }
    }
}

proof fn lemma_column_from(s: Seq<char>, col: int, i: int, column: int)
    ensures
        column_from(s, col, i, column) matches Some(k) ==> i <= k < s.len(),
    decreases s.len() - i,
{
    if 0 <= i < s.len() && !(column <= col < column + column_width(s[i])) {
        lemma_column_from(s, col, i + 1, column + column_width(s[i]));
    }
}

/// The span of a match covers the char under the column, and the path is
/// text of the line with the shape of a local path (never empty, never a
/// URL or a `//` network path).
pub proof fn law_match_covers_click(c: Seq<char>, col: int)
    ensures
        path_match_spec(c, col) matches Some((p, s, e)) ==> {
            &&& char_at_column_spec(c, col) matches Some(k)
            &&& 0 <= s <= k < e <= c.len()
            &&& is_local_path_shape(p)
            &&& is_text_of(p, c, 0, c.len() as int)
        },
{
    lemma_column_from(c, col, 0, 0);
    if let Some(k) = char_at_column_spec(c, col) {
        lemma_markdown_scan(c, k, 0);
        lemma_token_scan(c, k, 0);
        if let Some((s, e, ds, de)) = markdown_scan(c, k, 0) {
            let dest = c.subrange(ds, de);
            lemma_clean_bounds(dest, false);
            if let Some((a, b)) = clean_bounds(dest, false) {
                assert(dest.subrange(a, b) =~= c.subrange(ds + a, ds + b));
            }
        }
    }
}

/// The display columns that the chars of `s` from index `i` on take.
pub open spec fn width_from(s: Seq<char>, i: int) -> int
    decreases s.len() - i,
{
    if i < 0 || i >= s.len() {
        0
    } else {
        column_width(s[i]) + width_from(s, i + 1)
    }
}

/// The display width of a line: the columns of all its chars.
pub open spec fn line_width(s: Seq<char>) -> int {
    width_from(s, 0)
}

proof fn lemma_column_from_width(s: Seq<char>, col: int, i: int, column: int)
    requires
        0 <= i,
    ensures
        width_from(s, i) >= 0,
        column <= col < column + width_from(s, i) <==> column_from(s, col, i, column) is Some,
    decreases s.len() - i,
{
    if i < s.len() {
        let w = column_width(s[i]);
        assert(w >= 0) by {
            match char_width(s[i]) {
                Some(x) => {},
                None => {},
            }
        }
        lemma_column_from_width(s, col, i + 1, column + w);
        assert(width_from(s, i) == w + width_from(s, i + 1));
    } else {
        assert(width_from(s, i) == 0);
    }
}

/// A column inside the line's display width shows some char; past it
/// there is nothing, and so no path.
pub proof fn law_columns_past_the_line_match_nothing(c: Seq<char>, col: int)
    requires
        0 <= col,
    ensures
        col < line_width(c) <==> char_at_column_spec(c, col) is Some,
        col >= line_width(c) ==> path_match_spec(c, col) is None,
{
    lemma_column_from_width(c, col, 0, 0);
}

proof fn lemma_no_markdown(c: Seq<char>, k: int, p: int)
    requires
        forall|i: int| 0 <= i < c.len() ==> #[trigger] c[i] != '[',
    ensures
        markdown_scan(c, k, p) is None,
    decreases c.len() - p,
{
    if 0 <= p < c.len() {
        assert(c[p] != '[');
        lemma_no_markdown(c, k, p + 1);
    }
}

proof fn lemma_column_from_agree(s1: Seq<char>, s2: Seq<char>, col: int, i: int, column: int)
    requires
        0 <= i,
        agree(s1, s2, 0, s1.len() as int),
        column_from(s1, col, i, column) is Some,
    ensures
        column_from(s2, col, i, column) == column_from(s1, col, i, column),
    decreases s1.len() - i,
{
    if i < s1.len() {
        assert(s1[i] == s2[i]);
        if !(column <= col < column + column_width(s1[i])) {
            lemma_column_from_agree(s1, s2, col, i + 1, column + column_width(s1[i]));
        }
    }
}

proof fn lemma_first_stop_none(s: Seq<char>, j: int, set: Stop)
    requires
        0 <= j <= s.len(),
        forall|t: int| j <= t < s.len() ==> !stops(set, #[trigger] s[t]),
    ensures
        first_stop(s, j, set) == s.len(),
    decreases s.len() - j,
{
    if j < s.len() {
        lemma_first_stop_none(s, j + 1, set);
    }
}

/// A plain token: no separator, quote or `[` (which is a separator), so the
/// whole line is one token.
pub open spec fn is_plain_token(line: Seq<char>) -> bool {
    forall|i: int| 0 <= i < line.len() ==> !is_separator(#[trigger] line[i]) && !is_quote(line[i])
}

/// Trailing prose punctuation after a plain token changes nothing: the
/// path and its span under any column of the token stay the same.
pub proof fn law_trailing_punctuation_is_ignored(line: Seq<char>, p: char, col: int)
    requires
        is_plain_token(line),
        p == '.' || p == ',' || p == ';' || p == '!' || p == '?' || p == ':',
        0 <= col < line_width(line),
    ensures
        path_match_spec(line + seq![p], col) == path_match_spec(line, col),
        forall|i: int| 0 <= i <= line.len() ==> #[trigger] crate::text::byte_offset(line + seq![p], i) == crate::text::byte_offset(line, i),
{
    let t = line + seq![p];
    let n = line.len() as int;
    assert(agree(line, t, 0, n)) by {
        assert forall|k: int| 0 <= k < n implies #[trigger] line[k] == t[k] by {}
    }
    assert forall|i: int| 0 <= i <= n implies #[trigger] crate::text::byte_offset(t, i) == crate::text::byte_offset(line, i) by {
        assert(t.take(i) =~= line.take(i));
    }
    lemma_column_from_width(line, col, 0, 0);
    let k = char_at_column_spec(line, col)->0;
    lemma_column_from(line, col, 0, 0);
    lemma_column_from_agree(line, t, col, 0, 0);
    assert(char_at_column_spec(t, col) == Some(k));
    assert(n > 0);
    assert(!is_separator(line[0]) && !is_quote(line[0]));
    // No Markdown link: `[` is a separator.
    assert forall|i: int| 0 <= i < t.len() implies #[trigger] t[i] != '[' by {
        if i < n {
            assert(t[i] == line[i]);
            assert(!is_separator(line[i]));
        }
    }
    assert forall|i: int| 0 <= i < line.len() implies #[trigger] line[i] != '[' by {
        assert(!is_separator(line[i]));
    }
    lemma_no_markdown(t, k, 0);
    lemma_no_markdown(line, k, 0);
    // One token spans each whole line.
    assert(!is_separator(p) && !is_quote(p) && is_trailing_punctuation(p));
    assert forall|i: int| 1 <= i < t.len() implies !stops(Stop::Separator, #[trigger] t[i]) by {
        if i < n {
            assert(t[i] == line[i]);
        }
    }
    assert forall|i: int| 1 <= i < line.len() implies !stops(Stop::Separator, #[trigger] line[i]) by {}
    lemma_first_stop_none(t, 1, Stop::Separator);
    lemma_first_stop_none(line, 1, Stop::Separator);
    assert(t[0] == line[0]);
    assert(t.subrange(0, n + 1) =~= t);
    assert(line.subrange(0, n) =~= line);
    // Both tokens trim to the same bounds.
    assert(skip_start(t, 0, n + 1, CharClass::Whitespace) == 0);
    assert(skip_start(line, 0, n, CharClass::Whitespace) == 0);
    assert(skip_end(t, 0, n + 1, CharClass::Whitespace) == n + 1);
    assert(skip_end(line, 0, n, CharClass::Whitespace) == n) by {
        assert(!crate::text::is_unicode_whitespace(line[n - 1]) && !is_separator(line[n - 1]));
    }
    assert(skip_start(t, 0, n + 1, CharClass::Quote) == 0);
    assert(skip_start(line, 0, n, CharClass::Quote) == 0);
    assert(skip_end(t, 0, n + 1, CharClass::Quote) == n + 1);
    assert(skip_end(line, 0, n, CharClass::Quote) == n) by {
        assert(!is_quote(line[n - 1]));
    }
    assert(skip_end(t, 0, n + 1, CharClass::TrailingPunctuation) == skip_end(t, 0, n, CharClass::TrailingPunctuation));
    lemma_skip_end_agree(t, line, 0, n, CharClass::TrailingPunctuation);
    let b = skip_end(line, 0, n, CharClass::TrailingPunctuation);
    assert(token_bounds(t, true) == (0int, b));
    assert(token_bounds(line, true) == (0int, b));
    crate::token::lemma_token_bounds(line, true);
    lemma_location_end_agree(t, line, 0, b);
    let e = location_end(line, 0, b);
    assert(t.subrange(0, e) =~= line.subrange(0, e));
    assert(clean_bounds(t, true) == clean_bounds(line, true));
    assert(t.subrange(0, b) =~= line.subrange(0, b));
    assert(t.subrange(0, line.subrange(0, b).len() as int) =~= line.subrange(0, b));
    assert(find_from(t, t.subrange(0, b), 0) == Some(0int));
    assert(find_from(line, line.subrange(0, b), 0) == Some(0int));
    assert(match_token_spec(t, 0, n + 1, k, true) == match_token_spec(line, 0, n, k, true));
}

/// The span is the path followed by a source-location suffix.
pub open spec fn span_is_path_and_location(c: Seq<char>, p: Seq<char>, s: int, e: int) -> bool {
    exists|m: int| s <= m <= e && #[trigger] c.subrange(s, m) == p && is_location_suffix(c.subrange(m, e))
}

proof fn lemma_match_token_span(c: Seq<char>, st: int, en: int, k: int, trim_punctuation: bool)
    requires
        0 <= st <= en <= c.len(),
    ensures
        match_token_spec(c, st, en, k, trim_punctuation) matches Some((p, b0, b1)) ==> span_is_path_and_location(c, p, b0, b1),
{
    let raw = c.subrange(st, en);
    if let Some((p, b0, b1)) = match_token_spec(c, st, en, k, trim_punctuation) {
        let (ta, tb) = token_bounds(raw, trim_punctuation);
        crate::token::lemma_token_bounds(raw, trim_punctuation);
        lemma_token_found_at_start(raw, trim_punctuation);
        let e = location_end(raw, ta, tb);
        lemma_location_suffix(raw, ta, tb);
        assert(b0 == st + ta && b1 == st + tb);
        let m = st + e;
        assert(c.subrange(b0, m) =~= raw.subrange(ta, e));
        assert(c.subrange(m, b1) =~= raw.subrange(e, tb));
        assert(c.subrange(b0, m) == p);
    }
}

proof fn lemma_token_scan_span(c: Seq<char>, k: int, i: int)
    requires
        0 <= i,
    ensures
        token_scan(c, k, i) matches Some((p, s, e)) ==> span_is_path_and_location(c, p, s, e),
    decreases c.len() + 1 - i,
{
    if 0 <= i < c.len() {
        if is_separator(c[i]) {
            lemma_token_scan_span(c, k, i + 1);
        } else if is_quote(c[i]) {
            lemma_first_stop(c, i + 1, Stop::Char(c[i]));
            let end = first_stop(c, i + 1, Stop::Char(c[i]));
            if i + 1 <= k < end {
                lemma_match_token_span(c, i + 1, end, k, false);
            } else {
                lemma_token_scan_span(c, k, end + 1);
            }
        } else {
            lemma_first_stop(c, i + 1, Stop::Separator);
            let end = first_stop(c, i + 1, Stop::Separator);
            if i <= k < end {
                lemma_match_token_span(c, i, end, k, true);
            } else {
                lemma_token_scan_span(c, k, end);
            }
        }
    }
}

/// The span to underline is a whole Markdown link, from `[` to `)`, or the
/// path itself followed by at most a `:line` or `:line:column` suffix: no
/// quotes and no trailing prose punctuation.
pub proof fn law_span_is_path_or_link(c: Seq<char>, col: int)
    ensures
        path_match_spec(c, col) matches Some((p, s, e)) ==>
            (c[s] == '[' && c[e - 1] == ')') || span_is_path_and_location(c, p, s, e),
{
    lemma_column_from(c, col, 0, 0);
    if let Some(k) = char_at_column_spec(c, col) {
        law_markdown_link_spans_whole_link(c, col);
        if markdown_scan(c, k, 0) is None {
            lemma_token_scan_span(c, k, 0);
        }
    }
}

/// The chars that end a plain token besides whitespace: brackets,
/// comparison and pipe signs, and the full-width punctuation of CJK prose.
pub open spec fn ends_plain_token(b: char) -> bool {
    ||| b == '<' || b == '>' || b == '|' || b == '=' || b == '[' || b == ']'
    ||| b == '{' || b == '}' || b == '(' || b == ')'
    ||| b == '：' || b == '，' || b == '；' || b == '。' || b == '！' || b == '？'
    ||| b == '、' || b == '（' || b == '）' || b == '【' || b == '】'
}

proof fn lemma_markdown_scan_starts_at_bracket(c: Seq<char>, k: int, p: int)
    requires
        0 <= p,
    ensures
        markdown_scan(c, k, p) matches Some((s, e, ds, de)) ==> p <= s <= k && c[s] == '[',
    decreases c.len() - p,
{
    lemma_markdown_scan(c, k, p);
    lemma_markdown_found(c, k, p);
    if let Some((s, e, ds, de)) = markdown_scan(c, k, p) {
        lemma_markdown_link_shape(c, s);
    }
}

/// A plain token ends at a boundary char or at whitespace: the path under
/// a column of the token is the same whatever follows that char, and the
/// same as for the token alone.
pub proof fn law_boundary_chars_end_plain_tokens(t: Seq<char>, b: char, r: Seq<char>, col: int)
    requires
        is_plain_token(t),
        ends_plain_token(b) || b == ' ' || b == '\t' || b == '\u{3000}',
        0 <= col < line_width(t),
    ensures
        path_match_spec(t + seq![b] + r, col) == path_match_spec(t, col),
        forall|i: int| 0 <= i <= t.len() ==> #[trigger] crate::text::byte_offset(t + seq![b] + r, i) == crate::text::byte_offset(t, i),
{
    let c = t + seq![b] + r;
    let n = t.len() as int;
    assert(agree(t, c, 0, n)) by {
        assert forall|k: int| 0 <= k < n implies #[trigger] t[k] == c[k] by {}
    }
    assert forall|i: int| 0 <= i <= n implies #[trigger] crate::text::byte_offset(c, i) == crate::text::byte_offset(t, i) by {
        assert(c.take(i) =~= t.take(i));
    }
    lemma_column_from_width(t, col, 0, 0);
    let k = char_at_column_spec(t, col)->0;
    lemma_column_from(t, col, 0, 0);
    lemma_column_from_agree(t, c, col, 0, 0);
    assert(char_at_column_spec(c, col) == Some(k));
    assert(n > 0);
    // No Markdown link covers the token: it holds no `[`.
    assert forall|i: int| 0 <= i < t.len() implies #[trigger] t[i] != '[' by {
        assert(!is_separator(t[i]));
    }
    lemma_no_markdown(t, k, 0);
    lemma_markdown_scan_starts_at_bracket(c, k, 0);
    if let Some((s0, e0, ds, de)) = markdown_scan(c, k, 0) {
        assert(c[s0] == t[s0]);
        assert(false);
    }
    // The token is all of `t`, in both lines.
    assert(is_separator(b));
    assert(c[n] == b);
    assert forall|i: int| 1 <= i < t.len() implies !stops(Stop::Separator, #[trigger] t[i]) by {}
    assert forall|i: int| 1 <= i < n implies !stops(Stop::Separator, #[trigger] c[i]) by {
        assert(c[i] == t[i]);
    }
    lemma_first_stop_none(t, 1, Stop::Separator);
    lemma_first_stop_agree_stop(c, 1, n);
    assert(first_stop(c, 1, Stop::Separator) == n);
    assert(c[0] == t[0]);
    assert(!is_separator(t[0]) && !is_quote(t[0]));
    assert(c.subrange(0, n) =~= t);
    assert(t.subrange(0, n) =~= t);
}

proof fn lemma_first_stop_agree_stop(c: Seq<char>, j: int, n: int)
    requires
        1 <= j <= n < c.len(),
        forall|i: int| j <= i < n ==> !stops(Stop::Separator, #[trigger] c[i]),
        stops(Stop::Separator, c[n]),
    ensures
        first_stop(c, j, Stop::Separator) == n,
    decreases n - j,
{
    if j < n {
        lemma_first_stop_agree_stop(c, j + 1, n);
    }
}

/// A Markdown link under the column gives the path of its destination and
/// the whole link, from `[` to `)`, as its span.
pub proof fn law_markdown_link_spans_whole_link(c: Seq<char>, col: int)
    ensures
        char_at_column_spec(c, col) matches Some(k) ==> (markdown_scan(c, k, 0) matches Some((s, e, ds, de)) ==> {
            &&& c[s] == '['
            &&& c[e - 1] == ')'
            &&& (path_match_spec(c, col) matches Some((p, s2, e2)) ==> s2 == s && e2 == e && is_text_of(p, c, ds, de))
        }),
{
    lemma_column_from(c, col, 0, 0);
    if let Some(k) = char_at_column_spec(c, col) {
        lemma_markdown_scan(c, k, 0);
        lemma_markdown_found(c, k, 0);
        if let Some((s, e, ds, de)) = markdown_scan(c, k, 0) {
            lemma_markdown_link_shape(c, s);
            let dest = c.subrange(ds, de);
            lemma_clean_bounds(dest, false);
            if let Some((a, b)) = clean_bounds(dest, false) {
                assert(dest.subrange(a, b) =~= c.subrange(ds + a, ds + b));
            }
        }
    }
}

proof fn lemma_markdown_found(c: Seq<char>, k: int, p: int)
    ensures
        markdown_scan(c, k, p) matches Some((s, e, ds, de)) ==> markdown_link_at(c, s) == Some((e, ds, de)),
    decreases c.len() - p,
{
    if 0 <= p < c.len() {
        lemma_markdown_link_at(c, p);
        match markdown_link_at(c, p) {
            Some((e, ds, de)) => if !(p <= k < e) {
                lemma_markdown_found(c, k, e);
            },
            None => lemma_markdown_found(c, k, p + 1),
        }
    }
}

pub proof fn lemma_markdown_link_shape(c: Seq<char>, s: int)
    ensures
        markdown_link_at(c, s) matches Some((e, ds, de)) ==> c[s] == '[' && c[e - 1] == ')',
{
}

// ---------------------------------------------------------------------------
// Executable counterparts

pub fn is_boundary(ch: char) -> (res: bool)
    ensures
        res == is_boundary_char(ch),
{
    ch == '<' || ch == '>' || ch == '|' || ch == '=' || ch == '[' || ch == ']' || ch == '{'
        || ch == '}' || ch == '(' || ch == ')' || ch == '：' || ch == '，' || ch == '；'
        || ch == '。' || ch == '！' || ch == '？' || ch == '、' || ch == '（' || ch == '）'
        || ch == '【' || ch == '】'
}

fn is_separator_exec(ch: char) -> (res: bool)
    ensures
        res == is_separator(ch),
{
    char_is_whitespace(ch) || is_boundary(ch)
}

fn stops_exec(set: Stop, c: char) -> (res: bool)
    ensures
        res == stops(set, c),
{
    match set {
        Stop::Label => c == ']' || c == '\r' || c == '\n',
        Stop::Angle => c == '>' || c == '\r' || c == '\n',
        Stop::Paren => c == '(' || c == ')' || c == '\r' || c == '\n',
        Stop::Separator => is_separator_exec(c),
        Stop::Char(q) => c == q,
    }
}

fn first_stop_exec(cs: &[char], j: usize, set: Stop) -> (res: usize)
    requires
        j <= cs@.len(),
    ensures
        res == first_stop(cs@, j as int, set),
        j <= res <= cs@.len(),
{
    proof {
        lemma_first_stop(cs@, j as int, set);
    }
    let mut t = j;
    while t < cs.len() && !stops_exec(set, cs[t])
        invariant
            j <= t <= cs@.len(),
            first_stop(cs@, t as int, set) == first_stop(cs@, j as int, set),
        decreases cs@.len() - t,
    {
        t = t + 1;
    }
    t
}

proof fn lemma_column_past(s: Seq<char>, col: int, i: int, column: int)
    requires
        column > col,
    ensures
        column_from(s, col, i, column) is None,
    decreases s.len() - i,
{
    if 0 <= i < s.len() {
        lemma_column_past(s, col, i + 1, column + column_width(s[i]));
    }
}

/// The index of the char shown at display column `col`, if any.
pub fn char_at_column(cs: &[char], col: u16) -> (res: Option<usize>)
    ensures
        res matches Some(k) ==> char_at_column_spec(cs@, col as int) == Some(k as int) && k < cs@.len(),
        res is None ==> char_at_column_spec(cs@, col as int) is None,
{
    let target = col as usize;
    let mut column: usize = 0;
    let mut i: usize = 0;
    while i < cs.len()
        invariant
            i <= cs@.len(),
            target == col,
            column <= target,
            column_from(cs@, col as int, i as int, column as int) == char_at_column_spec(cs@, col as int),
        decreases cs@.len() - i,
    {
        let width = match char_display_width(cs[i]) {
            Some(w) => w,
            None => 0,
        };
        if column <= target && target < column + width {
            return Some(i);
        }
        column = column + width;
        if column > target {
            proof {
                lemma_column_past(cs@, col as int, i + 1, column as int);
            }
            return None;
        }
        i = i + 1;
    }
    None
}

fn markdown_link_at_exec(cs: &[char], s: usize) -> (res: Option<(usize, usize, usize)>)
    requires
        s < cs@.len(),
    ensures
        res matches Some((e, ds, de)) ==> markdown_link_at(cs@, s as int) == Some((e as int, ds as int, de as int)),
        res is None ==> markdown_link_at(cs@, s as int) is None,
{
    proof {
        lemma_markdown_link_at(cs@, s as int);
    }
    let n = cs.len();
    if cs[s] != '[' {
        return None;
    }
    let j = first_stop_exec(cs, s + 1, Stop::Label);
    if !(j < n - 1 && cs[j] == ']' && cs[j + 1] == '(') {
        return None;
    }
    let o = j + 2;
    if o < n && cs[o] == '<' {
        let q = first_stop_exec(cs, o + 1, Stop::Angle);
        if q > o + 1 && q < n - 1 && cs[q] == '>' && cs[q + 1] == ')' {
            return Some((q + 2, o + 1, q));
        }
    }
    let r = first_stop_exec(cs, o, Stop::Paren);
    if r > o && r < n && cs[r] == ')' {
        Some((r + 1, o, r))
    } else {
        None
    }
}

/// The first Markdown link of the line that covers char `k` (see
/// `markdown_scan`).
fn markdown_scan_exec(cs: &[char], k: usize) -> (res: Option<(usize, usize, usize, usize)>)
    ensures
        res matches Some((s, e, ds, de)) ==> markdown_scan(cs@, k as int, 0) == Some((s as int, e as int, ds as int, de as int))
            && s < ds <= de < e <= cs@.len(),
        res is None ==> markdown_scan(cs@, k as int, 0) is None,
{
    let n = cs.len();
    let mut p: usize = 0;
    while p < n
        invariant
            n == cs@.len(),
            p <= n,
            markdown_scan(cs@, k as int, p as int) == markdown_scan(cs@, k as int, 0),
        decreases n - p,
    {
        proof {
            lemma_markdown_link_at(cs@, p as int);
        }
        match markdown_link_at_exec(cs, p) {
            Some((e, ds, de)) => {
                if p <= k && k < e {
                    return Some((p, e, ds, de));
                }
                p = e;
            },
            None => {
                p = p + 1;
            },
        }
    }
    None
}

/// The path of the token `cs[st..en]` and the span of its trimmed text, as
/// (path start, path end, span start, span end), if the span covers `k`.
fn match_token(cs: &[char], st: usize, en: usize, k: usize, trim_punctuation: bool) -> (res: Option<(usize, usize, usize, usize)>)
    requires
        st <= en <= cs@.len(),
    ensures
        res matches Some((pa, pe, b0, b1)) ==> match_token_spec(cs@, st as int, en as int, k as int, trim_punctuation)
            == Some((cs@.subrange(pa as int, pe as int), b0 as int, b1 as int))
            && st <= pa <= pe <= en && st <= b0 <= k < b1 <= en,
        res is None ==> match_token_spec(cs@, st as int, en as int, k as int, trim_punctuation) is None,
{
    let raw = &cs[st..en];
    let ghost rawv = cs@.subrange(st as int, en as int);
    assert(raw@ == rawv);
    let (a, e) = match clean_path(raw, trim_punctuation) {
        Some(b) => b,
        None => return None,
    };
    let (ta, tb) = path_token(raw, trim_punctuation);
    let p = match find_exec(raw, ta, tb) {
        Some(p) => p,
        None => return None,
    };
    let b0 = st + p;
    let b1 = b0 + (tb - ta);
    if b0 <= k && k < b1 {
        assert(rawv.subrange(a as int, e as int) =~= cs@.subrange(st + a, st + e));
        Some((st + a, st + e, b0, b1))
    } else {
        None
    }
}

/// The quoted or plain token under char `k` (see `token_scan`).
fn token_scan_exec(cs: &[char], k: usize) -> (res: Option<(usize, usize, usize, usize)>)
    ensures
        res matches Some((pa, pe, b0, b1)) ==> token_scan(cs@, k as int, 0)
            == Some((cs@.subrange(pa as int, pe as int), b0 as int, b1 as int))
            && pa <= pe <= cs@.len() && b0 <= k < b1 <= cs@.len(),
        res is None ==> token_scan(cs@, k as int, 0) is None,
{
    let n = cs.len();
    let mut i: usize = 0;
    while i < n
        invariant
            n == cs@.len(),
            i <= n,
            token_scan(cs@, k as int, i as int) == token_scan(cs@, k as int, 0),
        decreases n - i,
    {
        let ch = cs[i];
        if is_separator_exec(ch) {
            i = i + 1;
        } else if ch == '`' || ch == '\'' || ch == '"' {
            let end = first_stop_exec(cs, i + 1, Stop::Char(ch));
            if i + 1 <= k && k < end {
                return match_token(cs, i + 1, end, k, false);
            }
            if end == n {
                assert(token_scan(cs@, k as int, n as int + 1) is None);
                return None;
            }
            i = end + 1;
        } else {
            let end = first_stop_exec(cs, i + 1, Stop::Separator);
            if i <= k && k < end {
                return match_token(cs, i, end, k, true);
            }
            i = end;
        }
    }
    None
}

/// The path under display column `col` and its span of chars, as (path
/// start, path end, span start, span end) (see `path_match_spec`).
pub fn path_match_chars(cs: &[char], col: u16) -> (res: Option<(usize, usize, usize, usize)>)
    ensures
        res matches Some((pa, pe, s, e)) ==> path_match_spec(cs@, col as int)
            == Some((cs@.subrange(pa as int, pe as int), s as int, e as int))
            && pa <= pe <= cs@.len() && s < e <= cs@.len(),
        res is None ==> path_match_spec(cs@, col as int) is None,
{
    let k = match char_at_column(cs, col) {
        Some(k) => k,
        None => return None,
    };
    match markdown_scan_exec(cs, k) {
        Some((s, e, ds, de)) => {
            let dest = &cs[ds..de];
            assert(dest@ == cs@.subrange(ds as int, de as int));
            match clean_path(dest, false) {
                Some((a, b)) => {
                    assert(dest@.subrange(a as int, b as int) =~= cs@.subrange(ds + a, ds + b));
                    Some((ds + a, ds + b, s, e))
                },
                None => None,
            }
        },
        None => token_scan_exec(cs, k),
    }
}

} // verus!
