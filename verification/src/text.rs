//! Character-level helpers over the view of a string as a sequence of chars.

use vstd::prelude::*;
use vstd::utf8::*;

verus! {

broadcast use vstd::utf8::group_utf8_lib;

/// The chars of `s`, in order.
pub fn chars_of(s: &str) -> (res: Vec<char>)
    ensures
        res@ == s@,
{
    let mut res: Vec<char> = Vec::new();
    for c in it: s.chars()
        invariant
            it.seq() == s@,
            res@ == it.seq().take(it.index() as int),
    {
        res.push(c);
    }
    res
}

/// Chars with the Unicode `White_Space` property.
pub open spec fn is_unicode_whitespace(c: char) -> bool {
    ||| ('\u{9}' <= c && c <= '\u{d}')
    ||| c == ' '
    ||| c == '\u{85}'
    ||| c == '\u{a0}'
    ||| c == '\u{1680}'
    ||| ('\u{2000}' <= c && c <= '\u{200a}')
    ||| c == '\u{2028}'
    ||| c == '\u{2029}'
    ||| c == '\u{202f}'
    ||| c == '\u{205f}'
    ||| c == '\u{3000}'
}

/// `char::is_whitespace`: true exactly for the chars with the Unicode
/// `White_Space` property, which the spec function above lists.
#[verifier::external_body]
pub fn char_is_whitespace(c: char) -> (res: bool)
    ensures
        res == is_unicode_whitespace(c),
{
    c.is_whitespace()
}

/// The number of bytes in the UTF-8 encoding of the chars of `s`.
pub open spec fn byte_len(s: Seq<char>) -> nat {
    encode_utf8(s).len()
}

/// The byte offset in the UTF-8 encoding of `s` at which char `i` starts.
pub open spec fn byte_offset(s: Seq<char>, i: int) -> nat {
    byte_len(s.take(i))
}

pub proof fn lemma_encode_utf8_concat(a: Seq<char>, b: Seq<char>)
    ensures
        encode_utf8(a + b) == encode_utf8(a) + encode_utf8(b),
    decreases a.len(),
{
    if a.len() == 0 {
        assert(a + b =~= b);
        assert(encode_utf8(a) =~= Seq::<u8>::empty());
        assert(encode_utf8(a) + encode_utf8(b) =~= encode_utf8(b));
    } else {
        lemma_encode_utf8_concat(a.drop_first(), b);
        assert((a + b).drop_first() =~= a.drop_first() + b);
        assert(encode_utf8(a + b) == encode_scalar((a + b)[0] as u32) + encode_utf8((a + b).drop_first()));
        assert(encode_utf8(a) + encode_utf8(b) =~= encode_scalar(a[0] as u32) + (encode_utf8(a.drop_first()) + encode_utf8(b)));
    }
}

pub proof fn lemma_encode_utf8_single(c: char)
    ensures
        encode_utf8(seq![c]) == encode_scalar(c as u32),
{
    assert(seq![c].drop_first() =~= Seq::<char>::empty());
    assert(encode_utf8(Seq::<char>::empty()) =~= Seq::<u8>::empty());
    assert(encode_scalar(c as u32) + Seq::<u8>::empty() =~= encode_scalar(c as u32));
}

/// The byte offset of char `i + 1` is that of char `i` plus the length of
/// the encoding of char `i`.
pub proof fn lemma_byte_offset_step(s: Seq<char>, i: int)
    requires
        0 <= i < s.len(),
    ensures
        byte_offset(s, i + 1) == byte_offset(s, i) + encode_scalar(s[i] as u32).len(),
{
    assert(s.take(i + 1) =~= s.take(i) + seq![s[i]]);
    lemma_encode_utf8_concat(s.take(i), seq![s[i]]);
    lemma_encode_utf8_single(s[i]);
}

/// Byte offsets grow with the char index and stay within the encoding.
pub proof fn lemma_byte_offset_mono(s: Seq<char>, i: int, j: int)
    requires
        0 <= i <= j <= s.len(),
    ensures
        byte_offset(s, i) <= byte_offset(s, j) <= byte_len(s),
        i < j ==> byte_offset(s, i) < byte_offset(s, j),
    decreases j - i,
{
    assert(s.take(s.len() as int) =~= s);
    if i < j {
        lemma_byte_offset_mono(s, i + 1, j);
        lemma_byte_offset_step(s, i);
    } else {
        assert(s.take(j) + s.skip(j) =~= s);
        lemma_encode_utf8_concat(s.take(j), s.skip(j));
    }
}

/// The number of bytes in the UTF-8 encoding of `c`.
pub fn utf8_len(c: char) -> (n: usize)
    ensures
        n == encode_scalar(c as u32).len(),
        1 <= n <= 4,
{
    let u = c as u32;
    proof {
        char_is_scalar(c);
    }
    if u <= 0x7f {
        1
    } else if u <= 0x7ff {
        2
    } else if u <= 0xffff {
        3
    } else {
        4
    }
}

/// The byte offset at which char `i` of `line` starts.
pub fn byte_offset_of(line: &str, cs: &[char], i: usize) -> (res: usize)
    requires
        cs@ == line@,
        i <= cs@.len(),
    ensures
        res == byte_offset(line@, i as int),
{
    let total = line.as_bytes().len();
    let mut off: usize = 0;
    let mut j: usize = 0;
    while j < i
        invariant
            cs@ == line@,
            i <= cs@.len(),
            j <= i,
            off == byte_offset(line@, j as int),
            total == byte_len(line@),
        decreases i - j,
    {
        proof {
            lemma_byte_offset_step(line@, j as int);
            lemma_byte_offset_mono(line@, j as int + 1, cs@.len() as int);
        }
        off = off + utf8_len(cs[j]);
        j = j + 1;
    }
    off
}

} // verus!
