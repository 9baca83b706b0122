//! Local paths named by `file://` hyperlinks.

use vstd::prelude::*;
use vstd::utf8::*;
use vstd::string::*;

verus! {

broadcast use vstd::utf8::group_utf8_lib;

/// The index of the first byte `x` in `b` at or after `from`.
pub open spec fn first_byte(b: Seq<u8>, x: u8, from: int) -> Option<int>
    decreases b.len() - from,
{
    if from < 0 || from >= b.len() {
        None
    } else if b[from] == x {
        Some(from)
    } else {
        first_byte(b, x, from + 1)
    }
}

pub open spec fn ascii_lowercase(x: u8) -> u8 {
    if 0x41 <= x <= 0x5a {
        (x + 0x20) as u8
    } else {
        x
    }
}

/// `a` equals the ASCII text `lit` up to ASCII case.
pub open spec fn eq_ignore_ascii_case(a: Seq<u8>, lit: Seq<u8>) -> bool {
    a.len() == lit.len() && forall|i: int| 0 <= i < a.len() ==> ascii_lowercase(#[trigger] a[i]) == ascii_lowercase(lit[i])
}

/// The value of an ASCII hexadecimal digit.
pub open spec fn hex_value(x: u8) -> Option<u8> {
    if 0x30 <= x <= 0x39 {
        Some((x - 0x30) as u8)
    } else if 0x61 <= x <= 0x66 {
        Some((x - 0x61 + 10) as u8)
    } else if 0x41 <= x <= 0x46 {
        Some((x - 0x41 + 10) as u8)
    } else {
        None
    }
}

pub open spec fn is_ascii_alphabetic_byte(x: u8) -> bool {
    (0x41 <= x <= 0x5a) || (0x61 <= x <= 0x7a)
}

/// Percent-decoding of `p` from index `i`: `%` and two hex digits stand for
/// one byte; a malformed escape or a NUL byte rejects the whole text.
pub open spec fn percent_decode_from(p: Seq<u8>, i: int) -> Option<Seq<u8>>
    decreases p.len() - i,
{
    if i < 0 || i >= p.len() {
        Some(Seq::empty())
    } else if p[i] == 0x25 {
        if i + 2 < p.len() && hex_value(p[i + 1]) is Some && hex_value(p[i + 2]) is Some {
            let d = hex_value(p[i + 1])->0 * 16 + hex_value(p[i + 2])->0;
            if d == 0 {
                None
            } else {
                match percent_decode_from(p, i + 3) {
                    Some(r) => Some(seq![d as u8] + r),
                    None => None,
                }
            }
        } else {
            None
        }
    } else if p[i] == 0 {
        None
    } else {
        match percent_decode_from(p, i + 1) {
            Some(r) => Some(seq![p[i]] + r),
            None => None,
        }
    }
}

/// `b` up to its first `?` or `#`: the path part of a URI without its
/// query and fragment.
pub open spec fn before_query(b: Seq<u8>) -> Seq<u8> {
    let q = match first_byte(b, 0x3f, 0) {
        Some(i) => i,
        None => b.len() as int,
    };
    let h = match first_byte(b, 0x23, 0) {
        Some(i) => i,
        None => b.len() as int,
    };
    b.take(if q < h { q } else { h })
}

/// The bytes of the local path named by the `file:` URI whose bytes are `b`:
/// the scheme is `file` in any case, the URI holds no NUL, the authority is
/// empty or `localhost` in any case, the path is percent-decoded after its
/// query and fragment are cut off, and it does not turn into a `//` or
/// `/\` path. The leading `/` of a `/C:/...` drive path is dropped.
pub open spec fn file_uri_path_bytes(b: Seq<u8>) -> Option<Seq<u8>> {
    match first_byte(b, 0x3a, 0) {
        None => None,
        Some(c) => {
            let rem = b.skip(c + 1);
            if !eq_ignore_ascii_case(b.take(c), seq![0x66u8, 0x69, 0x6c, 0x65]) || b.contains(0u8) {
                None
            } else if !(rem.len() >= 2 && rem[0] == 0x2f && rem[1] == 0x2f) {
                None
            } else {
                let rest = rem.skip(2);
                match first_byte(rest, 0x2f, 0) {
                    None => None,
                    Some(s) => {
                        let authority = rest.take(s);
                        if !(authority.len() == 0 || eq_ignore_ascii_case(
                            authority,
                            seq![0x6cu8, 0x6f, 0x63, 0x61, 0x6c, 0x68, 0x6f, 0x73, 0x74],
                        )) {
                            None
                        } else {
                            match percent_decode_from(before_query(rest.skip(s + 1)), 0) {
                                None => None,
                                Some(d) => Some(seq![0x2fu8] + d),
                            }
                        }
                    },
                }
            }
        },
    }
}

/// The local path named by the `file:` URI `uri`: its decoded bytes must
/// be UTF-8, must not start with `//` or `/\`, and a `/C:/...` drive path
/// loses its leading `/`.
pub open spec fn path_from_file_uri_spec(uri: Seq<char>) -> Option<Seq<char>> {
    match file_uri_path_bytes(encode_utf8(uri)) {
        None => None,
        Some(bytes) => if !valid_utf8(bytes) {
            None
        } else if bytes.len() >= 2 && bytes[0] == 0x2f && (bytes[1] == 0x2f || bytes[1] == 0x5c) {
            None
        } else if bytes.len() >= 4 && is_ascii_alphabetic_byte(bytes[1]) && bytes[2] == 0x3a && bytes[3] == 0x2f {
            Some(decode_utf8(bytes).drop_first())
        } else {
            Some(decode_utf8(bytes))
        },
    }
}

/// `String::from_utf8`: succeeds exactly on valid UTF-8, and then holds the
/// chars that the bytes encode.
#[verifier::external_body]
fn string_from_utf8(bytes: Vec<u8>) -> (res: Option<String>)
    ensures
        res is Some <==> valid_utf8(bytes@),
        res matches Some(s) ==> s@ == decode_utf8(bytes@),
{
    String::from_utf8(bytes).ok()
}

fn first_byte_exec(b: &[u8], x: u8) -> (res: Option<usize>)
    ensures
        res matches Some(i) ==> first_byte(b@, x, 0) == Some(i as int) && i < b@.len(),
        res is None ==> first_byte(b@, x, 0) is None,
{
    let mut i: usize = 0;
    while i < b.len()
        invariant
            i <= b@.len(),
            first_byte(b@, x, i as int) == first_byte(b@, x, 0),
        decreases b@.len() - i,
    {
        if b[i] == x {
            return Some(i);
        }
        i = i + 1;
    }
    None
}

fn ascii_lowercase_exec(x: u8) -> (res: u8)
    ensures
        res == ascii_lowercase(x),
{
    if 0x41 <= x && x <= 0x5a {
        x + 0x20
    } else {
        x
    }
}

pub(crate) fn eq_ignore_ascii_case_exec(a: &[u8], lit: &[u8]) -> (res: bool)
    ensures
        res == eq_ignore_ascii_case(a@, lit@),
{
    if a.len() != lit.len() {
        return false;
    }
    let mut i: usize = 0;
    while i < a.len()
        invariant
            a@.len() == lit@.len(),
            i <= a@.len(),
            forall|t: int| 0 <= t < i ==> ascii_lowercase(#[trigger] a@[t]) == ascii_lowercase(lit@[t]),
        decreases a@.len() - i,
    {
        if ascii_lowercase_exec(a[i]) != ascii_lowercase_exec(lit[i]) {
            return false;
        }
        i = i + 1;
    }
    true
}

pub(crate) fn hex_value_exec(x: u8) -> (res: Option<u8>)
    ensures
        res == hex_value(x),
{
    if 0x30 <= x && x <= 0x39 {
        Some(x - 0x30)
    } else if 0x61 <= x && x <= 0x66 {
        Some(x - 0x61 + 10)
    } else if 0x41 <= x && x <= 0x46 {
        Some(x - 0x41 + 10)
    } else {
        None
    }
}

fn percent_decode(p: &[u8], out: &mut Vec<u8>) -> (ok: bool)
    ensures
        final(out)@.len() >= old(out)@.len(),
        ok ==> percent_decode_from(p@, 0) == Some(final(out)@.subrange(old(out)@.len() as int, final(out)@.len() as int))
            && final(out)@.subrange(0, old(out)@.len() as int) == old(out)@,
        !ok ==> percent_decode_from(p@, 0) is None,
{
    let ghost start = out@.len();
    let ghost prefix = out@;
    let mut i: usize = 0;
    while i < p.len()
        invariant
            i <= p@.len(),
            start == old(out)@.len(),
            prefix == old(out)@,
            out@.len() >= start,
            out@.subrange(0, start as int) == prefix,
            percent_decode_from(p@, 0) == match percent_decode_from(p@, i as int) {
                Some(r) => Some(out@.subrange(start as int, out@.len() as int) + r),
                None => None,
            },
        decreases p@.len() - i,
    {
        let ghost before = out@;
        let byte = p[i];
        if byte == 0x25 {
            if p.len() - i > 2 {
                let high = hex_value_exec(p[i + 1]);
                let low = hex_value_exec(p[i + 2]);
                match (high, low) {
                    (Some(h), Some(l)) => {
                        let d = h * 16 + l;
                        if d == 0 {
                            return false;
                        }
                        out.push(d);
                        assert(out@.subrange(start as int, out@.len() as int) =~= before.subrange(start as int, before.len() as int) + seq![d]);
                        assert(out@.subrange(0, start as int) =~= before.subrange(0, start as int));
                        i = i + 3;
                    },
                    _ => {
                        return false;
                    },
                }
            } else {
                return false;
            }
        } else {
            if byte == 0 {
                return false;
            }
            out.push(byte);
            assert(out@.subrange(start as int, out@.len() as int) =~= before.subrange(start as int, before.len() as int) + seq![byte]);
            assert(out@.subrange(0, start as int) =~= before.subrange(0, start as int));
            i = i + 1;
        }
    }
    assert(out@.subrange(start as int, out@.len() as int) + Seq::<u8>::empty() =~= out@.subrange(start as int, out@.len() as int));
    true
}

proof fn lemma_decode_nonempty(bytes: Seq<u8>)
    requires
        valid_utf8(bytes),
        bytes.len() > 0,
    ensures
        decode_utf8(bytes).len() > 0,
{
}

/// Extract an absolute local path from a `file://` hyperlink.
///
/// Only empty and localhost authorities are accepted. URI query and fragment
/// text is excluded before percent decoding, so encoded filename punctuation is
/// preserved. Malformed escapes, invalid UTF-8, and NUL bytes are rejected.
pub fn path_from_file_uri(uri: &str) -> (res: Option<String>)
    ensures
        res matches Some(p) ==> path_from_file_uri_spec(uri@) == Some(p@),
        res is None ==> path_from_file_uri_spec(uri@) is None,
{
    let b = uri.as_bytes();
    let blen = b.len();
    let c = match first_byte_exec(b, 0x3a) {
        Some(c) => c,
        None => return None,
    };
    let scheme = &b[0..c];
    let rem = &b[c + 1..blen];
    assert(scheme@ == b@.take(c as int));
    assert(rem@ == b@.skip(c + 1));
    let file_lit: [u8; 4] = [0x66, 0x69, 0x6c, 0x65];
    if !eq_ignore_ascii_case_exec(scheme, file_lit.as_slice()) {
        proof {
            assert(file_lit@ =~= seq![0x66u8, 0x69, 0x6c, 0x65]);
        }
        return None;
    }
    assert(file_lit@ =~= seq![0x66u8, 0x69, 0x6c, 0x65]);
    match first_byte_exec(b, 0) {
        Some(z) => {
            proof {
                lemma_first_byte_sound(b@, 0u8, 0);
            }
            assert(b@[z as int] == 0u8);
            return None;
        },
        None => {},
    }
    assert(!b@.contains(0u8)) by {
        if b@.contains(0u8) {
            let t = choose|t: int| 0 <= t < b@.len() && b@[t] == 0u8;
            lemma_first_byte_finds(b@, 0u8, 0, t);
        }
    }
    if !(rem.len() >= 2 && rem[0] == 0x2f && rem[1] == 0x2f) {
        return None;
    }
    let rest = &rem[2..rem.len()];
    assert(rest@ == rem@.skip(2));
    let s = match first_byte_exec(rest, 0x2f) {
        Some(s) => s,
        None => return None,
    };
    let authority = &rest[0..s];
    assert(authority@ == rest@.take(s as int));
    let localhost_lit: [u8; 9] = [0x6c, 0x6f, 0x63, 0x61, 0x6c, 0x68, 0x6f, 0x73, 0x74];
    assert(localhost_lit@ =~= seq![0x6cu8, 0x6f, 0x63, 0x61, 0x6c, 0x68, 0x6f, 0x73, 0x74]);
    if !(authority.len() == 0 || eq_ignore_ascii_case_exec(authority, localhost_lit.as_slice())) {
        return None;
    }
    let raw = &rest[s + 1..rest.len()];
    assert(raw@ == rest@.skip(s + 1));
    let q = match first_byte_exec(raw, 0x3f) {
        Some(i) => i,
        None => raw.len(),
    };
    let h = match first_byte_exec(raw, 0x23) {
        Some(i) => i,
        None => raw.len(),
    };
    let cut = if q < h { q } else { h };
    let raw_path = &raw[0..cut];
    assert(raw_path@ == before_query(raw@));
    let mut bytes: Vec<u8> = Vec::new();
    bytes.push(0x2f);
    let ghost one = bytes@;
    if !percent_decode(raw_path, &mut bytes) {
        return None;
    }
    proof {
        assert(one =~= seq![0x2fu8]);
        assert(bytes@.subrange(0, 1) == one);
        assert(bytes@[0] == 0x2fu8);
        let d = bytes@.subrange(1, bytes@.len() as int);
        assert(bytes@ =~= seq![0x2fu8] + d);
    }
    assert(file_uri_path_bytes(b@) == Some(bytes@));
    let drive = bytes.len() >= 4 && (
        (0x41 <= bytes[1] && bytes[1] <= 0x5a) || (0x61 <= bytes[1] && bytes[1] <= 0x7a))
        && bytes[2] == 0x3a && bytes[3] == 0x2f;
    let slashes = bytes.len() >= 2 && (bytes[1] == 0x2f || bytes[1] == 0x5c);
    let ghost bv = bytes@;
    let path = match string_from_utf8(bytes) {
        Some(p) => p,
        None => return None,
    };
    if slashes {
        return None;
    }
    if drive {
        proof {
            lemma_decode_nonempty(bv);
        }
        let n = path.as_str().unicode_len();
        Some(path.as_str().substring_char(1, n).to_owned())
    } else {
        Some(path)
    }
}

/// An ASCII letter, `A`-`Z` or `a`-`z`.
pub open spec fn is_ascii_alphabetic_char(c: char) -> bool {
    is_ascii_alphabetic_byte((c as u32) as u8) && (c as u32) < 0x80
}

proof fn lemma_decode_has_no_nul(p: Seq<u8>, i: int)
    ensures
        percent_decode_from(p, i) matches Some(d) ==> !d.contains(0u8),
    decreases p.len() - i,
{
    if 0 <= i < p.len() {
        if p[i] == 0x25 {
            if i + 2 < p.len() && hex_value(p[i + 1]) is Some && hex_value(p[i + 2]) is Some {
                lemma_decode_has_no_nul(p, i + 3);
                let v = hex_value(p[i + 1])->0 * 16 + hex_value(p[i + 2])->0;
                if let Some(d) = percent_decode_from(p, i) {
                    let r = percent_decode_from(p, i + 3)->0;
                    assert(d == seq![v as u8] + r);
                    assert forall|k: int| 0 <= k < d.len() implies d[k] != 0u8 by {
                        if k > 0 {
                            assert(d[k] == r[k - 1]);
                        }
                    }
                }
            }
        } else if p[i] != 0 {
            lemma_decode_has_no_nul(p, i + 1);
            if let Some(d) = percent_decode_from(p, i) {
                let r = percent_decode_from(p, i + 1)->0;
                assert(d == seq![p[i]] + r);
                assert forall|k: int| 0 <= k < d.len() implies d[k] != 0u8 by {
                    if k > 0 {
                        assert(d[k] == r[k - 1]);
                    }
                }
            }
        }
    }
}

/// The first byte of an encoding is ASCII exactly when the first char is,
/// and then it is that char and stands for it alone.
proof fn lemma_encode_first(chars: Seq<char>)
    requires
        chars.len() > 0,
    ensures
        encode_utf8(chars).len() > 0,
        (encode_utf8(chars)[0] < 0x80) == ((chars[0] as u32) < 0x80),
        (chars[0] as u32) < 0x80 ==> encode_utf8(chars)[0] == chars[0] as u32,
        (chars[0] as u32) < 0x80 ==> encode_utf8(chars.drop_first()) == encode_utf8(chars).drop_first(),
{
    let c = chars[0] as u32;
    char_is_scalar(chars[0]);
    let e = encode_scalar(c);
    assert(encode_utf8(chars) == e + encode_utf8(chars.drop_first()));
    if has_width_1_encoding(c) {
        assert(leading_byte_width_1(c) == c) by (bit_vector)
            requires
                c <= 0x7f,
        ;
        assert(encode_utf8(chars).drop_first() =~= encode_utf8(chars.drop_first()));
    } else if has_width_2_encoding(c) {
        assert(leading_byte_width_2(c) >= 0x80) by (bit_vector);
    } else if has_width_3_encoding(c) {
        assert(leading_byte_width_3(c) >= 0x80) by (bit_vector);
    } else {
        assert(leading_byte_width_4(c) >= 0x80) by (bit_vector);
    }
}

/// Where the first `n` bytes of an encoding are ASCII, they are its first
/// `n` chars.
proof fn lemma_encode_ascii_prefix(chars: Seq<char>, n: int)
    requires
        0 <= n <= encode_utf8(chars).len(),
        forall|i: int| 0 <= i < n ==> #[trigger] encode_utf8(chars)[i] < 0x80,
    ensures
        chars.len() >= n,
        forall|i: int| 0 <= i < n ==> #[trigger] chars[i] as u32 == encode_utf8(chars)[i],
    decreases n,
{
    if n > 0 {
        if chars.len() == 0 {
            assert(encode_utf8(chars).len() == 0);
        }
        lemma_encode_first(chars);
        let rest = chars.drop_first();
        assert forall|i: int| 0 <= i < n - 1 implies #[trigger] encode_utf8(rest)[i] < 0x80 by {
            assert(encode_utf8(rest)[i] == encode_utf8(chars)[i + 1]);
        }
        lemma_encode_ascii_prefix(rest, n - 1);
        assert forall|i: int| 0 <= i < n implies #[trigger] chars[i] as u32 == encode_utf8(chars)[i] by {
            if i > 0 {
                assert(chars[i] == rest[i - 1]);
                assert(encode_utf8(rest)[i - 1] == encode_utf8(chars)[i]);
            }
        }
    }
}

proof fn lemma_encode_has_nul(chars: Seq<char>)
    requires
        chars.contains('\0'),
    ensures
        encode_utf8(chars).contains(0u8),
    decreases chars.len(),
{
    let c = chars[0] as u32;
    char_is_scalar(chars[0]);
    assert(encode_utf8(chars) == encode_scalar(c) + encode_utf8(chars.drop_first()));
    if chars[0] == '\0' {
        assert(leading_byte_width_1(0u32) == 0u8) by (bit_vector);
        assert(encode_utf8(chars)[0] == 0u8);
    } else {
        let k = choose|k: int| 0 <= k < chars.len() && chars[k] == '\0';
        assert(chars.drop_first()[k - 1] == '\0');
        lemma_encode_has_nul(chars.drop_first());
        let j = choose|j: int| 0 <= j < encode_utf8(chars.drop_first()).len() && encode_utf8(chars.drop_first())[j] == 0u8;
        assert(encode_utf8(chars)[encode_scalar(c).len() + j] == 0u8);
    }
}

/// Where the first `n` chars are ASCII, they are the first `n` bytes of
/// the encoding.
proof fn lemma_ascii_chars_encode(chars: Seq<char>, n: int)
    requires
        0 <= n <= chars.len(),
        forall|i: int| 0 <= i < n ==> (#[trigger] chars[i] as u32) < 0x80,
    ensures
        encode_utf8(chars).len() >= n,
        forall|i: int| 0 <= i < n ==> #[trigger] encode_utf8(chars)[i] == chars[i] as u32,
    decreases n,
{
    if n > 0 {
        lemma_encode_first(chars);
        let rest = chars.drop_first();
        assert forall|i: int| 0 <= i < n - 1 implies (#[trigger] rest[i] as u32) < 0x80 by {
            assert(rest[i] == chars[i + 1]);
        }
        lemma_ascii_chars_encode(rest, n - 1);
        assert forall|i: int| 0 <= i < n implies #[trigger] encode_utf8(chars)[i] == chars[i] as u32 by {
            if i > 0 {
                assert(rest[i - 1] == chars[i]);
                assert(encode_utf8(rest)[i - 1] == encode_utf8(chars)[i]);
            }
        }
    }
}

/// The path that a `file:` URI names is absolute: it starts with `/` but
/// not with `//` or `/\`, or it is a drive path `X:/...`; it holds no NUL,
/// and no `/X:/...` form is left.
pub proof fn law_file_uri_path_is_absolute(uri: Seq<char>)
    ensures
        path_from_file_uri_spec(uri) matches Some(p) ==> {
            &&& !p.contains('\0')
            &&& !(p.len() >= 4 && p[0] == '/' && is_ascii_alphabetic_char(p[1]) && p[2] == ':' && p[3] == '/')
            &&& {
                ||| p.len() >= 1 && p[0] == '/' && !(p.len() >= 2 && (p[1] == '/' || p[1] == '\\'))
                ||| p.len() >= 3 && is_ascii_alphabetic_char(p[0]) && p[1] == ':' && p[2] == '/'
            }
        },
{
    if let Some(p) = path_from_file_uri_spec(uri) {
        let b = encode_utf8(uri);
        let bytes = file_uri_path_bytes(b)->0;
        let c = first_byte(b, 0x3a, 0)->0;
        let rest = b.skip(c + 1).skip(2);
        let s = first_byte(rest, 0x2f, 0)->0;
        let raw = before_query(rest.skip(s + 1));
        let d = percent_decode_from(raw, 0)->0;
        lemma_decode_has_no_nul(raw, 0);
        assert(bytes == seq![0x2fu8] + d);
        assert(!bytes.contains(0u8)) by {
            assert forall|k: int| 0 <= k < bytes.len() implies bytes[k] != 0u8 by {
                if k > 0 {
                    assert(bytes[k] == d[k - 1]);
                }
            }
        }
        let chars = decode_utf8(bytes);
        assert(encode_utf8(chars) == bytes);
        if chars.contains('\0') {
            lemma_encode_has_nul(chars);
        }
        assert(bytes.len() > 0);
        assert(chars.len() > 0) by {
            if chars.len() == 0 {
                assert(encode_utf8(chars).len() == 0);
            }
        }
        lemma_encode_first(chars);
        assert(chars[0] == '/');
        if bytes.len() >= 4 && is_ascii_alphabetic_byte(bytes[1]) && bytes[2] == 0x3a && bytes[3] == 0x2f {
            lemma_encode_ascii_prefix(chars, 4);
            assert(p == chars.drop_first());
            assert(p[0] == chars[1] && p[1] == chars[2] && p[2] == chars[3]);
            assert(chars[1] as u32 == bytes[1] && chars[2] as u32 == 0x3a && chars[3] as u32 == 0x2f);
            assert(p.len() >= 3);
            char_u32_cast(chars[2], 0x3a);
            char_u32_cast(':', 0x3a);
            char_u32_cast(chars[3], 0x2f);
            char_u32_cast('/', 0x2f);
            assert(p[1] == ':');
            assert(p[2] == '/');
            assert(is_ascii_alphabetic_char(p[0]));
            assert(!p.contains('\0')) by {
                if p.contains('\0') {
                    let k = choose|k: int| 0 <= k < p.len() && p[k] == '\0';
                    assert(chars[k + 1] == '\0');
                }
            }
        } else {
            assert(p == chars);
            if chars.len() >= 2 {
                let tail = chars.drop_first();
                lemma_encode_first(tail);
                assert(encode_utf8(tail) == bytes.drop_first());
                assert(tail[0] == chars[1]);
                assert(bytes.drop_first()[0] == bytes[1]);
                assert(!(chars[1] == '/' || chars[1] == '\\'));
            }
            assert(!p.contains('\0'));
            assert(p.len() >= 1 && p[0] == '/');
            if p.len() >= 4 && is_ascii_alphabetic_char(p[1]) && p[2] == ':' && p[3] == '/' {
                assert((p[0] as u32) < 0x80 && (p[2] as u32) < 0x80 && (p[3] as u32) < 0x80);
                lemma_ascii_chars_encode(p, 4);
                assert(bytes[1] == p[1] as u32 && bytes[2] == p[2] as u32 && bytes[3] == p[3] as u32);
                assert(false);
            }
        }
    }
}

/// A URI that names a local path has the shape `file://AUTHORITY/...`: the
/// scheme is `file` in any case, the authority up to the next `/` is empty
/// or `localhost` in any case, and the URI holds no NUL.
pub proof fn law_file_uri_input_shape(uri: Seq<char>)
    ensures
        path_from_file_uri_spec(uri) is Some ==> {
            let b = encode_utf8(uri);
            let after = b.skip(7);
            &&& b.len() >= 8
            &&& eq_ignore_ascii_case(b.take(4), seq![0x66u8, 0x69, 0x6c, 0x65])
            &&& b[4] == 0x3a && b[5] == 0x2f && b[6] == 0x2f
            &&& !b.contains(0u8)
            &&& first_byte(after, 0x2f, 0) is Some
            &&& {
                let a = after.take(first_byte(after, 0x2f, 0)->0);
                a.len() == 0 || eq_ignore_ascii_case(a, seq![0x6cu8, 0x6f, 0x63, 0x61, 0x6c, 0x68, 0x6f, 0x73, 0x74])
            }
        },
{
    if path_from_file_uri_spec(uri) is Some {
        let b = encode_utf8(uri);
        let c = first_byte(b, 0x3a, 0)->0;
        lemma_first_byte_sound(b, 0x3a, 0);
        assert(c == 4);
        let rem = b.skip(c + 1);
        assert(rem[0] == b[5] && rem[1] == b[6]);
        let rest = rem.skip(2);
        assert(rest =~= b.skip(7));
        lemma_first_byte_sound(rest, 0x2f, 0);
    }
}

/// An ASCII byte occurs in an encoding only as the encoding of that char.
proof fn lemma_encode_ascii_byte(chars: Seq<char>, v: u8)
    requires
        v < 0x80,
    ensures
        encode_utf8(chars).contains(v) ==> exists|k: int| 0 <= k < chars.len() && chars[k] as u32 == v,
    decreases chars.len(),
{
    if chars.len() > 0 {
        let c = chars[0] as u32;
        char_is_scalar(chars[0]);
        let e = encode_scalar(c);
        let rest = chars.drop_first();
        assert(encode_utf8(chars) == e + encode_utf8(rest));
        lemma_encode_ascii_byte(rest, v);
        if encode_utf8(chars).contains(v) {
            let j = choose|j: int| 0 <= j < encode_utf8(chars).len() && encode_utf8(chars)[j] == v;
            if j < e.len() {
                if has_width_1_encoding(c) {
                    assert(leading_byte_width_1(c) == c) by (bit_vector)
                        requires
                            c <= 0x7f,
                    ;
                    assert(chars[0] as u32 == v);
                } else {
                    assert(leading_byte_width_2(c) >= 0x80) by (bit_vector);
                    assert(leading_byte_width_3(c) >= 0x80) by (bit_vector);
                    assert(leading_byte_width_4(c) >= 0x80) by (bit_vector);
                    assert(last_continuation_byte(c) >= 0x80) by (bit_vector);
                    assert(second_last_continuation_byte(c) >= 0x80) by (bit_vector);
                    assert(third_last_continuation_byte(c) >= 0x80) by (bit_vector);
                    assert(e[j] >= 0x80);
                }
            } else {
                assert(encode_utf8(rest)[j - e.len()] == v);
                let k = choose|k: int| 0 <= k < rest.len() && rest[k] as u32 == v;
                assert(chars[k + 1] == rest[k]);
            }
        }
    }
}

/// A byte found in a prefix is found at the same place after more bytes
/// are appended.
proof fn lemma_first_byte_prefix(x: Seq<u8>, y: Seq<u8>, v: u8, from: int)
    requires
        0 <= from,
        first_byte(x, v, from) is Some,
    ensures
        first_byte(x + y, v, from) == first_byte(x, v, from),
    decreases x.len() - from,
{
    if from < x.len() && x[from] != v {
        assert((x + y)[from] == x[from]);
        lemma_first_byte_prefix(x, y, v, from + 1);
    } else if from < x.len() {
        assert((x + y)[from] == x[from]);
    }
}

/// Skipping bytes that are not `v` does not change where `v` is first found.
proof fn lemma_first_byte_skip(b: Seq<u8>, v: u8, from: int, n: int)
    requires
        0 <= from <= n <= b.len(),
        forall|t: int| from <= t < n ==> b[t] != v,
    ensures
        first_byte(b, v, from) == first_byte(b, v, n),
    decreases n - from,
{
    if from < n {
        lemma_first_byte_skip(b, v, from + 1, n);
    }
}

/// `before_query` of a query-free text followed by a `?` or `#` is that text.
proof fn lemma_before_query_extend(raw: Seq<u8>, tail: Seq<u8>)
    requires
        !raw.contains(0x3fu8),
        !raw.contains(0x23u8),
        tail.len() > 0,
        tail[0] == 0x3f || tail[0] == 0x23,
    ensures
        before_query(raw + tail) == raw,
        before_query(raw) == raw,
{
    let t = raw + tail;
    let n = raw.len() as int;
    assert forall|i: int| 0 <= i < n implies t[i] != 0x3fu8 && t[i] != 0x23u8 by {
        assert(t[i] == raw[i]);
        if raw[i] == 0x3fu8 {
            assert(raw.contains(0x3fu8));
        }
        if raw[i] == 0x23u8 {
            assert(raw.contains(0x23u8));
        }
    }
    lemma_first_byte_skip(t, 0x3f, 0, n);
    lemma_first_byte_skip(t, 0x23, 0, n);
    lemma_first_byte_sound(t, 0x3f, n);
    lemma_first_byte_sound(t, 0x23, n);
    assert(t[n] == tail[0]);
    assert(t.take(n) =~= raw);
    assert forall|i: int| 0 <= i < n implies raw[i] != 0x3fu8 && raw[i] != 0x23u8 by {
        if raw[i] == 0x3fu8 {
            assert(raw.contains(0x3fu8));
        }
        if raw[i] == 0x23u8 {
            assert(raw.contains(0x23u8));
        }
    }
    lemma_first_byte_skip(raw, 0x3f, 0, n);
    lemma_first_byte_skip(raw, 0x23, 0, n);
    assert(raw.take(n) =~= raw);
}

/// A query or fragment appended to the URI of a local path leaves the path
/// unchanged: both are cut off before percent decoding.
pub proof fn law_query_and_fragment_are_ignored(u: Seq<char>, s: Seq<char>, sep: char)
    requires
        sep == '?' || sep == '#',
        path_from_file_uri_spec(u) is Some,
        !u.contains('?'),
        !u.contains('#'),
        !s.contains('\0'),
    ensures
        path_from_file_uri_spec(u + seq![sep] + s) == path_from_file_uri_spec(u),
{
    let b = encode_utf8(u);
    let e = encode_utf8(s);
    let sb: u8 = if sep == '?' { 0x3f } else { 0x23 };
    crate::text::lemma_encode_utf8_concat(u + seq![sep], s);
    crate::text::lemma_encode_utf8_concat(u, seq![sep]);
    crate::text::lemma_encode_utf8_single(sep);
    assert(leading_byte_width_1(0x3fu32) == 0x3fu8) by (bit_vector);
    assert(leading_byte_width_1(0x23u32) == 0x23u8) by (bit_vector);
    let tail = seq![sb] + e;
    let t = encode_utf8(u + seq![sep] + s);
    assert(t =~= b + tail);
    // Where the bytes of `u` hold no `?`, `#` or NUL, neither do the parts cut from them.
    lemma_encode_ascii_byte(u, 0x3f);
    lemma_encode_ascii_byte(u, 0x23);
    lemma_encode_ascii_byte(s, 0);
    assert(!b.contains(0x3fu8)) by {
        if b.contains(0x3fu8) {
            let k = choose|k: int| 0 <= k < u.len() && u[k] as u32 == 0x3f;
            char_u32_cast(u[k], 0x3f);
            char_u32_cast('?', 0x3f);
            assert(u[k] == '?');
        }
    }
    assert(!b.contains(0x23u8)) by {
        if b.contains(0x23u8) {
            let k = choose|k: int| 0 <= k < u.len() && u[k] as u32 == 0x23;
            char_u32_cast(u[k], 0x23);
            char_u32_cast('#', 0x23);
            assert(u[k] == '#');
        }
    }
    assert(!e.contains(0u8)) by {
        if e.contains(0u8) {
            let k = choose|k: int| 0 <= k < s.len() && s[k] as u32 == 0;
            char_u32_cast(s[k], 0);
            char_u32_cast('\0', 0);
            assert(s[k] == '\0');
        }
    }
    // The scheme, the NUL check, the slashes and the authority read only `b`.
    let c = first_byte(b, 0x3a, 0)->0;
    lemma_first_byte_sound(b, 0x3a, 0);
    lemma_first_byte_prefix(b, tail, 0x3a, 0);
    assert(t.take(c) =~= b.take(c));
    assert(!b.contains(0u8));
    assert(!t.contains(0u8)) by {
        if t.contains(0u8) {
            let j = choose|j: int| 0 <= j < t.len() && t[j] == 0u8;
            if j < b.len() {
                assert(b[j] == 0u8);
            } else if j == b.len() {
                assert(t[j] == sb);
            } else {
                assert(e[j - b.len() - 1] == 0u8);
            }
        }
    }
    let rem = b.skip(c + 1);
    assert(t.skip(c + 1) =~= rem + tail);
    let rest = rem.skip(2);
    assert((rem + tail).skip(2) =~= rest + tail);
    let sl = first_byte(rest, 0x2f, 0)->0;
    lemma_first_byte_sound(rest, 0x2f, 0);
    lemma_first_byte_prefix(rest, tail, 0x2f, 0);
    assert((rest + tail).take(sl) =~= rest.take(sl));
    let raw = rest.skip(sl + 1);
    assert((rest + tail).skip(sl + 1) =~= raw + tail);
    assert(!raw.contains(0x3fu8)) by {
        if raw.contains(0x3fu8) {
            let j = choose|j: int| 0 <= j < raw.len() && raw[j] == 0x3fu8;
            assert(b[c + 1 + 2 + sl + 1 + j] == 0x3fu8);
        }
    }
    assert(!raw.contains(0x23u8)) by {
        if raw.contains(0x23u8) {
            let j = choose|j: int| 0 <= j < raw.len() && raw[j] == 0x23u8;
            assert(b[c + 1 + 2 + sl + 1 + j] == 0x23u8);
        }
    }
    lemma_before_query_extend(raw, tail);
    assert(file_uri_path_bytes(t) == file_uri_path_bytes(b));
}

/// The hexadecimal digit for `v` in `0..16`, in upper or lower case.
pub open spec fn hex_digit(v: int, upper: bool) -> u8 {
    if v < 10 {
        (0x30 + v) as u8
    } else if upper {
        (0x41 + v - 10) as u8
    } else {
        (0x61 + v - 10) as u8
    }
}

/// Every byte written as `%HH`.
pub open spec fn percent_encode_all(b: Seq<u8>, upper: bool) -> Seq<u8>
    decreases b.len(),
{
    if b.len() == 0 {
        Seq::empty()
    } else {
        seq![0x25u8, hex_digit(b[0] as int / 16, upper), hex_digit(b[0] as int % 16, upper)] + percent_encode_all(b.drop_first(), upper)
    }
}

/// ASCII bytes as chars.
pub open spec fn ascii_text(b: Seq<u8>) -> Seq<char> {
    b.map_values(|x: u8| x as char)
}

proof fn lemma_percent_encode_ascii(b: Seq<u8>, upper: bool)
    ensures
        forall|i: int| 0 <= i < percent_encode_all(b, upper).len() ==> {
            let x = #[trigger] percent_encode_all(b, upper)[i];
            &&& x < 0x80
            &&& x != 0 && x != 0x3f && x != 0x23 && x != 0x2f
        },
    decreases b.len(),
{
    if b.len() > 0 {
        lemma_percent_encode_ascii(b.drop_first(), upper);
        let head = seq![0x25u8, hex_digit(b[0] as int / 16, upper), hex_digit(b[0] as int % 16, upper)];
        let rest = percent_encode_all(b.drop_first(), upper);
        assert forall|i: int| 0 <= i < (head + rest).len() implies {
            let x = #[trigger] (head + rest)[i];
            &&& x < 0x80
            &&& x != 0 && x != 0x3f && x != 0x23 && x != 0x2f
        } by {
            if i >= 3 {
                assert((head + rest)[i] == rest[i - 3]);
            }
        }
    }
}

proof fn lemma_decode_shift(x: Seq<u8>, y: Seq<u8>, i: int)
    requires
        0 <= i,
    ensures
        percent_decode_from(x + y, x.len() + i) == percent_decode_from(y, i),
    decreases y.len() - i,
{
    let z = x + y;
    let n = x.len() as int;
    if i < y.len() {
        assert(z[n + i] == y[i]);
        if i + 1 < y.len() {
            assert(z[n + i + 1] == y[i + 1]);
        }
        if i + 2 < y.len() {
            assert(z[n + i + 2] == y[i + 2]);
        }
        lemma_decode_shift(x, y, i + 1);
        if i + 3 <= y.len() {
            lemma_decode_shift(x, y, i + 3);
        }
    }
}

proof fn lemma_hex_digit(v: int, upper: bool)
    requires
        0 <= v < 16,
    ensures
        hex_value(hex_digit(v, upper)) == Some(v as u8),
{
}

/// Decoding undoes encoding every byte.
proof fn lemma_percent_round_trip(b: Seq<u8>, upper: bool)
    requires
        !b.contains(0u8),
    ensures
        percent_decode_from(percent_encode_all(b, upper), 0) == Some(b),
    decreases b.len(),
{
    if b.len() > 0 {
        let rest_b = b.drop_first();
        assert(!rest_b.contains(0u8)) by {
            if rest_b.contains(0u8) {
                let k = choose|k: int| 0 <= k < rest_b.len() && rest_b[k] == 0u8;
                assert(b[k + 1] == 0u8);
            }
        }
        lemma_percent_round_trip(rest_b, upper);
        let hi = b[0] as int / 16;
        let lo = b[0] as int % 16;
        lemma_hex_digit(hi as int, upper);
        lemma_hex_digit(lo as int, upper);
        let head = seq![0x25u8, hex_digit(hi as int, upper), hex_digit(lo as int, upper)];
        let rest = percent_encode_all(rest_b, upper);
        let all = percent_encode_all(b, upper);
        assert(all == head + rest);
        lemma_decode_shift(head, rest, 0);
        assert(b[0] != 0u8);
        assert(hi * 16 + lo == b[0]);
        assert(seq![b[0]] + rest_b =~= b);
    } else {
        assert(b =~= Seq::<u8>::empty());
    }
}

proof fn lemma_ascii_text_encode(b: Seq<u8>)
    requires
        forall|i: int| 0 <= i < b.len() ==> #[trigger] b[i] < 0x80,
    ensures
        encode_utf8(ascii_text(b)) == b,
{
    let t = ascii_text(b);
    assert forall|i: int| 0 <= i < t.len() implies '\0' <= #[trigger] t[i] <= '\u{7f}' by {
        assert(t[i] == b[i] as char);
    }
    assert(is_ascii_chars(t));
    is_ascii_chars_encode_utf8(t);
    assert forall|i: int| 0 <= i < b.len() implies #[trigger] encode_utf8(t)[i] == b[i] by {
        assert(t[i] == b[i] as char);
        let x = b[i];
        assert(((x as char) as u8) == x);
    }
    assert(encode_utf8(t) =~= b);
}

/// The bytes of `file://AUTHORITY/` followed by encoded bytes name those
/// bytes, decoded, after a `/`.
proof fn lemma_encoded_uri_bytes(a: Seq<u8>, pe: Seq<u8>, body: Seq<u8>)
    requires
        forall|i: int| 0 <= i < a.len() ==> #[trigger] a[i] != 0x2fu8 && a[i] != 0u8,
        a.len() == 0 || eq_ignore_ascii_case(a, seq![0x6cu8, 0x6f, 0x63, 0x61, 0x6c, 0x68, 0x6f, 0x73, 0x74]),
        forall|i: int| 0 <= i < pe.len() ==> {
            let x = #[trigger] pe[i];
            &&& x != 0 && x != 0x3f && x != 0x23
        },
        percent_decode_from(pe, 0) == Some(body),
    ensures
        file_uri_path_bytes(seq![0x66u8, 0x69, 0x6c, 0x65, 0x3a, 0x2f, 0x2f] + a + seq![0x2fu8] + pe)
            == Some(seq![0x2fu8] + body),
{
    let f = seq![0x66u8, 0x69, 0x6c, 0x65, 0x3a, 0x2f, 0x2f];
    let b = f + a + seq![0x2fu8] + pe;
    assert(first_byte(f, 0x3a, 4) == Some(4int));
    assert(first_byte(f, 0x3a, 3) == Some(4int));
    assert(first_byte(f, 0x3a, 2) == Some(4int));
    assert(first_byte(f, 0x3a, 1) == Some(4int));
    assert(first_byte(f, 0x3a, 0) == Some(4int));
    lemma_first_byte_prefix(f, a + seq![0x2fu8] + pe, 0x3a, 0);
    assert(b =~= f + (a + seq![0x2fu8] + pe));
    assert(b.take(4) =~= seq![0x66u8, 0x69, 0x6c, 0x65]);
    assert(!b.contains(0u8)) by {
        if b.contains(0u8) {
            let j = choose|j: int| 0 <= j < b.len() && b[j] == 0u8;
            if j < 7 {
            } else if j < 7 + a.len() {
                assert(a[j - 7] == b[j]);
            } else if j == 7 + a.len() {
            } else {
                assert(pe[j - 8 - a.len()] == b[j]);
            }
        }
    }
    let rem = b.skip(5);
    assert(rem[0] == 0x2fu8 && rem[1] == 0x2fu8);
    let rest = rem.skip(2);
    assert(rest =~= a + seq![0x2fu8] + pe);
    assert(rest[a.len() as int] == 0x2fu8);
    assert forall|t: int| 0 <= t < a.len() implies rest[t] != 0x2fu8 by {
        assert(rest[t] == a[t]);
    }
    lemma_first_byte_skip(rest, 0x2f, 0, a.len() as int);
    assert(first_byte(rest, 0x2f, 0) == Some(a.len() as int));
    assert(rest.take(a.len() as int) =~= a);
    let raw = rest.skip(a.len() as int + 1);
    assert(raw =~= pe);
    assert forall|t: int| 0 <= t < pe.len() implies pe[t] != 0x3fu8 && pe[t] != 0x23u8 by {}
    lemma_first_byte_skip(pe, 0x3f, 0, pe.len() as int);
    lemma_first_byte_skip(pe, 0x23, 0, pe.len() as int);
    assert(pe.take(pe.len() as int) =~= pe);
    assert(before_query(raw) == pe);
}

/// Bytes that are no `%` escape and no NUL are decoded as themselves.
proof fn lemma_decode_plain_bytes(b: Seq<u8>, i: int)
    requires
        0 <= i <= b.len(),
        forall|t: int| 0 <= t < b.len() ==> #[trigger] b[t] != 0x25u8 && b[t] != 0u8,
    ensures
        percent_decode_from(b, i) == Some(b.skip(i)),
    decreases b.len() - i,
{
    if i < b.len() {
        lemma_decode_plain_bytes(b, i + 1);
        assert(seq![b[i]] + b.skip(i + 1) =~= b.skip(i));
    } else {
        assert(b.skip(i) =~= Seq::<u8>::empty());
    }
}

/// Text of a URI path that holds no `%`, `?`, `#` or NUL is kept as it is,
/// whatever chars it holds: `file:///P` names `/P`, unless `P` is a drive
/// path `X:/...` or starts with `/` or `\`.
pub proof fn law_unescaped_path_text_is_kept(p: Seq<char>)
    requires
        !p.contains('%'),
        !p.contains('?'),
        !p.contains('#'),
        !p.contains('\0'),
        !(p.len() >= 1 && (p[0] == '/' || p[0] == '\\')),
        !(p.len() >= 3 && is_ascii_alphabetic_char(p[0]) && p[1] == ':' && p[2] == '/'),
    ensures
        path_from_file_uri_spec(seq!['f', 'i', 'l', 'e', ':', '/', '/', '/'] + p) == Some(seq!['/'] + p),
{
    let scheme = seq!['f', 'i', 'l', 'e', ':', '/', '/'];
    let f = seq![0x66u8, 0x69, 0x6c, 0x65, 0x3a, 0x2f, 0x2f];
    let e = encode_utf8(p);
    let empty = Seq::<u8>::empty();
    lemma_ascii_text_encode(f);
    assert(ascii_text(f) =~= scheme);
    crate::text::lemma_encode_utf8_concat(scheme + seq!['/'], p);
    crate::text::lemma_encode_utf8_concat(scheme, seq!['/']);
    crate::text::lemma_encode_utf8_single('/');
    assert(leading_byte_width_1(0x2fu32) == 0x2fu8) by (bit_vector);
    assert(encode_utf8(seq!['/']) =~= seq![0x2fu8]);
    assert(seq!['f', 'i', 'l', 'e', ':', '/', '/', '/'] + p =~= scheme + seq!['/'] + p);
    let b = encode_utf8(scheme + seq!['/'] + p);
    assert(b =~= f + empty + seq![0x2fu8] + e);
    // The path text's bytes hold no `%`, `?`, `#` or NUL either.
    lemma_encode_ascii_byte(p, 0x25);
    lemma_encode_ascii_byte(p, 0x3f);
    lemma_encode_ascii_byte(p, 0x23);
    lemma_encode_ascii_byte(p, 0);
    assert forall|t: int| 0 <= t < e.len() implies {
        let x = #[trigger] e[t];
        &&& x != 0 && x != 0x3f && x != 0x23 && x != 0x25
    } by {
        let x = e[t];
        if x == 0x25 || x == 0x3f || x == 0x23 || x == 0 {
            assert(e.contains(x));
            let k = choose|k: int| 0 <= k < p.len() && p[k] as u32 == x;
            char_u32_cast(p[k], x as u32);
            char_u32_cast('%', 0x25);
            char_u32_cast('?', 0x3f);
            char_u32_cast('#', 0x23);
            char_u32_cast('\0', 0);
            assert(p.contains(p[k]));
        }
    }
    lemma_decode_plain_bytes(e, 0);
    assert(e.skip(0) =~= e);
    lemma_encoded_uri_bytes(empty, e, e);
    let bytes = seq![0x2fu8] + e;
    crate::text::lemma_encode_utf8_concat(seq!['/'], p);
    assert(bytes == encode_utf8(seq!['/'] + p));
    assert(decode_utf8(bytes) == seq!['/'] + p);
    // The bytes after `/` start neither a network path nor a drive path.
    if bytes.len() >= 2 && (bytes[1] == 0x2f || bytes[1] == 0x5c) {
        lemma_encode_ascii_prefix(p, 1);
        assert(e[0] == bytes[1]);
        char_u32_cast(p[0], bytes[1] as u32);
        char_u32_cast('/', 0x2f);
        char_u32_cast('\\', 0x5c);
        assert(false);
    }
    if bytes.len() >= 4 && is_ascii_alphabetic_byte(bytes[1]) && bytes[2] == 0x3a && bytes[3] == 0x2f {
        assert(e[0] == bytes[1] && e[1] == bytes[2] && e[2] == bytes[3]);
        lemma_encode_ascii_prefix(p, 3);
        char_u32_cast(p[1], 0x3a);
        char_u32_cast(':', 0x3a);
        char_u32_cast(p[2], 0x2f);
        char_u32_cast('/', 0x2f);
        assert(is_ascii_alphabetic_char(p[0]));
        assert(false);
    }
}

/// Writing every byte of a local path after its leading `/` as `%HH`, in
/// either case, under an empty or `localhost` authority, gives a `file:`
/// URI that names the path again.
pub proof fn law_percent_encoded_path_round_trips(p: Seq<char>, auth: Seq<char>, upper: bool)
    requires
        p.len() >= 1,
        p[0] == '/',
        !p.contains('\0'),
        !(p.len() >= 2 && (p[1] == '/' || p[1] == '\\')),
        !(p.len() >= 4 && is_ascii_alphabetic_char(p[1]) && p[2] == ':' && p[3] == '/'),
        auth.len() == 0 || eq_ignore_ascii_case(encode_utf8(auth), seq![0x6cu8, 0x6f, 0x63, 0x61, 0x6c, 0x68, 0x6f, 0x73, 0x74]),
    ensures
        path_from_file_uri_spec(
            seq!['f', 'i', 'l', 'e', ':', '/', '/'] + auth + seq!['/'] + ascii_text(percent_encode_all(encode_utf8(p.drop_first()), upper)),
        ) == Some(p),
{
    let scheme = seq!['f', 'i', 'l', 'e', ':', '/', '/'];
    let body = encode_utf8(p.drop_first());
    let pe = percent_encode_all(body, upper);
    let uri = scheme + auth + seq!['/'] + ascii_text(pe);
    let a = encode_utf8(auth);
    let f = seq![0x66u8, 0x69, 0x6c, 0x65, 0x3a, 0x2f, 0x2f];
    // The bytes of the URI.
    crate::text::lemma_encode_utf8_concat(scheme + auth + seq!['/'], ascii_text(pe));
    crate::text::lemma_encode_utf8_concat(scheme + auth, seq!['/']);
    crate::text::lemma_encode_utf8_concat(scheme, auth);
    lemma_percent_encode_ascii(body, upper);
    lemma_ascii_text_encode(pe);
    lemma_ascii_text_encode(f);
    assert(ascii_text(f) =~= scheme);
    lemma_ascii_text_encode(seq![0x2fu8]);
    assert(ascii_text(seq![0x2fu8]) =~= seq!['/']);
    let b = encode_utf8(uri);
    assert(b =~= f + a + seq![0x2fu8] + pe);
    // The authority is ASCII letters.
    assert forall|i: int| 0 <= i < a.len() implies #[trigger] a[i] != 0x2fu8 && a[i] != 0u8 by {
        assert(ascii_lowercase(a[i]) == ascii_lowercase(seq![0x6cu8, 0x6f, 0x63, 0x61, 0x6c, 0x68, 0x6f, 0x73, 0x74][i]));
    }
    // Decoding gives the path's bytes back.
    lemma_encode_ascii_byte(p.drop_first(), 0);
    assert(!body.contains(0u8)) by {
        if body.contains(0u8) {
            let k = choose|k: int| 0 <= k < p.drop_first().len() && p.drop_first()[k] as u32 == 0;
            char_u32_cast(p.drop_first()[k], 0);
            char_u32_cast('\0', 0);
            assert(p[k + 1] == '\0');
        }
    }
    lemma_percent_round_trip(body, upper);
    lemma_encoded_uri_bytes(a, pe, body);
    let bytes = seq![0x2fu8] + body;
    assert(file_uri_path_bytes(b) == Some(bytes));
    crate::text::lemma_encode_utf8_concat(seq!['/'], p.drop_first());
    assert(seq!['/'] + p.drop_first() =~= p);
    crate::text::lemma_encode_utf8_single('/');
    assert(leading_byte_width_1(0x2fu32) == 0x2fu8) by (bit_vector);
    assert(encode_utf8(seq!['/']) =~= seq![0x2fu8]);
    assert(bytes == encode_utf8(p));
    assert(valid_utf8(bytes));
    assert(decode_utf8(bytes) == p);
    // Neither a network path nor a drive path.
    if bytes.len() >= 2 && (bytes[1] == 0x2f || bytes[1] == 0x5c) {
        lemma_encode_ascii_prefix(p, 2);
        char_u32_cast(p[1], bytes[1] as u32);
        char_u32_cast('/', 0x2f);
        char_u32_cast('\\', 0x5c);
        assert(false);
    }
    if bytes.len() >= 4 && is_ascii_alphabetic_byte(bytes[1]) && bytes[2] == 0x3a && bytes[3] == 0x2f {
        lemma_encode_ascii_prefix(p, 4);
        char_u32_cast(p[2], 0x3a);
        char_u32_cast(':', 0x3a);
        char_u32_cast(p[3], 0x2f);
        char_u32_cast('/', 0x2f);
        assert(is_ascii_alphabetic_char(p[1]));
        assert(false);
    }
}

proof fn lemma_first_byte_sound(b: Seq<u8>, x: u8, from: int)
    ensures
        first_byte(b, x, from) matches Some(i) ==> from <= i < b.len() && b[i] == x,
    decreases b.len() - from,
{
    if 0 <= from < b.len() && b[from] != x {
        lemma_first_byte_sound(b, x, from + 1);
    }
}

proof fn lemma_first_byte_finds(b: Seq<u8>, x: u8, from: int, t: int)
    requires
        0 <= from <= t < b.len(),
        b[t] == x,
    ensures
        first_byte(b, x, from) is Some,
    decreases t - from,
{
    if b[from] != x {
        lemma_first_byte_finds(b, x, from + 1, t);
    }
}

} // verus!
