//! Escaping attribute values for display, and reading back values given as
//! octal escapes, hex (`0x...`) or base64 (`0s...`).
use base64::Engine;
use vstd::prelude::*;
use vstd::string::StringSliceAdditionalSpecFns;
use vstd::utf8::{
    decode_first_scalar, encode_scalar, has_width_1_encoding, has_width_2_encoding,
    has_width_3_encoding, is_scalar, length_of_first_scalar, valid_first_scalar,
};

use crate::bytes::copy_range;
use crate::text::{char_of, chars_of, push_char, push_chars};

verus! {

/// The octal digit of `d`, which is below 8.
pub open spec fn octal_digit(d: int) -> char {
    if d == 0 {
        '0'
    } else if d == 1 {
        '1'
    } else if d == 2 {
        '2'
    } else if d == 3 {
        '3'
    } else if d == 4 {
        '4'
    } else if d == 5 {
        '5'
    } else if d == 6 {
        '6'
    } else {
        '7'
    }
}

/// `\ooo`: a backslash and the three octal digits of `b`.
pub open spec fn octal_escape(b: u8) -> Seq<char> {
    seq!['\\', octal_digit(b as int / 64), octal_digit((b as int / 8) % 8), octal_digit(b as int % 8)]
}

/// Each byte of `bs` as `\ooo`.
pub open spec fn octal_escapes(bs: Seq<u8>) -> Seq<char>
    decreases bs.len(),
{
    if bs.len() == 0 {
        seq![]
    } else {
        octal_escape(bs[0]) + octal_escapes(bs.drop_first())
    }
}

/// A control character (Unicode category Cc).
pub open spec fn is_control(c: char) -> bool {
    (c as u32) <= 0x1f || (0x7f <= (c as u32) && (c as u32) <= 0x9f)
}

/// How one character is shown: ASCII controls as `\ooo`, `\` and `"`
/// behind a backslash, other ASCII as it is; other characters as they are
/// where `keep_utf8` holds and they are not controls, else each byte of
/// their UTF-8 as `\ooo`.
pub open spec fn escaped_char(c: char, keep_utf8: bool) -> Seq<char> {
    if (c as u32) < 0x80 {
        if is_control(c) {
            octal_escape(c as u32 as u8)
        } else if c == '\\' || c == '"' {
            seq!['\\', c]
        } else {
            seq![c]
        }
    } else if keep_utf8 && !is_control(c) {
        seq![c]
    } else {
        octal_escapes(encode_scalar(c as u32))
    }
}

/// How bytes are shown: each valid UTF-8 character as by [`escaped_char`],
/// each byte that starts none as `\ooo`.
pub open spec fn escaped_bytes(b: Seq<u8>, keep_utf8: bool) -> Seq<char>
    decreases b.len(),
{
    if b.len() == 0 {
        seq![]
    } else if valid_first_scalar(b) {
        escaped_char(decode_first_scalar(b) as char, keep_utf8) + escaped_bytes(
            b.subrange(length_of_first_scalar(b), b.len() as int),
            keep_utf8,
        )
    } else {
        octal_escape(b[0]) + escaped_bytes(b.drop_first(), keep_utf8)
    }
}

fn octal_digit_exec(d: u8) -> (r: char)
    requires
        d < 8,
    ensures
        r == octal_digit(d as int),
{
    if d == 0 {
        '0'
    } else if d == 1 {
        '1'
    } else if d == 2 {
        '2'
    } else if d == 3 {
        '3'
    } else if d == 4 {
        '4'
    } else if d == 5 {
        '5'
    } else if d == 6 {
        '6'
    } else {
        '7'
    }
}

fn push_octal(out: &mut String, b: u8)
    ensures
        final(out)@ == old(out)@ + octal_escape(b),
{
    push_char(out, '\\');
    push_char(out, octal_digit_exec(b / 64));
    push_char(out, octal_digit_exec((b / 8) % 8));
    push_char(out, octal_digit_exec(b % 8));
    assert(out@ =~= old(out)@ + octal_escape(b));
}

fn push_octals(out: &mut String, bs: &[u8])
    ensures
        final(out)@ == old(out)@ + octal_escapes(bs@),
{
    let mut i: usize = 0;
    assert(bs@.subrange(0, bs@.len() as int) =~= bs@);
    while i < bs.len()
        invariant
            i <= bs@.len(),
            out@ + octal_escapes(bs@.subrange(i as int, bs@.len() as int)) == old(out)@
                + octal_escapes(bs@),
        decreases bs@.len() - i,
    {
        let ghost rest = bs@.subrange(i as int, bs@.len() as int);
        assert(rest.drop_first() =~= bs@.subrange(i + 1, bs@.len() as int));
        let ghost before = out@;
        push_octal(out, bs[i]);
        assert(before + octal_escapes(rest) =~= out@ + octal_escapes(rest.drop_first()));
        i = i + 1;
    }
    assert(octal_escapes(bs@.subrange(i as int, bs@.len() as int)) =~= seq![]);
    assert(out@ + seq![] =~= out@);
}

/// The UTF-8 bytes of a scalar value.
fn encode_scalar_exec(u: u32) -> (r: Vec<u8>)
    requires
        is_scalar(u),
    ensures
        r@ == encode_scalar(u),
{
    let r = if u <= 0x7f {
        vec![(u & 0x7F) as u8]
    } else if u <= 0x7ff {
        vec![0xC0 | ((u >> 6) & 0x1F) as u8, 0x80 | (u & 0x3F) as u8]
    } else if u <= 0xffff {
        vec![0xE0 | ((u >> 12) & 0x0F) as u8, 0x80 | ((u >> 6) & 0x3F) as u8, 0x80 | (u & 0x3F) as u8]
    } else {
        vec![
            0xF0 | ((u >> 18) & 0x7) as u8,
            0x80 | ((u >> 12) & 0x3F) as u8,
            0x80 | ((u >> 6) & 0x3F) as u8,
            0x80 | (u & 0x3F) as u8,
        ]
    };
    assert(r@ =~= encode_scalar(u));
    r
}

/// Appends how `ch` is shown: ASCII controls as `\ooo`, `\` and `"`
/// escaped, visible UTF-8 kept when `keep_utf8` holds.
pub fn escape_char_octal(ch: char, out: &mut String, keep_utf8: bool)
    ensures
        final(out)@ == old(out)@ + escaped_char(ch, keep_utf8),
{
    let u = ch as u32;
    let control = u <= 0x1f || (0x7f <= u && u <= 0x9f);
    if u < 0x80 {
        if control {
            push_octal(out, u as u8);
        } else if ch == '\\' || ch == '"' {
            push_char(out, '\\');
            push_char(out, ch);
            assert(out@ =~= old(out)@ + seq!['\\', ch]);
        } else {
            push_char(out, ch);
            assert(out@ =~= old(out)@ + seq![ch]);
        }
    } else if keep_utf8 && !control {
        push_char(out, ch);
        assert(out@ =~= old(out)@ + seq![ch]);
    } else {
        proof {
            vstd::utf8::char_is_scalar(ch);
        }
        let bytes = encode_scalar_exec(u);
        push_octals(out, bytes.as_slice());
    }
}

/// The scalar that a valid UTF-8 encoding at `b[i..]` begins with, and its
/// length in bytes.
fn first_scalar_at(b: &[u8], i: usize) -> (r: Option<(u32, usize)>)
    requires
        i < b@.len(),
    ensures
        r is Some <==> valid_first_scalar(b@.subrange(i as int, b@.len() as int)),
        r matches Some((c, n)) ==> c == decode_first_scalar(b@.subrange(i as int, b@.len() as int))
            && n == length_of_first_scalar(b@.subrange(i as int, b@.len() as int)) && is_scalar(c),
{
    let ghost s = b@.subrange(i as int, b@.len() as int);
    let rest = b.len() - i;
    let b0 = b[i];
    assert(s[0] == b0);
    if b0 <= 0x7f {
        return Some(((b0 & 0x7F) as u32, 1));
    }
    if 0xc0 <= b0 && b0 <= 0xdf {
        if rest < 2 {
            return None;
        }
        let b1 = b[i + 1];
        assert(s[1] == b1);
        if !(0x80 <= b1 && b1 <= 0xbf) {
            return None;
        }
        let c = (((b0 & 0x1F) as u32) << 6) | ((b1 & 0x3f) as u32);
        assert(c < 0x800) by (bit_vector)
            requires
                c == (((b0 & 0x1F) as u32) << 6) | ((b1 & 0x3f) as u32),
        ;
        if c >= 0x80 {
            return Some((c, 2));
        }
        return None;
    }
    if 0xe0 <= b0 && b0 <= 0xef {
        if rest < 3 {
            return None;
        }
        let b1 = b[i + 1];
        let b2 = b[i + 2];
        assert(s[1] == b1 && s[2] == b2);
        if !(0x80 <= b1 && b1 <= 0xbf) || !(0x80 <= b2 && b2 <= 0xbf) {
            return None;
        }
        let c = (((b0 & 0x0F) as u32) << 12) | (((b1 & 0x3f) as u32) << 6) | ((b2 & 0x3f) as u32);
        assert(c < 0x10000) by (bit_vector)
            requires
                c == (((b0 & 0x0F) as u32) << 12) | (((b1 & 0x3f) as u32) << 6) | ((b2 & 0x3f) as u32),
        ;
        if c >= 0x800 && !(0xD800 <= c && c <= 0xDFFF) {
            return Some((c, 3));
        }
        return None;
    }
    if 0xf0 <= b0 && b0 <= 0xf7 {
        if rest < 4 {
            return None;
        }
        let b1 = b[i + 1];
        let b2 = b[i + 2];
        let b3 = b[i + 3];
        assert(s[1] == b1 && s[2] == b2 && s[3] == b3);
        if !(0x80 <= b1 && b1 <= 0xbf) || !(0x80 <= b2 && b2 <= 0xbf) || !(0x80 <= b3 && b3
            <= 0xbf) {
            return None;
        }
        let c = (((b0 & 0x07) as u32) << 18) | (((b1 & 0x3f) as u32) << 12) | (((b2 & 0x3f) as u32)
            << 6) | ((b3 & 0x3f) as u32);
        if 0x10000 <= c && c <= 0x10ffff && !(0xD800 <= c && c <= 0xDFFF) {
            return Some((c, 4));
        }
        return None;
    }
    None
}

/// Appends how `bytes` are shown: valid UTF-8 as by [`escape_char_octal`],
/// every other byte as `\ooo`.
pub fn escape_bytes_octal(bytes: &[u8], out: &mut String, keep_utf8: bool)
    ensures
        final(out)@ == old(out)@ + escaped_bytes(bytes@, keep_utf8),
{
    let mut i: usize = 0;
    assert(bytes@.subrange(0, bytes@.len() as int) =~= bytes@);
    while i < bytes.len()
        invariant
            i <= bytes@.len(),
            out@ + escaped_bytes(bytes@.subrange(i as int, bytes@.len() as int), keep_utf8)
                == old(out)@ + escaped_bytes(bytes@, keep_utf8),
        decreases bytes@.len() - i,
    {
        let ghost rest = bytes@.subrange(i as int, bytes@.len() as int);
        let ghost before = out@;
        match first_scalar_at(bytes, i) {
            Some((u, n)) => {
                let ch = match char_of(u) {
                    Some(c) => c,
                    None => {
                        return;
                    },
                };
                proof {
                    vstd::utf8::char_u32_cast(ch, u);
                    assert(rest.subrange(n as int, rest.len() as int) =~= bytes@.subrange(
                        i + n,
                        bytes@.len() as int,
                    ));
                }
                escape_char_octal(ch, out, keep_utf8);
                assert(before + escaped_bytes(rest, keep_utf8) =~= out@ + escaped_bytes(
                    bytes@.subrange(i + n, bytes@.len() as int),
                    keep_utf8,
                ));
                i = i + n;
            },
            None => {
                push_octal(out, bytes[i]);
                assert(rest.drop_first() =~= bytes@.subrange(i + 1, bytes@.len() as int));
                assert(before + escaped_bytes(rest, keep_utf8) =~= out@ + escaped_bytes(
                    bytes@.subrange(i + 1, bytes@.len() as int),
                    keep_utf8,
                ));
                i = i + 1;
            },
        }
    }
    assert(escaped_bytes(bytes@.subrange(i as int, bytes@.len() as int), keep_utf8) =~= seq![]);
    assert(out@ + seq![] =~= out@);
}

/// The lower-case hex digit of `d`, which is below 16.
pub open spec fn hex_digit(d: int) -> char {
    if d < 10 {
        ((48 + d) as u8) as char
    } else {
        ((87 + d) as u8) as char
    }
}

/// Each byte as two lower-case hex digits.
pub open spec fn hex_of(bs: Seq<u8>) -> Seq<char>
    decreases bs.len(),
{
    if bs.len() == 0 {
        seq![]
    } else {
        seq![hex_digit(bs[0] as int / 16), hex_digit(bs[0] as int % 16)] + hex_of(bs.drop_first())
    }
}

fn hex_digit_exec(d: u8) -> (r: char)
    requires
        d < 16,
    ensures
        r == hex_digit(d as int),
{
    if d < 10 {
        (48 + d) as char
    } else {
        (87 + d) as char
    }
}

/// Appends each byte as two lower-case hex digits: `xy` gives `7879`.
pub fn escape_bytes_hex(bytes: &[u8], out: &mut String)
    ensures
        final(out)@ == old(out)@ + hex_of(bytes@),
{
    let mut i: usize = 0;
    assert(bytes@.subrange(0, bytes@.len() as int) =~= bytes@);
    while i < bytes.len()
        invariant
            i <= bytes@.len(),
            out@ + hex_of(bytes@.subrange(i as int, bytes@.len() as int)) == old(out)@ + hex_of(
                bytes@,
            ),
        decreases bytes@.len() - i,
    {
        let ghost rest = bytes@.subrange(i as int, bytes@.len() as int);
        assert(rest.drop_first() =~= bytes@.subrange(i + 1, bytes@.len() as int));
        let ghost before = out@;
        let b = bytes[i];
        push_char(out, hex_digit_exec(b / 16));
        push_char(out, hex_digit_exec(b % 16));
        assert(before + hex_of(rest) =~= out@ + hex_of(rest.drop_first()));
        i = i + 1;
    }
    assert(hex_of(bytes@.subrange(i as int, bytes@.len() as int)) =~= seq![]);
    assert(out@ + seq![] =~= out@);
}

/// The character of a 6-bit value in the standard base64 alphabet.
pub open spec fn base64_char(v: int) -> char {
    if v < 26 {
        ((65 + v) as u8) as char
    } else if v < 52 {
        ((71 + v) as u8) as char
    } else if v < 62 {
        ((v - 4) as u8) as char
    } else if v == 62 {
        '+'
    } else {
        '/'
    }
}

/// The standard, padded base64 text of `b`: each three bytes as four
/// characters of six bits each, a last one or two bytes padded with `=`.
pub open spec fn base64_text(b: Seq<u8>) -> Seq<char>
    decreases b.len(),
{
    let x = if b.len() > 0 {
        b[0] as int
    } else {
        0
    };
    let y = if b.len() > 1 {
        b[1] as int
    } else {
        0
    };
    let z = if b.len() > 2 {
        b[2] as int
    } else {
        0
    };
    if b.len() == 0 {
        seq![]
    } else if b.len() == 1 {
        seq![base64_char(x / 4), base64_char((x % 4) * 16), '=', '=']
    } else if b.len() == 2 {
        seq![base64_char(x / 4), base64_char((x % 4) * 16 + y / 16), base64_char((y % 16) * 4), '=']
    } else {
        seq![
            base64_char(x / 4),
            base64_char((x % 4) * 16 + y / 16),
            base64_char((y % 16) * 4 + z / 64),
            base64_char(z % 64),
        ] + base64_text(b.subrange(3, b.len() as int))
    }
}

/// What the standard, padded base64 text `s` decodes to; `None` where it
/// is not valid base64.
pub uninterp spec fn base64_bytes(s: Seq<u8>) -> Option<Seq<u8>>;

/// Relies on base64's `STANDARD.encode`: the standard alphabet with `=`
/// padding. Longer inputs would overflow the size computation, which panics.
#[verifier::external_body]
fn base64_encode(b: &[u8]) -> (r: String)
    requires
        b@.len() <= usize::MAX / 2,
    ensures
        r@ == base64_text(b@),
{
    base64::engine::general_purpose::STANDARD.encode(b)
}

/// Relies on base64's `STANDARD.decode`: the result depends on the text
/// alone.
#[verifier::external_body]
fn base64_decode(s: &[u8]) -> (r: Option<Vec<u8>>)
    ensures
        r matches Some(v) ==> base64_bytes(s@) == Some(v@),
        r is None ==> base64_bytes(s@) is None,
{
    base64::engine::general_purpose::STANDARD.decode(s).ok()
}

/// Appends the standard, padded base64 text of `bytes`.
pub fn escape_bytes_base64(bytes: &[u8], out: &mut String)
    requires
        bytes@.len() <= usize::MAX / 2,
    ensures
        final(out)@ == old(out)@ + base64_text(bytes@),
{
    let text = base64_encode(bytes);
    let chars = chars_of(text.as_str());
    push_chars(out, chars.as_slice());
}

/// The value of an ASCII hex digit.
pub open spec fn hex_value(c: u8) -> Option<u8> {
    if 48 <= c <= 57 {
        Some((c - 48) as u8)
    } else if 97 <= c <= 102 {
        Some((c - 87) as u8)
    } else if 65 <= c <= 70 {
        Some((c - 55) as u8)
    } else {
        None
    }
}

/// The value of an ASCII octal digit.
pub open spec fn octal_value(c: u8) -> Option<u8> {
    if 48 <= c <= 55 {
        Some((c - 48) as u8)
    } else {
        None
    }
}

/// A two-character hex number as `u8::from_str_radix` reads it: two digits,
/// or `+` and one digit.
pub open spec fn hex_pair(a: u8, b: u8) -> Option<u8> {
    match (hex_value(a), hex_value(b)) {
        (Some(x), Some(y)) => Some((x * 16 + y) as u8),
        (None, Some(y)) => if a == 43 {
            Some(y)
        } else {
            None
        },
        _ => None,
    }
}

/// A three-character octal number as `u8::from_str_radix` reads it: three
/// digits worth at most 255, or `+` and two digits.
pub open spec fn octal_triple(a: u8, b: u8, c: u8) -> Option<u8> {
    match (octal_value(a), octal_value(b), octal_value(c)) {
        (Some(x), Some(y), Some(z)) => if x * 64 + y * 8 + z <= 255 {
            Some((x * 64 + y * 8 + z) as u8)
        } else {
            None
        },
        (None, Some(y), Some(z)) => if a == 43 {
            Some((y * 8 + z) as u8)
        } else {
            None
        },
        _ => None,
    }
}

/// The bytes that pairs of hex digits give; `None` for an odd length or a
/// bad pair.
pub open spec fn unhex(b: Seq<u8>) -> Option<Seq<u8>>
    decreases b.len(),
{
    if b.len() == 0 {
        Some(seq![])
    } else if b.len() == 1 {
        None
    } else {
        match (hex_pair(b[0], b[1]), unhex(b.subrange(2, b.len() as int))) {
            (Some(x), Some(rest)) => Some(seq![x] + rest),
            _ => None,
        }
    }
}

/// The bytes an octal-escaped text gives: `"` and `\` stand for the
/// character, `\ooo` for a byte, anything else for itself; `None` for a
/// backslash followed by none of these.
pub open spec fn unoctal(b: Seq<u8>) -> Option<Seq<u8>>
    decreases b.len(),
{
    if b.len() == 0 {
        Some(seq![])
    } else if b[0] != 92 {
        match unoctal(b.drop_first()) {
            Some(rest) => Some(seq![b[0]] + rest),
            None => None,
        }
    } else if b.len() >= 2 && (b[1] == 34 || b[1] == 92) {
        match unoctal(b.subrange(2, b.len() as int)) {
            Some(rest) => Some(seq![b[1]] + rest),
            None => None,
        }
    } else if b.len() >= 4 && octal_triple(b[1], b[2], b[3]) is Some {
        match unoctal(b.subrange(4, b.len() as int)) {
            Some(rest) => Some(seq![octal_triple(b[1], b[2], b[3])->Some_0] + rest),
            None => None,
        }
    } else {
        None
    }
}

fn hex_value_exec(c: u8) -> (r: Option<u8>)
    ensures
        r == hex_value(c),
{
    if 48 <= c && c <= 57 {
        Some(c - 48)
    } else if 97 <= c && c <= 102 {
        Some(c - 87)
    } else if 65 <= c && c <= 70 {
        Some(c - 55)
    } else {
        None
    }
}

fn octal_value_exec(c: u8) -> (r: Option<u8>)
    ensures
        r == octal_value(c),
{
    if 48 <= c && c <= 55 {
        Some(c - 48)
    } else {
        None
    }
}

fn hex_pair_exec(a: u8, b: u8) -> (r: Option<u8>)
    ensures
        r == hex_pair(a, b),
{
    match (hex_value_exec(a), hex_value_exec(b)) {
        (Some(x), Some(y)) => Some(x * 16 + y),
        (None, Some(y)) => if a == 43 {
            Some(y)
        } else {
            None
        },
        _ => None,
    }
}

fn octal_triple_exec(a: u8, b: u8, c: u8) -> (r: Option<u8>)
    ensures
        r == octal_triple(a, b, c),
{
    match (octal_value_exec(a), octal_value_exec(b), octal_value_exec(c)) {
        (Some(x), Some(y), Some(z)) => {
            let v = (x as u32) * 64 + (y as u32) * 8 + (z as u32);
            if v <= 255 {
                Some(v as u8)
            } else {
                None
            }
        },
        (None, Some(y), Some(z)) => if a == 43 {
            Some(y * 8 + z)
        } else {
            None
        },
        _ => None,
    }
}

/// Reads pairs of hex digits.
pub fn unescape_hex(value: &str) -> (r: Result<Vec<u8>, ()>)
    ensures
        r is Ok <==> unhex(value.spec_bytes()) is Some,
        r matches Ok(v) ==> unhex(value.spec_bytes()) == Some(v@),
{
    unhex_bytes(value.as_bytes())
}

fn unhex_bytes(b: &[u8]) -> (r: Result<Vec<u8>, ()>)
    ensures
        r is Ok <==> unhex(b@) is Some,
        r matches Ok(v) ==> unhex(b@) == Some(v@),
{
    if b.len() % 2 != 0 {
        proof {
            lemma_unhex_odd(b@);
        }
        return Err(());
    }
    let mut out: Vec<u8> = Vec::new();
    let mut i: usize = 0;
    assert(b@.subrange(0, b@.len() as int) =~= b@);
    assert(out@ + seq![] =~= out@);
    while i < b.len()
        invariant
            i <= b@.len(),
            b@.len() % 2 == 0,
            i % 2 == 0,
            unhex(b@) == match unhex(b@.subrange(i as int, b@.len() as int)) {
                Some(rest) => Some(out@ + rest),
                None => None::<Seq<u8>>,
            },
        decreases b@.len() - i,
    {
        let ghost rest = b@.subrange(i as int, b@.len() as int);
        assert(rest.subrange(2, rest.len() as int) =~= b@.subrange(i + 2, b@.len() as int));
        assert(rest[0] == b[i as int] && rest[1] == b[i + 1]);
        match hex_pair_exec(b[i], b[i + 1]) {
            Some(x) => {
                let ghost before = out@;
                out.push(x);
                proof {
                    if let Some(t) = unhex(b@.subrange(i + 2, b@.len() as int)) {
                        assert(before + (seq![x] + t) =~= out@ + t);
                    }
                }
            },
            None => {
                return Err(());
            },
        }
        i = i + 2;
    }
    assert(b@.subrange(i as int, b@.len() as int) =~= seq![]);
    assert(out@ + seq![] =~= out@);
    Ok(out)
}

proof fn lemma_unhex_odd(b: Seq<u8>)
    requires
        b.len() % 2 == 1,
    ensures
        unhex(b) is None,
    decreases b.len(),
{
    if b.len() > 1 {
        lemma_unhex_odd(b.subrange(2, b.len() as int));
    }
}

/// Reads octal escapes: `"`, `\` and `\ooo`.
pub fn unescape_octal(value: &str) -> (r: Result<Vec<u8>, ()>)
    ensures
        r is Ok <==> unoctal(value.spec_bytes()) is Some,
        r matches Ok(v) ==> unoctal(value.spec_bytes()) == Some(v@),
{
    let b = value.as_bytes();
    let mut out: Vec<u8> = Vec::new();
    let mut i: usize = 0;
    assert(b@.subrange(0, b@.len() as int) =~= b@);
    assert(out@ + seq![] =~= out@);
    while i < b.len()
        invariant
            i <= b@.len(),
            b@ == value.spec_bytes(),
            unoctal(b@) == match unoctal(b@.subrange(i as int, b@.len() as int)) {
                Some(rest) => Some(out@ + rest),
                None => None::<Seq<u8>>,
            },
        decreases b@.len() - i,
    {
        let ghost rest = b@.subrange(i as int, b@.len() as int);
        let ghost before = out@;
        let c = b[i];
        assert(rest[0] == c);
        let step: usize;
        if c != 92 {
            out.push(c);
            step = 1;
            assert(rest.drop_first() =~= b@.subrange(i + 1, b@.len() as int));
        } else if b.len() - i >= 2 && (b[i + 1] == 34 || b[i + 1] == 92) {
            assert(rest[1] == b[i + 1]);
            out.push(b[i + 1]);
            step = 2;
            assert(rest.subrange(2, rest.len() as int) =~= b@.subrange(i + 2, b@.len() as int));
        } else {
            if b.len() - i < 4 {
                return Err(());
            }
            assert(rest[1] == b[i + 1] && rest[2] == b[i + 2] && rest[3] == b[i + 3]);
            match octal_triple_exec(b[i + 1], b[i + 2], b[i + 3]) {
                Some(x) => {
                    out.push(x);
                    step = 4;
                    assert(rest.subrange(4, rest.len() as int) =~= b@.subrange(
                        i + 4,
                        b@.len() as int,
                    ));
                },
                None => {
                    return Err(());
                },
            }
        }
        proof {
            let tail = b@.subrange(i + step, b@.len() as int);
            if let Some(t) = unoctal(tail) {
                assert(before + (seq![out@.last()] + t) =~= out@ + t);
            }
        }
        i = i + step;
    }
    assert(b@.subrange(i as int, b@.len() as int) =~= seq![]);
    assert(out@ + seq![] =~= out@);
    Ok(out)
}

/// Whether `b` starts with `0` followed by `x` or `y`.
fn starts_0(b: &[u8], x: u8, y: u8) -> (r: bool)
    ensures
        r == (b@.len() >= 2 && b@[0] == 48 && (b@[1] == x || b@[1] == y)),
{
    b.len() >= 2 && b[0] == 48 && (b[1] == x || b[1] == y)
}

/// The bytes a value given on the command line stands for: `0s...` is
/// base64, `0x...` hex digits, anything else octal escapes.
pub fn unescape(value: &str) -> (r: Option<Vec<u8>>)
    ensures
        ({
            let b = value.spec_bytes();
            let opt = match r {
                Some(v) => Some(v@),
                None => None,
            };
            if b.len() >= 2 && b[0] == 48 && (b[1] == 115 || b[1] == 83) {
                opt == base64_bytes(b.subrange(2, b.len() as int))
            } else if b.len() >= 2 && b[0] == 48 && (b[1] == 120 || b[1] == 88) {
                opt == unhex(b.subrange(2, b.len() as int))
            } else {
                opt == unoctal(b)
            }
        }),
{
    let b = value.as_bytes();
    if starts_0(b, 115, 83) {
        let rest = copy_range(b, 2, b.len());
        base64_decode(rest.as_slice())
    } else if starts_0(b, 120, 88) {
        let rest = copy_range(b, 2, b.len());
        match unhex_bytes(rest.as_slice()) {
            Ok(v) => Some(v),
            Err(_) => None,
        }
    } else {
        match unescape_octal(value) {
            Ok(v) => Some(v),
            Err(_) => None,
        }
    }
}

} // verus!
