//! UTF-8 and UTF-16 as far as the converters need them.

use vstd::prelude::*;
use vstd::utf8::{encode_scalar, encode_utf8, is_scalar};

verus! {

/// Whether `u` is a UTF-16 surrogate code unit.
pub open spec fn is_surrogate(u: u16) -> bool {
    0xD800 <= u <= 0xDFFF
}

/// The character that a code unit outside the surrogate range stands for.
pub open spec fn unit_to_char(u: u16) -> char {
    u as u32 as char
}

/// The text that code units outside the surrogate range stand for.
pub open spec fn units_to_chars(units: Seq<u16>) -> Seq<char> {
    Seq::new(units.len(), |i: int| unit_to_char(units[i]))
}

/// The UTF-8 form of a text is the UTF-8 form of its parts, one after the other.
pub proof fn lemma_encode_utf8_concat(a: Seq<char>, b: Seq<char>)
    ensures
        encode_utf8(a + b) == encode_utf8(a) + encode_utf8(b),
    decreases a.len(),
{
    if a.len() == 0 {
        assert(a + b =~= b);
        assert(encode_utf8(a) + encode_utf8(b) =~= encode_utf8(b));
    } else {
        lemma_encode_utf8_concat(a.drop_first(), b);
        assert((a + b).drop_first() =~= a.drop_first() + b);
        assert(encode_scalar(a[0] as u32) + (encode_utf8(a.drop_first()) + encode_utf8(b))
            =~= (encode_scalar(a[0] as u32) + encode_utf8(a.drop_first())) + encode_utf8(b));
    }
}

/// The UTF-8 form of a text with one more character at its end.
pub proof fn lemma_encode_utf8_push(s: Seq<char>, c: char)
    ensures
        encode_utf8(s.push(c)) == encode_utf8(s) + encode_scalar(c as u32),
{
    lemma_encode_utf8_concat(s, seq![c]);
    assert(s.push(c) =~= s + seq![c]);
    assert(seq![c].drop_first() =~= Seq::<char>::empty());
    assert(encode_utf8(seq![c]) =~= encode_scalar(c as u32)) by {
        reveal_with_fuel(encode_utf8, 2);
    }
}

/// Writes the UTF-8 form of `unit`, a code unit outside the surrogate range,
/// into `dst` from position `at` on, and returns its length.
pub fn write_utf8(dst: &mut [u8], at: usize, unit: u16) -> (n: usize)
    requires
        !is_surrogate(unit),
        at + 3 <= old(dst)@.len(),
    ensures
        n == encode_scalar(unit as u32).len(),
        1 <= n <= 3,
        final(dst)@.len() == old(dst)@.len(),
        forall|k: int| 0 <= k < at ==> (#[trigger] final(dst)@[k]) == old(dst)@[k],
        forall|k: int|
            at <= k < at + n ==> (#[trigger] final(dst)@[k]) == encode_scalar(unit as u32)[k - at],
        forall|k: int|
            at + n <= k < old(dst)@.len() ==> (#[trigger] final(dst)@[k]) == old(dst)@[k],
{
    let ghost scalar: u32 = unit as u32;
    if unit < 0x80 {
        let b0: u8 = unit as u8;
        assert(b0 == (scalar & 0x7F) as u8) by (bit_vector)
            requires
                scalar < 0x80,
                b0 == scalar as u8,
        ;
        dst[at] = b0;
        1
    } else if unit < 0x800 {
        let b0: u8 = 0xC0u8 | ((unit >> 6) as u8);
        let b1: u8 = 0x80u8 | ((unit & 0x3F) as u8);
        assert(b0 == 0xC0u8 | ((scalar >> 6) & 0x1F) as u8 && b1 == 0x80u8 | (scalar & 0x3F) as u8)
            by (bit_vector)
            requires
                unit < 0x800,
                scalar == unit as u32,
                b0 == 0xC0u8 | ((unit >> 6) as u8),
                b1 == 0x80u8 | ((unit & 0x3F) as u8),
        ;
        dst[at] = b0;
        dst[at + 1] = b1;
        2
    } else {
        let b0: u8 = 0xE0u8 | ((unit >> 12) as u8);
        let b1: u8 = 0x80u8 | (((unit >> 6) & 0x3F) as u8);
        let b2: u8 = 0x80u8 | ((unit & 0x3F) as u8);
        assert(b0 == 0xE0u8 | ((scalar >> 12) & 0x0F) as u8 && b1 == 0x80u8 | ((scalar >> 6)
            & 0x3F) as u8 && b2 == 0x80u8 | (scalar & 0x3F) as u8) by (bit_vector)
            requires
                scalar == unit as u32,
                b0 == 0xE0u8 | ((unit >> 12) as u8),
                b1 == 0x80u8 | (((unit >> 6) & 0x3F) as u8),
                b2 == 0x80u8 | ((unit & 0x3F) as u8),
        ;
        dst[at] = b0;
        dst[at + 1] = b1;
        dst[at + 2] = b2;
        3
    }
}

/// The number of bytes that `c` takes in UTF-8.
pub fn utf8_len(c: char) -> (n: usize)
    ensures
        n == encode_scalar(c as u32).len(),
        1 <= n <= 4,
{
    let point: u32 = c as u32;
    if point < 0x80 {
        1
    } else if point < 0x800 {
        2
    } else if point < 0x10000 {
        3
    } else {
        4
    }
}

/// `char::from_u32` of the standard library: the character whose scalar
/// value is `i`, and `None` where `i` is no Unicode scalar value, that is a
/// surrogate or a number above `0x10FFFF`.
pub assume_specification[ char::from_u32 ](i: u32) -> (c: Option<char>)
    ensures
        c == (if is_scalar(i) {
            Some(i as char)
        } else {
            None::<char>
        }),
;

/// Whether `u` is a high (leading) surrogate.
pub open spec fn is_high_surrogate(u: u16) -> bool {
    0xD800 <= u <= 0xDBFF
}

/// Whether `u` is a low (trailing) surrogate.
pub open spec fn is_low_surrogate(u: u16) -> bool {
    0xDC00 <= u <= 0xDFFF
}

/// Whether `s` begins with a surrogate pair.
pub open spec fn starts_with_pair(s: Seq<u16>) -> bool {
    s.len() >= 2 && is_high_surrogate(s[0]) && is_low_surrogate(s[1])
}

/// The number of code units that the first character of `s` takes.
pub open spec fn utf16_first_len(s: Seq<u16>) -> int {
    if starts_with_pair(s) {
        2
    } else {
        1
    }
}

/// The first character of a non-empty `s`: a surrogate pair stands for a
/// character beyond the Basic Multilingual Plane, a surrogate without its
/// partner is read as U+FFFD, and any other code unit stands for itself.
pub open spec fn utf16_first_char(s: Seq<u16>) -> char {
    if starts_with_pair(s) {
        ((0x10000 + (s[0] - 0xD800) * 0x400 + (s[1] - 0xDC00)) as u32) as char
    } else if is_surrogate(s[0]) {
        '\u{FFFD}'
    } else {
        unit_to_char(s[0])
    }
}

/// The text that the code units `s` stand for.
pub open spec fn decode_utf16(s: Seq<u16>) -> Seq<char>
    decreases s.len(),
{
    if s.len() == 0 {
        Seq::empty()
    } else {
        seq![utf16_first_char(s)] + decode_utf16(s.subrange(utf16_first_len(s), s.len() as int))
    }
}

/// The number of UTF-16 code units that `c` takes.
pub open spec fn char_utf16_len(c: char) -> int {
    if c as u32 >= 0x10000 {
        2
    } else {
        1
    }
}

/// The number of UTF-16 code units that `text` takes.
pub open spec fn utf16_len(text: Seq<char>) -> int
    decreases text.len(),
{
    if text.len() == 0 {
        0
    } else {
        utf16_len(text.drop_last()) + char_utf16_len(text.last())
    }
}

/// Reads the character that begins at position `at` of `src`, and returns it
/// with the number of code units it takes.
pub fn read_utf16(src: &[u16], at: usize) -> (r: (char, usize))
    requires
        at < src@.len(),
    ensures
        r.0 == utf16_first_char(src@.subrange(at as int, src@.len() as int)),
        r.1 == utf16_first_len(src@.subrange(at as int, src@.len() as int)),
        r.1 == char_utf16_len(r.0),
        at + r.1 <= src@.len(),
{
    let ghost rest = src@.subrange(at as int, src@.len() as int);
    assert(rest[0] == src@[at as int]);
    let unit: u16 = src[at];
    if unit < 0xD800 || unit > 0xDFFF {
        (char::from_u32(unit as u32).unwrap(), 1)
    } else if unit <= 0xDBFF && at + 1 < src.len() && 0xDC00 <= src[at + 1] && src[at + 1]
        <= 0xDFFF {
        assert(rest[1] == src@[at + 1]);
        let high: u32 = (unit - 0xD800) as u32;
        let low: u32 = (src[at + 1] - 0xDC00) as u32;
        (char::from_u32(0x10000 + high * 0x400 + low).unwrap(), 2)
    } else {
        assert(!starts_with_pair(rest)) by {
            if rest.len() >= 2 {
                assert(rest[1] == src@[at + 1]);
            }
        }
        ('\u{FFFD}', 1)
    }
}

} // verus!
