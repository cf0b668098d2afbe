//! The mapping table of a single-byte encoding and what it means.

use crate::unicode::{is_surrogate, lemma_encode_utf8_push, unit_to_char, units_to_chars};
use vstd::prelude::*;
use vstd::utf8::{encode_scalar, encode_utf8};

verus! {

/// A mapping table has 128 entries, one for each byte from `0x80` to `0xFF`,
/// in that order. An entry is 0 for a byte without a Unicode
/// equivalent, and otherwise a code point of the Basic Multilingual Plane that
/// is neither ASCII nor a surrogate.
pub open spec fn valid_table(table: Seq<u16>) -> bool {
    &&& table.len() == 128
    &&& forall|i: int|
        0 <= i < 128 ==> #[trigger] table[i] == 0 || (table[i] >= 0x80 && !is_surrogate(table[i]))
}

/// The code unit that byte `b` decodes to, or `None` where the table leaves
/// the byte unmapped. Bytes below `0x80` are ASCII and decode to themselves.
pub open spec fn decode_byte(table: Seq<u16>, b: u8) -> Option<u16> {
    if b < 0x80 {
        Some(b as u16)
    } else if table[b - 0x80] == 0 {
        None
    } else {
        Some(table[b - 0x80])
    }
}

/// Whether the first `n` bytes of `src` all have a Unicode equivalent.
pub open spec fn all_mapped(table: Seq<u16>, src: Seq<u8>, n: int) -> bool {
    forall|i: int| 0 <= i < n ==> (#[trigger] decode_byte(table, src[i])) is Some
}

/// The code units that the bytes of `src` decode to, one for each byte.
pub open spec fn decoded(table: Seq<u16>, src: Seq<u8>) -> Seq<u16>
    recommends
        all_mapped(table, src, src.len() as int),
{
    Seq::new(src.len(), |i: int| decode_byte(table, src[i]).unwrap())
}

/// The UTF-8 form of the text that the bytes of `src` decode to.
pub open spec fn decoded_utf8(table: Seq<u16>, src: Seq<u8>) -> Seq<u8>
    recommends
        valid_table(table),
        all_mapped(table, src, src.len() as int),
{
    encode_utf8(units_to_chars(decoded(table, src)))
}

/// What a byte decodes to under a valid table is a code point of its own: no
/// surrogate, and ASCII exactly where the byte is below `0x80`.
pub proof fn lemma_decoded_unit(table: Seq<u16>, b: u8)
    requires
        valid_table(table),
        decode_byte(table, b) is Some,
    ensures
        !is_surrogate(decode_byte(table, b).unwrap()),
        b < 0x80 <==> decode_byte(table, b).unwrap() < 0x80,
        unit_to_char(decode_byte(table, b).unwrap()) as u32 == decode_byte(table, b).unwrap(),
{
    if b >= 0x80 {
        assert(table[b - 0x80] != 0);
    }
}

/// Decoding one more mapped byte appends the UTF-8 form of its code point.
pub proof fn lemma_decoded_utf8_step(table: Seq<u16>, src: Seq<u8>, i: int)
    requires
        valid_table(table),
        0 <= i < src.len(),
        decode_byte(table, src[i]) is Some,
    ensures
        decoded_utf8(table, src.subrange(0, i + 1)) == decoded_utf8(table, src.subrange(0, i))
            + encode_scalar(decode_byte(table, src[i]).unwrap() as u32),
{
    let unit = decode_byte(table, src[i]).unwrap();
    let shorter = units_to_chars(decoded(table, src.subrange(0, i)));
    lemma_decoded_unit(table, src[i]);
    lemma_encode_utf8_push(shorter, unit_to_char(unit));
    assert(units_to_chars(decoded(table, src.subrange(0, i + 1))) =~= shorter.push(
        unit_to_char(unit),
    ));
}

/// Whether byte `b` decodes to the character `c`.
pub open spec fn decodes_to(table: Seq<u16>, b: u8, c: char) -> bool {
    decode_byte(table, b) is Some && decode_byte(table, b).unwrap() as u32 == c as u32
}

/// Whether `b` is the lowest byte that decodes to the character `c`.
pub open spec fn is_lowest_byte(table: Seq<u16>, c: char, b: u8) -> bool {
    &&& decodes_to(table, b, c)
    &&& forall|lower: u8| lower < b ==> !#[trigger] decodes_to(table, lower, c)
}

/// The byte that the character `c` encodes to: the lowest byte that decodes
/// to `c`, or `None` where no byte does.
pub open spec fn encode_char(table: Seq<u16>, c: char) -> Option<u8> {
    if exists|b: u8| is_lowest_byte(table, c, b) {
        Some(choose|b: u8| is_lowest_byte(table, c, b))
    } else {
        None
    }
}

/// The lowest byte that decodes to `c` is what `c` encodes to.
pub proof fn lemma_encode_char_some(table: Seq<u16>, c: char, b: u8)
    requires
        is_lowest_byte(table, c, b),
    ensures
        encode_char(table, c) == Some(b),
{
    let chosen = choose|b: u8| is_lowest_byte(table, c, b);
    if chosen < b {
        assert(decodes_to(table, chosen, c));
    } else if b < chosen {
        assert(decodes_to(table, b, c));
    }
}

/// A character that no byte decodes to has no encoding.
pub proof fn lemma_encode_char_none(table: Seq<u16>, c: char)
    requires
        forall|b: u8| !#[trigger] decodes_to(table, b, c),
    ensures
        encode_char(table, c) is None,
{
}

/// An ASCII character encodes to the byte of its own value.
pub proof fn lemma_encode_ascii(table: Seq<u16>, c: char)
    requires
        (c as u32) < 0x80,
    ensures
        encode_char(table, c) == Some(c as u8),
{
    let b = c as u8;
    assert(decodes_to(table, b, c));
    assert forall|lower: u8| lower < b implies !#[trigger] decodes_to(table, lower, c) by {}
    lemma_encode_char_some(table, c, b);
}

/// Where some byte decodes to `c`, a lowest such byte exists.
pub proof fn lemma_lowest_byte_exists(table: Seq<u16>, c: char, b: u8) -> (lowest: u8)
    requires
        decodes_to(table, b, c),
    ensures
        lowest <= b,
        is_lowest_byte(table, c, lowest),
    decreases b,
{
    if forall|lower: u8| lower < b ==> !#[trigger] decodes_to(table, lower, c) {
        b
    } else {
        let lower = choose|lower: u8| lower < b && decodes_to(table, lower, c);
        lemma_lowest_byte_exists(table, c, lower)
    }
}

/// Whether the first `n` characters of `text` all have a byte in the encoding.
pub open spec fn all_encodable(table: Seq<u16>, text: Seq<char>, n: int) -> bool {
    forall|i: int| 0 <= i < n ==> (#[trigger] encode_char(table, text[i])) is Some
}

/// The bytes that the characters of `text` encode to, one for each character.
pub open spec fn encoded(table: Seq<u16>, text: Seq<char>) -> Seq<u8>
    recommends
        all_encodable(table, text, text.len() as int),
{
    Seq::new(text.len(), |i: int| encode_char(table, text[i]).unwrap())
}

/// Checks that `table` is a valid mapping table.
pub fn is_valid_table(table: &[u16; 128]) -> (ok: bool)
    ensures
        ok == valid_table(table@),
{
    let mut i: usize = 0;
    while i < 128
        invariant
            i <= 128,
            table@.len() == 128,
            forall|j: int|
                0 <= j < i ==> #[trigger] table@[j] == 0 || (table@[j] >= 0x80 && !is_surrogate(
                    table@[j],
                )),
        decreases 128 - i,
    {
        let u: u16 = table[i];
        if u != 0 && (u < 0x80 || (0xD800 <= u && u <= 0xDFFF)) {
            return false;
        }
        i += 1;
    }
    true
}

} // verus!
