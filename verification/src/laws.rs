//! What holds between decoding and encoding under any mapping table.

use crate::table::{
    decode_byte, decoded, decoded_utf8, decodes_to, encode_char, encoded, is_lowest_byte,
    lemma_encode_ascii, lemma_encode_char_some, lemma_lowest_byte_exists, valid_table,
};
use crate::unicode::{lemma_encode_utf8_concat, unit_to_char, units_to_chars};
use vstd::prelude::*;

verus! {

/// ASCII is a fixed point in both directions: a byte below `0x80` decodes to
/// the code unit of the same value, and the character of that value encodes
/// back to the byte.
pub proof fn law_ascii_identity(table: Seq<u16>, b: u8)
    requires
        b < 0x80,
    ensures
        decode_byte(table, b) == Some(b as u16),
        encode_char(table, b as char) == Some(b),
{
    lemma_encode_ascii(table, b as char);
}

/// A byte from `0x80` upward whose table entry is not 0 decodes to that
/// entry. Encoding the entry's character gives the lowest byte that decodes
/// to it: the byte itself, or a lower one with the same entry.
pub proof fn law_decode_then_encode(table: Seq<u16>, b: u8)
    requires
        valid_table(table),
        b >= 0x80,
        table[b - 0x80] != 0,
    ensures
        decode_byte(table, b) == Some(table[b - 0x80]),
        encode_char(table, unit_to_char(table[b - 0x80])) is Some,
        encode_char(table, unit_to_char(table[b - 0x80])).unwrap() <= b,
        is_lowest_byte(
            table,
            unit_to_char(table[b - 0x80]),
            encode_char(table, unit_to_char(table[b - 0x80])).unwrap(),
        ),
        decode_byte(table, encode_char(table, unit_to_char(table[b - 0x80])).unwrap())
            == decode_byte(table, b),
{
    let c = unit_to_char(table[b - 0x80]);
    assert(decodes_to(table, b, c));
    let lowest = lemma_lowest_byte_exists(table, c, b);
    lemma_encode_char_some(table, c, lowest);
}

/// Where no other byte shares its entry, a mapped byte from `0x80` upward
/// comes back from decoding and encoding unchanged.
pub proof fn law_round_trip_byte(table: Seq<u16>, b: u8)
    requires
        valid_table(table),
        b >= 0x80,
        table[b - 0x80] != 0,
        forall|j: int| 0 <= j < b - 0x80 ==> #[trigger] table[j] != table[b - 0x80],
    ensures
        encode_char(table, unit_to_char(table[b - 0x80])) == Some(b),
{
    let c = unit_to_char(table[b - 0x80]);
    assert(decodes_to(table, b, c));
    assert forall|lower: u8| lower < b implies !#[trigger] decodes_to(table, lower, c) by {
        if lower >= 0x80 {
            assert(table[lower - 0x80] != table[b - 0x80]);
        }
    }
    lemma_encode_char_some(table, c, b);
}

/// Decoding what a character encodes to gives the character back.
pub proof fn law_encode_then_decode(table: Seq<u16>, c: char)
    requires
        encode_char(table, c) is Some,
    ensures
        decode_byte(table, encode_char(table, c).unwrap()) is Some,
        unit_to_char(decode_byte(table, encode_char(table, c).unwrap()).unwrap()) == c,
{
    let b = encode_char(table, c).unwrap();
    assert(is_lowest_byte(table, c, b));
    assert(decodes_to(table, b, c));
}

/// A byte from `0x80` upward whose table entry is 0 does not decode.
pub proof fn law_unmapped_byte(table: Seq<u16>, b: u8)
    requires
        b >= 0x80,
        table[b - 0x80] == 0,
    ensures
        decode_byte(table, b) is None,
{
}

/// Decoding can be done in parts: what the bytes of `first` and then the
/// bytes of `rest` decode to is what the joined input decodes to, in code
/// units and in UTF-8.
pub proof fn law_decode_in_parts(table: Seq<u16>, first: Seq<u8>, rest: Seq<u8>)
    ensures
        decoded(table, first + rest) == decoded(table, first) + decoded(table, rest),
        decoded_utf8(table, first + rest) == decoded_utf8(table, first) + decoded_utf8(
            table,
            rest,
        ),
{
    assert(decoded(table, first + rest) =~= decoded(table, first) + decoded(table, rest));
    assert(units_to_chars(decoded(table, first + rest)) =~= units_to_chars(decoded(table, first))
        + units_to_chars(decoded(table, rest)));
    lemma_encode_utf8_concat(
        units_to_chars(decoded(table, first)),
        units_to_chars(decoded(table, rest)),
    );
}

/// Encoding can be done in parts: what the characters of `first` and then
/// the characters of `rest` encode to is what the joined text encodes to.
pub proof fn law_encode_in_parts(table: Seq<u16>, first: Seq<char>, rest: Seq<char>)
    ensures
        encoded(table, first + rest) == encoded(table, first) + encoded(table, rest),
{
    assert(encoded(table, first + rest) =~= encoded(table, first) + encoded(table, rest));
}

} // verus!
