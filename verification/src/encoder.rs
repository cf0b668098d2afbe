//! Encoding Unicode text to bytes of a single-byte encoding.

use crate::identity::Encoding;
use crate::outcome::EncoderResult;
use crate::table::{
    all_encodable, decodes_to, encode_char, encoded, lemma_encode_ascii, lemma_encode_char_none,
    lemma_encode_char_some, valid_table,
};
use crate::unicode::{
    decode_utf16, lemma_encode_utf8_concat, lemma_encode_utf8_push, read_utf16, utf16_first_len,
    utf16_len, utf8_len,
};
use std::collections::HashMap;
use vstd::prelude::*;
use vstd::std_specs::iter::IteratorSpec;
use vstd::utf8::encode_utf8;

verus! {

broadcast use vstd::std_specs::hash::group_hash_axioms;

/// Whether `reverse` inverts the first `n` entries of `table`: it holds
/// exactly the code units found there, each with the lowest byte that maps to it.
spec fn reverse_of(table: Seq<u16>, reverse: Map<u16, u8>, n: int) -> bool {
    &&& forall|u: u16| #[trigger]
        reverse.contains_key(u) ==> {
            &&& u != 0
            &&& 0x80 <= reverse[u] < 0x80 + n
            &&& table[reverse[u] - 0x80] == u
            &&& forall|j: int| 0 <= j < reverse[u] - 0x80 ==> #[trigger] table[j] != u
        }
    &&& forall|j: int| 0 <= j < n && table[j] != 0 ==> reverse.contains_key(#[trigger] table[j])
}

/// A reverse table of the whole mapping table answers for every character
/// beyond ASCII what the character encodes to.
proof fn lemma_reverse_lookup(table: Seq<u16>, reverse: Map<u16, u8>, c: char)
    requires
        valid_table(table),
        reverse_of(table, reverse, 128),
        0x80 <= c as u32 <= 0xFFFF,
    ensures
        encode_char(table, c) == (if reverse.contains_key(c as u32 as u16) {
            Some(reverse[c as u32 as u16])
        } else {
            None
        }),
{
    let u = c as u32 as u16;
    if reverse.contains_key(u) {
        let b = reverse[u];
        assert(decodes_to(table, b, c));
        assert forall|lower: u8| lower < b implies !#[trigger] decodes_to(table, lower, c) by {
            if lower >= 0x80 {
                assert(table[lower - 0x80] != u);
            }
        }
        lemma_encode_char_some(table, c, b);
    } else {
        assert forall|b: u8| !#[trigger] decodes_to(table, b, c) by {
            if b >= 0x80 && table[b - 0x80] == u {
                assert(reverse.contains_key(table[b - 0x80]));
            }
        }
        lemma_encode_char_none(table, c);
    }
}

/// Encoder for one single-byte encoding. It holds no state between calls.
pub struct SingleByteEncoder {
    encoding: &'static Encoding,
    table: &'static [u16; 128],
    reverse: HashMap<u16, u8>,
}

impl View for SingleByteEncoder {
    type V = Seq<u16>;

    /// The mapping table of the encoding.
    closed spec fn view(&self) -> Seq<u16> {
        self.table@
    }
}

impl SingleByteEncoder {
    #[verifier::type_invariant]
    spec fn well_formed(&self) -> bool {
        &&& valid_table(self.table@)
        &&& reverse_of(self.table@, self.reverse@, 128)
    }

    /// The token that the encoder was made with.
    pub closed spec fn spec_encoding(&self) -> Encoding {
        *self.encoding
    }

    /// An encoder for the encoding `encoding`, whose mapping table is `data`.
    /// It inverts the table once, here: where several bytes map to one code
    /// point, the lowest byte is kept.
    pub fn new(encoding: &'static Encoding, data: &'static [u16; 128]) -> (encoder: Self)
        requires
            valid_table(data@),
        ensures
            encoder@ == data@,
            encoder.spec_encoding() == *encoding,
    {
        let mut reverse: HashMap<u16, u8> = HashMap::new();
        let mut i: usize = 0;
        while i < 128
            invariant
                i <= 128,
                data@.len() == 128,
                reverse_of(data@, reverse@, i as int),
            decreases 128 - i,
        {
            let unit: u16 = data[i];
            if unit != 0 && reverse.get(&unit).is_none() {
                let byte: u8 = (i + 0x80) as u8;
                reverse.insert(unit, byte);
            }
            i += 1;
        }
        SingleByteEncoder { encoding, table: data, reverse }
    }

    /// The mapping table of the encoder, which is always a valid one.
    pub fn table(&self) -> (table: &'static [u16; 128])
        ensures
            table@ == self@,
            valid_table(self@),
    {
        proof {
            use_type_invariant(self);
        }
        self.table
    }

    /// The token that the encoder was made with.
    pub fn encoding(&self) -> (encoding: &'static Encoding)
        ensures
            *encoding == self.spec_encoding(),
    {
        self.encoding
    }

    /// Encodes one character: its byte, or `None` where the encoding has none
    /// for it.
    pub fn encode_char(&self, c: char) -> (byte: Option<u8>)
        ensures
            byte == encode_char(self@, c),
    {
        proof {
            use_type_invariant(self);
        }
        let point: u32 = c as u32;
        if point < 0x80 {
            proof {
                lemma_encode_ascii(self@, c);
            }
            Some(point as u8)
        } else if point > 0xFFFF {
            proof {
                lemma_encode_char_none(self@, c);
            }
            None
        } else {
            proof {
                lemma_reverse_lookup(self@, self.reverse@, c);
            }
            match self.reverse.get(&(point as u16)) {
                Some(byte) => Some(*byte),
                None => None,
            }
        }
    }

    /// The most bytes that encoding `u16_length` UTF-16 code units can write.
    pub fn max_buffer_length_from_utf16(&self, u16_length: usize) -> (bytes: usize)
        ensures
            bytes == u16_length,
    {
        u16_length
    }

    /// The most bytes that encoding `byte_length` bytes of UTF-8 can write.
    pub fn max_buffer_length_from_utf8(&self, byte_length: usize) -> (bytes: usize)
        ensures
            bytes == byte_length,
    {
        byte_length
    }

    /// The most bytes that encoding `u16_length` UTF-16 code units can write
    /// when the caller replaces what cannot be mapped, as long as nothing
    /// needs replacing.
    pub fn max_buffer_length_from_utf16_with_replacement_if_no_unmappables(
        &self,
        u16_length: usize,
    ) -> (bytes: usize)
        ensures
            bytes == u16_length,
    {
        u16_length
    }

    /// The most bytes that encoding `byte_length` bytes of UTF-8 can write
    /// when the caller replaces what cannot be mapped, as long as nothing
    /// needs replacing.
    pub fn max_buffer_length_from_utf8_with_replacement_if_no_unmappables(
        &self,
        byte_length: usize,
    ) -> (bytes: usize)
        ensures
            bytes == byte_length,
    {
        byte_length
    }

    /// Encodes the text in the UTF-16 code units of `src` to bytes in `dst`,
    /// from the start of both, until the input ends, `dst` is full or a
    /// character has no byte in the encoding. Returns why it stopped, the
    /// number of code units read and the number of bytes written. At each
    /// character the end of the input is looked for first, then room in
    /// `dst`, then the character itself. A character without a byte is not
    /// counted as read. A surrogate without its partner is read as U+FFFD.
    ///
    /// `last` says that no input follows `src`. A single-byte encoder holds
    /// nothing back between calls, so the flag changes nothing.
    pub fn encode_from_utf16(&mut self, src: &[u16], dst: &mut [u8], last: bool) -> (r: (
        EncoderResult,
        usize,
        usize,
    ))
        ensures
            *final(self) == *old(self),
            final(dst)@.len() == old(dst)@.len(),
            r.1 <= src@.len(),
            r.2 <= old(dst)@.len(),
            r.2 <= decode_utf16(src@).len(),
            r.1 == utf16_len(decode_utf16(src@).subrange(0, r.2 as int)),
            all_encodable(old(self)@, decode_utf16(src@), r.2 as int),
            final(dst)@.subrange(0, r.2 as int) == encoded(
                old(self)@,
                decode_utf16(src@).subrange(0, r.2 as int),
            ),
            final(dst)@.subrange(r.2 as int, old(dst)@.len() as int) == old(dst)@.subrange(
                r.2 as int,
                old(dst)@.len() as int,
            ),
            r.0 == (if r.2 == decode_utf16(src@).len() {
                EncoderResult::InputEmpty
            } else if r.2 == old(dst)@.len() {
                EncoderResult::OutputFull
            } else {
                EncoderResult::Unmappable(decode_utf16(src@)[r.2 as int])
            }),
            r.0 is Unmappable ==> encode_char(old(self)@, decode_utf16(src@)[r.2 as int]) is None,
            old(dst)@.len() >= src@.len() ==> !(r.0 is OutputFull),
    {
        let ghost table = self@;
        let ghost text = decode_utf16(src@);
        let mut i: usize = 0;
        let mut w: usize = 0;
        let mut outcome = EncoderResult::InputEmpty;
        proof {
            assert(src@.subrange(0, src@.len() as int) =~= src@);
            assert(text.subrange(0, text.len() as int) =~= text);
        }
        loop
            invariant
                *self == *old(self),
                table == self@,
                text == decode_utf16(src@),
                dst@.len() == old(dst)@.len(),
                i <= src@.len(),
                w <= dst@.len(),
                w <= text.len(),
                w <= i,
                decode_utf16(src@.subrange(i as int, src@.len() as int)) == text.subrange(
                    w as int,
                    text.len() as int,
                ),
                i == utf16_len(text.subrange(0, w as int)),
                forall|k: int|
                    0 <= k < w ==> (#[trigger] encode_char(table, text[k])) == Some(dst@[k]),
                forall|k: int| w <= k < dst@.len() ==> (#[trigger] dst@[k]) == old(dst)@[k],
            ensures
                i == src@.len() <==> w == text.len(),
                outcome == (if w == text.len() {
                    EncoderResult::InputEmpty
                } else if w == dst@.len() {
                    EncoderResult::OutputFull
                } else {
                    EncoderResult::Unmappable(text[w as int])
                }),
                outcome is Unmappable ==> w < text.len() && encode_char(table, text[w as int])
                    is None,
            decreases src@.len() - i,
        {
            let ghost rest = src@.subrange(i as int, src@.len() as int);
            if i >= src.len() {
                outcome = EncoderResult::InputEmpty;
                break ;
            }
            proof {
                assert(rest.subrange(utf16_first_len(rest), rest.len() as int) =~= src@.subrange(
                    i + utf16_first_len(rest),
                    src@.len() as int,
                ));
                assert(decode_utf16(rest).len() >= 1);
                assert(text.subrange(w as int, text.len() as int).len() == text.len() - w);
                assert(text.subrange(w as int, text.len() as int)[0] == text[w as int]);
                assert(text.subrange(w as int, text.len() as int).subrange(
                    1,
                    text.len() - w,
                ) =~= text.subrange(w + 1, text.len() as int));
                assert(decode_utf16(rest).subrange(1, decode_utf16(rest).len() as int)
                    =~= decode_utf16(rest.subrange(utf16_first_len(rest), rest.len() as int)));
                assert(text.subrange(0, w + 1).drop_last() =~= text.subrange(0, w as int));
            }
            if w >= dst.len() {
                outcome = EncoderResult::OutputFull;
                break ;
            }
            let (c, n) = read_utf16(src, i);
            match self.encode_char(c) {
                None => {
                    outcome = EncoderResult::Unmappable(c);
                    break ;
                },
                Some(byte) => {
                    dst[w] = byte;
                    w += 1;
                    i += n;
                },
            }
        }
        proof {
            assert(dst@.subrange(0, w as int) =~= encoded(table, text.subrange(0, w as int)));
            assert(dst@.subrange(w as int, dst@.len() as int) =~= old(dst)@.subrange(
                w as int,
                dst@.len() as int,
            ));
        }
        (outcome, i, w)
    }

    /// Encodes the text `src` to bytes in `dst`, from the start of both, until
    /// the input ends, `dst` is full or a character has no byte in the
    /// encoding. Returns why it stopped, the number of bytes of UTF-8 read and
    /// the number of bytes written. At each character the end of the input is
    /// looked for first, then room in `dst`, then the character itself. A
    /// character without a byte is not counted as read.
    ///
    /// `last` says that no input follows `src`. A single-byte encoder holds
    /// nothing back between calls, so the flag changes nothing.
    pub fn encode_from_utf8(&mut self, src: &str, dst: &mut [u8], last: bool) -> (r: (
        EncoderResult,
        usize,
        usize,
    ))
        ensures
            *final(self) == *old(self),
            final(dst)@.len() == old(dst)@.len(),
            r.1 <= encode_utf8(src@).len(),
            r.2 <= old(dst)@.len(),
            r.2 <= src@.len(),
            r.1 == encode_utf8(src@.subrange(0, r.2 as int)).len(),
            all_encodable(old(self)@, src@, r.2 as int),
            final(dst)@.subrange(0, r.2 as int) == encoded(
                old(self)@,
                src@.subrange(0, r.2 as int),
            ),
            final(dst)@.subrange(r.2 as int, old(dst)@.len() as int) == old(dst)@.subrange(
                r.2 as int,
                old(dst)@.len() as int,
            ),
            r.0 == (if r.2 == src@.len() {
                EncoderResult::InputEmpty
            } else if r.2 == old(dst)@.len() {
                EncoderResult::OutputFull
            } else {
                EncoderResult::Unmappable(src@[r.2 as int])
            }),
            r.0 is Unmappable ==> encode_char(old(self)@, src@[r.2 as int]) is None,
            old(dst)@.len() >= encode_utf8(src@).len() ==> !(r.0 is OutputFull),
    {
        let ghost table = self@;
        let ghost text = src@;
        let total: usize = src.as_bytes().len();
        let mut chars = src.chars();
        let mut i: usize = 0;
        let mut w: usize = 0;
        let mut outcome = EncoderResult::InputEmpty;
        proof {
            assert(text.subrange(0, text.len() as int) =~= text);
            assert(text.subrange(0, 0) =~= Seq::<char>::empty());
        }
        loop
            invariant_except_break
                chars.obeys_prophetic_iter_laws(),
                chars.remaining() == text.subrange(w as int, text.len() as int),
            invariant
                *self == *old(self),
                table == self@,
                text == src@,
                dst@.len() == old(dst)@.len(),
                w <= dst@.len(),
                w <= text.len(),
                w <= i,
                i == encode_utf8(text.subrange(0, w as int)).len(),
                i <= encode_utf8(text).len(),
                encode_utf8(text).len() == total,
                forall|k: int|
                    0 <= k < w ==> (#[trigger] encode_char(table, text[k])) == Some(dst@[k]),
                forall|k: int| w <= k < dst@.len() ==> (#[trigger] dst@[k]) == old(dst)@[k],
            ensures
                w < text.len() ==> i < encode_utf8(text).len(),
                outcome == (if w == text.len() {
                    EncoderResult::InputEmpty
                } else if w == dst@.len() {
                    EncoderResult::OutputFull
                } else {
                    EncoderResult::Unmappable(text[w as int])
                }),
                outcome is Unmappable ==> w < text.len() && encode_char(table, text[w as int])
                    is None,
            decreases text.len() - w,
        {
            match chars.next() {
                None => {
                    outcome = EncoderResult::InputEmpty;
                    break ;
                },
                Some(c) => {
                    let n: usize = utf8_len(c);
                    proof {
                        assert(c == text[w as int]);
                        assert(text.subrange(w as int, text.len() as int).drop_first()
                            =~= text.subrange(w + 1, text.len() as int));
                        assert(text.subrange(0, w + 1) =~= text.subrange(0, w as int).push(c));
                        lemma_encode_utf8_push(text.subrange(0, w as int), c);
                        assert(text =~= text.subrange(0, w + 1) + text.subrange(
                            w + 1,
                            text.len() as int,
                        ));
                        lemma_encode_utf8_concat(
                            text.subrange(0, w + 1),
                            text.subrange(w + 1, text.len() as int),
                        );
                    }
                    if w >= dst.len() {
                        outcome = EncoderResult::OutputFull;
                        break ;
                    }
                    match self.encode_char(c) {
                        None => {
                            outcome = EncoderResult::Unmappable(c);
                            break ;
                        },
                        Some(byte) => {
                            dst[w] = byte;
                            w += 1;
                            i += n;
                        },
                    }
                },
            }
        }
        proof {
            assert(dst@.subrange(0, w as int) =~= encoded(table, text.subrange(0, w as int)));
            assert(dst@.subrange(w as int, dst@.len() as int) =~= old(dst)@.subrange(
                w as int,
                dst@.len() as int,
            ));
        }
        (outcome, i, w)
    }
}

} // verus!
