//! Decoding bytes of a single-byte encoding to Unicode.

use crate::identity::Encoding;
use crate::outcome::DecoderResult;
use crate::table::{
    all_mapped, decode_byte, decoded, decoded_utf8, lemma_decoded_unit, lemma_decoded_utf8_step,
    valid_table,
};
use crate::unicode::write_utf8;
use vstd::prelude::*;

verus! {

/// Decoder for one single-byte encoding. It holds no state between calls.
pub struct SingleByteDecoder {
    encoding: &'static Encoding,
    table: &'static [u16; 128],
}

impl View for SingleByteDecoder {
    type V = Seq<u16>;

    /// The mapping table of the encoding.
    closed spec fn view(&self) -> Seq<u16> {
        self.table@
    }
}

impl SingleByteDecoder {
    #[verifier::type_invariant]
    spec fn well_formed(&self) -> bool {
        valid_table(self.table@)
    }

    /// The token that the decoder was made with.
    pub closed spec fn spec_encoding(&self) -> Encoding {
        *self.encoding
    }

    /// A decoder for the encoding `encoding`, whose mapping table is `data`.
    pub fn new(encoding: &'static Encoding, data: &'static [u16; 128]) -> (decoder: Self)
        requires
            valid_table(data@),
        ensures
            decoder@ == data@,
            decoder.spec_encoding() == *encoding,
    {
        SingleByteDecoder { encoding, table: data }
    }

    /// The mapping table of the decoder, which is always a valid one.
    pub fn table(&self) -> (table: &'static [u16; 128])
        ensures
            table@ == self@,
            valid_table(self@),
    {
        proof {
            use_type_invariant(self);
        }
        self.table
    }

    /// The token that the decoder was made with.
    pub fn encoding(&self) -> (encoding: &'static Encoding)
        ensures
            *encoding == self.spec_encoding(),
    {
        self.encoding
    }

    /// Forgets what earlier input left behind. A single-byte decoder keeps
    /// nothing, so this changes nothing.
    pub fn reset(&mut self)
        ensures
            *final(self) == *old(self),
    {
    }

    /// The most UTF-16 code units that decoding `byte_length` bytes can write.
    pub fn max_utf16_buffer_length(&self, byte_length: usize) -> (units: usize)
        ensures
            units == byte_length,
    {
        byte_length
    }

    /// The most UTF-8 bytes that decoding `byte_length` bytes can write.
    pub fn max_utf8_buffer_length(&self, byte_length: usize) -> (bytes: usize)
        requires
            byte_length * 3 <= usize::MAX,
        ensures
            bytes == byte_length * 3,
    {
        byte_length * 3
    }

    /// The most UTF-8 bytes that decoding `byte_length` bytes can write when
    /// each malformed byte is replaced by U+FFFD.
    pub fn max_utf8_buffer_length_with_replacement(&self, byte_length: usize) -> (bytes: usize)
        requires
            byte_length * 3 <= usize::MAX,
        ensures
            bytes == byte_length * 3,
    {
        byte_length * 3
    }

    /// Decodes one byte: the code unit it stands for, or `None` where the
    /// encoding leaves the byte unmapped.
    pub fn decode_byte(&self, b: u8) -> (unit: Option<u16>)
        ensures
            unit == decode_byte(self@, b),
    {
        if b < 0x80 {
            Some(b as u16)
        } else {
            let mapped: u16 = self.table[b as usize - 0x80usize];
            if mapped == 0u16 {
                None
            } else {
                Some(mapped)
            }
        }
    }

    /// Decodes bytes of `src` to UTF-16 code units in `dst`, from the start of
    /// both, until the input ends, `dst` is full or a byte is malformed.
    /// Returns why it stopped, the number of bytes read and the number of
    /// code units written. At each byte the end of the input is looked for
    /// first, then room in `dst`, then the byte itself. A malformed byte is
    /// not counted as read.
    ///
    /// `last` says that no input follows `src`. A single-byte decoder holds
    /// nothing back between calls, so the flag changes nothing.
    pub fn decode_to_utf16(&mut self, src: &[u8], dst: &mut [u16], last: bool) -> (r: (
        DecoderResult,
        usize,
        usize,
    ))
        ensures
            *final(self) == *old(self),
            final(dst)@.len() == old(dst)@.len(),
            r.1 <= src@.len(),
            r.2 == r.1,
            r.2 <= old(dst)@.len(),
            all_mapped(old(self)@, src@, r.1 as int),
            final(dst)@.subrange(0, r.2 as int) == decoded(old(self)@, src@.subrange(0, r.1 as int)),
            final(dst)@.subrange(r.2 as int, old(dst)@.len() as int) == old(dst)@.subrange(
                r.2 as int,
                old(dst)@.len() as int,
            ),
            r.0 == (if r.1 == src@.len() {
                DecoderResult::InputEmpty
            } else if r.2 == old(dst)@.len() {
                DecoderResult::OutputFull
            } else {
                DecoderResult::Malformed(1)
            }),
            r.0 is Malformed ==> decode_byte(old(self)@, src@[r.1 as int]) is None,
            old(dst)@.len() >= src@.len() ==> !(r.0 is OutputFull),
            old(dst)@.len() == 0 ==> r == (
                if src@.len() == 0 {
                    DecoderResult::InputEmpty
                } else {
                    DecoderResult::OutputFull
                },
                0usize,
                0usize,
            ),
            src@.len() > 0 && old(dst)@.len() > 0 && decode_byte(old(self)@, src@[0]) is None ==> r
                == (DecoderResult::Malformed(1), 0usize, 0usize),
    {
        let ghost table = self@;
        let mut i: usize = 0;
        loop
            invariant
                *self == *old(self),
                table == self@,
                dst@.len() == old(dst)@.len(),
                i <= src@.len(),
                i <= dst@.len(),
                forall|k: int|
                    0 <= k < i ==> (#[trigger] decode_byte(table, src@[k])) == Some(dst@[k]),
                forall|k: int| i <= k < dst@.len() ==> (#[trigger] dst@[k]) == old(dst)@[k],
            ensures
                i < src@.len() && i < dst@.len() ==> decode_byte(table, src@[i as int]) is None,
            decreases src@.len() - i,
        {
            if i >= src.len() || i >= dst.len() {
                break ;
            }
            match self.decode_byte(src[i]) {
                None => {
                    break ;
                },
                Some(unit) => {
                    dst[i] = unit;
                    i += 1;
                },
            }
        }
        proof {
            assert(dst@.subrange(0, i as int) =~= decoded(table, src@.subrange(0, i as int)));
            assert(dst@.subrange(i as int, dst@.len() as int) =~= old(dst)@.subrange(
                i as int,
                dst@.len() as int,
            ));
        }
        if i >= src.len() {
            (DecoderResult::InputEmpty, i, i)
        } else if i >= dst.len() {
            (DecoderResult::OutputFull, i, i)
        } else {
            (DecoderResult::Malformed(1), i, i)
        }
    }

    /// Decodes bytes of `src` to UTF-8 in `dst`, from the start of both, until
    /// the input ends, a byte is malformed, or `dst` has fewer than three
    /// bytes left, the most that one code point of a single-byte encoding
    /// takes. Returns why it stopped, the number of bytes read and the number
    /// of bytes written. At each byte the end of the input is looked for
    /// first, then room in `dst`, then the byte itself. A malformed byte is
    /// not counted as read.
    ///
    /// `last` says that no input follows `src`. A single-byte decoder holds
    /// nothing back between calls, so the flag changes nothing.
    pub fn decode_to_utf8(&mut self, src: &[u8], dst: &mut [u8], last: bool) -> (r: (
        DecoderResult,
        usize,
        usize,
    ))
        ensures
            *final(self) == *old(self),
            final(dst)@.len() == old(dst)@.len(),
            r.1 <= src@.len(),
            r.2 <= old(dst)@.len(),
            all_mapped(old(self)@, src@, r.1 as int),
            final(dst)@.subrange(0, r.2 as int) == decoded_utf8(
                old(self)@,
                src@.subrange(0, r.1 as int),
            ),
            final(dst)@.subrange(r.2 as int, old(dst)@.len() as int) == old(dst)@.subrange(
                r.2 as int,
                old(dst)@.len() as int,
            ),
            forall|j: int|
                0 <= j < r.1 ==> (#[trigger] decoded_utf8(old(self)@, src@.subrange(0, j))).len()
                    + 3 <= old(dst)@.len(),
            r.0 == (if r.1 == src@.len() {
                DecoderResult::InputEmpty
            } else if r.2 + 3 > old(dst)@.len() {
                DecoderResult::OutputFull
            } else {
                DecoderResult::Malformed(1)
            }),
            r.0 is Malformed ==> decode_byte(old(self)@, src@[r.1 as int]) is None,
            old(dst)@.len() >= 3 * src@.len() ==> !(r.0 is OutputFull),
            old(dst)@.len() == 0 ==> r == (
                if src@.len() == 0 {
                    DecoderResult::InputEmpty
                } else {
                    DecoderResult::OutputFull
                },
                0usize,
                0usize,
            ),
            src@.len() > 0 && old(dst)@.len() >= 3 && decode_byte(old(self)@, src@[0]) is None
                ==> r == (DecoderResult::Malformed(1), 0usize, 0usize),
    {
        let ghost table = self@;
        let mut i: usize = 0;
        let mut w: usize = 0;
        proof {
            use_type_invariant(&*self);
            assert(decoded_utf8(table, src@.subrange(0, 0)) =~= Seq::<u8>::empty()) by {
                assert(crate::unicode::units_to_chars(decoded(table, src@.subrange(0, 0)))
                    =~= Seq::<char>::empty());
            }
        }
        loop
            invariant
                *self == *old(self),
                table == self@,
                valid_table(table),
                dst@.len() == old(dst)@.len(),
                i <= src@.len(),
                w <= dst@.len(),
                w <= 3 * i,
                all_mapped(table, src@, i as int),
                w == decoded_utf8(table, src@.subrange(0, i as int)).len(),
                forall|k: int|
                    0 <= k < w ==> (#[trigger] dst@[k]) == decoded_utf8(
                        table,
                        src@.subrange(0, i as int),
                    )[k],
                forall|k: int| w <= k < dst@.len() ==> (#[trigger] dst@[k]) == old(dst)@[k],
                forall|j: int|
                    0 <= j < i ==> (#[trigger] decoded_utf8(table, src@.subrange(0, j))).len() + 3
                        <= dst@.len(),
            ensures
                i < src@.len() && w + 3 <= dst@.len() ==> decode_byte(table, src@[i as int])
                    is None,
            decreases src@.len() - i,
        {
            if i >= src.len() || dst.len() < 3 || w > dst.len() - 3 {
                break ;
            }
            match self.decode_byte(src[i]) {
                None => {
                    break ;
                },
                Some(unit) => {
                    proof {
                        lemma_decoded_unit(table, src@[i as int]);
                        lemma_decoded_utf8_step(table, src@, i as int);
                    }
                    let n: usize = write_utf8(dst, w, unit);
                    w += n;
                    i += 1;
                },
            }
        }
        proof {
            assert(dst@.subrange(0, w as int) =~= decoded_utf8(table, src@.subrange(0, i as int)));
            assert(dst@.subrange(w as int, dst@.len() as int) =~= old(dst)@.subrange(
                w as int,
                dst@.len() as int,
            ));
        }
        if i >= src.len() {
            (DecoderResult::InputEmpty, i, w)
        } else if dst.len() < 3 || w > dst.len() - 3 {
            (DecoderResult::OutputFull, i, w)
        } else {
            (DecoderResult::Malformed(1), i, w)
        }
    }
}

} // verus!
