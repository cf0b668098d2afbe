use single_byte::decoder::SingleByteDecoder;
use single_byte::identity::Encoding;
use single_byte::outcome::DecoderResult;
use single_byte::table::is_valid_table;
use single_byte::unicode::write_utf8;

const GREEK: Encoding = Encoding { id: 7 };

/// A table in the manner of ISO-8859-7: the C1 controls and a few signs map
/// to themselves, `0xA4` is the euro sign, the letters from `0xC1` on are
/// Greek capitals, and `0xAA` among others is left unmapped.
fn greek_like() -> &'static [u16; 128] {
    let mut t = [0u16; 128];
    for i in 0..0x20 {
        t[i] = 0x80 + i as u16;
    }
    t[0x20] = 0x00A0;
    t[0x21] = 0x2018;
    t[0x22] = 0x2019;
    t[0x23] = 0x00A3;
    t[0x24] = 0x20AC;
    t[0x29] = 0x00A9;
    for i in 0x41..0x52 {
        t[i] = 0x0391 + (i as u16 - 0x41);
    }
    assert!(is_valid_table(&t));
    Box::leak(Box::new(t))
}

fn greek_decoder() -> SingleByteDecoder {
    SingleByteDecoder::new(&GREEK, greek_like())
}

#[test]
fn decode_stops_before_the_malformed_byte() {
    let mut d = greek_decoder();
    let mut dst = [0u16; 10];
    let r = d.decode_to_utf16(&[0x41, 0xA0, 0xAA], &mut dst, true);
    assert_eq!(r, (DecoderResult::Malformed(1), 2, 2));
    assert_eq!(String::from_utf16(&dst[..2]).unwrap(), "A\u{00A0}");
    assert_eq!(&dst[2..], &[0u16; 8]);
}

#[test]
fn decode_resumes_behind_a_skipped_byte() {
    let mut d = greek_decoder();
    let src = [0x41u8, 0xA0, 0xAA];
    let mut dst = [0u16; 10];
    let (first, read, written) = d.decode_to_utf16(&src, &mut dst, false);
    assert_eq!(first, DecoderResult::Malformed(1));
    let tail = &src[read..];
    assert_eq!(tail, &[0xAAu8]);
    // The tail as it stands is refused again, with nothing consumed.
    let again = d.decode_to_utf16(tail, &mut dst[written..], true);
    assert_eq!(again, (DecoderResult::Malformed(1), 0, 0));
    // The caller writes U+FFFD for the byte and steps over it.
    dst[written] = 0xFFFD;
    let skipped = 1;
    let rest = d.decode_to_utf16(&tail[skipped..], &mut dst[written + 1..], true);
    assert_eq!(rest, (DecoderResult::InputEmpty, 0, 0));
    assert_eq!(read + skipped + rest.1, src.len());
    assert_eq!(&dst[..3], &[0x41, 0xA0, 0xFFFD]);
}

#[test]
fn decode_ascii_is_identity() {
    let d = greek_decoder();
    for b in 0u8..0x80 {
        assert_eq!(d.decode_byte(b), Some(b as u16));
    }
    let mut d = greek_decoder();
    let src: Vec<u8> = (0u8..0x80).collect();
    let mut dst = [0xFFFFu16; 128];
    let r = d.decode_to_utf16(&src, &mut dst, true);
    assert_eq!(r, (DecoderResult::InputEmpty, 128, 128));
    for b in 0..0x80 {
        assert_eq!(dst[b], b as u16);
    }
}

#[test]
fn decode_mapped_bytes_yield_table_entries() {
    let table = greek_like();
    let d = greek_decoder();
    for b in 0x80u16..0x100 {
        let entry = table[b as usize - 0x80];
        if entry != 0 {
            assert_eq!(d.decode_byte(b as u8), Some(entry));
        } else {
            assert_eq!(d.decode_byte(b as u8), None);
        }
    }
    assert_eq!(d.decode_byte(0xA4), Some(0x20AC));
    assert_eq!(d.decode_byte(0xC1), Some(0x0391));
    assert_eq!(d.decode_byte(0xAA), None);
    assert_eq!(d.decode_byte(0xFF), None);
}

#[test]
fn decode_unmapped_first_byte_consumes_nothing() {
    let mut d = greek_decoder();
    let table = greek_like();
    for b in 0x80u16..0x100 {
        if table[b as usize - 0x80] == 0 {
            let mut dst = [7u16; 4];
            let r = d.decode_to_utf16(&[b as u8, 0x41], &mut dst, true);
            assert_eq!(r, (DecoderResult::Malformed(1), 0, 0));
            assert_eq!(dst, [7u16; 4]);
            let mut bytes = [7u8; 4];
            let r = d.decode_to_utf8(&[b as u8, 0x41], &mut bytes, true);
            assert_eq!(r, (DecoderResult::Malformed(1), 0, 0));
            assert_eq!(bytes, [7u8; 4]);
        }
    }
}

#[test]
fn decoder_buffer_lengths() {
    let d = greek_decoder();
    for n in [0usize, 1, 2, 7, 1000, usize::MAX / 3] {
        assert_eq!(d.max_utf16_buffer_length(n), n);
        assert_eq!(d.max_utf8_buffer_length(n), 3 * n);
        assert_eq!(d.max_utf8_buffer_length_with_replacement(n), 3 * n);
    }
    assert_eq!(d.max_utf16_buffer_length(usize::MAX), usize::MAX);
}

#[test]
fn decode_into_computed_size_is_never_full() {
    let mut d = greek_decoder();
    let inputs: [&[u8]; 5] =
        [&[], &[0x41], &[0xA4, 0xA4, 0xA4], &[0x41, 0xA0, 0xA4, 0xC1], &[0xA4, 0xAA, 0x41]];
    for src in inputs {
        let mut wide = vec![0u16; d.max_utf16_buffer_length(src.len())];
        let r = d.decode_to_utf16(src, &mut wide, true);
        assert_ne!(r.0, DecoderResult::OutputFull);
        let mut bytes = vec![0u8; d.max_utf8_buffer_length(src.len())];
        let r = d.decode_to_utf8(src, &mut bytes, true);
        assert_ne!(r.0, DecoderResult::OutputFull);
    }
    let mut bytes = [0u8; 9];
    let r = d.decode_to_utf8(&[0xA4, 0xA4, 0xA4], &mut bytes, true);
    assert_eq!(r, (DecoderResult::InputEmpty, 3, 9));
}

#[test]
fn decode_into_empty_buffer() {
    let mut d = greek_decoder();
    let mut none16: [u16; 0] = [];
    let mut none8: [u8; 0] = [];
    assert_eq!(d.decode_to_utf16(&[0x41], &mut none16, true), (DecoderResult::OutputFull, 0, 0));
    assert_eq!(d.decode_to_utf16(&[0xAA], &mut none16, true), (DecoderResult::OutputFull, 0, 0));
    assert_eq!(d.decode_to_utf16(&[], &mut none16, true), (DecoderResult::InputEmpty, 0, 0));
    assert_eq!(d.decode_to_utf8(&[0x41], &mut none8, false), (DecoderResult::OutputFull, 0, 0));
    assert_eq!(d.decode_to_utf8(&[], &mut none8, false), (DecoderResult::InputEmpty, 0, 0));
}

#[test]
fn decode_to_utf16_fills_then_reports_full() {
    let mut d = greek_decoder();
    let mut dst = [0u16; 2];
    let r = d.decode_to_utf16(&[0xA4, 0xC1, 0xC2], &mut dst, false);
    assert_eq!(r, (DecoderResult::OutputFull, 2, 2));
    assert_eq!(dst, [0x20AC, 0x0391]);
    // Room is looked at before the byte: a full buffer hides a malformed byte.
    let r = d.decode_to_utf16(&[0x41, 0x42, 0xAA], &mut dst, false);
    assert_eq!(r, (DecoderResult::OutputFull, 2, 2));
    // The end of input is looked at before room.
    let r = d.decode_to_utf16(&[0x41, 0x42], &mut dst, false);
    assert_eq!(r, (DecoderResult::InputEmpty, 2, 2));
}

#[test]
fn decode_to_utf8_writes_exact_bytes() {
    let mut d = greek_decoder();
    let mut dst = [0xEEu8; 12];
    let r = d.decode_to_utf8(&[0x41, 0xA0, 0xA4, 0xC1, 0xAA], &mut dst, true);
    assert_eq!(r, (DecoderResult::Malformed(1), 4, 8));
    assert_eq!(&dst[..8], "A\u{00A0}\u{20AC}\u{0391}".as_bytes());
    assert_eq!(&dst[..8], &[0x41, 0xC2, 0xA0, 0xE2, 0x82, 0xAC, 0xCE, 0x91]);
    assert_eq!(&dst[8..], &[0xEE; 4]);
}

#[test]
fn decode_to_utf8_wants_three_bytes_of_room() {
    let mut d = greek_decoder();
    let mut dst = [0u8; 4];
    // After "AB" two bytes are left, fewer than a code point may take.
    let r = d.decode_to_utf8(&[0x41, 0x42, 0x43], &mut dst, true);
    assert_eq!(r, (DecoderResult::OutputFull, 2, 2));
    assert_eq!(&dst[..2], b"AB");
    let mut small = [0u8; 2];
    let r = d.decode_to_utf8(&[0x41], &mut small, true);
    assert_eq!(r, (DecoderResult::OutputFull, 0, 0));
    let mut exact = [0u8; 3];
    let r = d.decode_to_utf8(&[0xA4], &mut exact, true);
    assert_eq!(r, (DecoderResult::InputEmpty, 1, 3));
    assert_eq!(exact, [0xE2, 0x82, 0xAC]);
}

#[test]
fn decoder_reset_changes_nothing() {
    let mut d = greek_decoder();
    let mut dst = [0u16; 3];
    let before = d.decode_to_utf16(&[0x41, 0xA4, 0xAA], &mut dst, true);
    d.reset();
    let mut again = [0u16; 3];
    let after = d.decode_to_utf16(&[0x41, 0xA4, 0xAA], &mut again, true);
    assert_eq!(before, after);
    assert_eq!(dst, again);
    assert_eq!(*d.encoding(), GREEK);
    assert_eq!(d.table(), greek_like());
}

#[test]
fn decode_ignoring_an_error_makes_no_progress() {
    let mut d = greek_decoder();
    let mut dst = [0u16; 4];
    let first = d.decode_to_utf16(&[0xAA, 0x41], &mut dst, true);
    let second = d.decode_to_utf16(&[0xAA, 0x41], &mut dst, true);
    assert_eq!(first, (DecoderResult::Malformed(1), 0, 0));
    assert_eq!(second, first);
}

#[test]
fn table_validity() {
    let mut t = *greek_like();
    assert!(is_valid_table(&t));
    assert!(is_valid_table(&[0u16; 128]));
    t[5] = 0x41;
    assert!(!is_valid_table(&t));
    t[5] = 0xD800;
    assert!(!is_valid_table(&t));
    t[5] = 0xDFFF;
    assert!(!is_valid_table(&t));
    t[5] = 0xE000;
    assert!(is_valid_table(&t));
    t[127] = 0x7F;
    assert!(!is_valid_table(&t));
    t[127] = 0x80;
    assert!(is_valid_table(&t));
}

#[test]
fn write_utf8_lengths_and_bytes() {
    let mut dst = [0u8; 6];
    assert_eq!(write_utf8(&mut dst, 1, 0x41), 1);
    assert_eq!(dst, [0, 0x41, 0, 0, 0, 0]);
    assert_eq!(write_utf8(&mut dst, 2, 0x07FF), 2);
    assert_eq!(dst, [0, 0x41, 0xDF, 0xBF, 0, 0]);
    assert_eq!(write_utf8(&mut dst, 3, 0x0800), 3);
    assert_eq!(dst, [0, 0x41, 0xDF, 0xE0, 0xA0, 0x80]);
    assert_eq!(write_utf8(&mut dst, 0, 0xFFFD), 3);
    assert_eq!(&dst[..3], "\u{FFFD}".as_bytes());
}
