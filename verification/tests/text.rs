use id3::text::Encoding;
use id3::transcode::{decode, encode, encode_terminated, split_once_null};
use id3::ErrorKind;

#[test]
fn encoding_bytes() {
    assert_eq!(Encoding::Latin1.to_byte(), 0);
    assert_eq!(Encoding::UTF16.to_byte(), 1);
    assert_eq!(Encoding::UTF16BE.to_byte(), 2);
    assert_eq!(Encoding::UTF8.to_byte(), 3);
    assert_eq!(Encoding::from_byte(0), Some(Encoding::Latin1));
    assert_eq!(Encoding::from_byte(1), Some(Encoding::UTF16));
    assert_eq!(Encoding::from_byte(2), Some(Encoding::UTF16BE));
    assert_eq!(Encoding::from_byte(3), Some(Encoding::UTF8));
    assert_eq!(Encoding::from_byte(4), None);
    assert_eq!(Encoding::Latin1.terminator_width(), 1);
    assert_eq!(Encoding::UTF16.terminator_width(), 2);
    assert_eq!(Encoding::UTF16BE.terminator_width(), 2);
    assert_eq!(Encoding::UTF8.terminator_width(), 1);
}

#[test]
fn encode_latin1() {
    assert_eq!(encode("abc", Encoding::Latin1).unwrap(), vec![0x61, 0x62, 0x63]);
    assert_eq!(encode("\u{e9}\u{ff}", Encoding::Latin1).unwrap(), vec![0xE9, 0xFF]);
    assert_eq!(encode("", Encoding::Latin1).unwrap(), Vec::<u8>::new());
}

#[test]
fn encode_latin1_rejects_wide_characters() {
    let e = encode("a\u{100}", Encoding::Latin1).unwrap_err();
    assert_eq!(e.kind, ErrorKind::InvalidInput);
    let e = encode_terminated("\u{20ac}", Encoding::Latin1).unwrap_err();
    assert_eq!(e.kind, ErrorKind::InvalidInput);
}

#[test]
fn encode_utf16_with_mark() {
    assert_eq!(encode("A\u{e9}", Encoding::UTF16).unwrap(), vec![0xFF, 0xFE, 0x41, 0x00, 0xE9, 0x00]);
    assert_eq!(encode("", Encoding::UTF16).unwrap(), vec![0xFF, 0xFE]);
    assert_eq!(
        encode("\u{1D11E}", Encoding::UTF16).unwrap(),
        vec![0xFF, 0xFE, 0x34, 0xD8, 0x1E, 0xDD]
    );
}

#[test]
fn encode_utf16_big_endian() {
    assert_eq!(encode("A\u{20ac}", Encoding::UTF16BE).unwrap(), vec![0x00, 0x41, 0x20, 0xAC]);
    assert_eq!(encode("\u{1D11E}", Encoding::UTF16BE).unwrap(), vec![0xD8, 0x34, 0xDD, 0x1E]);
    assert_eq!(encode("\u{10FFFF}", Encoding::UTF16BE).unwrap(), vec![0xDB, 0xFF, 0xDF, 0xFF]);
    assert_eq!(encode("\u{10000}", Encoding::UTF16BE).unwrap(), vec![0xD8, 0x00, 0xDC, 0x00]);
    assert_eq!(encode("\u{FFFF}", Encoding::UTF16BE).unwrap(), vec![0xFF, 0xFF]);
}

#[test]
fn encode_utf8() {
    assert_eq!(encode("A\u{e9}\u{20ac}", Encoding::UTF8).unwrap(), vec![0x41, 0xC3, 0xA9, 0xE2, 0x82, 0xAC]);
}

#[test]
fn encode_terminated_adds_null_of_encoding_width() {
    assert_eq!(encode_terminated("a", Encoding::Latin1).unwrap(), vec![0x61, 0x00]);
    assert_eq!(encode_terminated("a", Encoding::UTF8).unwrap(), vec![0x61, 0x00]);
    assert_eq!(encode_terminated("a", Encoding::UTF16).unwrap(), vec![0xFF, 0xFE, 0x61, 0x00, 0x00, 0x00]);
    assert_eq!(encode_terminated("a", Encoding::UTF16BE).unwrap(), vec![0x00, 0x61, 0x00, 0x00]);
    assert_eq!(encode_terminated("", Encoding::UTF16).unwrap(), vec![0xFF, 0xFE, 0x00, 0x00]);
}

#[test]
fn decode_latin1() {
    assert_eq!(decode(&[0x61, 0xE9, 0xFF, 0x00], Encoding::Latin1).unwrap(), "a\u{e9}\u{ff}\u{0}");
    assert_eq!(decode(&[], Encoding::Latin1).unwrap(), "");
}

#[test]
fn decode_utf16_chooses_byte_order_by_mark() {
    assert_eq!(decode(&[0xFF, 0xFE, 0x41, 0x00], Encoding::UTF16).unwrap(), "A");
    assert_eq!(decode(&[0xFE, 0xFF, 0x00, 0x41], Encoding::UTF16).unwrap(), "A");
    assert_eq!(decode(&[0xFF, 0xFE, 0x34, 0xD8, 0x1E, 0xDD], Encoding::UTF16).unwrap(), "\u{1D11E}");
    assert_eq!(decode(&[], Encoding::UTF16).unwrap(), "");
    assert_eq!(decode(&[0xFF, 0xFE], Encoding::UTF16).unwrap(), "");
}

#[test]
fn decode_utf16_rejects_malformed_input() {
    assert_eq!(decode(&[0x41, 0x00], Encoding::UTF16).unwrap_err().kind, ErrorKind::StringDecoding);
    assert_eq!(decode(&[0xFF, 0xFE, 0x41], Encoding::UTF16).unwrap_err().kind, ErrorKind::StringDecoding);
    assert_eq!(decode(&[0xFF], Encoding::UTF16).unwrap_err().kind, ErrorKind::StringDecoding);
    assert_eq!(
        decode(&[0xFF, 0xFE, 0x34, 0xD8], Encoding::UTF16).unwrap_err().kind,
        ErrorKind::StringDecoding
    );
    assert_eq!(
        decode(&[0xFF, 0xFE, 0x1E, 0xDD], Encoding::UTF16).unwrap_err().kind,
        ErrorKind::StringDecoding
    );
    assert_eq!(
        decode(&[0xFF, 0xFE, 0x34, 0xD8, 0x41, 0x00], Encoding::UTF16).unwrap_err().kind,
        ErrorKind::StringDecoding
    );
}

#[test]
fn decode_utf16_big_endian() {
    assert_eq!(decode(&[0x00, 0x41, 0x20, 0xAC], Encoding::UTF16BE).unwrap(), "A\u{20ac}");
    assert_eq!(decode(&[0xD8, 0x34, 0xDD, 0x1E], Encoding::UTF16BE).unwrap(), "\u{1D11E}");
    assert_eq!(decode(&[0xDB, 0xFF, 0xDF, 0xFF], Encoding::UTF16BE).unwrap(), "\u{10FFFF}");
    assert_eq!(decode(&[0x00], Encoding::UTF16BE).unwrap_err().kind, ErrorKind::StringDecoding);
    assert_eq!(decode(&[0xDC, 0x00], Encoding::UTF16BE).unwrap_err().kind, ErrorKind::StringDecoding);
}

#[test]
fn decode_utf8() {
    assert_eq!(decode(&[0x41, 0xC3, 0xA9, 0xE2, 0x82, 0xAC], Encoding::UTF8).unwrap(), "A\u{e9}\u{20ac}");
    assert_eq!(decode(&[0xC3], Encoding::UTF8).unwrap_err().kind, ErrorKind::StringDecoding);
    assert_eq!(decode(&[0xFF], Encoding::UTF8).unwrap_err().kind, ErrorKind::StringDecoding);
}

#[test]
fn codec_round_trips_in_every_encoding() {
    let texts = ["", "plain", "caf\u{e9}", "na\u{ef}ve \u{ff}"];
    for text in texts.iter() {
        for encoding in [Encoding::Latin1, Encoding::UTF16, Encoding::UTF16BE, Encoding::UTF8].iter() {
            let bytes = encode(text, *encoding).unwrap();
            assert_eq!(decode(&bytes, *encoding).unwrap(), *text);
        }
    }
    let wide = "\u{20ac} \u{1D11E} \u{10FFFF} \u{D7FF} \u{E000}";
    for encoding in [Encoding::UTF16, Encoding::UTF16BE, Encoding::UTF8].iter() {
        let bytes = encode(wide, *encoding).unwrap();
        assert_eq!(decode(&bytes, *encoding).unwrap(), wide);
    }
}

#[test]
fn split_once_null_single_byte() {
    let (before, after) = split_once_null(&[0x61, 0x62, 0x00, 0x63, 0x00], Encoding::Latin1).unwrap();
    assert_eq!(before, vec![0x61, 0x62]);
    assert_eq!(after, vec![0x63, 0x00]);
    let (before, after) = split_once_null(&[0x00], Encoding::UTF8).unwrap();
    assert_eq!(before, Vec::<u8>::new());
    assert_eq!(after, Vec::<u8>::new());
    assert_eq!(split_once_null(&[0x61, 0x62], Encoding::Latin1), None);
    assert_eq!(split_once_null(&[], Encoding::Latin1), None);
}

#[test]
fn split_once_null_double_byte_is_aligned() {
    // 'A' low byte first is 41 00: the zero pair at position 1 is no terminator.
    let bytes = [0xFF, 0xFE, 0x41, 0x00, 0x00, 0x01, 0x00, 0x00, 0x42, 0x00];
    let (before, after) = split_once_null(&bytes, Encoding::UTF16).unwrap();
    assert_eq!(before, vec![0xFF, 0xFE, 0x41, 0x00, 0x00, 0x01]);
    assert_eq!(after, vec![0x42, 0x00]);
    assert_eq!(split_once_null(&[0x00, 0x41, 0x00], Encoding::UTF16BE), None);
    assert_eq!(split_once_null(&[0x41, 0x00, 0x00], Encoding::UTF16BE), None);
    let (before, after) = split_once_null(&[0x00, 0x00], Encoding::UTF16BE).unwrap();
    assert_eq!(before, Vec::<u8>::new());
    assert_eq!(after, Vec::<u8>::new());
}
