use id3::chars::{append_bytes, bytes_of, chars_of, str_eq, string_of};
use id3::numbers::{parse_number, parse_track_pair, to_decimal, track_text};
use id3::select::FILE_DISCARD;
use id3::tag::{bytes_eq, in_file_discard, lower, Selector, TagFlags};
use id3::{Contents, ErrorKind, Frame, ID3Tag, Picture, PictureType, TagError};

#[test]
fn flags_round_trip_through_their_byte() {
    for bits in 0u8..16 {
        let flags = TagFlags {
            unsynchronization: bits & 1 != 0,
            extended_header: bits & 2 != 0,
            experimental: bits & 4 != 0,
            footer: bits & 8 != 0,
            compression: false,
        };
        let byte = flags.to_byte();
        assert_eq!(byte & 0x0F, 0);
        assert_eq!(flags.to_bytes(), vec![byte]);
        assert_eq!(TagFlags::from_byte(byte, 3), flags);
        assert_eq!(TagFlags::from_byte(byte, 4), flags);
    }
}

#[test]
fn flags_of_version_2() {
    let flags = TagFlags::from_byte(0xF0, 2);
    assert!(flags.unsynchronization);
    assert!(flags.compression);
    assert!(!flags.extended_header);
    assert!(!flags.experimental);
    assert!(!flags.footer);
    let flags = TagFlags::from_byte(0xFF, 4);
    assert!(flags.unsynchronization && flags.extended_header && flags.experimental && flags.footer);
    assert!(!flags.compression);
    assert_eq!(TagFlags::from_byte(0x0F, 4), TagFlags::new());
}

#[test]
fn compression_has_no_bit() {
    let mut flags = TagFlags::new();
    flags.compression = true;
    assert_eq!(flags.to_byte(), 0);
}

#[test]
fn errors_describe_their_kind() {
    assert_eq!(TagError::new(ErrorKind::InvalidInput).description(), "invalid input");
    assert_eq!(TagError::new(ErrorKind::UnsupportedFeature).description(), "unsupported feature");
    assert_eq!(TagError::new(ErrorKind::Io).description(), "i/o failure");
    assert_eq!(TagError::new(ErrorKind::StringDecoding).description(), "string decoding failure");
    assert_eq!(TagError::new(ErrorKind::Io).kind, ErrorKind::Io);
}

#[test]
fn strings_and_characters() {
    assert!(str_eq("", ""));
    assert!(str_eq("caf\u{e9}", "caf\u{e9}"));
    assert!(!str_eq("abc", "abd"));
    assert!(!str_eq("abc", "ab"));
    assert_eq!(chars_of("a\u{1D11E}b"), vec!['a', '\u{1D11E}', 'b']);
    assert_eq!(string_of(&vec!['x', '\u{e9}']), "x\u{e9}");
    assert_eq!(bytes_of(&[1, 2, 3]), vec![1, 2, 3]);
    let mut out = vec![1u8];
    append_bytes(&mut out, &[2, 3]);
    assert_eq!(out, vec![1, 2, 3]);
    assert!(bytes_eq(&[1, 2], &[1, 2]));
    assert!(!bytes_eq(&[1, 2], &[1, 3]));
    assert!(!bytes_eq(&[1, 2], &[1]));
}

#[test]
fn decimal_numbers() {
    assert_eq!(to_decimal(0), "0");
    assert_eq!(to_decimal(7), "7");
    assert_eq!(to_decimal(10), "10");
    assert_eq!(to_decimal(2014), "2014");
    assert_eq!(to_decimal(u64::MAX), "18446744073709551615");
    assert_eq!(parse_number("0", 10), Some(0));
    assert_eq!(parse_number("10", 10), Some(10));
    assert_eq!(parse_number("11", 10), None);
    assert_eq!(parse_number("0010", 10), Some(10));
    assert_eq!(parse_number("", 10), None);
    assert_eq!(parse_number("1a", 10), None);
    assert_eq!(parse_number("+1", 10), None);
    assert_eq!(parse_number("18446744073709551615", u64::MAX), Some(u64::MAX));
    assert_eq!(parse_number("18446744073709551616", u64::MAX), None);
    assert_eq!(parse_number("\u{663}", 10), None);
    let mut n: u64 = 1;
    while n < u64::MAX / 7 {
        assert_eq!(parse_number(&to_decimal(n), u64::MAX), Some(n));
        n = n * 7 + 3;
    }
}

#[test]
fn track_texts() {
    assert_eq!(track_text(5, None), "5");
    assert_eq!(track_text(5, Some(13)), "5/13");
    assert_eq!(track_text(0, Some(0)), "0/0");
    assert_eq!(parse_track_pair("5/13"), Some((5, Some(13))));
    assert_eq!(parse_track_pair("7"), Some((7, None)));
    assert_eq!(parse_track_pair("nope"), None);
    assert_eq!(parse_track_pair(&track_text(4294967295, Some(1))), Some((4294967295, Some(1))));
}

#[test]
fn watermark_steps() {
    assert_eq!(lower(100, 50), 50);
    assert_eq!(lower(100, 150), 100);
    assert_eq!(lower(100, 0), 100);
    assert_eq!(lower(0, 50), 50);
    assert_eq!(lower(0, 0), 0);
    assert_eq!(lower(100, 100), 100);
}

#[test]
fn file_discard_list() {
    for id in ["AENC", "ETCO", "EQUA", "MLLT", "POSS", "SYLT", "SYTC", "RVAD", "TENC", "TLEN", "TSIZ"].iter() {
        assert!(in_file_discard(id));
    }
    assert_eq!(FILE_DISCARD.len(), 11);
    assert!(!in_file_discard("TIT2"));
    assert!(!in_file_discard("TLE"));
    assert!(!in_file_discard("TLENX"));
    assert!(!in_file_discard(""));
}

#[test]
fn selectors_choose_frames() {
    let mut frame = Frame::new("TXXX");
    frame.contents = Contents::ExtendedText("k".to_string(), "v".to_string());
    frame.uuid = vec![1, 2];
    assert!(Selector::Id("TXXX").chooses(&frame));
    assert!(!Selector::Id("TXX").chooses(&frame));
    assert!(Selector::Uuid(&[1, 2]).chooses(&frame));
    assert!(!Selector::Uuid(&[1]).chooses(&frame));
    assert!(Selector::Txxx(None, None).chooses(&frame));
    assert!(Selector::Txxx(Some("k"), None).chooses(&frame));
    assert!(Selector::Txxx(None, Some("v")).chooses(&frame));
    assert!(!Selector::Txxx(Some("k"), Some("w")).chooses(&frame));
    assert!(!Selector::Txxx(Some("j"), Some("v")).chooses(&frame));
    assert!(!Selector::Comment(None, None).chooses(&frame));
    assert!(!Selector::Picture(PictureType::Other).chooses(&frame));
    assert!(!Selector::TagAltered.chooses(&frame));
    assert!(!Selector::FileAltered.chooses(&frame));
    frame.flags.tag_alter_preservation = true;
    assert!(!Selector::TagAltered.chooses(&frame));
    frame.offset = 10;
    assert!(Selector::TagAltered.chooses(&frame));
    assert!(Selector::FileAltered.chooses(&frame));
    frame.flags.tag_alter_preservation = false;
    assert!(!Selector::FileAltered.chooses(&frame));
    frame.flags.file_alter_preservation = true;
    assert!(Selector::FileAltered.chooses(&frame));
    assert!(!Selector::TagAltered.chooses(&frame));
    let mut length = Frame::new("TLEN");
    length.offset = 10;
    assert!(Selector::FileAltered.chooses(&length));
    let mut picture = Frame::new("APIC");
    assert!(Selector::Picture(PictureType::Other).chooses(&picture));
    picture.contents = Contents::Picture(Picture::new());
    assert!(Selector::Picture(PictureType::Other).chooses(&picture));
    assert!(!Selector::Picture(PictureType::CoverFront).chooses(&picture));
    let mut comment = Frame::new("COMM");
    assert!(Selector::Comment(Some("d"), None).chooses(&comment));
    comment.contents = Contents::Comment("d".to_string(), "t".to_string());
    assert!(Selector::Comment(Some("d"), None).chooses(&comment));
    assert!(!Selector::Comment(Some("e"), None).chooses(&comment));
}

#[test]
fn remove_where_lowers_the_watermark_to_the_lowest_removed_offset() {
    let mut file = vec![0x49, 0x44, 0x33, 4, 0, 0, 0, 0, 0, 45];
    for id in ["TPE1", "TXXX", "TXXX"].iter() {
        file.extend_from_slice(id.as_bytes());
        file.extend_from_slice(&[0, 0, 0, 5, 0, 0, 0, 0x6B, 0, 0x76, 0x76]);
    }
    let mut tag = ID3Tag::load("a", &file).unwrap();
    assert_eq!(tag.offset(), 55);
    assert_eq!(tag.txxx().len(), 2);
    tag.add_txxx("new", "value");
    tag.remove_where(&Selector::Txxx(None, None));
    assert_eq!(tag.get_frames().len(), 1);
    assert_eq!(tag.modified_offset(), 25);
    assert_eq!(tag.offset(), 55);
}
