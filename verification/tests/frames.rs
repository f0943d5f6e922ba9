use id3::contents::{encode_contents, kind_of, parse_contents};
use id3::legacy::upgrade_id;
use id3::payload::Kind;
use id3::wire::FrameRead;
use id3::{Contents, Encoding, ErrorKind, Frame, FrameFlags, Picture, PictureType};

fn text_frame(id: &str, text: &str, encoding: Encoding) -> Frame {
    let mut frame = Frame::new(id);
    frame.encoding = encoding;
    frame.contents = Contents::Text(text.to_string());
    frame
}

fn read_back(version: u8, bytes: &[u8]) -> Frame {
    match Frame::read(version, bytes, 0) {
        FrameRead::Frame(frame, next) => {
            assert_eq!(next, bytes.len());
            frame
        }
        _ => panic!("no frame"),
    }
}

#[test]
fn new_frame_is_empty() {
    let frame = Frame::new("TALB");
    assert_eq!(frame.id, "TALB");
    assert_eq!(frame.uuid, Vec::<u8>::new());
    assert_eq!(frame.offset, 0);
    assert_eq!(frame.encoding, Encoding::UTF16);
    assert_eq!(frame.flags, FrameFlags::new());
    assert_eq!(frame.contents, Contents::Raw(vec![]));
}

#[test]
fn kinds_by_identifier() {
    assert_eq!(kind_of("TIT2"), Kind::Text);
    assert_eq!(kind_of("TXXX"), Kind::ExtendedText);
    assert_eq!(kind_of("WOAR"), Kind::Link);
    assert_eq!(kind_of("WXXX"), Kind::ExtendedLink);
    assert_eq!(kind_of("USLT"), Kind::Lyrics);
    assert_eq!(kind_of("COMM"), Kind::Comment);
    assert_eq!(kind_of("APIC"), Kind::Picture);
    assert_eq!(kind_of("PRIV"), Kind::Raw);
    assert_eq!(kind_of(""), Kind::Raw);
}

#[test]
fn legacy_identifiers_are_upgraded() {
    assert_eq!(upgrade_id('T', 'T', '2'), Some(['T', 'I', 'T', '2']));
    assert_eq!(upgrade_id('T', 'A', 'L'), Some(['T', 'A', 'L', 'B']));
    assert_eq!(upgrade_id('T', 'P', '1'), Some(['T', 'P', 'E', '1']));
    assert_eq!(upgrade_id('T', 'P', '2'), Some(['T', 'P', 'E', '2']));
    assert_eq!(upgrade_id('T', 'R', 'K'), Some(['T', 'R', 'C', 'K']));
    assert_eq!(upgrade_id('T', 'Y', 'E'), Some(['T', 'Y', 'E', 'R']));
    assert_eq!(upgrade_id('T', 'C', 'O'), Some(['T', 'C', 'O', 'N']));
    assert_eq!(upgrade_id('C', 'O', 'M'), Some(['C', 'O', 'M', 'M']));
    assert_eq!(upgrade_id('P', 'I', 'C'), Some(['A', 'P', 'I', 'C']));
    assert_eq!(upgrade_id('U', 'L', 'T'), Some(['U', 'S', 'L', 'T']));
    assert_eq!(upgrade_id('W', 'X', 'X'), Some(['W', 'X', 'X', 'X']));
    assert_eq!(upgrade_id('B', 'U', 'F'), Some(['R', 'B', 'U', 'F']));
    assert_eq!(upgrade_id('Z', 'Z', 'Z'), None);
}

#[test]
fn text_frame_bytes_version_4() {
    let frame = text_frame("TIT2", "abc", Encoding::Latin1);
    let bytes = frame.to_bytes(4).unwrap();
    assert_eq!(
        bytes,
        vec![0x54, 0x49, 0x54, 0x32, 0, 0, 0, 4, 0, 0, 0, 0x61, 0x62, 0x63]
    );
}

#[test]
fn frame_size_is_synchsafe_in_version_4_only() {
    let mut frame = Frame::new("PRIV");
    frame.contents = Contents::Raw(vec![7u8; 200]);
    let v4 = frame.to_bytes(4).unwrap();
    assert_eq!(&v4[4..8], &[0, 0, 0x01, 0x48]);
    let v3 = frame.to_bytes(3).unwrap();
    assert_eq!(&v3[4..8], &[0, 0, 0, 200]);
    assert_eq!(v3.len(), 210);
    assert_eq!(read_back(4, &v4).contents, Contents::Raw(vec![7u8; 200]));
    assert_eq!(read_back(3, &v3).contents, Contents::Raw(vec![7u8; 200]));
}

#[test]
fn frame_flags_bytes() {
    let mut frame = text_frame("TIT2", "", Encoding::Latin1);
    frame.flags.tag_alter_preservation = true;
    frame.flags.file_alter_preservation = true;
    frame.flags.read_only = true;
    frame.flags.grouping_identity = true;
    let v3 = frame.to_bytes(3).unwrap();
    assert_eq!(&v3[8..10], &[0xE0, 0x20]);
    let v4 = frame.to_bytes(4).unwrap();
    assert_eq!(&v4[8..10], &[0x70, 0x40]);
    assert_eq!(read_back(3, &v3).flags, frame.flags);
    assert_eq!(read_back(4, &v4).flags, frame.flags);
}

#[test]
fn frame_flags_that_are_not_written() {
    let mut frame = text_frame("TIT2", "", Encoding::Latin1);
    frame.flags.compression = true;
    frame.flags.encryption = true;
    frame.flags.unsynchronization = true;
    frame.flags.data_length_indicator = true;
    assert_eq!(&frame.to_bytes(3).unwrap()[8..10], &[0, 0]);
    assert_eq!(&frame.to_bytes(4).unwrap()[8..10], &[0, 0]);
}

#[test]
fn to_bytes_rejects_other_versions() {
    let frame = text_frame("TIT2", "abc", Encoding::Latin1);
    assert_eq!(frame.to_bytes(2).unwrap_err().kind, ErrorKind::UnsupportedFeature);
    assert_eq!(frame.to_bytes(5).unwrap_err().kind, ErrorKind::UnsupportedFeature);
}

#[test]
fn to_bytes_rejects_bad_identifiers() {
    assert_eq!(text_frame("tt2", "x", Encoding::Latin1).to_bytes(4).unwrap_err().kind, ErrorKind::InvalidInput);
    assert_eq!(text_frame("T2", "x", Encoding::Latin1).to_bytes(4).unwrap_err().kind, ErrorKind::InvalidInput);
    assert_eq!(text_frame("TT\u{0}", "x", Encoding::Latin1).to_bytes(4).unwrap_err().kind, ErrorKind::InvalidInput);
    assert_eq!(text_frame("tit2", "x", Encoding::Latin1).to_bytes(4).unwrap_err().kind, ErrorKind::InvalidInput);
    assert_eq!(text_frame("TIT22", "x", Encoding::Latin1).to_bytes(4).unwrap_err().kind, ErrorKind::InvalidInput);
    assert_eq!(text_frame("", "x", Encoding::Latin1).to_bytes(4).unwrap_err().kind, ErrorKind::InvalidInput);
}

#[test]
fn identifier_of_three_characters_is_written_with_a_zero_byte() {
    let mut frame = Frame::new("TZZ");
    frame.encoding = Encoding::Latin1;
    frame.contents = Contents::Raw(vec![0, 0x68]);
    for version in [3u8, 4u8].iter() {
        let bytes = frame.to_bytes(*version).unwrap();
        assert_eq!(bytes, vec![0x54, 0x5A, 0x5A, 0, 0, 0, 0, 2, 0, 0, 0, 0x68]);
        assert_eq!(read_back(*version, &bytes), frame);
    }
}

#[test]
fn identifier_of_three_characters_is_read_as_raw_bytes() {
    let bytes = [0x54, 0x54, 0x32, 0, 0, 0, 0, 2, 0, 0, 0, 0x68];
    let frame = read_back(4, &bytes);
    assert_eq!(frame.id, "TT2");
    assert_eq!(frame.contents, Contents::Raw(vec![0, 0x68]));
    match Frame::read(4, &[0x54, 0x74, 0x32, 0, 0, 0, 0, 0, 0, 0], 0) {
        FrameRead::Failed(e) => assert_eq!(e.kind, ErrorKind::InvalidInput),
        _ => panic!("lower case identifier accepted"),
    }
    match Frame::read(4, &[0x54, 0, 0x32, 0x32, 0, 0, 0, 0, 0, 0], 0) {
        FrameRead::Failed(e) => assert_eq!(e.kind, ErrorKind::InvalidInput),
        _ => panic!("zero byte inside an identifier accepted"),
    }
    match Frame::read(4, &[0x54, 0x54, 0, 0, 0, 0, 0, 0, 0, 0], 0) {
        FrameRead::Failed(e) => assert_eq!(e.kind, ErrorKind::InvalidInput),
        _ => panic!("identifier of two characters accepted"),
    }
}

#[test]
fn to_bytes_rejects_text_that_latin1_cannot_hold() {
    let frame = text_frame("TIT2", "\u{20ac}", Encoding::Latin1);
    assert_eq!(frame.to_bytes(4).unwrap_err().kind, ErrorKind::InvalidInput);
    let mut link = Frame::new("WOAR");
    link.contents = Contents::Link("http://\u{20ac}".to_string());
    assert_eq!(link.to_bytes(4).unwrap_err().kind, ErrorKind::InvalidInput);
}

#[test]
fn payload_layouts() {
    assert_eq!(
        encode_contents(&Contents::ExtendedText("k".to_string(), "v".to_string()), Encoding::UTF8).unwrap(),
        vec![3, 0x6B, 0, 0x76]
    );
    assert_eq!(
        encode_contents(&Contents::Link("u".to_string()), Encoding::UTF16).unwrap(),
        vec![0x75]
    );
    assert_eq!(
        encode_contents(&Contents::ExtendedLink("d".to_string(), "u".to_string()), Encoding::UTF16BE).unwrap(),
        vec![2, 0, 0x64, 0, 0, 0x75]
    );
    assert_eq!(
        encode_contents(&Contents::Lyrics("la".to_string()), Encoding::Latin1).unwrap(),
        vec![0, 0x65, 0x6E, 0x67, 0, 0x6C, 0x61]
    );
    assert_eq!(
        encode_contents(&Contents::Comment("d".to_string(), "t".to_string()), Encoding::UTF16).unwrap(),
        vec![1, 0x65, 0x6E, 0x67, 0xFF, 0xFE, 0x64, 0, 0, 0, 0xFF, 0xFE, 0x74, 0]
    );
    let picture = Picture {
        mime_type: "image/png".to_string(),
        picture_type: PictureType::CoverFront,
        description: "c".to_string(),
        data: vec![1, 2, 3],
    };
    assert_eq!(
        encode_contents(&Contents::Picture(picture), Encoding::Latin1).unwrap(),
        vec![0, 0x69, 0x6D, 0x61, 0x67, 0x65, 0x2F, 0x70, 0x6E, 0x67, 0, 3, 0x63, 0, 1, 2, 3]
    );
    assert_eq!(encode_contents(&Contents::Raw(vec![9, 8]), Encoding::UTF8).unwrap(), vec![9, 8]);
}

#[test]
fn text_payload_drops_trailing_nulls() {
    let (encoding, contents) = parse_contents(Kind::Text, &[0, 0x61, 0x62, 0, 0], false).unwrap();
    assert_eq!(encoding, Encoding::Latin1);
    assert_eq!(contents, Contents::Text("ab".to_string()));
    let (encoding, contents) =
        parse_contents(Kind::Text, &[1, 0xFF, 0xFE, 0x41, 0, 0, 0], false).unwrap();
    assert_eq!(encoding, Encoding::UTF16);
    assert_eq!(contents, Contents::Text("A".to_string()));
}

#[test]
fn payload_errors() {
    assert_eq!(parse_contents(Kind::Text, &[], false).unwrap_err().kind, ErrorKind::InvalidInput);
    assert_eq!(parse_contents(Kind::Text, &[4, 0x61], false).unwrap_err().kind, ErrorKind::InvalidInput);
    assert_eq!(parse_contents(Kind::Text, &[3, 0xFF], false).unwrap_err().kind, ErrorKind::StringDecoding);
    assert_eq!(parse_contents(Kind::ExtendedText, &[0, 0x61], false).unwrap_err().kind, ErrorKind::InvalidInput);
    assert_eq!(
        parse_contents(Kind::ExtendedText, &[3, 0xFF, 0, 0x61], false).unwrap_err().kind,
        ErrorKind::StringDecoding
    );
    assert_eq!(parse_contents(Kind::Comment, &[0, 0x65, 0x6E], false).unwrap_err().kind, ErrorKind::InvalidInput);
    assert_eq!(
        parse_contents(Kind::Comment, &[0, 0x65, 0x6E, 0x67, 0x61], false).unwrap_err().kind,
        ErrorKind::InvalidInput
    );
    assert_eq!(parse_contents(Kind::Picture, &[0, 0x61], false).unwrap_err().kind, ErrorKind::InvalidInput);
    assert_eq!(parse_contents(Kind::Picture, &[0, 0x61, 0], false).unwrap_err().kind, ErrorKind::InvalidInput);
    assert_eq!(
        parse_contents(Kind::Picture, &[0, 0x61, 0, 0x15, 0], false).unwrap_err().kind,
        ErrorKind::InvalidInput
    );
    assert_eq!(
        parse_contents(Kind::Picture, &[0, 0x61, 0, 0x03, 0x62], false).unwrap_err().kind,
        ErrorKind::InvalidInput
    );
    assert_eq!(
        parse_contents(Kind::Picture, &[0, 0x47, 0x49, 0x46, 0x03, 0], true).unwrap_err().kind,
        ErrorKind::InvalidInput
    );
}

#[test]
fn legacy_picture_payload() {
    let (encoding, contents) =
        parse_contents(Kind::Picture, &[0, 0x4A, 0x50, 0x47, 0x03, 0x63, 0, 9, 9], true).unwrap();
    assert_eq!(encoding, Encoding::Latin1);
    assert_eq!(
        contents,
        Contents::Picture(Picture {
            mime_type: "image/jpeg".to_string(),
            picture_type: PictureType::CoverFront,
            description: "c".to_string(),
            data: vec![9, 9],
        })
    );
    let (_, contents) = parse_contents(Kind::Picture, &[0, 0x50, 0x4E, 0x47, 0x00, 0], true).unwrap();
    assert_eq!(
        contents,
        Contents::Picture(Picture {
            mime_type: "image/png".to_string(),
            picture_type: PictureType::Other,
            description: "".to_string(),
            data: vec![],
        })
    );
}

#[test]
fn frames_round_trip_in_every_encoding() {
    let encodings = [Encoding::Latin1, Encoding::UTF16, Encoding::UTF16BE, Encoding::UTF8];
    for version in [3u8, 4u8].iter() {
        for encoding in encodings.iter() {
            let picture = Picture {
                mime_type: "image/jpeg".to_string(),
                picture_type: PictureType::BandLogo,
                description: "logo \u{e9}".to_string(),
                data: vec![0, 0, 1, 0xFF, 0],
            };
            let samples = vec![
                ("TIT2", Contents::Text("caf\u{e9} title".to_string())),
                ("TXXX", Contents::ExtendedText("key".to_string(), "value \u{ff}".to_string())),
                ("WXXX", Contents::ExtendedLink("desc".to_string(), "http://x/".to_string())),
                ("USLT", Contents::Lyrics("la la\nla".to_string())),
                ("COMM", Contents::Comment("".to_string(), "text".to_string())),
                ("APIC", Contents::Picture(picture)),
            ];
            for (id, contents) in samples {
                let mut frame = Frame::new(id);
                frame.encoding = *encoding;
                frame.contents = contents;
                frame.flags.read_only = true;
                let bytes = frame.to_bytes(*version).unwrap();
                let back = read_back(*version, &bytes);
                assert_eq!(back, frame);
            }
        }
        for (id, contents) in vec![
            ("WOAR", Contents::Link("http://artist/".to_string())),
            ("PRIV", Contents::Raw(vec![1, 0, 2, 0, 0])),
        ] {
            let mut frame = Frame::new(id);
            frame.encoding = Encoding::Latin1;
            frame.contents = contents;
            let bytes = frame.to_bytes(*version).unwrap();
            assert_eq!(read_back(*version, &bytes), frame);
        }
    }
}

#[test]
fn read_reports_padding_and_broken_frames() {
    assert!(matches!(Frame::read(4, &[0, 0, 0, 0, 1, 2], 0), FrameRead::Padding));
    assert!(matches!(Frame::read(2, &[0, 0, 0], 0), FrameRead::Padding));
    match Frame::read(4, &[0x54, 0x49, 0x54], 0) {
        FrameRead::Failed(e) => assert_eq!(e.kind, ErrorKind::InvalidInput),
        _ => panic!("cut identifier accepted"),
    }
    match Frame::read(4, &[0x54, 0x49, 0x54, 0x32, 0, 0, 0], 0) {
        FrameRead::Failed(e) => assert_eq!(e.kind, ErrorKind::InvalidInput),
        _ => panic!("cut header accepted"),
    }
    match Frame::read(4, &[0x54, 0x49, 0x54, 0x32, 0, 0, 0, 5, 0, 0, 0, 0x61], 0) {
        FrameRead::Failed(e) => assert_eq!(e.kind, ErrorKind::InvalidInput),
        _ => panic!("cut payload accepted"),
    }
    match Frame::read(4, &[0x54, 0x69, 0x54, 0x32, 0, 0, 0, 1, 0, 0, 0], 0) {
        FrameRead::Failed(e) => assert_eq!(e.kind, ErrorKind::InvalidInput),
        _ => panic!("lower case identifier accepted"),
    }
    match Frame::read(5, &[0x54, 0x49, 0x54, 0x32, 0, 0, 0, 1, 0, 0, 0], 0) {
        FrameRead::Failed(e) => assert_eq!(e.kind, ErrorKind::InvalidInput),
        _ => panic!("version 5 accepted"),
    }
    match Frame::read(4, &[0x54, 0x49, 0x54, 0x32], 9) {
        FrameRead::Failed(e) => assert_eq!(e.kind, ErrorKind::InvalidInput),
        _ => panic!("position past the end accepted"),
    }
}

#[test]
fn read_passes_over_unsupported_frames() {
    let v4 = [0x54, 0x49, 0x54, 0x32, 0, 0, 0, 2, 0, 0x08, 0, 0x61, 0xEE];
    assert!(matches!(Frame::read(4, &v4, 0), FrameRead::Unsupported(12)));
    let v4 = [0x54, 0x49, 0x54, 0x32, 0, 0, 0, 2, 0, 0x04, 0, 0x61];
    assert!(matches!(Frame::read(4, &v4, 0), FrameRead::Unsupported(12)));
    let v4 = [0x54, 0x49, 0x54, 0x32, 0, 0, 0, 2, 0, 0x02, 0, 0x61];
    assert!(matches!(Frame::read(4, &v4, 0), FrameRead::Unsupported(12)));
    let v3 = [0x54, 0x49, 0x54, 0x32, 0, 0, 0, 2, 0, 0x80, 0, 0x61];
    assert!(matches!(Frame::read(3, &v3, 0), FrameRead::Unsupported(12)));
    let v3 = [0x54, 0x49, 0x54, 0x32, 0, 0, 0, 2, 0, 0x40, 0, 0x61];
    assert!(matches!(Frame::read(3, &v3, 0), FrameRead::Unsupported(12)));
}

#[test]
fn read_version_2_frames() {
    let bytes = [9, 9, 0x54, 0x54, 0x32, 0, 0, 3, 0, 0x68, 0x69, 7];
    match Frame::read(2, &bytes, 2) {
        FrameRead::Frame(frame, next) => {
            assert_eq!(next, 11);
            assert_eq!(frame.id, "TIT2");
            assert_eq!(frame.offset, 2);
            assert_eq!(frame.encoding, Encoding::Latin1);
            assert_eq!(frame.contents, Contents::Text("hi".to_string()));
            assert_eq!(frame.flags, FrameFlags::new());
        }
        _ => panic!("no frame"),
    }
    let unknown = [0x54, 0x5A, 0x5A, 0, 0, 2, 0, 0x68];
    match Frame::read(2, &unknown, 0) {
        FrameRead::Frame(frame, next) => {
            assert_eq!(next, 8);
            assert_eq!(frame.id, "TZZ");
            assert_eq!(frame.contents, Contents::Raw(vec![0, 0x68]));
        }
        _ => panic!("no frame"),
    }
}

#[test]
fn frame_text() {
    assert_eq!(text_frame("TIT2", "t", Encoding::UTF8).text(), Some("t".to_string()));
    let mut frame = Frame::new("TXXX");
    frame.contents = Contents::ExtendedText("k".to_string(), "v".to_string());
    assert_eq!(frame.text(), Some("k: v".to_string()));
    frame.contents = Contents::Comment("d".to_string(), "c".to_string());
    assert_eq!(frame.text(), Some("d: c".to_string()));
    frame.contents = Contents::ExtendedLink("d".to_string(), "u".to_string());
    assert_eq!(frame.text(), Some("d: u".to_string()));
    frame.contents = Contents::Link("u".to_string());
    assert_eq!(frame.text(), Some("u".to_string()));
    frame.contents = Contents::Lyrics("l".to_string());
    assert_eq!(frame.text(), Some("l".to_string()));
    frame.contents = Contents::Raw(vec![1]);
    assert_eq!(frame.text(), None);
    frame.contents = Contents::Picture(Picture::new());
    assert_eq!(frame.text(), None);
}

#[test]
fn picture_type_bytes() {
    for byte in 0u8..=0x14 {
        let picture_type = PictureType::from_byte(byte).unwrap();
        assert_eq!(picture_type.to_byte(), byte);
    }
    assert_eq!(PictureType::from_byte(0x15), None);
    assert_eq!(PictureType::from_byte(0xFF), None);
    assert_eq!(PictureType::Other.to_byte(), 0);
    assert_eq!(PictureType::CoverFront.to_byte(), 3);
    assert_eq!(PictureType::PublisherLogo.to_byte(), 0x14);
}
