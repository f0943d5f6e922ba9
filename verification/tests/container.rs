use id3::{Contents, Encoding, Frame, ID3Tag, Picture, PictureType};

#[test]
fn new_tag_is_version_4() {
    let tag = ID3Tag::new();
    assert_eq!(tag.version(), (4, 0));
    assert_eq!(tag.get_frames().len(), 0);
    assert_eq!(tag.path(), None);
    assert_eq!(tag.size(), 0);
    assert_eq!(tag.offset(), 0);
    assert_eq!(tag.modified_offset(), 0);
    assert!(!tag.needs_rewrite());
}

#[test]
fn default_encoding_follows_version() {
    let tag_v3 = ID3Tag::with_version(3);
    assert_eq!(tag_v3.version(), (3, 0));
    assert_eq!(tag_v3.default_encoding(), Encoding::UTF16);
    let tag_v4 = ID3Tag::with_version(4);
    assert_eq!(tag_v4.default_encoding(), Encoding::UTF8);
}

#[test]
fn get_frames_in_insertion_order() {
    let mut tag = ID3Tag::new();
    tag.add_frame(Frame::new("TPE1"));
    tag.add_frame(Frame::new("APIC"));
    assert_eq!(tag.get_frames().len(), 2);
    assert_eq!(tag.get_frames()[0].id, "TPE1");
    assert_eq!(tag.get_frames()[1].id, "APIC");
}

#[test]
fn get_frame_by_id_finds_first() {
    let mut tag = ID3Tag::new();
    tag.add_frame(Frame::new("TIT2"));
    let mut second = Frame::new("TIT2");
    second.contents = Contents::Text("second".to_string());
    tag.add_frame(second);
    assert!(tag.get_frame_by_id("TIT2").is_some());
    assert_eq!(tag.get_frame_by_id("TIT2").unwrap().contents, Contents::Raw(vec![]));
    assert!(tag.get_frame_by_id("TCON").is_none());
}

#[test]
fn get_frames_by_id_finds_all() {
    let mut tag = ID3Tag::new();
    tag.add_frame(Frame::new("TXXX"));
    tag.add_frame(Frame::new("TXXX"));
    tag.add_frame(Frame::new("TALB"));
    assert_eq!(tag.get_frames_by_id("TXXX").len(), 2);
    assert_eq!(tag.get_frames_by_id("TALB").len(), 1);
    assert_eq!(tag.get_frames_by_id("TIT2").len(), 0);
}

#[test]
fn add_frame_gives_fresh_identity_and_no_offset() {
    let mut tag = ID3Tag::new();
    let mut frame = Frame::new("TALB");
    frame.offset = 77;
    frame.uuid = vec![1, 2, 3];
    tag.add_frame(frame);
    assert_eq!(tag.get_frames()[0].id, "TALB");
    assert_eq!(tag.get_frames()[0].offset, 0);
    for _ in 0..600 {
        tag.add_frame(Frame::new("TXXX"));
    }
    let frames = tag.get_frames();
    for i in 0..frames.len() {
        for j in 0..i {
            assert_ne!(frames[i].uuid, frames[j].uuid);
        }
    }
}

#[test]
fn identities_are_not_handed_out_twice() {
    let mut tag = ID3Tag::new();
    tag.add_frame(Frame::new("TALB"));
    let first = tag.get_frames()[0].uuid.clone();
    tag.remove_frame_by_uuid(&first);
    tag.add_frame(Frame::new("TALB"));
    assert_ne!(tag.get_frames()[0].uuid, first);
}

#[test]
fn add_text_frame_replaces() {
    let mut tag = ID3Tag::new();
    tag.add_text_frame("TCON", "Metal");
    assert_eq!(tag.get_frame_by_id("TCON").unwrap().contents, Contents::Text("Metal".to_string()));
    assert_eq!(tag.get_frame_by_id("TCON").unwrap().encoding, Encoding::UTF8);
    tag.add_text_frame_enc("TRCK", "1/13", Encoding::UTF16);
    assert_eq!(tag.get_frame_by_id("TRCK").unwrap().contents, Contents::Text("1/13".to_string()));
    assert_eq!(tag.get_frame_by_id("TRCK").unwrap().encoding, Encoding::UTF16);
    tag.add_text_frame("TCON", "Jazz");
    assert_eq!(tag.get_frames_by_id("TCON").len(), 1);
    assert_eq!(tag.get_frames()[1].contents, Contents::Text("Jazz".to_string()));
    assert_eq!(tag.get_frames()[0].id, "TRCK");
}

#[test]
fn remove_frame_by_uuid_removes_one() {
    let mut tag = ID3Tag::new();
    tag.add_frame(Frame::new("TPE2"));
    tag.add_frame(Frame::new("TPE2"));
    assert_eq!(tag.get_frames().len(), 2);
    let uuid = tag.get_frames()[0].uuid.clone();
    let other = tag.get_frames()[1].uuid.clone();
    tag.remove_frame_by_uuid(&uuid);
    assert_eq!(tag.get_frames().len(), 1);
    assert_eq!(tag.get_frames()[0].uuid, other);
    tag.remove_frame_by_uuid(&uuid);
    assert_eq!(tag.get_frames().len(), 1);
    tag.remove_frame_by_uuid(&[]);
    assert_eq!(tag.get_frames().len(), 1);
}

#[test]
fn remove_frames_by_id_removes_all() {
    let mut tag = ID3Tag::new();
    tag.add_frame(Frame::new("TXXX"));
    tag.add_frame(Frame::new("TXXX"));
    tag.add_frame(Frame::new("USLT"));
    assert_eq!(tag.get_frames().len(), 3);
    tag.remove_frames_by_id("TXXX");
    assert_eq!(tag.get_frames().len(), 1);
    tag.remove_frames_by_id("USLT");
    assert_eq!(tag.get_frames().len(), 0);
}

#[test]
fn txxx_lists_pairs() {
    let mut tag = ID3Tag::new();
    let mut frame = Frame::new("TXXX");
    frame.contents = Contents::ExtendedText("key1".to_string(), "value1".to_string());
    tag.add_frame(frame);
    let mut frame = Frame::new("TXXX");
    frame.contents = Contents::ExtendedText("key2".to_string(), "value2".to_string());
    tag.add_frame(frame);
    let mut other = Frame::new("TALB");
    other.contents = Contents::ExtendedText("no".to_string(), "no".to_string());
    tag.add_frame(other);
    tag.add_frame(Frame::new("TXXX"));
    assert_eq!(
        tag.txxx(),
        vec![
            ("key1".to_string(), "value1".to_string()),
            ("key2".to_string(), "value2".to_string())
        ]
    );
}

#[test]
fn add_txxx_replaces_same_key() {
    let mut tag = ID3Tag::new();
    tag.add_txxx("key1", "value1");
    tag.add_txxx("key2", "value2");
    assert_eq!(tag.txxx().len(), 2);
    assert!(tag.txxx().contains(&("key1".to_string(), "value1".to_string())));
    assert!(tag.txxx().contains(&("key2".to_string(), "value2".to_string())));
    tag.add_txxx_enc("key1", "other", Encoding::UTF16);
    assert_eq!(
        tag.txxx(),
        vec![
            ("key2".to_string(), "value2".to_string()),
            ("key1".to_string(), "other".to_string())
        ]
    );
    assert_eq!(tag.get_frames()[1].encoding, Encoding::UTF16);
}

#[test]
fn remove_txxx_with_wildcards() {
    let mut tag = ID3Tag::new();
    tag.add_txxx("key1", "value1");
    tag.add_txxx("key2", "value2");
    tag.add_txxx("key3", "value2");
    tag.add_txxx("key4", "value3");
    tag.add_txxx("key5", "value4");
    assert_eq!(tag.txxx().len(), 5);
    tag.remove_txxx(Some("key1"), None);
    assert_eq!(tag.txxx().len(), 4);
    tag.remove_txxx(None, Some("value2"));
    assert_eq!(tag.txxx().len(), 2);
    tag.remove_txxx(Some("key4"), Some("value3"));
    assert_eq!(tag.txxx().len(), 1);
    tag.remove_txxx(None, None);
    assert_eq!(tag.txxx().len(), 0);
}

#[test]
fn remove_txxx_takes_frames_it_cannot_read() {
    let mut tag = ID3Tag::new();
    tag.add_txxx("key1", "value1");
    tag.add_frame(Frame::new("TXXX"));
    tag.add_frame(Frame::new("TALB"));
    tag.remove_txxx(Some("nothing"), Some("nothing"));
    assert_eq!(tag.get_frames().len(), 2);
    assert_eq!(tag.get_frames()[0].id, "TXXX");
    assert_eq!(tag.get_frames()[1].id, "TALB");
    assert_eq!(tag.txxx().len(), 1);
}

#[test]
fn pictures_lists_pictures() {
    let mut tag = ID3Tag::new();
    let mut frame = Frame::new("APIC");
    frame.contents = Contents::Picture(Picture::new());
    tag.add_frame(frame);
    let mut frame = Frame::new("APIC");
    frame.contents = Contents::Picture(Picture::new());
    tag.add_frame(frame);
    tag.add_frame(Frame::new("APIC"));
    assert_eq!(tag.pictures().len(), 2);
}

#[test]
fn add_picture_keeps_one_per_type() {
    let mut tag = ID3Tag::new();
    tag.add_picture("image/jpeg", PictureType::Other, &[0]);
    tag.add_picture("image/png", PictureType::Other, &[0]);
    assert_eq!(tag.pictures().len(), 1);
    assert_eq!(tag.pictures()[0].mime_type, "image/png");
    tag.add_picture_enc("image/jpeg", PictureType::CoverFront, "front", &[1, 2], Encoding::UTF16);
    tag.add_picture_enc("image/png", PictureType::CoverFront, "", &[3], Encoding::UTF16);
    assert_eq!(tag.pictures().len(), 2);
    assert_eq!(tag.pictures()[1].mime_type, "image/png");
    assert_eq!(tag.pictures()[1].data, vec![3]);
    assert_eq!(tag.pictures()[1].description, "");
    assert_eq!(tag.get_frames()[1].encoding, Encoding::UTF16);
    assert_eq!(tag.get_frames()[0].encoding, Encoding::Latin1);
    let others = tag.pictures().iter().filter(|p| p.picture_type == PictureType::Other).count();
    assert_eq!(others, 1);
}

#[test]
fn remove_picture_type_removes_that_type() {
    let mut tag = ID3Tag::new();
    tag.add_picture("image/jpeg", PictureType::CoverFront, &[0]);
    tag.add_picture("image/png", PictureType::Other, &[0]);
    assert_eq!(tag.pictures().len(), 2);
    tag.remove_picture_type(PictureType::CoverFront);
    assert_eq!(tag.pictures().len(), 1);
    assert_eq!(tag.pictures()[0].picture_type, PictureType::Other);
}

#[test]
fn remove_picture_type_takes_frames_it_cannot_read() {
    let mut tag = ID3Tag::new();
    tag.add_picture("image/png", PictureType::Other, &[0]);
    tag.add_frame(Frame::new("APIC"));
    tag.remove_picture_type(PictureType::CoverFront);
    assert_eq!(tag.get_frames().len(), 1);
    assert_eq!(tag.pictures().len(), 1);
}

#[test]
fn comments_and_their_removal() {
    let mut tag = ID3Tag::new();
    tag.add_comment("key1", "value1");
    tag.add_comment("key2", "value2");
    tag.add_comment_enc("key3", "value2", Encoding::UTF16);
    tag.add_comment("key4", "value3");
    tag.add_comment("key5", "value4");
    assert_eq!(tag.comments().len(), 5);
    assert!(tag.comments().contains(&("key1".to_string(), "value1".to_string())));
    tag.remove_comment(Some("key1"), None);
    assert_eq!(tag.comments().len(), 4);
    tag.remove_comment(None, Some("value2"));
    assert_eq!(tag.comments().len(), 2);
    tag.remove_comment(Some("key4"), Some("value3"));
    assert_eq!(tag.comments().len(), 1);
    tag.add_comment("key5", "again");
    assert_eq!(tag.comments(), vec![("key5".to_string(), "again".to_string())]);
    tag.remove_comment(None, None);
    assert_eq!(tag.comments().len(), 0);
}

#[test]
fn setters_with_encoding() {
    let mut tag = ID3Tag::new();
    tag.set_artist_enc("artist", Encoding::UTF16);
    assert_eq!(tag.artist().unwrap(), "artist");
    tag.add_text_frame("TSOP", "sort");
    tag.set_album_artist_enc("album artist", Encoding::UTF16);
    assert_eq!(tag.album_artist().unwrap(), "album artist");
    assert!(tag.get_frame_by_id("TSOP").is_none());
    tag.add_text_frame("TSOP", "sort");
    tag.set_album_enc("album", Encoding::UTF16);
    assert_eq!(tag.album().unwrap(), "album");
    assert!(tag.get_frame_by_id("TSOP").is_none());
    tag.add_text_frame("TSOT", "sort");
    tag.set_title_enc("title", Encoding::UTF16);
    assert_eq!(tag.title().unwrap(), "title");
    assert!(tag.get_frame_by_id("TSOT").is_none());
    tag.set_genre_enc("genre", Encoding::UTF16);
    assert_eq!(tag.genre().unwrap(), "genre");
    tag.set_lyrics_enc("lyrics", Encoding::UTF16);
    assert_eq!(tag.lyrics().unwrap(), "lyrics");
    for frame in tag.get_frames() {
        assert_eq!(frame.encoding, Encoding::UTF16);
    }
}

#[test]
fn plain_setters_and_removers() {
    let mut tag = ID3Tag::with_version(3);
    tag.set_artist("artist");
    tag.set_album_artist("album artist");
    tag.set_album("album");
    tag.set_title("title");
    tag.set_genre("genre");
    tag.set_lyrics("lyrics");
    assert_eq!(tag.artist().unwrap(), "artist");
    assert_eq!(tag.album_artist().unwrap(), "album artist");
    assert_eq!(tag.album().unwrap(), "album");
    assert_eq!(tag.title().unwrap(), "title");
    assert_eq!(tag.genre().unwrap(), "genre");
    assert_eq!(tag.lyrics().unwrap(), "lyrics");
    for frame in tag.get_frames() {
        assert_eq!(frame.encoding, Encoding::UTF16);
    }
    tag.add_text_frame("TSOP", "sort");
    tag.set_album("album 2");
    assert!(tag.get_frame_by_id("TSOP").is_none());
    tag.add_text_frame("TSOP", "sort");
    tag.set_album_artist("album artist 2");
    assert!(tag.get_frame_by_id("TSOP").is_none());
    tag.add_text_frame("TSOP", "sort");
    tag.remove_album();
    assert!(tag.get_frame_by_id("TSOP").is_none());
    assert!(tag.album().is_none());
    tag.remove_artist();
    assert!(tag.artist().is_none());
    tag.remove_album_artist();
    assert!(tag.album_artist().is_none());
    tag.remove_title();
    assert!(tag.title().is_none());
    tag.remove_genre();
    assert!(tag.genre().is_none());
    tag.remove_lyrics();
    assert!(tag.lyrics().is_none());
    assert_eq!(tag.get_frames().len(), 0);
}

#[test]
fn getters_want_the_right_payload() {
    let mut tag = ID3Tag::new();
    tag.add_frame(Frame::new("TPE1"));
    tag.add_text_frame_enc("USLT", "text, no lyrics", Encoding::UTF8);
    assert!(tag.artist().is_none());
    assert!(tag.lyrics().is_none());
}

#[test]
fn year_is_parsed() {
    let mut tag = ID3Tag::new();
    assert!(tag.year().is_none());
    let mut frame_valid = Frame::new("TYER");
    frame_valid.contents = Contents::Text("2014".to_string());
    tag.add_frame(frame_valid);
    assert_eq!(tag.year().unwrap(), 2014);
    tag.remove_frames_by_id("TYER");
    let mut frame_invalid = Frame::new("TYER");
    frame_invalid.contents = Contents::Text("nope".to_string());
    tag.add_frame(frame_invalid);
    assert!(tag.year().is_none());
    tag.set_year(2014);
    assert_eq!(tag.year().unwrap(), 2014);
    assert_eq!(tag.get_frame_by_id("TYER").unwrap().contents, Contents::Text("2014".to_string()));
    assert_eq!(tag.get_frame_by_id("TYER").unwrap().encoding, Encoding::Latin1);
    tag.set_year_enc(0, Encoding::UTF16);
    assert_eq!(tag.year().unwrap(), 0);
    assert_eq!(tag.get_frame_by_id("TYER").unwrap().contents, Contents::Text("0".to_string()));
    tag.add_text_frame("TYER", "");
    assert!(tag.year().is_none());
    tag.add_text_frame("TYER", "-1");
    assert!(tag.year().is_none());
    tag.add_text_frame("TYER", "99999999999999999999999999");
    assert!(tag.year().is_none());
    tag.add_text_frame("TYER", "007");
    assert_eq!(tag.year().unwrap(), 7);
}

#[test]
fn track_and_total_are_parsed() {
    let mut tag = ID3Tag::new();
    assert_eq!(tag.track(), None);
    assert_eq!(tag.total_tracks(), None);
    tag.add_text_frame("TRCK", "5/13");
    assert_eq!(tag.track(), Some(5));
    assert_eq!(tag.total_tracks(), Some(13));
    tag.add_text_frame("TRCK", "7");
    assert_eq!(tag.track(), Some(7));
    assert_eq!(tag.total_tracks(), None);
    tag.add_text_frame("TRCK", "nope");
    assert_eq!(tag.track(), None);
    assert_eq!(tag.total_tracks(), None);
    for text in ["", "/", "5/", "/13", "5/x", "x/13", "5/13/2", "4294967296", "1/4294967296", " 5"].iter() {
        tag.add_text_frame("TRCK", text);
        assert_eq!(tag.track(), None);
        assert_eq!(tag.total_tracks(), None);
    }
    tag.add_text_frame("TRCK", "4294967295/0");
    assert_eq!(tag.track(), Some(4294967295));
    assert_eq!(tag.total_tracks(), Some(0));
}

#[test]
fn track_setters_keep_the_other_number() {
    let mut tag = ID3Tag::new();
    tag.set_track_enc(5, Encoding::UTF16);
    assert_eq!(tag.track().unwrap(), 5);
    assert_eq!(tag.get_frame_by_id("TRCK").unwrap().contents, Contents::Text("5".to_string()));
    tag.set_total_tracks_enc(12, Encoding::UTF16);
    assert_eq!(tag.total_tracks().unwrap(), 12);
    assert_eq!(tag.get_frame_by_id("TRCK").unwrap().contents, Contents::Text("5/12".to_string()));
    tag.set_track(6);
    assert_eq!(tag.get_frame_by_id("TRCK").unwrap().contents, Contents::Text("6/12".to_string()));
    assert_eq!(tag.get_frame_by_id("TRCK").unwrap().encoding, Encoding::Latin1);
    tag.remove_total_tracks();
    assert_eq!(tag.get_frame_by_id("TRCK").unwrap().contents, Contents::Text("6".to_string()));
    assert_eq!(tag.total_tracks(), None);
    assert!(tag.album().is_none());
    tag.remove_track();
    assert_eq!(tag.track(), None);
    tag.remove_total_tracks();
    assert_eq!(tag.get_frames().len(), 0);
    tag.set_total_tracks(9);
    assert_eq!(tag.get_frame_by_id("TRCK").unwrap().contents, Contents::Text("1/9".to_string()));
    assert_eq!(tag.track(), Some(1));
    assert_eq!(tag.total_tracks(), Some(9));
}

#[test]
fn set_picture_clears_every_picture() {
    let mut tag = ID3Tag::new();
    tag.add_picture("image/jpeg", PictureType::CoverFront, &[1]);
    tag.add_picture("image/jpeg", PictureType::CoverBack, &[2]);
    tag.set_picture("image/png", &[3]);
    assert_eq!(tag.pictures().len(), 1);
    assert_eq!(tag.pictures()[0].picture_type, PictureType::Other);
    assert_eq!(tag.pictures()[0].mime_type, "image/png");
    assert_eq!(tag.pictures()[0].data, vec![3]);
    tag.remove_picture();
    assert_eq!(tag.pictures().len(), 0);
}

#[test]
fn all_metadata_lists_texts() {
    let mut tag = ID3Tag::new();
    tag.set_title("title");
    tag.add_txxx("k", "v");
    tag.add_picture("image/png", PictureType::Other, &[0]);
    tag.add_frame(Frame::new("PRIV"));
    tag.add_comment("d", "c");
    assert_eq!(
        tag.all_metadata(),
        vec![
            ("TIT2".to_string(), "title".to_string()),
            ("TXXX".to_string(), "k: v".to_string()),
            ("COMM".to_string(), "d: c".to_string())
        ]
    );
}
