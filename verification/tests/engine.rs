use id3::{Contents, Encoding, ErrorKind, Frame, ID3Tag, PictureType, WritePlan};

fn header(major: u8, flags: u8, size: u32) -> Vec<u8> {
    let mut out = vec![0x49, 0x44, 0x33, major, 0, flags];
    out.push(((size >> 21) & 0x7F) as u8);
    out.push(((size >> 14) & 0x7F) as u8);
    out.push(((size >> 7) & 0x7F) as u8);
    out.push((size & 0x7F) as u8);
    out
}

fn text_frame_v4(id: &str, text: &str, status: u8) -> Vec<u8> {
    let mut out = id.as_bytes().to_vec();
    out.extend_from_slice(&[0, 0, 0, (text.len() + 1) as u8, status, 0, 0]);
    out.extend_from_slice(text.as_bytes());
    out
}

fn sample_file(body: &[u8]) -> Vec<u8> {
    let mut frames = text_frame_v4("TIT2", "title", 0);
    frames.extend(text_frame_v4("TPE1", "artist", 0));
    frames.extend(text_frame_v4("TALB", "album", 0));
    let mut file = header(4, 0, (frames.len() + 100) as u32);
    file.extend(frames);
    file.extend(vec![0u8; 100]);
    file.extend_from_slice(body);
    file
}

fn overwrite_parts(plan: &WritePlan) -> (u64, Vec<u8>) {
    match plan {
        WritePlan::Overwrite { position, bytes } => (*position, bytes.clone()),
        WritePlan::Rewrite { .. } => panic!("the whole file is written"),
    }
}

fn rewrite_head(plan: &WritePlan) -> Vec<u8> {
    match plan {
        WritePlan::Rewrite { head } => head.clone(),
        WritePlan::Overwrite { .. } => panic!("the file is written in part"),
    }
}

#[test]
fn is_candidate_wants_the_magic() {
    assert!(ID3Tag::is_candidate(&[0x49, 0x44, 0x33]));
    assert!(ID3Tag::is_candidate(&sample_file(&[1, 2, 3])));
    assert!(!ID3Tag::is_candidate(&[0x49, 0x44]));
    assert!(!ID3Tag::is_candidate(&[]));
    assert!(!ID3Tag::is_candidate(&[0xFF, 0xFB, 0x90, 0x00]));
    assert!(!ID3Tag::is_candidate(&[0x49, 0x44, 0x34, 0x33]));
}

#[test]
fn skip_metadata_returns_what_follows_the_tag() {
    let body = [0xFF, 0xFB, 0x90, 0x00, 1, 2, 3];
    assert_eq!(ID3Tag::skip_metadata(&sample_file(&body)), body.to_vec());
    assert_eq!(ID3Tag::skip_metadata(&sample_file(&[])), Vec::<u8>::new());
}

#[test]
fn skip_metadata_returns_a_file_without_tag_whole() {
    let file = [0xFF, 0xFB, 0x90, 0x00, 1, 2, 3];
    assert_eq!(ID3Tag::skip_metadata(&file), file.to_vec());
    assert_eq!(ID3Tag::skip_metadata(&[]), Vec::<u8>::new());
    assert_eq!(ID3Tag::skip_metadata(&[0x49, 0x44]), vec![0x49, 0x44]);
}

#[test]
fn skip_metadata_of_a_cut_header_is_empty() {
    assert_eq!(ID3Tag::skip_metadata(&[0x49, 0x44, 0x33, 0x04, 0x00]), Vec::<u8>::new());
    assert_eq!(ID3Tag::skip_metadata(&[0x49, 0x44, 0x33]), Vec::<u8>::new());
    assert_eq!(ID3Tag::skip_metadata(&[0x49, 0x44, 0x33, 4, 0, 0, 0, 0, 0]), Vec::<u8>::new());
    assert_eq!(ID3Tag::skip_metadata(&[0x49, 0x44, 0x33, 4, 0, 0, 0, 0, 0, 0]), Vec::<u8>::new());
    assert_eq!(ID3Tag::skip_metadata(&[0x49, 0x44, 0x33, 4, 0, 0, 0, 0, 0, 0, 7]), vec![7]);
}

#[test]
fn skip_metadata_of_a_tag_longer_than_the_file() {
    let mut file = header(4, 0, 500);
    file.extend_from_slice(&[1, 2, 3]);
    assert_eq!(ID3Tag::skip_metadata(&file), Vec::<u8>::new());
}

#[test]
fn load_reads_frames_in_order() {
    let file = sample_file(&[0xFF, 0xFB]);
    let tag = ID3Tag::load("a.mp3", &file).unwrap();
    assert_eq!(tag.path(), Some("a.mp3"));
    assert_eq!(tag.version(), (4, 0));
    assert_eq!(tag.size(), 16 + 17 + 16 + 100);
    let frames = tag.get_frames();
    assert_eq!(frames.len(), 3);
    assert_eq!(frames[0].id, "TIT2");
    assert_eq!(frames[0].offset, 10);
    assert_eq!(frames[0].contents, Contents::Text("title".to_string()));
    assert_eq!(frames[0].encoding, Encoding::Latin1);
    assert_eq!(frames[1].id, "TPE1");
    assert_eq!(frames[1].offset, 26);
    assert_eq!(frames[2].id, "TALB");
    assert_eq!(frames[2].offset, 43);
    assert_eq!(tag.offset(), 59);
    assert_eq!(tag.modified_offset(), 59);
    assert!(!tag.needs_rewrite());
    assert_ne!(frames[0].uuid, frames[1].uuid);
    assert_ne!(frames[1].uuid, frames[2].uuid);
    assert_ne!(frames[0].uuid, frames[2].uuid);
    assert_eq!(tag.title().unwrap(), "title");
    assert_eq!(tag.artist().unwrap(), "artist");
    assert_eq!(tag.album().unwrap(), "album");
}

#[test]
fn load_stops_at_the_declared_size() {
    let mut frames = text_frame_v4("TIT2", "title", 0);
    let first = frames.len();
    frames.extend(text_frame_v4("TPE1", "artist", 0));
    let mut file = header(4, 0, first as u32);
    file.extend(frames);
    let tag = ID3Tag::load("a.mp3", &file).unwrap();
    assert_eq!(tag.get_frames().len(), 1);
    assert_eq!(tag.offset(), 10 + first as u64);
}

#[test]
fn load_rejects_what_is_no_tag() {
    assert_eq!(ID3Tag::load("a", &[]).unwrap_err().kind, ErrorKind::InvalidInput);
    assert_eq!(ID3Tag::load("a", &[0xFF, 0xFB, 0x90, 0]).unwrap_err().kind, ErrorKind::InvalidInput);
    assert_eq!(ID3Tag::load("a", &[0x49, 0x44, 0x33]).unwrap_err().kind, ErrorKind::InvalidInput);
    assert_eq!(ID3Tag::load("a", &header(5, 0, 0)).unwrap_err().kind, ErrorKind::InvalidInput);
    assert_eq!(ID3Tag::load("a", &header(1, 0, 0)).unwrap_err().kind, ErrorKind::InvalidInput);
    assert_eq!(ID3Tag::load("a", &[0x49, 0x44, 0x33, 4, 0, 0, 0, 0]).unwrap_err().kind, ErrorKind::InvalidInput);
}

#[test]
fn load_rejects_unsupported_tags() {
    assert_eq!(ID3Tag::load("a", &header(4, 0x80, 0)).unwrap_err().kind, ErrorKind::UnsupportedFeature);
    assert_eq!(ID3Tag::load("a", &header(3, 0x80, 0)).unwrap_err().kind, ErrorKind::UnsupportedFeature);
    assert_eq!(ID3Tag::load("a", &header(2, 0x40, 0)).unwrap_err().kind, ErrorKind::UnsupportedFeature);
    assert_eq!(
        ID3Tag::load("a", &[0x49, 0x44, 0x33, 4, 0, 0x80]).unwrap_err().kind,
        ErrorKind::UnsupportedFeature
    );
}

#[test]
fn load_rejects_broken_frames() {
    let mut file = header(4, 0, 30);
    file.extend_from_slice(&[0x54, 0x49, 0x54, 0x32, 0, 0, 0, 20, 0, 0, 0, 0x61]);
    assert_eq!(ID3Tag::load("a", &file).unwrap_err().kind, ErrorKind::InvalidInput);
    let mut file = header(4, 0, 12);
    file.extend_from_slice(&[0x54, 0x49, 0x54, 0x32, 0, 0, 0, 2, 0, 0, 3, 0xFF]);
    assert_eq!(ID3Tag::load("a", &file).unwrap_err().kind, ErrorKind::StringDecoding);
    let file = header(4, 0, 30);
    assert_eq!(ID3Tag::load("a", &file).unwrap_err().kind, ErrorKind::InvalidInput);
}

#[test]
fn load_reads_the_header_flags() {
    let mut file = header(4, 0x30, 0);
    file.extend_from_slice(&[1, 2]);
    let tag = ID3Tag::load("a", &file).unwrap();
    assert!(tag.flags().experimental);
    assert!(tag.flags().footer);
    assert!(!tag.flags().extended_header);
    assert!(!tag.flags().unsynchronization);
    assert!(!tag.flags().compression);
    let tag = ID3Tag::load("a", &header(2, 0x30, 0)).unwrap();
    assert!(!tag.flags().experimental);
    assert!(!tag.flags().footer);
}

#[test]
fn load_skips_the_extended_header() {
    let frame = text_frame_v4("TIT2", "title", 0);
    let mut file = header(4, 0x40, (4 + 6 + frame.len()) as u32);
    file.extend_from_slice(&[0, 0, 0, 6, 9, 9, 9, 9, 9, 9]);
    file.extend(frame);
    let tag = ID3Tag::load("a", &file).unwrap();
    assert!(tag.flags().extended_header);
    assert_eq!(tag.get_frames().len(), 1);
    assert_eq!(tag.get_frames()[0].offset, 20);
    assert_eq!(tag.title().unwrap(), "title");
    assert_eq!(ID3Tag::load("a", &header(4, 0x40, 0)).unwrap_err().kind, ErrorKind::InvalidInput);
}

#[test]
fn load_passes_over_unsupported_frames() {
    let mut frames = text_frame_v4("TIT2", "title", 0);
    let mut packed = text_frame_v4("TPE1", "artist", 0);
    packed[9] = 0x08;
    frames.extend(packed);
    frames.extend(text_frame_v4("TALB", "album", 0));
    let mut file = header(4, 0, frames.len() as u32);
    file.extend(frames);
    let tag = ID3Tag::load("a", &file).unwrap();
    assert_eq!(tag.get_frames().len(), 2);
    assert_eq!(tag.get_frames()[0].id, "TIT2");
    assert_eq!(tag.get_frames()[1].id, "TALB");
    assert_eq!(tag.get_frames()[1].offset, 43);
    assert_eq!(tag.offset(), 59);
}

#[test]
fn load_upgrades_version_2() {
    let mut frames = vec![0x54, 0x54, 0x32, 0, 0, 6, 0];
    frames.extend_from_slice(b"title");
    frames.extend_from_slice(&[0x54, 0x50, 0x31, 0, 0, 3, 0, 0x61, 0x62]);
    let mut file = header(2, 0, (frames.len() + 10) as u32);
    file[4] = 7;
    file.extend(frames);
    file.extend(vec![0u8; 10]);
    file.extend_from_slice(&[0xFF, 0xFB, 1, 2]);
    let mut tag = ID3Tag::load("old.mp3", &file).unwrap();
    assert_eq!(tag.version(), (4, 0));
    assert!(tag.needs_rewrite());
    assert_eq!(tag.get_frames().len(), 2);
    assert_eq!(tag.title().unwrap(), "title");
    assert_eq!(tag.artist().unwrap(), "ab");
    assert_eq!(tag.get_frames()[0].offset, 10);
    assert_eq!(tag.get_frames()[1].offset, 22);
    assert_eq!(tag.offset(), 31);

    let plan = tag.save().unwrap();
    let head = rewrite_head(&plan);
    assert_eq!(&head[0..6], &[0x49, 0x44, 0x33, 4, 0, 0]);
    let after = plan.apply(&file);
    let again = ID3Tag::load("old.mp3", &after).unwrap();
    assert_eq!(again.version(), (4, 0));
    assert!(!again.needs_rewrite());
    assert_eq!(again.title().unwrap(), "title");
    assert_eq!(again.artist().unwrap(), "ab");
    assert_eq!(ID3Tag::skip_metadata(&after), vec![0xFF, 0xFB, 1, 2]);
}

#[test]
fn write_to_a_new_file_writes_everything() {
    let mut tag = ID3Tag::new();
    tag.set_title_enc("t", Encoding::Latin1);
    tag.set_artist_enc("a", Encoding::Latin1);
    let plan = tag.write("new.mp3").unwrap();
    let head = rewrite_head(&plan);
    let mut expected = header(4, 0, 24 + 2048);
    expected.extend(text_frame_v4("TIT2", "t", 0));
    expected.extend(text_frame_v4("TPE1", "a", 0));
    expected.extend(vec![0u8; 2048]);
    assert_eq!(head, expected);
    assert_eq!(tag.path(), Some("new.mp3"));
    assert_eq!(tag.size(), 24 + 2048);
    assert_eq!(tag.offset(), 34);
    assert_eq!(tag.modified_offset(), 34);
    assert_eq!(tag.get_frames()[0].offset, 10);
    assert_eq!(tag.get_frames()[1].offset, 22);

    let audio = [0xFF, 0xFB, 0x90, 0x00, 5, 6, 7];
    let after = plan.apply(&audio);
    let mut whole = expected.clone();
    whole.extend_from_slice(&audio);
    assert_eq!(after, whole);
}

#[test]
fn write_version_3_to_a_new_file_upgrades() {
    let mut tag = ID3Tag::with_version(3);
    tag.set_title_enc("t", Encoding::Latin1);
    let plan = tag.write("new.mp3").unwrap();
    assert_eq!(&rewrite_head(&plan)[0..5], &[0x49, 0x44, 0x33, 4, 0]);
    assert_eq!(tag.version(), (4, 0));
}

#[test]
fn save_keeps_the_audio_body() {
    let body: Vec<u8> = (0..=255u8).cycle().take(1000).collect();
    let file = sample_file(&body);
    let mut tag = ID3Tag::load("a.mp3", &file).unwrap();
    tag.set_title("x");
    let plan = tag.save().unwrap();
    let after = plan.apply(&file);
    assert_eq!(&after[10 + tag.size() as usize..], &body[..]);
    assert_eq!(ID3Tag::skip_metadata(&after), body);
    let again = ID3Tag::load("a.mp3", &after).unwrap();
    assert_eq!(again.title().unwrap(), "x");
    assert_eq!(again.artist().unwrap(), "artist");
    assert_eq!(again.album().unwrap(), "album");
}

#[test]
fn save_into_padding_writes_in_part() {
    let body: Vec<u8> = (0..=255u8).cycle().take(1000).collect();
    let file = sample_file(&body);
    let mut tag = ID3Tag::load("a.mp3", &file).unwrap();
    tag.set_artist("new");
    assert_eq!(tag.modified_offset(), 26);
    let plan = tag.save().unwrap();
    let (position, bytes) = overwrite_parts(&plan);
    assert_eq!(position, 26);
    let mut expected = text_frame_v4("TALB", "album", 0);
    let mut artist = b"TPE1".to_vec();
    artist.extend_from_slice(&[0, 0, 0, 4, 0, 0, 3]);
    artist.extend_from_slice(b"new");
    expected.extend(artist);
    expected.extend(vec![0u8; 3]);
    assert_eq!(bytes, expected);
    assert_eq!(tag.offset(), 56);
    assert_eq!(tag.modified_offset(), 56);
    assert_eq!(tag.get_frames()[0].offset, 10);
    assert_eq!(tag.get_frames()[1].offset, 26);
    assert_eq!(tag.get_frames()[1].id, "TALB");
    assert_eq!(tag.get_frames()[2].offset, 42);
    assert_eq!(tag.size(), 149);

    let after = plan.apply(&file);
    assert_eq!(after.len(), file.len());
    assert_eq!(&after[159..], &body[..]);
    assert_eq!(&after[..26], &file[..26]);
    let again = ID3Tag::load("a.mp3", &after).unwrap();
    assert_eq!(again.get_frames().len(), 3);
    assert_eq!(again.title().unwrap(), "title");
    assert_eq!(again.album().unwrap(), "album");
    assert_eq!(again.artist().unwrap(), "new");
    assert_eq!(again.offset(), 56);
}

#[test]
fn save_without_changes_writes_nothing() {
    let file = sample_file(&[1, 2, 3]);
    let mut tag = ID3Tag::load("a.mp3", &file).unwrap();
    let plan = tag.save().unwrap();
    let (position, bytes) = overwrite_parts(&plan);
    assert_eq!(position, 59);
    assert_eq!(bytes, Vec::<u8>::new());
    assert_eq!(plan.apply(&file), file);
    assert_eq!(tag.offset(), 59);
}

#[test]
fn save_zeroes_what_a_removed_frame_leaves() {
    let file = sample_file(&[1, 2, 3]);
    let mut tag = ID3Tag::load("a.mp3", &file).unwrap();
    tag.remove_album();
    assert_eq!(tag.modified_offset(), 43);
    let plan = tag.save().unwrap();
    let (position, bytes) = overwrite_parts(&plan);
    assert_eq!(position, 43);
    assert_eq!(bytes, vec![0u8; 16]);
    let after = plan.apply(&file);
    assert_eq!(after.len(), file.len());
    let again = ID3Tag::load("a.mp3", &after).unwrap();
    assert_eq!(again.get_frames().len(), 2);
    assert_eq!(again.offset(), 43);
    assert_eq!(ID3Tag::skip_metadata(&after), vec![1, 2, 3]);
}

#[test]
fn save_writes_everything_when_the_frames_outgrow_the_tag() {
    let body = [9u8, 8, 7, 6];
    let file = sample_file(&body);
    let mut tag = ID3Tag::load("a.mp3", &file).unwrap();
    let long: String = std::iter::repeat('x').take(300).collect();
    tag.set_title_enc(&long, Encoding::Latin1);
    let plan = tag.save().unwrap();
    let head = rewrite_head(&plan);
    assert_eq!(tag.size() as usize, 17 + 16 + 311 + 2048);
    assert_eq!(head.len(), 10 + tag.size() as usize);
    assert_eq!(tag.offset(), 10 + 17 + 16 + 311);
    assert_eq!(tag.version(), (4, 0));
    let after = plan.apply(&file);
    assert_eq!(&after[head.len()..], &body[..]);
    let again = ID3Tag::load("a.mp3", &after).unwrap();
    assert_eq!(again.get_frames().len(), 3);
    assert_eq!(again.get_frames()[0].id, "TPE1");
    assert_eq!(again.get_frames()[1].id, "TALB");
    assert_eq!(again.get_frames()[2].id, "TIT2");
    assert_eq!(again.title().unwrap(), long);
}

#[test]
fn frames_keep_their_order_through_save_and_load() {
    let mut tag = ID3Tag::new();
    tag.set_title("title");
    tag.add_txxx("k1", "v1");
    tag.add_comment("d", "c");
    tag.add_picture("image/png", PictureType::CoverFront, &[1, 2, 3]);
    tag.add_txxx("k2", "v2");
    tag.set_lyrics("la");
    let mut private = Frame::new("PRIV");
    private.encoding = Encoding::Latin1;
    private.contents = Contents::Raw(vec![1, 2, 3]);
    tag.add_frame(private);
    let plan = tag.write("a.mp3").unwrap();
    let file = plan.apply(&[0xAA, 0xBB]);
    let again = ID3Tag::load("a.mp3", &file).unwrap();
    assert_eq!(again.get_frames().len(), tag.get_frames().len());
    for (a, b) in again.get_frames().iter().zip(tag.get_frames().iter()) {
        assert_eq!(a.id, b.id);
        assert_eq!(a.encoding, b.encoding);
        assert_eq!(a.flags, b.flags);
        assert_eq!(a.contents, b.contents);
        assert_eq!(a.offset, b.offset);
    }
    assert_eq!(again.offset(), tag.offset());
    assert_eq!(again.size(), tag.size());
}

#[test]
fn save_drops_frames_that_ask_for_it() {
    let mut frames = text_frame_v4("TIT2", "title", 0x40);
    frames.extend(text_frame_v4("TPE1", "artist", 0x20));
    frames.extend(text_frame_v4("TLEN", "1000", 0));
    frames.extend(text_frame_v4("TALB", "album", 0));
    let mut file = header(4, 0, (frames.len() + 50) as u32);
    file.extend(frames);
    file.extend(vec![0u8; 50]);
    file.extend_from_slice(&[1, 2, 3]);

    let mut same = ID3Tag::load("a.mp3", &file).unwrap();
    assert!(same.get_frames()[0].flags.tag_alter_preservation);
    assert!(same.get_frames()[1].flags.file_alter_preservation);
    let plan = same.save().unwrap();
    overwrite_parts(&plan);
    let ids: Vec<String> = same.get_frames().iter().map(|f| f.id.clone()).collect();
    assert_eq!(ids, vec!["TPE1", "TLEN", "TALB"]);

    let mut moved = ID3Tag::load("a.mp3", &file).unwrap();
    let plan = moved.write("b.mp3").unwrap();
    rewrite_head(&plan);
    let ids: Vec<String> = moved.get_frames().iter().map(|f| f.id.clone()).collect();
    assert_eq!(ids, vec!["TALB"]);
    assert_eq!(moved.path(), Some("b.mp3"));
    assert_eq!(moved.get_frames()[0].offset, 10);
    let after = plan.apply(&[7, 7]);
    let again = ID3Tag::load("b.mp3", &after).unwrap();
    assert_eq!(again.get_frames().len(), 1);
    assert_eq!(again.album().unwrap(), "album");

    let mut added = ID3Tag::load("a.mp3", &file).unwrap();
    let mut fresh = Frame::new("TLEN");
    fresh.encoding = Encoding::Latin1;
    fresh.contents = Contents::Text("5".to_string());
    fresh.flags.tag_alter_preservation = true;
    added.add_frame(fresh);
    added.write("c.mp3").unwrap();
    let ids: Vec<String> = added.get_frames().iter().map(|f| f.id.clone()).collect();
    assert_eq!(ids, vec!["TALB", "TLEN"]);
}

#[test]
fn save_clears_the_extended_header() {
    let frame = text_frame_v4("TIT2", "title", 0);
    let mut file = header(3, 0x60, (4 + 6 + frame.len()) as u32);
    file.extend_from_slice(&[0, 0, 0, 6, 9, 9, 9, 9, 9, 9]);
    let mut v3 = frame.clone();
    v3[8] = 0;
    file.extend(v3);
    file.extend_from_slice(&[5, 5]);
    let mut tag = ID3Tag::load("a.mp3", &file).unwrap();
    assert_eq!(tag.version(), (3, 0));
    let plan = tag.save().unwrap();
    let head = rewrite_head(&plan);
    assert_eq!(&head[0..6], &[0x49, 0x44, 0x33, 4, 0, 0x20]);
    assert!(!tag.flags().extended_header);
    assert!(tag.flags().experimental);
    assert_eq!(tag.version(), (4, 0));
}

#[test]
fn write_fails_and_leaves_the_tag_alone() {
    let mut tag = ID3Tag::new();
    tag.set_title_enc("\u{20ac}", Encoding::Latin1);
    assert_eq!(tag.write("a.mp3").unwrap_err().kind, ErrorKind::InvalidInput);
    assert_eq!(tag.path(), None);
    assert_eq!(tag.offset(), 0);
    assert_eq!(tag.get_frames().len(), 1);

    let mut tag = ID3Tag::new();
    tag.add_frame(Frame::new("tit2"));
    assert_eq!(tag.write("a.mp3").unwrap_err().kind, ErrorKind::InvalidInput);
    assert_eq!(tag.get_frames().len(), 1);
    assert_eq!(tag.path(), None);
}

#[test]
fn unknown_frame_of_version_2_is_kept_through_a_save() {
    let mut frames = vec![0x54, 0x54, 0x32, 0, 0, 6, 0];
    frames.extend_from_slice(b"title");
    frames.extend_from_slice(&[0x58, 0x59, 0x5A, 0, 0, 3, 7, 8, 9]);
    let mut file = header(2, 0, frames.len() as u32);
    file.extend(frames);
    file.extend_from_slice(&[0xFF, 0xFB, 1, 2]);
    let mut tag = ID3Tag::load("old.mp3", &file).unwrap();
    assert_eq!(tag.get_frames().len(), 2);
    assert_eq!(tag.get_frames()[1].id, "XYZ");
    assert_eq!(tag.get_frames()[1].contents, Contents::Raw(vec![7, 8, 9]));

    let plan = tag.save().unwrap();
    let head = rewrite_head(&plan);
    assert_eq!(&head[0..5], &[0x49, 0x44, 0x33, 4, 0]);
    assert_eq!(&head[26..39], &[0x58, 0x59, 0x5A, 0, 0, 0, 0, 3, 0, 0, 7, 8, 9]);
    assert_eq!(tag.version(), (4, 0));
    let after = plan.apply(&file);
    assert_eq!(&after[0..5], &[0x49, 0x44, 0x33, 4, 0]);
    assert_eq!(ID3Tag::skip_metadata(&after), vec![0xFF, 0xFB, 1, 2]);
    let again = ID3Tag::load("old.mp3", &after).unwrap();
    assert_eq!(again.version(), (4, 0));
    assert_eq!(again.get_frames().len(), 2);
    assert_eq!(again.title().unwrap(), "title");
    assert_eq!(again.get_frames()[1].id, "XYZ");
    assert_eq!(again.get_frames()[1].contents, Contents::Raw(vec![7, 8, 9]));
    assert_eq!(again.get_frames()[1].offset, 26);
}

#[test]
fn watermark_follows_removals() {
    let file = sample_file(&[]);
    let mut tag = ID3Tag::load("a.mp3", &file).unwrap();
    assert_eq!(tag.modified_offset(), tag.offset());
    tag.add_txxx("k", "v");
    assert_eq!(tag.modified_offset(), 59);
    tag.remove_txxx(None, None);
    assert_eq!(tag.modified_offset(), 59);
    tag.remove_album();
    assert_eq!(tag.modified_offset(), 43);
    tag.remove_title();
    assert_eq!(tag.modified_offset(), 10);
    tag.remove_artist();
    assert_eq!(tag.modified_offset(), 10);
    assert_eq!(tag.offset(), 59);
    let mut tag = ID3Tag::load("a.mp3", &file).unwrap();
    let uuid = tag.get_frames()[1].uuid.clone();
    tag.remove_frame_by_uuid(&uuid);
    assert_eq!(tag.modified_offset(), 26);
    assert!(tag.modified_offset() <= tag.offset());
}

#[test]
fn apply_overwrite_past_the_end_fills_with_zeros() {
    let plan = WritePlan::Overwrite { position: 5, bytes: vec![1, 2] };
    assert_eq!(plan.apply(&[9, 9, 9]), vec![9, 9, 9, 0, 0, 1, 2]);
    let plan = WritePlan::Overwrite { position: 2, bytes: vec![1, 2] };
    assert_eq!(plan.apply(&[9, 9, 9]), vec![9, 9, 1, 2]);
    let plan = WritePlan::Overwrite { position: 1, bytes: vec![1] };
    assert_eq!(plan.apply(&[9, 9, 9]), vec![9, 1, 9]);
    let plan = WritePlan::Overwrite { position: 3, bytes: vec![] };
    assert_eq!(plan.apply(&[9, 9, 9]), vec![9, 9, 9]);
}

#[test]
fn persisted_frames_end_in_front_of_the_offset() {
    let file = sample_file(&[1, 2, 3]);
    let mut tag = ID3Tag::load("a.mp3", &file).unwrap();
    for frame in tag.get_frames() {
        assert!(frame.offset >= 10 && frame.offset + 10 <= tag.offset());
    }
    tag.set_artist("new");
    tag.save().unwrap();
    for frame in tag.get_frames() {
        assert!(frame.offset >= 10 && frame.offset + 10 <= tag.offset());
    }
    assert_eq!(tag.modified_offset(), tag.offset());
    let mut fresh = ID3Tag::new();
    fresh.set_title("t");
    fresh.add_frame(Frame::new("XYZ"));
    fresh.write("b.mp3").unwrap();
    for frame in fresh.get_frames() {
        assert!(frame.offset >= 10 && frame.offset + 10 <= fresh.offset());
    }
    assert_eq!(fresh.get_frames()[1].offset + 10, fresh.offset());
}

#[test]
fn a_loaded_tag_can_be_saved() {
    let file = sample_file(&[9, 9]);
    let mut tag = ID3Tag::load("a.mp3", &file).unwrap();
    tag.set_title("x");
    let plan = tag.save().unwrap();
    let after = plan.apply(&file);
    assert_eq!(after.len(), file.len());
    assert_eq!(&after[6..10], &file[6..10]);
    assert_eq!(&after[10 + tag.size() as usize..], &[9, 9]);
}
