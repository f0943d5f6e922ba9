//! Typed access to the frames of a tag: texts, user-defined texts, comments, pictures,
//! year, track and lyrics.

use super::{ID3Tag, Selector, TagView};
use crate::chars::{bytes_of, str_eq};
use crate::frame::{Contents, ContentsView, Frame, FrameFlags, FrameView};
use crate::numbers::{
    decimal, parse_number, parse_track_pair, spec_parse_number, spec_track_pair, spec_track_text,
    to_decimal, track_text,
};
use crate::payload::{id_apic, id_comm, id_txxx};
use crate::picture::{Picture, PictureType, PictureView};
use crate::select::{lemma_select, member, select, SelectorView};
use crate::text::Encoding;
use vstd::prelude::*;
use vstd::string::*;

verus! {

/// A frame with the given identifier, encoding and payload, no flags and no place in
/// a tag.
pub open spec fn plain_frame(id: Seq<char>, encoding: Encoding, contents: ContentsView)
    -> FrameView {
    FrameView { uuid: Seq::empty(), id, encoding, flags: FrameFlags::spec_new(), contents, offset: 0 }
}

/// The keys and values of the frames of `frames` that `id` names and whose payload is
/// of the `pair` kind: user-defined texts where `comment` is false, comments where it is
/// true.
pub open spec fn spec_pairs(frames: Seq<FrameView>, comment: bool) -> Seq<(Seq<char>, Seq<char>)>
    decreases frames.len(),
{
    if frames.len() == 0 {
        Seq::empty()
    } else {
        let rest = spec_pairs(frames.drop_last(), comment);
        let last = frames.last();
        match last.contents {
            ContentsView::ExtendedText(k, v) => if !comment && last.id == id_txxx() {
                rest.push((k, v))
            } else {
                rest
            },
            ContentsView::Comment(k, v) => if comment && last.id == id_comm() {
                rest.push((k, v))
            } else {
                rest
            },
            _ => rest,
        }
    }
}

/// The pictures of the `APIC` frames of `frames`, in order.
pub open spec fn spec_pictures(frames: Seq<FrameView>) -> Seq<PictureView>
    decreases frames.len(),
{
    if frames.len() == 0 {
        Seq::empty()
    } else {
        let rest = spec_pictures(frames.drop_last());
        let last = frames.last();
        match last.contents {
            ContentsView::Picture(p) => if last.id == id_apic() {
                rest.push(p)
            } else {
                rest
            },
            _ => rest,
        }
    }
}

/// What a sequence of pairs of strings holds.
pub open spec fn pair_views(pairs: Seq<(String, String)>) -> Seq<(Seq<char>, Seq<char>)> {
    Seq::new(pairs.len(), |i: int| (pairs[i].0@, pairs[i].1@))
}

/// What a sequence of borrowed pictures holds.
pub open spec fn picture_views(pictures: Seq<&Picture>) -> Seq<PictureView> {
    Seq::new(pictures.len(), |i: int| pictures[i]@)
}

/// Whether `frame` is an `APIC` frame that holds a picture of the given role.
pub open spec fn is_picture_of(frame: FrameView, picture_type: PictureType) -> bool {
    frame.id == id_apic() && match frame.contents {
        ContentsView::Picture(p) => p.picture_type == picture_type,
        _ => false,
    }
}

impl TagView {
    /// The track number and the total that the `TRCK` frame stands for.
    pub open spec fn track_pair(self) -> Option<(u32, Option<u32>)> {
        match self.text_of("TRCK"@) {
            Some(text) => spec_track_pair(text),
            None => None,
        }
    }

    /// The tag after its text frame `id` has been set to `text`: the frames with that
    /// identifier are gone and a text frame stands at the end.
    pub open spec fn with_text(self, id: Seq<char>, text: Seq<char>, encoding: Encoding, uuid: Seq<
        u8,
    >) -> TagView {
        self.without(SelectorView::Id(id)).with_frame(
            plain_frame(id, encoding, ContentsView::Text(text)),
            uuid,
        )
    }
}

/// After a picture of some role has been added in place of those of that role, the tag
/// holds one picture of that role and no more.
pub proof fn lemma_picture_unique(
    tag: TagView,
    picture: PictureView,
    encoding: Encoding,
    uuid: Seq<u8>,
)
    ensures
        ({
            let after = tag.without(SelectorView::Picture(picture.picture_type)).with_frame(
                plain_frame(id_apic(), encoding, ContentsView::Picture(picture)),
                uuid,
            );
            &&& is_picture_of(after.frames.last(), picture.picture_type)
            &&& forall|i: int|
                0 <= i < after.frames.len() && is_picture_of(
                    #[trigger] after.frames[i],
                    picture.picture_type,
                ) ==> i == after.frames.len() - 1
        }),
{
    let selector = SelectorView::Picture(picture.picture_type);
    let kept = select(tag.frames, selector, false);
    lemma_select(tag.frames, selector, false);
    assert forall|i: int| 0 <= i < kept.len() implies !is_picture_of(
        #[trigger] kept[i],
        picture.picture_type,
    ) by {
        assert(!selector.selects(kept[i]));
    }
}

impl ID3Tag {
    /// Adds a text frame using the default text encoding, in place of the frames with
    /// the same identifier.
    pub fn add_text_frame(&mut self, id: &str, text: &str)
        requires
            old(self).wf(),
        ensures
            final(self).wf(),
            final(self)@ == old(self)@.with_text(
                id@,
                text@,
                if old(self)@.version.0 >= 4 {
                    Encoding::UTF8
                } else {
                    Encoding::UTF16
                },
                final(self)@.last_uuid(),
            ),
    {
        let encoding = self.default_encoding();
        self.add_text_frame_enc(id, text, encoding);
    }

    /// Adds a text frame using the specified text encoding, in place of the frames with
    /// the same identifier.
    pub fn add_text_frame_enc(&mut self, id: &str, text: &str, encoding: Encoding)
        requires
            old(self).wf(),
        ensures
            final(self).wf(),
            final(self)@ == old(self)@.with_text(id@, text@, encoding, final(self)@.last_uuid()),
    {
        self.remove_frames_by_id(id);
        let mut frame = Frame::new(id);
        frame.encoding = encoding;
        frame.contents = Contents::Text(text.to_owned());
        self.add_frame(frame);
    }

    /// Removes the frame with the specified identity, if there is one.
    pub fn remove_frame_by_uuid(&mut self, uuid: &[u8])
        requires
            old(self).wf(),
        ensures
            final(self).wf(),
            final(self)@ == old(self)@.without(SelectorView::Uuid(uuid@)),
            old(self)@.frames.len() - 1 <= final(self)@.frames.len() <= old(self)@.frames.len(),
    {
        self.remove_where(&Selector::Uuid(uuid));
        proof {
            lemma_one_uuid(old(self)@.frames, uuid@);
            crate::select::lemma_partition(old(self)@.frames, SelectorView::Uuid(uuid@));
        }
    }

    /// Removes all frames with the specified identifier.
    pub fn remove_frames_by_id(&mut self, id: &str)
        requires
            old(self).wf(),
        ensures
            final(self).wf(),
            final(self)@ == old(self)@.without(SelectorView::Id(id@)),
    {
        self.remove_where(&Selector::Id(id));
    }

    /// Returns the text of the first frame with the specified identifier, where its
    /// payload is a text.
    pub fn text_for_frame_id(&self, id: &str) -> (r: Option<String>)
        ensures
            match self@.text_of(id@) {
                Some(text) => r matches Some(s) && s@ == text,
                None => r is None,
            },
    {
        match self.get_frame_by_id(id) {
            Some(frame) => match &frame.contents {
                Contents::Text(text) => Some(text.clone()),
                _ => None,
            },
            None => None,
        }
    }

    /// Returns the key/value pairs of the user defined text frames (TXXX).
    pub fn txxx(&self) -> (r: Vec<(String, String)>)
        ensures
            pair_views(r@) == spec_pairs(self@.frames, false),
    {
        self.pairs(false)
    }

    /// Returns the description/text pairs of the comment frames (COMM).
    pub fn comments(&self) -> (r: Vec<(String, String)>)
        ensures
            pair_views(r@) == spec_pairs(self@.frames, true),
    {
        self.pairs(true)
    }

    /// The pairs of the user defined text frames, or of the comment frames.
    fn pairs(&self, comment: bool) -> (r: Vec<(String, String)>)
        ensures
            pair_views(r@) == spec_pairs(self@.frames, comment),
    {
        proof {
            reveal_strlit("TXXX");
            reveal_strlit("COMM");
            assert("TXXX"@ =~= id_txxx());
            assert("COMM"@ =~= id_comm());
        }
        let mut out: Vec<(String, String)> = Vec::new();
        let mut i: usize = 0;
        assert(self@.frames.take(0) =~= Seq::empty());
        assert(pair_views(out@) =~= Seq::empty());
        while i < self.frames.len()
            invariant
                i <= self.frames@.len(),
                "TXXX"@ == id_txxx(),
                "COMM"@ == id_comm(),
                pair_views(out@) == spec_pairs(self@.frames.take(i as int), comment),
            decreases self.frames@.len() - i,
        {
            let ghost before = out@;
            let frame = &self.frames[i];
            proof {
                let next = self@.frames.take(i + 1);
                assert(next.drop_last() =~= self@.frames.take(i as int));
                assert(next.last() == frame@);
            }
            match &frame.contents {
                Contents::ExtendedText(k, v) => {
                    if !comment && str_eq(frame.id.as_str(), "TXXX") {
                        out.push((k.clone(), v.clone()));
                        assert(pair_views(out@) =~= pair_views(before).push((k@, v@)));
                    }
                },
                Contents::Comment(k, v) => {
                    if comment && str_eq(frame.id.as_str(), "COMM") {
                        out.push((k.clone(), v.clone()));
                        assert(pair_views(out@) =~= pair_views(before).push((k@, v@)));
                    }
                },
                _ => {},
            }
            i += 1;
        }
        assert(self@.frames.take(self@.frames.len() as int) =~= self@.frames);
        out
    }

    /// Adds a user defined text frame (TXXX) using the default text encoding, in place
    /// of those with the same key.
    pub fn add_txxx(&mut self, key: &str, value: &str)
        requires
            old(self).wf(),
        ensures
            final(self).wf(),
            final(self)@ == old(self)@.without(SelectorView::Txxx(Some(key@), None)).with_frame(
                plain_frame(
                    id_txxx(),
                    if old(self)@.version.0 >= 4 {
                        Encoding::UTF8
                    } else {
                        Encoding::UTF16
                    },
                    ContentsView::ExtendedText(key@, value@),
                ),
                final(self)@.last_uuid(),
            ),
    {
        let encoding = self.default_encoding();
        self.add_txxx_enc(key, value, encoding);
    }

    /// Adds a user defined text frame (TXXX) using the specified text encoding, in place
    /// of those with the same key.
    pub fn add_txxx_enc(&mut self, key: &str, value: &str, encoding: Encoding)
        requires
            old(self).wf(),
        ensures
            final(self).wf(),
            final(self)@ == old(self)@.without(SelectorView::Txxx(Some(key@), None)).with_frame(
                plain_frame(id_txxx(), encoding, ContentsView::ExtendedText(key@, value@)),
                final(self)@.last_uuid(),
            ),
    {
        proof {
            reveal_strlit("TXXX");
            assert("TXXX"@ =~= id_txxx());
        }
        self.remove_txxx(Some(key), None);
        let mut frame = Frame::new("TXXX");
        frame.encoding = encoding;
        frame.contents = Contents::ExtendedText(key.to_owned(), value.to_owned());
        self.add_frame(frame);
    }

    /// Removes the user defined text frames (TXXX) with the specified key and value.
    /// A key or value may be `None` to specify a wildcard value. A TXXX frame whose
    /// payload is no key and value is removed too.
    pub fn remove_txxx(&mut self, key: Option<&str>, value: Option<&str>)
        requires
            old(self).wf(),
        ensures
            final(self).wf(),
            final(self)@ == old(self)@.without(
                SelectorView::Txxx(super::wanted(key), super::wanted(value)),
            ),
    {
        self.remove_where(&Selector::Txxx(key, value));
    }

    /// Returns references to the pictures in the tag.
    pub fn pictures(&self) -> (r: Vec<&Picture>)
        ensures
            picture_views(r@) == spec_pictures(self@.frames),
    {
        proof {
            reveal_strlit("APIC");
            assert("APIC"@ =~= id_apic());
        }
        let mut out: Vec<&Picture> = Vec::new();
        let mut i: usize = 0;
        assert(self@.frames.take(0) =~= Seq::empty());
        assert(picture_views(out@) =~= Seq::empty());
        while i < self.frames.len()
            invariant
                i <= self.frames@.len(),
                "APIC"@ == id_apic(),
                picture_views(out@) == spec_pictures(self@.frames.take(i as int)),
            decreases self.frames@.len() - i,
        {
            let ghost before = out@;
            let frame = &self.frames[i];
            proof {
                let next = self@.frames.take(i + 1);
                assert(next.drop_last() =~= self@.frames.take(i as int));
                assert(next.last() == frame@);
            }
            match &frame.contents {
                Contents::Picture(p) => {
                    if str_eq(frame.id.as_str(), "APIC") {
                        out.push(p);
                        assert(picture_views(out@) =~= picture_views(before).push(p@));
                    }
                },
                _ => {},
            }
            i += 1;
        }
        assert(self@.frames.take(self@.frames.len() as int) =~= self@.frames);
        out
    }

    /// Adds a picture frame (APIC) with no description.
    /// Any other pictures with the same type will be removed from the tag.
    pub fn add_picture(&mut self, mime_type: &str, picture_type: PictureType, data: &[u8])
        requires
            old(self).wf(),
        ensures
            final(self).wf(),
            final(self)@ == old(self)@.without(SelectorView::Picture(picture_type)).with_frame(
                plain_frame(
                    id_apic(),
                    Encoding::Latin1,
                    ContentsView::Picture(
                        PictureView {
                            mime_type: mime_type@,
                            picture_type,
                            description: Seq::empty(),
                            data: data@,
                        },
                    ),
                ),
                final(self)@.last_uuid(),
            ),
            forall|i: int|
                0 <= i < final(self)@.frames.len() && is_picture_of(
                    #[trigger] final(self)@.frames[i],
                    picture_type,
                ) ==> i == final(self)@.frames.len() - 1,
    {
        proof {
            reveal_strlit("");
            assert(""@ =~= Seq::<char>::empty());
        }
        self.add_picture_enc(mime_type, picture_type, "", data, Encoding::Latin1);
    }

    /// Adds a picture frame (APIC) using the specified text encoding.
    /// Any other pictures with the same type will be removed from the tag, so that the
    /// added picture is the one picture of its type.
    pub fn add_picture_enc(
        &mut self,
        mime_type: &str,
        picture_type: PictureType,
        description: &str,
        data: &[u8],
        encoding: Encoding,
    )
        requires
            old(self).wf(),
        ensures
            final(self).wf(),
            final(self)@ == old(self)@.without(SelectorView::Picture(picture_type)).with_frame(
                plain_frame(
                    id_apic(),
                    encoding,
                    ContentsView::Picture(
                        PictureView {
                            mime_type: mime_type@,
                            picture_type,
                            description: description@,
                            data: data@,
                        },
                    ),
                ),
                final(self)@.last_uuid(),
            ),
            forall|i: int|
                0 <= i < final(self)@.frames.len() && is_picture_of(
                    #[trigger] final(self)@.frames[i],
                    picture_type,
                ) ==> i == final(self)@.frames.len() - 1,
    {
        proof {
            reveal_strlit("APIC");
            assert("APIC"@ =~= id_apic());
        }
        self.remove_picture_type(picture_type);
        let mut frame = Frame::new("APIC");
        frame.encoding = encoding;
        frame.contents = Contents::Picture(
            Picture {
                mime_type: mime_type.to_owned(),
                picture_type,
                description: description.to_owned(),
                data: bytes_of(data),
            },
        );
        let ghost picture = frame.contents@->Picture_0;
        self.add_frame(frame);
        proof {
            lemma_picture_unique(old(self)@, picture, encoding, self@.last_uuid());
        }
    }

    /// Removes all pictures of the specified type, and the APIC frames whose payload is
    /// no picture.
    pub fn remove_picture_type(&mut self, picture_type: PictureType)
        requires
            old(self).wf(),
        ensures
            final(self).wf(),
            final(self)@ == old(self)@.without(SelectorView::Picture(picture_type)),
    {
        self.remove_where(&Selector::Picture(picture_type));
    }

    /// Adds a user comment frame (COMM) using the default text encoding, in place of
    /// those with the same description.
    pub fn add_comment(&mut self, description: &str, text: &str)
        requires
            old(self).wf(),
        ensures
            final(self).wf(),
            final(self)@ == old(self)@.without(
                SelectorView::Comment(Some(description@), None),
            ).with_frame(
                plain_frame(
                    id_comm(),
                    if old(self)@.version.0 >= 4 {
                        Encoding::UTF8
                    } else {
                        Encoding::UTF16
                    },
                    ContentsView::Comment(description@, text@),
                ),
                final(self)@.last_uuid(),
            ),
    {
        let encoding = self.default_encoding();
        self.add_comment_enc(description, text, encoding);
    }

    /// Adds a user comment frame (COMM) using the specified text encoding, in place of
    /// those with the same description.
    pub fn add_comment_enc(&mut self, description: &str, text: &str, encoding: Encoding)
        requires
            old(self).wf(),
        ensures
            final(self).wf(),
            final(self)@ == old(self)@.without(
                SelectorView::Comment(Some(description@), None),
            ).with_frame(
                plain_frame(id_comm(), encoding, ContentsView::Comment(description@, text@)),
                final(self)@.last_uuid(),
            ),
    {
        proof {
            reveal_strlit("COMM");
            assert("COMM"@ =~= id_comm());
        }
        self.remove_comment(Some(description), None);
        let mut frame = Frame::new("COMM");
        frame.encoding = encoding;
        frame.contents = Contents::Comment(description.to_owned(), text.to_owned());
        self.add_frame(frame);
    }

    /// Removes the user comment frames (COMM) with the specified description and text.
    /// Either may be `None` to specify a wildcard value. A COMM frame whose payload is no
    /// comment is removed too.
    pub fn remove_comment(&mut self, key: Option<&str>, value: Option<&str>)
        requires
            old(self).wf(),
        ensures
            final(self).wf(),
            final(self)@ == old(self)@.without(
                SelectorView::Comment(super::wanted(key), super::wanted(value)),
            ),
    {
        self.remove_where(&Selector::Comment(key, value));
    }

    /// Sets the artist (TPE1) using the specified text encoding.
    pub fn set_artist_enc(&mut self, artist: &str, encoding: Encoding)
        requires
            old(self).wf(),
        ensures
            final(self).wf(),
            final(self)@ == old(self)@.with_text(
                "TPE1"@,
                artist@,
                encoding,
                final(self)@.last_uuid(),
            ),
    {
        self.add_text_frame_enc("TPE1", artist, encoding);
    }

    /// Sets the album artist (TPE2) using the specified text encoding, and clears the
    /// sort order of the performer (TSOP).
    pub fn set_album_artist_enc(&mut self, album_artist: &str, encoding: Encoding)
        requires
            old(self).wf(),
        ensures
            final(self).wf(),
            final(self)@ == old(self)@.without(SelectorView::Id("TSOP"@)).with_text(
                "TPE2"@,
                album_artist@,
                encoding,
                final(self)@.last_uuid(),
            ),
    {
        self.remove_frames_by_id("TSOP");
        self.add_text_frame_enc("TPE2", album_artist, encoding);
    }

    /// Sets the album (TALB) using the specified text encoding, and clears the sort
    /// order of the performer (TSOP).
    pub fn set_album_enc(&mut self, album: &str, encoding: Encoding)
        requires
            old(self).wf(),
        ensures
            final(self).wf(),
            final(self)@ == old(self)@.without(SelectorView::Id("TSOP"@)).with_text(
                "TALB"@,
                album@,
                encoding,
                final(self)@.last_uuid(),
            ),
    {
        self.remove_frames_by_id("TSOP");
        self.add_text_frame_enc("TALB", album, encoding);
    }

    /// Sets the song title (TIT2) using the specified text encoding, and clears the sort
    /// order of the title (TSOT).
    pub fn set_title_enc(&mut self, title: &str, encoding: Encoding)
        requires
            old(self).wf(),
        ensures
            final(self).wf(),
            final(self)@ == old(self)@.without(SelectorView::Id("TSOT"@)).with_text(
                "TIT2"@,
                title@,
                encoding,
                final(self)@.last_uuid(),
            ),
    {
        self.remove_frames_by_id("TSOT");
        self.add_text_frame_enc("TIT2", title, encoding);
    }

    /// Sets the genre (TCON) using the specified text encoding.
    pub fn set_genre_enc(&mut self, genre: &str, encoding: Encoding)
        requires
            old(self).wf(),
        ensures
            final(self).wf(),
            final(self)@ == old(self)@.with_text("TCON"@, genre@, encoding, final(self)@.last_uuid()),
    {
        self.add_text_frame_enc("TCON", genre, encoding);
    }

    /// Returns the year (TYER).
    /// Returns `None` if the year frame could not be found or if it could not be parsed.
    pub fn year(&self) -> (r: Option<usize>)
        ensures
            r == match self@.text_of("TYER"@) {
                Some(text) => match spec_parse_number(text, usize::MAX as int) {
                    Some(n) => Some(n as usize),
                    None => None,
                },
                None => None,
            },
    {
        match self.text_for_frame_id("TYER") {
            Some(text) => match parse_number(text.as_str(), usize::MAX as u64) {
                Some(n) => Some(n as usize),
                None => None,
            },
            None => None,
        }
    }

    /// Sets the year (TYER), in Latin-1.
    pub fn set_year(&mut self, year: usize)
        requires
            old(self).wf(),
        ensures
            final(self).wf(),
            final(self)@ == old(self)@.with_text(
                "TYER"@,
                decimal(year as int),
                Encoding::Latin1,
                final(self)@.last_uuid(),
            ),
    {
        self.set_year_enc(year, Encoding::Latin1);
    }

    /// Sets the year (TYER) using the specified text encoding.
    pub fn set_year_enc(&mut self, year: usize, encoding: Encoding)
        requires
            old(self).wf(),
        ensures
            final(self).wf(),
            final(self)@ == old(self)@.with_text(
                "TYER"@,
                decimal(year as int),
                encoding,
                final(self)@.last_uuid(),
            ),
    {
        let text = to_decimal(year as u64);
        self.add_text_frame_enc("TYER", text.as_str(), encoding);
    }

    /// Returns the track number and the total number of tracks of the TRCK frame.
    pub fn track_pair(&self) -> (r: Option<(u32, Option<u32>)>)
        ensures
            r == self@.track_pair(),
    {
        match self.text_for_frame_id("TRCK") {
            Some(text) => parse_track_pair(text.as_str()),
            None => None,
        }
    }

    /// Sets the track number (TRCK) using the specified text encoding. A total number of
    /// tracks that the tag holds is kept.
    pub fn set_track_enc(&mut self, track: u32, encoding: Encoding)
        requires
            old(self).wf(),
        ensures
            final(self).wf(),
            final(self)@ == old(self)@.with_text(
                "TRCK"@,
                spec_track_text(
                    track,
                    match old(self)@.track_pair() {
                        Some((_, total)) => total,
                        None => None,
                    },
                ),
                encoding,
                final(self)@.last_uuid(),
            ),
    {
        let total = match self.track_pair() {
            Some((_, total)) => total,
            None => None,
        };
        let text = track_text(track, total);
        self.add_text_frame_enc("TRCK", text.as_str(), encoding);
    }

    /// Sets the total number of tracks (TRCK) using the specified text encoding. The
    /// track number that the tag holds is kept; where it holds none, the track number
    /// is set to 1.
    pub fn set_total_tracks_enc(&mut self, total_tracks: u32, encoding: Encoding)
        requires
            old(self).wf(),
        ensures
            final(self).wf(),
            final(self)@ == old(self)@.with_text(
                "TRCK"@,
                spec_track_text(
                    match old(self)@.track_pair() {
                        Some((track, _)) => track,
                        None => 1u32,
                    },
                    Some(total_tracks),
                ),
                encoding,
                final(self)@.last_uuid(),
            ),
    {
        let track = match self.track_pair() {
            Some((track, _)) => track,
            None => 1,
        };
        let text = track_text(track, Some(total_tracks));
        self.add_text_frame_enc("TRCK", text.as_str(), encoding);
    }

    /// Sets the lyrics text (USLT) using the specified text encoding, in place of the
    /// lyrics that the tag holds.
    pub fn set_lyrics_enc(&mut self, text: &str, encoding: Encoding)
        requires
            old(self).wf(),
        ensures
            final(self).wf(),
            final(self)@ == old(self)@.without(SelectorView::Id("USLT"@)).with_frame(
                plain_frame("USLT"@, encoding, ContentsView::Lyrics(text@)),
                final(self)@.last_uuid(),
            ),
    {
        self.remove_frames_by_id("USLT");
        let mut frame = Frame::new("USLT");
        frame.encoding = encoding;
        frame.contents = Contents::Lyrics(text.to_owned());
        self.add_frame(frame);
    }
}

/// Among frames of which no two share an identity, at most one has a given identity.
pub proof fn lemma_one_uuid(frames: Seq<FrameView>, uuid: Seq<u8>)
    requires
        crate::select::distinct_uuids(frames),
    ensures
        select(frames, SelectorView::Uuid(uuid), true).len() <= 1,
    decreases frames.len(),
{
    let selector = SelectorView::Uuid(uuid);
    if frames.len() > 0 {
        let front = frames.drop_last();
        assert(crate::select::distinct_uuids(front)) by {
            assert forall|i: int, j: int|
                0 <= i < front.len() && 0 <= j < front.len() && i != j implies (
            #[trigger] front[i]).uuid != (#[trigger] front[j]).uuid by {
                assert(front[i] == frames[i] && front[j] == frames[j]);
            }
        }
        lemma_one_uuid(front, uuid);
        if selector.selects(frames.last()) && select(front, selector, true).len() > 0 {
            lemma_select(front, selector, true);
            let chosen = select(front, selector, true);
            assert(member(front, chosen[0]));
            let i = choose|i: int| 0 <= i < front.len() && front[i] == chosen[0];
            assert(frames[i].uuid == uuid);
            assert(frames[frames.len() - 1].uuid == uuid);
        }
    }
}

} // verus!
