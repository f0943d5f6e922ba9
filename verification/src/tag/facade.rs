//! The plain accessors that every kind of audio tag offers: artist, album, title, genre,
//! track, lyrics and picture.

use super::fields::plain_frame;
use super::{ID3Tag, TagView};
use crate::frame::{views, Contents, ContentsView, FrameView};
use crate::numbers::{decimal, spec_track_text, to_decimal};
use crate::payload::id_apic;
use crate::picture::{PictureType, PictureView};
use crate::select::SelectorView;
use crate::text::Encoding;
use vstd::prelude::*;
use vstd::string::*;

verus! {

/// The identifiers and texts of the frames of `frames` that have a text, in order.
pub open spec fn spec_metadata(frames: Seq<FrameView>) -> Seq<(Seq<char>, Seq<char>)>
    decreases frames.len(),
{
    if frames.len() == 0 {
        Seq::empty()
    } else {
        let rest = spec_metadata(frames.drop_last());
        match frames.last().contents.spec_text() {
            Some(text) => rest.push((frames.last().id, text)),
            None => rest,
        }
    }
}

impl TagView {
    /// The encoding that the tag writes new text with.
    pub open spec fn default_encoding(self) -> Encoding {
        if self.version.0 >= 4 {
            Encoding::UTF8
        } else {
            Encoding::UTF16
        }
    }

    /// The lyrics of the first `USLT` frame, where its payload is lyrics.
    pub open spec fn lyrics(self) -> Option<Seq<char>> {
        match self.first("USLT"@) {
            Some(frame) => match frame.contents {
                ContentsView::Lyrics(text) => Some(text),
                _ => None,
            },
            None => None,
        }
    }
}

impl ID3Tag {
    /// The artist (TPE1).
    pub fn artist(&self) -> (r: Option<String>)
        ensures
            match self@.text_of("TPE1"@) {
                Some(text) => r matches Some(s) && s@ == text,
                None => r is None,
            },
    {
        self.text_for_frame_id("TPE1")
    }

    /// Sets the artist (TPE1) in the default encoding.
    pub fn set_artist(&mut self, artist: &str)
        requires
            old(self).wf(),
        ensures
            final(self).wf(),
            final(self)@ == old(self)@.with_text(
                "TPE1"@,
                artist@,
                old(self)@.default_encoding(),
                final(self)@.last_uuid(),
            ),
    {
        self.add_text_frame("TPE1", artist);
    }

    /// Removes the artist (TPE1).
    pub fn remove_artist(&mut self)
        requires
            old(self).wf(),
        ensures
            final(self).wf(),
            final(self)@ == old(self)@.without(SelectorView::Id("TPE1"@)),
    {
        self.remove_frames_by_id("TPE1");
    }

    /// The album artist (TPE2).
    pub fn album_artist(&self) -> (r: Option<String>)
        ensures
            match self@.text_of("TPE2"@) {
                Some(text) => r matches Some(s) && s@ == text,
                None => r is None,
            },
    {
        self.text_for_frame_id("TPE2")
    }

    /// Sets the album artist (TPE2) in the default encoding, and clears the sort order
    /// of the performer (TSOP).
    pub fn set_album_artist(&mut self, album_artist: &str)
        requires
            old(self).wf(),
        ensures
            final(self).wf(),
            final(self)@ == old(self)@.without(SelectorView::Id("TSOP"@)).with_text(
                "TPE2"@,
                album_artist@,
                old(self)@.default_encoding(),
                final(self)@.last_uuid(),
            ),
    {
        let encoding = self.default_encoding();
        self.set_album_artist_enc(album_artist, encoding);
    }

    /// Removes the album artist (TPE2).
    pub fn remove_album_artist(&mut self)
        requires
            old(self).wf(),
        ensures
            final(self).wf(),
            final(self)@ == old(self)@.without(SelectorView::Id("TPE2"@)),
    {
        self.remove_frames_by_id("TPE2");
    }

    /// The album (TALB).
    pub fn album(&self) -> (r: Option<String>)
        ensures
            match self@.text_of("TALB"@) {
                Some(text) => r matches Some(s) && s@ == text,
                None => r is None,
            },
    {
        self.text_for_frame_id("TALB")
    }

    /// Sets the album (TALB) in the default encoding, and clears the sort order of the
    /// performer (TSOP).
    pub fn set_album(&mut self, album: &str)
        requires
            old(self).wf(),
        ensures
            final(self).wf(),
            final(self)@ == old(self)@.without(SelectorView::Id("TSOP"@)).with_text(
                "TALB"@,
                album@,
                old(self)@.default_encoding(),
                final(self)@.last_uuid(),
            ),
    {
        let encoding = self.default_encoding();
        self.set_album_enc(album, encoding);
    }

    /// Removes the album (TALB) and the sort order of the performer (TSOP).
    pub fn remove_album(&mut self)
        requires
            old(self).wf(),
        ensures
            final(self).wf(),
            final(self)@ == old(self)@.without(SelectorView::Id("TSOP"@)).without(
                SelectorView::Id("TALB"@),
            ),
    {
        self.remove_frames_by_id("TSOP");
        self.remove_frames_by_id("TALB");
    }

    /// The title (TIT2).
    pub fn title(&self) -> (r: Option<String>)
        ensures
            match self@.text_of("TIT2"@) {
                Some(text) => r matches Some(s) && s@ == text,
                None => r is None,
            },
    {
        self.text_for_frame_id("TIT2")
    }

    /// Sets the title (TIT2) in the default encoding.
    pub fn set_title(&mut self, title: &str)
        requires
            old(self).wf(),
        ensures
            final(self).wf(),
            final(self)@ == old(self)@.with_text(
                "TIT2"@,
                title@,
                old(self)@.default_encoding(),
                final(self)@.last_uuid(),
            ),
    {
        self.add_text_frame("TIT2", title);
    }

    /// Removes the title (TIT2).
    pub fn remove_title(&mut self)
        requires
            old(self).wf(),
        ensures
            final(self).wf(),
            final(self)@ == old(self)@.without(SelectorView::Id("TIT2"@)),
    {
        self.remove_frames_by_id("TIT2");
    }

    /// The genre (TCON).
    pub fn genre(&self) -> (r: Option<String>)
        ensures
            match self@.text_of("TCON"@) {
                Some(text) => r matches Some(s) && s@ == text,
                None => r is None,
            },
    {
        self.text_for_frame_id("TCON")
    }

    /// Sets the genre (TCON) in the default encoding.
    pub fn set_genre(&mut self, genre: &str)
        requires
            old(self).wf(),
        ensures
            final(self).wf(),
            final(self)@ == old(self)@.with_text(
                "TCON"@,
                genre@,
                old(self)@.default_encoding(),
                final(self)@.last_uuid(),
            ),
    {
        self.add_text_frame("TCON", genre);
    }

    /// Removes the genre (TCON).
    pub fn remove_genre(&mut self)
        requires
            old(self).wf(),
        ensures
            final(self).wf(),
            final(self)@ == old(self)@.without(SelectorView::Id("TCON"@)),
    {
        self.remove_frames_by_id("TCON");
    }

    /// The track number: the `N` of a TRCK frame that holds `N` or `N/M`.
    pub fn track(&self) -> (r: Option<u32>)
        ensures
            r == match self@.track_pair() {
                Some((track, _)) => Some(track),
                None => None,
            },
    {
        match self.track_pair() {
            Some((track, _)) => Some(track),
            None => None,
        }
    }

    /// Sets the track number (TRCK), in Latin-1. A total number of tracks that the tag
    /// holds is kept.
    pub fn set_track(&mut self, track: u32)
        requires
            old(self).wf(),
        ensures
            final(self).wf(),
            final(self)@ == old(self)@.with_text(
                "TRCK"@,
                spec_track_text(
                    track,
                    match old(self)@.track_pair() {
                        Some((_, total)) => total,
                        None => None,
                    },
                ),
                Encoding::Latin1,
                final(self)@.last_uuid(),
            ),
    {
        self.set_track_enc(track, Encoding::Latin1);
    }

    /// Removes the track number and the total number of tracks (TRCK).
    pub fn remove_track(&mut self)
        requires
            old(self).wf(),
        ensures
            final(self).wf(),
            final(self)@ == old(self)@.without(SelectorView::Id("TRCK"@)),
    {
        self.remove_frames_by_id("TRCK");
    }

    /// The total number of tracks: the `M` of a TRCK frame that holds `N/M`.
    pub fn total_tracks(&self) -> (r: Option<u32>)
        ensures
            r == match self@.track_pair() {
                Some((_, total)) => total,
                None => None,
            },
    {
        match self.track_pair() {
            Some((_, total)) => total,
            None => None,
        }
    }

    /// Sets the total number of tracks (TRCK), in Latin-1. The track number that the
    /// tag holds is kept; where it holds none, the track number is set to 1.
    pub fn set_total_tracks(&mut self, total_tracks: u32)
        requires
            old(self).wf(),
        ensures
            final(self).wf(),
            final(self)@ == old(self)@.with_text(
                "TRCK"@,
                spec_track_text(
                    match old(self)@.track_pair() {
                        Some((track, _)) => track,
                        None => 1u32,
                    },
                    Some(total_tracks),
                ),
                Encoding::Latin1,
                final(self)@.last_uuid(),
            ),
    {
        self.set_total_tracks_enc(total_tracks, Encoding::Latin1);
    }

    /// Removes the total number of tracks: a TRCK frame that holds a track number is
    /// written again with that number alone, in the default encoding. A tag without
    /// a track number is left as it is.
    pub fn remove_total_tracks(&mut self)
        requires
            old(self).wf(),
        ensures
            final(self).wf(),
            match old(self)@.track_pair() {
                Some((track, _)) => final(self)@ == old(self)@.with_text(
                    "TRCK"@,
                    decimal(track as int),
                    old(self)@.default_encoding(),
                    final(self)@.last_uuid(),
                ),
                None => final(self)@ == old(self)@,
            },
    {
        match self.track_pair() {
            Some((track, _)) => {
                let text = to_decimal(track as u64);
                self.add_text_frame("TRCK", text.as_str());
            },
            None => {},
        }
    }

    /// The lyrics (USLT).
    pub fn lyrics(&self) -> (r: Option<String>)
        ensures
            match self@.lyrics() {
                Some(text) => r matches Some(s) && s@ == text,
                None => r is None,
            },
    {
        match self.get_frame_by_id("USLT") {
            Some(frame) => match &frame.contents {
                Contents::Lyrics(text) => Some(text.clone()),
                _ => None,
            },
            None => None,
        }
    }

    /// Sets the lyrics (USLT) in the default encoding.
    pub fn set_lyrics(&mut self, text: &str)
        requires
            old(self).wf(),
        ensures
            final(self).wf(),
            final(self)@ == old(self)@.without(SelectorView::Id("USLT"@)).with_frame(
                plain_frame(
                    "USLT"@,
                    old(self)@.default_encoding(),
                    ContentsView::Lyrics(text@),
                ),
                final(self)@.last_uuid(),
            ),
    {
        let encoding = self.default_encoding();
        self.set_lyrics_enc(text, encoding);
    }

    /// Removes the lyrics (USLT).
    pub fn remove_lyrics(&mut self)
        requires
            old(self).wf(),
        ensures
            final(self).wf(),
            final(self)@ == old(self)@.without(SelectorView::Id("USLT"@)),
    {
        self.remove_frames_by_id("USLT");
    }

    /// Sets the one picture of the tag: every APIC frame is removed, whatever its role,
    /// and a picture of role `Other` is added.
    pub fn set_picture(&mut self, mime_type: &str, data: &[u8])
        requires
            old(self).wf(),
        ensures
            final(self).wf(),
            final(self)@ == old(self)@.without(SelectorView::Id("APIC"@)).without(
                SelectorView::Picture(PictureType::Other),
            ).with_frame(
                plain_frame(
                    id_apic(),
                    Encoding::Latin1,
                    ContentsView::Picture(
                        PictureView {
                            mime_type: mime_type@,
                            picture_type: PictureType::Other,
                            description: Seq::empty(),
                            data: data@,
                        },
                    ),
                ),
                final(self)@.last_uuid(),
            ),
    {
        self.remove_picture();
        self.add_picture(mime_type, PictureType::Other, data);
    }

    /// Removes every picture (APIC).
    pub fn remove_picture(&mut self)
        requires
            old(self).wf(),
        ensures
            final(self).wf(),
            final(self)@ == old(self)@.without(SelectorView::Id("APIC"@)),
    {
        self.remove_frames_by_id("APIC");
    }

    /// The identifier and the text of every frame that has a text, in order.
    pub fn all_metadata(&self) -> (r: Vec<(String, String)>)
        ensures
            super::fields::pair_views(r@) == spec_metadata(self@.frames),
    {
        let mut out: Vec<(String, String)> = Vec::new();
        let frames = self.get_frames();
        let mut i: usize = 0;
        assert(self@.frames.take(0) =~= Seq::empty());
        assert(super::fields::pair_views(out@) =~= Seq::empty());
        while i < frames.len()
            invariant
                i <= frames@.len(),
                views(frames@) == self@.frames,
                super::fields::pair_views(out@) == spec_metadata(self@.frames.take(i as int)),
            decreases frames@.len() - i,
        {
            let ghost before = out@;
            let frame = &frames[i];
            proof {
                let next = self@.frames.take(i + 1);
                assert(next.drop_last() =~= self@.frames.take(i as int));
                assert(next.last() == frame@);
            }
            match frame.text() {
                Some(text) => {
                    let ghost pair = (frame.id@, text@);
                    out.push((frame.id.clone(), text));
                    assert(super::fields::pair_views(out@) =~= super::fields::pair_views(
                        before,
                    ).push(pair));
                },
                None => {},
            }
            i += 1;
        }
        assert(self@.frames.take(self@.frames.len() as int) =~= self@.frames);
        out
    }
}

} // verus!
