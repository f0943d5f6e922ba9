//! Frames: the typed records that a tag is made of.

use crate::picture::{Picture, PictureView};
use crate::text::Encoding;
use vstd::prelude::*;
use vstd::string::*;

verus! {

/// The flags in a frame's header.
#[derive(Clone, Copy, Debug, PartialEq, Eq, Structural)]
pub struct FrameFlags {
    /// The frame is to be dropped when the tag is altered.
    pub tag_alter_preservation: bool,
    /// The frame is to be dropped when the file is altered.
    pub file_alter_preservation: bool,
    /// The frame is meant to be read only.
    pub read_only: bool,
    /// The frame is compressed.
    pub compression: bool,
    /// The frame is encrypted.
    pub encryption: bool,
    /// The frame belongs to a group of frames.
    pub grouping_identity: bool,
    /// The frame is unsynchronized.
    pub unsynchronization: bool,
    /// The frame carries a data length indicator.
    pub data_length_indicator: bool,
}

impl FrameFlags {
    /// The flags with none set.
    pub open spec fn spec_new() -> FrameFlags {
        FrameFlags {
            tag_alter_preservation: false,
            file_alter_preservation: false,
            read_only: false,
            compression: false,
            encryption: false,
            grouping_identity: false,
            unsynchronization: false,
            data_length_indicator: false,
        }
    }

    /// Whether the frame uses a feature that reading does not handle.
    pub open spec fn spec_unsupported(self) -> bool {
        self.compression || self.encryption || self.unsynchronization
    }

    /// The flags with none set.
    pub fn new() -> (flags: FrameFlags)
        ensures
            flags == FrameFlags::spec_new(),
    {
        FrameFlags {
            tag_alter_preservation: false,
            file_alter_preservation: false,
            read_only: false,
            compression: false,
            encryption: false,
            grouping_identity: false,
            unsynchronization: false,
            data_length_indicator: false,
        }
    }

    /// Whether the frame uses a feature that reading does not handle.
    pub fn unsupported(&self) -> (r: bool)
        ensures
            r == self.spec_unsupported(),
    {
        self.compression || self.encryption || self.unsynchronization
    }
}

/// The payload of a frame.
#[derive(Clone, Debug, PartialEq, Eq)]
pub enum Contents {
    /// A text, for identifiers that start with `T`.
    Text(String),
    /// A user-defined key and its value, for `TXXX`.
    ExtendedText(String, String),
    /// A URL, for identifiers that start with `W`.
    Link(String),
    /// A description and a URL, for `WXXX`.
    ExtendedLink(String, String),
    /// Lyrics, for `USLT`.
    Lyrics(String),
    /// A description and a comment, for `COMM`.
    Comment(String, String),
    /// An attached picture, for `APIC`.
    Picture(Picture),
    /// The bytes of any other frame.
    Raw(Vec<u8>),
}

/// What a payload holds.
pub enum ContentsView {
    Text(Seq<char>),
    ExtendedText(Seq<char>, Seq<char>),
    Link(Seq<char>),
    ExtendedLink(Seq<char>, Seq<char>),
    Lyrics(Seq<char>),
    Comment(Seq<char>, Seq<char>),
    Picture(PictureView),
    Raw(Seq<u8>),
}

impl View for Contents {
    type V = ContentsView;

    open spec fn view(&self) -> ContentsView {
        match self {
            Contents::Text(s) => ContentsView::Text(s@),
            Contents::ExtendedText(k, v) => ContentsView::ExtendedText(k@, v@),
            Contents::Link(s) => ContentsView::Link(s@),
            Contents::ExtendedLink(d, u) => ContentsView::ExtendedLink(d@, u@),
            Contents::Lyrics(s) => ContentsView::Lyrics(s@),
            Contents::Comment(d, t) => ContentsView::Comment(d@, t@),
            Contents::Picture(p) => ContentsView::Picture(p@),
            Contents::Raw(b) => ContentsView::Raw(b@),
        }
    }
}

/// `first`, a colon, a space, `second`.
pub open spec fn joined(first: Seq<char>, second: Seq<char>) -> Seq<char> {
    first + seq![':', ' '] + second
}

impl ContentsView {
    /// The payload as one text: the text itself, or description and text joined by
    /// a colon and a space. Pictures and raw bytes have none.
    pub open spec fn spec_text(self) -> Option<Seq<char>> {
        match self {
            ContentsView::Text(s) => Some(s),
            ContentsView::Link(s) => Some(s),
            ContentsView::Lyrics(s) => Some(s),
            ContentsView::ExtendedText(k, v) => Some(joined(k, v)),
            ContentsView::ExtendedLink(d, u) => Some(joined(d, u)),
            ContentsView::Comment(d, t) => Some(joined(d, t)),
            ContentsView::Picture(_) => None,
            ContentsView::Raw(_) => None,
        }
    }
}

/// A single metadata record of a tag.
#[derive(Clone, Debug, PartialEq, Eq)]
pub struct Frame {
    /// The identity of the frame within its tag; opaque, and assigned by the tag.
    pub uuid: Vec<u8>,
    /// The frame identifier, such as `TIT2`.
    pub id: String,
    /// The encoding that text in the payload is written in.
    pub encoding: Encoding,
    /// The header flags.
    pub flags: FrameFlags,
    /// The payload.
    pub contents: Contents,
    /// Where the frame's header stands in the file it was read from or written to;
    /// 0 for a frame that was never persisted.
    pub offset: u64,
}

/// What a frame holds.
pub struct FrameView {
    pub uuid: Seq<u8>,
    pub id: Seq<char>,
    pub encoding: Encoding,
    pub flags: FrameFlags,
    pub contents: ContentsView,
    pub offset: u64,
}

impl FrameView {
    /// The frame without its place in a tag: no identity and no offset.
    pub open spec fn body(self) -> FrameView {
        FrameView { uuid: Seq::empty(), offset: 0, ..self }
    }
}

impl View for Frame {
    type V = FrameView;

    open spec fn view(&self) -> FrameView {
        FrameView {
            uuid: self.uuid@,
            id: self.id@,
            encoding: self.encoding,
            flags: self.flags,
            contents: self.contents@,
            offset: self.offset,
        }
    }
}

/// The views of a sequence of frames.
pub open spec fn views(frames: Seq<Frame>) -> Seq<FrameView> {
    Seq::new(frames.len(), |i: int| frames[i]@)
}

/// Appends `first`, a colon, a space and `second` into one string.
fn join(first: &String, second: &String) -> (r: String)
    ensures
        r@ == joined(first@, second@),
{
    let mut out = first.clone();
    out.push(':');
    out.push(' ');
    out.append(second.as_str());
    assert(out@ =~= joined(first@, second@));
    out
}

impl Frame {
    /// A frame with the given identifier, no identity, no flags, UTF-16 encoding and an
    /// empty raw payload.
    pub fn new(id: &str) -> (frame: Frame)
        ensures
            frame@ == (FrameView {
                uuid: Seq::empty(),
                id: id@,
                encoding: Encoding::UTF16,
                flags: FrameFlags::spec_new(),
                contents: ContentsView::Raw(Seq::empty()),
                offset: 0,
            }),
    {
        Frame {
            uuid: Vec::new(),
            id: id.to_owned(),
            encoding: Encoding::UTF16,
            flags: FrameFlags::new(),
            contents: Contents::Raw(Vec::new()),
            offset: 0,
        }
    }

    /// The payload as one text, where it has one.
    pub fn text(&self) -> (r: Option<String>)
        ensures
            match self@.contents.spec_text() {
                Some(t) => r matches Some(s) && s@ == t,
                None => r is None,
            },
    {
        match &self.contents {
            Contents::Text(s) => Some(s.clone()),
            Contents::Link(s) => Some(s.clone()),
            Contents::Lyrics(s) => Some(s.clone()),
            Contents::ExtendedText(k, v) => Some(join(k, v)),
            Contents::ExtendedLink(d, u) => Some(join(d, u)),
            Contents::Comment(d, t) => Some(join(d, t)),
            Contents::Picture(_) => None,
            Contents::Raw(_) => None,
        }
    }
}

} // verus!
