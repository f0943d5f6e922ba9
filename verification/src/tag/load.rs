//! Reading a tag out of the bytes of a file.

use super::laws::{all_writable, lemma_loaded_tag_writes};
use super::{ID3Tag, TagView};
use crate::chars::bytes_of;
use crate::error::{ErrorKind, TagError};
use crate::flags::TagFlags;
use crate::frame::{Frame, FrameView};
use crate::select::{apart, spaced};
use crate::synchsafe::{spec_unsynchsafe, unsynchsafe};
use crate::wire::{
    be32_value, get_be32, spec_header_len, spec_read_frame, FrameRead, ReadView,
};
use vstd::prelude::*;
use vstd::string::*;

verus! {

/// The three bytes that a tag starts with: `ID3`.
pub open spec fn magic() -> Seq<u8> {
    seq![0x49u8, 0x44u8, 0x33u8]
}

/// Whether `bytes` start with the magic of a tag.
pub open spec fn spec_is_candidate(bytes: Seq<u8>) -> bool {
    bytes.len() >= 3 && bytes.take(3) == magic()
}

/// The bytes of a file that follow its tag: the whole file where it does not start
/// with `ID3`; nothing where it does but ends before the ten bytes of the header are
/// through, so that the size of the tag cannot be read; and else what stands from
/// `10 + size` on, where `size` is what the header declares.
pub open spec fn spec_skip_metadata(bytes: Seq<u8>) -> Seq<u8> {
    if !spec_is_candidate(bytes) {
        bytes
    } else if bytes.len() < 10 {
        Seq::empty()
    } else {
        let start = 10 + spec_unsynchsafe(be32_value(bytes.subrange(6, 10)));
        if start >= bytes.len() {
            Seq::empty()
        } else {
            bytes.skip(start)
        }
    }
}

/// The frames that stand from `pos` on, up to `limit` or to the padding, and the
/// position just past the last of them. A frame that uses a feature that is not handled
/// is passed over; any other failure to read a frame is the failure of the whole.
pub open spec fn spec_read_frames(version: u8, bytes: Seq<u8>, pos: int, limit: int) -> Result<
    (Seq<FrameView>, int),
    ErrorKind,
>
    decreases bytes.len() - pos,
{
    if pos >= limit {
        Ok((Seq::empty(), pos))
    } else {
        match spec_read_frame(version, bytes, pos) {
            ReadView::Padding => Ok((Seq::empty(), pos)),
            ReadView::Failed(kind) => Err(kind),
            ReadView::Unsupported { next } => if pos < next <= bytes.len() {
                spec_read_frames(version, bytes, next, limit)
            } else {
                Err(ErrorKind::InvalidInput)
            },
            ReadView::Frame { frame, next } => if pos < next <= bytes.len() {
                match spec_read_frames(version, bytes, next, limit) {
                    Ok((rest, end)) => Ok((seq![frame] + rest, end)),
                    Err(kind) => Err(kind),
                }
            } else {
                Err(ErrorKind::InvalidInput)
            },
        }
    }
}

/// Where the frames of a tag start: behind the header, and behind the extended header
/// where the flags announce one.
pub open spec fn spec_frames_start(bytes: Seq<u8>, flags: TagFlags) -> int {
    if flags.extended_header {
        14 + spec_unsynchsafe(be32_value(bytes.subrange(10, 14)))
    } else {
        10
    }
}

/// The tag that the bytes of a file hold, without its path and with frames that have
/// no identity yet.
///
/// `InvalidInput` where the file does not start with `ID3`, where the major version is
/// not 2, 3 or 4, where the header is cut short, and where a frame is broken.
/// `UnsupportedFeature` where the tag is unsynchronized, and where a tag of version 2
/// is compressed. A tag of version 2 becomes one of version 4 that asks for a rewrite.
pub open spec fn spec_load(bytes: Seq<u8>) -> Result<TagView, ErrorKind> {
    if !spec_is_candidate(bytes) {
        Err(ErrorKind::InvalidInput)
    } else if bytes.len() < 5 {
        Err(ErrorKind::InvalidInput)
    } else if bytes[3] != 2 && bytes[3] != 3 && bytes[3] != 4 {
        Err(ErrorKind::InvalidInput)
    } else if bytes.len() < 6 {
        Err(ErrorKind::InvalidInput)
    } else {
        let major = bytes[3];
        let flags = TagFlags::spec_from_byte(bytes[5], major);
        if flags.unsynchronization || flags.compression {
            Err(ErrorKind::UnsupportedFeature)
        } else if bytes.len() < 10 || (flags.extended_header && bytes.len() < 14) {
            Err(ErrorKind::InvalidInput)
        } else {
            let size = spec_unsynchsafe(be32_value(bytes.subrange(6, 10)));
            match spec_read_frames(major, bytes, spec_frames_start(bytes, flags), size + 10) {
                Err(kind) => Err(kind),
                Ok((frames, end)) => Ok(
                    TagView {
                        path: None,
                        version: if major == 2 {
                            (4u8, 0u8)
                        } else {
                            (major, bytes[4])
                        },
                        size,
                        offset: end as u64,
                        modified_offset: end as u64,
                        flags,
                        frames,
                        rewrite: major == 2,
                    },
                ),
            }
        }
    }
}

/// The frames without their identities.
pub open spec fn unnamed(frames: Seq<FrameView>) -> Seq<FrameView> {
    Seq::new(frames.len(), |i: int| FrameView { uuid: Seq::empty(), ..frames[i] })
}

/// Whether `bytes` start with `ID3`.
fn has_magic(bytes: &[u8]) -> (r: bool)
    ensures
        r == spec_is_candidate(bytes@),
{
    if bytes.len() < 3 {
        return false;
    }
    let r = bytes[0] == 0x49 && bytes[1] == 0x44 && bytes[2] == 0x33;
    proof {
        let head = bytes@.take(3);
        if r {
            assert(head =~= magic());
        } else if head == magic() {
            assert(head[0] == 0x49 && head[1] == 0x44 && head[2] == 0x33);
        }
    }
    r
}

impl ID3Tag {
    /// Whether the bytes of a file start with an ID3 tag: the three bytes `ID3`.
    pub fn is_candidate(bytes: &[u8]) -> (r: bool)
        ensures
            r == spec_is_candidate(bytes@),
            r <==> bytes@.len() >= 3 && bytes@[0] == 0x49 && bytes@[1] == 0x44 && bytes@[2] == 0x33,
    {
        proof {
            let head = bytes@.take(3);
            if bytes@.len() >= 3 {
                if head == magic() {
                    assert(head[0] == 0x49 && head[1] == 0x44 && head[2] == 0x33);
                } else if bytes@[0] == 0x49 && bytes@[1] == 0x44 && bytes@[2] == 0x33 {
                    assert(head =~= magic());
                }
            }
        }
        has_magic(bytes)
    }

    /// The bytes of a file that follow its tag; the whole file where it does not start
    /// with `ID3`, and nothing where it does but its header is cut short.
    pub fn skip_metadata(bytes: &[u8]) -> (body: Vec<u8>)
        ensures
            body@ == spec_skip_metadata(bytes@),
            !spec_is_candidate(bytes@) ==> body@ == bytes@,
            spec_is_candidate(bytes@) && bytes@.len() < 10 ==> body@ == Seq::<u8>::empty(),
    {
        let len = bytes.len();
        if !has_magic(bytes) {
            return bytes_of(bytes);
        }
        if len < 10 {
            return Vec::new();
        }
        let size = unsynchsafe(get_be32(bytes, 6));
        if len <= 10 || size as usize >= len - 10 {
            return Vec::new();
        }
        let start: usize = 10 + size as usize;
        let body = bytes_of(&bytes[start..len]);
        assert(bytes@.subrange(start as int, len as int) =~= bytes@.skip(start as int));
        body
    }

    /// Reads the frames that stand from `start` on into the tag.
    fn load_frames(&mut self, major: u8, bytes: &[u8], start: usize, limit: u64) -> (r: Result<
        usize,
        TagError,
    >)
        requires
            old(self).fresh(),
            old(self)@.frames.len() == 0,
            start >= 10,
        ensures
            match spec_read_frames(major, bytes@, start as int, limit as int) {
                Ok((frames, end)) => {
                    &&& r == Ok::<usize, TagError>(end as usize)
                    &&& end == end as usize
                    &&& start <= end
                    &&& unnamed(final(self)@.frames) == frames
                    &&& final(self)@ == (TagView { frames: final(self)@.frames, ..old(self)@ })
                    &&& final(self).fresh()
                    &&& final(self).distinct()
                    &&& forall|i: int|
                        0 <= i < final(self)@.frames.len() ==> 10 <= (
                        #[trigger] final(self)@.frames[i]).offset && final(self)@.frames[i].offset
                            + spec_header_len(major) <= end
                    &&& spaced(final(self)@.frames, spec_header_len(major))
                },
                Err(kind) => r matches Err(e) && e.kind == kind,
            },
    {
        let ghost whole = spec_read_frames(major, bytes@, start as int, limit as int);
        let mut pos: usize = start;
        assert(unnamed(self@.frames) =~= Seq::empty());
        assert(forall|s: Seq<FrameView>| Seq::<FrameView>::empty() + s =~= s);
        while (pos as u64) < limit
            invariant
                10 <= start <= pos,
                whole == spec_read_frames(major, bytes@, start as int, limit as int),
                whole == match spec_read_frames(major, bytes@, pos as int, limit as int) {
                    Ok((rest, end)) => Ok::<(Seq<FrameView>, int), ErrorKind>(
                        (unnamed(self@.frames) + rest, end),
                    ),
                    Err(kind) => Err(kind),
                },
                self@ == (TagView { frames: self@.frames, ..old(self)@ }),
                self.fresh(),
                self.distinct(),
                forall|i: int|
                    0 <= i < self@.frames.len() ==> 10 <= (#[trigger] self@.frames[i]).offset
                        && self@.frames[i].offset + spec_header_len(major) <= pos,
                spaced(self@.frames, spec_header_len(major)),
            decreases bytes@.len() - pos,
        {
            let ghost so_far = self@.frames;
            match Frame::read(major, bytes, pos) {
                FrameRead::Padding => {
                    proof {
                        assert(unnamed(so_far) + Seq::<FrameView>::empty() =~= unnamed(so_far));
                    }
                    return Ok(pos);
                },
                FrameRead::Failed(e) => {
                    return Err(e);
                },
                FrameRead::Unsupported(next) => {
                    pos = next;
                },
                FrameRead::Frame(frame, next) => {
                    let ghost read = frame@;
                    self.adopt(frame);
                    proof {
                        assert(unnamed(self@.frames) =~= unnamed(so_far).push(read));
                        assert forall|rest: Seq<FrameView>|
                            unnamed(so_far) + (seq![read] + rest) =~= #[trigger] (unnamed(
                                self@.frames,
                            ) + rest) by {}
                        assert forall|i: int| 0 <= i < self@.frames.len() implies 10 <= (
                        #[trigger] self@.frames[i]).offset && self@.frames[i].offset
                            + spec_header_len(major) <= next by {
                            if i < so_far.len() {
                                assert(self@.frames[i] == so_far[i]);
                            }
                        }
                        assert forall|i: int, j: int|
                            0 <= i < self@.frames.len() && 0 <= j < self@.frames.len() && i
                                != j implies apart(
                            #[trigger] self@.frames[i],
                            #[trigger] self@.frames[j],
                            spec_header_len(major),
                        ) by {
                            if i < so_far.len() {
                                assert(self@.frames[i] == so_far[i]);
                            }
                            if j < so_far.len() {
                                assert(self@.frames[j] == so_far[j]);
                            }
                        }
                    }
                    pos = next;
                },
            }
        }
        proof {
            assert(unnamed(self@.frames) + Seq::<FrameView>::empty() =~= unnamed(self@.frames));
        }
        Ok(pos)
    }

    /// Reads the tag that the bytes of a file hold. `path` is where the file stands; it
    /// is kept with the tag.
    ///
    /// Fails with `InvalidInput` where the file does not start with `ID3`, where the
    /// major version is not 2, 3 or 4, where the header is cut short and where a frame
    /// is broken; with `UnsupportedFeature` where the tag is unsynchronized and where
    /// a tag of version 2 is compressed; with `StringDecoding` where a text of a frame
    /// is not well-formed in its encoding. Frames that are compressed, encrypted or
    /// unsynchronized are passed over. Every frame that is read gets an identity of its
    /// own and keeps the offset at which it stands, and is one that a save can write
    /// again, where the size field has room for its payload.
    pub fn load(path: &str, bytes: &[u8]) -> (r: Result<ID3Tag, TagError>)
        ensures
            match spec_load(bytes@) {
                Ok(loaded) => {
                    &&& r matches Ok(tag)
                    &&& tag.wf()
                    &&& tag@ == (TagView { path: Some(path@), frames: tag@.frames, ..loaded })
                    &&& unnamed(tag@.frames) == loaded.frames
                    &&& tag@.modified_offset == tag@.offset
                    &&& all_writable(tag@.frames)
                },
                Err(kind) => r matches Err(e) && e.kind == kind,
            },
    {
        let len = bytes.len();
        if !has_magic(bytes) {
            return Err(TagError::new(ErrorKind::InvalidInput));
        }
        if len < 5 {
            return Err(TagError::new(ErrorKind::InvalidInput));
        }
        let major = bytes[3];
        if major != 2 && major != 3 && major != 4 {
            return Err(TagError::new(ErrorKind::InvalidInput));
        }
        if len < 6 {
            return Err(TagError::new(ErrorKind::InvalidInput));
        }
        let flags = TagFlags::from_byte(bytes[5], major);
        if flags.unsynchronization || flags.compression {
            return Err(TagError::new(ErrorKind::UnsupportedFeature));
        }
        if len < 10 || (flags.extended_header && len < 14) {
            return Err(TagError::new(ErrorKind::InvalidInput));
        }
        let size = unsynchsafe(get_be32(bytes, 6));
        let start: usize = if flags.extended_header {
            14 + unsynchsafe(get_be32(bytes, 10)) as usize
        } else {
            10
        };
        let mut tag = ID3Tag::new();
        tag.path = Some(path.to_owned());
        tag.size = size;
        tag.flags = flags;
        tag.rewrite = major == 2;
        if major == 2 {
            tag.major = 4;
            tag.revision = 0;
        } else {
            tag.major = major;
            tag.revision = bytes[4];
        }
        assert(tag@.frames =~= Seq::empty());
        let ghost before = tag@;
        let end = match tag.load_frames(major, bytes, start, size as u64 + 10) {
            Ok(end) => end,
            Err(e) => {
                return Err(e);
            },
        };
        tag.offset = end as u64;
        tag.modified_offset = end as u64;
        proof {
            lemma_loaded_tag_writes(bytes@, tag@);
        }
        Ok(tag)
    }
}

} // verus!
