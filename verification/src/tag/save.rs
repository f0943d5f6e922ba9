//! Writing a tag back: which bytes go where in the file.

use super::load::{magic, spec_skip_metadata};
use super::{clear_of, placed_within, ID3Tag, Selector, TagView};
use crate::chars::{append_bytes, bytes_of, str_eq};
use crate::error::{ErrorKind, TagError};
use crate::flags::TagFlags;
use crate::frame::{views, FrameView};
use crate::select::{
    apart, distinct_uuids, lemma_select, member, select, spaced, SelectorView,
};
use crate::synchsafe::{spec_synchsafe, synchsafe};
use crate::text::zeros;
use crate::wire::{be32, spec_frame_bytes};
use vstd::prelude::*;
use vstd::string::*;

verus! {

/// How many zero bytes follow the frames of a tag that is written in full.
pub const PADDING: usize = 2048;

/// What a save has to do to the file.
#[derive(Clone, Debug, PartialEq, Eq)]
pub enum WritePlan {
    /// Replace the file by `head`, followed by what stood behind the tag of the file.
    Rewrite { head: Vec<u8> },
    /// Write `bytes` at `position` and leave the rest of the file as it is.
    Overwrite { position: u64, bytes: Vec<u8> },
}

/// What a plan holds.
pub enum PlanView {
    Rewrite { head: Seq<u8> },
    Overwrite { position: u64, bytes: Seq<u8> },
}

impl View for WritePlan {
    type V = PlanView;

    open spec fn view(&self) -> PlanView {
        match self {
            WritePlan::Rewrite { head } => PlanView::Rewrite { head: head@ },
            WritePlan::Overwrite { position, bytes } => PlanView::Overwrite {
                position: *position,
                bytes: bytes@,
            },
        }
    }
}

/// `file` with `bytes` written at `position`: what stood there is replaced, a file that
/// ends before `position` is filled up with zero bytes, and one that ends before the
/// end of `bytes` grows.
pub open spec fn spec_patch(file: Seq<u8>, position: int, bytes: Seq<u8>) -> Seq<u8> {
    if position >= file.len() {
        file + zeros(position - file.len()) + bytes
    } else if position + bytes.len() >= file.len() {
        file.take(position) + bytes
    } else {
        file.take(position) + bytes + file.skip(position + bytes.len())
    }
}

impl PlanView {
    /// The file after the plan has been carried out on `file`.
    pub open spec fn spec_apply(self, file: Seq<u8>) -> Seq<u8> {
        match self {
            PlanView::Rewrite { head } => head + spec_skip_metadata(file),
            PlanView::Overwrite { position, bytes } => spec_patch(file, position as int, bytes),
        }
    }
}

/// Whether every frame can be written in a tag of the given version.
pub open spec fn encodable(frames: Seq<FrameView>, version: u8) -> bool {
    forall|i: int| 0 <= i < frames.len() ==> spec_frame_bytes(#[trigger] frames[i], version) is Ok
}

/// The bytes of a frame that can be written.
pub open spec fn frame_bytes(frame: FrameView, version: u8) -> Seq<u8> {
    spec_frame_bytes(frame, version)->Ok_0
}

/// How many bytes the frames take in a tag of the given version.
pub open spec fn total_len(frames: Seq<FrameView>, version: u8) -> int
    decreases frames.len(),
{
    if frames.len() == 0 {
        0
    } else {
        total_len(frames.drop_last(), version) + frame_bytes(frames.last(), version).len()
    }
}

/// Whether a save writes `frame` again. With no watermark every frame is written; with
/// one, the frames that were never persisted and those that stand behind it.
pub open spec fn moves(frame: FrameView, watermark: Option<u64>) -> bool {
    match watermark {
        None => true,
        Some(w) => frame.offset == 0 || frame.offset > w,
    }
}

/// The frames after a save has written those that move, one after the other from
/// `start` on, and the bytes that it wrote. A frame that is written takes the position
/// of its first byte as its offset.
pub open spec fn spec_layout(
    frames: Seq<FrameView>,
    version: u8,
    start: int,
    watermark: Option<u64>,
) -> (Seq<FrameView>, Seq<u8>)
    decreases frames.len(),
{
    if frames.len() == 0 {
        (Seq::empty(), Seq::empty())
    } else {
        let (placed, bytes) = spec_layout(frames.drop_last(), version, start, watermark);
        let last = frames.last();
        if moves(last, watermark) {
            (
                placed.push(FrameView { offset: (start + bytes.len()) as u64, ..last }),
                bytes + frame_bytes(last, version),
            )
        } else {
            (placed.push(last), bytes)
        }
    }
}

/// The ten bytes of a tag header: `ID3`, the major version, revision 0, the flags and
/// the synchsafe size.
pub open spec fn spec_header(major: u8, flags: TagFlags, size: u32) -> Seq<u8> {
    magic() + seq![major, 0u8, flags.spec_byte()] + be32(spec_synchsafe(size))
}

/// Whether a save of `tag` to `path` goes to another file than the one the tag came
/// from.
pub open spec fn spec_file_changed(tag: TagView, path: Seq<char>) -> bool {
    tag.path != Some(path)
}

/// Whether a save of `tag` to `path` has to write the whole file whatever the frames
/// take: the tag asks for it, the file is another one, or the tag was read with an
/// extended header.
pub open spec fn spec_forced(tag: TagView, path: Seq<char>) -> bool {
    tag.rewrite || spec_file_changed(tag, path) || tag.flags.extended_header
}

/// The major version that a save of `tag` to `path` writes.
pub open spec fn spec_target(tag: TagView, path: Seq<char>) -> u8 {
    if spec_forced(tag, path) {
        4
    } else {
        tag.version.0
    }
}

/// A save that writes the whole file: header, the frames that are not dropped, padding.
/// The size that the header declares counts every frame of the tag, dropped ones too,
/// and the padding.
pub open spec fn spec_rewrite(tag: TagView, path: Seq<char>) -> Result<
    (TagView, PlanView),
    ErrorKind,
> {
    let major = spec_target(tag, path);
    let size = total_len(tag.frames, major) + PADDING;
    if size >= 0x1000_0000 {
        Err(ErrorKind::InvalidInput)
    } else {
        let selector = if spec_file_changed(tag, path) {
            SelectorView::FileAltered
        } else {
            SelectorView::TagAltered
        };
        let (placed, body) = spec_layout(select(tag.frames, selector, false), major, 10, None);
        let flags = TagFlags { extended_header: false, ..tag.flags };
        Ok(
            (
                TagView {
                    path: Some(path),
                    version: (major, 0),
                    size: size as u32,
                    offset: (10 + body.len()) as u64,
                    modified_offset: (10 + body.len()) as u64,
                    flags,
                    frames: placed,
                    rewrite: tag.rewrite,
                },
                PlanView::Rewrite {
                    head: spec_header(major, flags, size as u32) + body + zeros(PADDING as int),
                },
            ),
        )
    }
}

/// A save that writes from the watermark on: the frames that move, then zero bytes up
/// to where the frames ended before.
pub open spec fn spec_overwrite(tag: TagView) -> Result<(TagView, PlanView), ErrorKind> {
    let major = tag.version.0;
    if tag.modified_offset + total_len(tag.frames, major) > u64::MAX {
        Err(ErrorKind::InvalidInput)
    } else {
        let (placed, body) = spec_layout(
            select(tag.frames, SelectorView::TagAltered, false),
            major,
            tag.modified_offset as int,
            Some(tag.modified_offset),
        );
        let end = tag.modified_offset + body.len();
        let gap = if end < tag.offset {
            tag.offset - end
        } else {
            0
        };
        Ok(
            (
                TagView { offset: end as u64, modified_offset: end as u64, frames: placed, ..tag },
                PlanView::Overwrite { position: tag.modified_offset, bytes: body + zeros(gap) },
            ),
        )
    }
}

/// What a save of `tag` to `path` does to the tag and to the file.
///
/// `InvalidInput` where a frame cannot be written, where the tag would not fit in the
/// 28 bits of its size field, and where an offset would not fit in 64 bits. The whole
/// file is written where that is forced and where the frames take more than the size
/// that the tag declared; else the file is written from the watermark on.
pub open spec fn spec_write(tag: TagView, path: Seq<char>) -> Result<(TagView, PlanView), ErrorKind> {
    let major = spec_target(tag, path);
    if !encodable(tag.frames, major) {
        Err(ErrorKind::InvalidInput)
    } else if spec_forced(tag, path) || total_len(tag.frames, major) > tag.size {
        spec_rewrite(tag, path)
    } else {
        spec_overwrite(tag)
    }
}

/// What laying out frames keeps: their number, and everything of a frame but its offset;
/// a frame that moves stands in the stretch that was written, a frame that does not
/// move stays where it was; and what was written is as long as the frames that moved.
pub proof fn lemma_layout(frames: Seq<FrameView>, version: u8, start: int, watermark: Option<u64>)
    requires
        0 <= start,
        start + total_len(frames, version) <= u64::MAX,
        encodable(frames, version),
    ensures
        ({
            let (placed, bytes) = spec_layout(frames, version, start, watermark);
            &&& placed.len() == frames.len()
            &&& 0 <= bytes.len() <= total_len(frames, version)
            &&& watermark is None ==> bytes.len() == total_len(frames, version)
            &&& forall|i: int|
                0 <= i < frames.len() ==> {
                    &&& #[trigger] placed[i] == FrameView { offset: placed[i].offset, ..frames[i] }
                    &&& moves(frames[i], watermark) ==> start <= placed[i].offset
                        && placed[i].offset + frame_bytes(frames[i], version).len() <= start
                        + bytes.len()
                    &&& !moves(frames[i], watermark) ==> placed[i].offset == frames[i].offset
                }
            &&& forall|i: int, j: int|
                0 <= i < j < frames.len() && moves(frames[i], watermark) && moves(
                    frames[j],
                    watermark,
                ) ==> (#[trigger] placed[i]).offset + frame_bytes(frames[i], version).len() <= (
                #[trigger] placed[j]).offset
        }),
    decreases frames.len(),
{
    if frames.len() > 0 {
        let front = frames.drop_last();
        assert(encodable(front, version)) by {
            assert forall|i: int| 0 <= i < front.len() implies spec_frame_bytes(
                #[trigger] front[i],
                version,
            ) is Ok by {
                assert(front[i] == frames[i]);
            }
        }
        assert(spec_frame_bytes(frames[frames.len() - 1], version) is Ok);
        lemma_layout(front, version, start, watermark);
        let (placed, bytes) = spec_layout(frames, version, start, watermark);
        let (before, written) = spec_layout(front, version, start, watermark);
        assert forall|i: int| 0 <= i < frames.len() implies {
            &&& #[trigger] placed[i] == FrameView { offset: placed[i].offset, ..frames[i] }
            &&& moves(frames[i], watermark) ==> start <= placed[i].offset && placed[i].offset
                + frame_bytes(frames[i], version).len() <= start + bytes.len()
            &&& !moves(frames[i], watermark) ==> placed[i].offset == frames[i].offset
        } by {
            if i < front.len() {
                assert(placed[i] == before[i]);
                assert(front[i] == frames[i]);
            }
        }
        assert forall|i: int, j: int|
            0 <= i < j < frames.len() && moves(frames[i], watermark) && moves(
                frames[j],
                watermark,
            ) implies (#[trigger] placed[i]).offset + frame_bytes(frames[i], version).len() <= (
        #[trigger] placed[j]).offset by {
            assert(placed[i] == before[i]);
            assert(front[i] == frames[i]);
            if j < front.len() {
                assert(placed[j] == before[j]);
                assert(front[j] == frames[j]);
            } else {
                assert(placed[j].offset == start + written.len());
            }
        }
    }
}

/// Frames that can all be written can still all be written when some are taken out.
pub proof fn lemma_select_encodable(
    frames: Seq<FrameView>,
    selector: SelectorView,
    version: u8,
)
    requires
        encodable(frames, version),
    ensures
        encodable(select(frames, selector, false), version),
        total_len(select(frames, selector, false), version) <= total_len(frames, version),
        select(frames, selector, true).len() == 0 ==> select(frames, selector, false) == frames,
    decreases frames.len(),
{
    if frames.len() > 0 {
        let front = frames.drop_last();
        assert(encodable(front, version)) by {
            assert forall|i: int| 0 <= i < front.len() implies spec_frame_bytes(
                #[trigger] front[i],
                version,
            ) is Ok by {
                assert(front[i] == frames[i]);
            }
        }
        assert(spec_frame_bytes(frames[frames.len() - 1], version) is Ok);
        lemma_select_encodable(front, selector, version);
        let kept = select(frames, selector, false);
        let before = select(front, selector, false);
        assert forall|i: int| 0 <= i < kept.len() implies spec_frame_bytes(
            #[trigger] kept[i],
            version,
        ) is Ok by {
            if i < before.len() {
                assert(kept[i] == before[i]);
            }
        }
        if !selector.selects(frames.last()) {
            assert(kept.drop_last() =~= before);
        }
        if select(frames, selector, true).len() == 0 {
            assert(kept =~= frames);
        }
    } else {
        assert(select(frames, selector, false) =~= frames);
    }
}

/// Frames that a save has laid out stand where the tag wants its frames: each ends at or
/// in front of the new offset `end`, none stands in the way of another, and none shares
/// its identity with another. `start` is where the save wrote from.
proof fn lemma_laid_out_wf(
    kept: Seq<FrameView>,
    version: u8,
    start: u64,
    watermark: Option<u64>,
    least: int,
)
    requires
        6 <= least <= 10,
        10 <= start,
        start + total_len(kept, version) <= u64::MAX,
        encodable(kept, version),
        distinct_uuids(kept),
        spaced(kept, least),
        forall|i: int|
            0 <= i < kept.len() && !moves(#[trigger] kept[i], watermark) ==> 10 <= kept[i].offset
                && kept[i].offset + least <= start,
    ensures
        ({
            let (placed, body) = spec_layout(kept, version, start as int, watermark);
            let end = (start + body.len()) as u64;
            &&& distinct_uuids(placed)
            &&& spaced(placed, least)
            &&& forall|i: int|
                0 <= i < placed.len() ==> placed_within(#[trigger] placed[i], end, least)
                    && clear_of(placed[i], end, least)
        }),
{
    lemma_total_len_nonnegative(kept, version);
    lemma_layout(kept, version, start as int, watermark);
    let (placed, body) = spec_layout(kept, version, start as int, watermark);
    let end = (start + body.len()) as u64;
    assert forall|i: int| 0 <= i < placed.len() implies placed_within(
        #[trigger] placed[i],
        end,
        least,
    ) && clear_of(placed[i], end, least) by {
        assert(spec_frame_bytes(kept[i], version) is Ok);
        crate::frame_laws::lemma_frame_len(kept[i], version);
    }
    assert forall|i: int, j: int|
        0 <= i < placed.len() && 0 <= j < placed.len() && i != j implies (
    #[trigger] placed[i]).uuid != (#[trigger] placed[j]).uuid && apart(
        placed[i],
        placed[j],
        least,
    ) by {
        assert(placed[i].uuid == kept[i].uuid);
        assert(placed[j].uuid == kept[j].uuid);
        assert(spec_frame_bytes(kept[i], version) is Ok);
        assert(spec_frame_bytes(kept[j], version) is Ok);
        crate::frame_laws::lemma_frame_len(kept[i], version);
        crate::frame_laws::lemma_frame_len(kept[j], version);
        assert(apart(kept[i], kept[j], least));
        if moves(kept[i], watermark) && moves(kept[j], watermark) {
            if i < j {
                assert(placed[i].offset + frame_bytes(kept[i], version).len() <= placed[j].offset);
            } else {
                assert(placed[j].offset + frame_bytes(kept[j], version).len() <= placed[i].offset);
            }
        }
    }
}

/// A save that writes the whole file leaves a well-formed tag whose watermark stands at
/// the end of its frames.
pub proof fn lemma_rewrite_wf(tag: TagView, path: Seq<char>)
    requires
        tag.wf(),
        encodable(tag.frames, spec_target(tag, path)),
    ensures
        spec_rewrite(tag, path) matches Ok((after, _)) ==> after.wf() && after.modified_offset
            == after.offset,
{
    let major = spec_target(tag, path);
    let selector = if spec_file_changed(tag, path) {
        SelectorView::FileAltered
    } else {
        SelectorView::TagAltered
    };
    let kept = select(tag.frames, selector, false);
    if total_len(tag.frames, major) + PADDING < 0x1000_0000 {
        lemma_select_encodable(tag.frames, selector, major);
        lemma_select(tag.frames, selector, false);
        crate::select::lemma_select_spaced(tag.frames, selector, false, tag.least_frame());
        lemma_total_len_nonnegative(kept, major);
        lemma_layout(kept, major, 10, None);
        lemma_laid_out_wf(kept, major, 10, None, tag.least_frame());
    }
}

/// A save that writes from the watermark on leaves a well-formed tag whose watermark
/// stands at the end of its frames.
pub proof fn lemma_overwrite_wf(tag: TagView)
    requires
        tag.wf(),
        tag.path is Some,
        encodable(tag.frames, tag.version.0),
    ensures
        spec_overwrite(tag) matches Ok((after, _)) ==> after.wf() && after.modified_offset
            == after.offset,
{
    let major = tag.version.0;
    let start = tag.modified_offset;
    let least = tag.least_frame();
    let kept = select(tag.frames, SelectorView::TagAltered, false);
    if start + total_len(tag.frames, major) <= u64::MAX {
        lemma_select_encodable(tag.frames, SelectorView::TagAltered, major);
        lemma_select(tag.frames, SelectorView::TagAltered, false);
        crate::select::lemma_select_spaced(tag.frames, SelectorView::TagAltered, false, least);
        lemma_total_len_nonnegative(kept, major);
        assert forall|i: int|
            0 <= i < kept.len() && !moves(#[trigger] kept[i], Some(start)) implies 10
            <= kept[i].offset && kept[i].offset + least <= start by {
            assert(member(tag.frames, kept[i]));
            let j = choose|j: int| 0 <= j < tag.frames.len() && tag.frames[j] == kept[i];
            assert(placed_within(tag.frames[j], tag.offset, least));
            assert(clear_of(tag.frames[j], tag.modified_offset, least));
        }
        lemma_layout(kept, major, start as int, Some(start));
        lemma_laid_out_wf(kept, major, start, Some(start), least);
    }
}

/// The frames at the start of a sequence take no more bytes than all of them.
pub proof fn lemma_total_len_prefix(frames: Seq<FrameView>, version: u8, n: int)
    requires
        0 <= n <= frames.len(),
    ensures
        0 <= total_len(frames.take(n), version) <= total_len(frames, version),
    decreases frames.len() - n,
{
    if n < frames.len() {
        let longer = frames.take(n + 1);
        assert(longer.drop_last() =~= frames.take(n));
        lemma_total_len_prefix(frames, version, n + 1);
        lemma_total_len_nonnegative(frames.take(n), version);
    } else {
        assert(frames.take(n) =~= frames);
        lemma_total_len_nonnegative(frames, version);
    }
}

/// Frames take no negative number of bytes.
pub proof fn lemma_total_len_nonnegative(frames: Seq<FrameView>, version: u8)
    ensures
        0 <= total_len(frames, version),
    decreases frames.len(),
{
    if frames.len() > 0 {
        lemma_total_len_nonnegative(frames.drop_last(), version);
    }
}

/// Appends `count` zero bytes to `out`.
fn put_zeros(out: &mut Vec<u8>, count: u64)
    ensures
        final(out)@ == old(out)@ + zeros(count as int),
{
    let mut i: u64 = 0;
    assert(out@ =~= old(out)@ + zeros(0));
    while i < count
        invariant
            i <= count,
            out@ == old(out)@ + zeros(i as int),
        decreases count - i,
    {
        out.push(0);
        assert(out@ =~= old(out)@ + zeros(i + 1));
        i += 1;
    }
}

/// The ten bytes of a tag header.
fn header(major: u8, flags: &TagFlags, size: u32) -> (out: Vec<u8>)
    ensures
        out@ == spec_header(major, *flags, size),
{
    let mut out: Vec<u8> = Vec::new();
    out.push(0x49);
    out.push(0x44);
    out.push(0x33);
    out.push(major);
    out.push(0);
    out.push(flags.to_byte());
    let n = synchsafe(size);
    out.push((n / 0x100_0000) as u8);
    out.push(((n / 0x1_0000) % 256) as u8);
    out.push(((n / 0x100) % 256) as u8);
    out.push((n % 256) as u8);
    assert(out@ =~= spec_header(major, *flags, size));
    out
}

impl WritePlan {
    /// Carries the plan out on the bytes of a file held in memory, and returns the bytes
    /// of the file as it is afterwards.
    pub fn apply(&self, file: &[u8]) -> (after: Vec<u8>)
        requires
            self@ matches PlanView::Overwrite { position, bytes } ==> position <= usize::MAX,
        ensures
            after@ == self@.spec_apply(file@),
    {
        match self {
            WritePlan::Rewrite { head } => {
                let mut out = bytes_of(head.as_slice());
                let body = ID3Tag::skip_metadata(file);
                append_bytes(&mut out, body.as_slice());
                out
            },
            WritePlan::Overwrite { position, bytes } => {
                let len = file.len();
                let at: usize = *position as usize;
                if at >= len {
                    let mut out = bytes_of(file);
                    put_zeros(&mut out, (at - len) as u64);
                    append_bytes(&mut out, bytes.as_slice());
                    out
                } else {
                    let mut out = bytes_of(&file[0..at]);
                    assert(file@.subrange(0, at as int) =~= file@.take(at as int));
                    append_bytes(&mut out, bytes.as_slice());
                    if bytes.len() < len - at {
                        let rest = &file[at + bytes.len()..len];
                        assert(rest@ =~= file@.skip(at + bytes@.len()));
                        append_bytes(&mut out, rest);
                    }
                    out
                }
            },
        }
    }
}

impl ID3Tag {
    /// How many bytes the frames take in a tag of the given version, where every frame
    /// can be written and the sum stays below 2^28.
    fn measure(&self, major: u8) -> (r: Option<u64>)
        ensures
            r matches Some(n) ==> encodable(self@.frames, major) && n == total_len(
                self@.frames,
                major,
            ) && n < 0x1000_0000,
            r is None ==> !encodable(self@.frames, major) || total_len(self@.frames, major)
                >= 0x1000_0000,
    {
        let mut total: u64 = 0;
        let mut i: usize = 0;
        assert(self@.frames.take(0) =~= Seq::empty());
        while i < self.frames.len()
            invariant
                i <= self.frames@.len(),
                encodable(self@.frames.take(i as int), major),
                total == total_len(self@.frames.take(i as int), major),
                total < 0x1000_0000,
            decreases self.frames@.len() - i,
        {
            proof {
                let next = self@.frames.take(i + 1);
                assert(next.drop_last() =~= self@.frames.take(i as int));
                assert(next.last() == self.frames@[i as int]@);
                assert(self@.frames[i as int] == self.frames@[i as int]@);
            }
            match self.frames[i].to_bytes(major) {
                Ok(bytes) => {
                    if bytes.len() as u64 >= 0x1000_0000 - total {
                        proof {
                            if encodable(self@.frames, major) {
                                lemma_total_len_prefix(self@.frames, major, i + 1);
                            }
                        }
                        return None;
                    }
                    total = total + bytes.len() as u64;
                    proof {
                        let next = self@.frames.take(i + 1);
                        assert forall|k: int| 0 <= k < next.len() implies spec_frame_bytes(
                            #[trigger] next[k],
                            major,
                        ) is Ok by {
                            if k < i {
                                assert(next[k] == self@.frames.take(i as int)[k]);
                            }
                        }
                    }
                },
                Err(_) => {
                    return None;
                },
            }
            i += 1;
        }
        assert(self@.frames.take(self@.frames.len() as int) =~= self@.frames);
        Some(total)
    }

    /// Writes the frames that move into `out`, one after the other, and gives each the
    /// position of its first byte as its offset, counting from `start`.
    fn lay_out(&mut self, major: u8, start: u64, watermark: Option<u64>, out: &mut Vec<u8>)
        requires
            encodable(old(self)@.frames, major),
            start + total_len(old(self)@.frames, major) <= u64::MAX,
            old(self).fresh(),
        ensures
            final(self)@ == (TagView {
                frames: spec_layout(old(self)@.frames, major, start as int, watermark).0,
                ..old(self)@
            }),
            final(out)@ == old(out)@ + spec_layout(
                old(self)@.frames,
                major,
                start as int,
                watermark,
            ).1,
            final(self).fresh(),
    {
        let ghost given = self@.frames;
        let mut pos: u64 = start;
        let mut i: usize = 0;
        proof {
            assert(given.take(0) =~= Seq::empty());
            assert(views(self.frames@).take(0) =~= Seq::empty());
            assert(views(self.frames@).skip(0) =~= given.skip(0));
            assert(out@ =~= old(out)@ + Seq::<u8>::empty());
        }
        while i < self.frames.len()
            invariant
                i <= self.frames@.len() == given.len(),
                given == old(self)@.frames,
                encodable(given, major),
                start + total_len(given, major) <= u64::MAX,
                views(self.frames@).take(i as int) == spec_layout(
                    given.take(i as int),
                    major,
                    start as int,
                    watermark,
                ).0,
                views(self.frames@).skip(i as int) == given.skip(i as int),
                out@ == old(out)@ + spec_layout(
                    given.take(i as int),
                    major,
                    start as int,
                    watermark,
                ).1,
                pos == start + spec_layout(given.take(i as int), major, start as int, watermark).1.len(),
                forall|k: int|
                    0 <= k < self.frames@.len() ==> (#[trigger] self.frames@[k]).uuid@ == old(
                        self,
                    ).frames@[k].uuid@,
                self.next_uuid == old(self).next_uuid,
                self.path == old(self).path,
                self.major == old(self).major,
                self.revision == old(self).revision,
                self.size == old(self).size,
                self.offset == old(self).offset,
                self.modified_offset == old(self).modified_offset,
                self.flags == old(self).flags,
                self.rewrite == old(self).rewrite,
            decreases self.frames@.len() - i,
        {
            let ghost before = self.frames@;
            let ghost current = given[i as int];
            let ghost (placed, bytes) = spec_layout(
                given.take(i as int),
                major,
                start as int,
                watermark,
            );
            proof {
                let next = given.take(i + 1);
                assert(next.drop_last() =~= given.take(i as int));
                assert(next.last() == current);
                assert(views(before).skip(i as int)[0] == current);
                assert(before[i as int]@ == current);
                assert(spec_frame_bytes(given[i as int], major) is Ok);
                lemma_total_len_prefix(given, major, i + 1);
                assert(encodable(next, major)) by {
                    assert forall|k: int| 0 <= k < next.len() implies spec_frame_bytes(
                        #[trigger] next[k],
                        major,
                    ) is Ok by {
                        assert(next[k] == given[k]);
                    }
                }
                lemma_total_len_nonnegative(next, major);
                lemma_layout(next, major, start as int, watermark);
            }
            let moving = match watermark {
                None => true,
                Some(w) => self.frames[i].offset == 0 || self.frames[i].offset > w,
            };
            if moving {
                match self.frames[i].to_bytes(major) {
                    Ok(written) => {
                        self.frames[i].offset = pos;
                        append_bytes(out, written.as_slice());
                        pos = pos + written.len() as u64;
                        proof {
                            assert(out@ =~= old(out)@ + (bytes + frame_bytes(current, major)));
                            assert(views(self.frames@).take(i + 1) =~= placed.push(
                                FrameView { offset: (start + bytes.len()) as u64, ..current },
                            ));
                        }
                    },
                    Err(_) => {
                        assert(false);
                    },
                }
            } else {
                proof {
                    assert(views(self.frames@).take(i + 1) =~= placed.push(current));
                }
            }
            proof {
                assert forall|k: int| i < k < given.len() implies views(self.frames@)[k]
                    == given[k] by {
                    assert(self.frames@[k] == before[k]);
                    assert(views(before).skip(i as int)[k - i] == given.skip(i as int)[k - i]);
                }
                assert(views(self.frames@).skip(i + 1) =~= given.skip(i + 1));
            }
            i += 1;
        }
        proof {
            assert(given.take(given.len() as int) =~= given);
            assert(views(self.frames@).take(given.len() as int) =~= views(self.frames@));
            assert forall|k: int| 0 <= k < self.frames@.len() implies super::uuid_lt(
                (#[trigger] self.frames@[k]).uuid@,
                self.next_uuid@,
            ) by {
                assert(super::uuid_lt(old(self).frames@[k].uuid@, old(self).next_uuid@));
            }
        }
    }

    /// Whether a save to `path` goes to another file than the one the tag came from.
    fn file_changed(&self, path: &str) -> (r: bool)
        ensures
            r == spec_file_changed(self@, path@),
    {
        match &self.path {
            Some(p) => !str_eq(p.as_str(), path),
            None => true,
        }
    }

    /// Writes the whole tag: the frames that are to be dropped are removed, the others
    /// are written behind a fresh header and followed by padding.
    fn rewrite_all(&mut self, path: &str, major: u8, new_size: u64) -> (r: Result<
        WritePlan,
        TagError,
    >)
        requires
            old(self).wf(),
            major == spec_target(old(self)@, path@),
            encodable(old(self)@.frames, major),
            new_size == total_len(old(self)@.frames, major),
            new_size < 0x1000_0000,
        ensures
            final(self).wf(),
            match spec_rewrite(old(self)@, path@) {
                Ok((after, plan)) => r matches Ok(p) && p@ == plan && final(self)@ == after,
                Err(kind) => r matches Err(e) && e.kind == kind && final(self)@ == old(self)@,
            },
    {
        if new_size + PADDING as u64 >= 0x1000_0000 {
            return Err(TagError::new(ErrorKind::InvalidInput));
        }
        let size: u32 = (new_size + PADDING as u64) as u32;
        let changed = self.file_changed(path);
        let ghost selector = if changed {
            SelectorView::FileAltered
        } else {
            SelectorView::TagAltered
        };
        if changed {
            self.remove_where(&Selector::FileAltered);
        } else {
            self.remove_where(&Selector::TagAltered);
        }
        let ghost kept = self@.frames;
        proof {
            lemma_select_encodable(old(self)@.frames, selector, major);
            lemma_layout(kept, major, 10, None);
        }
        self.flags.extended_header = false;
        self.major = major;
        self.revision = 0;
        self.path = Some(path.to_owned());
        self.size = size;
        let mut head = header(major, &self.flags, size);
        self.lay_out(major, 10, None, &mut head);
        let end: u64 = head.len() as u64;
        self.offset = end;
        self.modified_offset = end;
        put_zeros(&mut head, PADDING as u64);
        proof {
            lemma_rewrite_wf(old(self)@, path@);
        }
        Ok(WritePlan::Rewrite { head })
    }

    /// Writes from the watermark on: the frames that are to be dropped are removed, the
    /// frames that move are written, and what is left of the old frames is zeroed.
    fn overwrite(&mut self, major: u8, new_size: u64) -> (r: Result<WritePlan, TagError>)
        requires
            old(self).wf(),
            old(self)@.path is Some,
            major == old(self)@.version.0,
            encodable(old(self)@.frames, major),
            new_size == total_len(old(self)@.frames, major),
        ensures
            final(self).wf(),
            match spec_overwrite(old(self)@) {
                Ok((after, plan)) => r matches Ok(p) && p@ == plan && final(self)@ == after,
                Err(kind) => r matches Err(e) && e.kind == kind && final(self)@ == old(self)@,
            },
    {
        let start = self.modified_offset;
        let old_offset = self.offset;
        if start > u64::MAX - new_size {
            return Err(TagError::new(ErrorKind::InvalidInput));
        }
        self.remove_where(&Selector::TagAltered);
        let ghost kept = self@.frames;
        proof {
            lemma_select_encodable(old(self)@.frames, SelectorView::TagAltered, major);
            lemma_layout(kept, major, start as int, Some(start));
        }
        self.modified_offset = start;
        let mut bytes: Vec<u8> = Vec::new();
        self.lay_out(major, start, Some(start), &mut bytes);
        let end: u64 = start + bytes.len() as u64;
        if end < old_offset {
            put_zeros(&mut bytes, old_offset - end);
        } else {
            assert(bytes@ =~= bytes@ + zeros(0));
        }
        self.offset = end;
        self.modified_offset = end;
        proof {
            let (placed, body) = spec_layout(kept, major, start as int, Some(start));
            assert(Seq::<u8>::empty() + body =~= body);
            lemma_overwrite_wf(old(self)@);
        }
        Ok(WritePlan::Overwrite { position: start, bytes })
    }

    /// Plans a save of the tag to the file at `path`, and brings the tag in line with
    /// what the file holds once the plan has been carried out.
    ///
    /// The whole file is written where the tag asks for it, where `path` is not the
    /// path that the tag came from, where the tag was read with an extended header, and
    /// where the frames take more than the size that the tag declared. A tag that is
    /// written in full under one of the first three conditions becomes one of version
    /// 2.4 without extended header. Else the file is written from the watermark on.
    ///
    /// Fails with `InvalidInput`, and leaves the tag as it is, where a frame cannot be
    /// written, where the tag would not fit in the 28 bits of its size field, and
    /// where an offset would not fit in 64 bits.
    pub fn write(&mut self, path: &str) -> (r: Result<WritePlan, TagError>)
        requires
            old(self).wf(),
        ensures
            final(self).wf(),
            match spec_write(old(self)@, path@) {
                Ok((after, plan)) => r matches Ok(p) && p@ == plan && final(self)@ == after,
                Err(kind) => r matches Err(e) && e.kind == kind && final(self)@ == old(self)@,
            },
    {
        let forced = self.rewrite || self.file_changed(path) || self.flags.extended_header;
        let major: u8 = if forced {
            4
        } else {
            self.major
        };
        let new_size = match self.measure(major) {
            Some(n) => n,
            None => {
                return Err(TagError::new(ErrorKind::InvalidInput));
            },
        };
        if forced || new_size > self.size as u64 {
            self.rewrite_all(path, major, new_size)
        } else {
            self.overwrite(major, new_size)
        }
    }

    /// Plans a save of the tag to the file that it came from.
    pub fn save(&mut self) -> (r: Result<WritePlan, TagError>)
        requires
            old(self).wf(),
            old(self)@.path is Some,
        ensures
            final(self).wf(),
            match spec_write(old(self)@, old(self)@.path->0) {
                Ok((after, plan)) => r matches Ok(p) && p@ == plan && final(self)@ == after,
                Err(kind) => r matches Err(e) && e.kind == kind && final(self)@ == old(self)@,
            },
    {
        let path = match &self.path {
            Some(p) => p.clone(),
            None => String::new(),
        };
        self.write(path.as_str())
    }
}

} // verus!
