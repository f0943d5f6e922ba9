//! What holds of a tag across several operations: the watermark, the version upgrade,
//! and what a save leaves of the file.

use super::load::{
    magic, spec_frames_start, spec_is_candidate, spec_load, spec_read_frames, spec_skip_metadata,
    unnamed,
};
use super::save::{
    encodable, frame_bytes, lemma_layout, lemma_select_encodable, lemma_total_len_nonnegative,
    moves, spec_file_changed, spec_forced, spec_header, spec_layout, spec_overwrite,
    spec_rewrite, spec_target, spec_write, total_len, PlanView, PADDING,
};
use super::{lemma_without_wf, TagView};
use crate::error::ErrorKind;
use crate::flags::TagFlags;
use crate::frame::{ContentsView, FrameView};
use crate::frame_laws::{
    canonical, lemma_be32_round_trip, lemma_frame_len, lemma_frame_round_trip,
    lemma_read_frame_writes, lemma_written_iff_writable, settled,
};
use crate::payload::spec_payload;
use crate::select::{lemma_lowered, lemma_select, member, select, SelectorView};
use crate::synchsafe::{lemma_unsynchsafe_of_synchsafe, spec_synchsafe, spec_unsynchsafe};
use crate::text::{is_latin1, zeros, Encoding};
use crate::text_laws::lemma_encodes;
use crate::wire::{
    be32, be32_value, spec_frame_bytes, spec_read_frame, valid_id, writable_id, ReadView,
};
use vstd::prelude::*;

verus! {

/// Watermark monotonicity: removing frames never moves the watermark past the offset
/// and never raises it. Afterwards it stands at the lowest offset of a removed frame
/// that was persisted, where that is lower than it stood before, and else where it
/// stood.
pub proof fn lemma_watermark_after_removal(tag: TagView, selector: SelectorView)
    requires
        tag.wf(),
    ensures
        tag.without(selector).wf(),
        tag.without(selector).offset == tag.offset,
        tag.without(selector).modified_offset <= tag.without(selector).offset,
        tag.without(selector).modified_offset <= tag.modified_offset,
        forall|i: int|
            0 <= i < tag.frames.len() && selector.selects(#[trigger] tag.frames[i])
                && tag.frames[i].offset != 0 ==> tag.without(selector).modified_offset
                <= tag.frames[i].offset,
        tag.without(selector).modified_offset == tag.modified_offset || exists|i: int|
            0 <= i < tag.frames.len() && selector.selects(#[trigger] tag.frames[i])
                && tag.frames[i].offset != 0 && tag.frames[i].offset == tag.without(
                selector,
            ).modified_offset,
{
    let gone = select(tag.frames, selector, true);
    let after = tag.without(selector).modified_offset;
    lemma_without_wf(tag, selector);
    lemma_select(tag.frames, selector, true);
    lemma_lowered(tag.modified_offset, gone);
    assert forall|i: int|
        0 <= i < tag.frames.len() && selector.selects(#[trigger] tag.frames[i])
            && tag.frames[i].offset != 0 implies after <= tag.frames[i].offset by {
        assert(member(gone, tag.frames[i]));
        let k = choose|k: int| 0 <= k < gone.len() && gone[k] == tag.frames[i];
        assert(gone[k].offset != 0);
    }
    if after != tag.modified_offset {
        let k = choose|k: int|
            0 <= k < gone.len() && gone[k].offset != 0 && #[trigger] gone[k].offset == after;
        assert(member(tag.frames, gone[k]));
        let i = choose|i: int| 0 <= i < tag.frames.len() && tag.frames[i] == gone[k];
        assert(selector.selects(tag.frames[i]));
    }
}

/// Adding a frame leaves the watermark and the offset where they stood, and the tag
/// well-formed, where the identity of the frame is not in use.
pub proof fn lemma_watermark_after_addition(tag: TagView, frame: FrameView, uuid: Seq<u8>)
    requires
        tag.wf(),
        forall|i: int| 0 <= i < tag.frames.len() ==> (#[trigger] tag.frames[i]).uuid != uuid,
    ensures
        tag.with_frame(frame, uuid).wf(),
        tag.with_frame(frame, uuid).modified_offset == tag.modified_offset,
        tag.with_frame(frame, uuid).offset == tag.offset,
{
    super::lemma_with_frame_wf(tag, frame, uuid);
}

/// One change to the frames of a tag.
pub enum Edit {
    /// The frames that the selector chooses are removed.
    Remove(SelectorView),
    /// A frame is added under an identity.
    Add(FrameView, Seq<u8>),
}

/// The tag after one change.
pub open spec fn edited_once(tag: TagView, edit: Edit) -> TagView {
    match edit {
        Edit::Remove(selector) => tag.without(selector),
        Edit::Add(frame, uuid) => tag.with_frame(frame, uuid),
    }
}

/// The tag after the changes have been made to it, one after the other.
pub open spec fn edited(tag: TagView, edits: Seq<Edit>) -> TagView
    decreases edits.len(),
{
    if edits.len() == 0 {
        tag
    } else {
        edited_once(edited(tag, edits.drop_last()), edits.last())
    }
}

/// Whether every frame that the changes add comes under an identity that is not in use
/// when it is added.
pub open spec fn adds_are_fresh(tag: TagView, edits: Seq<Edit>) -> bool {
    forall|k: int|
        0 <= k < edits.len() ==> match #[trigger] edits[k] {
            Edit::Add(_, uuid) => forall|i: int|
                0 <= i < edited(tag, edits.take(k)).frames.len() ==> (#[trigger] edited(
                    tag,
                    edits.take(k),
                ).frames[i]).uuid != uuid,
            Edit::Remove(_) => true,
        }
}

/// Whether the `k`-th change removes a frame that stood at `offset` in the file.
pub open spec fn removes_at(tag: TagView, edits: Seq<Edit>, k: int, offset: u64) -> bool {
    &&& 0 <= k < edits.len()
    &&& offset != 0
    &&& edits[k] matches Edit::Remove(selector)
    &&& exists|i: int|
        0 <= i < edited(tag, edits.take(k)).frames.len() && selector.selects(
            #[trigger] edited(tag, edits.take(k)).frames[i],
        ) && edited(tag, edits.take(k)).frames[i].offset == offset
}

/// Watermark monotonicity over any sequence of changes: the tag stays well-formed, so
/// that the watermark is never past the offset; the offset stays where it is; and the
/// watermark ends at the lowest offset at which a removed frame stood in the file, where
/// that is lower than where it stood at first, and else where it stood at first. For
/// a tag that was just loaded or saved that is the offset.
pub proof fn lemma_watermark_after_edits(tag: TagView, edits: Seq<Edit>)
    requires
        tag.wf(),
        adds_are_fresh(tag, edits),
    ensures
        edited(tag, edits).wf(),
        edited(tag, edits).offset == tag.offset,
        edited(tag, edits).modified_offset <= edited(tag, edits).offset,
        edited(tag, edits).modified_offset <= tag.modified_offset,
        forall|k: int, offset: u64| #[trigger]
            removes_at(tag, edits, k, offset) ==> edited(tag, edits).modified_offset <= offset,
        edited(tag, edits).modified_offset == tag.modified_offset || exists|k: int|
            #[trigger] removes_at(tag, edits, k, edited(tag, edits).modified_offset),
    decreases edits.len(),
{
    if edits.len() > 0 {
        let front = edits.drop_last();
        let last = edits.len() - 1;
        let before = edited(tag, front);
        let after = edited(tag, edits);
        assert(edits.take(last) =~= front);
        assert forall|k: int| 0 <= k < front.len() implies edits.take(k) == front.take(k) by {
            assert(edits.take(k) =~= front.take(k));
        }
        assert(adds_are_fresh(tag, front)) by {
            assert forall|k: int| 0 <= k < front.len() implies match #[trigger] front[k] {
                Edit::Add(_, uuid) => forall|i: int|
                    0 <= i < edited(tag, front.take(k)).frames.len() ==> (#[trigger] edited(
                        tag,
                        front.take(k),
                    ).frames[i]).uuid != uuid,
                Edit::Remove(_) => true,
            } by {
                assert(front[k] == edits[k]);
            }
        }
        lemma_watermark_after_edits(tag, front);
        assert forall|k: int, offset: u64| #[trigger]
            removes_at(tag, front, k, offset) implies removes_at(tag, edits, k, offset) by {
            assert(front[k] == edits[k]);
        }
        assert forall|k: int, offset: u64|
            0 <= k < last && #[trigger] removes_at(tag, edits, k, offset) implies removes_at(
            tag,
            front,
            k,
            offset,
        ) by {
            assert(front[k] == edits[k]);
        }
        match edits[last] {
            Edit::Remove(selector) => {
                lemma_watermark_after_removal(before, selector);
                assert forall|k: int, offset: u64| #[trigger]
                    removes_at(tag, edits, k, offset) implies after.modified_offset <= offset by {
                    if k < last {
                        assert(removes_at(tag, front, k, offset));
                    }
                }
                if after.modified_offset != tag.modified_offset {
                    if after.modified_offset == before.modified_offset {
                        let k = choose|k: int| #[trigger]
                            removes_at(tag, front, k, before.modified_offset);
                        assert(removes_at(tag, edits, k, after.modified_offset));
                    } else {
                        assert(removes_at(tag, edits, last, after.modified_offset));
                    }
                }
            },
            Edit::Add(frame, uuid) => {
                lemma_watermark_after_addition(before, frame, uuid);
                assert forall|k: int, offset: u64| #[trigger]
                    removes_at(tag, edits, k, offset) implies after.modified_offset <= offset by {
                    assert(k < last);
                    assert(removes_at(tag, front, k, offset));
                }
                if after.modified_offset != tag.modified_offset {
                    let k = choose|k: int| #[trigger]
                        removes_at(tag, front, k, before.modified_offset);
                    assert(removes_at(tag, edits, k, after.modified_offset));
                }
            },
        }
    }
}

/// Version upgrade: a file of version 2 is loaded as a tag of version 2.4 that asks
/// for a rewrite, and a save of a tag that asks for a rewrite writes the whole file
/// under a header of version 2.4.
pub proof fn lemma_version_upgrade(bytes: Seq<u8>, tag: TagView, path: Seq<char>)
    ensures
        spec_load(bytes) is Ok && bytes[3] == 2 ==> spec_load(bytes)->Ok_0.version == (4u8, 0u8)
            && spec_load(bytes)->Ok_0.rewrite,
        tag.rewrite ==> match spec_write(tag, path) {
            Ok((after, plan)) => {
                &&& after.version == (4u8, 0u8)
                &&& plan matches PlanView::Rewrite { head }
                &&& head.len() >= 10 + PADDING
                &&& head.subrange(0, 5) == seq![0x49u8, 0x44u8, 0x33u8, 4u8, 0u8]
            },
            Err(_) => true,
        },
{
    if tag.rewrite && spec_write(tag, path) is Ok {
        let (after, plan) = spec_write(tag, path)->Ok_0;
        let head = plan->Rewrite_head;
        let flags = TagFlags { extended_header: false, ..tag.flags };
        let header = spec_header(4, flags, after.size);
        assert(header.len() == 10);
        assert(head.subrange(0, 5) =~= seq![0x49u8, 0x44u8, 0x33u8, 4u8, 0u8]) by {
            assert forall|k: int| 0 <= k < 5 implies head[k] == header[k] by {}
        }
    }
}

/// A save that writes the whole file and drops no frame keeps what followed the tag of
/// the file: the bytes behind the new tag are those that stood behind the old one.
pub proof fn lemma_rewrite_keeps_body(tag: TagView, path: Seq<char>, file: Seq<u8>)
    requires
        tag.wf(),
        encodable(tag.frames, spec_target(tag, path)),
        spec_rewrite(tag, path) is Ok,
        select(
            tag.frames,
            if spec_file_changed(tag, path) {
                SelectorView::FileAltered
            } else {
                SelectorView::TagAltered
            },
            true,
        ).len() == 0,
    ensures
        ({
            let (after, plan) = spec_rewrite(tag, path)->Ok_0;
            let written = plan.spec_apply(file);
            &&& written.len() == 10 + after.size + spec_skip_metadata(file).len()
            &&& written.skip(10 + after.size) == spec_skip_metadata(file)
            &&& spec_skip_metadata(written) == spec_skip_metadata(file)
        }),
{
    let major = spec_target(tag, path);
    let selector = if spec_file_changed(tag, path) {
        SelectorView::FileAltered
    } else {
        SelectorView::TagAltered
    };
    let (after, plan) = spec_rewrite(tag, path)->Ok_0;
    let head = plan->Rewrite_head;
    let body = spec_skip_metadata(file);
    let written = plan.spec_apply(file);
    lemma_select_encodable(tag.frames, selector, major);
    lemma_total_len_nonnegative(tag.frames, major);
    lemma_layout(tag.frames, major, 10, None);
    let flags = TagFlags { extended_header: false, ..tag.flags };
    let header = spec_header(major, flags, after.size);
    assert(header.len() == 10);
    assert(head.len() == 10 + after.size);
    assert(written.skip(10 + after.size) =~= body);
    lemma_written_header(major, flags, after.size, head.skip(10) + body);
    assert(written =~= header + (head.skip(10) + body));
    if 10 + after.size >= written.len() {
        assert(body =~= Seq::<u8>::empty());
    }
}

/// A file that starts with a tag header declares the size that the header was made
/// with, and the flags but for compression, which has no bit.
pub proof fn lemma_written_header(major: u8, flags: TagFlags, size: u32, rest: Seq<u8>)
    requires
        size < 0x1000_0000,
    ensures
        ({
            let file = spec_header(major, flags, size) + rest;
            &&& spec_is_candidate(file)
            &&& file.len() >= 10
            &&& file[3] == major
            &&& file[4] == 0
            &&& file[5] == flags.spec_byte()
            &&& spec_unsynchsafe(be32_value(file.subrange(6, 10))) == size
        }),
{
    let header = spec_header(major, flags, size);
    let file = header + rest;
    assert(header.len() == 10);
    assert(file.take(3) =~= magic());
    assert(file.subrange(6, 10) =~= be32(spec_synchsafe(size)));
    lemma_be32_round_trip(spec_synchsafe(size));
    lemma_unsynchsafe_of_synchsafe(size);
}

/// A save that writes from the watermark on, and whose bytes end inside the file and
/// not behind the tag, leaves the file as long as it was, and leaves every byte in front
/// of the watermark and every byte behind the tag as it was: what follows the tag is the
/// same before and after.
pub proof fn lemma_overwrite_keeps_body(tag: TagView, file: Seq<u8>)
    requires
        tag.wf(),
        tag.path is Some,
        spec_overwrite(tag) is Ok,
        ({
            let plan = spec_overwrite(tag)->Ok_0.1;
            plan->Overwrite_position + plan->Overwrite_bytes.len() <= 10 + tag.size <= file.len()
        }),
        spec_is_candidate(file),
        spec_unsynchsafe(be32_value(file.subrange(6, 10))) == tag.size,
    ensures
        ({
            let (after, plan) = spec_overwrite(tag)->Ok_0;
            let written = plan.spec_apply(file);
            &&& after.size == tag.size
            &&& written.len() == file.len()
            &&& written.take(tag.modified_offset as int) == file.take(tag.modified_offset as int)
            &&& written.skip(10 + tag.size) == file.skip(10 + tag.size)
            &&& spec_skip_metadata(written) == spec_skip_metadata(file)
        }),
{
    let (after, plan) = spec_overwrite(tag)->Ok_0;
    let position = plan->Overwrite_position as int;
    let bytes = plan->Overwrite_bytes;
    let written = plan.spec_apply(file);
    assert(position == tag.modified_offset);
    assert(position >= 10);
    assert(written.len() == file.len());
    assert(written.take(position) =~= file.take(position));
    assert(written.skip(10 + tag.size) =~= file.skip(10 + tag.size));
    assert(written.take(3) =~= file.take(3));
    assert(written.subrange(6, 10) =~= file.subrange(6, 10));
}

/// What a save from the watermark on writes: bytes from the watermark up to the new end
/// of the frames, or up to the old one where that is further on, and no others. Every
/// byte in front of the watermark and every byte behind that stretch stays as it was,
/// and what lies between the new end of the frames and the old one is zero. The size
/// that the tag declares stays as it was.
pub proof fn lemma_overwrite_touches(tag: TagView, file: Seq<u8>)
    requires
        tag.wf(),
        tag.path is Some,
        encodable(tag.frames, tag.version.0),
        spec_overwrite(tag) is Ok,
        tag.modified_offset <= file.len(),
    ensures
        ({
            let (after, plan) = spec_overwrite(tag)->Ok_0;
            let written = plan.spec_apply(file);
            let reach = if after.offset < tag.offset {
                tag.offset
            } else {
                after.offset
            };
            &&& after.size == tag.size
            &&& tag.modified_offset <= after.offset
            &&& plan->Overwrite_position == tag.modified_offset
            &&& plan->Overwrite_bytes.len() == reach - tag.modified_offset
            &&& written.len() == if reach <= file.len() {
                file.len() as int
            } else {
                reach as int
            }
            &&& forall|i: int| 0 <= i < tag.modified_offset ==> written[i] == file[i]
            &&& forall|i: int| reach <= i < file.len() ==> written[i] == file[i]
            &&& forall|i: int| after.offset <= i < tag.offset ==> written[i] == 0
        }),
{
    let major = tag.version.0;
    let mark = tag.modified_offset;
    let kept = select(tag.frames, SelectorView::TagAltered, false);
    let (after, plan) = spec_overwrite(tag)->Ok_0;
    let bytes = plan->Overwrite_bytes;
    let (placed, body) = spec_layout(kept, major, mark as int, Some(mark));
    let written = plan.spec_apply(file);
    lemma_select_encodable(tag.frames, SelectorView::TagAltered, major);
    lemma_total_len_nonnegative(kept, major);
    lemma_layout(kept, major, mark as int, Some(mark));
    assert(after.offset == mark + body.len());
    let gap = if after.offset < tag.offset {
        tag.offset - after.offset
    } else {
        0
    };
    assert(bytes == body + zeros(gap));
    assert forall|i: int| after.offset <= i < tag.offset implies written[i] == 0 by {
        assert(written[i] == bytes[i - mark]);
        assert(bytes[i - mark] == zeros(gap)[i - mark - body.len()]);
    }
}

/// The frames as they are read back: without identity, and with texts that have lost
/// the zero characters at their end.
pub open spec fn as_read(frames: Seq<FrameView>) -> Seq<FrameView> {
    Seq::new(
        frames.len(),
        |i: int|
            FrameView { uuid: Seq::empty(), contents: settled(frames[i].contents), ..frames[i] },
    )
}

/// Whether every frame is one that the frame codec can give back.
pub open spec fn all_canonical(frames: Seq<FrameView>) -> bool {
    forall|i: int| 0 <= i < frames.len() ==> canonical(#[trigger] frames[i])
}

/// Laying out frames is laying out the first, and then the others behind it.
pub proof fn lemma_layout_front(
    frames: Seq<FrameView>,
    version: u8,
    start: int,
    watermark: Option<u64>,
)
    requires
        frames.len() > 0,
        0 <= start <= u64::MAX,
    ensures
        ({
            let (placed, bytes) = spec_layout(frames, version, start, watermark);
            let first = frames[0];
            if moves(first, watermark) {
                let (behind, more) = spec_layout(
                    frames.drop_first(),
                    version,
                    start + frame_bytes(first, version).len(),
                    watermark,
                );
                &&& placed == seq![FrameView { offset: start as u64, ..first }] + behind
                &&& bytes == frame_bytes(first, version) + more
            } else {
                let (behind, more) = spec_layout(frames.drop_first(), version, start, watermark);
                &&& placed == seq![first] + behind
                &&& bytes == more
            }
        }),
    decreases frames.len(),
{
    let first = frames[0];
    let (placed, bytes) = spec_layout(frames, version, start, watermark);
    let next = if moves(first, watermark) {
        start + frame_bytes(first, version).len()
    } else {
        start
    };
    if frames.len() == 1 {
        assert(frames.drop_last() =~= Seq::<FrameView>::empty());
        assert(frames.drop_first() =~= Seq::<FrameView>::empty());
        assert(frames.last() == first);
        assert(spec_layout(frames.drop_last(), version, start, watermark) == (
            Seq::<FrameView>::empty(),
            Seq::<u8>::empty(),
        ));
        if moves(first, watermark) {
            assert(placed =~= seq![FrameView { offset: start as u64, ..first }] + Seq::<
                FrameView,
            >::empty());
            assert(bytes =~= frame_bytes(first, version) + Seq::<u8>::empty());
        } else {
            assert(placed =~= seq![first] + Seq::<FrameView>::empty());
        }
    } else {
        let front = frames.drop_last();
        let tail = frames.drop_first();
        lemma_layout_front(front, version, start, watermark);
        assert(front[0] == first);
        assert(front.drop_first() =~= tail.drop_last());
        assert(tail.last() == frames.last());
        let (placed_front, bytes_front) = spec_layout(front, version, start, watermark);
        let (behind_front, more_front) = spec_layout(tail.drop_last(), version, next, watermark);
        let (behind, more) = spec_layout(tail, version, next, watermark);
        let last = frames.last();
        if moves(first, watermark) {
            assert(bytes_front == frame_bytes(first, version) + more_front);
            assert(start + bytes_front.len() == next + more_front.len());
            if moves(last, watermark) {
                assert(placed =~= seq![FrameView { offset: start as u64, ..first }] + behind);
                assert(bytes =~= frame_bytes(first, version) + more);
            } else {
                assert(placed =~= seq![FrameView { offset: start as u64, ..first }] + behind);
            }
        } else {
            if moves(last, watermark) {
                assert(placed =~= seq![first] + behind);
            } else {
                assert(placed =~= seq![first] + behind);
            }
        }
    }
}

/// Whether reading frames up to `limit` meets padding at `at`: four zero bytes that
/// stand in front of the limit.
pub open spec fn padding_at(file: Seq<u8>, at: int, limit: int) -> bool {
    &&& 0 <= at < limit
    &&& at + 4 <= file.len()
    &&& file.subrange(at, at + 4) == zeros(4)
}

/// Frames that were written one after the other, and that end at the limit of the tag
/// or are followed by padding, are read back in their order, each as it was written;
/// reading ends just past them.
pub proof fn lemma_read_written_frames(
    frames: Seq<FrameView>,
    version: u8,
    file: Seq<u8>,
    start: int,
    limit: int,
)
    requires
        version == 3 || version == 4,
        all_canonical(frames),
        encodable(frames, version),
        0 <= start,
        ({
            let body = spec_layout(frames, version, start, None).1;
            &&& start + body.len() <= file.len()
            &&& start + body.len() <= u64::MAX
            &&& file.subrange(start, start + body.len()) == body
            &&& start + body.len() == limit || padding_at(file, start + body.len(), limit)
        }),
    ensures
        spec_read_frames(version, file, start, limit) == Ok::<(Seq<FrameView>, int), ErrorKind>(
            (
                as_read(spec_layout(frames, version, start, None).0),
                start + spec_layout(frames, version, start, None).1.len(),
            ),
        ),
    decreases frames.len(),
{
    let (placed, body) = spec_layout(frames, version, start, None);
    if frames.len() == 0 {
        if start != limit {
            assert(spec_read_frame(version, file, start) == ReadView::Padding) by {
                reveal(spec_read_frame);
            }
        }
        assert(as_read(placed) =~= Seq::<FrameView>::empty());
    } else {
        let first = frames[0];
        let tail = frames.drop_first();
        let written = frame_bytes(first, version);
        let next = start + written.len();
        lemma_layout_front(frames, version, start, None);
        let (behind, more) = spec_layout(tail, version, next, None);
        assert(body == written + more);
        assert(placed == seq![FrameView { offset: start as u64, ..first }] + behind);
        assert(canonical(first));
        assert(spec_frame_bytes(first, version) is Ok);
        lemma_frame_len(first, version);
        assert(file.subrange(start, next) =~= written) by {
            assert forall|k: int| 0 <= k < written.len() implies file.subrange(start, next)[k]
                == written[k] by {
                assert(file.subrange(start, start + body.len())[k] == body[k]);
            }
        }
        lemma_frame_round_trip(first, version, file, start);
        assert(all_canonical(tail)) by {
            assert forall|i: int| 0 <= i < tail.len() implies canonical(#[trigger] tail[i]) by {
                assert(tail[i] == frames[i + 1]);
            }
        }
        assert(encodable(tail, version)) by {
            assert forall|i: int| 0 <= i < tail.len() implies spec_frame_bytes(
                #[trigger] tail[i],
                version,
            ) is Ok by {
                assert(tail[i] == frames[i + 1]);
            }
        }
        assert(start < limit);
        assert(file.subrange(next, next + more.len()) =~= more) by {
            assert forall|k: int| 0 <= k < more.len() implies file.subrange(
                next,
                next + more.len(),
            )[k] == more[k] by {
                assert(file.subrange(start, start + body.len())[written.len() + k]
                    == body[written.len() + k]);
            }
        }
        lemma_read_written_frames(tail, version, file, next, limit);
        let read = FrameView {
            uuid: Seq::empty(),
            offset: start as u64,
            contents: settled(first.contents),
            ..first
        };
        assert(as_read(placed) =~= seq![read] + as_read(behind));
    }
}

/// Ordering: a file that was written in full holds, when it is loaded again, the
/// frames of the tag in their order, each as the tag held it after the save: the frames
/// that the save dropped are gone, the others stand at the offsets that the save gave
/// them. This holds where every frame that was written is canonical; the loaded tag
/// asks for no rewrite and has no path yet.
pub proof fn lemma_rewrite_then_load(tag: TagView, path: Seq<char>, file: Seq<u8>)
    requires
        tag.wf(),
        encodable(tag.frames, spec_target(tag, path)),
        spec_rewrite(tag, path) is Ok,
        all_canonical(spec_rewrite(tag, path)->Ok_0.0.frames),
    ensures
        ({
            let (after, plan) = spec_rewrite(tag, path)->Ok_0;
            spec_load(plan.spec_apply(file)) == Ok::<TagView, ErrorKind>(
                TagView { path: None, rewrite: false, frames: as_read(after.frames), ..after },
            )
        }),
{
    let major = spec_target(tag, path);
    let selector = if spec_file_changed(tag, path) {
        SelectorView::FileAltered
    } else {
        SelectorView::TagAltered
    };
    let kept = select(tag.frames, selector, false);
    let (after, plan) = spec_rewrite(tag, path)->Ok_0;
    let head = plan->Rewrite_head;
    let (placed, body) = spec_layout(kept, major, 10, None);
    let audio = spec_skip_metadata(file);
    let written = plan.spec_apply(file);
    let flags = TagFlags { extended_header: false, ..tag.flags };
    let header = spec_header(major, flags, after.size);
    lemma_select_encodable(tag.frames, selector, major);
    lemma_total_len_nonnegative(kept, major);
    lemma_layout(kept, major, 10, None);
    assert(header.len() == 10);
    lemma_written_header(major, flags, after.size, body + zeros(PADDING as int) + audio);
    assert(written =~= header + (body + zeros(PADDING as int) + audio));
    flags.lemma_byte_round_trip(major);
    assert(TagFlags::spec_from_byte(written[5], major) == flags);
    assert(spec_frames_start(written, flags) == 10);
    assert(all_canonical(kept)) by {
        assert forall|i: int| 0 <= i < kept.len() implies canonical(#[trigger] kept[i]) by {
            assert(canonical(placed[i]));
            assert(placed[i] == FrameView { offset: placed[i].offset, ..kept[i] });
        }
    }
    let end = 10 + body.len() as int;
    assert(written.subrange(10, end) =~= body);
    assert(padding_at(written, end, after.size + 10)) by {
        assert forall|k: int| 0 <= k < 4 implies #[trigger] written.subrange(end, end + 4)[k]
            == 0 by {
            assert(written[end + k] == zeros(PADDING as int)[k]);
        }
        assert(written.subrange(end, end + 4) =~= zeros(4));
    }
    lemma_read_written_frames(kept, major, written, 10, after.size + 10);
}

/// Whether two files hold the same bytes from `low` up to `high`.
pub open spec fn agree(first: Seq<u8>, second: Seq<u8>, low: int, high: int) -> bool {
    &&& high <= first.len()
    &&& high <= second.len()
    &&& forall|i: int| low <= i < high ==> first[i] == second[i]
}

/// What stands at a position is read from the bytes of the frame alone: a file that
/// holds the same bytes from the position up to the end of the frame holds the same
/// frame there.
pub proof fn lemma_read_frame_local(version: u8, first: Seq<u8>, second: Seq<u8>, pos: int)
    requires
        0 <= pos,
        match spec_read_frame(version, first, pos) {
            ReadView::Frame { frame, next } => agree(first, second, pos, next),
            ReadView::Unsupported { next } => agree(first, second, pos, next),
            _ => false,
        },
    ensures
        spec_read_frame(version, second, pos) == spec_read_frame(version, first, pos),
{
    reveal(spec_read_frame);
    let id_len = crate::wire::spec_id_len(version);
    let header_len = crate::wire::spec_header_len(version);
    let size = crate::wire::spec_size_value(first.subrange(pos + id_len, pos + header_len), version);
    let next = pos + header_len + size;
    assert(agree(first, second, pos, next));
    assert(first.subrange(pos, pos + id_len) =~= second.subrange(pos, pos + id_len));
    assert(first.subrange(pos + id_len, pos + header_len) =~= second.subrange(
        pos + id_len,
        pos + header_len,
    ));
    if version != 2 {
        assert(first[pos + 8] == second[pos + 8]);
        assert(first[pos + 9] == second[pos + 9]);
    }
    assert(first.subrange(pos + header_len, next) =~= second.subrange(pos + header_len, next));
}

/// Reading frames never ends in front of where it started.
pub proof fn lemma_read_frames_end(version: u8, file: Seq<u8>, pos: int, limit: int)
    ensures
        spec_read_frames(version, file, pos, limit) matches Ok((_, end)) ==> pos <= end,
    decreases file.len() - pos,
{
    if pos < limit {
        match spec_read_frame(version, file, pos) {
            ReadView::Unsupported { next } => {
                if pos < next <= file.len() {
                    lemma_read_frames_end(version, file, next, limit);
                }
            },
            ReadView::Frame { frame, next } => {
                if pos < next <= file.len() {
                    lemma_read_frames_end(version, file, next, limit);
                }
            },
            _ => {},
        }
    }
}

/// `frames` in front of what `rest` holds, where it holds frames.
pub open spec fn in_front(frames: Seq<FrameView>, rest: Result<(Seq<FrameView>, int), ErrorKind>)
    -> Result<(Seq<FrameView>, int), ErrorKind> {
    match rest {
        Ok((more, end)) => Ok((frames + more, end)),
        Err(kind) => Err(kind),
    }
}

/// Frames that one file holds up to a position are held by every file with the same
/// bytes up to there: reading the second file gives those frames first, and then what
/// stands from that position on.
pub proof fn lemma_read_frames_transfer(
    version: u8,
    first: Seq<u8>,
    second: Seq<u8>,
    pos: int,
    mark: int,
    limit: int,
)
    requires
        0 <= pos,
        mark <= limit,
        spec_read_frames(version, first, pos, mark) is Ok,
        spec_read_frames(version, first, pos, mark)->Ok_0.1 == mark,
        agree(first, second, pos, mark),
    ensures
        spec_read_frames(version, second, pos, limit) == in_front(
            spec_read_frames(version, first, pos, mark)->Ok_0.0,
            spec_read_frames(version, second, mark, limit),
        ),
    decreases first.len() - pos,
{
    let frames = spec_read_frames(version, first, pos, mark)->Ok_0.0;
    let behind = spec_read_frames(version, second, mark, limit);
    if pos >= mark {
        assert(frames =~= Seq::<FrameView>::empty());
        assert(pos == mark);
        match behind {
            Ok((more, end)) => {
                assert(frames + more =~= more);
            },
            Err(_) => {},
        }
    } else {
        match spec_read_frame(version, first, pos) {
            ReadView::Unsupported { next } => {
                lemma_read_frames_end(version, first, next, mark);
                lemma_read_frame_local(version, first, second, pos);
                lemma_read_frames_transfer(version, first, second, next, mark, limit);
            },
            ReadView::Frame { frame, next } => {
                lemma_read_frames_end(version, first, next, mark);
                lemma_read_frame_local(version, first, second, pos);
                lemma_read_frames_transfer(version, first, second, next, mark, limit);
                let tail = spec_read_frames(version, first, next, mark)->Ok_0.0;
                assert(frames == seq![frame] + tail);
                match behind {
                    Ok((more, end)) => {
                        assert(seq![frame] + (tail + more) =~= frames + more);
                    },
                    Err(_) => {},
                }
            },
            _ => {},
        }
    }
}

/// Whether every frame stays where it is when a save writes from `watermark` on.
pub open spec fn all_stay(frames: Seq<FrameView>, watermark: u64) -> bool {
    forall|i: int| 0 <= i < frames.len() ==> !moves(#[trigger] frames[i], Some(watermark))
}

/// Whether every frame is written again when a save writes from `watermark` on.
pub open spec fn all_move(frames: Seq<FrameView>, watermark: u64) -> bool {
    forall|i: int| 0 <= i < frames.len() ==> moves(#[trigger] frames[i], Some(watermark))
}

/// Where the frames that stay come first, a save from the watermark on leaves them as
/// they are and writes the others behind each other as a save of the whole would.
pub proof fn lemma_layout_split(
    stay: Seq<FrameView>,
    moved: Seq<FrameView>,
    version: u8,
    watermark: u64,
)
    requires
        all_stay(stay, watermark),
        all_move(moved, watermark),
    ensures
        spec_layout(stay + moved, version, watermark as int, Some(watermark)) == (
            stay + spec_layout(moved, version, watermark as int, None).0,
            spec_layout(moved, version, watermark as int, None).1,
        ),
    decreases stay.len() + moved.len(),
{
    let all = stay + moved;
    let start = watermark as int;
    if moved.len() > 0 {
        let front = moved.drop_last();
        assert(all.drop_last() =~= stay + front);
        assert(all.last() == moved.last());
        assert(all_move(front, watermark)) by {
            assert forall|i: int| 0 <= i < front.len() implies moves(
                #[trigger] front[i],
                Some(watermark),
            ) by {
                assert(front[i] == moved[i]);
            }
        }
        lemma_layout_split(stay, front, version, watermark);
        let (placed, bytes) = spec_layout(front, version, start, None);
        assert(moves(moved.last(), Some(watermark)));
        assert((stay + placed).push(
            FrameView { offset: (start + bytes.len()) as u64, ..moved.last() },
        ) =~= stay + placed.push(
            FrameView { offset: (start + bytes.len()) as u64, ..moved.last() },
        ));
    } else if stay.len() > 0 {
        let front = stay.drop_last();
        assert(all =~= stay);
        assert(all_stay(front, watermark)) by {
            assert forall|i: int| 0 <= i < front.len() implies !moves(
                #[trigger] front[i],
                Some(watermark),
            ) by {
                assert(front[i] == stay[i]);
            }
        }
        lemma_layout_split(front, moved, version, watermark);
        assert(front + moved =~= front);
        assert(!moves(stay.last(), Some(watermark)));
        assert(front.push(stay.last()) =~= stay);
        assert(stay + Seq::<FrameView>::empty() =~= stay);
    } else {
        assert(all =~= Seq::<FrameView>::empty());
        assert(stay + Seq::<FrameView>::empty() =~= Seq::<FrameView>::empty());
    }
}

/// Whether `file` holds `tag` as far as a save from the watermark on leaves it: the
/// header of the file is that of the tag, with no extended header, and the first
/// `count` frames of what the save keeps are those that stay and are what stands in
/// the file from behind the header up to the watermark.
pub open spec fn holds_up_to_watermark(file: Seq<u8>, tag: TagView, count: int) -> bool {
    let kept = select(tag.frames, SelectorView::TagAltered, false);
    &&& spec_is_candidate(file)
    &&& file.len() >= 10
    &&& file[3] == tag.version.0
    &&& file[4] == tag.version.1
    &&& TagFlags::spec_from_byte(file[5], tag.version.0) == tag.flags
    &&& !tag.flags.extended_header
    &&& spec_unsynchsafe(be32_value(file.subrange(6, 10))) == tag.size
    &&& 0 <= count <= kept.len()
    &&& all_stay(kept.take(count), tag.modified_offset)
    &&& all_move(kept.skip(count), tag.modified_offset)
    &&& spec_read_frames(tag.version.0, file, 10, tag.modified_offset as int) == Ok::<
        (Seq<FrameView>, int),
        ErrorKind,
    >((unnamed(kept.take(count)), tag.modified_offset as int))
}

/// Whether the file is as long as the frames of the tag reached, and what a save from
/// the watermark on writes ends where the tag ends, or in front of padding that reading
/// will meet: four bytes in front of the end of the tag that are zero once the save has
/// filled up to the old end of the frames.
pub open spec fn ends_in_padding(file: Seq<u8>, tag: TagView, end: int) -> bool {
    &&& tag.offset <= file.len()
    &&& end <= file.len()
    &&& end == 10 + tag.size || {
        &&& end < 10 + tag.size
        &&& end + 4 <= file.len()
        &&& forall|i: int| end <= i < end + 4 && tag.offset <= i ==> #[trigger] file[i] == 0
    }
}

/// Ordering: a file that was written from the watermark on holds, when it is loaded
/// again, the frames of the tag in their order: first those that stayed, as the file
/// held them, then those that were written, each as the tag held it after the save.
/// This holds where the file held the tag up to the watermark with the staying frames
/// first, where what is written ends at the end of the tag or in front of padding, and
/// where every frame that is written is canonical.
pub proof fn lemma_overwrite_then_load(tag: TagView, file: Seq<u8>, count: int)
    requires
        tag.wf(),
        tag.path is Some,
        encodable(tag.frames, tag.version.0),
        spec_overwrite(tag) is Ok,
        holds_up_to_watermark(file, tag, count),
        ends_in_padding(file, tag, spec_overwrite(tag)->Ok_0.0.offset as int),
        all_canonical(select(tag.frames, SelectorView::TagAltered, false).skip(count)),
    ensures
        ({
            let (after, plan) = spec_overwrite(tag)->Ok_0;
            spec_load(plan.spec_apply(file)) == Ok::<TagView, ErrorKind>(
                TagView {
                    path: None,
                    rewrite: false,
                    frames: unnamed(after.frames.take(count)) + as_read(after.frames.skip(count)),
                    ..after
                },
            )
        }),
{
    let major = tag.version.0;
    let mark = tag.modified_offset;
    let kept = select(tag.frames, SelectorView::TagAltered, false);
    let stay = kept.take(count);
    let moved = kept.skip(count);
    let (after, plan) = spec_overwrite(tag)->Ok_0;
    let bytes = plan->Overwrite_bytes;
    let written = plan.spec_apply(file);
    let (placed, body) = spec_layout(moved, major, mark as int, None);
    let end = mark + body.len();
    let limit = tag.size + 10;
    assert(kept =~= stay + moved);
    lemma_select_encodable(tag.frames, SelectorView::TagAltered, major);
    lemma_total_len_nonnegative(kept, major);
    lemma_layout(kept, major, mark as int, Some(mark));
    lemma_layout_split(stay, moved, major, mark);
    assert(after.frames == stay + placed);
    assert(after.frames.take(count) =~= stay);
    assert(after.frames.skip(count) =~= placed);
    assert(mark >= 10);
    assert(after.offset == end);
    let gap = if end < tag.offset {
        tag.offset - end
    } else {
        0
    };
    assert(bytes == body + zeros(gap));
    assert(end + gap <= file.len());
    assert(written.len() == file.len());
    assert forall|i: int| 0 <= i < mark implies written[i] == file[i] by {}
    assert(written.take(3) =~= file.take(3));
    assert(written.subrange(6, 10) =~= file.subrange(6, 10));
    assert(agree(file, written, 10, mark as int));
    lemma_read_frames_transfer(major, file, written, 10, mark as int, limit);
    assert(encodable(moved, major)) by {
        assert forall|i: int| 0 <= i < moved.len() implies spec_frame_bytes(
            #[trigger] moved[i],
            major,
        ) is Ok by {
            assert(moved[i] == kept[count + i]);
        }
    }
    assert(written.subrange(mark as int, end) =~= body) by {
        assert forall|k: int| 0 <= k < body.len() implies written.subrange(mark as int, end)[k]
            == body[k] by {
            assert(written[mark + k] == bytes[k]);
        }
    }
    if end != limit {
        assert(padding_at(written, end, limit)) by {
            assert forall|k: int| 0 <= k < 4 implies #[trigger] written.subrange(end, end + 4)[k]
                == 0 by {
                if end + k < end + gap {
                    assert(written[end + k] == bytes[body.len() + k]);
                    assert(bytes[body.len() + k] == zeros(gap)[k]);
                } else {
                    assert(written[end + k] == file[end + k]);
                    assert(tag.offset <= end + k);
                }
            }
            assert(written.subrange(end, end + 4) =~= zeros(4));
        }
    }
    lemma_read_written_frames(moved, major, written, mark as int, limit);
}

/// How many bytes a frame takes in a tag: ten bytes of header and its payload.
pub open spec fn wire_len_of(frame: FrameView) -> int {
    10 + match spec_payload(frame.contents, frame.encoding) {
        Some(payload) => payload.len() as int,
        None => 0,
    }
}

/// How many bytes the frames take in a tag.
pub open spec fn wire_len(frames: Seq<FrameView>) -> int
    decreases frames.len(),
{
    if frames.len() == 0 {
        0
    } else {
        wire_len(frames.drop_last()) + wire_len_of(frames.last())
    }
}

/// Whether every frame can be written, but for the length of its payload: its
/// identifier can be written, and so can every text of its payload in the encoding that
/// the layout asks for.
pub open spec fn all_writable(frames: Seq<FrameView>) -> bool {
    forall|i: int|
        0 <= i < frames.len() ==> writable_id((#[trigger] frames[i]).id) && spec_payload(
            frames[i].contents,
            frames[i].encoding,
        ) is Some
}

/// Frames that can be written and take less than 2^28 bytes can all be written in
/// a tag of version 3 or 4, and take there what their payloads and headers add up to.
pub proof fn lemma_fitting_frames_encode(frames: Seq<FrameView>, version: u8)
    requires
        version == 3 || version == 4,
        all_writable(frames),
        wire_len(frames) < 0x1000_0000,
    ensures
        encodable(frames, version),
        total_len(frames, version) == wire_len(frames),
        0 <= wire_len(frames),
    decreases frames.len(),
{
    if frames.len() > 0 {
        let front = frames.drop_last();
        let last = frames.last();
        assert(all_writable(front)) by {
            assert forall|i: int| 0 <= i < front.len() implies writable_id(
                (#[trigger] front[i]).id,
            ) && spec_payload(front[i].contents, front[i].encoding) is Some by {
                assert(front[i] == frames[i]);
            }
        }
        lemma_wire_len_nonnegative(front);
        lemma_fitting_frames_encode(front, version);
        assert(writable_id(frames[frames.len() - 1].id));
        lemma_written_iff_writable(last, version);
        lemma_frame_len(last, version);
        assert forall|i: int| 0 <= i < frames.len() implies spec_frame_bytes(
            #[trigger] frames[i],
            version,
        ) is Ok by {
            if i < front.len() {
                assert(front[i] == frames[i]);
            }
        }
    }
}

/// Frames take no negative number of bytes.
pub proof fn lemma_wire_len_nonnegative(frames: Seq<FrameView>)
    ensures
        0 <= wire_len(frames),
    decreases frames.len(),
{
    if frames.len() > 0 {
        lemma_wire_len_nonnegative(frames.drop_last());
    }
}

/// When a save succeeds: where every frame can be written, the frames and the padding
/// take less than 2^28 bytes, and, for a save from the watermark on, the offsets stay
/// within 64 bits.
pub proof fn lemma_write_succeeds(tag: TagView, path: Seq<char>)
    requires
        tag.wf(),
        all_writable(tag.frames),
        wire_len(tag.frames) + PADDING < 0x1000_0000,
        spec_forced(tag, path) || tag.modified_offset + wire_len(tag.frames) <= u64::MAX,
    ensures
        spec_write(tag, path) is Ok,
        encodable(tag.frames, spec_target(tag, path)),
        total_len(tag.frames, spec_target(tag, path)) == wire_len(tag.frames),
{
    lemma_fitting_frames_encode(tag.frames, spec_target(tag, path));
}

/// Every frame that is read out of a file can be written again, but for the length of
/// its payload.
pub proof fn lemma_read_frames_write(version: u8, file: Seq<u8>, pos: int, limit: int)
    requires
        spec_read_frames(version, file, pos, limit) is Ok,
    ensures
        all_writable(spec_read_frames(version, file, pos, limit)->Ok_0.0),
    decreases file.len() - pos,
{
    let (frames, _) = spec_read_frames(version, file, pos, limit)->Ok_0;
    if pos < limit {
        match spec_read_frame(version, file, pos) {
            ReadView::Unsupported { next } => {
                lemma_read_frames_write(version, file, next, limit);
            },
            ReadView::Frame { frame, next } => {
                lemma_read_frames_write(version, file, next, limit);
                lemma_read_frame_writes(version, file, pos);
                let (rest, _) = spec_read_frames(version, file, next, limit)->Ok_0;
                assert(frames == seq![frame] + rest);
                assert forall|i: int| 0 <= i < frames.len() implies writable_id(
                    (#[trigger] frames[i]).id,
                ) && spec_payload(frames[i].contents, frames[i].encoding) is Some by {
                    if i > 0 {
                        assert(frames[i] == rest[i - 1]);
                    }
                }
            },
            _ => {},
        }
    }
}

/// Every frame of a tag that was loaded can be written again, but for the length of its
/// payload.
pub proof fn lemma_loaded_tag_writes(bytes: Seq<u8>, tag: TagView)
    requires
        spec_load(bytes) is Ok,
        unnamed(tag.frames) == spec_load(bytes)->Ok_0.frames,
    ensures
        all_writable(tag.frames),
{
    let loaded = spec_load(bytes)->Ok_0;
    let major = bytes[3];
    let flags = TagFlags::spec_from_byte(bytes[5], major);
    let size = spec_unsynchsafe(be32_value(bytes.subrange(6, 10)));
    lemma_read_frames_write(major, bytes, spec_frames_start(bytes, flags), size + 10);
    assert forall|i: int| 0 <= i < tag.frames.len() implies writable_id(
        (#[trigger] tag.frames[i]).id,
    ) && spec_payload(tag.frames[i].contents, tag.frames[i].encoding) is Some by {
        assert(unnamed(tag.frames)[i] == loaded.frames[i]);
    }
}

/// A tag that was loaded from a file of version 2 is saved as a file of version 2.4:
/// where its frames and the padding take less than 2^28 bytes, the save succeeds, writes
/// the whole file under a header of version 2.4, and leaves a tag of version 2.4. A frame
/// that was read under an identifier of three characters is written under it.
pub proof fn lemma_legacy_tag_is_saved(bytes: Seq<u8>, tag: TagView, path: Seq<char>)
    requires
        spec_load(bytes) is Ok,
        bytes[3] == 2,
        tag.wf(),
        tag.rewrite == spec_load(bytes)->Ok_0.rewrite,
        unnamed(tag.frames) == spec_load(bytes)->Ok_0.frames,
        wire_len(tag.frames) + PADDING < 0x1000_0000,
    ensures
        spec_write(tag, path) is Ok,
        spec_write(tag, path)->Ok_0.0.version == (4u8, 0u8),
        spec_write(tag, path)->Ok_0.1 is Rewrite,
        spec_write(tag, path)->Ok_0.1->Rewrite_head.subrange(0, 5) == seq![
            0x49u8,
            0x44u8,
            0x33u8,
            4u8,
            0u8,
        ],
{
    lemma_loaded_tag_writes(bytes, tag);
    lemma_write_succeeds(tag, path);
    lemma_version_upgrade(bytes, tag, path);
}

/// Removing frames of a tag whose frames can be written leaves a tag whose frames can
/// be written, and takes no more bytes.
pub proof fn lemma_removal_keeps_writable(tag: TagView, selector: SelectorView)
    requires
        all_writable(tag.frames),
    ensures
        all_writable(tag.without(selector).frames),
        wire_len(tag.without(selector).frames) <= wire_len(tag.frames),
{
    let kept = select(tag.frames, selector, false);
    lemma_select(tag.frames, selector, false);
    assert forall|i: int| 0 <= i < kept.len() implies writable_id((#[trigger] kept[i]).id)
        && spec_payload(kept[i].contents, kept[i].encoding) is Some by {
        assert(member(tag.frames, kept[i]));
        let j = choose|j: int| 0 <= j < tag.frames.len() && tag.frames[j] == kept[i];
        assert(writable_id(tag.frames[j].id));
    }
    lemma_select_wire_len(tag.frames, selector);
}

/// What is kept of frames takes no more bytes than all of them.
pub proof fn lemma_select_wire_len(frames: Seq<FrameView>, selector: SelectorView)
    ensures
        wire_len(select(frames, selector, false)) <= wire_len(frames),
    decreases frames.len(),
{
    if frames.len() > 0 {
        lemma_select_wire_len(frames.drop_last(), selector);
        let before = select(frames.drop_last(), selector, false);
        if !selector.selects(frames.last()) {
            assert(before.push(frames.last()).drop_last() =~= before);
        }
    }
}

/// Adding a frame that can be written to a tag whose frames can be written leaves a tag
/// whose frames can be written, and takes the bytes of that frame more.
pub proof fn lemma_addition_keeps_writable(tag: TagView, frame: FrameView, uuid: Seq<u8>)
    requires
        all_writable(tag.frames),
        writable_id(frame.id),
        spec_payload(frame.contents, frame.encoding) is Some,
    ensures
        all_writable(tag.with_frame(frame, uuid).frames),
        wire_len(tag.with_frame(frame, uuid).frames) == wire_len(tag.frames) + wire_len_of(frame),
{
    let after = tag.with_frame(frame, uuid).frames;
    assert(after.drop_last() =~= tag.frames);
    assert forall|i: int| 0 <= i < after.len() implies writable_id((#[trigger] after[i]).id)
        && spec_payload(after[i].contents, after[i].encoding) is Some by {
        if i < tag.frames.len() {
            assert(after[i] == tag.frames[i]);
        }
    }
}

/// A text frame under an identifier of four capital letters or digits can be written in
/// each of the three encodings of Unicode, and in Latin-1 where no character of the
/// text is above 0xFF.
pub proof fn lemma_text_frame_writes(id: Seq<char>, text: Seq<char>, encoding: Encoding)
    requires
        valid_id(id, 4),
        encoding != Encoding::Latin1 || is_latin1(text),
    ensures
        writable_id(id),
        spec_payload(ContentsView::Text(text), encoding) is Some,
{
    reveal(spec_payload);
    lemma_encodes(text, encoding);
}

/// A change that only removes frames, or adds frames that can be written, to a tag
/// whose frames can be written and that was well-formed leaves a tag that a save to its
/// own file writes, where the frames and the padding take less than 2^28 bytes and the
/// offsets stay within 64 bits.
pub proof fn lemma_edited_tag_is_saved(tag: TagView, edits: Seq<Edit>, path: Seq<char>)
    requires
        tag.wf(),
        all_writable(tag.frames),
        adds_are_fresh(tag, edits),
        forall|k: int|
            0 <= k < edits.len() ==> match #[trigger] edits[k] {
                Edit::Add(frame, _) => writable_id(frame.id) && spec_payload(
                    frame.contents,
                    frame.encoding,
                ) is Some,
                Edit::Remove(_) => true,
            },
        wire_len(edited(tag, edits).frames) + PADDING < 0x1000_0000,
        edited(tag, edits).modified_offset + wire_len(edited(tag, edits).frames) <= u64::MAX,
    ensures
        edited(tag, edits).wf(),
        spec_write(edited(tag, edits), path) is Ok,
{
    lemma_watermark_after_edits(tag, edits);
    lemma_edits_keep_writable(tag, edits);
    lemma_write_succeeds(edited(tag, edits), path);
}

/// Changes that only remove frames, or add frames that can be written, leave frames that
/// can be written.
pub proof fn lemma_edits_keep_writable(tag: TagView, edits: Seq<Edit>)
    requires
        all_writable(tag.frames),
        forall|k: int|
            0 <= k < edits.len() ==> match #[trigger] edits[k] {
                Edit::Add(frame, _) => writable_id(frame.id) && spec_payload(
                    frame.contents,
                    frame.encoding,
                ) is Some,
                Edit::Remove(_) => true,
            },
    ensures
        all_writable(edited(tag, edits).frames),
    decreases edits.len(),
{
    if edits.len() > 0 {
        let front = edits.drop_last();
        assert forall|k: int| 0 <= k < front.len() implies match #[trigger] front[k] {
            Edit::Add(frame, _) => writable_id(frame.id) && spec_payload(
                frame.contents,
                frame.encoding,
            ) is Some,
            Edit::Remove(_) => true,
        } by {
            assert(front[k] == edits[k]);
        }
        lemma_edits_keep_writable(tag, front);
        let before = edited(tag, front);
        match edits[edits.len() - 1] {
            Edit::Remove(selector) => {
                lemma_removal_keeps_writable(before, selector);
            },
            Edit::Add(frame, uuid) => {
                lemma_addition_keeps_writable(
                    before,
                    FrameView { uuid, offset: 0, ..frame },
                    uuid,
                );
                assert(before.with_frame(FrameView { uuid, offset: 0, ..frame }, uuid)
                    == before.with_frame(frame, uuid));
            },
        }
    }
}

/// A save to the file that the tag came from drops no frame where no persisted frame asks
/// to be dropped when the tag is altered.
pub proof fn lemma_nothing_dropped(frames: Seq<FrameView>)
    requires
        forall|i: int|
            0 <= i < frames.len() ==> (#[trigger] frames[i]).offset == 0
                || !frames[i].flags.tag_alter_preservation,
    ensures
        select(frames, SelectorView::TagAltered, true).len() == 0,
        select(frames, SelectorView::TagAltered, false) == frames,
    decreases frames.len(),
{
    if frames.len() > 0 {
        let front = frames.drop_last();
        assert forall|i: int| 0 <= i < front.len() implies (#[trigger] front[i]).offset == 0
            || !front[i].flags.tag_alter_preservation by {
            assert(front[i] == frames[i]);
        }
        lemma_nothing_dropped(front);
        assert(frames[frames.len() - 1].offset == 0 || !frames[frames.len()
            - 1].flags.tag_alter_preservation);
        assert(front.push(frames.last()) =~= frames);
    } else {
        assert(select(frames, SelectorView::TagAltered, false) =~= frames);
    }
}

} // verus!
