//! Choosing frames of a tag, and what removing the chosen ones does to the watermark.

use crate::frame::{ContentsView, FrameView};
use crate::payload::{id_apic, id_comm, id_txxx};
use crate::picture::PictureType;
use vstd::prelude::*;

verus! {

/// A rule that chooses frames.
pub enum SelectorView {
    /// The frames with the given identifier.
    Id(Seq<char>),
    /// The frame with the given identity.
    Uuid(Seq<u8>),
    /// The `TXXX` frames with the given key and value, where one is given; a `TXXX`
    /// frame whose payload is no key and value is chosen too.
    Txxx(Option<Seq<char>>, Option<Seq<char>>),
    /// The `COMM` frames with the given description and text, where one is given; a
    /// `COMM` frame whose payload is no comment is chosen too.
    Comment(Option<Seq<char>>, Option<Seq<char>>),
    /// The `APIC` frames whose picture has the given role; an `APIC` frame whose payload
    /// is no picture is chosen too.
    Picture(PictureType),
    /// The persisted frames that ask to be dropped when the tag is altered.
    TagAltered,
    /// The persisted frames that ask to be dropped when the tag is altered, and those
    /// that are to be dropped when the tag moves to another file.
    FileAltered,
}

/// Whether `wanted` is a wildcard or equals `found`.
pub open spec fn agrees(wanted: Option<Seq<char>>, found: Seq<char>) -> bool {
    match wanted {
        Some(w) => w == found,
        None => true,
    }
}

/// How many identifiers are dropped when a tag moves to another file.
pub const FILE_DISCARD_COUNT: usize = 11;

/// The identifiers of the frames that are dropped when a tag moves to another file.
pub const FILE_DISCARD: [[char; 4]; 11] = [
    ['A', 'E', 'N', 'C'],
    ['E', 'T', 'C', 'O'],
    ['E', 'Q', 'U', 'A'],
    ['M', 'L', 'L', 'T'],
    ['P', 'O', 'S', 'S'],
    ['S', 'Y', 'L', 'T'],
    ['S', 'Y', 'T', 'C'],
    ['R', 'V', 'A', 'D'],
    ['T', 'E', 'N', 'C'],
    ['T', 'L', 'E', 'N'],
    ['T', 'S', 'I', 'Z'],
];

/// Whether `id` is one of the first `count` identifiers of `FILE_DISCARD`.
pub open spec fn spec_in_file_discard(id: Seq<char>, count: int) -> bool
    decreases count,
{
    if count <= 0 || count > FILE_DISCARD_COUNT {
        false
    } else {
        id == FILE_DISCARD[count - 1]@ || spec_in_file_discard(id, count - 1)
    }
}

/// Whether frames with the identifier `id` are dropped when a tag moves to another file.
pub open spec fn spec_file_discard(id: Seq<char>) -> bool {
    spec_in_file_discard(id, FILE_DISCARD_COUNT as int)
}

impl SelectorView {
    /// Whether the rule chooses `frame`.
    pub open spec fn selects(self, frame: FrameView) -> bool {
        match self {
            SelectorView::Id(id) => frame.id == id,
            SelectorView::Uuid(uuid) => frame.uuid == uuid,
            SelectorView::Txxx(key, value) => frame.id == id_txxx() && match frame.contents {
                ContentsView::ExtendedText(k, v) => agrees(key, k) && agrees(value, v),
                _ => true,
            },
            SelectorView::Comment(key, value) => frame.id == id_comm() && match frame.contents {
                ContentsView::Comment(k, v) => agrees(key, k) && agrees(value, v),
                _ => true,
            },
            SelectorView::Picture(picture_type) => frame.id == id_apic() && match frame.contents {
                ContentsView::Picture(p) => p.picture_type == picture_type,
                _ => true,
            },
            SelectorView::TagAltered => frame.offset != 0 && frame.flags.tag_alter_preservation,
            SelectorView::FileAltered => frame.offset != 0 && (frame.flags.tag_alter_preservation
                || frame.flags.file_alter_preservation || spec_file_discard(frame.id)),
        }
    }
}

/// The frames of `frames`, in order, that `selector` chooses (`want`) or passes over
/// (`!want`).
pub open spec fn select(frames: Seq<FrameView>, selector: SelectorView, want: bool) -> Seq<
    FrameView,
>
    decreases frames.len(),
{
    if frames.len() == 0 {
        Seq::empty()
    } else {
        let rest = select(frames.drop_last(), selector, want);
        if selector.selects(frames.last()) == want {
            rest.push(frames.last())
        } else {
            rest
        }
    }
}

/// The position of the first frame at or after `from` that has the identifier `id`.
pub open spec fn first_with_id(frames: Seq<FrameView>, id: Seq<char>, from: int) -> Option<int>
    decreases frames.len() - from,
{
    if from < 0 || from >= frames.len() {
        None
    } else if frames[from].id == id {
        Some(from)
    } else {
        first_with_id(frames, id, from + 1)
    }
}

/// The watermark after a frame that stood at `offset` has been removed: the lower of
/// the two, where 0 stands for a frame that was never persisted and for a watermark that
/// was never set.
pub open spec fn watermark_step(watermark: u64, offset: u64) -> u64 {
    if offset != 0 && (watermark == 0 || offset < watermark) {
        offset
    } else {
        watermark
    }
}

/// The watermark after the frames of `removed` have been removed, one after the other.
pub open spec fn lowered(watermark: u64, removed: Seq<FrameView>) -> u64
    decreases removed.len(),
{
    if removed.len() == 0 {
        watermark
    } else {
        watermark_step(lowered(watermark, removed.drop_last()), removed.last().offset)
    }
}

/// Whether no two frames share an identity.
pub open spec fn distinct_uuids(frames: Seq<FrameView>) -> bool {
    forall|i: int, j: int|
        0 <= i < frames.len() && 0 <= j < frames.len() && i != j ==> (#[trigger] frames[i]).uuid
            != (#[trigger] frames[j]).uuid
}

/// Whether two frames do not stand in each other's way in the file: one of them was
/// never persisted, or one stands `least` bytes or more in front of the other.
pub open spec fn apart(first: FrameView, second: FrameView, least: int) -> bool {
    first.offset == 0 || second.offset == 0 || first.offset + least <= second.offset
        || second.offset + least <= first.offset
}

/// Whether no two frames stand in each other's way in the file.
pub open spec fn spaced(frames: Seq<FrameView>, least: int) -> bool {
    forall|i: int, j: int|
        0 <= i < frames.len() && 0 <= j < frames.len() && i != j ==> apart(
            #[trigger] frames[i],
            #[trigger] frames[j],
            least,
        )
}

/// Frames that are selected out of frames that do not stand in each other's way do not
/// stand in each other's way.
pub proof fn lemma_select_spaced(
    frames: Seq<FrameView>,
    selector: SelectorView,
    want: bool,
    least: int,
)
    requires
        spaced(frames, least),
    ensures
        spaced(select(frames, selector, want), least),
    decreases frames.len(),
{
    let chosen = select(frames, selector, want);
    if frames.len() > 0 {
        let front = frames.drop_last();
        let rest = select(front, selector, want);
        lemma_select(front, selector, want);
        assert(spaced(front, least)) by {
            assert forall|i: int, j: int|
                0 <= i < front.len() && 0 <= j < front.len() && i != j implies apart(
                #[trigger] front[i],
                #[trigger] front[j],
                least,
            ) by {
                assert(front[i] == frames[i] && front[j] == frames[j]);
            }
        }
        lemma_select_spaced(front, selector, want, least);
        assert forall|a: int, b: int|
            0 <= a < chosen.len() && 0 <= b < chosen.len() && a != b implies apart(
            #[trigger] chosen[a],
            #[trigger] chosen[b],
            least,
        ) by {
            if a < rest.len() && b < rest.len() {
                assert(chosen[a] == rest[a] && chosen[b] == rest[b]);
            } else {
                let inner = if a < rest.len() {
                    a
                } else {
                    b
                };
                assert(chosen[inner] == rest[inner]);
                assert(member(front, rest[inner]));
                let i = choose|i: int| 0 <= i < front.len() && front[i] == rest[inner];
                assert(frames[i] == rest[inner]);
                assert(apart(frames[i], frames[frames.len() - 1], least));
                assert(apart(frames[frames.len() - 1], frames[i], least));
            }
        }
    }
}

/// Whether `frame` is one of `frames`.
pub open spec fn member(frames: Seq<FrameView>, frame: FrameView) -> bool {
    exists|i: int| 0 <= i < frames.len() && frames[i] == frame
}

/// What is selected out of a sequence of frames is part of it: every frame of the
/// selection is a frame of the sequence and meets the rule, every frame of the sequence
/// that meets the rule is in the selection, and where no two frames of the sequence
/// share an identity, no two of the selection do.
pub proof fn lemma_select(frames: Seq<FrameView>, selector: SelectorView, want: bool)
    ensures
        select(frames, selector, want).len() <= frames.len(),
        forall|k: int|
            0 <= k < select(frames, selector, want).len() ==> {
                &&& member(frames, #[trigger] select(frames, selector, want)[k])
                &&& selector.selects(select(frames, selector, want)[k]) == want
            },
        forall|i: int|
            0 <= i < frames.len() && selector.selects(#[trigger] frames[i]) == want ==> member(
                select(frames, selector, want),
                frames[i],
            ),
        distinct_uuids(frames) ==> distinct_uuids(select(frames, selector, want)),
    decreases frames.len(),
{
    let chosen = select(frames, selector, want);
    if frames.len() > 0 {
        let front = frames.drop_last();
        let rest = select(front, selector, want);
        lemma_select(front, selector, want);
        assert forall|k: int| 0 <= k < chosen.len() implies {
            &&& member(frames, #[trigger] chosen[k])
            &&& selector.selects(chosen[k]) == want
        } by {
            if k < rest.len() {
                assert(chosen[k] == rest[k]);
                assert(member(front, rest[k]));
                let i = choose|i: int| 0 <= i < front.len() && front[i] == rest[k];
                assert(frames[i] == chosen[k]);
            } else {
                assert(chosen[k] == frames[frames.len() - 1]);
            }
        }
        assert forall|i: int|
            0 <= i < frames.len() && selector.selects(#[trigger] frames[i]) == want implies member(
            chosen,
            frames[i],
        ) by {
            if i < front.len() {
                assert(front[i] == frames[i]);
                assert(member(rest, front[i]));
                let k = choose|k: int| 0 <= k < rest.len() && rest[k] == front[i];
                assert(chosen[k] == frames[i]);
            } else {
                assert(chosen[chosen.len() - 1] == frames[i]);
            }
        }
        if distinct_uuids(frames) {
            assert(distinct_uuids(front)) by {
                assert forall|i: int, j: int|
                    0 <= i < front.len() && 0 <= j < front.len() && i != j implies (
                #[trigger] front[i]).uuid != (#[trigger] front[j]).uuid by {
                    assert(front[i] == frames[i] && front[j] == frames[j]);
                }
            }
            assert forall|a: int, b: int|
                0 <= a < chosen.len() && 0 <= b < chosen.len() && a != b implies (
            #[trigger] chosen[a]).uuid != (#[trigger] chosen[b]).uuid by {
                if a < rest.len() && b < rest.len() {
                    assert(chosen[a] == rest[a] && chosen[b] == rest[b]);
                } else {
                    let inner = if a < rest.len() {
                        a
                    } else {
                        b
                    };
                    assert(chosen[inner] == rest[inner]);
                    assert(member(front, rest[inner]));
                    let i = choose|i: int| 0 <= i < front.len() && front[i] == rest[inner];
                    assert(frames[i] == rest[inner]);
                    assert(frames[i].uuid != frames[frames.len() - 1].uuid);
                }
            }
        }
    }
}

/// Every frame is either chosen or passed over.
pub proof fn lemma_partition(frames: Seq<FrameView>, selector: SelectorView)
    ensures
        select(frames, selector, true).len() + select(frames, selector, false).len()
            == frames.len(),
    decreases frames.len(),
{
    if frames.len() > 0 {
        lemma_partition(frames.drop_last(), selector);
    }
}

/// Removing frames only lowers the watermark, and never below the lowest offset of
/// a removed frame that was persisted: the new watermark is the old one, or the offset
/// of such a frame, and no such frame stood below it. A watermark that was never set
/// takes the lowest such offset.
pub proof fn lemma_lowered(watermark: u64, removed: Seq<FrameView>)
    ensures
        watermark != 0 ==> lowered(watermark, removed) <= watermark,
        watermark != 0 ==> lowered(watermark, removed) != 0,
        lowered(watermark, removed) == watermark || exists|i: int|
            0 <= i < removed.len() && removed[i].offset != 0 && #[trigger] removed[i].offset
                == lowered(watermark, removed),
        forall|i: int|
            0 <= i < removed.len() && (#[trigger] removed[i]).offset != 0 ==> 0 < lowered(
                watermark,
                removed,
            ) <= removed[i].offset,
    decreases removed.len(),
{
    if removed.len() > 0 {
        let front = removed.drop_last();
        lemma_lowered(watermark, front);
        let before = lowered(watermark, front);
        let after = lowered(watermark, removed);
        if after != watermark {
            if after == before {
                let i = choose|i: int|
                    0 <= i < front.len() && front[i].offset != 0 && #[trigger] front[i].offset
                        == before;
                assert(removed[i] == front[i]);
            } else {
                assert(removed[removed.len() - 1].offset == after);
            }
        }
        assert forall|i: int|
            0 <= i < removed.len() && (#[trigger] removed[i]).offset != 0 implies 0 < after
            <= removed[i].offset by {
            if i < front.len() {
                assert(front[i] == removed[i]);
            }
        }
    }
}

} // verus!
