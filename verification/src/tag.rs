//! The tag: an ordered list of frames with stable identities, and the bookkeeping that
//! says which part of the file a later save has to write again.

use crate::chars::{bytes_of, chars_of, str_eq};
pub use crate::flags::TagFlags;
use crate::frame::{views, Contents, ContentsView, Frame, FrameView};
use crate::payload::{id_apic, id_comm, id_txxx};
use crate::picture::PictureType;
use crate::select::{
    agrees, apart, distinct_uuids, first_with_id, lemma_select, spaced, lowered, member, select,
    spec_file_discard, spec_in_file_discard, watermark_step, SelectorView, FILE_DISCARD,
    FILE_DISCARD_COUNT,
};
use crate::text::Encoding;
use vstd::prelude::*;
use vstd::string::*;

pub mod facade;
pub mod fields;
pub mod laws;
pub mod load;
pub mod save;

verus! {

/// An ID3 tag containing metadata frames.
#[derive(Clone, Debug)]
pub struct ID3Tag {
    /// The path that the tag was loaded from or last written to.
    path: Option<String>,
    /// The major version of the tag.
    major: u8,
    /// The revision of that version.
    revision: u8,
    /// The size of the tag when read from a file: what follows the ten bytes of the
    /// header, padding included.
    size: u32,
    /// The file offset just past the last frame.
    offset: u64,
    /// The file offset of the first frame that a save has to write again.
    modified_offset: u64,
    /// The ID3 header flags.
    flags: TagFlags,
    /// The frames of the tag.
    frames: Vec<Frame>,
    /// Whether the next save has to write the whole file.
    rewrite: bool,
    /// The identity that the next added frame gets.
    next_uuid: Vec<u8>,
}

/// What a tag holds.
pub struct TagView {
    pub path: Option<Seq<char>>,
    pub version: (u8, u8),
    pub size: u32,
    pub offset: u64,
    pub modified_offset: u64,
    pub flags: TagFlags,
    pub frames: Seq<FrameView>,
    pub rewrite: bool,
}

/// Whether `frame` was never persisted, or stands behind the tag header and ends at or
/// in front of `offset`: its header, which is `least` bytes long, stands in front of it.
pub open spec fn placed_within(frame: FrameView, offset: u64, least: int) -> bool {
    frame.offset == 0 || (10 <= frame.offset && frame.offset + least <= offset)
}

/// Whether `frame` was never persisted, or stands wholly in front of the watermark or
/// behind it: no persisted frame stands at the watermark or across it.
pub open spec fn clear_of(frame: FrameView, watermark: u64, least: int) -> bool {
    frame.offset == 0 || frame.offset + least <= watermark || frame.offset > watermark
}

impl TagView {
    /// The least number of bytes that a persisted frame of the tag takes: the ten bytes
    /// of a frame header, and the six bytes of a frame header of version 2.2 in a tag that
    /// was read from a file of that version and asks for a rewrite.
    pub open spec fn least_frame(self) -> int {
        if self.rewrite {
            6
        } else {
            10
        }
    }

    /// What holds of every tag: the version is 3 or 4; the tag is neither unsynchronized
    /// nor compressed; the size fits in 28 bits; the watermark is not past the offset, and
    /// is unset only where the offset is; a tag with a path was persisted; what was
    /// persisted stands behind the ten bytes of the tag header; every persisted frame
    /// ends at or in front of the offset, and none stands at the watermark or across it;
    /// no two persisted frames stand in each other's way; no two frames share an identity.
    pub open spec fn wf(self) -> bool {
        &&& self.version.0 == 3 || self.version.0 == 4
        &&& !self.flags.unsynchronization && !self.flags.compression
        &&& self.size < 0x1000_0000
        &&& self.modified_offset <= self.offset
        &&& self.modified_offset == 0 ==> self.offset == 0
        &&& self.modified_offset != 0 ==> self.modified_offset >= 10
        &&& self.path is Some ==> self.offset != 0
        &&& forall|i: int|
            0 <= i < self.frames.len() ==> placed_within(
                #[trigger] self.frames[i],
                self.offset,
                self.least_frame(),
            ) && clear_of(self.frames[i], self.modified_offset, self.least_frame())
        &&& spaced(self.frames, self.least_frame())
        &&& distinct_uuids(self.frames)
    }

    /// The tag without the frames that `selector` chooses, and with the watermark
    /// lowered to the lowest offset of a removed frame that was persisted.
    pub open spec fn without(self, selector: SelectorView) -> TagView {
        TagView {
            frames: select(self.frames, selector, false),
            modified_offset: lowered(self.modified_offset, select(self.frames, selector, true)),
            ..self
        }
    }

    /// The tag with `frame` added at the end, under the identity `uuid` and as a frame
    /// that was never persisted.
    pub open spec fn with_frame(self, frame: FrameView, uuid: Seq<u8>) -> TagView {
        TagView { frames: self.frames.push(FrameView { uuid, offset: 0, ..frame }), ..self }
    }

    /// The identity of the frame that was added last.
    pub open spec fn last_uuid(self) -> Seq<u8> {
        self.frames.last().uuid
    }

    /// The first frame with the identifier `id`.
    pub open spec fn first(self, id: Seq<char>) -> Option<FrameView> {
        match first_with_id(self.frames, id, 0) {
            Some(at) => Some(self.frames[at]),
            None => None,
        }
    }

    /// The text of the first frame with the identifier `id`, where the payload of that
    /// frame is a text.
    pub open spec fn text_of(self, id: Seq<char>) -> Option<Seq<char>> {
        match self.first(id) {
            Some(frame) => match frame.contents {
                ContentsView::Text(text) => Some(text),
                _ => None,
            },
            None => None,
        }
    }
}

/// Removing the chosen frames of a well-formed tag leaves a well-formed tag.
pub proof fn lemma_without_wf(tag: TagView, selector: SelectorView)
    requires
        tag.wf(),
    ensures
        tag.without(selector).wf(),
        tag.without(selector).modified_offset <= tag.modified_offset,
{
    let kept = select(tag.frames, selector, false);
    let gone = select(tag.frames, selector, true);
    lemma_select(tag.frames, selector, false);
    lemma_select(tag.frames, selector, true);
    crate::select::lemma_lowered(tag.modified_offset, gone);
    crate::select::lemma_select_spaced(tag.frames, selector, false, tag.least_frame());
    let least = tag.least_frame();
    let after = lowered(tag.modified_offset, gone);
    if after != tag.modified_offset {
        let i = choose|i: int|
            0 <= i < gone.len() && gone[i].offset != 0 && #[trigger] gone[i].offset == after;
        assert(member(tag.frames, gone[i]));
    }
    assert forall|i: int| 0 <= i < kept.len() implies placed_within(
        #[trigger] kept[i],
        tag.offset,
        least,
    ) && clear_of(kept[i], after, least) by {
        assert(member(tag.frames, kept[i]));
        let at = choose|at: int| 0 <= at < tag.frames.len() && tag.frames[at] == kept[i];
        assert(placed_within(tag.frames[at], tag.offset, least));
        if after != tag.modified_offset {
            let k = choose|k: int|
                0 <= k < gone.len() && gone[k].offset != 0 && #[trigger] gone[k].offset == after;
            assert(member(tag.frames, gone[k]));
            let from = choose|from: int| 0 <= from < tag.frames.len() && tag.frames[from] == gone[k];
            assert(selector.selects(gone[k]) && !selector.selects(kept[i]));
            assert(apart(tag.frames[at], tag.frames[from], least));
        }
    }
}

/// Adding a frame under an identity that is not in use leaves a well-formed tag, with the
/// watermark and the offset where they stood.
pub proof fn lemma_with_frame_wf(tag: TagView, frame: FrameView, uuid: Seq<u8>)
    requires
        tag.wf(),
        forall|i: int| 0 <= i < tag.frames.len() ==> (#[trigger] tag.frames[i]).uuid != uuid,
    ensures
        tag.with_frame(frame, uuid).wf(),
        tag.with_frame(frame, uuid).modified_offset == tag.modified_offset,
        tag.with_frame(frame, uuid).offset == tag.offset,
{
    let after = tag.with_frame(frame, uuid);
    let least = tag.least_frame();
    assert forall|i: int| 0 <= i < after.frames.len() implies placed_within(
        #[trigger] after.frames[i],
        after.offset,
        least,
    ) && clear_of(after.frames[i], after.modified_offset, least) by {
        if i < tag.frames.len() {
            assert(after.frames[i] == tag.frames[i]);
        }
    }
    assert forall|i: int, j: int|
        0 <= i < after.frames.len() && 0 <= j < after.frames.len() && i != j implies (
    #[trigger] after.frames[i]).uuid != (#[trigger] after.frames[j]).uuid && apart(
        after.frames[i],
        after.frames[j],
        least,
    ) by {
        if i < tag.frames.len() {
            assert(after.frames[i] == tag.frames[i]);
        }
        if j < tag.frames.len() {
            assert(after.frames[j] == tag.frames[j]);
        }
    }
}

/// A rule that chooses frames of a tag.
pub enum Selector<'a> {
    /// The frames with the given identifier.
    Id(&'a str),
    /// The frame with the given identity.
    Uuid(&'a [u8]),
    /// The `TXXX` frames with the given key and value, where one is given.
    Txxx(Option<&'a str>, Option<&'a str>),
    /// The `COMM` frames with the given description and text, where one is given.
    Comment(Option<&'a str>, Option<&'a str>),
    /// The `APIC` frames whose picture has the given role.
    Picture(PictureType),
    /// The persisted frames that ask to be dropped when the tag is altered.
    TagAltered,
    /// The persisted frames that are dropped when the tag moves to another file.
    FileAltered,
}

/// What an optional string slice holds.
pub open spec fn wanted(text: Option<&str>) -> Option<Seq<char>> {
    match text {
        Some(t) => Some(t@),
        None => None,
    }
}

impl<'a> View for Selector<'a> {
    type V = SelectorView;

    open spec fn view(&self) -> SelectorView {
        match self {
            Selector::Id(id) => SelectorView::Id(id@),
            Selector::Uuid(uuid) => SelectorView::Uuid(uuid@),
            Selector::Txxx(key, value) => SelectorView::Txxx(wanted(*key), wanted(*value)),
            Selector::Comment(key, value) => SelectorView::Comment(wanted(*key), wanted(*value)),
            Selector::Picture(picture_type) => SelectorView::Picture(*picture_type),
            Selector::TagAltered => SelectorView::TagAltered,
            Selector::FileAltered => SelectorView::FileAltered,
        }
    }
}

/// Whether two byte slices hold the same bytes.
pub fn bytes_eq(a: &[u8], b: &[u8]) -> (r: bool)
    ensures
        r == (a@ == b@),
{
    if a.len() != b.len() {
        return false;
    }
    let mut i: usize = 0;
    while i < a.len()
        invariant
            a@.len() == b@.len(),
            i <= a@.len(),
            forall|k: int| 0 <= k < i ==> a@[k] == b@[k],
        decreases a@.len() - i,
    {
        if a[i] != b[i] {
            return false;
        }
        i += 1;
    }
    assert(a@ =~= b@);
    true
}

/// Whether `wanted` is a wildcard or holds the characters of `found`.
fn agrees_with(wanted_text: Option<&str>, found: &str) -> (r: bool)
    ensures
        r == agrees(wanted(wanted_text), found@),
{
    match wanted_text {
        Some(w) => str_eq(w, found),
        None => true,
    }
}

/// Whether frames with the identifier `id` are dropped when a tag moves to another file.
pub fn in_file_discard(id: &str) -> (r: bool)
    ensures
        r == spec_file_discard(id@),
{
    let chars = chars_of(id);
    let mut i: usize = 0;
    while i < FILE_DISCARD_COUNT
        invariant
            i <= FILE_DISCARD_COUNT,
            chars@ == id@,
            !spec_in_file_discard(id@, i as int),
        decreases FILE_DISCARD_COUNT - i,
    {
        let row = FILE_DISCARD[i];
        if chars.len() == 4 && chars[0] == row[0] && chars[1] == row[1] && chars[2] == row[2]
            && chars[3] == row[3] {
            assert(id@ =~= FILE_DISCARD[i as int]@);
            assert(spec_in_file_discard(id@, i + 1));
            assert(spec_file_discard(id@)) by {
                lemma_file_discard_grows(id@, i + 1, FILE_DISCARD_COUNT as int);
            }
            return true;
        }
        assert(id@ != FILE_DISCARD[i as int]@) by {
            if id@ == FILE_DISCARD[i as int]@ {
                assert(id@.len() == 4);
                assert(id@[0] == row[0] && id@[1] == row[1] && id@[2] == row[2] && id@[3]
                    == row[3]);
            }
        }
        i += 1;
    }
    false
}

/// An identifier found among the first `low` rows is found among the first `high`.
proof fn lemma_file_discard_grows(id: Seq<char>, low: int, high: int)
    requires
        0 <= low <= high <= FILE_DISCARD_COUNT,
        spec_in_file_discard(id, low),
    ensures
        spec_in_file_discard(id, high),
    decreases high - low,
{
    if low < high {
        lemma_file_discard_grows(id, low, high - 1);
    }
}

impl<'a> Selector<'a> {
    /// Whether the rule chooses `frame`.
    pub fn chooses(&self, frame: &Frame) -> (r: bool)
        ensures
            r == self@.selects(frame@),
    {
        proof {
            reveal_strlit("TXXX");
            reveal_strlit("COMM");
            reveal_strlit("APIC");
            assert("TXXX"@ =~= id_txxx());
            assert("COMM"@ =~= id_comm());
            assert("APIC"@ =~= id_apic());
        }
        match self {
            Selector::Id(id) => str_eq(frame.id.as_str(), id),
            Selector::Uuid(uuid) => bytes_eq(frame.uuid.as_slice(), uuid),
            Selector::Txxx(key, value) => str_eq(frame.id.as_str(), "TXXX") && match &frame.contents {
                Contents::ExtendedText(k, v) => agrees_with(*key, k.as_str()) && agrees_with(
                    *value,
                    v.as_str(),
                ),
                _ => true,
            },
            Selector::Comment(key, value) => str_eq(frame.id.as_str(), "COMM")
                && match &frame.contents {
                Contents::Comment(k, v) => agrees_with(*key, k.as_str()) && agrees_with(
                    *value,
                    v.as_str(),
                ),
                _ => true,
            },
            Selector::Picture(picture_type) => str_eq(frame.id.as_str(), "APIC")
                && match &frame.contents {
                Contents::Picture(p) => p.picture_type == *picture_type,
                _ => true,
            },
            Selector::TagAltered => frame.offset != 0 && frame.flags.tag_alter_preservation,
            Selector::FileAltered => frame.offset != 0 && (frame.flags.tag_alter_preservation
                || frame.flags.file_alter_preservation || in_file_discard(frame.id.as_str())),
        }
    }
}

/// The order in which identities are handed out: shorter ones first, and among those of
/// one length the one with the lower byte at the first place where they differ.
pub open spec fn uuid_lt(a: Seq<u8>, b: Seq<u8>) -> bool {
    a.len() < b.len() || (a.len() == b.len() && exists|k: int|
        0 <= k < a.len() && #[trigger] a[k] < b[k] && forall|j: int| 0 <= j < k ==> a[j] == b[j])
}

/// The order of identities is transitive, and nothing comes before itself.
pub proof fn lemma_uuid_lt(a: Seq<u8>, b: Seq<u8>, c: Seq<u8>)
    ensures
        !uuid_lt(a, a),
        uuid_lt(a, b) && uuid_lt(b, c) ==> uuid_lt(a, c),
        uuid_lt(a, b) ==> a != b,
{
    if uuid_lt(a, b) && uuid_lt(b, c) && a.len() == b.len() && b.len() == c.len() {
        let k1 = choose|k: int|
            0 <= k < a.len() && #[trigger] a[k] < b[k] && forall|j: int| 0 <= j < k ==> a[j] == b[j];
        let k2 = choose|k: int|
            0 <= k < b.len() && #[trigger] b[k] < c[k] && forall|j: int| 0 <= j < k ==> b[j] == c[j];
        let k = if k1 <= k2 {
            k1
        } else {
            k2
        };
        assert(a[k] < c[k]);
        assert(forall|j: int| 0 <= j < k ==> a[j] == c[j]);
    }
}

/// The identity that is handed out after `uuid`.
fn successor(uuid: &Vec<u8>) -> (next: Vec<u8>)
    ensures
        uuid_lt(uuid@, next@),
{
    let mut out = bytes_of(uuid.as_slice());
    let mut i: usize = out.len();
    while i > 0
        invariant
            i <= out@.len(),
            out@.len() == uuid@.len(),
            forall|j: int| 0 <= j < i ==> out@[j] == uuid@[j],
        decreases i,
    {
        let b: u8 = out[i - 1];
        if b < 255 {
            out.set(i - 1, b + 1);
            assert(uuid@[i - 1] < out@[i - 1]);
            return out;
        }
        out.set(i - 1, 0);
        i -= 1;
    }
    out.push(0);
    out
}

/// How many bytes the first identity of a tag has.
pub const UUID_LEN: usize = 16;

/// The first identity that a tag hands out.
fn first_uuid() -> (uuid: Vec<u8>)
    ensures
        uuid@.len() == UUID_LEN,
{
    let mut uuid: Vec<u8> = Vec::new();
    let mut i: usize = 0;
    while i < UUID_LEN
        invariant
            i <= UUID_LEN,
            uuid@.len() == i,
        decreases UUID_LEN - i,
    {
        uuid.push(0);
        i += 1;
    }
    uuid
}

impl View for ID3Tag {
    type V = TagView;

    closed spec fn view(&self) -> TagView {
        TagView {
            path: match self.path {
                Some(p) => Some(p@),
                None => None,
            },
            version: (self.major, self.revision),
            size: self.size,
            offset: self.offset,
            modified_offset: self.modified_offset,
            flags: self.flags,
            frames: views(self.frames@),
            rewrite: self.rewrite,
        }
    }
}

impl ID3Tag {
    /// Whether every identity in use was handed out before the one that is next.
    pub closed spec fn fresh(&self) -> bool {
        forall|i: int|
            0 <= i < self.frames@.len() ==> uuid_lt(
                (#[trigger] self.frames@[i]).uuid@,
                self.next_uuid@,
            )
    }

    /// What holds of every tag that this library hands out.
    pub open spec fn wf(&self) -> bool {
        self@.wf() && self.fresh()
    }

    /// A tag of the given major version with no frames, no flags and no path, never
    /// persisted.
    pub open spec fn spec_new(major: u8) -> TagView {
        TagView {
            path: None,
            version: (major, 0),
            size: 0,
            offset: 0,
            modified_offset: 0,
            flags: TagFlags::spec_new(),
            frames: Seq::empty(),
            rewrite: false,
        }
    }

    /// Creates a new ID3v2.4 tag with no frames.
    pub fn new() -> (tag: ID3Tag)
        ensures
            tag.wf(),
            tag@ == ID3Tag::spec_new(4),
    {
        let tag = ID3Tag {
            path: None,
            major: 4,
            revision: 0,
            size: 0,
            offset: 0,
            modified_offset: 0,
            flags: TagFlags::new(),
            frames: Vec::new(),
            rewrite: false,
            next_uuid: first_uuid(),
        };
        assert(tag@.frames =~= Seq::empty());
        tag
    }

    /// Creates a new ID3 tag with the specified version.
    ///
    /// Only versions 3 and 4 are supported.
    pub fn with_version(version: u8) -> (tag: ID3Tag)
        requires
            version == 3 || version == 4,
        ensures
            tag.wf(),
            tag@ == ID3Tag::spec_new(version),
    {
        let tag = ID3Tag {
            path: None,
            major: version,
            revision: 0,
            size: 0,
            offset: 0,
            modified_offset: 0,
            flags: TagFlags::new(),
            frames: Vec::new(),
            rewrite: false,
            next_uuid: first_uuid(),
        };
        assert(tag@.frames =~= Seq::empty());
        tag
    }

    /// The major version and the revision of the tag.
    pub fn version(&self) -> (v: (u8, u8))
        ensures
            v == self@.version,
    {
        (self.major, self.revision)
    }

    /// The size that the tag declared when it was read or last written in full.
    pub fn size(&self) -> (n: u32)
        ensures
            n == self@.size,
    {
        self.size
    }

    /// The file offset just past the last frame; 0 for a tag that was never persisted.
    pub fn offset(&self) -> (n: u64)
        ensures
            n == self@.offset,
    {
        self.offset
    }

    /// The file offset from which the next save has to write; 0 for a tag that was
    /// never persisted.
    pub fn modified_offset(&self) -> (n: u64)
        ensures
            n == self@.modified_offset,
    {
        self.modified_offset
    }

    /// The header flags.
    pub fn flags(&self) -> (flags: TagFlags)
        ensures
            flags == self@.flags,
    {
        self.flags
    }

    /// Whether the next save has to write the whole file whatever else holds.
    pub fn needs_rewrite(&self) -> (r: bool)
        ensures
            r == self@.rewrite,
    {
        self.rewrite
    }

    /// The path that the tag was loaded from or last written to.
    pub fn path(&self) -> (r: Option<&str>)
        ensures
            wanted(r) == self@.path,
    {
        match &self.path {
            Some(p) => Some(p.as_str()),
            None => None,
        }
    }

    /// Returns the default unicode encoding that should be used for this tag.
    ///
    /// From version 2.4 on this is UTF-8, before that UTF-16.
    pub fn default_encoding(&self) -> (encoding: Encoding)
        ensures
            encoding == if self@.version.0 >= 4 {
                Encoding::UTF8
            } else {
                Encoding::UTF16
            },
    {
        if self.major >= 4 {
            Encoding::UTF8
        } else {
            Encoding::UTF16
        }
    }

    /// Returns a reference to all frames in the tag, in insertion order.
    pub fn get_frames(&self) -> (frames: &Vec<Frame>)
        ensures
            views(frames@) == self@.frames,
    {
        &self.frames
    }

    /// Returns a reference to the first frame with the specified identifier.
    pub fn get_frame_by_id(&self, id: &str) -> (r: Option<&Frame>)
        ensures
            match self@.first(id@) {
                Some(frame) => r matches Some(found) && found@ == frame,
                None => r is None,
            },
    {
        let mut i: usize = 0;
        while i < self.frames.len()
            invariant
                i <= self.frames@.len(),
                first_with_id(self@.frames, id@, 0) == first_with_id(self@.frames, id@, i as int),
            decreases self.frames@.len() - i,
        {
            assert(self.frames@[i as int]@ == self@.frames[i as int]);
            if str_eq(self.frames[i].id.as_str(), id) {
                return Some(&self.frames[i]);
            }
            i += 1;
        }
        None
    }

    /// Returns references to the frames with the specified identifier, in insertion
    /// order.
    pub fn get_frames_by_id(&self, id: &str) -> (r: Vec<&Frame>)
        ensures
            ref_views(r@) == select(self@.frames, SelectorView::Id(id@), true),
    {
        let mut matches: Vec<&Frame> = Vec::new();
        let mut i: usize = 0;
        let ghost selector = SelectorView::Id(id@);
        assert(self@.frames.take(0) =~= Seq::empty());
        assert(ref_views(matches@) =~= Seq::empty());
        while i < self.frames.len()
            invariant
                i <= self.frames@.len(),
                selector == SelectorView::Id(id@),
                ref_views(matches@) == select(self@.frames.take(i as int), selector, true),
            decreases self.frames@.len() - i,
        {
            let ghost before = matches@;
            proof {
                let next = self@.frames.take(i + 1);
                assert(next.drop_last() =~= self@.frames.take(i as int));
                assert(next.last() == self.frames@[i as int]@);
            }
            if str_eq(self.frames[i].id.as_str(), id) {
                matches.push(&self.frames[i]);
                assert(ref_views(matches@) =~= ref_views(before).push(self.frames@[i as int]@));
            }
            i += 1;
        }
        assert(self@.frames.take(self@.frames.len() as int) =~= self@.frames);
        matches
    }

    /// Hands out the next identity.
    fn take_uuid(&mut self) -> (uuid: Vec<u8>)
        ensures
            uuid@ == old(self).next_uuid@,
            uuid_lt(uuid@, final(self).next_uuid@),
            final(self)@ == old(self)@,
            final(self).frames == old(self).frames,
    {
        let mut uuid = successor(&self.next_uuid);
        std::mem::swap(&mut self.next_uuid, &mut uuid);
        uuid
    }

    /// Whether no two frames share an identity.
    pub open spec fn distinct(&self) -> bool {
        distinct_uuids(self@.frames)
    }

    /// Takes `frame` in at the end under a fresh identity.
    fn adopt(&mut self, frame: Frame)
        requires
            old(self).fresh(),
            old(self).distinct(),
        ensures
            final(self).fresh(),
            final(self).distinct(),
            final(self)@ == (TagView {
                frames: old(self)@.frames.push(
                    FrameView { uuid: final(self)@.last_uuid(), ..frame@ },
                ),
                ..old(self)@
            }),
    {
        let mut frame = frame;
        let ghost given = frame@;
        let uuid = self.take_uuid();
        frame.uuid = uuid;
        let ghost added = frame@;
        let ghost before = self.frames@;
        self.frames.push(frame);
        proof {
            assert(views(self.frames@) =~= views(before).push(added));
            assert(added == FrameView { uuid: added.uuid, ..given });
            assert forall|i: int| 0 <= i < self.frames@.len() implies uuid_lt(
                (#[trigger] self.frames@[i]).uuid@,
                self.next_uuid@,
            ) by {
                if i < before.len() {
                    assert(self.frames@[i] == before[i]);
                    lemma_uuid_lt(before[i].uuid@, added.uuid, self.next_uuid@);
                }
            }
            assert(distinct_uuids(self@.frames)) by {
                assert forall|i: int, j: int|
                    0 <= i < self@.frames.len() && 0 <= j < self@.frames.len() && i
                        != j implies (#[trigger] self@.frames[i]).uuid != (
                #[trigger] self@.frames[j]).uuid by {
                    if i < before.len() && j < before.len() {
                        assert(self@.frames[i] == old(self)@.frames[i]);
                        assert(self@.frames[j] == old(self)@.frames[j]);
                    } else {
                        let inner = if i < before.len() {
                            i
                        } else {
                            j
                        };
                        assert(self@.frames[inner] == before[inner]@);
                        lemma_uuid_lt(before[inner].uuid@, added.uuid, added.uuid);
                    }
                }
            }
        }
    }

    /// Adds a frame to the tag: the frame is given a fresh identity and counts as never
    /// persisted.
    pub fn add_frame(&mut self, frame: Frame)
        requires
            old(self).wf(),
        ensures
            final(self).wf(),
            final(self)@ == old(self)@.with_frame(frame@, final(self)@.last_uuid()),
    {
        let mut frame = frame;
        frame.offset = 0;
        self.adopt(frame);
        proof {
            let uuid = self@.last_uuid();
            let last = self@.frames.len() - 1;
            assert forall|i: int| 0 <= i < old(self)@.frames.len() implies (
            #[trigger] old(self)@.frames[i]).uuid != uuid by {
                assert(self@.frames[i] == old(self)@.frames[i]);
                assert(self@.frames[i].uuid != self@.frames[last].uuid);
            }
            lemma_with_frame_wf(old(self)@, frame@, uuid);
        }
    }

    /// Removes the frames that `selector` chooses and lowers the watermark to the
    /// lowest offset of a removed frame that was persisted.
    pub fn remove_where(&mut self, selector: &Selector)
        requires
            old(self).wf(),
        ensures
            final(self).wf(),
            final(self)@ == old(self)@.without(selector@),
    {
        let ghost all = self@.frames;
        let ghost start = self.frames@;
        let ghost done: int = 0;
        let mut watermark: u64 = self.modified_offset;
        let mut i: usize = 0;
        assert(all.take(0) =~= Seq::empty());
        while i < self.frames.len()
            invariant
                all == views(start),
                0 <= done <= start.len(),
                i <= self.frames@.len(),
                self.frames@.len() - i == start.len() - done,
                self.frames@.take(i as int) == start_kept(start, selector@, done),
                self.frames@.skip(i as int) == start.skip(done),
                views(start_kept(start, selector@, done)) == select(
                    all.take(done),
                    selector@,
                    false,
                ),
                watermark == lowered(
                    old(self)@.modified_offset,
                    select(all.take(done), selector@, true),
                ),
                self.next_uuid == old(self).next_uuid,
                self.path == old(self).path,
                self.major == old(self).major,
                self.revision == old(self).revision,
                self.size == old(self).size,
                self.offset == old(self).offset,
                self.flags == old(self).flags,
                self.rewrite == old(self).rewrite,
            decreases self.frames@.len() - i,
        {
            let ghost current = self.frames@;
            proof {
                assert(current[i as int] == current.skip(i as int)[0]);
                assert(current[i as int] == start[done]);
                let next = all.take(done + 1);
                assert(next.drop_last() =~= all.take(done));
                assert(next.last() == start[done]@);
                lemma_start_kept_step(start, selector@, done);
            }
            if selector.chooses(&self.frames[i]) {
                let gone = self.frames.remove(i);
                watermark = lower(watermark, gone.offset);
                proof {
                    let chosen = select(all.take(done), selector@, true);
                    assert(select(all.take(done + 1), selector@, true) == chosen.push(
                        start[done]@,
                    ));
                    assert(chosen.push(start[done]@).drop_last() =~= chosen);
                    assert(self.frames@.take(i as int) =~= current.take(i as int));
                    assert(current.skip(i as int).skip(1) =~= current.skip(i + 1));
                    assert(start.skip(done).skip(1) =~= start.skip(done + 1));
                    assert(self.frames@.skip(i as int) =~= current.skip(i + 1));
                    done = done + 1;
                }
            } else {
                proof {
                    assert(self.frames@.take(i + 1) =~= current.take(i as int).push(start[done]));
                    assert(current.skip(i as int).skip(1) =~= current.skip(i + 1));
                    assert(start.skip(done).skip(1) =~= start.skip(done + 1));
                    done = done + 1;
                }
                i += 1;
            }
        }
        self.modified_offset = watermark;
        proof {
            assert(self.frames@.take(i as int) =~= self.frames@);
            assert(all.take(done) =~= all);
            lemma_without_wf(old(self)@, selector@);
            lemma_start_kept_members(start, selector@, done);
            assert forall|k: int| 0 <= k < self.frames@.len() implies uuid_lt(
                (#[trigger] self.frames@[k]).uuid@,
                self.next_uuid@,
            ) by {
                let j = choose|j: int| 0 <= j < start.len() && start[j] == self.frames@[k];
                assert(uuid_lt(old(self).frames@[j].uuid@, old(self).next_uuid@));
            }
        }
    }
}

/// The frames among the first `done` of `start` that `selector` passes over.
spec fn start_kept(start: Seq<Frame>, selector: SelectorView, done: int) -> Seq<Frame>
    decreases done,
{
    if done <= 0 || done > start.len() {
        Seq::empty()
    } else if selector.selects(start[done - 1]@) {
        start_kept(start, selector, done - 1)
    } else {
        start_kept(start, selector, done - 1).push(start[done - 1])
    }
}

/// Keeping frames and taking their views is selecting among their views.
proof fn lemma_start_kept_step(start: Seq<Frame>, selector: SelectorView, done: int)
    requires
        0 <= done < start.len(),
        views(start_kept(start, selector, done)) == select(
            views(start).take(done),
            selector,
            false,
        ),
    ensures
        views(start_kept(start, selector, done + 1)) == select(
            views(start).take(done + 1),
            selector,
            false,
        ),
        start_kept(start, selector, done + 1) == if selector.selects(start[done]@) {
            start_kept(start, selector, done)
        } else {
            start_kept(start, selector, done).push(start[done])
        },
{
    let next = views(start).take(done + 1);
    assert(next.drop_last() =~= views(start).take(done));
    assert(next.last() == start[done]@);
    if !selector.selects(start[done]@) {
        assert(views(start_kept(start, selector, done).push(start[done])) =~= views(
            start_kept(start, selector, done),
        ).push(start[done]@));
    }
}

/// Every kept frame is one of the frames that there were.
proof fn lemma_start_kept_members(start: Seq<Frame>, selector: SelectorView, done: int)
    requires
        0 <= done <= start.len(),
    ensures
        forall|k: int|
            0 <= k < start_kept(start, selector, done).len() ==> exists|j: int|
                0 <= j < start.len() && start[j] == #[trigger] start_kept(start, selector, done)[k],
    decreases done,
{
    if done > 0 {
        lemma_start_kept_members(start, selector, done - 1);
        let kept = start_kept(start, selector, done);
        let front = start_kept(start, selector, done - 1);
        assert forall|k: int| 0 <= k < kept.len() implies exists|j: int|
            0 <= j < start.len() && start[j] == #[trigger] kept[k] by {
            if k < front.len() {
                assert(kept[k] == front[k]);
            } else {
                assert(kept[k] == start[done - 1]);
            }
        }
    }
}

/// The watermark after a frame that stood at `offset` has been removed.
pub fn lower(watermark: u64, offset: u64) -> (r: u64)
    ensures
        r == watermark_step(watermark, offset),
{
    if offset != 0 && (watermark == 0 || offset < watermark) {
        offset
    } else {
        watermark
    }
}

/// The views of a sequence of borrowed frames.
pub open spec fn ref_views(frames: Seq<&Frame>) -> Seq<FrameView> {
    Seq::new(frames.len(), |i: int| frames[i]@)
}

} // verus!
