//! The layout of a whole frame in a tag: header, then payload.

use crate::chars::{append_bytes, chars_of, lemma_char_code, string_of};
use crate::contents::{encode_contents, kind_of, parse_contents};
use crate::error::{ErrorKind, TagError};
use crate::flags::bit_if;
use crate::frame::{Frame, FrameFlags, FrameView};
use crate::legacy::{spec_upgrade_id, upgrade_id};
use crate::payload::{spec_kind, spec_parse_payload, spec_payload, Kind};
use crate::synchsafe::{spec_synchsafe, spec_unsynchsafe, synchsafe, unsynchsafe};
use crate::text::{latin1_bytes, latin1_text, zeros};
use vstd::prelude::*;

verus! {

/// Whether a character may stand in a frame identifier: a capital letter or a digit.
pub open spec fn valid_id_char(c: char) -> bool {
    ('A' <= c && c <= 'Z') || ('0' <= c && c <= '9')
}

/// Whether `id` is a frame identifier of the given length.
pub open spec fn valid_id(id: Seq<char>, len: int) -> bool {
    &&& id.len() == len
    &&& forall|i: int| 0 <= i < id.len() ==> valid_id_char(#[trigger] id[i])
}

/// Whether a frame can be written under the identifier `id`: it is one of four capital
/// letters or digits, or one of three, as a frame has that was read from a tag of
/// version 2.2 under an identifier that no later one took the place of.
pub open spec fn writable_id(id: Seq<char>) -> bool {
    valid_id(id, 4) || valid_id(id, 3)
}

/// The four bytes that an identifier is written as: its characters, and a zero byte
/// behind an identifier of three.
pub open spec fn spec_id_bytes(id: Seq<char>) -> Seq<u8> {
    if id.len() == 3 {
        latin1_bytes(id) + seq![0u8]
    } else {
        latin1_bytes(id)
    }
}

/// The identifier that the identifier field of a frame header holds: the characters of
/// the field where they are capital letters or digits, and the first three of a field
/// of four that ends in a zero byte.
pub open spec fn spec_id_of(field: Seq<u8>) -> Option<Seq<char>> {
    if valid_id(latin1_text(field), field.len() as int) {
        Some(latin1_text(field))
    } else if field.len() == 4 && field[3] == 0 && valid_id(latin1_text(field.take(3)), 3) {
        Some(latin1_text(field.take(3)))
    } else {
        None
    }
}

/// The layout of the payload of a frame with the identifier `id`: raw bytes under an
/// identifier of three characters, and else what the identifier selects.
pub open spec fn spec_frame_kind(id: Seq<char>) -> Kind {
    if id.len() == 3 {
        Kind::Raw
    } else {
        spec_kind(id)
    }
}

/// The four bytes of `n`, highest first.
pub open spec fn be32(n: u32) -> Seq<u8> {
    seq![
        (n / 0x100_0000) as u8,
        ((n / 0x1_0000) % 256) as u8,
        ((n / 0x100) % 256) as u8,
        (n % 256) as u8,
    ]
}

/// The number that the first four bytes of `bytes` hold, highest first.
pub open spec fn be32_value(bytes: Seq<u8>) -> u32 {
    (bytes[0] * 0x100_0000 + bytes[1] * 0x1_0000 + bytes[2] * 0x100 + bytes[3]) as u32
}

/// The number that the first three bytes of `bytes` hold, highest first.
pub open spec fn be24_value(bytes: Seq<u8>) -> u32 {
    (bytes[0] * 0x1_0000 + bytes[1] * 0x100 + bytes[2]) as u32
}

/// The length of a frame identifier in the given version.
pub open spec fn spec_id_len(version: u8) -> int {
    if version == 2 {
        3
    } else {
        4
    }
}

/// The length of a frame header in the given version.
pub open spec fn spec_header_len(version: u8) -> int {
    if version == 2 {
        6
    } else {
        10
    }
}

/// The first payload length that a frame of the given version has no room for.
pub open spec fn spec_size_limit(version: u8) -> int {
    if version == 4 {
        0x1000_0000
    } else {
        0x1_0000_0000
    }
}

/// The four size bytes of a frame header: synchsafe in version 4, plain in version 3.
pub open spec fn spec_size_bytes(size: u32, version: u8) -> Seq<u8> {
    be32(
        if version == 4 {
            spec_synchsafe(size)
        } else {
            size
        },
    )
}

/// The payload length that the size bytes of a frame header stand for.
pub open spec fn spec_size_value(bytes: Seq<u8>, version: u8) -> u32 {
    if version == 2 {
        be24_value(bytes)
    } else if version == 4 {
        spec_unsynchsafe(be32_value(bytes))
    } else {
        be32_value(bytes)
    }
}

/// The status byte of a frame header. It holds the two preservation flags and the
/// read-only flag.
pub open spec fn spec_status_byte(flags: FrameFlags, version: u8) -> u8 {
    if version == 4 {
        bit_if(flags.tag_alter_preservation, 0x40) | bit_if(flags.file_alter_preservation, 0x20)
            | bit_if(flags.read_only, 0x10)
    } else {
        bit_if(flags.tag_alter_preservation, 0x80) | bit_if(flags.file_alter_preservation, 0x40)
            | bit_if(flags.read_only, 0x20)
    }
}

/// The format byte of a frame header as it is written: of its flags only the grouping
/// flag is emitted.
pub open spec fn spec_format_byte(flags: FrameFlags, version: u8) -> u8 {
    if version == 4 {
        bit_if(flags.grouping_identity, 0x40)
    } else {
        bit_if(flags.grouping_identity, 0x20)
    }
}

/// The flags that the two flag bytes of a frame header stand for.
pub open spec fn spec_flags_from(status: u8, format: u8, version: u8) -> FrameFlags {
    if version == 4 {
        FrameFlags {
            tag_alter_preservation: status & 0x40 != 0,
            file_alter_preservation: status & 0x20 != 0,
            read_only: status & 0x10 != 0,
            grouping_identity: format & 0x40 != 0,
            compression: format & 0x08 != 0,
            encryption: format & 0x04 != 0,
            unsynchronization: format & 0x02 != 0,
            data_length_indicator: format & 0x01 != 0,
        }
    } else {
        FrameFlags {
            tag_alter_preservation: status & 0x80 != 0,
            file_alter_preservation: status & 0x40 != 0,
            read_only: status & 0x20 != 0,
            compression: format & 0x80 != 0,
            encryption: format & 0x40 != 0,
            grouping_identity: format & 0x20 != 0,
            unsynchronization: false,
            data_length_indicator: false,
        }
    }
}

/// The bytes of a frame in a tag of version 3 or 4: identifier, size, flags, payload.
///
/// `UnsupportedFeature` for another version. `InvalidInput` where the identifier is not
/// made of four or of three capital letters or digits, where a text of the payload
/// cannot be written in its encoding, and where the payload is too long for the size
/// field. An identifier of three characters is written with a zero byte behind it.
pub open spec fn spec_frame_bytes(frame: FrameView, version: u8) -> Result<Seq<u8>, ErrorKind> {
    if version != 3 && version != 4 {
        Err(ErrorKind::UnsupportedFeature)
    } else if !writable_id(frame.id) {
        Err(ErrorKind::InvalidInput)
    } else {
        match spec_payload(frame.contents, frame.encoding) {
            None => Err(ErrorKind::InvalidInput),
            Some(payload) => if payload.len() >= spec_size_limit(version) {
                Err(ErrorKind::InvalidInput)
            } else {
                Ok(
                    spec_id_bytes(frame.id) + spec_size_bytes(payload.len() as u32, version) + seq![
                        spec_status_byte(frame.flags, version),
                        spec_format_byte(frame.flags, version),
                    ] + payload,
                )
            },
        }
    }
}

/// What reading one frame can come to.
pub enum ReadView {
    /// A frame, and the position just past it.
    Frame { frame: FrameView, next: int },
    /// Padding starts here: no frame follows.
    Padding,
    /// A frame that uses compression, encryption or unsynchronization, and the position
    /// just past it.
    Unsupported { next: int },
    /// The bytes are no frame.
    Failed(ErrorKind),
}

/// The identifier and the layout of a frame whose header holds `raw`. An identifier of
/// version 2.2 gives way to the one that took its place; one that is not known is kept
/// with its three characters, and its payload is raw bytes.
pub open spec fn spec_resolve_id(raw: Seq<char>, version: u8) -> (Seq<char>, Kind) {
    if version == 2 {
        match spec_upgrade_id(raw) {
            Some(id) => (id, spec_kind(id)),
            None => (raw, Kind::Raw),
        }
    } else {
        (raw, spec_frame_kind(raw))
    }
}

/// The frame whose header stands at `pos` and holds the identifier `raw` and the given
/// flags, and whose payload ends at `next`.
pub open spec fn spec_read_body(
    version: u8,
    raw: Seq<char>,
    flags: FrameFlags,
    payload: Seq<u8>,
    pos: int,
    next: int,
) -> ReadView {
    let (id, kind) = spec_resolve_id(raw, version);
    match spec_parse_payload(kind, payload, version == 2) {
        Ok((encoding, contents)) => ReadView::Frame {
            frame: FrameView { uuid: Seq::empty(), id, encoding, flags, contents, offset: pos as u64 },
            next,
        },
        Err(kind) => ReadView::Failed(kind),
    }
}

/// What stands at `pos` in `bytes`, read as a frame of the given version.
///
/// An identifier of zero bytes is padding. Else the header must be whole, the identifier
/// made of capital letters and digits (with a zero byte in the last place of four where
/// it has three characters), and the payload as long as the header says:
/// `InvalidInput` otherwise, and for a version other than 2, 3 and 4. A frame whose
/// flags ask for compression, encryption or unsynchronization is passed over. The
/// frame that is read has no identity, and `pos` as its offset.
#[verifier::opaque]
pub open spec fn spec_read_frame(version: u8, bytes: Seq<u8>, pos: int) -> ReadView {
    let id_len = spec_id_len(version);
    let header_len = spec_header_len(version);
    if version != 2 && version != 3 && version != 4 {
        ReadView::Failed(ErrorKind::InvalidInput)
    } else if pos < 0 || pos + id_len > bytes.len() {
        ReadView::Failed(ErrorKind::InvalidInput)
    } else if bytes.subrange(pos, pos + id_len) == zeros(id_len) {
        ReadView::Padding
    } else if pos + header_len > bytes.len() {
        ReadView::Failed(ErrorKind::InvalidInput)
    } else if spec_id_of(bytes.subrange(pos, pos + id_len)) is None {
        ReadView::Failed(ErrorKind::InvalidInput)
    } else {
        let size = spec_size_value(bytes.subrange(pos + id_len, pos + header_len), version);
        let flags = if version == 2 {
            FrameFlags::spec_new()
        } else {
            spec_flags_from(bytes[pos + 8], bytes[pos + 9], version)
        };
        let next = pos + header_len + size;
        if next > bytes.len() {
            ReadView::Failed(ErrorKind::InvalidInput)
        } else if flags.spec_unsupported() {
            ReadView::Unsupported { next }
        } else {
            spec_read_body(
                version,
                spec_id_of(bytes.subrange(pos, pos + id_len))->0,
                flags,
                bytes.subrange(pos + header_len, next),
                pos,
                next,
            )
        }
    }
}

/// What reading one frame came to.
#[derive(Clone, Debug, PartialEq, Eq)]
pub enum FrameRead {
    /// A frame, and the position just past it.
    Frame(Frame, usize),
    /// Padding starts here: no frame follows.
    Padding,
    /// A frame that uses compression, encryption or unsynchronization, and the position
    /// just past it.
    Unsupported(usize),
    /// The bytes are no frame.
    Failed(TagError),
}

impl View for FrameRead {
    type V = ReadView;

    open spec fn view(&self) -> ReadView {
        match self {
            FrameRead::Frame(frame, next) => ReadView::Frame { frame: frame@, next: *next as int },
            FrameRead::Padding => ReadView::Padding,
            FrameRead::Unsupported(next) => ReadView::Unsupported { next: *next as int },
            FrameRead::Failed(e) => ReadView::Failed(e.kind),
        }
    }
}

/// Whether a byte is a capital letter or a digit.
fn valid_id_byte(b: u8) -> (r: bool)
    ensures
        r == valid_id_char(b as char),
{
    (0x41 <= b && b <= 0x5A) || (0x30 <= b && b <= 0x39)
}

/// Appends the four bytes of `n`, highest first.
fn put_be32(out: &mut Vec<u8>, n: u32)
    ensures
        final(out)@ == old(out)@ + be32(n),
{
    out.push((n / 0x100_0000) as u8);
    out.push(((n / 0x1_0000) % 256) as u8);
    out.push(((n / 0x100) % 256) as u8);
    out.push((n % 256) as u8);
    assert(out@ =~= old(out)@ + be32(n));
}

/// The number held by the four bytes at `at`, highest first.
pub(crate) fn get_be32(bytes: &[u8], at: usize) -> (n: u32)
    requires
        at + 4 <= bytes@.len(),
    ensures
        n == be32_value(bytes@.subrange(at as int, at + 4)),
{
    let a: u32 = bytes[at] as u32;
    let b: u32 = bytes[at + 1] as u32;
    let c: u32 = bytes[at + 2] as u32;
    let d: u32 = bytes[at + 3] as u32;
    a * 0x100_0000 + b * 0x1_0000 + c * 0x100 + d
}

/// The number held by the three bytes at `at`, highest first.
fn get_be24(bytes: &[u8], at: usize) -> (n: u32)
    requires
        at + 3 <= bytes@.len(),
    ensures
        n == be24_value(bytes@.subrange(at as int, at + 3)),
{
    let a: u32 = bytes[at] as u32;
    let b: u32 = bytes[at + 1] as u32;
    let c: u32 = bytes[at + 2] as u32;
    a * 0x1_0000 + b * 0x100 + c
}

/// The two flag bytes of a frame header as they are written.
fn flag_bytes(flags: &FrameFlags, version: u8) -> (r: (u8, u8))
    ensures
        r.0 == spec_status_byte(*flags, version),
        r.1 == spec_format_byte(*flags, version),
{
    if version == 4 {
        let a: u8 = if flags.tag_alter_preservation { 0x40 } else { 0 };
        let b: u8 = if flags.file_alter_preservation { 0x20 } else { 0 };
        let c: u8 = if flags.read_only { 0x10 } else { 0 };
        let d: u8 = if flags.grouping_identity { 0x40 } else { 0 };
        (a | b | c, d)
    } else {
        let a: u8 = if flags.tag_alter_preservation { 0x80 } else { 0 };
        let b: u8 = if flags.file_alter_preservation { 0x40 } else { 0 };
        let c: u8 = if flags.read_only { 0x20 } else { 0 };
        let d: u8 = if flags.grouping_identity { 0x20 } else { 0 };
        (a | b | c, d)
    }
}

/// The flags that the two flag bytes of a frame header stand for.
fn flags_from(status: u8, format: u8, version: u8) -> (flags: FrameFlags)
    ensures
        flags == spec_flags_from(status, format, version),
{
    if version == 4 {
        FrameFlags {
            tag_alter_preservation: status & 0x40 != 0,
            file_alter_preservation: status & 0x20 != 0,
            read_only: status & 0x10 != 0,
            grouping_identity: format & 0x40 != 0,
            compression: format & 0x08 != 0,
            encryption: format & 0x04 != 0,
            unsynchronization: format & 0x02 != 0,
            data_length_indicator: format & 0x01 != 0,
        }
    } else {
        FrameFlags {
            tag_alter_preservation: status & 0x80 != 0,
            file_alter_preservation: status & 0x40 != 0,
            read_only: status & 0x20 != 0,
            compression: format & 0x80 != 0,
            encryption: format & 0x40 != 0,
            grouping_identity: format & 0x20 != 0,
            unsynchronization: false,
            data_length_indicator: false,
        }
    }
}

/// The four bytes that a frame identifier is written as, where it can be written.
fn id_bytes(id: &str) -> (r: Option<Vec<u8>>)
    ensures
        r is Some <==> writable_id(id@),
        r matches Some(v) ==> v@ == spec_id_bytes(id@),
{
    let chars = chars_of(id);
    let count = chars.len();
    if count != 4 && count != 3 {
        return None;
    }
    let mut out: Vec<u8> = Vec::new();
    let mut i: usize = 0;
    while i < count
        invariant
            i <= count,
            count == 3 || count == 4,
            chars@.len() == count,
            chars@ == id@,
            out@.len() == i,
            forall|k: int| 0 <= k < i ==> valid_id_char(#[trigger] chars@[k]),
            forall|k: int| 0 <= k < i ==> out@[k] == chars@[k] as u8,
        decreases count - i,
    {
        let c: char = chars[i];
        proof {
            lemma_char_code(c);
        }
        if !((c >= 'A' && c <= 'Z') || (c >= '0' && c <= '9')) {
            assert(!valid_id_char(id@[i as int]));
            return None;
        }
        out.push(c as u8);
        i += 1;
    }
    assert(out@ =~= latin1_bytes(id@));
    if count == 3 {
        out.push(0);
    }
    Some(out)
}

impl Frame {
    /// The bytes of the frame in a tag of the given version: identifier, size, flags,
    /// payload.
    ///
    /// Fails with `UnsupportedFeature` for a version other than 3 and 4, and with
    /// `InvalidInput` where the identifier is not made of four or of three capital
    /// letters or digits, where a text of the payload cannot be written in its encoding,
    /// and where the payload is too long for the size field.
    pub fn to_bytes(&self, version: u8) -> (r: Result<Vec<u8>, TagError>)
        ensures
            match spec_frame_bytes(self@, version) {
                Ok(bytes) => r matches Ok(v) && v@ == bytes,
                Err(kind) => r matches Err(e) && e.kind == kind,
            },
    {
        reveal(spec_frame_bytes);
        if version != 3 && version != 4 {
            return Err(TagError::new(ErrorKind::UnsupportedFeature));
        }
        let mut out = match id_bytes(self.id.as_str()) {
            Some(bytes) => bytes,
            None => {
                return Err(TagError::new(ErrorKind::InvalidInput));
            },
        };
        let payload = match encode_contents(&self.contents, self.encoding) {
            Ok(payload) => payload,
            Err(e) => {
                return Err(e);
            },
        };
        let limit: u64 = if version == 4 {
            0x1000_0000
        } else {
            0x1_0000_0000
        };
        if payload.len() as u64 >= limit {
            return Err(TagError::new(ErrorKind::InvalidInput));
        }
        let size: u32 = payload.len() as u32;
        if version == 4 {
            put_be32(&mut out, synchsafe(size));
        } else {
            put_be32(&mut out, size);
        }
        let (status, format) = flag_bytes(&self.flags, version);
        out.push(status);
        out.push(format);
        append_bytes(&mut out, payload.as_slice());
        assert(out@ =~= spec_id_bytes(self@.id) + spec_size_bytes(size, version) + seq![
            status,
            format,
        ] + payload@);
        Ok(out)
    }

    /// Reads the frame that stands at `pos` in `bytes`, in a tag of the given version.
    pub fn read(version: u8, bytes: &[u8], pos: usize) -> (r: FrameRead)
        ensures
            r@ == spec_read_frame(version, bytes@, pos as int),
            r matches FrameRead::Frame(frame, next) ==> pos + spec_header_len(version) <= next
                <= bytes@.len() && frame@.uuid == Seq::<u8>::empty() && frame@.offset == pos,
            r matches FrameRead::Unsupported(next) ==> pos + spec_header_len(version) <= next
                <= bytes@.len(),
    {
        reveal(spec_read_frame);
        if version != 2 && version != 3 && version != 4 {
            return FrameRead::Failed(TagError::new(ErrorKind::InvalidInput));
        }
        let len = bytes.len();
        let id_len: usize = if version == 2 {
            3
        } else {
            4
        };
        let header_len: usize = if version == 2 {
            6
        } else {
            10
        };
        if pos > len || len - pos < id_len {
            return FrameRead::Failed(TagError::new(ErrorKind::InvalidInput));
        }
        if is_padding(bytes, pos, id_len) {
            return FrameRead::Padding;
        }
        if len - pos < header_len {
            return FrameRead::Failed(TagError::new(ErrorKind::InvalidInput));
        }
        let id_chars = match read_id(bytes, pos, id_len) {
            Some(id_chars) => id_chars,
            None => {
                return FrameRead::Failed(TagError::new(ErrorKind::InvalidInput));
            },
        };
        let size: u32 = read_size(bytes, pos, version);
        let flags = if version == 2 {
            FrameFlags::new()
        } else {
            flags_from(bytes[pos + 8], bytes[pos + 9], version)
        };
        if size as usize > len - pos - header_len {
            return FrameRead::Failed(TagError::new(ErrorKind::InvalidInput));
        }
        let next: usize = pos + header_len + size as usize;
        if flags.unsupported() {
            return FrameRead::Unsupported(next);
        }
        read_body(version, &id_chars, flags, &bytes[pos + header_len..next], pos, next)
    }
}

/// Reads the payload of the frame whose header stands at `pos`.
fn read_body(
    version: u8,
    raw: &Vec<char>,
    flags: FrameFlags,
    payload: &[u8],
    pos: usize,
    next: usize,
) -> (r: FrameRead)
    requires
        version == 2 ==> raw@.len() == 3,
    ensures
        r@ == spec_read_body(version, raw@, flags, payload@, pos as int, next as int),
        r matches FrameRead::Frame(frame, n) ==> n == next && frame@.uuid == Seq::<u8>::empty()
            && frame@.offset == pos,
        !(r is Unsupported),
        !(r is Padding),
{
    let (id, kind) = resolve_id(raw, version);
    match parse_contents(kind, payload, version == 2) {
        Ok((encoding, contents)) => FrameRead::Frame(
            Frame { uuid: Vec::new(), id, encoding, flags, contents, offset: pos as u64 },
            next,
        ),
        Err(e) => FrameRead::Failed(e),
    }
}

/// Whether the identifier at `pos` is made of zero bytes.
fn is_padding(bytes: &[u8], pos: usize, id_len: usize) -> (r: bool)
    requires
        id_len == 3 || id_len == 4,
        pos + id_len <= bytes@.len(),
    ensures
        r == (bytes@.subrange(pos as int, pos + id_len) == zeros(id_len as int)),
{
    let ghost id_seq = bytes@.subrange(pos as int, pos + id_len);
    let all_zero = bytes[pos] == 0 && bytes[pos + 1] == 0 && bytes[pos + 2] == 0 && (id_len == 3
        || bytes[pos + 3] == 0);
    proof {
        if all_zero {
            assert(id_seq =~= zeros(id_len as int));
        } else if id_seq == zeros(id_len as int) {
            assert(id_seq[0] == 0 && id_seq[1] == 0 && id_seq[2] == 0);
            if id_len == 4 {
                assert(id_seq[3] == 0);
            }
        }
    }
    all_zero
}

/// The identifier that the identifier field at `pos` holds.
fn read_id(bytes: &[u8], pos: usize, id_len: usize) -> (r: Option<Vec<char>>)
    requires
        id_len == 3 || id_len == 4,
        pos + id_len <= bytes@.len(),
    ensures
        match spec_id_of(bytes@.subrange(pos as int, pos + id_len)) {
            Some(id) => r matches Some(v) && v@ == id,
            None => r is None,
        },
{
    let ghost field = bytes@.subrange(pos as int, pos + id_len);
    let len = bytes.len();
    match read_chars(bytes, pos, id_len) {
        Some(id) => Some(id),
        None => {
            if id_len == 4 && bytes[pos + 3] == 0 {
                assert(field[3] == 0);
                assert(field.take(3) =~= bytes@.subrange(pos as int, pos + 3));
                read_chars(bytes, pos, 3)
            } else {
                None
            }
        },
    }
}

/// The characters of the `id_len` bytes at `pos`, where they are capital letters or
/// digits.
fn read_chars(bytes: &[u8], pos: usize, id_len: usize) -> (r: Option<Vec<char>>)
    requires
        pos + id_len <= bytes@.len(),
    ensures
        r is Some <==> valid_id(
            latin1_text(bytes@.subrange(pos as int, pos + id_len)),
            id_len as int,
        ),
        r matches Some(v) ==> v@ == latin1_text(bytes@.subrange(pos as int, pos + id_len)),
{
    let ghost raw = latin1_text(bytes@.subrange(pos as int, pos + id_len));
    let len = bytes.len();
    let mut id_chars: Vec<char> = Vec::new();
    let mut i: usize = 0;
    while i < id_len
        invariant
            i <= id_len,
            pos + id_len <= bytes@.len() <= usize::MAX,
            raw == latin1_text(bytes@.subrange(pos as int, pos + id_len)),
            id_chars@.len() == i,
            forall|k: int| 0 <= k < i ==> id_chars@[k] == raw[k],
            forall|k: int| 0 <= k < i ==> valid_id_char(#[trigger] raw[k]),
        decreases id_len - i,
    {
        let b: u8 = bytes[pos + i];
        assert(raw[i as int] == b as char);
        if !valid_id_byte(b) {
            return None;
        }
        id_chars.push(b as char);
        i += 1;
    }
    assert(id_chars@ =~= raw);
    Some(id_chars)
}

/// The payload length that the header at `pos` holds.
fn read_size(bytes: &[u8], pos: usize, version: u8) -> (size: u32)
    requires
        version == 2 || version == 3 || version == 4,
        pos + spec_header_len(version) <= bytes@.len(),
    ensures
        size == spec_size_value(
            bytes@.subrange(pos + spec_id_len(version), pos + spec_header_len(version)),
            version,
        ),
{
    let ghost size_seq = bytes@.subrange(
        pos + spec_id_len(version),
        pos + spec_header_len(version),
    );
    let len = bytes.len();
    if version == 2 {
        assert(size_seq =~= bytes@.subrange(pos + 3, pos + 3 + 3));
        get_be24(bytes, pos + 3)
    } else {
        let ghost four = bytes@.subrange(pos + 4, pos + 4 + 4);
        assert(four[0] == size_seq[0] && four[1] == size_seq[1] && four[2] == size_seq[2]
            && four[3] == size_seq[3]);
        let n = get_be32(bytes, pos + 4);
        if version == 4 {
            unsynchsafe(n)
        } else {
            n
        }
    }
}

/// The identifier and the layout of a frame whose header holds the characters `raw`.
fn resolve_id(raw: &Vec<char>, version: u8) -> (r: (String, Kind))
    requires
        version == 2 ==> raw@.len() == 3,
    ensures
        (r.0@, r.1) == spec_resolve_id(raw@, version),
{
    if version == 2 {
        assert(raw@ =~= seq![raw@[0], raw@[1], raw@[2]]);
        match upgrade_id(raw[0], raw[1], raw[2]) {
            Some(found) => {
                let mut upgraded: Vec<char> = Vec::new();
                upgraded.push(found[0]);
                upgraded.push(found[1]);
                upgraded.push(found[2]);
                upgraded.push(found[3]);
                assert(upgraded@ =~= found@);
                let id = string_of(&upgraded);
                let kind = kind_of(id.as_str());
                (id, kind)
            },
            None => (string_of(raw), Kind::Raw),
        }
    } else {
        let id = string_of(raw);
        let kind = if raw.len() == 3 {
            Kind::Raw
        } else {
            kind_of(id.as_str())
        };
        (id, kind)
    }
}

} // verus!
