//! What holds of the frame codec: reading gives back the frame that was written.

use crate::chars::lemma_char_code;
use crate::error::ErrorKind;
use crate::flags::bit_if;
use crate::frame::{ContentsView, FrameFlags, FrameView};
use crate::legacy::{spec_legacy_row, spec_upgrade_id, LEGACY_COUNT, LEGACY_IDS};
use crate::payload::{
    language, spec_lead, spec_legacy_mime, spec_parse_pair, spec_parse_payload, spec_parse_picture_body,
    spec_payload, Kind,
};
use crate::picture::{PictureType, PictureView};
use crate::synchsafe::{lemma_unsynchsafe_of_synchsafe, spec_synchsafe};
use crate::text::{
    is_latin1, latin1_bytes, latin1_text, spec_decode, spec_encode, spec_encode_terminated,
    spec_split_once_null, trim_nulls, zeros, Encoding,
};
use crate::text_laws::{
    lemma_codec_round_trip, lemma_decoded_encodes, lemma_encodes, lemma_latin1_encoded,
    lemma_latin1_round_trip, lemma_latin1_text_is_latin1, lemma_trimmed_encodes,
    lemma_split_terminated, no_nulls,
};
use crate::wire::{
    be32, be32_value, spec_flags_from, spec_format_byte, spec_frame_bytes, spec_read_frame,
    spec_frame_kind, spec_id_bytes, spec_id_of, spec_size_bytes, spec_size_limit,
    spec_size_value, spec_status_byte, valid_id, valid_id_char, writable_id,
    ReadView,
};
use vstd::prelude::*;

verus! {

/// Whether the payload is of the kind `kind` and is one that the frame codec can give
/// back: no zero character stands in a text that is written with a terminator, and a
/// payload without encoding byte goes with Latin-1.
pub open spec fn canonical_payload(contents: ContentsView, encoding: Encoding, kind: Kind) -> bool {
    match contents {
        ContentsView::Text(_) => kind == Kind::Text,
        ContentsView::ExtendedText(key, _) => kind == Kind::ExtendedText && no_nulls(key),
        ContentsView::Link(_) => kind == Kind::Link && encoding == Encoding::Latin1,
        ContentsView::ExtendedLink(description, _) => kind == Kind::ExtendedLink && no_nulls(
            description,
        ),
        ContentsView::Lyrics(_) => kind == Kind::Lyrics,
        ContentsView::Comment(description, _) => kind == Kind::Comment && no_nulls(description),
        ContentsView::Picture(p) => kind == Kind::Picture && no_nulls(p.mime_type) && no_nulls(
            p.description,
        ),
        ContentsView::Raw(_) => kind == Kind::Raw && encoding == Encoding::Latin1,
    }
}

/// Whether only flags are set that are written with the frame.
pub open spec fn writable_flags(flags: FrameFlags) -> bool {
    !flags.compression && !flags.encryption && !flags.unsynchronization
        && !flags.data_length_indicator
}

/// Whether the frame is one that the frame codec can give back: its payload is of the
/// kind that its identifier selects and canonical, and only flags are set that are
/// written.
pub open spec fn canonical(frame: FrameView) -> bool {
    canonical_payload(frame.contents, frame.encoding, spec_frame_kind(frame.id)) && writable_flags(
        frame.flags,
    )
}

/// The payload as it is read back: a text has lost the zero characters at its end.
pub open spec fn settled(contents: ContentsView) -> ContentsView {
    match contents {
        ContentsView::Text(text) => ContentsView::Text(trim_nulls(text)),
        _ => contents,
    }
}

/// The byte of a role stands for that role.
pub proof fn lemma_picture_type_round_trip(picture_type: PictureType)
    ensures
        PictureType::spec_from_byte(picture_type.spec_byte()) == Some(picture_type),
{
}

/// The byte of an encoding stands for that encoding.
pub proof fn lemma_encoding_round_trip(encoding: Encoding)
    ensures
        Encoding::spec_from_byte(encoding.spec_byte()) == Some(encoding),
{
}

/// A terminated description and the text behind it are read back as they were written.
pub proof fn lemma_pair_round_trip(
    first: Seq<char>,
    second: Seq<char>,
    encoding: Encoding,
    last: Encoding,
)
    requires
        no_nulls(first),
        spec_encode(first, encoding) is Some,
        spec_encode(second, last) is Some,
    ensures
        spec_parse_pair(
            spec_encode_terminated(first, encoding)->0 + spec_encode(second, last)->0,
            encoding,
            last,
        ) == Ok::<(Seq<char>, Seq<char>), ErrorKind>((first, second)),
{
    lemma_split_terminated(first, encoding, spec_encode(second, last)->0);
    lemma_codec_round_trip(first, encoding);
    lemma_codec_round_trip(second, last);
}

/// A text payload is read back without the zero characters at its end.
proof fn lemma_text_payload(text: Seq<char>, encoding: Encoding)
    requires
        spec_encode(text, encoding) is Some,
    ensures
        spec_parse_payload(
            Kind::Text,
            spec_payload(ContentsView::Text(text), encoding)->0,
            false,
        ) == Ok::<(Encoding, ContentsView), ErrorKind>(
            (encoding, ContentsView::Text(trim_nulls(text))),
        ),
{
    reveal(spec_payload);
    reveal(spec_parse_payload);
    let payload = spec_payload(ContentsView::Text(text), encoding)->0;
    let body = spec_encode(text, encoding)->0;
    lemma_encoding_round_trip(encoding);
    assert(payload == seq![encoding.spec_byte()] + body);
    assert(payload.skip(1) =~= body);
    assert(spec_lead(payload) == Some(encoding));
    lemma_codec_round_trip(text, encoding);
}

/// What stands behind the encoding byte of a payload that starts with one.
proof fn lemma_behind_lead(encoding: Encoding, tail: Seq<u8>)
    ensures
        spec_lead(seq![encoding.spec_byte()] + tail) == Some(encoding),
        (seq![encoding.spec_byte()] + tail).skip(1) == tail,
{
    lemma_encoding_round_trip(encoding);
    assert((seq![encoding.spec_byte()] + tail).skip(1) =~= tail);
}

/// A user-defined text is read back as it was written.
proof fn lemma_extended_text_payload(key: Seq<char>, value: Seq<char>, encoding: Encoding)
    requires
        no_nulls(key),
        spec_payload(ContentsView::ExtendedText(key, value), encoding) is Some,
    ensures
        spec_parse_payload(
            Kind::ExtendedText,
            spec_payload(ContentsView::ExtendedText(key, value), encoding)->0,
            false,
        ) == Ok::<(Encoding, ContentsView), ErrorKind>(
            (encoding, ContentsView::ExtendedText(key, value)),
        ),
{
    reveal(spec_payload);
    reveal(spec_parse_payload);
    let payload = spec_payload(ContentsView::ExtendedText(key, value), encoding)->0;
    let tail = spec_encode_terminated(key, encoding)->0 + spec_encode(value, encoding)->0;
    assert(payload =~= seq![encoding.spec_byte()] + tail);
    lemma_behind_lead(encoding, tail);
    lemma_pair_round_trip(key, value, encoding, encoding);
}

/// A described link is read back as it was written.
proof fn lemma_extended_link_payload(description: Seq<char>, url: Seq<char>, encoding: Encoding)
    requires
        no_nulls(description),
        spec_payload(ContentsView::ExtendedLink(description, url), encoding) is Some,
    ensures
        spec_parse_payload(
            Kind::ExtendedLink,
            spec_payload(ContentsView::ExtendedLink(description, url), encoding)->0,
            false,
        ) == Ok::<(Encoding, ContentsView), ErrorKind>(
            (encoding, ContentsView::ExtendedLink(description, url)),
        ),
{
    reveal(spec_payload);
    reveal(spec_parse_payload);
    let payload = spec_payload(ContentsView::ExtendedLink(description, url), encoding)->0;
    let tail = spec_encode_terminated(description, encoding)->0 + spec_encode(
        url,
        Encoding::Latin1,
    )->0;
    assert(payload =~= seq![encoding.spec_byte()] + tail);
    lemma_behind_lead(encoding, tail);
    lemma_pair_round_trip(description, url, encoding, Encoding::Latin1);
}

/// What stands behind the encoding byte and the language of a payload.
proof fn lemma_behind_language(encoding: Encoding, tail: Seq<u8>)
    ensures
        spec_lead(seq![encoding.spec_byte()] + language() + tail) == Some(encoding),
        (seq![encoding.spec_byte()] + language() + tail).skip(1).len() >= 3,
        (seq![encoding.spec_byte()] + language() + tail).skip(1).skip(3) == tail,
{
    lemma_encoding_round_trip(encoding);
    let payload = seq![encoding.spec_byte()] + language() + tail;
    assert(payload.skip(1).skip(3) =~= tail);
}

/// Lyrics are read back as they were written.
proof fn lemma_lyrics_payload(text: Seq<char>, encoding: Encoding)
    requires
        spec_payload(ContentsView::Lyrics(text), encoding) is Some,
    ensures
        spec_parse_payload(
            Kind::Lyrics,
            spec_payload(ContentsView::Lyrics(text), encoding)->0,
            false,
        ) == Ok::<(Encoding, ContentsView), ErrorKind>((encoding, ContentsView::Lyrics(text))),
{
    reveal(spec_payload);
    reveal(spec_parse_payload);
    let payload = spec_payload(ContentsView::Lyrics(text), encoding)->0;
    let tail = spec_encode_terminated(Seq::empty(), encoding)->0 + spec_encode(text, encoding)->0;
    assert(payload =~= seq![encoding.spec_byte()] + language() + tail);
    lemma_behind_language(encoding, tail);
    lemma_pair_round_trip(Seq::empty(), text, encoding, encoding);
}

/// A comment is read back as it was written.
proof fn lemma_comment_payload(description: Seq<char>, text: Seq<char>, encoding: Encoding)
    requires
        no_nulls(description),
        spec_payload(ContentsView::Comment(description, text), encoding) is Some,
    ensures
        spec_parse_payload(
            Kind::Comment,
            spec_payload(ContentsView::Comment(description, text), encoding)->0,
            false,
        ) == Ok::<(Encoding, ContentsView), ErrorKind>(
            (encoding, ContentsView::Comment(description, text)),
        ),
{
    reveal(spec_payload);
    reveal(spec_parse_payload);
    let payload = spec_payload(ContentsView::Comment(description, text), encoding)->0;
    let tail = spec_encode_terminated(description, encoding)->0 + spec_encode(text, encoding)->0;
    assert(payload =~= seq![encoding.spec_byte()] + language() + tail);
    lemma_behind_language(encoding, tail);
    lemma_pair_round_trip(description, text, encoding, encoding);
}

/// The role, the description and the data of a picture are read back as they were
/// written.
proof fn lemma_picture_body(p: PictureView, encoding: Encoding)
    requires
        no_nulls(p.description),
        spec_encode(p.description, encoding) is Some,
    ensures
        spec_parse_picture_body(
            p.mime_type,
            seq![p.picture_type.spec_byte()] + spec_encode_terminated(p.description, encoding)->0
                + p.data,
            encoding,
        ) == Ok::<ContentsView, ErrorKind>(ContentsView::Picture(p)),
{
    reveal(spec_parse_picture_body);
    let description = spec_encode_terminated(p.description, encoding)->0;
    let rest = seq![p.picture_type.spec_byte()] + description + p.data;
    lemma_picture_type_round_trip(p.picture_type);
    assert(rest[0] == p.picture_type.spec_byte());
    assert(rest.skip(1) =~= description + p.data);
    lemma_split_terminated(p.description, encoding, p.data);
    lemma_codec_round_trip(p.description, encoding);
}

/// A picture is read back as it was written.
proof fn lemma_picture_payload(p: PictureView, encoding: Encoding)
    requires
        no_nulls(p.mime_type),
        no_nulls(p.description),
        spec_payload(ContentsView::Picture(p), encoding) is Some,
    ensures
        spec_parse_payload(
            Kind::Picture,
            spec_payload(ContentsView::Picture(p), encoding)->0,
            false,
        ) == Ok::<(Encoding, ContentsView), ErrorKind>((encoding, ContentsView::Picture(p))),
{
    reveal(spec_payload);
    reveal(spec_parse_payload);
    let payload = spec_payload(ContentsView::Picture(p), encoding)->0;
    let mime = spec_encode_terminated(p.mime_type, Encoding::Latin1)->0;
    let behind_mime = seq![p.picture_type.spec_byte()] + spec_encode_terminated(
        p.description,
        encoding,
    )->0 + p.data;
    assert(payload =~= seq![encoding.spec_byte()] + (mime + behind_mime));
    lemma_behind_lead(encoding, mime + behind_mime);
    lemma_split_terminated(p.mime_type, Encoding::Latin1, behind_mime);
    lemma_latin1_encoded(p.mime_type);
    lemma_picture_body(p, encoding);
}

/// A canonical payload is read back as it was written, but for the zero characters at
/// the end of a text: in every encoding, and for every kind of payload.
pub proof fn lemma_payload_round_trip(contents: ContentsView, encoding: Encoding, kind: Kind)
    requires
        canonical_payload(contents, encoding, kind),
        spec_payload(contents, encoding) is Some,
    ensures
        spec_parse_payload(kind, spec_payload(contents, encoding)->0, false) == Ok::<
            (Encoding, ContentsView),
            ErrorKind,
        >((encoding, settled(contents))),
{
    reveal(spec_payload);
    match contents {
        ContentsView::Text(text) => {
            lemma_text_payload(text, encoding);
        },
        ContentsView::ExtendedText(key, value) => {
            lemma_extended_text_payload(key, value, encoding);
        },
        ContentsView::Link(url) => {
            reveal(spec_parse_payload);
            lemma_latin1_encoded(url);
        },
        ContentsView::ExtendedLink(description, url) => {
            lemma_extended_link_payload(description, url, encoding);
        },
        ContentsView::Lyrics(text) => {
            lemma_lyrics_payload(text, encoding);
        },
        ContentsView::Comment(description, text) => {
            lemma_comment_payload(description, text, encoding);
        },
        ContentsView::Picture(p) => {
            lemma_picture_payload(p, encoding);
        },
        ContentsView::Raw(bytes) => {
            reveal(spec_parse_payload);
        },
    }
}

/// Four bytes hold the number that they were made of.
pub proof fn lemma_be32_round_trip(n: u32)
    ensures
        be32(n).len() == 4,
        be32_value(be32(n)) == n,
{
}

/// The flags that are written are read back as they were.
pub proof fn lemma_flags_round_trip(flags: FrameFlags, version: u8)
    requires
        writable_flags(flags),
        version == 3 || version == 4,
    ensures
        spec_flags_from(
            spec_status_byte(flags, version),
            spec_format_byte(flags, version),
            version,
        ) == flags,
{
    let a4 = bit_if(flags.tag_alter_preservation, 0x40);
    let b4 = bit_if(flags.file_alter_preservation, 0x20);
    let c4 = bit_if(flags.read_only, 0x10);
    let d4 = bit_if(flags.grouping_identity, 0x40);
    assert((a4 == 0 || a4 == 0x40) && (b4 == 0 || b4 == 0x20) && (c4 == 0 || c4 == 0x10) ==> ((a4
        | b4 | c4) & 0x40 != 0 <==> a4 != 0) && ((a4 | b4 | c4) & 0x20 != 0 <==> b4 != 0) && ((a4
        | b4 | c4) & 0x10 != 0 <==> c4 != 0)) by (bit_vector);
    assert((d4 == 0 || d4 == 0x40) ==> (d4 & 0x40 != 0 <==> d4 != 0) && d4 & 0x08 == 0 && d4
        & 0x04 == 0 && d4 & 0x02 == 0 && d4 & 0x01 == 0) by (bit_vector);
    let a3 = bit_if(flags.tag_alter_preservation, 0x80);
    let b3 = bit_if(flags.file_alter_preservation, 0x40);
    let c3 = bit_if(flags.read_only, 0x20);
    let d3 = bit_if(flags.grouping_identity, 0x20);
    assert((a3 == 0 || a3 == 0x80) && (b3 == 0 || b3 == 0x40) && (c3 == 0 || c3 == 0x20) ==> ((a3
        | b3 | c3) & 0x80 != 0 <==> a3 != 0) && ((a3 | b3 | c3) & 0x40 != 0 <==> b3 != 0) && ((a3
        | b3 | c3) & 0x20 != 0 <==> c3 != 0)) by (bit_vector);
    assert((d3 == 0 || d3 == 0x20) ==> (d3 & 0x20 != 0 <==> d3 != 0) && d3 & 0x80 == 0 && d3
        & 0x40 == 0) by (bit_vector);
}

/// The four bytes that an identifier is written as stand for that identifier, and are
/// no padding.
pub proof fn lemma_id_round_trip(id: Seq<char>)
    requires
        writable_id(id),
    ensures
        is_latin1(id),
        spec_id_bytes(id).len() == 4,
        spec_id_of(spec_id_bytes(id)) == Some(id),
        spec_id_bytes(id) != zeros(4),
{
    let field = spec_id_bytes(id);
    assert forall|i: int| 0 <= i < id.len() implies (#[trigger] id[i]) as u32 <= 0xFF by {
        lemma_char_code(id[i]);
        assert(valid_id_char(id[i]));
    }
    lemma_latin1_round_trip(id);
    lemma_char_code(id[0]);
    assert(valid_id_char(id[0]));
    assert(field[0] != 0);
    assert(zeros(4)[0] == 0);
    if id.len() == 3 {
        assert(field[3] == 0);
        assert(latin1_text(field)[3] == '\0');
        assert(!valid_id_char(latin1_text(field)[3]));
        assert(field.take(3) =~= latin1_bytes(id));
    }
}

/// How long the bytes of a frame are: ten bytes of header and the payload.
pub proof fn lemma_frame_len(frame: FrameView, version: u8)
    requires
        spec_frame_bytes(frame, version) is Ok,
    ensures
        version == 3 || version == 4,
        writable_id(frame.id),
        spec_payload(frame.contents, frame.encoding) is Some,
        spec_frame_bytes(frame, version)->Ok_0.len() == 10 + spec_payload(
            frame.contents,
            frame.encoding,
        )->0.len(),
        spec_payload(frame.contents, frame.encoding)->0.len() < spec_size_limit(version),
{
    reveal(spec_frame_bytes);
    lemma_id_round_trip(frame.id);
    let size = spec_payload(frame.contents, frame.encoding)->0.len() as u32;
    assert(spec_size_bytes(size, version).len() == 4);
}

/// Frame round trip: a canonical frame that was written into a file is read back from
/// there as it was, but for the zero characters at the end of a text. The frame that is
/// read has no identity yet and stands where it was written, and reading ends just past
/// its bytes.
pub proof fn lemma_frame_round_trip(frame: FrameView, version: u8, file: Seq<u8>, pos: int)
    requires
        canonical(frame),
        spec_frame_bytes(frame, version) is Ok,
        0 <= pos,
        pos + spec_frame_bytes(frame, version)->Ok_0.len() <= file.len(),
        file.subrange(pos, pos + spec_frame_bytes(frame, version)->Ok_0.len())
            == spec_frame_bytes(frame, version)->Ok_0,
    ensures
        spec_read_frame(version, file, pos) == (ReadView::Frame {
            frame: FrameView {
                uuid: Seq::empty(),
                offset: pos as u64,
                contents: settled(frame.contents),
                ..frame
            },
            next: pos + spec_frame_bytes(frame, version)->Ok_0.len(),
        }),
{
    reveal(spec_frame_bytes);
    reveal(spec_read_frame);
    let bytes = spec_frame_bytes(frame, version)->Ok_0;
    let payload = spec_payload(frame.contents, frame.encoding)->0;
    let size = payload.len() as u32;
    let id_bytes = spec_id_bytes(frame.id);
    let size_bytes = spec_size_bytes(size, version);
    let status = spec_status_byte(frame.flags, version);
    let format = spec_format_byte(frame.flags, version);
    lemma_frame_len(frame, version);
    lemma_id_round_trip(frame.id);
    assert(size_bytes.len() == 4);
    assert(bytes == id_bytes + size_bytes + seq![status, format] + payload);
    assert forall|k: int| 0 <= k < bytes.len() implies file[pos + k] == #[trigger] bytes[k] by {
        assert(file.subrange(pos, pos + bytes.len())[k] == file[pos + k]);
    }
    assert(file.subrange(pos, pos + 4) =~= id_bytes) by {
        assert forall|k: int| 0 <= k < 4 implies file.subrange(pos, pos + 4)[k] == id_bytes[k] by {
            assert(bytes[k] == id_bytes[k]);
        }
    }
    let in_file = file.subrange(pos + 4, pos + 10);
    assert(in_file[0] == size_bytes[0] && in_file[1] == size_bytes[1] && in_file[2]
        == size_bytes[2] && in_file[3] == size_bytes[3]) by {
        assert(bytes[4] == size_bytes[0]);
        assert(bytes[5] == size_bytes[1]);
        assert(bytes[6] == size_bytes[2]);
        assert(bytes[7] == size_bytes[3]);
    }
    assert(spec_size_value(in_file, version) == size) by {
        if version == 4 {
            lemma_be32_round_trip(spec_synchsafe(size));
            lemma_unsynchsafe_of_synchsafe(size);
            assert(be32_value(in_file) == be32_value(be32(spec_synchsafe(size))));
        } else {
            lemma_be32_round_trip(size);
            assert(be32_value(in_file) == be32_value(be32(size)));
        }
    }
    assert(file[pos + 8] == status && file[pos + 9] == format) by {
        assert(bytes[8] == status);
        assert(bytes[9] == format);
    }
    lemma_flags_round_trip(frame.flags, version);
    let next = pos + 10 + size;
    assert(file.subrange(pos + 10, next) =~= payload) by {
        assert forall|k: int| 0 <= k < payload.len() implies file.subrange(pos + 10, next)[k]
            == payload[k] by {
            assert(bytes[10 + k] == payload[k]);
        }
    }
    lemma_payload_round_trip(frame.contents, frame.encoding, spec_frame_kind(frame.id));
}

/// Whether a frame can be written in a tag of the given version: its identifier can be
/// written, every text of its payload can be written in the encoding that the layout
/// asks for, and the payload is not too long for the size field.
pub open spec fn writable(frame: FrameView, version: u8) -> bool {
    &&& writable_id(frame.id)
    &&& spec_payload(frame.contents, frame.encoding) is Some
    &&& spec_payload(frame.contents, frame.encoding)->0.len() < spec_size_limit(version)
}

/// When a frame is written: in version 3 and 4, and exactly where it is writable.
pub proof fn lemma_written_iff_writable(frame: FrameView, version: u8)
    ensures
        spec_frame_bytes(frame, version) is Ok <==> (version == 3 || version == 4) && writable(
            frame,
            version,
        ),
{
    reveal(spec_frame_bytes);
}

/// A description and a text that were read can be written again.
proof fn lemma_parsed_pair_writes(bytes: Seq<u8>, encoding: Encoding, last: Encoding)
    requires
        spec_parse_pair(bytes, encoding, last) is Ok,
    ensures
        spec_encode_terminated(spec_parse_pair(bytes, encoding, last)->Ok_0.0, encoding) is Some,
        spec_encode(spec_parse_pair(bytes, encoding, last)->Ok_0.1, last) is Some,
{
    let (before, after) = spec_split_once_null(bytes, encoding)->0;
    lemma_decoded_encodes(before, encoding);
    lemma_decoded_encodes(after, last);
}

/// The role, the description and the data of a picture that were read can be written
/// again.
proof fn lemma_parsed_picture_writes(mime_type: Seq<char>, rest: Seq<u8>, encoding: Encoding)
    requires
        spec_parse_picture_body(mime_type, rest, encoding) is Ok,
        spec_encode(mime_type, Encoding::Latin1) is Some,
    ensures
        spec_payload(spec_parse_picture_body(mime_type, rest, encoding)->Ok_0, encoding) is Some,
{
    reveal(spec_parse_picture_body);
    reveal(spec_payload);
    let (before, _) = spec_split_once_null(rest.skip(1), encoding)->0;
    lemma_decoded_encodes(before, encoding);
    lemma_encodes(mime_type, Encoding::Latin1);
}

/// The MIME types that the image formats of version 2.2 stand for can be written.
proof fn lemma_legacy_mime_writes(format: Seq<u8>)
    requires
        spec_legacy_mime(format) is Some,
    ensures
        spec_encode(spec_legacy_mime(format)->0, Encoding::Latin1) is Some,
{
    let mime = spec_legacy_mime(format)->0;
    lemma_encodes(mime, Encoding::Latin1);
    assert forall|i: int| 0 <= i < mime.len() implies (#[trigger] mime[i]) as u32 <= 0xFF by {
        lemma_char_code(mime[i]);
        if mime.len() == 10 {
            assert(mime =~= seq!['i', 'm', 'a', 'g', 'e', '/', 'j', 'p', 'e', 'g']);
        } else {
            assert(mime =~= seq!['i', 'm', 'a', 'g', 'e', '/', 'p', 'n', 'g']);
        }
    }
}

/// Every payload that was read can be written again, in the encoding it was read in.
pub proof fn lemma_parsed_payload_writes(kind: Kind, payload: Seq<u8>, legacy: bool)
    requires
        spec_parse_payload(kind, payload, legacy) is Ok,
    ensures
        spec_payload(
            spec_parse_payload(kind, payload, legacy)->Ok_0.1,
            spec_parse_payload(kind, payload, legacy)->Ok_0.0,
        ) is Some,
{
    reveal(spec_parse_payload);
    reveal(spec_payload);
    let (encoding, contents) = spec_parse_payload(kind, payload, legacy)->Ok_0;
    let rest = if kind == Kind::Link || kind == Kind::Raw {
        payload
    } else {
        payload.skip(1)
    };
    match kind {
        Kind::Text => {
            lemma_decoded_encodes(rest, encoding);
            lemma_trimmed_encodes(spec_decode(rest, encoding)->0, encoding);
        },
        Kind::ExtendedText => {
            lemma_parsed_pair_writes(rest, encoding, encoding);
        },
        Kind::ExtendedLink => {
            lemma_parsed_pair_writes(rest, encoding, Encoding::Latin1);
        },
        Kind::Lyrics => {
            lemma_parsed_pair_writes(rest.skip(3), encoding, encoding);
            lemma_encodes(Seq::empty(), encoding);
        },
        Kind::Comment => {
            lemma_parsed_pair_writes(rest.skip(3), encoding, encoding);
        },
        Kind::Picture => {
            if legacy {
                lemma_legacy_mime_writes(rest.take(3));
                lemma_parsed_picture_writes(
                    spec_legacy_mime(rest.take(3))->0,
                    rest.skip(3),
                    encoding,
                );
            } else {
                let (before, after) = spec_split_once_null(rest, Encoding::Latin1)->0;
                lemma_latin1_text_is_latin1(before);
                lemma_parsed_picture_writes(latin1_text(before), after, encoding);
            }
        },
        Kind::Link => {
            lemma_latin1_text_is_latin1(rest);
        },
        Kind::Raw => {},
    }
}

/// The identifier that an identifier field holds can be written.
pub proof fn lemma_read_id_writes(field: Seq<u8>)
    requires
        field.len() == 3 || field.len() == 4,
        spec_id_of(field) is Some,
    ensures
        writable_id(spec_id_of(field)->0),
{
}

/// The identifiers that took the place of those of version 2.2 are made of four capital
/// letters or digits.
pub proof fn lemma_upgraded_id_writes(raw: Seq<char>)
    requires
        spec_upgrade_id(raw) is Some,
    ensures
        valid_id(spec_upgrade_id(raw)->0, 4),
{
    let row = spec_legacy_row(raw, 0)->0;
    lemma_legacy_row(raw, 0);
    lemma_legacy_table(row);
}

/// A row that is found is a row of the table.
proof fn lemma_legacy_row(raw: Seq<char>, from: int)
    requires
        0 <= from,
        spec_legacy_row(raw, from) is Some,
    ensures
        from <= spec_legacy_row(raw, from)->0 < LEGACY_COUNT,
    decreases LEGACY_COUNT - from,
{
    if from < LEGACY_COUNT && spec_legacy_row(raw, from) != Some(from) {
        lemma_legacy_row(raw, from + 1);
    }
}

/// Every row of the table ends in four capital letters or digits.
proof fn lemma_legacy_table(row: int)
    requires
        0 <= row < LEGACY_COUNT,
    ensures
        valid_id_char(LEGACY_IDS[row][3]),
        valid_id_char(LEGACY_IDS[row][4]),
        valid_id_char(LEGACY_IDS[row][5]),
        valid_id_char(LEGACY_IDS[row][6]),
{
}

/// Every frame that is read can be written again, but for the length of its payload:
/// its identifier can be written, and so can every text of its payload in the encoding
/// that the layout asks for.
pub proof fn lemma_read_frame_writes(version: u8, file: Seq<u8>, pos: int)
    requires
        spec_read_frame(version, file, pos) is Frame,
    ensures
        writable_id(spec_read_frame(version, file, pos)->Frame_frame.id),
        spec_payload(
            spec_read_frame(version, file, pos)->Frame_frame.contents,
            spec_read_frame(version, file, pos)->Frame_frame.encoding,
        ) is Some,
{
    reveal(spec_read_frame);
    let id_len = crate::wire::spec_id_len(version);
    let header_len = crate::wire::spec_header_len(version);
    let field = file.subrange(pos, pos + id_len);
    let raw = spec_id_of(field)->0;
    let size = spec_size_value(file.subrange(pos + id_len, pos + header_len), version);
    let payload = file.subrange(pos + header_len, pos + header_len + size);
    let (id, kind) = crate::wire::spec_resolve_id(raw, version);
    lemma_read_id_writes(field);
    if version == 2 && spec_upgrade_id(raw) is Some {
        lemma_upgraded_id_writes(raw);
    }
    lemma_parsed_payload_writes(kind, payload, version == 2);
}

} // verus!
