//! How the payload of each kind of frame is laid out in bytes.

use crate::error::ErrorKind;
use crate::frame::ContentsView;
use crate::picture::{PictureType, PictureView};
use crate::text::{
    latin1_text, spec_decode, spec_encode, spec_encode_terminated, spec_split_once_null,
    trim_nulls, Encoding,
};
use vstd::prelude::*;

verus! {

/// The layout that a frame identifier selects.
#[derive(Clone, Copy, Debug, PartialEq, Eq, Structural)]
pub enum Kind {
    Text,
    ExtendedText,
    Link,
    ExtendedLink,
    Lyrics,
    Comment,
    Picture,
    Raw,
}

pub open spec fn id_txxx() -> Seq<char> {
    seq!['T', 'X', 'X', 'X']
}

pub open spec fn id_wxxx() -> Seq<char> {
    seq!['W', 'X', 'X', 'X']
}

pub open spec fn id_uslt() -> Seq<char> {
    seq!['U', 'S', 'L', 'T']
}

pub open spec fn id_comm() -> Seq<char> {
    seq!['C', 'O', 'M', 'M']
}

pub open spec fn id_apic() -> Seq<char> {
    seq!['A', 'P', 'I', 'C']
}

/// The layout of the frames with the given identifier: the five identifiers with a
/// layout of their own, then text for `T...`, a link for `W...`, and raw bytes for the
/// rest.
pub open spec fn spec_kind(id: Seq<char>) -> Kind {
    if id == id_txxx() {
        Kind::ExtendedText
    } else if id == id_wxxx() {
        Kind::ExtendedLink
    } else if id == id_uslt() {
        Kind::Lyrics
    } else if id == id_comm() {
        Kind::Comment
    } else if id == id_apic() {
        Kind::Picture
    } else if id.len() > 0 && id[0] == 'T' {
        Kind::Text
    } else if id.len() > 0 && id[0] == 'W' {
        Kind::Link
    } else {
        Kind::Raw
    }
}

/// The language that comments and lyrics are written with: `eng`.
pub open spec fn language() -> Seq<u8> {
    seq![0x65u8, 0x6Eu8, 0x67u8]
}

/// `first` followed by `second`, where both are there.
pub open spec fn cat(first: Option<Seq<u8>>, second: Option<Seq<u8>>) -> Option<Seq<u8>> {
    match (first, second) {
        (Some(a), Some(b)) => Some(a + b),
        _ => None,
    }
}

/// The Latin-1 bytes of a text that has them.
pub open spec fn spec_latin1(text: Seq<char>) -> Option<Seq<u8>> {
    spec_encode(text, Encoding::Latin1)
}

/// The bytes of a payload, with its text in `encoding`. None where a text cannot be
/// written in the encoding that the layout asks for.
///
/// Text: encoding byte, text. Extended text: encoding byte, terminated key, value.
/// Link: the URL in Latin-1. Extended link: encoding byte, terminated description, URL in
/// Latin-1. Lyrics and comment: encoding byte, language, terminated description (empty
/// for lyrics), text. Picture: encoding byte, MIME type in Latin-1 with a zero byte, role,
/// terminated description, image data. Raw: the bytes.
#[verifier::opaque]
pub open spec fn spec_payload(contents: ContentsView, encoding: Encoding) -> Option<Seq<u8>> {
    let lead = Some(seq![encoding.spec_byte()]);
    match contents {
        ContentsView::Text(s) => cat(lead, spec_encode(s, encoding)),
        ContentsView::ExtendedText(k, v) => cat(
            cat(lead, spec_encode_terminated(k, encoding)),
            spec_encode(v, encoding),
        ),
        ContentsView::Link(s) => spec_latin1(s),
        ContentsView::ExtendedLink(d, u) => cat(
            cat(lead, spec_encode_terminated(d, encoding)),
            spec_latin1(u),
        ),
        ContentsView::Lyrics(s) => cat(
            cat(cat(lead, Some(language())), spec_encode_terminated(Seq::empty(), encoding)),
            spec_encode(s, encoding),
        ),
        ContentsView::Comment(d, t) => cat(
            cat(cat(lead, Some(language())), spec_encode_terminated(d, encoding)),
            spec_encode(t, encoding),
        ),
        ContentsView::Picture(p) => cat(
            cat(
                cat(
                    cat(lead, spec_encode_terminated(p.mime_type, Encoding::Latin1)),
                    Some(seq![p.picture_type.spec_byte()]),
                ),
                spec_encode_terminated(p.description, encoding),
            ),
            Some(p.data),
        ),
        ContentsView::Raw(b) => Some(b),
    }
}

/// The MIME type that a three-letter image format of version 2.2 stands for: `JPG` and
/// `PNG` are known.
pub open spec fn spec_legacy_mime(format: Seq<u8>) -> Option<Seq<char>> {
    if format == seq![0x4Au8, 0x50u8, 0x47u8] {
        Some(seq!['i', 'm', 'a', 'g', 'e', '/', 'j', 'p', 'e', 'g'])
    } else if format == seq![0x50u8, 0x4Eu8, 0x47u8] {
        Some(seq!['i', 'm', 'a', 'g', 'e', '/', 'p', 'n', 'g'])
    } else {
        None
    }
}

/// The encoding that the first byte of a payload selects.
pub open spec fn spec_lead(payload: Seq<u8>) -> Option<Encoding> {
    if payload.len() == 0 {
        None
    } else {
        Encoding::spec_from_byte(payload[0])
    }
}

/// A terminated description in `encoding` followed by a text in `last`, the encoding of
/// what follows the description.
pub open spec fn spec_parse_pair(bytes: Seq<u8>, encoding: Encoding, last: Encoding) -> Result<
    (Seq<char>, Seq<char>),
    ErrorKind,
> {
    match spec_split_once_null(bytes, encoding) {
        None => Err(ErrorKind::InvalidInput),
        Some((before, after)) => match (spec_decode(before, encoding), spec_decode(after, last)) {
            (Some(first), Some(second)) => Ok((first, second)),
            _ => Err(ErrorKind::StringDecoding),
        },
    }
}

/// What stands in a picture payload after the encoding byte and the MIME type: role,
/// terminated description, image data.
#[verifier::opaque]
pub open spec fn spec_parse_picture_body(
    mime_type: Seq<char>,
    rest: Seq<u8>,
    encoding: Encoding,
) -> Result<ContentsView, ErrorKind> {
    if rest.len() == 0 {
        Err(ErrorKind::InvalidInput)
    } else {
        match (
            PictureType::spec_from_byte(rest[0]),
            spec_split_once_null(rest.skip(1), encoding),
        ) {
            (Some(picture_type), Some((before, data))) => match spec_decode(before, encoding) {
                Some(description) => Ok(
                    ContentsView::Picture(
                        PictureView { mime_type, picture_type, description, data },
                    ),
                ),
                None => Err(ErrorKind::StringDecoding),
            },
            _ => Err(ErrorKind::InvalidInput),
        }
    }
}

/// What follows the encoding byte of a payload of the given kind.
///
/// `InvalidInput` where the layout is broken: a terminator, the language, the image
/// format or the role is missing or unknown. `StringDecoding` where the layout holds but
/// a text is not well-formed in its encoding.
pub open spec fn spec_parse_encoded(kind: Kind, rest: Seq<u8>, encoding: Encoding, legacy: bool)
    -> Result<ContentsView, ErrorKind> {
    match kind {
        Kind::Text => match spec_decode(rest, encoding) {
            Some(text) => Ok(ContentsView::Text(trim_nulls(text))),
            None => Err(ErrorKind::StringDecoding),
        },
        Kind::ExtendedText => match spec_parse_pair(rest, encoding, encoding) {
            Ok((key, value)) => Ok(ContentsView::ExtendedText(key, value)),
            Err(e) => Err(e),
        },
        Kind::ExtendedLink => match spec_parse_pair(rest, encoding, Encoding::Latin1) {
            Ok((description, url)) => Ok(ContentsView::ExtendedLink(description, url)),
            Err(e) => Err(e),
        },
        Kind::Lyrics => if rest.len() < 3 {
            Err(ErrorKind::InvalidInput)
        } else {
            match spec_parse_pair(rest.skip(3), encoding, encoding) {
                Ok((_, text)) => Ok(ContentsView::Lyrics(text)),
                Err(e) => Err(e),
            }
        },
        Kind::Comment => if rest.len() < 3 {
            Err(ErrorKind::InvalidInput)
        } else {
            match spec_parse_pair(rest.skip(3), encoding, encoding) {
                Ok((description, text)) => Ok(ContentsView::Comment(description, text)),
                Err(e) => Err(e),
            }
        },
        Kind::Picture => if legacy {
            if rest.len() < 3 {
                Err(ErrorKind::InvalidInput)
            } else {
                match spec_legacy_mime(rest.take(3)) {
                    Some(mime_type) => spec_parse_picture_body(mime_type, rest.skip(3), encoding),
                    None => Err(ErrorKind::InvalidInput),
                }
            }
        } else {
            match spec_split_once_null(rest, Encoding::Latin1) {
                Some((before, after)) => spec_parse_picture_body(
                    latin1_text(before),
                    after,
                    encoding,
                ),
                None => Err(ErrorKind::InvalidInput),
            }
        },
        Kind::Link => Ok(ContentsView::Link(latin1_text(rest))),
        Kind::Raw => Ok(ContentsView::Raw(rest)),
    }
}

/// The encoding and contents that a payload of the given kind stands for. `legacy` asks
/// for the picture layout of version 2.2, where a three-letter image format stands in
/// place of the MIME type.
///
/// Links and raw bytes carry no encoding byte and are given Latin-1. Every other kind
/// starts with an encoding byte; without one that is known the payload is `InvalidInput`.
#[verifier::opaque]
pub open spec fn spec_parse_payload(kind: Kind, payload: Seq<u8>, legacy: bool) -> Result<
    (Encoding, ContentsView),
    ErrorKind,
> {
    if kind == Kind::Link || kind == Kind::Raw {
        match spec_parse_encoded(kind, payload, Encoding::Latin1, legacy) {
            Ok(contents) => Ok((Encoding::Latin1, contents)),
            Err(e) => Err(e),
        }
    } else {
        match spec_lead(payload) {
            None => Err(ErrorKind::InvalidInput),
            Some(encoding) => match spec_parse_encoded(kind, payload.skip(1), encoding, legacy) {
                Ok(contents) => Ok((encoding, contents)),
                Err(e) => Err(e),
            },
        }
    }
}

} // verus!
