//! Executable payload codec: contents to bytes and back.

use crate::chars::{append_bytes, bytes_of, str_eq, string_of};
use crate::error::{ErrorKind, TagError};
use crate::frame::Contents;
use crate::payload::{
    id_apic, id_comm, id_txxx, id_uslt, id_wxxx, language, spec_kind, spec_latin1,
    spec_legacy_mime, spec_parse_encoded, spec_parse_pair, spec_parse_payload,
    spec_parse_picture_body, spec_payload, Kind,
};
use crate::picture::{Picture, PictureType};
use crate::text::{spec_decode, spec_encode, spec_encode_terminated, Encoding};
use crate::transcode::{decode, encode, encode_terminated, split_once_null, trim_trailing_nulls};
use vstd::prelude::*;
use vstd::string::*;

verus! {

/// The layout that the frames with the given identifier have.
pub fn kind_of(id: &str) -> (kind: Kind)
    ensures
        kind == spec_kind(id@),
{
    proof {
        reveal_strlit("TXXX");
        reveal_strlit("WXXX");
        reveal_strlit("USLT");
        reveal_strlit("COMM");
        reveal_strlit("APIC");
        assert("TXXX"@ =~= id_txxx());
        assert("WXXX"@ =~= id_wxxx());
        assert("USLT"@ =~= id_uslt());
        assert("COMM"@ =~= id_comm());
        assert("APIC"@ =~= id_apic());
    }
    if str_eq(id, "TXXX") {
        Kind::ExtendedText
    } else if str_eq(id, "WXXX") {
        Kind::ExtendedLink
    } else if str_eq(id, "USLT") {
        Kind::Lyrics
    } else if str_eq(id, "COMM") {
        Kind::Comment
    } else if str_eq(id, "APIC") {
        Kind::Picture
    } else if id.unicode_len() > 0 && id.get_char(0) == 'T' {
        Kind::Text
    } else if id.unicode_len() > 0 && id.get_char(0) == 'W' {
        Kind::Link
    } else {
        Kind::Raw
    }
}

/// Appends the bytes of `text` in `encoding` to `out`, with a terminator if asked for.
/// On failure `out` holds what it held before.
fn put_text(out: &mut Vec<u8>, text: &str, encoding: Encoding, terminated: bool) -> (ok: bool)
    ensures
        ok <==> spec_encode(text@, encoding) is Some,
        ok ==> final(out)@ == old(out)@ + if terminated {
            spec_encode_terminated(text@, encoding)->0
        } else {
            spec_encode(text@, encoding)->0
        },
        !ok ==> final(out)@ == old(out)@,
{
    let encoded = if terminated {
        encode_terminated(text, encoding)
    } else {
        encode(text, encoding)
    };
    match encoded {
        Ok(bytes) => {
            append_bytes(out, bytes.as_slice());
            true
        },
        Err(_) => false,
    }
}

/// The bytes of a payload, with its text in `encoding`.
///
/// Fails with `InvalidInput` exactly when a text cannot be written in the encoding that
/// the layout asks for: a character above 0xFF in Latin-1.
pub fn encode_contents(contents: &Contents, encoding: Encoding) -> (r: Result<Vec<u8>, TagError>)
    ensures
        match spec_payload(contents@, encoding) {
            Some(bytes) => r matches Ok(v) && v@ == bytes,
            None => r matches Err(e) && e.kind == ErrorKind::InvalidInput,
        },
{
    reveal(spec_payload);
    let mut out: Vec<u8> = Vec::new();
    let ghost lead = seq![encoding.spec_byte()];
    let ok = match contents {
        Contents::Text(s) => {
            out.push(encoding.to_byte());
            assert(out@ =~= lead);
            put_text(&mut out, s.as_str(), encoding, false)
        },
        Contents::ExtendedText(k, v) => {
            out.push(encoding.to_byte());
            assert(out@ =~= lead);
            put_text(&mut out, k.as_str(), encoding, true) && put_text(
                &mut out,
                v.as_str(),
                encoding,
                false,
            )
        },
        Contents::Link(s) => {
            assert(out@ + spec_latin1(s@)->0 =~= spec_latin1(s@)->0);
            put_text(&mut out, s.as_str(), Encoding::Latin1, false)
        },
        Contents::ExtendedLink(d, u) => {
            out.push(encoding.to_byte());
            assert(out@ =~= lead);
            put_text(&mut out, d.as_str(), encoding, true) && put_text(
                &mut out,
                u.as_str(),
                Encoding::Latin1,
                false,
            )
        },
        Contents::Lyrics(s) => {
            out.push(encoding.to_byte());
            out.push(0x65);
            out.push(0x6E);
            out.push(0x67);
            assert(out@ =~= lead + language());
            proof {
                reveal_strlit("");
                assert(""@ =~= Seq::<char>::empty());
            }
            put_text(&mut out, "", encoding, true) && put_text(
                &mut out,
                s.as_str(),
                encoding,
                false,
            )
        },
        Contents::Comment(d, t) => {
            out.push(encoding.to_byte());
            out.push(0x65);
            out.push(0x6E);
            out.push(0x67);
            assert(out@ =~= lead + language());
            put_text(&mut out, d.as_str(), encoding, true) && put_text(
                &mut out,
                t.as_str(),
                encoding,
                false,
            )
        },
        Contents::Picture(p) => {
            out.push(encoding.to_byte());
            assert(out@ =~= lead);
            if put_text(&mut out, p.mime_type.as_str(), Encoding::Latin1, true) {
                let ghost with_mime = out@;
                out.push(p.picture_type.to_byte());
                assert(out@ =~= with_mime + seq![p.picture_type.spec_byte()]);
                if put_text(&mut out, p.description.as_str(), encoding, true) {
                    append_bytes(&mut out, p.data.as_slice());
                    true
                } else {
                    false
                }
            } else {
                false
            }
        },
        Contents::Raw(b) => {
            append_bytes(&mut out, b.as_slice());
            assert(out@ =~= b@);
            true
        },
    };
    if ok {
        Ok(out)
    } else {
        Err(TagError::new(ErrorKind::InvalidInput))
    }
}

/// Reads a terminated description in `encoding` and the text in `last` that follows it.
fn parse_pair(bytes: &[u8], encoding: Encoding, last: Encoding) -> (r: Result<
    (String, String),
    TagError,
>)
    ensures
        match spec_parse_pair(bytes@, encoding, last) {
            Ok((first, second)) => r matches Ok((a, b)) && a@ == first && b@ == second,
            Err(kind) => r matches Err(e) && e.kind == kind,
        },
{
    match split_once_null(bytes, encoding) {
        None => Err(TagError::new(ErrorKind::InvalidInput)),
        Some((before, after)) => {
            let first = decode(before.as_slice(), encoding);
            let second = decode(after.as_slice(), last);
            match (first, second) {
                (Ok(a), Ok(b)) => Ok((a, b)),
                _ => Err(TagError::new(ErrorKind::StringDecoding)),
            }
        },
    }
}

/// Reads the role, the description and the image data of a picture.
fn parse_picture_body(mime_type: String, rest: &[u8], encoding: Encoding) -> (r: Result<
    Contents,
    TagError,
>)
    ensures
        match spec_parse_picture_body(mime_type@, rest@, encoding) {
            Ok(contents) => r matches Ok(c) && c@ == contents,
            Err(kind) => r matches Err(e) && e.kind == kind,
        },
{
    reveal(spec_parse_picture_body);
    if rest.len() == 0 {
        return Err(TagError::new(ErrorKind::InvalidInput));
    }
    let len = rest.len();
    let tail = &rest[1..len];
    assert(tail@ =~= rest@.skip(1));
    match (PictureType::from_byte(rest[0]), split_once_null(tail, encoding)) {
        (Some(picture_type), Some((before, data))) => match decode(before.as_slice(), encoding) {
            Ok(description) => Ok(
                Contents::Picture(Picture { mime_type, picture_type, description, data }),
            ),
            Err(_) => Err(TagError::new(ErrorKind::StringDecoding)),
        },
        _ => Err(TagError::new(ErrorKind::InvalidInput)),
    }
}

/// The MIME type that a three-letter image format of version 2.2 stands for.
fn legacy_mime(format: &[u8]) -> (r: Option<String>)
    requires
        format@.len() == 3,
    ensures
        match spec_legacy_mime(format@) {
            Some(mime) => r matches Some(s) && s@ == mime,
            None => r is None,
        },
{
    if format[0] == 0x4A && format[1] == 0x50 && format[2] == 0x47 {
        proof {
            reveal_strlit("image/jpeg");
            assert(format@ =~= seq![0x4Au8, 0x50u8, 0x47u8]);
            assert("image/jpeg"@ =~= seq!['i', 'm', 'a', 'g', 'e', '/', 'j', 'p', 'e', 'g']);
        }
        Some("image/jpeg".to_owned())
    } else if format[0] == 0x50 && format[1] == 0x4E && format[2] == 0x47 {
        proof {
            reveal_strlit("image/png");
            assert(format@ =~= seq![0x50u8, 0x4Eu8, 0x47u8]);
            assert("image/png"@ =~= seq!['i', 'm', 'a', 'g', 'e', '/', 'p', 'n', 'g']);
        }
        Some("image/png".to_owned())
    } else {
        assert(format@ != seq![0x4Au8, 0x50u8, 0x47u8]) by {
            if format@ == seq![0x4Au8, 0x50u8, 0x47u8] {
                assert(format@[0] == 0x4A && format@[1] == 0x50 && format@[2] == 0x47);
            }
        }
        assert(format@ != seq![0x50u8, 0x4Eu8, 0x47u8]) by {
            if format@ == seq![0x50u8, 0x4Eu8, 0x47u8] {
                assert(format@[0] == 0x50 && format@[1] == 0x4E && format@[2] == 0x47);
            }
        }
        None
    }
}

/// Reads what follows the encoding byte of a payload of the given kind.
fn parse_encoded(kind: Kind, rest: &[u8], encoding: Encoding, legacy: bool) -> (r: Result<
    Contents,
    TagError,
>)
    ensures
        match spec_parse_encoded(kind, rest@, encoding, legacy) {
            Ok(contents) => r matches Ok(c) && c@ == contents,
            Err(kind) => r matches Err(e) && e.kind == kind,
        },
{
    reveal(spec_decode);
    let len = rest.len();
    match kind {
        Kind::Text => match decode(rest, encoding) {
            Ok(text) => {
                let mut chars = crate::chars::chars_of(text.as_str());
                trim_trailing_nulls(&mut chars);
                Ok(Contents::Text(string_of(&chars)))
            },
            Err(_) => Err(TagError::new(ErrorKind::StringDecoding)),
        },
        Kind::ExtendedText => match parse_pair(rest, encoding, encoding) {
            Ok((key, value)) => Ok(Contents::ExtendedText(key, value)),
            Err(e) => Err(e),
        },
        Kind::ExtendedLink => match parse_pair(rest, encoding, Encoding::Latin1) {
            Ok((description, url)) => Ok(Contents::ExtendedLink(description, url)),
            Err(e) => Err(e),
        },
        Kind::Lyrics => {
            if len < 3 {
                return Err(TagError::new(ErrorKind::InvalidInput));
            }
            let tail = &rest[3..len];
            assert(tail@ =~= rest@.skip(3));
            match parse_pair(tail, encoding, encoding) {
                Ok((_, text)) => Ok(Contents::Lyrics(text)),
                Err(e) => Err(e),
            }
        },
        Kind::Comment => {
            if len < 3 {
                return Err(TagError::new(ErrorKind::InvalidInput));
            }
            let tail = &rest[3..len];
            assert(tail@ =~= rest@.skip(3));
            match parse_pair(tail, encoding, encoding) {
                Ok((description, text)) => Ok(Contents::Comment(description, text)),
                Err(e) => Err(e),
            }
        },
        Kind::Picture => {
            if legacy {
                if len < 3 {
                    return Err(TagError::new(ErrorKind::InvalidInput));
                }
                let format = &rest[0..3];
                let tail = &rest[3..len];
                assert(format@ =~= rest@.take(3));
                assert(tail@ =~= rest@.skip(3));
                match legacy_mime(format) {
                    Some(mime_type) => parse_picture_body(mime_type, tail, encoding),
                    None => Err(TagError::new(ErrorKind::InvalidInput)),
                }
            } else {
                match split_once_null(rest, Encoding::Latin1) {
                    Some((before, after)) => {
                        let mime_type = match decode(before.as_slice(), Encoding::Latin1) {
                            Ok(s) => s,
                            Err(e) => {
                                return Err(e);
                            },
                        };
                        parse_picture_body(mime_type, after.as_slice(), encoding)
                    },
                    None => Err(TagError::new(ErrorKind::InvalidInput)),
                }
            }
        },
        Kind::Link => match decode(rest, Encoding::Latin1) {
            Ok(url) => Ok(Contents::Link(url)),
            Err(e) => Err(e),
        },
        Kind::Raw => Ok(Contents::Raw(bytes_of(rest))),
    }
}

/// Reads the encoding and the contents out of a payload of the given kind. `legacy` asks
/// for the picture layout of version 2.2.
///
/// Fails with `InvalidInput` where the layout is broken and with `StringDecoding` where
/// a text is not well-formed in its encoding, each exactly when the layout says so.
pub fn parse_contents(kind: Kind, payload: &[u8], legacy: bool) -> (r: Result<
    (Encoding, Contents),
    TagError,
>)
    ensures
        match spec_parse_payload(kind, payload@, legacy) {
            Ok((encoding, contents)) => r matches Ok((e, c)) && e == encoding && c@ == contents,
            Err(kind) => r matches Err(e) && e.kind == kind,
        },
{
    reveal(spec_parse_payload);
    match kind {
        Kind::Link | Kind::Raw => match parse_encoded(kind, payload, Encoding::Latin1, legacy) {
            Ok(contents) => Ok((Encoding::Latin1, contents)),
            Err(e) => Err(e),
        },
        _ => {
            if payload.len() == 0 {
                return Err(TagError::new(ErrorKind::InvalidInput));
            }
            let encoding = match Encoding::from_byte(payload[0]) {
                Some(encoding) => encoding,
                None => {
                    return Err(TagError::new(ErrorKind::InvalidInput));
                },
            };
            let len = payload.len();
            let rest = &payload[1..len];
            assert(rest@ =~= payload@.skip(1));
            match parse_encoded(kind, rest, encoding, legacy) {
                Ok(contents) => Ok((encoding, contents)),
                Err(e) => Err(e),
            }
        },
    }
}

} // verus!
