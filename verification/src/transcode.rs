//! Executable text codec: strings to bytes and back in each encoding.

use crate::chars::{bytes_of, chars_of, lemma_char_code, string_from_utf8, string_of};
use crate::error::{ErrorKind, TagError};
use crate::text::{
    be_bytes, be_units, char_units, find_null, is_latin1, is_null_at, latin1_bytes, latin1_text,
    le_bytes, le_units, pair_value, spec_decode, spec_encode, spec_encode_terminated,
    spec_split_once_null, trim_nulls, utf16_text, utf16_units, zeros, Encoding,
};
use vstd::prelude::*;
use vstd::string::*;
use vstd::utf8::*;

verus! {

/// The Latin-1 bytes of `chars`, or nothing where a character is above 0xFF.
fn encode_latin1(chars: &Vec<char>) -> (r: Option<Vec<u8>>)
    ensures
        r is Some <==> is_latin1(chars@),
        r matches Some(v) ==> v@ == latin1_bytes(chars@),
{
    let mut out: Vec<u8> = Vec::new();
    let mut i: usize = 0;
    while i < chars.len()
        invariant
            i <= chars@.len(),
            is_latin1(chars@.take(i as int)),
            out@ == latin1_bytes(chars@.take(i as int)),
        decreases chars@.len() - i,
    {
        let c: char = chars[i];
        proof {
            lemma_char_code(c);
        }
        let v: u32 = c as u32;
        if v > 0xFF {
            assert(!is_latin1(chars@)) by {
                assert(chars@[i as int] as u32 > 0xFF);
            }
            return None;
        }
        out.push(v as u8);
        proof {
            let a = chars@.take(i as int);
            let b = chars@.take(i + 1);
            assert(b =~= a.push(chars@[i as int]));
            assert(v as u8 == chars@[i as int] as u8);
            assert forall|k: int| 0 <= k < b.len() implies (#[trigger] b[k]) as u32 <= 0xFF by {
                if k < i {
                    assert(a[k] == b[k]);
                }
            }
            assert(out@ =~= latin1_bytes(b));
        }
        i += 1;
    }
    assert(chars@.take(chars@.len() as int) =~= chars@);
    Some(out)
}

/// The text of Latin-1 bytes.
fn decode_latin1(bytes: &[u8]) -> (chars: Vec<char>)
    ensures
        chars@ == latin1_text(bytes@),
{
    let mut out: Vec<char> = Vec::new();
    let mut i: usize = 0;
    while i < bytes.len()
        invariant
            i <= bytes@.len(),
            out@ == latin1_text(bytes@.take(i as int)),
        decreases bytes@.len() - i,
    {
        out.push(bytes[i] as char);
        assert(bytes@.take(i + 1) =~= bytes@.take(i as int).push(bytes@[i as int]));
        assert(out@ =~= latin1_text(bytes@.take(i + 1)));
        i += 1;
    }
    assert(bytes@.take(bytes@.len() as int) =~= bytes@);
    out
}

/// The UTF-16 code units of `chars`.
fn encode_units(chars: &Vec<char>) -> (units: Vec<u16>)
    ensures
        units@ == utf16_units(chars@),
{
    let mut out: Vec<u16> = Vec::new();
    let mut i: usize = 0;
    assert(chars@.skip(0) =~= chars@);
    while i < chars.len()
        invariant
            i <= chars@.len(),
            utf16_units(chars@) == out@ + utf16_units(chars@.skip(i as int)),
        decreases chars@.len() - i,
    {
        let c: char = chars[i];
        let v: u32 = c as u32;
        let ghost before = out@;
        proof {
            lemma_char_code(c);
            let rest = chars@.skip(i as int);
            assert(rest[0] == chars@[i as int]);
            assert(rest.drop_first() =~= chars@.skip(i + 1));
            assert(utf16_units(rest) == char_units(chars@[i as int]) + utf16_units(
                chars@.skip(i + 1),
            ));
        }
        if v < 0x10000 {
            out.push(v as u16);
            assert(out@ =~= before + char_units(chars@[i as int]));
        } else {
            let w: u32 = v - 0x10000;
            out.push((0xD800 + w / 0x400) as u16);
            out.push((0xDC00 + w % 0x400) as u16);
            assert(out@ =~= before + char_units(chars@[i as int]));
        }
        assert(utf16_units(chars@) =~= out@ + utf16_units(chars@.skip(i + 1)));
        i += 1;
    }
    assert(utf16_units(chars@.skip(chars@.len() as int)) =~= Seq::<u16>::empty());
    assert(out@ + Seq::<u16>::empty() =~= out@);
    out
}

/// The text of UTF-16 code units, or nothing where a surrogate is out of place.
fn decode_units(units: &Vec<u16>) -> (r: Option<Vec<char>>)
    ensures
        match utf16_text(units@) {
            Some(text) => r matches Some(v) && v@ == text,
            None => r is None,
        },
{
    let mut out: Vec<char> = Vec::new();
    let mut i: usize = 0;
    assert(units@.skip(0) =~= units@);
    assert(forall|t: Seq<char>| Seq::<char>::empty() + t =~= t);
    while i < units.len()
        invariant
            i <= units@.len(),
            utf16_text(units@) == match utf16_text(units@.skip(i as int)) {
                Some(rest) => Some(out@ + rest),
                None => None,
            },
        decreases units@.len() - i,
    {
        let u: u16 = units[i];
        let ghost rest = units@.skip(i as int);
        let ghost before = out@;
        assert(rest[0] == u);
        if u < 0xD800 || u >= 0xE000 {
            let c = match char::from_u32(u as u32) {
                Some(c) => c,
                None => {
                    assert(false);
                    return None;
                },
            };
            out.push(c);
            proof {
                assert(rest.drop_first() =~= units@.skip(i + 1));
                assert(c == u as char);
                assert forall|t: Seq<char>| before + (seq![c] + t) =~= #[trigger] (before.push(c)
                    + t) by {}
            }
            i += 1;
        } else if u < 0xDC00 && i + 1 < units.len() && units[i + 1] >= 0xDC00 && units[i + 1]
            < 0xE000 {
            let low: u16 = units[i + 1];
            assert(rest[1] == low);
            let v: u32 = 0x10000 + (u as u32 - 0xD800) * 0x400 + (low as u32 - 0xDC00);
            let c = match char::from_u32(v) {
                Some(c) => c,
                None => {
                    assert(false);
                    return None;
                },
            };
            out.push(c);
            proof {
                assert(rest.skip(2) =~= units@.skip(i + 2));
                assert(v == pair_value(u, low));
                assert forall|t: Seq<char>| before + (seq![c] + t) =~= #[trigger] (before.push(c)
                    + t) by {}
            }
            i += 2;
        } else {
            assert(utf16_text(rest) is None);
            return None;
        }
    }
    proof {
        assert(utf16_text(units@.skip(units@.len() as int)) == Some(Seq::<char>::empty()));
        assert(out@ + Seq::<char>::empty() =~= out@);
    }
    Some(out)
}

/// Appends the bytes of `units` to `out`, low byte first or high byte first.
fn push_units(out: &mut Vec<u8>, units: &Vec<u16>, big_endian: bool)
    ensures
        final(out)@ == old(out)@ + if big_endian {
            be_bytes(units@)
        } else {
            le_bytes(units@)
        },
{
    let mut i: usize = 0;
    while i < units.len()
        invariant
            i <= units@.len(),
            out@ == old(out)@ + if big_endian {
                be_bytes(units@.take(i as int))
            } else {
                le_bytes(units@.take(i as int))
            },
        decreases units@.len() - i,
    {
        let u: u16 = units[i];
        let low: u8 = (u % 256) as u8;
        let high: u8 = (u / 256) as u8;
        if big_endian {
            out.push(high);
            out.push(low);
        } else {
            out.push(low);
            out.push(high);
        }
        proof {
            let a = units@.take(i as int);
            let b = units@.take(i + 1);
            assert(b =~= a.push(u));
            if big_endian {
                assert(be_bytes(b) =~= be_bytes(a).push(high).push(low));
                assert(out@ =~= old(out)@ + be_bytes(b));
            } else {
                assert(le_bytes(b) =~= le_bytes(a).push(low).push(high));
                assert(out@ =~= old(out)@ + le_bytes(b));
            }
        }
        i += 1;
    }
    assert(units@.take(units@.len() as int) =~= units@);
}

/// The code units held by the byte pairs from `from` on.
fn read_units(bytes: &[u8], from: usize, big_endian: bool) -> (units: Vec<u16>)
    requires
        from <= bytes@.len(),
    ensures
        units@ == if big_endian {
            be_units(bytes@.skip(from as int))
        } else {
            le_units(bytes@.skip(from as int))
        },
{
    let mut out: Vec<u16> = Vec::new();
    let count: usize = (bytes.len() - from) / 2;
    let mut i: usize = 0;
    let ghost tail = bytes@.skip(from as int);
    while i < count
        invariant
            from <= bytes@.len(),
            count == (bytes@.len() - from) / 2,
            from + 2 * count <= bytes@.len() <= usize::MAX,
            tail == bytes@.skip(from as int),
            i <= count,
            out@.len() == i,
            forall|k: int|
                0 <= k < i ==> out@[k] == if big_endian {
                    (256 * tail[2 * k] + tail[2 * k + 1]) as u16
                } else {
                    (tail[2 * k] + 256 * tail[2 * k + 1]) as u16
                },
        decreases count - i,
    {
        let a: u16 = bytes[from + 2 * i] as u16;
        let b: u16 = bytes[from + 2 * i + 1] as u16;
        assert(tail[2 * i] == a && tail[2 * i + 1] == b);
        if big_endian {
            out.push(256 * a + b);
        } else {
            out.push(a + 256 * b);
        }
        i += 1;
    }
    proof {
        if big_endian {
            assert(out@ =~= be_units(tail));
        } else {
            assert(out@ =~= le_units(tail));
        }
    }
    out
}

/// Encodes `text` in `encoding`, without a terminator.
///
/// Fails with `InvalidInput` exactly when the encoding is Latin-1 and a character of the
/// text is above 0xFF.
pub fn encode(text: &str, encoding: Encoding) -> (r: Result<Vec<u8>, TagError>)
    ensures
        match spec_encode(text@, encoding) {
            Some(bytes) => r matches Ok(v) && v@ == bytes,
            None => r matches Err(e) && e.kind == ErrorKind::InvalidInput,
        },
{
    reveal(spec_encode);
    match encoding {
        Encoding::Latin1 => {
            let chars = chars_of(text);
            match encode_latin1(&chars) {
                Some(bytes) => Ok(bytes),
                None => Err(TagError::new(ErrorKind::InvalidInput)),
            }
        },
        Encoding::UTF16 => {
            let chars = chars_of(text);
            let units = encode_units(&chars);
            let mut out: Vec<u8> = Vec::new();
            out.push(0xFF);
            out.push(0xFE);
            assert(out@ =~= seq![0xFFu8, 0xFEu8]);
            push_units(&mut out, &units, false);
            Ok(out)
        },
        Encoding::UTF16BE => {
            let chars = chars_of(text);
            let units = encode_units(&chars);
            let mut out: Vec<u8> = Vec::new();
            push_units(&mut out, &units, true);
            assert(out@ =~= be_bytes(units@));
            Ok(out)
        },
        Encoding::UTF8 => Ok(bytes_of(text.as_bytes())),
    }
}

/// Encodes `text` in `encoding` and appends the terminator of that encoding.
///
/// Fails as `encode` does.
pub fn encode_terminated(text: &str, encoding: Encoding) -> (r: Result<Vec<u8>, TagError>)
    ensures
        match spec_encode_terminated(text@, encoding) {
            Some(bytes) => r matches Ok(v) && v@ == bytes,
            None => r matches Err(e) && e.kind == ErrorKind::InvalidInput,
        },
{
    match encode(text, encoding) {
        Ok(mut bytes) => {
            let ghost plain = bytes@;
            bytes.push(0);
            if encoding.terminator_width() == 2 {
                bytes.push(0);
            }
            assert(bytes@ =~= plain + zeros(encoding.spec_width()));
            Ok(bytes)
        },
        Err(e) => Err(e),
    }
}

/// Decodes `bytes` as text in `encoding`.
///
/// Fails with `StringDecoding` exactly when the bytes are not well-formed in that
/// encoding.
pub fn decode(bytes: &[u8], encoding: Encoding) -> (r: Result<String, TagError>)
    ensures
        match spec_decode(bytes@, encoding) {
            Some(text) => r matches Ok(s) && s@ == text,
            None => r matches Err(e) && e.kind == ErrorKind::StringDecoding,
        },
{
    reveal(spec_decode);
    match encoding {
        Encoding::Latin1 => {
            let chars = decode_latin1(bytes);
            Ok(string_of(&chars))
        },
        Encoding::UTF16 => {
            if bytes.len() == 0 {
                return Ok(String::new());
            }
            if bytes.len() % 2 != 0 {
                return Err(TagError::new(ErrorKind::StringDecoding));
            }
            let units = if bytes[0] == 0xFF && bytes[1] == 0xFE {
                read_units(bytes, 2, false)
            } else if bytes[0] == 0xFE && bytes[1] == 0xFF {
                read_units(bytes, 2, true)
            } else {
                return Err(TagError::new(ErrorKind::StringDecoding));
            };
            match decode_units(&units) {
                Some(chars) => Ok(string_of(&chars)),
                None => Err(TagError::new(ErrorKind::StringDecoding)),
            }
        },
        Encoding::UTF16BE => {
            if bytes.len() % 2 != 0 {
                return Err(TagError::new(ErrorKind::StringDecoding));
            }
            let units = read_units(bytes, 0, true);
            assert(bytes@.skip(0) =~= bytes@);
            match decode_units(&units) {
                Some(chars) => Ok(string_of(&chars)),
                None => Err(TagError::new(ErrorKind::StringDecoding)),
            }
        },
        Encoding::UTF8 => {
            match string_from_utf8(bytes_of(bytes)) {
                Some(s) => Ok(s),
                None => Err(TagError::new(ErrorKind::StringDecoding)),
            }
        },
    }
}

/// Where the first terminator of the given width stands in `bytes`, searching from
/// `from` in steps of the width.
fn find_terminator(bytes: &[u8], width: usize, from: usize) -> (r: Option<usize>)
    requires
        width == 1 || width == 2,
    ensures
        r matches Some(at) ==> find_null(bytes@, width as int, from as int) == Some(at as int)
            && from <= at && at + width <= bytes@.len(),
        r is None ==> find_null(bytes@, width as int, from as int) is None,
{
    let mut i: usize = from;
    while i < bytes.len() && width <= bytes.len() - i
        invariant
            width == 1 || width == 2,
            from <= i,
            find_null(bytes@, width as int, from as int) == find_null(
                bytes@,
                width as int,
                i as int,
            ),
        decreases bytes@.len() - i,
    {
        let hit = bytes[i] == 0 && (width == 1 || bytes[i + 1] == 0);
        if hit {
            assert(is_null_at(bytes@, width as int, i as int));
            return Some(i);
        }
        assert(!is_null_at(bytes@, width as int, i as int)) by {
            if bytes@[i as int] != 0 {
                assert(bytes@[i + 0] != 0);
            } else {
                assert(bytes@[i + 1] != 0);
            }
        }
        i += width;
    }
    None
}

/// Splits `bytes` at the first terminator of `encoding`: what stands before it and what
/// stands after it. Nothing where no terminator is found.
pub fn split_once_null(bytes: &[u8], encoding: Encoding) -> (r: Option<(Vec<u8>, Vec<u8>)>)
    ensures
        match spec_split_once_null(bytes@, encoding) {
            Some((before, after)) => r matches Some((a, b)) && a@ == before && b@ == after,
            None => r is None,
        },
{
    reveal(spec_split_once_null);
    let width = encoding.terminator_width();
    match find_terminator(bytes, width, 0) {
        Some(at) => {
            let len = bytes.len();
            let before = bytes_of(&bytes[0..at]);
            let after = bytes_of(&bytes[at + width..len]);
            assert(bytes@.subrange(0, at as int) =~= bytes@.take(at as int));
            assert(bytes@.subrange(at + width, bytes@.len() as int) =~= bytes@.skip(at + width));
            Some((before, after))
        },
        None => None,
    }
}

/// Drops the zero characters at the end of `chars`.
pub fn trim_trailing_nulls(chars: &mut Vec<char>)
    ensures
        final(chars)@ == trim_nulls(old(chars)@),
{
    while chars.len() > 0 && chars[chars.len() - 1] == '\0'
        invariant
            trim_nulls(chars@) == trim_nulls(old(chars)@),
        decreases chars@.len(),
    {
        chars.pop();
    }
}

} // verus!
