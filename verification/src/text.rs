//! The four text encodings of ID3v2 and the codec between strings and bytes.

use vstd::prelude::*;
use vstd::string::*;
use vstd::utf8::*;

verus! {

/// The text encoding of a frame.
#[derive(Clone, Copy, Debug, PartialEq, Eq, Structural)]
pub enum Encoding {
    /// ISO-8859-1: one byte per character.
    Latin1,
    /// UTF-16 led by a byte order mark.
    UTF16,
    /// UTF-16 big-endian without a byte order mark.
    UTF16BE,
    /// UTF-8.
    UTF8,
}

impl Encoding {
    /// The byte that selects this encoding in a frame.
    pub open spec fn spec_byte(self) -> u8 {
        match self {
            Encoding::Latin1 => 0u8,
            Encoding::UTF16 => 1u8,
            Encoding::UTF16BE => 2u8,
            Encoding::UTF8 => 3u8,
        }
    }

    /// The encoding that a selector byte stands for, if any.
    pub open spec fn spec_from_byte(byte: u8) -> Option<Encoding> {
        if byte == 0 {
            Some(Encoding::Latin1)
        } else if byte == 1 {
            Some(Encoding::UTF16)
        } else if byte == 2 {
            Some(Encoding::UTF16BE)
        } else if byte == 3 {
            Some(Encoding::UTF8)
        } else {
            None
        }
    }

    /// How many zero bytes end a terminated string: 2 for the UTF-16 variants, else 1.
    pub open spec fn spec_width(self) -> int {
        match self {
            Encoding::UTF16 | Encoding::UTF16BE => 2,
            _ => 1,
        }
    }

    /// The byte that selects this encoding in a frame.
    pub fn to_byte(self) -> (byte: u8)
        ensures
            byte == self.spec_byte(),
    {
        match self {
            Encoding::Latin1 => 0,
            Encoding::UTF16 => 1,
            Encoding::UTF16BE => 2,
            Encoding::UTF8 => 3,
        }
    }

    /// The encoding that a selector byte stands for, if any.
    pub fn from_byte(byte: u8) -> (encoding: Option<Encoding>)
        ensures
            encoding == Encoding::spec_from_byte(byte),
    {
        if byte == 0 {
            Some(Encoding::Latin1)
        } else if byte == 1 {
            Some(Encoding::UTF16)
        } else if byte == 2 {
            Some(Encoding::UTF16BE)
        } else if byte == 3 {
            Some(Encoding::UTF8)
        } else {
            None
        }
    }

    /// How many zero bytes end a terminated string in this encoding.
    pub fn terminator_width(self) -> (width: usize)
        ensures
            width == self.spec_width(),
    {
        match self {
            Encoding::UTF16 | Encoding::UTF16BE => 2,
            _ => 1,
        }
    }
}

// ---------------------------------------------------------------------------------------
// Latin-1
// ---------------------------------------------------------------------------------------
/// Whether every character fits in one Latin-1 byte.
pub open spec fn is_latin1(text: Seq<char>) -> bool {
    forall|i: int| 0 <= i < text.len() ==> (#[trigger] text[i]) as u32 <= 0xFF
}

/// One byte per character, holding its code point.
pub open spec fn latin1_bytes(text: Seq<char>) -> Seq<u8> {
    Seq::new(text.len(), |i: int| text[i] as u8)
}

/// One character per byte, with the byte as its code point.
pub open spec fn latin1_text(bytes: Seq<u8>) -> Seq<char> {
    Seq::new(bytes.len(), |i: int| bytes[i] as char)
}

// ---------------------------------------------------------------------------------------
// UTF-16
// ---------------------------------------------------------------------------------------
/// Whether a code unit is one half of a surrogate pair.
pub open spec fn is_surrogate(unit: u16) -> bool {
    0xD800 <= unit < 0xE000
}

/// Whether a code unit is the leading half of a surrogate pair.
pub open spec fn is_high_surrogate(unit: u16) -> bool {
    0xD800 <= unit < 0xDC00
}

/// Whether a code unit is the trailing half of a surrogate pair.
pub open spec fn is_low_surrogate(unit: u16) -> bool {
    0xDC00 <= unit < 0xE000
}

/// The code units of one character: itself below 0x10000, else a surrogate pair.
pub open spec fn char_units(c: char) -> Seq<u16> {
    let v = c as u32;
    if v < 0x10000 {
        seq![v as u16]
    } else {
        seq![
            (0xD800 + (v - 0x10000) / 0x400) as u16,
            (0xDC00 + (v - 0x10000) % 0x400) as u16,
        ]
    }
}

/// The UTF-16 code units of a text.
pub open spec fn utf16_units(text: Seq<char>) -> Seq<u16>
    decreases text.len(),
{
    if text.len() == 0 {
        Seq::empty()
    } else {
        char_units(text[0]) + utf16_units(text.drop_first())
    }
}

/// The code point that a surrogate pair stands for.
pub open spec fn pair_value(high: u16, low: u16) -> u32 {
    (0x10000 + (high - 0xD800) * 0x400 + (low - 0xDC00)) as u32
}

/// `c` in front of `rest`, where there is a `rest`.
pub open spec fn prepend(c: char, rest: Option<Seq<char>>) -> Option<Seq<char>> {
    match rest {
        Some(r) => Some(seq![c] + r),
        None => None,
    }
}

/// The text that a sequence of UTF-16 code units stands for; none where a surrogate
/// stands alone or out of order.
pub open spec fn utf16_text(units: Seq<u16>) -> Option<Seq<char>>
    decreases units.len(),
{
    if units.len() == 0 {
        Some(Seq::empty())
    } else if !is_surrogate(units[0]) {
        prepend(units[0] as char, utf16_text(units.drop_first()))
    } else if is_high_surrogate(units[0]) && units.len() >= 2 && is_low_surrogate(units[1]) {
        prepend(pair_value(units[0], units[1]) as char, utf16_text(units.skip(2)))
    } else {
        None
    }
}

/// Two bytes per code unit, low byte first.
pub open spec fn le_bytes(units: Seq<u16>) -> Seq<u8> {
    Seq::new(
        2 * units.len(),
        |i: int|
            if i % 2 == 0 {
                (units[i / 2] % 256) as u8
            } else {
                (units[i / 2] / 256) as u8
            },
    )
}

/// Two bytes per code unit, high byte first.
pub open spec fn be_bytes(units: Seq<u16>) -> Seq<u8> {
    Seq::new(
        2 * units.len(),
        |i: int|
            if i % 2 == 0 {
                (units[i / 2] / 256) as u8
            } else {
                (units[i / 2] % 256) as u8
            },
    )
}

/// The code units held by pairs of bytes, low byte first. A last odd byte is left out.
pub open spec fn le_units(bytes: Seq<u8>) -> Seq<u16> {
    Seq::new(bytes.len() / 2, |i: int| (bytes[2 * i] + 256 * bytes[2 * i + 1]) as u16)
}

/// The code units held by pairs of bytes, high byte first. A last odd byte is left out.
pub open spec fn be_units(bytes: Seq<u8>) -> Seq<u16> {
    Seq::new(bytes.len() / 2, |i: int| (256 * bytes[2 * i] + bytes[2 * i + 1]) as u16)
}

// ---------------------------------------------------------------------------------------
// The codec
// ---------------------------------------------------------------------------------------
/// The bytes of `text` in `encoding`, without terminator. Only Latin-1 can fail: it has
/// no byte for a character above 0xFF.
#[verifier::opaque]
pub open spec fn spec_encode(text: Seq<char>, encoding: Encoding) -> Option<Seq<u8>> {
    match encoding {
        Encoding::Latin1 => if is_latin1(text) {
            Some(latin1_bytes(text))
        } else {
            None
        },
        Encoding::UTF16 => Some(seq![0xFFu8, 0xFEu8] + le_bytes(utf16_units(text))),
        Encoding::UTF16BE => Some(be_bytes(utf16_units(text))),
        Encoding::UTF8 => Some(encode_utf8(text)),
    }
}

/// `width` zero bytes.
pub open spec fn zeros(width: int) -> Seq<u8> {
    Seq::new(width as nat, |i: int| 0u8)
}

/// The bytes of `text` in `encoding`, followed by a terminator of the encoding's width.
pub open spec fn spec_encode_terminated(text: Seq<char>, encoding: Encoding) -> Option<Seq<u8>> {
    match spec_encode(text, encoding) {
        Some(bytes) => Some(bytes + zeros(encoding.spec_width())),
        None => None,
    }
}

/// The text that `bytes` stand for in `encoding`, if they are well-formed.
///
/// Latin-1 accepts everything. UTF-16 with a byte order mark accepts the empty sequence,
/// and else wants an even number of bytes that starts with FF FE (low byte first) or
/// FE FF (high byte first). UTF-16BE wants an even number of bytes.
#[verifier::opaque]
pub open spec fn spec_decode(bytes: Seq<u8>, encoding: Encoding) -> Option<Seq<char>> {
    match encoding {
        Encoding::Latin1 => Some(latin1_text(bytes)),
        Encoding::UTF16 => if bytes.len() == 0 {
            Some(Seq::empty())
        } else if bytes.len() % 2 != 0 {
            None
        } else if bytes[0] == 0xFF && bytes[1] == 0xFE {
            utf16_text(le_units(bytes.skip(2)))
        } else if bytes[0] == 0xFE && bytes[1] == 0xFF {
            utf16_text(be_units(bytes.skip(2)))
        } else {
            None
        },
        Encoding::UTF16BE => if bytes.len() % 2 != 0 {
            None
        } else {
            utf16_text(be_units(bytes))
        },
        Encoding::UTF8 => if valid_utf8(bytes) {
            Some(decode_utf8(bytes))
        } else {
            None
        },
    }
}

/// Whether `width` zero bytes stand at `at`.
pub open spec fn is_null_at(bytes: Seq<u8>, width: int, at: int) -> bool {
    &&& 0 <= at
    &&& at + width <= bytes.len()
    &&& forall|k: int| 0 <= k < width ==> #[trigger] bytes[at + k] == 0
}

/// The first position at or after `from`, in steps of `width`, where `width` zero bytes
/// stand.
pub open spec fn find_null(bytes: Seq<u8>, width: int, from: int) -> Option<int>
    decreases bytes.len() - from,
{
    if width <= 0 || from < 0 || from + width > bytes.len() {
        None
    } else if is_null_at(bytes, width, from) {
        Some(from)
    } else {
        find_null(bytes, width, from + width)
    }
}

/// The bytes before and after the first terminator of `encoding`, if there is one.
#[verifier::opaque]
pub open spec fn spec_split_once_null(bytes: Seq<u8>, encoding: Encoding) -> Option<
    (Seq<u8>, Seq<u8>),
> {
    match find_null(bytes, encoding.spec_width(), 0) {
        Some(at) => Some((bytes.take(at), bytes.skip(at + encoding.spec_width()))),
        None => None,
    }
}

/// `text` without the zero characters at its end.
pub open spec fn trim_nulls(text: Seq<char>) -> Seq<char>
    decreases text.len(),
{
    if text.len() > 0 && text.last() == '\0' {
        trim_nulls(text.drop_last())
    } else {
        text
    }
}

} // verus!
