//! What holds of the text codec: decoding gives back what was encoded, and a terminated
//! text is found again in front of what follows it.

use crate::chars::lemma_char_code;
use crate::text::{
    be_bytes, be_units, char_units, find_null, is_high_surrogate, is_latin1, is_low_surrogate,
    is_null_at, is_surrogate, latin1_bytes, latin1_text, le_bytes, le_units, pair_value,
    spec_decode, spec_encode, spec_encode_terminated, spec_split_once_null, trim_nulls,
    utf16_text, utf16_units, zeros, Encoding,
};
use vstd::prelude::*;
use vstd::utf8::*;

verus! {

/// Whether no character of the text is the zero character.
pub open spec fn no_nulls(text: Seq<char>) -> bool {
    forall|i: int| 0 <= i < text.len() ==> #[trigger] text[i] != '\0'
}

/// The code units of a text stand for that text.
pub proof fn lemma_utf16_round_trip(text: Seq<char>)
    ensures
        utf16_text(utf16_units(text)) == Some(text),
    decreases text.len(),
{
    if text.len() > 0 {
        let c = text[0];
        let rest = text.drop_first();
        let units = utf16_units(text);
        lemma_char_code(c);
        lemma_utf16_round_trip(rest);
        let v = c as u32;
        if v < 0x10000 {
            assert(units.drop_first() =~= utf16_units(rest));
            assert(units[0] == v as u16);
            assert(!is_surrogate(units[0]));
            assert(units[0] as char == c);
            assert(seq![c] + rest =~= text);
        } else {
            let w = (v - 0x10000) as int;
            assert(0 <= w < 0x10_0000);
            assert(0 <= w / 0x400 < 0x400);
            assert(0 <= w % 0x400 < 0x400);
            assert((w / 0x400) * 0x400 + w % 0x400 == w) by (nonlinear_arith)
                requires
                    0 <= w,
            ;
            assert(units.skip(2) =~= utf16_units(rest));
            assert(units[0] == (0xD800 + w / 0x400) as u16);
            assert(units[1] == (0xDC00 + w % 0x400) as u16);
            assert(is_high_surrogate(units[0]));
            assert(is_low_surrogate(units[1]));
            assert(pair_value(units[0], units[1]) == v);
            assert(pair_value(units[0], units[1]) as char == c);
            assert(seq![c] + rest =~= text);
        }
    }
}

/// A code unit is made of its two bytes.
proof fn lemma_unit_bytes(unit: u16)
    ensures
        0 <= unit % 256 < 256,
        0 <= unit / 256 < 256,
        (unit % 256) + 256 * (unit / 256) == unit,
{
}

/// The bytes of code units hold those code units, in either byte order.
pub proof fn lemma_units_round_trip(units: Seq<u16>)
    ensures
        le_units(le_bytes(units)) == units,
        be_units(be_bytes(units)) == units,
        le_bytes(units).len() == 2 * units.len(),
        be_bytes(units).len() == 2 * units.len(),
{
    let le = le_bytes(units);
    let be = be_bytes(units);
    assert(le.len() / 2 == units.len());
    assert(be.len() / 2 == units.len());
    assert forall|i: int| 0 <= i < units.len() implies le_units(le)[i] == units[i] && be_units(
        be,
    )[i] == units[i] by {
        lemma_unit_bytes(units[i]);
        let low = 2 * i;
        let high = 2 * i + 1;
        assert(low % 2 == 0 && low / 2 == i);
        assert(high % 2 == 1 && high / 2 == i);
        assert(le[low] == (units[i] % 256) as u8);
        assert(le[high] == (units[i] / 256) as u8);
        assert(be[low] == (units[i] / 256) as u8);
        assert(be[high] == (units[i] % 256) as u8);
    }
    assert(le_units(le) =~= units);
    assert(be_units(be) =~= units);
}

/// Latin-1 bytes of a text that has them stand for that text.
pub proof fn lemma_latin1_round_trip(text: Seq<char>)
    requires
        is_latin1(text),
    ensures
        latin1_text(latin1_bytes(text)) == text,
{
    assert forall|i: int| 0 <= i < text.len() implies latin1_text(latin1_bytes(text))[i]
        == text[i] by {
        lemma_char_code(text[i]);
    }
    assert(latin1_text(latin1_bytes(text)) =~= text);
}

/// The Latin-1 form of a text is one byte per character, and stands for the text.
pub proof fn lemma_latin1_encoded(text: Seq<char>)
    requires
        spec_encode(text, Encoding::Latin1) is Some,
    ensures
        is_latin1(text),
        spec_encode(text, Encoding::Latin1)->0 == latin1_bytes(text),
        latin1_text(spec_encode(text, Encoding::Latin1)->0) == text,
{
    reveal(spec_encode);
    lemma_latin1_round_trip(text);
}

/// Decoding what was encoded gives the text back, in every encoding.
pub proof fn lemma_codec_round_trip(text: Seq<char>, encoding: Encoding)
    requires
        spec_encode(text, encoding) is Some,
    ensures
        spec_decode(spec_encode(text, encoding)->0, encoding) == Some(text),
{
    reveal(spec_encode);
    reveal(spec_decode);
    let bytes = spec_encode(text, encoding)->0;
    let units = utf16_units(text);
    match encoding {
        Encoding::Latin1 => {
            lemma_latin1_round_trip(text);
        },
        Encoding::UTF16 => {
            lemma_units_round_trip(units);
            lemma_utf16_round_trip(text);
            assert(bytes.skip(2) =~= le_bytes(units));
            assert(bytes[0] == 0xFF && bytes[1] == 0xFE);
        },
        Encoding::UTF16BE => {
            lemma_units_round_trip(units);
            lemma_utf16_round_trip(text);
        },
        Encoding::UTF8 => {
            encode_utf8_valid_utf8(text);
            encode_utf8_decode_utf8(text);
        },
    }
}

/// No code unit of a text without zero characters is zero.
pub proof fn lemma_units_nonzero(text: Seq<char>)
    requires
        no_nulls(text),
    ensures
        forall|i: int| 0 <= i < utf16_units(text).len() ==> #[trigger] utf16_units(text)[i] != 0,
    decreases text.len(),
{
    if text.len() > 0 {
        let c = text[0];
        let rest = text.drop_first();
        lemma_char_code(c);
        assert(no_nulls(rest)) by {
            assert forall|i: int| 0 <= i < rest.len() implies #[trigger] rest[i] != '\0' by {
                assert(rest[i] == text[i + 1]);
            }
        }
        lemma_units_nonzero(rest);
        let head = char_units(c);
        let units = utf16_units(text);
        assert(c != '\0');
        assert forall|i: int| 0 <= i < units.len() implies #[trigger] units[i] != 0 by {
            if i < head.len() {
                assert(units[i] == head[i]);
                let w = (c as u32 - 0x10000) as int;
                if c as u32 >= 0x10000 {
                    assert(0 <= w / 0x400 && 0 <= w % 0x400 < 0x400);
                    assert(w / 0x400 < 0x400);
                }
            } else {
                assert(units[i] == utf16_units(rest)[i - head.len()]);
            }
        }
    }
}

/// No byte of the UTF-8 form of a text without zero characters is zero.
pub proof fn lemma_utf8_nonzero(text: Seq<char>)
    requires
        no_nulls(text),
    ensures
        forall|i: int| 0 <= i < encode_utf8(text).len() ==> #[trigger] encode_utf8(text)[i] != 0,
    decreases text.len(),
{
    if text.len() > 0 {
        let c = text[0];
        let rest = text.drop_first();
        lemma_char_code(c);
        assert(no_nulls(rest)) by {
            assert forall|i: int| 0 <= i < rest.len() implies #[trigger] rest[i] != '\0' by {
                assert(rest[i] == text[i + 1]);
            }
        }
        lemma_utf8_nonzero(rest);
        let s = c as u32;
        let head = encode_scalar(s);
        assert(c != '\0');
        assert(s != 0);
        assert(forall|y: u8| 0xC0u8 | y != 0) by {
            assert forall|y: u8| 0xC0u8 | y != 0 by {
                assert(0xC0u8 | y != 0) by (bit_vector);
            }
        }
        assert(forall|y: u8| 0xE0u8 | y != 0) by {
            assert forall|y: u8| 0xE0u8 | y != 0 by {
                assert(0xE0u8 | y != 0) by (bit_vector);
            }
        }
        assert(forall|y: u8| 0xF0u8 | y != 0) by {
            assert forall|y: u8| 0xF0u8 | y != 0 by {
                assert(0xF0u8 | y != 0) by (bit_vector);
            }
        }
        assert(forall|y: u8| 0x80u8 | y != 0) by {
            assert forall|y: u8| 0x80u8 | y != 0 by {
                assert(0x80u8 | y != 0) by (bit_vector);
            }
        }
        assert(s <= 0x7F ==> (s & 0x7F) as u8 != 0) by {
            assert(0 < s <= 0x7F ==> (s & 0x7F) as u8 != 0) by (bit_vector);
        }
        let bytes = encode_utf8(text);
        assert forall|i: int| 0 <= i < bytes.len() implies #[trigger] bytes[i] != 0 by {
            if i < head.len() {
                assert(bytes[i] == head[i]);
            } else {
                assert(bytes[i] == encode_utf8(rest)[i - head.len()]);
            }
        }
    }
}

/// The bytes of a text without zero characters hold no terminator of the encoding's
/// width at a position that is a multiple of that width, and their number is such a
/// multiple.
pub proof fn lemma_encoded_without_terminator(text: Seq<char>, encoding: Encoding)
    requires
        no_nulls(text),
        spec_encode(text, encoding) is Some,
    ensures
        (spec_encode(text, encoding)->0.len() as int) % encoding.spec_width() == 0,
        forall|at: int|
            0 <= at && at % encoding.spec_width() == 0 ==> !#[trigger] is_null_at(
                spec_encode(text, encoding)->0,
                encoding.spec_width(),
                at,
            ),
{
    reveal(spec_encode);
    let bytes = spec_encode(text, encoding)->0;
    let width = encoding.spec_width();
    let units = utf16_units(text);
    match encoding {
        Encoding::Latin1 => {
            assert forall|at: int| 0 <= at && at % width == 0 implies !#[trigger] is_null_at(
                bytes,
                width,
                at,
            ) by {
                if at + 1 <= bytes.len() {
                    lemma_char_code(text[at]);
                    assert(text[at] != '\0');
                    assert(bytes[at + 0] != 0);
                }
            }
        },
        Encoding::UTF8 => {
            lemma_utf8_nonzero(text);
            assert forall|at: int| 0 <= at && at % width == 0 implies !#[trigger] is_null_at(
                bytes,
                width,
                at,
            ) by {
                if at + 1 <= bytes.len() {
                    assert(bytes[at + 0] != 0);
                }
            }
        },
        Encoding::UTF16 => {
            lemma_units_nonzero(text);
            assert forall|at: int| 0 <= at && at % width == 0 implies !#[trigger] is_null_at(
                bytes,
                width,
                at,
            ) by {
                if at + 2 <= bytes.len() {
                    if at == 0 {
                        assert(bytes[at + 0] == 0xFF);
                    } else {
                        let k = (at - 2) / 2;
                        assert(units[k] != 0);
                        assert(bytes[at + 0] == le_bytes(units)[at - 2]);
                        assert(bytes[at + 1] == le_bytes(units)[at - 1]);
                        assert(bytes[at + 0] != 0 || bytes[at + 1] != 0);
                    }
                }
            }
        },
        Encoding::UTF16BE => {
            lemma_units_nonzero(text);
            assert forall|at: int| 0 <= at && at % width == 0 implies !#[trigger] is_null_at(
                bytes,
                width,
                at,
            ) by {
                if at + 2 <= bytes.len() {
                    let k = at / 2;
                    assert(units[k] != 0);
                    assert(bytes[at + 0] == be_bytes(units)[at]);
                    assert(bytes[at + 1] == be_bytes(units)[at + 1]);
                    assert(bytes[at + 0] != 0 || bytes[at + 1] != 0);
                }
            }
        },
    }
}

/// A terminator that stands at a multiple of its width, with none before it at such
/// a multiple, is the one that is found.
pub proof fn lemma_find_null(bytes: Seq<u8>, width: int, from: int, at: int)
    requires
        width == 1 || width == 2,
        0 <= from <= at,
        from % width == 0,
        at % width == 0,
        is_null_at(bytes, width, at),
        forall|j: int| from <= j < at && j % width == 0 ==> !#[trigger] is_null_at(bytes, width, j),
    ensures
        find_null(bytes, width, from) == Some(at),
    decreases at - from,
{
    if from < at {
        assert(!is_null_at(bytes, width, from));
        assert(from + width <= at);
        lemma_find_null(bytes, width, from + width, at);
    }
}

/// A terminated text without zero characters is split off what follows it.
pub proof fn lemma_split_terminated(text: Seq<char>, encoding: Encoding, rest: Seq<u8>)
    requires
        no_nulls(text),
        spec_encode(text, encoding) is Some,
    ensures
        spec_split_once_null(spec_encode_terminated(text, encoding)->0 + rest, encoding) == Some(
            (spec_encode(text, encoding)->0, rest),
        ),
{
    reveal(spec_split_once_null);
    let bytes = spec_encode(text, encoding)->0;
    let width = encoding.spec_width();
    let whole = bytes + zeros(width) + rest;
    let at = bytes.len() as int;
    lemma_encoded_without_terminator(text, encoding);
    assert(is_null_at(whole, width, at)) by {
        assert forall|k: int| 0 <= k < width implies #[trigger] whole[at + k] == 0 by {
            assert(whole[at + k] == zeros(width)[k]);
        }
    }
    assert forall|j: int| 0 <= j < at && j % width == 0 implies !#[trigger] is_null_at(
        whole,
        width,
        j,
    ) by {
        assert(!is_null_at(bytes, width, j));
        if is_null_at(whole, width, j) {
            assert(j + width <= at);
            assert forall|k: int| 0 <= k < width implies #[trigger] bytes[j + k] == 0 by {
                assert(whole[j + k] == bytes[j + k]);
            }
        }
    }
    lemma_find_null(whole, width, 0, at);
    assert(whole.take(at) =~= bytes);
    assert(whole.skip(at + width) =~= rest);
}

/// Whether a text can be written in an encoding: every text in the three encodings of
/// Unicode, and in Latin-1 a text without a character above 0xFF.
pub proof fn lemma_encodes(text: Seq<char>, encoding: Encoding)
    ensures
        spec_encode(text, encoding) is Some <==> encoding != Encoding::Latin1 || is_latin1(text),
        spec_encode_terminated(text, encoding) is Some <==> spec_encode(text, encoding) is Some,
{
    reveal(spec_encode);
}

/// A text that was read from bytes can be written in the encoding it was read in.
pub proof fn lemma_decoded_encodes(bytes: Seq<u8>, encoding: Encoding)
    requires
        spec_decode(bytes, encoding) is Some,
    ensures
        spec_encode(spec_decode(bytes, encoding)->0, encoding) is Some,
        spec_encode_terminated(spec_decode(bytes, encoding)->0, encoding) is Some,
        encoding == Encoding::Latin1 ==> spec_decode(bytes, encoding)->0 == latin1_text(bytes),
{
    reveal(spec_decode);
    lemma_encodes(spec_decode(bytes, encoding)->0, encoding);
    if encoding == Encoding::Latin1 {
        lemma_latin1_text_is_latin1(bytes);
    }
}

/// The text of Latin-1 bytes has no character above 0xFF.
pub proof fn lemma_latin1_text_is_latin1(bytes: Seq<u8>)
    ensures
        is_latin1(latin1_text(bytes)),
        spec_encode(latin1_text(bytes), Encoding::Latin1) is Some,
        spec_encode_terminated(latin1_text(bytes), Encoding::Latin1) is Some,
{
    lemma_encodes(latin1_text(bytes), Encoding::Latin1);
}

/// A text that can be written can still be written without the zero characters at its
/// end.
pub proof fn lemma_trimmed_encodes(text: Seq<char>, encoding: Encoding)
    requires
        spec_encode(text, encoding) is Some,
    ensures
        spec_encode(trim_nulls(text), encoding) is Some,
    decreases text.len(),
{
    lemma_encodes(text, encoding);
    if text.len() > 0 && text.last() == '\0' {
        let front = text.drop_last();
        lemma_encodes(front, encoding);
        if encoding == Encoding::Latin1 {
            assert forall|i: int| 0 <= i < front.len() implies (#[trigger] front[i]) as u32
                <= 0xFF by {
                assert(front[i] == text[i]);
            }
        }
        lemma_trimmed_encodes(front, encoding);
    }
}

} // verus!
