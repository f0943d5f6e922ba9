//! Decimal numbers in text, and the track number with its optional total.

use crate::chars::{chars_of, lemma_char_code};
use vstd::prelude::*;
use vstd::string::*;

verus! {

/// Whether a character is a decimal digit.
pub open spec fn is_digit(c: char) -> bool {
    '0' <= c && c <= '9'
}

/// Whether a text is made of decimal digits only.
pub open spec fn all_digits(text: Seq<char>) -> bool {
    forall|i: int| 0 <= i < text.len() ==> is_digit(#[trigger] text[i])
}

/// The number that a text of decimal digits stands for; 0 for the empty text.
pub open spec fn decimal_value(text: Seq<char>) -> int
    decreases text.len(),
{
    if text.len() == 0 {
        0
    } else {
        10 * decimal_value(text.drop_last()) + (text.last() as int - 0x30)
    }
}

/// The number that `text` stands for: `text` must be one decimal digit or more and
/// nothing else, and the number at most `max`.
pub open spec fn spec_parse_number(text: Seq<char>, max: int) -> Option<int> {
    if text.len() > 0 && all_digits(text) && decimal_value(text) <= max {
        Some(decimal_value(text))
    } else {
        None
    }
}

/// The digit character for a number below ten.
pub open spec fn digit_char(d: int) -> char {
    (0x30 + d) as char
}

/// The decimal digits of a number, without leading zeros.
pub open spec fn decimal(n: int) -> Seq<char>
    decreases n,
{
    if n < 10 {
        seq![digit_char(n)]
    } else {
        decimal(n / 10).push(digit_char(n % 10))
    }
}

/// The first position at or after `from` where `c` stands in `text`.
pub open spec fn find_char(text: Seq<char>, c: char, from: int) -> Option<int>
    decreases text.len() - from,
{
    if from < 0 || from >= text.len() {
        None
    } else if text[from] == c {
        Some(from)
    } else {
        find_char(text, c, from + 1)
    }
}

/// The track number and the total number of tracks that a text stands for: `N`, or
/// `N/M`. Both are decimal numbers that fit in 32 bits; a text of any other form stands
/// for nothing.
pub open spec fn spec_track_pair(text: Seq<char>) -> Option<(u32, Option<u32>)> {
    match find_char(text, '/', 0) {
        None => match spec_parse_number(text, u32::MAX as int) {
            Some(track) => Some((track as u32, None)),
            None => None,
        },
        Some(at) => match (
            spec_parse_number(text.take(at), u32::MAX as int),
            spec_parse_number(text.skip(at + 1), u32::MAX as int),
        ) {
            (Some(track), Some(total)) => Some((track as u32, Some(total as u32))),
            _ => None,
        },
    }
}

/// `track`, or `track/total` where there is a total.
pub open spec fn spec_track_text(track: u32, total: Option<u32>) -> Seq<char> {
    match total {
        Some(n) => decimal(track as int) + seq!['/'] + decimal(n as int),
        None => decimal(track as int),
    }
}

/// A text of digits stands for a number that is at least what any of its beginnings
/// stands for, and never for a negative one.
pub proof fn lemma_decimal_value_grows(text: Seq<char>, len: int)
    requires
        all_digits(text),
        0 <= len <= text.len(),
    ensures
        0 <= decimal_value(text.take(len)) <= decimal_value(text),
    decreases text.len() - len,
{
    lemma_decimal_value_nonnegative(text.take(len));
    if len < text.len() {
        let longer = text.take(len + 1);
        assert(longer.drop_last() =~= text.take(len));
        assert(is_digit(text[len]));
        lemma_char_code(text[len]);
        assert(longer.last() == text[len]);
        lemma_decimal_value_grows(text, len + 1);
    } else {
        assert(text.take(len) =~= text);
    }
}

/// A text of digits stands for no negative number.
pub proof fn lemma_decimal_value_nonnegative(text: Seq<char>)
    requires
        all_digits(text),
    ensures
        0 <= decimal_value(text),
    decreases text.len(),
{
    if text.len() > 0 {
        assert(is_digit(text.last()));
        lemma_char_code(text.last());
        lemma_decimal_value_nonnegative(text.drop_last());
    }
}

/// The digits of a number are digits, and stand for that number.
pub proof fn lemma_decimal_round_trip(n: int)
    requires
        0 <= n,
    ensures
        decimal(n).len() > 0,
        all_digits(decimal(n)),
        decimal_value(decimal(n)) == n,
        find_char(decimal(n), '/', 0) is None,
    decreases n,
{
    let text = decimal(n);
    if n < 10 {
        assert(text.drop_last() =~= Seq::<char>::empty());
        assert(decimal_value(text.drop_last()) == 0);
        assert(text.last() == digit_char(n));
        reveal_with_fuel(find_char, 2);
    } else {
        lemma_decimal_round_trip(n / 10);
        let front = decimal(n / 10);
        assert(text.drop_last() =~= front);
        assert(text.last() == digit_char(n % 10));
        assert forall|i: int| 0 <= i < text.len() implies is_digit(#[trigger] text[i]) by {
            if i < front.len() {
                assert(text[i] == front[i]);
            }
        }
        lemma_find_char_none(text, '/');
    }
}

/// `find_char` finds nothing exactly where the character does not stand.
pub proof fn lemma_find_char_none(text: Seq<char>, c: char)
    requires
        forall|i: int| 0 <= i < text.len() ==> text[i] != c,
    ensures
        find_char(text, c, 0) is None,
{
    lemma_find_char_none_from(text, c, 0);
}

proof fn lemma_find_char_none_from(text: Seq<char>, c: char, from: int)
    requires
        0 <= from,
        forall|i: int| 0 <= i < text.len() ==> text[i] != c,
    ensures
        find_char(text, c, from) is None,
    decreases text.len() - from,
{
    if from < text.len() {
        lemma_find_char_none_from(text, c, from + 1);
    }
}

/// The first place where a character stands is found.
pub proof fn lemma_find_char_first(text: Seq<char>, c: char, from: int, at: int)
    requires
        0 <= from <= at < text.len(),
        text[at] == c,
        forall|i: int| from <= i < at ==> text[i] != c,
    ensures
        find_char(text, c, from) == Some(at),
    decreases at - from,
{
    if from < at {
        lemma_find_char_first(text, c, from + 1, at);
    }
}

/// The text of a track number and a total stands for that track number and that total.
pub proof fn lemma_track_round_trip(track: u32, total: Option<u32>)
    ensures
        spec_track_pair(spec_track_text(track, total)) == Some((track, total)),
{
    let first = decimal(track as int);
    lemma_decimal_round_trip(track as int);
    match total {
        Some(n) => {
            let second = decimal(n as int);
            let text = first + seq!['/'] + second;
            let at = first.len() as int;
            lemma_decimal_round_trip(n as int);
            assert forall|i: int| 0 <= i < at implies text[i] != '/' by {
                assert(text[i] == first[i]);
                assert(is_digit(first[i]));
            }
            assert(text[at] == '/');
            lemma_find_char_first(text, '/', 0, at);
            assert(text.take(at) =~= first);
            assert(text.skip(at + 1) =~= second);
        },
        None => {},
    }
}

/// The number that the characters from `from` to `to` stand for, if they are one
/// decimal digit or more and nothing else, and the number is at most `max`.
fn parse_digits(chars: &Vec<char>, from: usize, to: usize, max: u64) -> (r: Option<u64>)
    requires
        from <= to <= chars@.len(),
    ensures
        match spec_parse_number(chars@.subrange(from as int, to as int), max as int) {
            Some(n) => r == Some(n as u64) && 0 <= n <= max,
            None => r is None,
        },
{
    let ghost text = chars@.subrange(from as int, to as int);
    if from == to {
        return None;
    }
    let mut value: u64 = 0;
    let mut i: usize = from;
    assert(text.take(0) =~= Seq::<char>::empty());
    while i < to
        invariant
            from <= i <= to <= chars@.len(),
            text == chars@.subrange(from as int, to as int),
            all_digits(text.take(i - from)),
            value == decimal_value(text.take(i - from)),
            value <= max,
        decreases to - i,
    {
        let c: char = chars[i];
        proof {
            lemma_char_code(c);
            assert(text[i - from] == c);
        }
        if !(c >= '0' && c <= '9') {
            assert(!is_digit(text[i - from]));
            return None;
        }
        let digit: u128 = (c as u32 - 0x30) as u128;
        let next: u128 = value as u128 * 10 + digit;
        proof {
            let longer = text.take(i - from + 1);
            assert(longer.drop_last() =~= text.take(i - from));
            assert(longer.last() == c);
            assert(next == decimal_value(longer));
            assert forall|k: int| 0 <= k < longer.len() implies is_digit(#[trigger] longer[k]) by {
                if k < i - from {
                    assert(longer[k] == text.take(i - from)[k]);
                }
            }
        }
        if next > max as u128 {
            proof {
                if all_digits(text) {
                    lemma_decimal_value_grows(text, i - from + 1);
                }
            }
            return None;
        }
        value = next as u64;
        i += 1;
    }
    assert(text.take(to - from) =~= text);
    Some(value)
}

/// The number that `text` stands for, if it is a decimal number of at most `max`.
pub fn parse_number(text: &str, max: u64) -> (r: Option<u64>)
    ensures
        match spec_parse_number(text@, max as int) {
            Some(n) => r == Some(n as u64) && 0 <= n <= max,
            None => r is None,
        },
{
    let chars = chars_of(text);
    assert(chars@.subrange(0, chars@.len() as int) =~= text@);
    parse_digits(&chars, 0, chars.len(), max)
}

/// Appends the decimal digits of `n` to `out`.
pub fn push_decimal(out: &mut String, n: u64)
    ensures
        final(out)@ == old(out)@ + decimal(n as int),
    decreases n,
{
    if n >= 10 {
        push_decimal(out, n / 10);
    }
    let ghost before = out@;
    let d: u8 = (n % 10) as u8;
    out.push((0x30 + d) as char);
    proof {
        if n >= 10 {
            assert(out@ =~= old(out)@ + decimal((n / 10) as int).push(digit_char((n % 10) as int)));
        } else {
            assert(out@ =~= old(out)@ + seq![digit_char(n as int)]);
        }
    }
}

/// The decimal digits of `n`.
pub fn to_decimal(n: u64) -> (text: String)
    ensures
        text@ == decimal(n as int),
{
    let mut out = String::new();
    push_decimal(&mut out, n);
    assert(Seq::<char>::empty() + decimal(n as int) =~= decimal(n as int));
    out
}

/// The track number and the total that `text` stands for.
pub fn parse_track_pair(text: &str) -> (r: Option<(u32, Option<u32>)>)
    ensures
        r == spec_track_pair(text@),
{
    let chars = chars_of(text);
    let len = chars.len();
    let mut i: usize = 0;
    while i < len && chars[i] != '/'
        invariant
            i <= len == chars@.len(),
            find_char(chars@, '/', 0) == find_char(chars@, '/', i as int),
        decreases len - i,
    {
        i += 1;
    }
    if i == len {
        assert(chars@.subrange(0, len as int) =~= chars@);
        match parse_digits(&chars, 0, len, 0xFFFF_FFFF) {
            Some(track) => Some((track as u32, None)),
            None => None,
        }
    } else {
        assert(chars@.subrange(0, i as int) =~= chars@.take(i as int));
        assert(chars@.subrange(i + 1, len as int) =~= chars@.skip(i + 1));
        match (parse_digits(&chars, 0, i, 0xFFFF_FFFF), parse_digits(&chars, i + 1, len, 0xFFFF_FFFF)) {
            (Some(track), Some(total)) => Some((track as u32, Some(total as u32))),
            _ => None,
        }
    }
}

/// `track`, or `track/total` where there is a total.
pub fn track_text(track: u32, total: Option<u32>) -> (text: String)
    ensures
        text@ == spec_track_text(track, total),
{
    let mut out = to_decimal(track as u64);
    match total {
        Some(n) => {
            out.push('/');
            push_decimal(&mut out, n as u64);
            assert(out@ =~= decimal(track as int) + seq!['/'] + decimal(n as int));
        },
        None => {},
    }
    out
}

} // verus!
