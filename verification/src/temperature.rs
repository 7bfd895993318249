//! Temperatures as text and as tenths of a degree.
//!
//! A temperature is written with an optional minus sign, one or two digits, a
//! dot and one digit. Its value is kept as a whole number of tenths, so `-12.3`
//! is `-123`.

use crate::lanes::{extract_lane, lane, load_lanes, sub_lanes};
use vstd::prelude::*;

verus! {

/// ASCII `-`.
pub const MINUS_BYTE: u8 = 45;

/// ASCII `.`.
pub const DOT_BYTE: u8 = 46;

/// ASCII `0`.
pub const ZERO_BYTE: u8 = 48;

/// The coldest reading the format can express, in tenths.
pub const COLDEST_TEMP: i16 = -999;

/// The hottest reading the format can express, in tenths.
pub const HOTTEST_TEMP: i16 = 999;

/// `b` is an ASCII decimal digit.
pub open spec fn is_digit(b: u8) -> bool {
    48 <= b <= 57
}

/// The value of the ASCII digit `b`.
pub open spec fn digit_value(b: u8) -> int {
    b - 48
}

/// `t` is one or two digits, a dot and one digit.
pub open spec fn is_magnitude(t: Seq<u8>) -> bool {
    ||| t.len() == 3 && is_digit(t[0]) && t[1] == 46 && is_digit(t[2])
    ||| t.len() == 4 && is_digit(t[0]) && is_digit(t[1]) && t[2] == 46 && is_digit(t[3])
}

/// The tenths that a magnitude stands for.
pub open spec fn magnitude_tenths(t: Seq<u8>) -> int {
    if t.len() == 3 {
        digit_value(t[0]) * 10 + digit_value(t[2])
    } else {
        digit_value(t[0]) * 100 + digit_value(t[1]) * 10 + digit_value(t[3])
    }
}

/// `t` starts with a minus sign.
pub open spec fn has_minus(t: Seq<u8>) -> bool {
    t.len() > 0 && t[0] == 45
}

/// `t` is a temperature: an optional minus sign and a magnitude.
pub open spec fn is_temperature(t: Seq<u8>) -> bool {
    if has_minus(t) {
        is_magnitude(t.skip(1))
    } else {
        is_magnitude(t)
    }
}

/// The tenths that the temperature `t` stands for.
pub open spec fn temperature_tenths(t: Seq<u8>) -> int {
    if has_minus(t) {
        -magnitude_tenths(t.skip(1))
    } else {
        magnitude_tenths(t)
    }
}

/// The text of `tenths`: a minus sign below zero, the whole degrees without a
/// leading zero, a dot and the tenth.
pub open spec fn render_tenths(tenths: int) -> Seq<u8> {
    let size = if tenths < 0 {
        -tenths
    } else {
        tenths
    };
    let sign = if tenths < 0 {
        seq![45u8]
    } else {
        Seq::<u8>::empty()
    };
    let lead = if size >= 100 {
        seq![(48 + size / 100) as u8]
    } else {
        Seq::<u8>::empty()
    };
    sign + lead + seq![(48 + (size / 10) % 10) as u8, 46u8, (48 + size % 10) as u8]
}

/// Every value within the format's range reads back from its own text.
pub proof fn lemma_render_round_trip(tenths: int)
    requires
        -999 <= tenths <= 999,
    ensures
        is_temperature(render_tenths(tenths)),
        temperature_tenths(render_tenths(tenths)) == tenths,
        3 <= render_tenths(tenths).len() <= 5,
        forall|j: int|
            0 <= j < render_tenths(tenths).len() ==> render_tenths(tenths)[j] != 59
                && render_tenths(tenths)[j] != 10,
{
}

/// Whether `slice` is a temperature.
pub fn is_valid_temperature(slice: &[u8]) -> (ok: bool)
    ensures
        ok == is_temperature(slice@),
{
    let len: usize = slice.len();
    let start: usize = if len > 0 && slice[0] == MINUS_BYTE {
        1
    } else {
        0
    };
    let size: usize = len - start;
    if size == 3 {
        is_digit_byte(slice[start]) && slice[start + 1] == DOT_BYTE && is_digit_byte(
            slice[start + 2],
        )
    } else if size == 4 {
        is_digit_byte(slice[start]) && is_digit_byte(slice[start + 1]) && slice[start + 2]
            == DOT_BYTE && is_digit_byte(slice[start + 3])
    } else {
        false
    }
}

/// Whether `b` is an ASCII decimal digit.
pub fn is_digit_byte(b: u8) -> (ok: bool)
    ensures
        ok == is_digit(b),
{
    ZERO_BYTE <= b && b <= 57
}

/// The tenths that the temperature in `slice` stands for.
///
/// The sign is read first, then the digits one at a time, the second digit of
/// the whole degrees only where the dot does not stand in its place.
pub fn parse_to_i16(slice: &[u8]) -> (tenths: i16)
    requires
        is_temperature(slice@),
    ensures
        tenths == temperature_tenths(slice@),
        -999 <= tenths <= 999,
{
    let is_negative: bool = slice[0] == MINUS_BYTE;
    let mut pos: usize = 0;
    if is_negative {
        pos = pos + 1;
    }
    let mut temp: i16 = (slice[pos] - ZERO_BYTE) as i16;
    pos = pos + 1;
    if slice[pos] != DOT_BYTE {
        temp = (temp * 10) + (slice[pos] - ZERO_BYTE) as i16;
        pos = pos + 1;
    }
    pos = pos + 1;
    temp = (temp * 10) + (slice[pos] - ZERO_BYTE) as i16;
    if is_negative {
        -temp
    } else {
        temp
    }
}

/// The tenths that the temperature in `slice` stands for, read lane-wise.
///
/// The bytes after the sign are loaded into one word and the byte `0` is
/// taken from every lane at once. The digits then sit in fixed lanes: lanes 0
/// and 2 where the magnitude has three bytes, lanes 0, 1 and 3 where it has
/// four.
pub fn parse_to_i16_simd(slice: &[u8]) -> (tenths: i16)
    requires
        is_temperature(slice@),
    ensures
        tenths == temperature_tenths(slice@),
        -999 <= tenths <= 999,
{
    let is_negative: bool = slice[0] == MINUS_BYTE;
    let index: usize = if is_negative {
        1
    } else {
        0
    };
    let word: u64 = load_lanes(slice, index);
    let digits: u64 = sub_lanes(word, ZERO_BYTE);
    let digit1: i16 = extract_lane(digits, 0) as i16;
    let digit2: i16 = extract_lane(digits, 1) as i16;
    let digit3: i16 = extract_lane(digits, 2) as i16;
    let digit4: i16 = extract_lane(digits, 3) as i16;
    let result: i16 = if slice.len() - index < 4 {
        digit1 * 10 + digit3
    } else {
        digit1 * 100 + digit2 * 10 + digit4
    };
    if is_negative {
        -result
    } else {
        result
    }
}

/// Appends the text of `tenths` to `buffer`.
pub fn push_tenths(buffer: &mut Vec<u8>, tenths: i16)
    requires
        -999 <= tenths <= 999,
    ensures
        final(buffer)@ == old(buffer)@ + render_tenths(tenths as int),
{
    let negative: bool = tenths < 0;
    let size: i16 = if negative {
        -tenths
    } else {
        tenths
    };
    let cents: i16 = size / 100;
    let tens: i16 = (size / 10) % 10;
    let units: i16 = size % 10;
    if negative {
        buffer.push(MINUS_BYTE);
    }
    if cents > 0 {
        buffer.push(ZERO_BYTE + cents as u8);
    }
    buffer.push(ZERO_BYTE + tens as u8);
    buffer.push(DOT_BYTE);
    buffer.push(ZERO_BYTE + units as u8);
}

} // verus!
