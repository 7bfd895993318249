//! The arguments of the generator: the number of rows to make.

use crate::temperature::{digit_value, is_digit, is_digit_byte, ZERO_BYTE};
use vstd::prelude::*;
use vstd::slice::slice_subrange;
use vstd::utf8::encode_utf8;

verus! {

/// ASCII `+`.
pub const PLUS_BYTE: u8 = 43;

/// `text` is one or more decimal digits.
pub open spec fn is_decimal(text: Seq<u8>) -> bool {
    text.len() > 0 && forall|j: int| 0 <= j < text.len() ==> is_digit(text[j])
}

/// The number that the decimal digits of `text` stand for.
pub open spec fn decimal_value(text: Seq<u8>) -> nat
    decreases text.len(),
{
    if text.len() == 0 {
        0
    } else {
        (decimal_value(text.drop_last()) * 10 + digit_value(text.last())) as nat
    }
}

/// `text` without a plus sign in front.
pub open spec fn unsigned_part(text: Seq<u8>) -> Seq<u8> {
    if text.len() > 0 && text[0] == 43 {
        text.skip(1)
    } else {
        text
    }
}

/// The number that `text` stands for: decimal digits, a plus sign in front or
/// none, and a value that fits the machine's word.
pub open spec fn parsed_count(text: Seq<u8>) -> Option<usize> {
    if is_decimal(unsigned_part(text)) && decimal_value(unsigned_part(text)) <= usize::MAX {
        Some(decimal_value(unsigned_part(text)) as usize)
    } else {
        None
    }
}

/// The number of rows that the arguments ask for: there are two of them, the
/// program's name and a number above zero.
pub open spec fn requested_rows(args: Seq<Seq<u8>>) -> Option<usize> {
    if args.len() == 2 && parsed_count(args[1]) is Some && parsed_count(args[1])->Some_0 > 0 {
        parsed_count(args[1])
    } else {
        None
    }
}

/// The bytes of each argument.
pub open spec fn arg_bytes(args: Seq<String>) -> Seq<Seq<u8>> {
    args.map_values(|arg: String| encode_utf8(arg@))
}

/// What is said when the arguments do not ask for a number of rows.
pub open spec fn usage() -> Seq<char> {
    "Usage: create_measurements <positive integer number of records to create>"@
}

/// A number with more digits is no less: the digits of a number that has
/// outgrown a bound stay above it whatever follows.
pub proof fn lemma_decimal_grows(text: Seq<u8>, upto: int)
    requires
        0 <= upto <= text.len(),
        forall|j: int| 0 <= j < text.len() ==> is_digit(text[j]),
    ensures
        decimal_value(text.take(upto)) <= decimal_value(text),
    decreases text.len() - upto,
{
    if upto < text.len() {
        lemma_decimal_grows(text, upto + 1);
        assert(text.take(upto + 1).drop_last() =~= text.take(upto));
    } else {
        assert(text.take(upto) =~= text);
    }
}

/// The number that `text` stands for, or `None` where it stands for none.
pub fn parse_count(text: &[u8]) -> (count: Option<usize>)
    ensures
        count == parsed_count(text@),
{
    let len: usize = text.len();
    let start: usize = if len > 0 && text[0] == PLUS_BYTE {
        1
    } else {
        0
    };
    let digits = slice_subrange(text, start, len);
    let size: usize = digits.len();
    if size == 0 {
        return None;
    }
    let mut value: usize = 0;
    let mut i: usize = 0;
    while i < size
        invariant
            i <= size == digits@.len(),
            digits@ == unsigned_part(text@),
            forall|j: int| 0 <= j < i ==> is_digit(digits@[j]),
            value == decimal_value(digits@.take(i as int)),
        decreases size - i,
    {
        let byte: u8 = digits[i];
        if !is_digit_byte(byte) {
            return None;
        }
        let digit: usize = (byte - ZERO_BYTE) as usize;
        proof {
            assert(digits@.take(i + 1).drop_last() =~= digits@.take(i as int));
        }
        if value > (usize::MAX - digit) / 10 {
            proof {
                if is_decimal(digits@) {
                    lemma_decimal_grows(digits@, i + 1);
                }
            }
            return None;
        }
        value = value * 10 + digit;
        i = i + 1;
    }
    assert(digits@.take(size as int) =~= digits@);
    Some(value)
}

/// The number of rows that the arguments ask for, or what to say where they
/// ask for none.
pub fn check_args(args: Vec<String>) -> (rows: Result<usize, &'static str>)
    ensures
        match rows {
            Ok(n) => requested_rows(arg_bytes(args@)) == Some(n),
            Err(message) => requested_rows(arg_bytes(args@)) is None && message@ == usage(),
        },
{
    if args.len() != 2 {
        return Err("Usage: create_measurements <positive integer number of records to create>");
    }
    match parse_count(args[1].as_str().as_bytes()) {
        Some(n) => {
            if n > 0 {
                Ok(n)
            } else {
                Err("Usage: create_measurements <positive integer number of records to create>")
            }
        },
        None => Err("Usage: create_measurements <positive integer number of records to create>"),
    }
}

} // verus!
