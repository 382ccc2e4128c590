//! Hint identifiers as the data source writes them.

use crate::decimal::{
    all_digits, decimal_digits, digits_value, is_digit, lemma_digits_grow,
    lemma_digits_write_the_number,
};
use vstd::prelude::*;
use vstd::string::*;

verus! {

/// The byte of the plus sign.
const PLUS: u8 = 43;

/// The byte of the digit zero.
const DIGIT_ZERO: u8 = 48;

/// The byte of the digit nine.
const DIGIT_NINE: u8 = 57;

/// `text` without a plus sign in front.
pub open spec fn unsigned_part(text: Seq<char>) -> Seq<char> {
    if text.len() > 0 && text[0] == '+' {
        text.drop_first()
    } else {
        text
    }
}

/// The identifier that `text` writes: an optional plus sign, then one or
/// more decimal digits whose value fits 32 bits. Any other text writes
/// none.
pub open spec fn id_of_text(text: Seq<char>) -> Option<u32> {
    let digits = unsigned_part(text);
    if digits.len() > 0 && all_digits(digits) && digits_value(digits) <= u32::MAX {
        Some(digits_value(digits) as u32)
    } else {
        None
    }
}

/// Every identifier is read back from its digits.
pub proof fn lemma_digits_write_the_id(id: u32)
    ensures
        id_of_text(decimal_digits(id as nat)) == Some(id),
{
    lemma_digits_write_the_number(id as nat);
    assert(is_digit(decimal_digits(id as nat)[0]));
}

/// What one entry of a step's identifier list stands for: the number, where
/// the entry is a number that fits 32 bits.
pub open spec fn id_of_entry(entry: Option<u64>) -> Option<u32> {
    match entry {
        Some(number) => if number <= u32::MAX {
            Some(number as u32)
        } else {
            None
        },
        None => None,
    }
}

/// The identifiers of a raw list, in order, without the entries that stand
/// for none.
pub open spec fn kept_ids(raw: Seq<Option<u64>>) -> Seq<u32> {
    raw.filter_map(|entry: Option<u64>| id_of_entry(entry))
}

/// Reads an identifier written in decimal.
pub fn parse_hint_id(text: &str) -> (id: Option<u32>)
    ensures
        id == id_of_text(text@),
{
    broadcast use is_ascii_spec_bytes;

    let ghost digits = unsigned_part(text@);
    if !text.is_ascii() {
        proof {
            let bad = choose|i: int|
                0 <= i < text@.len() && !('\0' <= #[trigger] text@[i] <= '\u{7f}');
            if text@[0] == '+' {
                assert(digits[bad - 1] == text@[bad]);
            }
        }
        return None;
    }
    let bytes = text.as_bytes();
    let len: usize = bytes.len();
    let start: usize = if len > 0 && bytes[0] == PLUS {
        1
    } else {
        0
    };
    if start == len {
        return None;
    }
    let mut value: u64 = 0;
    let mut at: usize = start;
    while at < len
        invariant
            start <= at <= len,
            len == text@.len(),
            is_ascii(text),
            forall|i: int| 0 <= i < len ==> bytes@[i] == text@[i] as u8,
            bytes@.len() == len,
            digits == text@.subrange(start as int, len as int),
            digits == unsigned_part(text@),
            all_digits(digits.take(at - start)),
            value == digits_value(digits.take(at - start)),
            value <= u32::MAX,
        decreases len - at,
    {
        let byte: u8 = bytes[at];
        let ghost c = text@[at as int];
        assert(digits[at - start] == c);
        if byte < DIGIT_ZERO || byte > DIGIT_NINE {
            return None;
        }
        assert(digits.take(at - start + 1).drop_last() =~= digits.take(at - start));
        value = value * 10 + (byte - DIGIT_ZERO) as u64;
        if value > u32::MAX as u64 {
            proof {
                if all_digits(digits) {
                    lemma_digits_grow(digits, at - start + 1);
                }
            }
            return None;
        }
        at += 1;
    }
    assert(digits.take(at - start) =~= digits);
    Some(value as u32)
}

/// Keeps the entries of a raw identifier list that are numbers fitting 32
/// bits, in order, and drops the others.
pub fn accepted_ids(raw: &[Option<u64>]) -> (ids: Vec<u32>)
    ensures
        ids@ == kept_ids(raw@),
{
    let mut ids: Vec<u32> = Vec::new();
    let mut at: usize = 0;
    while at < raw.len()
        invariant
            at <= raw.len(),
            ids@ == kept_ids(raw@.take(at as int)),
        decreases raw.len() - at,
    {
        assert(raw@.take(at + 1).drop_last() =~= raw@.take(at as int));
        match raw[at] {
            Some(number) => {
                if number <= u32::MAX as u64 {
                    ids.push(number as u32);
                }
            },
            None => {},
        }
        at += 1;
    }
    assert(raw@.take(at as int) =~= raw@);
    ids
}

} // verus!
