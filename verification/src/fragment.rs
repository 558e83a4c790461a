//! Fragment identifiers: the strings by which the editor names a cell.
//!
//! An identifier is a tag of two characters followed by the cell's index in
//! decimal, with an optional sign, as in `ce7`.

use vstd::prelude::*;
use crate::error::NotebookError;

verus! {

/// The number of characters in front of the index.
pub const TAG_LEN: u8 = 2;

/// The greatest magnitude an index can have: that of the least index.
pub const MAGNITUDE_LIMIT: i32 = 32768;

/// Whether `c` is one of `0` to `9`.
pub open spec fn is_digit(c: char) -> bool {
    '0' <= c <= '9'
}

/// The number that the digit `c` stands for.
pub open spec fn digit_value(c: char) -> int {
    c as int - '0' as int
}

/// Whether `text` holds digits only.
pub open spec fn all_digits(text: Seq<char>) -> bool {
    forall|i: int| 0 <= i < text.len() ==> is_digit(#[trigger] text[i])
}

/// The number that a run of digits stands for in base ten.
pub open spec fn decimal_value(digits: Seq<char>) -> int
    decreases digits.len(),
{
    if digits.len() == 0 {
        0
    } else {
        decimal_value(digits.drop_last()) * 10 + digit_value(digits.last())
    }
}

/// Whether `text` starts with a sign.
pub open spec fn has_sign(text: Seq<char>) -> bool {
    text.len() > 0 && (text[0] == '-' || text[0] == '+')
}

/// The integer that `text` spells: an optional `+` or `-`, then one digit or
/// more and nothing else. `None` for any other text.
pub open spec fn signed_decimal(text: Seq<char>) -> Option<int> {
    let digits = if has_sign(text) {
        text.skip(1)
    } else {
        text
    };
    if digits.len() > 0 && all_digits(digits) {
        if text[0] == '-' {
            Some(-decimal_value(digits))
        } else {
            Some(decimal_value(digits))
        }
    } else {
        None
    }
}

/// The cell index that `fragment` names: what follows its tag, read as a
/// signed decimal that fits in sixteen bits. `None` when the identifier is
/// shorter than its tag, when nothing or no integer follows the tag, and when
/// the integer is out of range.
pub open spec fn cell_index(fragment: Seq<char>) -> Option<i16> {
    if fragment.len() < TAG_LEN {
        None
    } else {
        match signed_decimal(fragment.skip(TAG_LEN as int)) {
            Some(value) => if i16::MIN <= value <= i16::MAX {
                Some(value as i16)
            } else {
                None
            },
            None => None,
        }
    }
}

/// What `parse_index` returns for `fragment`.
pub open spec fn parse_index_spec(fragment: Seq<char>) -> Result<i16, NotebookError> {
    match cell_index(fragment) {
        Some(index) => Ok(index),
        None => Err(NotebookError::MalformedIdentifier),
    }
}

/// A run of digits stands for a number that is not negative.
pub proof fn lemma_decimal_value_nonnegative(digits: Seq<char>)
    requires
        all_digits(digits),
    ensures
        0 <= decimal_value(digits),
    decreases digits.len(),
{
    if digits.len() > 0 {
        lemma_decimal_value_nonnegative(digits.drop_last());
        assert(is_digit(digits.last()));
    }
}

/// Reads the cell index out of a fragment identifier.
///
/// The identifier is read once, character by character: the tag is passed
/// over, a sign is taken note of, and the digits are added up for as long as
/// their value can still be that of an index.
pub fn parse_index(fragment: &str) -> (index: Result<i16, NotebookError>)
    ensures
        index == parse_index_spec(fragment@),
{
    // How many characters have been read, up to one more than the tag has.
    let mut read: u8 = 0;
    let mut signed: bool = false;
    let mut negative: bool = false;
    let mut has_digit: bool = false;
    let mut too_big: bool = false;
    let mut magnitude: i32 = 0;
    let ghost text = fragment@;
    for c in it: fragment.chars()
        invariant
            it.seq() == text,
            text == fragment@,
            read == if it.index() <= TAG_LEN { it.index() } else { TAG_LEN + 1 },
            it.index() <= TAG_LEN ==> !signed && !negative && !has_digit && !too_big && magnitude
                == 0,
            it.index() > TAG_LEN ==> {
                let number = text.skip(TAG_LEN as int);
                let digits = text.subrange(
                    if signed { TAG_LEN + 1 } else { TAG_LEN as int },
                    it.index(),
                );
                &&& signed == has_sign(number)
                &&& negative == (number[0] == '-')
                &&& all_digits(digits)
                &&& has_digit == (digits.len() > 0)
                &&& !too_big ==> 0 <= magnitude <= MAGNITUDE_LIMIT && magnitude == decimal_value(
                    digits,
                )
                &&& too_big ==> decimal_value(digits) > MAGNITUDE_LIMIT
            },
    {
        let ghost at = it.index();
        let ghost number = text.skip(TAG_LEN as int);
        let ghost start = if read == TAG_LEN && (c == '-' || c == '+') || signed {
            TAG_LEN + 1
        } else {
            TAG_LEN as int
        };
        if read < TAG_LEN {
            read = read + 1;
        } else if read == TAG_LEN && (c == '-' || c == '+') {
            read = TAG_LEN + 1;
            signed = true;
            negative = c == '-';
            proof {
                assert(number[0] == c);
                assert(text.subrange(start, at + 1).len() == 0);
            }
        } else if '0' <= c && c <= '9' {
            let digit: i32 = (c as u32 - '0' as u32) as i32;
            proof {
                let before = text.subrange(start, at);
                let after = text.subrange(start, at + 1);
                assert(number[0] == text[TAG_LEN as int]);
                assert(after.drop_last() =~= before);
                assert(after.last() == c);
                assert(is_digit(c) && digit == digit_value(c));
                if read == TAG_LEN {
                    assert(before.len() == 0);
                }
                lemma_decimal_value_nonnegative(before);
            }
            read = TAG_LEN + 1;
            has_digit = true;
            if !too_big {
                let next: i32 = magnitude * 10 + digit;
                if next > MAGNITUDE_LIMIT {
                    too_big = true;
                } else {
                    magnitude = next;
                }
            }
        } else {
            proof {
                let digits = if has_sign(number) { number.skip(1) } else { number };
                assert(number[0] == text[TAG_LEN as int]);
                assert(digits[at - start] == c);
                assert(!is_digit(digits[at - start]));
            }
            return Err(NotebookError::MalformedIdentifier);
        }
    }
    proof {
        if text.len() > TAG_LEN {
            let number = text.skip(TAG_LEN as int);
            let digits = if has_sign(number) { number.skip(1) } else { number };
            assert(number[0] == text[TAG_LEN as int]);
            assert(digits =~= text.subrange(
                if signed { TAG_LEN + 1 } else { TAG_LEN as int },
                text.len() as int,
            ));
        }
    }
    if !has_digit || too_big {
        Err(NotebookError::MalformedIdentifier)
    } else if negative {
        Ok((-magnitude) as i16)
    } else if magnitude < MAGNITUDE_LIMIT {
        Ok(magnitude as i16)
    } else {
        Err(NotebookError::MalformedIdentifier)
    }
}

} // verus!
