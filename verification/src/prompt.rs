//! Judging a line that was typed in answer to a request for a count.

use crate::text::{chars_of, trim_range, trimmed};
use vstd::prelude::*;

verus! {

/// What a typed line amounts to.
#[derive(Debug, Clone, Copy, PartialEq, Eq, Structural)]
pub enum CountEntry {
    /// A count that can be used.
    Accepted(u32),
    /// The number zero: a count has to be at least one.
    Zero,
    /// Not a number that fits.
    Invalid,
}

/// Whether the character is one of the digits `0` to `9`.
pub open spec fn is_digit(c: char) -> bool {
    '0' <= c <= '9'
}

/// The number that the first `upto` digits spell.
pub open spec fn decimal_upto(digits: Seq<char>, upto: int) -> nat
    decreases upto,
{
    if upto <= 0 {
        0
    } else {
        (10 * decimal_upto(digits, upto - 1) + (digits[upto - 1] as u32 - '0' as u32)) as nat
    }
}

/// Whether the text holds digits only.
pub open spec fn all_digits(digits: Seq<char>) -> bool {
    forall|i: int| 0 <= i < digits.len() ==> is_digit(#[trigger] digits[i])
}

/// The number that a text spells: an optional plus sign and then digits, at
/// least one and nothing else, spelling a number that fits in 32 bits.
pub open spec fn spelled_number(text: Seq<char>) -> Option<u32> {
    let digits = if text.len() > 0 && text[0] == '+' {
        text.skip(1)
    } else {
        text
    };
    if digits.len() > 0 && all_digits(digits) && decimal_upto(digits, digits.len() as int)
        <= u32::MAX {
        Some(decimal_upto(digits, digits.len() as int) as u32)
    } else {
        None
    }
}

/// What a line amounts to: the white space at its ends does not count, and
/// what is left has to spell a number, which has to be at least one.
pub open spec fn count_entry(line: Seq<char>) -> CountEntry {
    match spelled_number(trimmed(line)) {
        Some(count) => if count > 0 {
            CountEntry::Accepted(count)
        } else {
            CountEntry::Zero
        },
        None => CountEntry::Invalid,
    }
}

proof fn lemma_decimal_grows(digits: Seq<char>, shorter: int, longer: int)
    requires
        0 <= shorter <= longer <= digits.len(),
        all_digits(digits),
    ensures
        decimal_upto(digits, shorter) <= decimal_upto(digits, longer),
    decreases longer - shorter,
{
    if shorter < longer {
        lemma_decimal_grows(digits, shorter, longer - 1);
    }
}

/// Judges a line typed in answer to a request for a count.
pub fn read_count(line: &str) -> (entry: CountEntry)
    ensures
        entry == count_entry(line@),
{
    let chars = chars_of(line);
    let (start, end) = trim_range(&chars, 0, chars.len());
    let ghost text = trimmed(line@);
    proof {
        assert(chars@.subrange(0, chars@.len() as int) =~= chars@);
    }
    let first: usize = if start < end && chars[start] == '+' {
        start + 1
    } else {
        start
    };
    let ghost digits = if text.len() > 0 && text[0] == '+' {
        text.skip(1)
    } else {
        text
    };
    if first == end {
        return CountEntry::Invalid;
    }
    let mut value: u64 = 0;
    let mut i: usize = first;
    while i < end
        invariant
            first <= i <= end <= chars@.len(),
            digits == chars@.subrange(first as int, end as int),
            text == trimmed(line@),
            digits == (if text.len() > 0 && text[0] == '+' {
                text.skip(1)
            } else {
                text
            }),
            forall|k: int| 0 <= k < i - first ==> is_digit(#[trigger] digits[k]),
            value == decimal_upto(digits, i - first),
            value <= u32::MAX,
        decreases end - i,
    {
        let c = chars[i];
        assert(digits[i - first] == c);
        if c < '0' || c > '9' {
            return CountEntry::Invalid;
        }
        let digit = (c as u32 - '0' as u32) as u64;
        value = 10 * value + digit;
        if value > 0xffff_ffff {
            proof {
                if all_digits(digits) {
                    lemma_decimal_grows(digits, i - first + 1, digits.len() as int);
                }
            }
            return CountEntry::Invalid;
        }
        i += 1;
    }
    if value > 0 {
        CountEntry::Accepted(value as u32)
    } else {
        CountEntry::Zero
    }
}

} // verus!
