//! Byte sizes as they are written on a command line: a decimal magnitude and
//! a unit, as in `100K`.

use vstd::prelude::*;
use vstd::string::is_ascii_spec_bytes;
use vstd::utf8::is_ascii_chars;
use crate::decimal::{decimal_value, is_digit, lemma_decimal_value_prefix};
use crate::error::SplitError;

verus! {

/// How many bytes one of the unit stands for: a thousand for `k`, a million
/// for `m`, a thousand millions for `g`, in either case of the letter.
pub open spec fn unit_multiplier(unit: char) -> Option<nat> {
    if unit == 'k' || unit == 'K' {
        Some(1_000nat)
    } else if unit == 'm' || unit == 'M' {
        Some(1_000_000nat)
    } else if unit == 'g' || unit == 'G' {
        Some(1_000_000_000nat)
    } else {
        None
    }
}

/// The digits of a magnitude: what follows its plus sign, if it has one.
pub open spec fn magnitude_digits(text: Seq<char>) -> Seq<char> {
    if text.len() > 0 && text[0] == '+' {
        text.drop_first()
    } else {
        text
    }
}

/// The magnitude that the text denotes: one or more decimal digits, before
/// which a plus sign may stand.
pub open spec fn magnitude(text: Seq<char>) -> Option<nat> {
    let digits = magnitude_digits(text);
    if digits.len() > 0 && (forall|i: int| 0 <= i < digits.len() ==> is_digit(#[trigger] digits[i])) {
        Some(decimal_value(digits))
    } else {
        None
    }
}

/// The number of bytes that the text denotes: its last character is the
/// unit, and all before it is the magnitude.
pub open spec fn byte_size(text: Seq<char>) -> Option<nat> {
    if text.len() == 0 {
        None
    } else {
        match (magnitude(text.drop_last()), unit_multiplier(text.last())) {
            (Some(number), Some(multiplier)) => Some(number * multiplier),
            _ => None,
        }
    }
}

/// What parsing the text returns: its byte size where it denotes one that
/// fits in 64 bits.
pub open spec fn parsed_byte_size(text: Seq<char>) -> Result<u64, SplitError> {
    match byte_size(text) {
        Some(size) => if size <= u64::MAX {
            Ok(size as u64)
        } else {
            Err(SplitError::InvalidByteSize)
        },
        None => Err(SplitError::InvalidByteSize),
    }
}

/// A text with a character outside ASCII denotes no byte size.
proof fn lemma_not_ascii(text: Seq<char>)
    requires
        !is_ascii_chars(text),
    ensures
        byte_size(text) is None,
{
    let i = choose|i: int| 0 <= i < text.len() && !('\0' <= #[trigger] text[i] <= '\u{7f}');
    if i < text.len() - 1 {
        let front = text.drop_last();
        let digits = magnitude_digits(front);
        assert(front[i] == text[i]);
        if front[0] == '+' {
            assert(i > 0);
            assert(digits[i - 1] == text[i]);
            assert(!is_digit(digits[i - 1]));
        } else {
            assert(!is_digit(digits[i]));
        }
    }
}

/// Parses byte sizes.
pub struct ByteCount;

impl ByteCount {
    /// The number of bytes that `value` denotes. The last character is the
    /// unit, `k`, `m` or `g` in either case, for a thousand, a million or a
    /// thousand millions; everything before it is the magnitude, in decimal
    /// digits, before which a plus sign may stand. Anything else, and a size
    /// that does not fit in 64 bits, is refused.
    pub fn from_arg_value(value: &str) -> (result: Result<u64, SplitError>)
        ensures
            result == parsed_byte_size(value@),
    {
        if !value.is_ascii() {
            proof {
                lemma_not_ascii(value@);
            }
            return Err(SplitError::InvalidByteSize);
        }
        let bytes = value.as_bytes();
        proof {
            is_ascii_spec_bytes(value);
            assert(bytes@.len() == value@.len());
            assert forall|j: int| 0 <= j < value@.len() implies value@[j] as u8 == bytes@[j]
                && value@[j] as int == bytes@[j] as int by {
                assert('\0' <= value@[j] <= '\u{7f}');
            }
        }
        let length = bytes.len();
        if length == 0 {
            return Err(SplitError::InvalidByteSize);
        }
        let end = length - 1;
        let unit = bytes[end];
        let multiplier: u64 = if unit == 107 || unit == 75 {
            1_000
        } else if unit == 109 || unit == 77 {
            1_000_000
        } else if unit == 103 || unit == 71 {
            1_000_000_000
        } else {
            return Err(SplitError::InvalidByteSize);
        };
        assert(unit_multiplier(value@.last()) == Some(multiplier as nat));
        let ghost front = value@.drop_last();
        let ghost digits = magnitude_digits(front);
        let first: usize = if end > 0 && bytes[0] == 43 {
            1
        } else {
            0
        };
        if first == end {
            return Err(SplitError::InvalidByteSize);
        }
        assert(front[0] == value@[0]);
        assert(digits =~= value@.subrange(first as int, end as int));
        let mut number: u64 = 0;
        let mut i: usize = first;
        while i < end
            invariant
                first <= i <= end,
                end == value@.len() - 1,
                bytes@.len() == value@.len(),
                forall|j: int| 0 <= j < value@.len() ==> value@[j] as int == bytes@[j] as int,
                multiplier >= 1,
                unit_multiplier(value@.last()) == Some(multiplier as nat),
                front == value@.drop_last(),
                digits == magnitude_digits(front),
                digits == value@.subrange(first as int, end as int),
                forall|j: int| 0 <= j < i - first ==> is_digit(#[trigger] digits[j]),
                number == decimal_value(digits.take(i - first)),
            decreases end - i,
        {
            let c = bytes[i];
            assert(digits[i - first] == value@[i as int]);
            if c < 48 || c > 57 {
                assert(!is_digit(digits[i - first]));
                return Err(SplitError::InvalidByteSize);
            }
            let digit = (c - 48) as u64;
            proof {
                assert(is_digit(digits[i - first]));
                assert(digits.take(i - first + 1).drop_last() =~= digits.take(i - first));
                assert(digits.take(i - first + 1).last() == digits[i - first]);
            }
            if number > (u64::MAX - digit) / 10 {
                proof {
                    if forall|j: int| 0 <= j < digits.len() ==> is_digit(#[trigger] digits[j]) {
                        lemma_decimal_value_prefix(digits, i - first + 1);
                        assert(decimal_value(digits) * multiplier >= decimal_value(digits))
                            by (nonlinear_arith)
                            requires
                                multiplier >= 1,
                        ;
                    }
                }
                return Err(SplitError::InvalidByteSize);
            }
            number = number * 10 + digit;
            i += 1;
        }
        assert(digits.take(end - first) =~= digits);
        match number.checked_mul(multiplier) {
            Some(size) => Ok(size),
            None => Err(SplitError::InvalidByteSize),
        }
    }
}

} // verus!
