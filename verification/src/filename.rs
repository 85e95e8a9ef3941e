//! Names of output files: a prefix followed by a suffix of fixed width that
//! encodes the file's number, in letters or in decimal digits.

use vstd::prelude::*;
use crate::decimal::{
    decimal, decimal_value, digit, lemma_decimal_length_monotonic, lemma_decimal_value,
    lemma_fixed_decimal, lemma_fixed_decimal_ascends, lemma_leading_zeros, precedes, repeated,
};

verus! {

/// How many names the alphabetic scheme has: two letters, twenty-six each.
pub const ALPHABETIC_CAPACITY: usize = 676;

/// `String::push` appends one character to the end of the string and leaves
/// what was there before in place.
pub assume_specification[ String::push ](s: &mut String, c: char)
    ensures
        final(s)@ == old(s)@.push(c),
;

/// The lowercase letter at position `i` of the alphabet, for `i` below twenty-six.
pub open spec fn letter(i: nat) -> char {
    ('a' as int + i) as char
}

/// The numeric suffix: `file_number - 1` in decimal, padded with zeros on the
/// left to `suffix_length` digits.
pub open spec fn numeric_suffix(file_number: nat, suffix_length: nat) -> Seq<char> {
    let digits = decimal((file_number - 1) as nat);
    repeated('0', (suffix_length - digits.len()) as nat) + digits
}

/// The alphabetic suffix: `file_number - 1` written as two letters in base
/// twenty-six, padded with `a` on the left to `suffix_length` letters.
pub open spec fn alphabetic_suffix(file_number: nat, suffix_length: nat) -> Seq<char> {
    let index = (file_number - 1) as nat;
    repeated('a', (suffix_length - 2) as nat) + seq![letter(index / 26), letter(index % 26)]
}

/// The suffix of the file with the given number.
pub open spec fn suffix_of(file_number: nat, suffix_length: nat, numeric: bool) -> Seq<char> {
    if numeric {
        numeric_suffix(file_number, suffix_length)
    } else {
        alphabetic_suffix(file_number, suffix_length)
    }
}

/// Whether the file number has a suffix of the given width. Numbers start at
/// one. A numeric suffix must have room for every digit of `file_number - 1`;
/// an alphabetic suffix has two significant letters, so it needs a width of
/// at least two and numbers no file beyond `ALPHABETIC_CAPACITY`.
pub open spec fn has_suffix(file_number: nat, suffix_length: nat, numeric: bool) -> bool {
    &&& file_number >= 1
    &&& if numeric {
        decimal((file_number - 1) as nat).len() <= suffix_length
    } else {
        suffix_length >= 2 && file_number <= ALPHABETIC_CAPACITY
    }
}

/// A suffix is exactly as wide as asked.
pub proof fn lemma_suffix_length(file_number: nat, suffix_length: nat, numeric: bool)
    requires
        has_suffix(file_number, suffix_length, numeric),
    ensures
        suffix_of(file_number, suffix_length, numeric).len() == suffix_length,
{
}

/// Within a block of twenty-six files the first significant letter stays the
/// same, and the last file of a block still belongs to it: a file number that
/// is a multiple of twenty-six takes the first letter of the block before the
/// quotient's, and `z` as its second letter.
pub proof fn lemma_last_of_block(file_number: nat, suffix_length: nat)
    requires
        has_suffix(file_number, suffix_length, false),
    ensures
        ({
            let suffix = alphabetic_suffix(file_number, suffix_length);
            let first = suffix[suffix_length - 2];
            let second = suffix[suffix_length - 1];
            if file_number % 26 == 0 {
                first == letter((file_number / 26 - 1) as nat) && second == 'z'
            } else {
                first == letter(file_number / 26) && second == letter(
                    (file_number % 26 - 1) as nat,
                )
            }
        }),
{
}

/// A numeric suffix, read as a decimal number, is the file number less one.
pub proof fn lemma_numeric_suffix_value(file_number: nat, suffix_length: nat)
    requires
        has_suffix(file_number, suffix_length, true),
    ensures
        decimal_value(numeric_suffix(file_number, suffix_length)) == file_number - 1,
{
    let digits = decimal((file_number - 1) as nat);
    lemma_decimal_value((file_number - 1) as nat);
    lemma_leading_zeros((suffix_length - digits.len()) as nat, digits);
}

/// Two files with different numbers have different suffixes.
pub proof fn lemma_suffixes_differ(first: nat, second: nat, suffix_length: nat, numeric: bool)
    requires
        has_suffix(first, suffix_length, numeric),
        has_suffix(second, suffix_length, numeric),
        first != second,
    ensures
        suffix_of(first, suffix_length, numeric) != suffix_of(second, suffix_length, numeric),
{
    if numeric {
        lemma_numeric_suffix_value(first, suffix_length);
        lemma_numeric_suffix_value(second, suffix_length);
    } else {
        let one = alphabetic_suffix(first, suffix_length);
        let other = alphabetic_suffix(second, suffix_length);
        assert(one[suffix_length - 2] == letter(((first - 1) / 26) as nat));
        assert(one[suffix_length - 1] == letter(((first - 1) % 26) as nat));
        assert(other[suffix_length - 2] == letter(((second - 1) / 26) as nat));
        assert(other[suffix_length - 1] == letter(((second - 1) % 26) as nat));
    }
}

/// Two files with different numbers have different names.
pub proof fn lemma_names_differ(
    prefix: Seq<char>,
    first: nat,
    second: nat,
    suffix_length: nat,
    numeric: bool,
)
    requires
        has_suffix(first, suffix_length, numeric),
        has_suffix(second, suffix_length, numeric),
        first != second,
    ensures
        prefix + suffix_of(first, suffix_length, numeric) != prefix + suffix_of(
            second,
            suffix_length,
            numeric,
        ),
{
    let one = suffix_of(first, suffix_length, numeric);
    let other = suffix_of(second, suffix_length, numeric);
    lemma_suffixes_differ(first, second, suffix_length, numeric);
    if prefix + one == prefix + other {
        assert(one =~= (prefix + one).skip(prefix.len() as int));
        assert(other =~= (prefix + other).skip(prefix.len() as int));
    }
}

/// Of two files, the one with the smaller number has the suffix that comes
/// first in the order of a dictionary: files sorted by their suffixes are in
/// the order of their numbers.
pub proof fn lemma_suffixes_ascend(first: nat, second: nat, suffix_length: nat, numeric: bool)
    requires
        has_suffix(first, suffix_length, numeric),
        has_suffix(second, suffix_length, numeric),
        first < second,
    ensures
        precedes(
            suffix_of(first, suffix_length, numeric),
            suffix_of(second, suffix_length, numeric),
        ),
{
    let one = suffix_of(first, suffix_length, numeric);
    let other = suffix_of(second, suffix_length, numeric);
    if numeric {
        lemma_decimal_length_monotonic((first - 1) as nat, (second - 1) as nat);
        lemma_fixed_decimal((first - 1) as nat, suffix_length);
        lemma_fixed_decimal((second - 1) as nat, suffix_length);
        lemma_fixed_decimal_ascends((first - 1) as nat, (second - 1) as nat, suffix_length);
    } else if (first - 1) / 26 < (second - 1) / 26 {
        assert(one.take(suffix_length - 2) =~= other.take(suffix_length - 2));
        assert(one[suffix_length - 2] < other[suffix_length - 2]);
    } else {
        assert(one.take(suffix_length - 1) =~= other.take(suffix_length - 1));
        assert(one[suffix_length - 1] < other[suffix_length - 1]);
    }
}

/// Of two files, the one with the smaller number has the name that comes
/// first in the order of a dictionary.
pub proof fn lemma_names_ascend(
    prefix: Seq<char>,
    first: nat,
    second: nat,
    suffix_length: nat,
    numeric: bool,
)
    requires
        has_suffix(first, suffix_length, numeric),
        has_suffix(second, suffix_length, numeric),
        first < second,
    ensures
        precedes(
            prefix + suffix_of(first, suffix_length, numeric),
            prefix + suffix_of(second, suffix_length, numeric),
        ),
{
    let one = suffix_of(first, suffix_length, numeric);
    let other = suffix_of(second, suffix_length, numeric);
    lemma_suffixes_ascend(first, second, suffix_length, numeric);
    let place = choose|place: int|
        0 <= place < one.len() && place < other.len() && one.take(place) == other.take(place)
            && #[trigger] one[place] < other[place];
    let shifted = prefix.len() + place;
    assert((prefix + one).take(shifted) =~= prefix + one.take(place));
    assert((prefix + other).take(shifted) =~= prefix + other.take(place));
    assert((prefix + one)[shifted] < (prefix + other)[shifted]);
}

/// The digit character for `d`.
fn digit_of(d: usize) -> (c: char)
    requires
        d < 10,
    ensures
        c == digit(d as nat),
{
    (48u8 + d as u8) as char
}

/// The letter at position `i` of the alphabet.
fn letter_of(i: usize) -> (c: char)
    requires
        i < 26,
    ensures
        c == letter(i as nat),
{
    (97u8 + i as u8) as char
}

/// The digits of `n` that are still to come once its last digits have been
/// taken off and `rest` is left.
spec fn leading_digits(rest: nat) -> Seq<char> {
    if rest == 0 {
        Seq::empty()
    } else {
        decimal(rest)
    }
}

/// The digits of `n`, least significant first.
fn digits_reversed(n: usize) -> (digits: Vec<char>)
    ensures
        digits@.len() == decimal(n as nat).len(),
        forall|i: int|
            0 <= i < digits@.len() ==> digits@[i] == decimal(n as nat)[digits@.len() - 1 - i],
{
    let mut digits: Vec<char> = Vec::new();
    digits.push(digit_of(n % 10));
    let mut rest: usize = n / 10;
    while rest > 0
        invariant
            decimal(n as nat) =~= leading_digits(rest as nat) + Seq::new(
                digits@.len(),
                |i: int| digits@[digits@.len() - 1 - i],
            ),
        decreases rest,
    {
        let ghost before = digits@;
        digits.push(digit_of(rest % 10));
        rest = rest / 10;
        assert(forall|i: int| 0 <= i < before.len() ==> digits@[i] == before[i]);
    }
    digits
}

/// Appends `count` copies of `c` to `name`.
fn push_repeated(name: &mut String, c: char, count: usize)
    ensures
        final(name)@ == old(name)@ + repeated(c, count as nat),
{
    let mut i: usize = 0;
    while i < count
        invariant
            i <= count,
            name@ =~= old(name)@ + repeated(c, i as nat),
        decreases count - i,
    {
        name.push(c);
        i += 1;
    }
}

/// Appends the suffix of the given file number to `name`.
fn push_suffix(name: &mut String, file_number: usize, suffix_length: usize, numeric_suffix: bool)
    requires
        has_suffix(file_number as nat, suffix_length as nat, numeric_suffix),
    ensures
        final(name)@ == old(name)@ + suffix_of(
            file_number as nat,
            suffix_length as nat,
            numeric_suffix,
        ),
{
    if numeric_suffix {
        let digits = digits_reversed(file_number - 1);
        let ghost number = decimal((file_number - 1) as nat);
        push_repeated(name, '0', suffix_length - digits.len());
        let ghost padded = name@;
        let mut left: usize = digits.len();
        while left > 0
            invariant
                left <= digits@.len(),
                digits@.len() == number.len(),
                forall|i: int|
                    0 <= i < digits@.len() ==> digits@[i] == number[digits@.len() - 1 - i],
                name@ =~= padded + number.subrange(0, digits@.len() - left),
            decreases left,
        {
            left -= 1;
            name.push(digits[left]);
        }
        assert(number.subrange(0, number.len() as int) =~= number);
    } else {
        let index = file_number - 1;
        push_repeated(name, 'a', suffix_length - 2);
        name.push(letter_of(index / 26));
        name.push(letter_of(index % 26));
        assert(name@ =~= old(name)@ + alphabetic_suffix(file_number as nat, suffix_length as nat));
    }
}

/// Builds the names of output files.
pub struct Filename;

impl Filename {
    /// Whether file number `file_number` has a suffix of width
    /// `suffix_length`, and so a name: what `suffix` and `build` ask of their
    /// arguments.
    pub fn can_build(file_number: usize, suffix_length: usize, numeric_suffix: bool) -> (ok: bool)
        ensures
            ok == has_suffix(file_number as nat, suffix_length as nat, numeric_suffix),
    {
        if file_number == 0 {
            false
        } else if numeric_suffix {
            digits_reversed(file_number - 1).len() <= suffix_length
        } else {
            suffix_length >= 2 && file_number <= ALPHABETIC_CAPACITY
        }
    }

    /// The suffix of file number `file_number`: exactly `suffix_length`
    /// characters, in decimal digits or in lowercase letters. The file number
    /// must have such a suffix (see `can_build`): a numeric suffix has room
    /// for all digits of `file_number - 1`, an alphabetic one is at least two
    /// letters wide and numbers no file beyond `ALPHABETIC_CAPACITY`.
    pub fn suffix(file_number: usize, suffix_length: usize, numeric_suffix: bool) -> (suffix:
        String)
        requires
            has_suffix(file_number as nat, suffix_length as nat, numeric_suffix),
        ensures
            suffix@ == suffix_of(file_number as nat, suffix_length as nat, numeric_suffix),
            suffix@.len() == suffix_length,
    {
        let mut suffix = String::new();
        push_suffix(&mut suffix, file_number, suffix_length, numeric_suffix);
        assert(suffix@ =~= suffix_of(file_number as nat, suffix_length as nat, numeric_suffix));
        suffix
    }

    /// The name of file number `file_number`: the prefix, then the suffix.
    /// The file number must have a suffix of the width asked for (see
    /// `can_build`).
    pub fn build(
        file_number: usize,
        suffix_length: usize,
        numeric_suffix: bool,
        prefix: String,
    ) -> (name: String)
        requires
            has_suffix(file_number as nat, suffix_length as nat, numeric_suffix),
        ensures
            name@ == prefix@ + suffix_of(file_number as nat, suffix_length as nat, numeric_suffix),
            name@.len() == prefix@.len() + suffix_length,
    {
        let mut name = prefix;
        push_suffix(&mut name, file_number, suffix_length, numeric_suffix);
        name
    }
}

} // verus!
