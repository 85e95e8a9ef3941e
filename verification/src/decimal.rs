//! Numbers in decimal digits.

use vstd::prelude::*;

verus! {

/// The decimal digit for `d`, for `d` below ten.
pub open spec fn digit(d: nat) -> char {
    ('0' as int + d) as char
}

/// Whether the character is one of the ten decimal digits.
pub open spec fn is_digit(c: char) -> bool {
    '0' <= c <= '9'
}

/// `count` copies of `c`.
pub open spec fn repeated(c: char, count: nat) -> Seq<char> {
    Seq::new(count, |i: int| c)
}

/// The decimal representation of `n`, most significant digit first, without
/// leading zeros (zero itself is the single digit `0`).
pub open spec fn decimal(n: nat) -> Seq<char>
    decreases n,
{
    if n < 10 {
        seq![digit(n)]
    } else {
        decimal(n / 10).push(digit(n % 10))
    }
}

/// The number that decimal digits denote: the inverse of `decimal`.
pub open spec fn decimal_value(digits: Seq<char>) -> nat
    decreases digits.len(),
{
    if digits.len() == 0 {
        0
    } else {
        decimal_value(digits.drop_last()) * 10 + (digits.last() as int - '0' as int) as nat
    }
}

/// The decimal representation of a number denotes that number.
pub proof fn lemma_decimal_value(n: nat)
    ensures
        decimal_value(decimal(n)) == n,
    decreases n,
{
    if n < 10 {
        assert(decimal(n).drop_last() =~= Seq::<char>::empty());
        assert(decimal_value(decimal(n).drop_last()) == 0);
    } else {
        lemma_decimal_value(n / 10);
        assert(decimal(n).drop_last() =~= decimal(n / 10));
    }
}

/// Zeros before a number do not change what it denotes.
pub proof fn lemma_leading_zeros(count: nat, digits: Seq<char>)
    ensures
        decimal_value(repeated('0', count) + digits) == decimal_value(digits),
    decreases digits.len(), count,
{
    let padded = repeated('0', count) + digits;
    if digits.len() > 0 {
        lemma_leading_zeros(count, digits.drop_last());
        assert(padded.drop_last() =~= repeated('0', count) + digits.drop_last());
    } else if count > 0 {
        lemma_leading_zeros((count - 1) as nat, digits);
        assert(padded.drop_last() =~= repeated('0', (count - 1) as nat) + digits);
    } else {
        assert(padded =~= digits);
    }
}

/// Whether `one` comes before `other` in the order of a dictionary, for
/// sequences of one length: they agree up to some place, where `one` has the
/// smaller character.
pub open spec fn precedes(one: Seq<char>, other: Seq<char>) -> bool {
    exists|place: int|
        0 <= place < one.len() && place < other.len() && one.take(place) == other.take(place)
            && #[trigger] one[place] < other[place]
}

/// The last `width` decimal digits of `n`, with zeros where `n` has fewer.
pub open spec fn fixed_decimal(n: nat, width: nat) -> Seq<char>
    decreases width,
{
    if width == 0 {
        Seq::empty()
    } else {
        fixed_decimal(n / 10, (width - 1) as nat).push(digit(n % 10))
    }
}

/// Zero in a fixed width is all zeros.
pub proof fn lemma_fixed_zero(width: nat)
    ensures
        fixed_decimal(0, width) == repeated('0', width),
    decreases width,
{
    if width > 0 {
        lemma_fixed_zero((width - 1) as nat);
    }
    assert(fixed_decimal(0, width) =~= repeated('0', width));
}

/// A number in a width that holds all its digits is its decimal
/// representation with zeros before it.
pub proof fn lemma_fixed_decimal(n: nat, width: nat)
    requires
        decimal(n).len() <= width,
    ensures
        fixed_decimal(n, width) == repeated('0', (width - decimal(n).len()) as nat) + decimal(n),
    decreases width,
{
    let padded = repeated('0', (width - decimal(n).len()) as nat) + decimal(n);
    if n < 10 {
        lemma_fixed_zero((width - 1) as nat);
    } else {
        lemma_fixed_decimal(n / 10, (width - 1) as nat);
    }
    assert(fixed_decimal(n, width) =~= padded);
}

/// Of two numbers in one width, the smaller comes first in the order of a
/// dictionary.
pub proof fn lemma_fixed_decimal_ascends(smaller: nat, larger: nat, width: nat)
    requires
        smaller < larger,
        decimal(larger).len() <= width,
    ensures
        precedes(fixed_decimal(smaller, width), fixed_decimal(larger, width)),
    decreases width,
{
    let one = fixed_decimal(smaller, width);
    let other = fixed_decimal(larger, width);
    let rest = (width - 1) as nat;
    assert(one.len() == width && other.len() == width) by {
        lemma_fixed_length(smaller, width);
        lemma_fixed_length(larger, width);
    }
    lemma_fixed_length(smaller / 10, rest);
    lemma_fixed_length(larger / 10, rest);
    if smaller / 10 < larger / 10 {
        lemma_fixed_decimal_ascends(smaller / 10, larger / 10, rest);
        let place = choose|place: int|
            0 <= place < fixed_decimal(smaller / 10, rest).len() && place < fixed_decimal(
                larger / 10,
                rest,
            ).len() && fixed_decimal(smaller / 10, rest).take(place) == fixed_decimal(
                larger / 10,
                rest,
            ).take(place) && #[trigger] fixed_decimal(smaller / 10, rest)[place] < fixed_decimal(
                larger / 10,
                rest,
            )[place];
        assert(one.take(place) =~= fixed_decimal(smaller / 10, rest).take(place));
        assert(other.take(place) =~= fixed_decimal(larger / 10, rest).take(place));
        assert(one[place] < other[place]);
    } else {
        assert(smaller / 10 == larger / 10);
        assert(one.take(width - 1) =~= other.take(width - 1));
        assert(one[width - 1] < other[width - 1]);
    }
}

/// A number in a fixed width has that many digits.
pub proof fn lemma_fixed_length(n: nat, width: nat)
    ensures
        fixed_decimal(n, width).len() == width,
    decreases width,
{
    if width > 0 {
        lemma_fixed_length(n / 10, (width - 1) as nat);
    }
}

/// A smaller number has no more decimal digits than a larger one.
pub proof fn lemma_decimal_length_monotonic(smaller: nat, larger: nat)
    requires
        smaller <= larger,
    ensures
        decimal(smaller).len() <= decimal(larger).len(),
    decreases larger,
{
    if larger >= 10 && smaller >= 10 {
        lemma_decimal_length_monotonic(smaller / 10, larger / 10);
    }
}

/// The first digits of a number denote no more than all of its digits.
pub proof fn lemma_decimal_value_prefix(digits: Seq<char>, k: int)
    requires
        0 <= k <= digits.len(),
        forall|i: int| 0 <= i < digits.len() ==> is_digit(#[trigger] digits[i]),
    ensures
        decimal_value(digits.take(k)) <= decimal_value(digits),
    decreases digits.len(),
{
    if k == digits.len() {
        assert(digits.take(k) =~= digits);
    } else {
        lemma_decimal_value_prefix(digits.drop_last(), k);
        assert(digits.drop_last().take(k) =~= digits.take(k));
    }
}

} // verus!
