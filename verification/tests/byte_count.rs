use splirst::{ByteCount, SplitError};

#[test]
fn byte_count_from_kb_arg_value() {
    let arg_value = String::from("100K");

    let result = ByteCount::from_arg_value(&arg_value);

    assert_eq!(Ok(100000), result);
}

#[test]
fn byte_count_from_mb_arg_value() {
    let arg_value = String::from("1M");

    let result = ByteCount::from_arg_value(&arg_value);

    assert_eq!(Ok(1000000), result);
}

#[test]
fn byte_count_from_gb_arg_value() {
    let arg_value = String::from("1G");

    let result = ByteCount::from_arg_value(&arg_value);

    assert_eq!(Ok(1000000000), result);
}

#[test]
fn byte_count_unit_may_be_lower_case() {
    assert_eq!(Ok(100000), ByteCount::from_arg_value("100k"));
    assert_eq!(Ok(7000000), ByteCount::from_arg_value("7m"));
    assert_eq!(Ok(3000000000), ByteCount::from_arg_value("3g"));
}

#[test]
fn byte_count_units_are_decimal() {
    assert_eq!(Ok(1000), ByteCount::from_arg_value("1K"));
    assert_eq!(Ok(1000 * 1000), ByteCount::from_arg_value("1M"));
    assert_eq!(Ok(1000 * 1000 * 1000), ByteCount::from_arg_value("1G"));
}

#[test]
fn byte_count_magnitude_may_be_zero_or_have_leading_zeros() {
    assert_eq!(Ok(0), ByteCount::from_arg_value("0K"));
    assert_eq!(Ok(12000), ByteCount::from_arg_value("0012K"));
}

#[test]
fn byte_count_magnitude_may_have_a_plus_sign() {
    assert_eq!(Ok(5000), ByteCount::from_arg_value("+5k"));
    assert_eq!(Err(SplitError::InvalidByteSize), ByteCount::from_arg_value("+k"));
    assert_eq!(Err(SplitError::InvalidByteSize), ByteCount::from_arg_value("++5k"));
    assert_eq!(Err(SplitError::InvalidByteSize), ByteCount::from_arg_value("5+k"));
}

#[test]
fn byte_count_without_a_unit_is_refused() {
    assert_eq!(Err(SplitError::InvalidByteSize), ByteCount::from_arg_value("100"));
    assert_eq!(Err(SplitError::InvalidByteSize), ByteCount::from_arg_value("100T"));
    assert_eq!(Err(SplitError::InvalidByteSize), ByteCount::from_arg_value("100KB"));
    assert_eq!(Err(SplitError::InvalidByteSize), ByteCount::from_arg_value("100 "));
}

#[test]
fn byte_count_without_a_magnitude_is_refused() {
    assert_eq!(Err(SplitError::InvalidByteSize), ByteCount::from_arg_value(""));
    assert_eq!(Err(SplitError::InvalidByteSize), ByteCount::from_arg_value("K"));
    assert_eq!(Err(SplitError::InvalidByteSize), ByteCount::from_arg_value("m"));
}

#[test]
fn byte_count_with_a_malformed_magnitude_is_refused() {
    assert_eq!(Err(SplitError::InvalidByteSize), ByteCount::from_arg_value("-1K"));
    assert_eq!(Err(SplitError::InvalidByteSize), ByteCount::from_arg_value("1.5K"));
    assert_eq!(Err(SplitError::InvalidByteSize), ByteCount::from_arg_value("1 0K"));
    assert_eq!(Err(SplitError::InvalidByteSize), ByteCount::from_arg_value("1_000K"));
    assert_eq!(Err(SplitError::InvalidByteSize), ByteCount::from_arg_value("0x10K"));
    assert_eq!(Err(SplitError::InvalidByteSize), ByteCount::from_arg_value(" 10K"));
    assert_eq!(Err(SplitError::InvalidByteSize), ByteCount::from_arg_value("tenK"));
}

#[test]
fn byte_count_outside_ascii_is_refused() {
    assert_eq!(Err(SplitError::InvalidByteSize), ByteCount::from_arg_value("１００K"));
    assert_eq!(Err(SplitError::InvalidByteSize), ByteCount::from_arg_value("100\u{212a}"));
    assert_eq!(Err(SplitError::InvalidByteSize), ByteCount::from_arg_value("é"));
}

#[test]
fn byte_count_up_to_sixty_four_bits_is_accepted() {
    assert_eq!(Ok(18446744073709551000), ByteCount::from_arg_value("18446744073709551K"));
    assert_eq!(Ok(18446744073709000000), ByteCount::from_arg_value("18446744073709M"));
    assert_eq!(Ok(18446744073000000000), ByteCount::from_arg_value("18446744073G"));
}

#[test]
fn byte_count_beyond_sixty_four_bits_is_refused() {
    assert_eq!(Err(SplitError::InvalidByteSize), ByteCount::from_arg_value("18446744073709552K"));
    assert_eq!(Err(SplitError::InvalidByteSize), ByteCount::from_arg_value("18446744073710M"));
    assert_eq!(Err(SplitError::InvalidByteSize), ByteCount::from_arg_value("18446744074G"));
    assert_eq!(Err(SplitError::InvalidByteSize), ByteCount::from_arg_value("18446744073709551616K"));
    assert_eq!(
        Err(SplitError::InvalidByteSize),
        ByteCount::from_arg_value("99999999999999999999999999999999K")
    );
}
