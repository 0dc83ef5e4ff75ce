use block_sleep::duration::{parse_duration, DurationError, WaitDuration};

fn ok(secs: u64, nanos: u32) -> Result<WaitDuration, DurationError> {
    Ok(WaitDuration { secs, nanos })
}

#[test]
fn parses_plain_seconds() {
    assert_eq!(parse_duration("5"), ok(5, 0));
    assert_eq!(parse_duration("0"), ok(0, 0));
    assert_eq!(parse_duration("007"), ok(7, 0));
}

#[test]
fn parses_unit_suffixes() {
    assert_eq!(parse_duration("10s"), ok(10, 0));
    assert_eq!(parse_duration("2m"), ok(120, 0));
    assert_eq!(parse_duration("2h"), ok(7200, 0));
    assert_eq!(parse_duration("1d"), ok(86400, 0));
}

#[test]
fn parses_fractions() {
    assert_eq!(parse_duration("1.5m"), ok(90, 0));
    assert_eq!(parse_duration("0.5s"), ok(0, 500_000_000));
    assert_eq!(parse_duration("1.5h"), ok(5400, 0));
    assert_eq!(parse_duration("0.25d"), ok(21600, 0));
    assert_eq!(parse_duration(".5"), ok(0, 500_000_000));
    assert_eq!(parse_duration("5."), ok(5, 0));
    assert_eq!(parse_duration("0.001"), ok(0, 1_000_000));
}

#[test]
fn parses_leading_plus() {
    assert_eq!(parse_duration("+3h"), ok(10800, 0));
    assert_eq!(parse_duration("+0.5"), ok(0, 500_000_000));
}

#[test]
fn rejects_empty_input() {
    assert_eq!(parse_duration(""), Err(DurationError::Empty));
}

#[test]
fn rejects_negative_values() {
    assert_eq!(parse_duration("-5"), Err(DurationError::Negative));
    assert_eq!(parse_duration("-5d"), Err(DurationError::Negative));
    assert_eq!(parse_duration("-0.1s"), Err(DurationError::Negative));
    assert_eq!(parse_duration("-12345678901234567890123"), Err(DurationError::Negative));
}

#[test]
fn accepts_negative_zero_as_zero() {
    assert_eq!(parse_duration("-0"), ok(0, 0));
    assert_eq!(parse_duration("-0.0m"), ok(0, 0));
}

#[test]
fn rejects_invalid_characters() {
    assert_eq!(parse_duration("x"), Err(DurationError::InvalidChar));
    assert_eq!(parse_duration("5x"), Err(DurationError::InvalidChar));
    assert_eq!(parse_duration("s"), Err(DurationError::InvalidChar));
    assert_eq!(parse_duration("."), Err(DurationError::InvalidChar));
    assert_eq!(parse_duration("1.2.3"), Err(DurationError::InvalidChar));
    assert_eq!(parse_duration("--5"), Err(DurationError::InvalidChar));
    assert_eq!(parse_duration("-"), Err(DurationError::InvalidChar));
    assert_eq!(parse_duration("1 0"), Err(DurationError::InvalidChar));
    assert_eq!(parse_duration("1e3"), Err(DurationError::InvalidChar));
}

#[test]
fn rejects_values_too_large_for_seconds() {
    assert_eq!(parse_duration("99999999999999999999"), Err(DurationError::TooLarge));
    assert_eq!(parse_duration("18446744073709551616"), Err(DurationError::TooLarge));
    assert_eq!(parse_duration("300000000000000d"), Err(DurationError::TooLarge));
}

#[test]
fn accepts_largest_second_counts() {
    assert_eq!(parse_duration("18446744073709551615"), ok(u64::MAX, 0));
    assert_eq!(parse_duration("213503982334601d"), ok(213503982334601 * 86400, 0));
}

#[test]
fn fraction_beyond_fourteen_digits_is_cut_off() {
    assert_eq!(parse_duration("0.000000000000001"), ok(0, 0));
    assert_eq!(parse_duration("0.00000000000001"), ok(0, 0));
    assert_eq!(parse_duration("0.00000000000001d"), ok(0, 0));
    assert_eq!(parse_duration("0.00000000001d"), ok(0, 864));
}
