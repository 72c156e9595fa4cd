use order_book::decimal::{parse_units, DecError, UNIT};

#[test]
fn parse_whole_number() {
    assert_eq!(parse_units(b"1"), Ok(UNIT));
    assert_eq!(parse_units(b"100"), Ok(100 * UNIT));
    assert_eq!(parse_units(b"007"), Ok(7 * UNIT));
    assert_eq!(parse_units(b"0"), Ok(0));
}

#[test]
fn parse_fraction() {
    assert_eq!(parse_units(b"0.00127000"), Ok(127_000));
    assert_eq!(parse_units(b"99.5"), Ok(99 * UNIT + UNIT / 2));
    assert_eq!(parse_units(b"0.1"), Ok(10_000_000));
    assert_eq!(parse_units(b"1.00000001"), Ok(UNIT + 1));
}

#[test]
fn parse_extremes() {
    // u64::MAX units is 184467440737.09551615 whole units.
    assert_eq!(parse_units(b"184467440737.09551615"), Ok(u64::MAX));
    assert_eq!(parse_units(b"184467440737.09551616"), Err(DecError::TooLarge));
    assert_eq!(parse_units(b"99999999999999999999999"), Err(DecError::TooLarge));
}

#[test]
fn parse_malformed() {
    assert_eq!(parse_units(b""), Err(DecError::Malformed));
    assert_eq!(parse_units(b"."), Err(DecError::Malformed));
    assert_eq!(parse_units(b"1."), Err(DecError::Malformed));
    assert_eq!(parse_units(b".5"), Err(DecError::Malformed));
    assert_eq!(parse_units(b"1.2.3"), Err(DecError::Malformed));
    assert_eq!(parse_units(b"-1"), Err(DecError::Malformed));
    assert_eq!(parse_units(b"12a"), Err(DecError::Malformed));
    // Nine fraction digits exceed the fixed-point scale.
    assert_eq!(parse_units(b"1.123456789"), Err(DecError::Malformed));
    assert_eq!(parse_units(b" 1"), Err(DecError::Malformed));
}
