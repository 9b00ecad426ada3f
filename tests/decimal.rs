use tcx::decimal::parse_micros;

#[test]
fn decimal_whole_and_fraction() {
    assert_eq!(parse_micros("42"), Some(42_000_000));
    assert_eq!(parse_micros("3.6"), Some(3_600_000));
    assert_eq!(parse_micros("-3.6"), Some(-3_600_000));
    assert_eq!(parse_micros("+.5"), Some(500_000));
    assert_eq!(parse_micros("7."), Some(7_000_000));
    assert_eq!(parse_micros("48.640970"), Some(48_640_970));
    assert_eq!(parse_micros("0.0000019"), Some(1));
}

#[test]
fn decimal_rejects_other_text() {
    assert_eq!(parse_micros(""), None);
    assert_eq!(parse_micros("."), None);
    assert_eq!(parse_micros("-"), None);
    assert_eq!(parse_micros(" 1"), None);
    assert_eq!(parse_micros("1.2.3"), None);
    assert_eq!(parse_micros("NaN"), None);
}

#[test]
fn decimal_range_limits() {
    assert_eq!(parse_micros("9223372036854.775807"), Some(i64::MAX));
    assert_eq!(parse_micros("-9223372036854.775808"), Some(i64::MIN));
    assert_eq!(parse_micros("9223372036854.775808"), None);
    assert_eq!(parse_micros("99999999999999999999"), None);
    assert_eq!(parse_micros("00000000000000000000001"), Some(1_000_000));
}

#[test]
fn decimal_exponents() {
    assert_eq!(parse_micros("1e3"), Some(1_000_000_000));
    assert_eq!(parse_micros("2.5E-2"), Some(25_000));
    assert_eq!(parse_micros("5.e1"), Some(50_000_000));
    assert_eq!(parse_micros("-1.5e+2"), Some(-150_000_000));
    assert_eq!(parse_micros("1e-7"), Some(0));
    assert_eq!(parse_micros("123e-8"), Some(1));
    assert_eq!(parse_micros("1e12"), Some(1_000_000_000_000_000_000));
    assert_eq!(parse_micros("1e13"), None);
    assert_eq!(parse_micros("0e99999999999999999999999"), Some(0));
    assert_eq!(parse_micros("1e99999999999999999999999"), None);
    assert_eq!(parse_micros("7e-99999999999999999999999"), Some(0));
    assert_eq!(parse_micros("1e"), None);
    assert_eq!(parse_micros("1e+"), None);
    assert_eq!(parse_micros("e5"), None);
    assert_eq!(parse_micros("1e5x"), None);
}
