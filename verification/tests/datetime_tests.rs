use imagev::parse_capture_datetime;

#[test]
fn embedded_datetime_is_utc_instant() {
    // 2021-05-01 10:00:00 UTC.
    assert_eq!(parse_capture_datetime("2021:05:01 10:00:00"), Some(1619863200));
}

#[test]
fn epoch_parses_to_zero() {
    assert_eq!(parse_capture_datetime("1970:01:01 00:00:00"), Some(0));
}

#[test]
fn pre_epoch_is_negative() {
    assert_eq!(parse_capture_datetime("1969:12:31 23:59:59"), Some(-1));
}

#[test]
fn trailing_nul_padding_is_accepted() {
    assert_eq!(parse_capture_datetime("2021:05:01 10:00:00\0"), Some(1619863200));
    assert_eq!(parse_capture_datetime("2021:05:01 10:00:00\0\0\0"), Some(1619863200));
}

#[test]
fn trailing_garbage_is_rejected() {
    assert_eq!(parse_capture_datetime("2021:05:01 10:00:00x"), None);
    assert_eq!(parse_capture_datetime("2021:05:01 10:00:00 "), None);
}

#[test]
fn malformed_shapes_are_rejected() {
    assert_eq!(parse_capture_datetime(""), None);
    assert_eq!(parse_capture_datetime("2021-05-01 10:00:00"), None);
    assert_eq!(parse_capture_datetime("2021:05:01T10:00:00"), None);
    assert_eq!(parse_capture_datetime("2021:05:01 10:00"), None);
    assert_eq!(parse_capture_datetime("21:05:01 10:00:00"), None);
}

#[test]
fn field_ranges_are_checked() {
    assert_eq!(parse_capture_datetime("2021:13:01 10:00:00"), None);
    assert_eq!(parse_capture_datetime("2021:00:01 10:00:00"), None);
    assert_eq!(parse_capture_datetime("2021:05:00 10:00:00"), None);
    assert_eq!(parse_capture_datetime("2021:05:32 10:00:00"), None);
    assert_eq!(parse_capture_datetime("2021:05:01 24:00:00"), None);
    assert_eq!(parse_capture_datetime("2021:05:01 10:60:00"), None);
    assert_eq!(parse_capture_datetime("2021:05:01 10:00:60"), None);
}

#[test]
fn leap_days_follow_the_calendar() {
    // 2020 is a leap year, 2021 is not, 1900 is not, 2000 is.
    assert!(parse_capture_datetime("2020:02:29 00:00:00").is_some());
    assert_eq!(parse_capture_datetime("2021:02:29 00:00:00"), None);
    assert_eq!(parse_capture_datetime("1900:02:29 00:00:00"), None);
    assert!(parse_capture_datetime("2000:02:29 00:00:00").is_some());
}

#[test]
fn known_instants_round_to_expected_values() {
    // 2000-01-01 00:00:00 UTC.
    assert_eq!(parse_capture_datetime("2000:01:01 00:00:00"), Some(946684800));
    // 2023-12-31 23:59:59 UTC.
    assert_eq!(parse_capture_datetime("2023:12:31 23:59:59"), Some(1704067199));
}
