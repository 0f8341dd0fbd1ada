use harness_proxy::timestamp::{utc_text, LAST_FOUR_DIGIT_MILLIS};

#[test]
fn utc_text_of_a_known_instant() {
    assert_eq!(utc_text(947_638_923_004), Some("2000-01-12T01:02:03.004Z".to_string()));
}

#[test]
fn utc_text_of_the_epoch() {
    assert_eq!(utc_text(0), Some("1970-01-01T00:00:00.000Z".to_string()));
}

#[test]
fn utc_text_on_a_leap_day() {
    assert_eq!(utc_text(1_709_164_800_123), Some("2024-02-29T00:00:00.123Z".to_string()));
}

#[test]
fn utc_text_at_the_end_of_four_digit_years() {
    assert_eq!(utc_text(LAST_FOUR_DIGIT_MILLIS), Some("9999-12-31T23:59:59.999Z".to_string()));
    assert_eq!(utc_text(LAST_FOUR_DIGIT_MILLIS + 1), Some("+10000-01-01T00:00:00.000Z".to_string()));
}

#[test]
fn utc_text_past_the_writable_dates() {
    assert_eq!(utc_text(u128::MAX), None);
    assert_eq!(utc_text(i64::MAX as u128), None);
}
