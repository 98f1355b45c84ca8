use modeling_daily_activity::error::EncodingError;
use modeling_daily_activity::timeparse::time_to_secs_after_midnight;

fn malformed(s: &str) {
    match time_to_secs_after_midnight(s) {
        Err(EncodingError::MalformedTimestamp { timestamp }) => assert_eq!(timestamp, s),
        other => panic!("expected a malformed-timestamp error for {:?}, got {:?}", s, other),
    }
}

#[test]
fn parses_ordinary_times() {
    assert_eq!(time_to_secs_after_midnight("01:02:03"), Ok(3723));
    assert_eq!(time_to_secs_after_midnight("00:00:00"), Ok(0));
    assert_eq!(time_to_secs_after_midnight("23:59:59"), Ok(86399));
    assert_eq!(time_to_secs_after_midnight("23:00:00"), Ok(82800));
    assert_eq!(time_to_secs_after_midnight("1:2:3"), Ok(3723));
}

#[test]
fn accepts_leading_zeros() {
    assert_eq!(time_to_secs_after_midnight("0023:008:09"), Ok(82800 + 480 + 9));
}

#[test]
fn rejects_out_of_range_fields() {
    malformed("24:00:00");
    malformed("00:60:00");
    malformed("00:00:60");
    malformed("99:99:99");
    malformed("999999999999999999:00:00");
}

#[test]
fn rejects_wrong_field_counts() {
    malformed("");
    malformed("12");
    malformed("12:34");
    malformed("12:34:56:78");
    malformed("::");
}

#[test]
fn rejects_non_numeric_fields() {
    malformed("aa:bb:cc");
    malformed("12:3x:45");
    malformed("12::45");
    malformed(" 12:34:45");
    malformed("+1:00:00");
    malformed("-1:00:00");
}
