//! Partition values read from texts, by the session's clocks.

use comet_delta::delta::partition_value::{
    local_instant, missing_value, naive_timestamp, parse_delta_partition_scalar, try_parse_delta_partition_scalar,
    zoned_timestamp, PartitionType, PartitionValue, TimeUnit,
};
use comet_delta::delta::timezone::{
    is_white_space, parse_fixed_offset, trim, SessionTimezone,
};
use datafusion::arrow::datatypes::DataType;
use datafusion::common::ScalarValue;

fn ntz(unit: TimeUnit) -> PartitionType {
    PartitionType { name: "Timestamp(µs)".to_string(), timestamp: Some((unit, None)) }
}

fn zoned(unit: TimeUnit) -> PartitionType {
    PartitionType {
        name: "Timestamp(µs, \"UTC\")".to_string(),
        timestamp: Some((unit, Some("UTC".to_string()))),
    }
}

fn plain(name: &str) -> PartitionType {
    PartitionType { name: name.to_string(), timestamp: None }
}

fn micros(s: &str, dt: &PartitionType, tz: &str) -> i64 {
    match parse_delta_partition_scalar(s, dt, &SessionTimezone::parse(tz), tz).unwrap() {
        PartitionValue::Timestamp { value, .. } => value,
        PartitionValue::Scalar(_) => panic!("expected a timestamp"),
    }
}

fn scalar(s: &str, dt: &PartitionType) -> Result<ScalarValue, String> {
    match parse_delta_partition_scalar(s, dt, &SessionTimezone::parse("UTC"), "UTC")? {
        PartitionValue::Scalar(v) => Ok(v),
        PartitionValue::Timestamp { .. } => panic!("expected no timestamp"),
    }
}

const DAY: i64 = 86_400_000_000;
const HOUR: i64 = 3_600_000_000;

#[test]
fn fixed_offsets() {
    assert_eq!(parse_fixed_offset("Z"), Some(0));
    assert_eq!(parse_fixed_offset("z"), Some(0));
    assert_eq!(parse_fixed_offset(""), Some(0));
    assert_eq!(parse_fixed_offset("GMT"), Some(0));
    assert_eq!(parse_fixed_offset(" UTC "), Some(0));
    assert_eq!(parse_fixed_offset("+05:30"), Some(19800));
    assert_eq!(parse_fixed_offset("-08:00"), Some(-28800));
    assert_eq!(parse_fixed_offset("GMT+8"), Some(28800));
    assert_eq!(parse_fixed_offset("UTC-0330"), Some(-12600));
    assert_eq!(parse_fixed_offset("\t+01:00\u{a0}"), Some(3600));
    // The sign is that of the whole, and each part may have its own.
    assert_eq!(parse_fixed_offset("+-5:30"), Some(-16200));
}

#[test]
fn what_is_no_fixed_offset() {
    assert_eq!(parse_fixed_offset("05:30"), None);
    assert_eq!(parse_fixed_offset("+"), None);
    assert_eq!(parse_fixed_offset("+x"), None);
    assert_eq!(parse_fixed_offset("+1:2:3"), None);
    assert_eq!(parse_fixed_offset("+24:00"), None);
    assert_eq!(parse_fixed_offset("+23:59"), Some(86340));
    assert_eq!(parse_fixed_offset("-24"), None);
    assert_eq!(parse_fixed_offset("+é"), None);
}

#[test]
fn white_space_is_that_of_chars() {
    for c in '\u{0}'..=char::MAX {
        assert_eq!(is_white_space(c), c.is_whitespace());
    }
    for s in ["", "  ", " a b ", "a", "\u{2003}x\n"] {
        assert_eq!(trim(s), s.trim());
    }
}

#[test]
fn session_time_zones() {
    match SessionTimezone::parse("America/Los_Angeles") {
        SessionTimezone::Tz(name) => assert_eq!(name, "America/Los_Angeles"),
        _ => panic!("expected a named zone"),
    }
    assert!(matches!(SessionTimezone::parse("+01:00"), SessionTimezone::Offset(3600)));
    assert!(matches!(SessionTimezone::parse("Mars/Olympus"), SessionTimezone::Invalid));
}

#[test]
fn timestamps_without_a_zone() {
    let us = ntz(TimeUnit::Microsecond);
    assert_eq!(micros("1970-01-02 00:00:00", &us, "America/New_York"), DAY);
    assert_eq!(micros("1970-01-01 00:00:01.5", &us, "UTC"), 1_500_000);
    assert_eq!(micros("1969-12-31 23:59:59.999999", &us, "UTC"), -1);
    // A date alone is its midnight.
    assert_eq!(micros("1970-01-03", &us, "UTC"), 2 * DAY);
    assert_eq!(micros("1970-01-02 00:00:00", &ntz(TimeUnit::Second), "UTC"), 86400);
    assert_eq!(micros("1970-01-02 00:00:00.001", &ntz(TimeUnit::Millisecond), "UTC"), 86400001);
    assert_eq!(
        micros("1970-01-01 00:00:00.000001", &ntz(TimeUnit::Nanosecond), "UTC"),
        1000
    );
    // Parts of a unit are dropped towards zero.
    assert_eq!(micros("1969-12-31 23:59:59.5", &ntz(TimeUnit::Second), "UTC"), 0);
    // Too many nanoseconds are as many as there can be.
    assert_eq!(micros("9999-01-01 00:00:00", &ntz(TimeUnit::Nanosecond), "UTC"), i64::MAX);
    assert_eq!(micros("0001-01-01 00:00:00", &ntz(TimeUnit::Nanosecond), "UTC"), i64::MIN);
}

#[test]
fn timestamps_are_read_by_the_sessions_clocks() {
    let us = zoned(TimeUnit::Microsecond);
    assert_eq!(micros("1970-01-01 00:00:00", &us, "UTC"), 0);
    assert_eq!(micros("1970-01-01 00:00:00", &us, "America/Los_Angeles"), 8 * HOUR);
    assert_eq!(micros("1970-01-01 00:00:00", &us, "+02:00"), -2 * HOUR);
    assert_eq!(micros("1970-01-02", &us, "-01:00"), DAY + HOUR);
}

#[test]
fn an_offset_in_the_text_wins() {
    let us = zoned(TimeUnit::Microsecond);
    assert_eq!(micros("1970-01-01T00:00:00Z", &us, "America/Los_Angeles"), 0);
    assert_eq!(micros("1970-01-01T02:00:00+02:00", &us, "UTC"), 0);
    assert_eq!(micros("1970-01-01 02:00:00.25 +0200", &us, "UTC"), 250_000);
    assert_eq!(micros("1970-01-01 02:00:00 +0200", &us, "UTC"), 0);
}

#[test]
fn a_time_shown_twice_is_the_first() {
    // On 2021-11-07 clocks in Los Angeles went back from 02:00 to 01:00.
    let us = zoned(TimeUnit::Microsecond);
    let first = micros("2021-11-07T01:30:00-07:00", &us, "UTC");
    assert_eq!(micros("2021-11-07 01:30:00", &us, "America/Los_Angeles"), first);
}

#[test]
fn a_skipped_time_is_read_in_utc() {
    // On 2021-03-14 clocks in Los Angeles went from 02:00 to 03:00.
    let us = zoned(TimeUnit::Microsecond);
    let utc = micros("2021-03-14T02:30:00Z", &us, "UTC");
    assert_eq!(micros("2021-03-14 02:30:00", &us, "America/Los_Angeles"), utc);
}

#[test]
fn zoned_timestamps_in_other_units() {
    assert_eq!(micros("1970-01-01T00:00:01.5Z", &zoned(TimeUnit::Second), "UTC"), 1);
    assert_eq!(micros("1970-01-01T00:00:01.5Z", &zoned(TimeUnit::Millisecond), "UTC"), 1500);
    assert_eq!(
        micros("1970-01-01T00:00:01.5Z", &zoned(TimeUnit::Nanosecond), "UTC"),
        1_500_000_000
    );
}

#[test]
fn nanoseconds_may_not_overflow() {
    let tz = SessionTimezone::parse("UTC");
    let ns = zoned(TimeUnit::Nanosecond);
    assert!(try_parse_delta_partition_scalar("9999-01-01T00:00:00Z", &ns, &tz, "UTC").is_none());
    assert!(try_parse_delta_partition_scalar("2020-01-01T00:00:00Z", &ns, &tz, "UTC")
        .unwrap()
        .is_ok());
    let us = zoned(TimeUnit::Microsecond);
    assert!(try_parse_delta_partition_scalar("9999-01-01T00:00:00Z", &us, &tz, "UTC").is_some());
}

#[test]
fn errors_say_why() {
    let err = |s: &str, dt: &PartitionType, tz: &str| match parse_delta_partition_scalar(
        s,
        dt,
        &SessionTimezone::parse(tz),
        tz,
    ) {
        Err(e) => e,
        Ok(_) => panic!("expected an error"),
    };
    assert!(err("x", &ntz(TimeUnit::Second), "UTC").starts_with("cannot parse TIMESTAMP_NTZ 'x': "));
    assert!(err("x", &zoned(TimeUnit::Second), "UTC").starts_with("cannot parse timestamp 'x': "));
    assert_eq!(
        err("1970-01-01 00:00:00", &zoned(TimeUnit::Second), "Nowhere"),
        "invalid session TZ 'Nowhere'"
    );
    // A text with an offset needs no clocks.
    assert!(parse_delta_partition_scalar(
        "1970-01-01T00:00:00Z",
        &zoned(TimeUnit::Second),
        &SessionTimezone::parse("Nowhere"),
        "Nowhere",
    )
    .is_ok());
}

#[test]
fn other_types_are_read_as_they_are() {
    assert_eq!(scalar("42", &plain("Int32")).unwrap(), ScalarValue::Int32(Some(42)));
    assert_eq!(scalar("x", &plain("Utf8")).unwrap(), ScalarValue::from("x"));
    assert_eq!(scalar("true", &plain("Boolean")).unwrap(), ScalarValue::Boolean(Some(true)));
    assert_eq!(scalar("1970-01-03", &plain("Date32")).unwrap(), ScalarValue::Date32(Some(2)));
    assert_eq!(
        scalar("1.50", &plain("Decimal128(10, 2)")).unwrap(),
        ScalarValue::Decimal128(Some(150), 10, 2)
    );
    assert!(scalar("x", &plain("Int32")).is_err());
    assert!(scalar("x", &plain("NoSuchType")).is_err());
}

#[test]
fn times_that_were_read() {
    let t = naive_timestamp("s", Ok((1, 2_000)), TimeUnit::Microsecond).unwrap();
    assert!(matches!(t, PartitionValue::Timestamp { value: 1_000_002, tz: None, .. }));
    match naive_timestamp("s", Err("why".to_string()), TimeUnit::Second) {
        Err(e) => assert_eq!(e, "cannot parse TIMESTAMP_NTZ 's': why"),
        Ok(_) => panic!("expected an error"),
    }
    let zone = "UTC".to_string();
    assert!(zoned_timestamp(Ok(i64::MAX), TimeUnit::Nanosecond, &zone).is_none());
    assert!(matches!(
        zoned_timestamp(Ok(-1_500_000), TimeUnit::Second, &zone),
        Some(Ok(PartitionValue::Timestamp { value: -1, .. }))
    ));
    assert!(matches!(zoned_timestamp(Err("e".to_string()), TimeUnit::Second, &zone), Some(Err(_))));
    assert_eq!(
        local_instant(&SessionTimezone::Offset(3600), "", 3600, 0).unwrap(),
        0
    );
    // Where the instant is outside the dates that there are, the time is read in UTC.
    let first = -8_334_601_228_800i64;
    assert_eq!(
        local_instant(&SessionTimezone::Offset(3600), "", first, 0).unwrap(),
        first * 1_000_000
    );
    assert_eq!(
        local_instant(&SessionTimezone::Offset(-3600), "", first, 0).unwrap(),
        (first + 3600) * 1_000_000
    );
    let last = 8_210_266_876_799i64;
    assert_eq!(
        local_instant(&SessionTimezone::Offset(-1), "", last, 999_999_999).unwrap(),
        last * 1_000_000 + 999_999
    );
    assert_eq!(
        local_instant(&SessionTimezone::Offset(1), "", last, 0).unwrap(),
        (last - 1) * 1_000_000
    );
}

#[test]
fn dates_reach_as_far_as_stated() {
    let first = -8_334_601_228_800i64;
    let last = 8_210_266_876_799i64;
    assert_eq!(chrono::NaiveDateTime::MIN.and_utc().timestamp(), first);
    assert_eq!(chrono::NaiveDateTime::MAX.and_utc().timestamp(), last);
    assert!(chrono::DateTime::from_timestamp(first, 0).is_some());
    assert!(chrono::DateTime::from_timestamp(first - 1, 0).is_none());
    assert!(chrono::DateTime::from_timestamp(last, 999_999_999).is_some());
    assert!(chrono::DateTime::from_timestamp(last + 1, 0).is_none());
}

#[test]
fn a_leap_second_is_kept() {
    let us = ntz(TimeUnit::Microsecond);
    let last = micros("2016-12-31 23:59:59", &us, "UTC");
    assert_eq!(micros("2016-12-31 23:59:60", &us, "UTC"), last + 1_000_000);
    assert_eq!(micros("2016-12-31 23:59:60", &zoned(TimeUnit::Microsecond), "+00:01"), last - 59_000_000);
}

#[test]
fn offsets_that_are_none() {
    // Three bytes and one cannot be halved, nor can one, two and one.
    assert_eq!(parse_fixed_offset("+€1"), None);
    assert_eq!(parse_fixed_offset("+1é1"), None);
    assert_eq!(parse_fixed_offset("+é1"), None);
    // The seconds are no 32-bit number, or more than a day.
    assert_eq!(parse_fixed_offset("+600000"), None);
    assert_eq!(parse_fixed_offset("+1:99999999"), None);
    assert_eq!(parse_fixed_offset("+500000"), None);
    assert_eq!(parse_fixed_offset("-0800"), Some(-28800));
    assert!(matches!(SessionTimezone::parse("+1é1"), SessionTimezone::Invalid));
}

#[test]
fn missing_values_have_their_type() {
    assert_eq!(missing_value("Int64").unwrap(), ScalarValue::Int64(None));
    assert_eq!(missing_value("Utf8").unwrap(), ScalarValue::Utf8(None));
    assert!(missing_value("no such type").is_err());
    for nested in [
        "List(Int64)",
        "LargeList(non-null Utf8)",
        "Struct(\"a\": Int64, \"b\": List(Timestamp(Second, None)))",
        "List(Struct(\"a\": Decimal128(10, 2)))",
    ] {
        let v = missing_value(nested).unwrap();
        assert!(v.is_null());
        assert_eq!(v.data_type(), nested.parse::<DataType>().unwrap());
    }
    for nested in ["FixedSizeList(-1 x Int64)", "List(Time32(Nanosecond))", "Map(x)"] {
        assert_eq!(
            missing_value(nested).unwrap_err(),
            format!("no missing value of the nested type {nested}")
        );
    }
}

#[test]
fn the_session_decides_a_time_without_an_offset() {
    let us = zoned(TimeUnit::Microsecond);
    let s = "2024-03-10 12:00:00";
    let utc = micros(s, &us, "UTC");
    assert_eq!(micros(s, &us, "+05:30"), utc - 19_800_000_000);
    assert_eq!(micros(s, &us, "America/New_York"), utc + 14_400_000_000);
    // A text with an offset, and a column without a zone, are the same everywhere.
    let given = "2024-03-10T12:00:00+01:00";
    assert_eq!(micros(given, &us, "UTC"), micros(given, &us, "-0800"));
    let plain = ntz(TimeUnit::Microsecond);
    assert_eq!(micros(s, &plain, "UTC"), micros(s, &plain, "-0800"));
    assert_eq!(micros(s, &plain, "UTC"), utc);
}
