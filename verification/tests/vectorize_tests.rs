use rinha_backend_2026_luckstai_rust::vectorize::{
    parse_rfc3339, timestamp_from_instant, ParsedTimestamp, TimestampError,
};
use time::format_description::well_known::Rfc3339;
use time::{OffsetDateTime, Weekday};

fn weekday_index(weekday: Weekday) -> u8 {
    match weekday {
        Weekday::Monday => 0,
        Weekday::Tuesday => 1,
        Weekday::Wednesday => 2,
        Weekday::Thursday => 3,
        Weekday::Friday => 4,
        Weekday::Saturday => 5,
        Weekday::Sunday => 6,
    }
}

#[test]
fn fast_timestamp_parser_matches_time_crate_for_zulu_timestamps() {
    let timestamp = "2026-03-11T18:45:53Z";
    let fast = parse_rfc3339(timestamp).unwrap();
    let slow = OffsetDateTime::parse(timestamp, &Rfc3339).unwrap();

    assert_eq!(fast.unix_seconds, slow.unix_timestamp());
    assert_eq!(fast.hour, slow.hour());
    assert_eq!(fast.weekday, weekday_index(slow.weekday()));
}

#[test]
fn zulu_timestamps_give_exact_values() {
    assert_eq!(
        parse_rfc3339("2026-03-11T18:45:53Z"),
        Ok(ParsedTimestamp { unix_seconds: 1_773_254_753, hour: 18, weekday: 2 })
    );
    assert_eq!(
        parse_rfc3339("2026-03-14T05:15:12Z"),
        Ok(ParsedTimestamp { unix_seconds: 1_773_465_312, hour: 5, weekday: 5 })
    );
    assert_eq!(
        parse_rfc3339("1970-01-01T00:00:00Z"),
        Ok(ParsedTimestamp { unix_seconds: 0, hour: 0, weekday: 3 })
    );
    assert_eq!(
        parse_rfc3339("1969-12-31T23:59:59Z"),
        Ok(ParsedTimestamp { unix_seconds: -1, hour: 23, weekday: 2 })
    );
    assert_eq!(
        parse_rfc3339("2000-02-29T12:00:00Z"),
        Ok(ParsedTimestamp { unix_seconds: 951_825_600, hour: 12, weekday: 1 })
    );
}

#[test]
fn fast_parser_agrees_with_time_crate_over_a_range_of_dates() {
    let dates = [
        "1999-12-31T23:59:59Z",
        "2024-02-29T00:00:01Z",
        "2100-03-01T06:07:08Z",
        "1600-03-01T00:00:00Z",
        "0001-01-01T00:00:00Z",
        "9999-12-31T23:59:59Z",
    ];
    for date in dates {
        let fast = parse_rfc3339(date).unwrap();
        let slow = OffsetDateTime::parse(date, &Rfc3339).unwrap();
        assert_eq!(fast.unix_seconds, slow.unix_timestamp(), "{date}");
        assert_eq!(fast.hour, slow.hour(), "{date}");
        assert_eq!(fast.weekday, weekday_index(slow.to_offset(time::UtcOffset::UTC).weekday()), "{date}");
    }
}

#[test]
fn other_offsets_go_through_the_time_crate() {
    // the hour stays in the written offset, the day of week is the UTC one
    assert_eq!(
        parse_rfc3339("2026-03-11T15:45:53-03:00"),
        Ok(ParsedTimestamp { unix_seconds: 1_773_254_753, hour: 15, weekday: 2 })
    );
    assert_eq!(
        parse_rfc3339("2026-03-11T23:30:00-03:00"),
        Ok(ParsedTimestamp { unix_seconds: 1_773_282_600, hour: 23, weekday: 3 })
    );
    assert_eq!(
        parse_rfc3339("2026-03-11T18:45:53.250Z"),
        Ok(ParsedTimestamp { unix_seconds: 1_773_254_753, hour: 18, weekday: 2 })
    );
}

#[test]
fn malformed_timestamps_are_refused() {
    assert_eq!(parse_rfc3339("not a timestamp"), Err(TimestampError::InvalidRfc3339));
    assert_eq!(parse_rfc3339("2026-13-01T00:00:00Z"), Err(TimestampError::InvalidRfc3339));
    assert_eq!(parse_rfc3339("2026-03-11T18:45Z"), Err(TimestampError::InvalidRfc3339));
    assert_eq!(parse_rfc3339(""), Err(TimestampError::InvalidRfc3339));
}

#[test]
fn instants_take_the_day_of_week_of_their_utc_day() {
    assert_eq!(
        timestamp_from_instant(-1, 23),
        ParsedTimestamp { unix_seconds: -1, hour: 23, weekday: 2 }
    );
    assert_eq!(
        timestamp_from_instant(0, 0),
        ParsedTimestamp { unix_seconds: 0, hour: 0, weekday: 3 }
    );
    assert_eq!(
        timestamp_from_instant(86_400 * 4, 0),
        ParsedTimestamp { unix_seconds: 345_600, hour: 0, weekday: 0 }
    );
    assert_eq!(
        timestamp_from_instant(-86_400 * 3 - 1, 20),
        ParsedTimestamp { unix_seconds: -259_201, hour: 20, weekday: 6 }
    );
}

#[test]
fn consecutive_dates_are_one_day_and_one_weekday_apart() {
    let days = [
        "2023-12-31T10:00:00Z",
        "2024-01-01T10:00:00Z",
        "2024-01-31T10:00:00Z",
        "2024-02-01T10:00:00Z",
        "2024-02-28T10:00:00Z",
        "2024-02-29T10:00:00Z",
        "2024-03-01T10:00:00Z",
        "2100-02-28T10:00:00Z",
        "2100-03-01T10:00:00Z",
        "2000-02-28T10:00:00Z",
        "2000-02-29T10:00:00Z",
        "2000-03-01T10:00:00Z",
    ];
    let pairs = [(0, 1), (2, 3), (4, 5), (5, 6), (7, 8), (9, 10), (10, 11)];
    for (before, after) in pairs {
        let first = parse_rfc3339(days[before]).unwrap();
        let second = parse_rfc3339(days[after]).unwrap();
        assert_eq!(second.unix_seconds - first.unix_seconds, 86_400, "{}", days[after]);
        assert_eq!(second.weekday, (first.weekday + 1) % 7, "{}", days[after]);
    }
}

#[test]
fn days_past_the_end_of_their_month_are_refused_as_the_time_crate_refuses_them() {
    for date in [
        "2026-02-30T00:00:00Z",
        "2026-02-29T12:00:00Z",
        "2100-02-29T00:00:00Z",
        "2026-04-31T08:00:00Z",
        "2026-11-31T23:59:59Z",
    ] {
        assert!(OffsetDateTime::parse(date, &Rfc3339).is_err(), "{date}");
        assert_eq!(parse_rfc3339(date), Err(TimestampError::InvalidRfc3339), "{date}");
    }
    // the last day of each month still reads
    for date in ["2024-02-29T00:00:00Z", "2026-02-28T00:00:00Z", "2026-04-30T00:00:00Z", "2026-12-31T00:00:00Z"] {
        let fast = parse_rfc3339(date).unwrap();
        let slow = OffsetDateTime::parse(date, &Rfc3339).unwrap();
        assert_eq!(fast.unix_seconds, slow.unix_timestamp(), "{date}");
    }
}
