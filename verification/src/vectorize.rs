//! Layout of the quantized feature vector and the timestamp rules that feed it.
//!
//! A request becomes a vector of `DIMENSIONS` features; each feature is a fixed-point
//! value in `[0, 10_000]`, or `SENTINEL_MISSING` where the feature is absent (the time
//! and distance since the last transaction). The timestamp rules here give the
//! hour-of-day and day-of-week features and the minutes between two transactions.
use vstd::prelude::*;
use vstd::string::StringSliceAdditionalSpecFns;

verus! {

/// Number of features in a quantized vector.
pub const DIMENSIONS: usize = 14;

/// Quantized value of a feature that is absent.
pub const SENTINEL_MISSING: i16 = -10_000;

/// A point in time, reduced to what the features need.
#[derive(Debug, Clone, Copy, PartialEq, Eq, Structural)]
pub struct ParsedTimestamp {
    /// Seconds since 1970-01-01T00:00:00Z.
    pub unix_seconds: i64,
    /// Hour of day, in the offset the timestamp was written in.
    pub hour: u8,
    /// Day of week of the UTC date, Monday = 0 .. Sunday = 6.
    pub weekday: u8,
}

/// Why a timestamp was refused.
#[derive(Debug, Clone, Copy, PartialEq, Eq, Structural)]
pub enum TimestampError {
    /// Neither the fast `YYYY-MM-DDTHH:MM:SSZ` form nor RFC 3339 in general.
    InvalidRfc3339,
}

// ---------------------------------------------------------------------------
// Digits

/// `b` is an ASCII digit.
pub open spec fn is_ascii_digit(b: u8) -> bool {
    48 <= b <= 57
}

/// The value of an ASCII digit.
pub open spec fn digit_value(b: u8) -> int {
    b - 48
}

/// Two decimal digits at `start`, when both are there.
pub open spec fn spec_parse_2(bytes: Seq<u8>, start: int) -> Option<u8> {
    if 0 <= start && start + 1 < bytes.len() && is_ascii_digit(bytes[start]) && is_ascii_digit(
        bytes[start + 1],
    ) {
        Some((10 * digit_value(bytes[start]) + digit_value(bytes[start + 1])) as u8)
    } else {
        None
    }
}

/// Four decimal digits at `start`, when all four are there.
pub open spec fn spec_parse_4(bytes: Seq<u8>, start: int) -> Option<i32> {
    if 0 <= start && start + 3 < bytes.len() && is_ascii_digit(bytes[start]) && is_ascii_digit(
        bytes[start + 1],
    ) && is_ascii_digit(bytes[start + 2]) && is_ascii_digit(bytes[start + 3]) {
        Some(
            (1000 * digit_value(bytes[start]) + 100 * digit_value(bytes[start + 1]) + 10
                * digit_value(bytes[start + 2]) + digit_value(bytes[start + 3])) as i32,
        )
    } else {
        None
    }
}

fn parse_2(bytes: &[u8], start: usize) -> (result: Option<u8>)
    ensures
        result == spec_parse_2(bytes@, start as int),
{
    if start >= bytes.len() || start + 1 >= bytes.len() {
        return None;
    }
    let hi = bytes[start];
    let lo = bytes[start + 1];
    if hi < 48 || lo < 48 {
        return None;
    }
    let high = hi - 48;
    let low = lo - 48;
    if high > 9 || low > 9 {
        return None;
    }
    Some(high * 10 + low)
}

fn parse_4(bytes: &[u8], start: usize) -> (result: Option<i32>)
    ensures
        result == spec_parse_4(bytes@, start as int),
{
    if start >= bytes.len() || bytes.len() - start <= 3 {
        return None;
    }
    let (b0, b1, b2, b3) = (bytes[start], bytes[start + 1], bytes[start + 2], bytes[start + 3]);
    if b0 < 48 || b1 < 48 || b2 < 48 || b3 < 48 {
        return None;
    }
    let a = (b0 - 48) as i32;
    let b = (b1 - 48) as i32;
    let c = (b2 - 48) as i32;
    let d = (b3 - 48) as i32;
    if a > 9 || b > 9 || c > 9 || d > 9 {
        return None;
    }
    Some(a * 1000 + b * 100 + c * 10 + d)
}

// ---------------------------------------------------------------------------
// Calendar

/// Days from 1970-01-01 to the given proleptic Gregorian date, by the era-based count
/// that starts each year on the 1st of March (so that the leap day comes last).
pub open spec fn spec_days_from_civil(year: int, month: int, day: int) -> int {
    let adjusted_year = if month <= 2 {
        year - 1
    } else {
        year
    };
    let era = adjusted_year / 400;
    let year_of_era = adjusted_year - era * 400;
    let month_prime = if month > 2 {
        month - 3
    } else {
        month + 9
    };
    let day_of_year = (153 * month_prime + 2) / 5 + day - 1;
    let day_of_era = year_of_era * 365 + year_of_era / 4 - year_of_era / 100 + day_of_year;
    era * 146_097 + day_of_era - 719_468
}

/// A leap year of the Gregorian calendar: divisible by 4, and by 400 when by 100.
pub open spec fn is_leap_year(year: int) -> bool {
    (year % 4 == 0 && year % 100 != 0) || year % 400 == 0
}

/// Days of a month of the Gregorian calendar.
pub open spec fn days_in_month(year: int, month: int) -> int {
    if month == 2 {
        if is_leap_year(year) {
            29
        } else {
            28
        }
    } else if month == 4 || month == 6 || month == 9 || month == 11 {
        30
    } else {
        31
    }
}

/// Days of `month` in `year`, for a year read from four digits.
fn month_length(year: i32, month: u8) -> (result: u8)
    requires
        0 <= year,
        1 <= month <= 12,
    ensures
        result == days_in_month(year as int, month as int),
{
    if month == 2 {
        if (year % 4 == 0 && year % 100 != 0) || year % 400 == 0 {
            29
        } else {
            28
        }
    } else if month == 4 || month == 6 || month == 9 || month == 11 {
        30
    } else {
        31
    }
}

/// The date after a valid date.
pub open spec fn next_date(year: int, month: int, day: int) -> (int, int, int) {
    if day < days_in_month(year, month) {
        (year, month, day + 1)
    } else if month < 12 {
        (year, month + 1, 1)
    } else {
        (year + 1, 1, 1)
    }
}

/// Days from 1970-03-01 back or on to the 1st of March of `march_year`.
spec fn march_start(march_year: int) -> int {
    let era = march_year / 400;
    let year_of_era = march_year - era * 400;
    era * 146_097 + year_of_era * 365 + year_of_era / 4 - year_of_era / 100
}

/// One more year within an era adds a leap day to the count exactly when it is one.
proof fn lemma_year_of_era_step(t: int)
    requires
        0 <= t < 399,
    ensures
        (t + 1) / 4 - t / 4 == if (t + 1) % 4 == 0 {
            1int
        } else {
            0int
        },
        (t + 1) / 100 - t / 100 == if (t + 1) % 100 == 0 {
            1int
        } else {
            0int
        },
{
}

/// From one 1st of March to the next: 365 days, 366 when the next February has a leap
/// day.
proof fn lemma_march_start_step(march_year: int)
    ensures
        march_start(march_year + 1) - march_start(march_year) == 365 + if is_leap_year(
            march_year + 1,
        ) {
            1int
        } else {
            0int
        },
{
    let era = march_year / 400;
    let year_of_era = march_year % 400;
    vstd::arithmetic::div_mod::lemma_fundamental_div_mod(march_year, 400);
    assert(march_year == era * 400 + year_of_era);
    assert(march_year - era * 400 == year_of_era);
    let next = march_year + 1;
    if year_of_era < 399 {
        let t = year_of_era + 1;
        vstd::arithmetic::div_mod::lemma_fundamental_div_mod_converse(next, 400, era, t);
        vstd::arithmetic::div_mod::lemma_fundamental_div_mod(t, 4);
        vstd::arithmetic::div_mod::lemma_fundamental_div_mod_converse(
            next,
            4,
            era * 100 + t / 4,
            t % 4,
        );
        vstd::arithmetic::div_mod::lemma_fundamental_div_mod(t, 100);
        vstd::arithmetic::div_mod::lemma_fundamental_div_mod_converse(
            next,
            100,
            era * 4 + t / 100,
            t % 100,
        );
        lemma_year_of_era_step(year_of_era);
        assert(next - era * 400 == t);
        assert(march_start(next) == era * 146_097 + t * 365 + t / 4 - t / 100);
        assert(march_start(march_year) == era * 146_097 + year_of_era * 365 + year_of_era / 4
            - year_of_era / 100);
    } else {
        vstd::arithmetic::div_mod::lemma_fundamental_div_mod_converse(next, 400, era + 1, 0);
        assert(next - (era + 1) * 400 == 0);
        assert(march_start(next) == (era + 1) * 146_097);
        assert(march_start(march_year) == era * 146_097 + 399 * 365 + 99 - 3);
        assert(next % 4 == 0) by {
            vstd::arithmetic::div_mod::lemma_fundamental_div_mod_converse(next, 4, (era + 1) * 100, 0);
        }
    }
}

/// Day count is the proleptic Gregorian one: 1970-01-01 is day 0.
pub proof fn lemma_days_from_civil_epoch()
    ensures
        spec_days_from_civil(1970, 1, 1) == 0,
{
}

/// Day count is the proleptic Gregorian one: the day after any valid date is counted
/// one more, across month and year ends and leap days alike.
pub proof fn lemma_days_from_civil_next_day(year: int, month: int, day: int)
    requires
        1 <= month <= 12,
        1 <= day <= days_in_month(year, month),
    ensures
        ({
            let (next_year, next_month, next_day) = next_date(year, month, day);
            spec_days_from_civil(next_year, next_month, next_day) == spec_days_from_civil(
                year,
                month,
                day,
            ) + 1
        }),
{
    if day == days_in_month(year, month) && month == 2 {
        lemma_march_start_step(year - 1);
        assert(spec_days_from_civil(year, 3, 1) == march_start(year) - 719_468);
        assert(spec_days_from_civil(year, 2, day) == march_start(year - 1) + 337 + day - 1
            - 719_468);
    }
}

/// The day after a valid date falls on the next day of the week.
pub proof fn lemma_next_day_next_weekday(year: int, month: int, day: int)
    requires
        1 <= month <= 12,
        1 <= day <= days_in_month(year, month),
    ensures
        ({
            let (next_year, next_month, next_day) = next_date(year, month, day);
            spec_weekday_index_from_days(spec_days_from_civil(next_year, next_month, next_day))
                == (spec_weekday_index_from_days(spec_days_from_civil(year, month, day)) + 1) % 7
        }),
{
    lemma_days_from_civil_next_day(year, month, day);
}

/// The bound on years within which the day count fits the 32-bit arithmetic it is
/// computed in.
pub open spec fn civil_year_in_range(year: int) -> bool {
    -5_000_000 <= year <= 5_000_000
}

fn days_from_civil(year: i32, month: u8, day: u8) -> (result: Option<i64>)
    requires
        civil_year_in_range(year as int),
    ensures
        result == Some(spec_days_from_civil(year as int, month as int, day as int) as i64),
{
    let month = month as i32;
    let day = day as i32;
    let adjusted_year = year - if month <= 2 {
        1
    } else {
        0
    };
    let era = if adjusted_year >= 0 {
        adjusted_year / 400
    } else {
        (adjusted_year - 399) / 400
    };
    assert(era == adjusted_year / 400);
    let year_of_era = adjusted_year - era * 400;
    let month_prime = month + if month > 2 {
        -3
    } else {
        9
    };
    let day_of_year = (153 * month_prime + 2) / 5 + day - 1;
    let day_of_era = year_of_era * 365 + year_of_era / 4 - year_of_era / 100 + day_of_year;
    let days = era * 146_097 + day_of_era - 719_468;
    Some(days as i64)
}

/// Day of week of the day that lies `days` days after 1970-01-01 (a Thursday),
/// Monday = 0 .. Sunday = 6.
pub open spec fn spec_weekday_index_from_days(days: int) -> int {
    (days + 3) % 7
}

fn weekday_index_from_days(days_since_epoch: i64) -> (result: u8)
    requires
        days_since_epoch <= i64::MAX - 3,
    ensures
        result == spec_weekday_index_from_days(days_since_epoch as int),
        result < 7,
{
    let shifted = days_since_epoch + 3;
    if shifted >= 0 {
        ((shifted as u64) % 7) as u8
    } else {
        let mirrored = (-(shifted + 1)) as u64;
        let r = mirrored % 7;
        assert((shifted as int) % 7 == 6 - (mirrored as int) % 7) by (nonlinear_arith)
            requires
                shifted < 0,
                mirrored == -(shifted + 1),
        ;
        (6 - r) as u8
    }
}

// ---------------------------------------------------------------------------
// Timestamps

/// Twenty bytes with the separators of `YYYY-MM-DDTHH:MM:SSZ` in place.
pub open spec fn spec_zulu_shape(b: Seq<u8>) -> bool {
    &&& b.len() == 20
    &&& b[19] == 90u8
    &&& b[4] == 45u8
    &&& b[7] == 45u8
    &&& b[10] == 84u8
    &&& b[13] == 58u8
    &&& b[16] == 58u8
}

/// The timestamp of a UTC date and time of day.
pub open spec fn spec_zulu_timestamp(
    year: int,
    month: int,
    day: int,
    hour: int,
    minute: int,
    second: int,
) -> ParsedTimestamp {
    let days = spec_days_from_civil(year, month, day);
    ParsedTimestamp {
        unix_seconds: (days * 86_400 + hour * 3_600 + minute * 60 + second) as i64,
        hour: hour as u8,
        weekday: spec_weekday_index_from_days(days) as u8,
    }
}

/// The fast reading of `YYYY-MM-DDTHH:MM:SSZ` (exactly twenty bytes, UTC).
pub open spec fn spec_parse_utc_zulu_timestamp(b: Seq<u8>) -> Option<ParsedTimestamp> {
    if !spec_zulu_shape(b) {
        None
    } else {
        match (
            spec_parse_4(b, 0),
            spec_parse_2(b, 5),
            spec_parse_2(b, 8),
            spec_parse_2(b, 11),
            spec_parse_2(b, 14),
            spec_parse_2(b, 17),
        ) {
            (Some(year), Some(month), Some(day), Some(hour), Some(minute), Some(second)) => {
                if 1 <= month <= 12 && 1 <= day <= days_in_month(year as int, month as int) && hour
                    <= 23 && minute <= 59 && second <= 59 {
                    Some(
                        spec_zulu_timestamp(
                            year as int,
                            month as int,
                            day as int,
                            hour as int,
                            minute as int,
                            second as int,
                        ),
                    )
                } else {
                    None
                }
            },
            _ => None,
        }
    }
}

fn parse_utc_zulu_timestamp(timestamp: &str) -> (result: Option<ParsedTimestamp>)
    ensures
        result == spec_parse_utc_zulu_timestamp(timestamp.spec_bytes()),
{
    let bytes = timestamp.as_bytes();
    if bytes.len() != 20 || bytes[19] != 90u8 {
        return None;
    }
    if bytes[4] != 45u8 || bytes[7] != 45u8 || bytes[10] != 84u8 || bytes[13] != 58u8
        || bytes[16] != 58u8 {
        return None;
    }
    let year = match parse_4(bytes, 0) {
        Some(v) => v,
        None => return None,
    };
    let month = match parse_2(bytes, 5) {
        Some(v) => v,
        None => return None,
    };
    let day = match parse_2(bytes, 8) {
        Some(v) => v,
        None => return None,
    };
    let hour = match parse_2(bytes, 11) {
        Some(v) => v,
        None => return None,
    };
    let minute = match parse_2(bytes, 14) {
        Some(v) => v,
        None => return None,
    };
    let second = match parse_2(bytes, 17) {
        Some(v) => v,
        None => return None,
    };
    if !(1 <= month && month <= 12) || hour > 23 || minute > 59 || second > 59 {
        return None;
    }
    if !(1 <= day && day <= month_length(year, month)) {
        return None;
    }
    let days_since_epoch = match days_from_civil(year, month, day) {
        Some(v) => v,
        None => return None,
    };
    assert(-800_000 <= days_since_epoch <= 3_000_000) by (nonlinear_arith)
        requires
            days_since_epoch == spec_days_from_civil(year as int, month as int, day as int),
            0 <= year <= 9999,
            1 <= month <= 12,
            1 <= day <= 31,
    ;
    let unix_seconds = days_since_epoch * 86_400 + (hour as i64) * 3_600 + (minute as i64) * 60
        + (second as i64);
    Some(
        ParsedTimestamp {
            unix_seconds,
            hour,
            weekday: weekday_index_from_days(days_since_epoch),
        },
    )
}


/// What the RFC 3339 reader of the `time` crate makes of `text`: the instant's Unix
/// seconds and its hour of day in the offset it was written in, or nothing when the
/// text is not RFC 3339.
pub uninterp spec fn rfc3339_instant(text: Seq<char>) -> Option<(i64, u8)>;

/// Calls `time::OffsetDateTime::parse` with the `Rfc3339` description, then reads
/// `unix_timestamp` and `hour` of the parsed value. Claimed of it: the outcome depends on
/// the text alone (it is named `rfc3339_instant`), and the hour lies in `0..24`, as the
/// crate documents for `hour`.
#[verifier::external_body]
fn read_rfc3339_instant(text: &str) -> (result: Option<(i64, u8)>)
    ensures
        result == rfc3339_instant(text@),
        result matches Some((_, hour)) ==> hour < 24,
{
    match time::OffsetDateTime::parse(text, &time::format_description::well_known::Rfc3339) {
        Ok(parsed) => Some((parsed.unix_timestamp(), parsed.hour())),
        Err(_) => None,
    }
}

/// The timestamp of an instant given by its Unix seconds and its hour of day.
pub open spec fn spec_timestamp_from_instant(unix_seconds: i64, hour: u8) -> ParsedTimestamp {
    ParsedTimestamp {
        unix_seconds,
        hour,
        weekday: spec_weekday_index_from_days(unix_seconds as int / 86_400) as u8,
    }
}

/// Completes an instant read by a general RFC 3339 reader: the day of week comes from
/// the UTC day that holds `unix_seconds`.
pub fn timestamp_from_instant(unix_seconds: i64, hour: u8) -> (result: ParsedTimestamp)
    ensures
        result == spec_timestamp_from_instant(unix_seconds, hour),
        result.weekday < 7,
{
    let days_since_epoch: i64 = if unix_seconds >= 0 {
        ((unix_seconds as u64) / 86_400) as i64
    } else {
        let mirrored = (-(unix_seconds + 1)) as u64;
        let q = (mirrored / 86_400) as i64;
        assert((unix_seconds as int) / 86_400 == -q - 1) by (nonlinear_arith)
            requires
                unix_seconds < 0,
                mirrored == -(unix_seconds + 1),
                q == mirrored / 86_400,
        ;
        -q - 1
    };
    ParsedTimestamp {
        unix_seconds,
        hour,
        weekday: weekday_index_from_days(days_since_epoch),
    }
}

/// The fast reading of a `YYYY-MM-DDTHH:MM:SSZ` timestamp is a reading of the instant
/// it names, as the general reading completes one: its day of week is that of the UTC
/// day that holds its Unix seconds.
pub proof fn lemma_zulu_reading_is_an_instant_reading(b: Seq<u8>)
    requires
        spec_parse_utc_zulu_timestamp(b) is Some,
    ensures
        ({
            let t = spec_parse_utc_zulu_timestamp(b)->Some_0;
            t == spec_timestamp_from_instant(t.unix_seconds, t.hour)
        }),
{
    let year = spec_parse_4(b, 0)->Some_0 as int;
    let month = spec_parse_2(b, 5)->Some_0 as int;
    let day = spec_parse_2(b, 8)->Some_0 as int;
    let hour = spec_parse_2(b, 11)->Some_0 as int;
    let minute = spec_parse_2(b, 14)->Some_0 as int;
    let second = spec_parse_2(b, 17)->Some_0 as int;
    assert(0 <= year <= 9999);
    let days = spec_days_from_civil(year, month, day);
    assert(-800_000 <= days <= 3_000_000) by (nonlinear_arith)
        requires
            days == spec_days_from_civil(year, month, day),
            0 <= year <= 9999,
            1 <= month <= 12,
            1 <= day <= 31,
    ;
    let within = hour * 3_600 + minute * 60 + second;
    assert(0 <= within < 86_400);
    let unix = days * 86_400 + within;
    vstd::arithmetic::div_mod::lemma_fundamental_div_mod_converse(unix, 86_400, days, within);
    assert(unix / 86_400 == days);
}

/// What `parse_rfc3339` gives: the fast reading where it applies, else the general
/// RFC 3339 reading.
pub open spec fn spec_parse_rfc3339(text: &str) -> Result<ParsedTimestamp, TimestampError> {
    match spec_parse_utc_zulu_timestamp(text.spec_bytes()) {
        Some(parsed) => Ok(parsed),
        None => match rfc3339_instant(text@) {
            Some((unix_seconds, hour)) => Ok(spec_timestamp_from_instant(unix_seconds, hour)),
            None => Err(TimestampError::InvalidRfc3339),
        },
    }
}

/// Reads an RFC 3339 timestamp: `YYYY-MM-DDTHH:MM:SSZ` directly, anything else through
/// the `time` crate.
pub fn parse_rfc3339(timestamp: &str) -> (result: Result<ParsedTimestamp, TimestampError>)
    ensures
        result == spec_parse_rfc3339(timestamp),
        result matches Ok(parsed) ==> parsed.weekday < 7 && parsed.hour < 24,
{
    if let Some(parsed) = parse_utc_zulu_timestamp(timestamp) {
        return Ok(parsed);
    }
    match read_rfc3339_instant(timestamp) {
        Some((unix_seconds, hour)) => Ok(timestamp_from_instant(unix_seconds, hour)),
        None => Err(TimestampError::InvalidRfc3339),
    }
}

} // verus!
