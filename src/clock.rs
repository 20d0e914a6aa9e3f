use vstd::prelude::*;
use chrono::{Datelike, TimeZone};

verus! {

/// The first second of year 1 (0001-01-01T00:00:00Z), in seconds since the epoch.
pub const MIN_CALENDAR_TIME: i64 = -62_135_596_800;

/// The last second of year 9999 (9999-12-31T23:59:59Z), in seconds since the epoch.
pub const MAX_CALENDAR_TIME: i64 = 253_402_300_799;

/// The day of the month (from 1) of the day `days` after 1970-01-01, in the proleptic
/// Gregorian calendar: the day count is shifted to start on 0000-03-01, cut into
/// 400-year eras, then into years and months that begin in March.
pub open spec fn day_of_month(days: int) -> int {
    let z = days + 719468;
    let era = z / 146097;
    let doe = z - era * 146097;
    let yoe = (doe - doe / 1460 + doe / 36524 - doe / 146096) / 365;
    let doy = doe - (365 * yoe + yoe / 4 - yoe / 100);
    let mp = (5 * doy + 2) / 153;
    doy - (153 * mp + 2) / 5 + 1
}

/// The first instant (UTC) of the calendar month that holds the timestamp `ts`.
pub open spec fn month_start(ts: int) -> int {
    let days = ts / 86400;
    (days - (day_of_month(days) - 1)) * 86400
}

/// The month start used for the reset pass at `now`: where `now` lies outside the
/// calendar range, a bound that no change time falls before.
pub open spec fn month_floor(now: i64) -> int {
    if MIN_CALENDAR_TIME <= now <= MAX_CALENDAR_TIME {
        month_start(now as int)
    } else {
        i64::MIN as int
    }
}

/// Relies on `chrono::Utc::now`: the current time, in whole seconds since the epoch.
#[verifier::external_body]
pub(crate) fn current_time() -> (r: i64) {
    chrono::Utc::now().timestamp()
}

/// Relies on chrono's `DateTime::from_timestamp` and `Utc.with_ymd_and_hms`, which
/// represent every date of years 1 to 9999 in the proleptic Gregorian calendar: the
/// start of the month (UTC) that holds `ts`.
#[verifier::external_body]
pub(crate) fn start_of_month(ts: i64) -> (r: i64)
    requires
        MIN_CALENDAR_TIME <= ts <= MAX_CALENDAR_TIME,
    ensures
        r == month_start(ts as int),
{
    chrono::DateTime::from_timestamp(ts, 0)
        .and_then(|d| chrono::Utc.with_ymd_and_hms(d.year(), d.month(), 1, 0, 0, 0).single())
        .map(|d| d.timestamp())
        .unwrap_or(ts)
}

} // verus!
