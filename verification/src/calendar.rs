//! The calendar model: a plain-value snapshot of a zoned datetime, the
//! Gregorian month-length rules, and the trusted bridge to the host
//! calendar facility (the `jiff` crate) for zone-aware arithmetic.

use vstd::prelude::*;
use crate::Error;

verus! {

/// A minute-resolution snapshot of an instant viewed in a time zone:
/// the instant as milliseconds since the Unix epoch, together with its
/// local calendar components. `weekday` is Monday=1 through Sunday=7.
#[derive(Debug, Clone, Copy)]
pub struct ZonedTime {
    pub ms: i64,
    pub year: i16,
    pub month: u8,
    pub day: u8,
    pub hour: u8,
    pub minute: u8,
    pub second: u8,
    pub weekday: u8,
}

impl ZonedTime {
    /// The components form a valid Gregorian date and time of day.
    pub open spec fn wf(&self) -> bool {
        &&& -9999 <= self.year <= 9999
        &&& 1 <= self.month <= 12
        &&& 1 <= self.day <= spec_days_in_month(self.year as int, self.month as int)
        &&& self.hour <= 23
        &&& self.minute <= 59
        &&& self.second <= 59
        &&& 1 <= self.weekday <= 7
    }
}

/// A year has a February 29th iff it is divisible by 4, except that
/// century years must be divisible by 400.
pub open spec fn spec_is_leap_year(year: int) -> bool {
    year % 4 == 0 && (year % 100 != 0 || year % 400 == 0)
}

/// The number of days of `month` in `year`, proleptic Gregorian.
pub open spec fn spec_days_in_month(year: int, month: int) -> int {
    if month == 2 {
        if spec_is_leap_year(year) {
            29
        } else {
            28
        }
    } else if month == 4 || month == 6 || month == 9 || month == 11 {
        30
    } else {
        31
    }
}

pub fn is_leap_year(year: i16) -> (r: bool)
    requires
        -9999 <= year,
    ensures
        r == spec_is_leap_year(year as int),
{
    // Shift by a multiple of 400 to stay in nonnegative territory, where
    // the executable `%` agrees with the mathematical one.
    let y: i32 = year as i32 + 10000;
    proof {
        assert((year as int + 10000) % 4 == year as int % 4) by (nonlinear_arith);
        assert((year as int + 10000) % 100 == year as int % 100) by (nonlinear_arith);
        assert((year as int + 10000) % 400 == year as int % 400) by (nonlinear_arith);
    }
    y % 4 == 0 && (y % 100 != 0 || y % 400 == 0)
}

pub fn days_in_month(year: i16, month: u8) -> (r: u8)
    requires
        -9999 <= year,
        1 <= month <= 12,
    ensures
        r == spec_days_in_month(year as int, month as int),
        28 <= r <= 31,
{
    if month == 2 {
        if is_leap_year(year) {
            29
        } else {
            28
        }
    } else if month == 4 || month == 6 || month == 9 || month == 11 {
        30
    } else {
        31
    }
}

#[verifier::external_type_specification]
#[verifier::external_body]
pub struct ExZoned(jiff::Zoned);

/// Relies on the `jiff::Zoned` component accessors and
/// `Weekday::to_monday_one_offset`: the snapshot of a zoned datetime holds
/// its instant in milliseconds and its local components, which form a
/// valid Gregorian date and time of day.
#[verifier::external_body]
fn zoned_fields(z: &jiff::Zoned) -> (r: ZonedTime)
    ensures
        r.wf(),
{
    ZonedTime { ms: z.timestamp().as_millisecond(), year: z.year(), month: z.month() as u8,
        day: z.day() as u8, hour: z.hour() as u8, minute: z.minute() as u8,
        second: z.second() as u8, weekday: z.weekday().to_monday_one_offset() as u8 }
}

/// Relies on `jiff::tz::TimeZone::get`: whether the host zone database
/// resolves `name`.
#[verifier::external_body]
pub fn timezone_available(name: &str) -> bool {
    jiff::tz::TimeZone::get(name).is_ok()
}

/// Relies on `jiff::Zoned::checked_add` and `jiff::Zoned::round`: adding one
/// minute and truncating to the minute yields an instant on a whole second
/// (offsets are whole seconds and truncation zeroes the civil subseconds).
/// A zone transition can step the truncated time backward past the input,
/// or off the minute boundary: the caller must test for progress and
/// alignment.
#[verifier::external_body]
pub fn advance_minute(ms: i64, zone: &str) -> (r: Result<ZonedTime, Error>)
    ensures
        r is Ok ==> r->Ok_0.wf() && r->Ok_0.ms as int % 1000 == 0,
        r is Err ==> crate::has_prefix(r->Err_0@, "failed to advance timestamp "@),
{
    let e = |e: jiff::Error| Error::new(format!("failed to advance timestamp {ms}: {e}"));
    let tz = jiff::tz::TimeZone::get(zone).map_err(e)?;
    let z = jiff::Timestamp::from_millisecond(ms).map_err(e)?.to_zoned(tz);
    let z = z.checked_add(jiff::Span::new().minutes(1)).map_err(e)?;
    let z = z.round(jiff::ZonedRound::new().mode(jiff::RoundMode::Trunc).smallest(jiff::Unit::Minute)).map_err(e)?;
    Ok(zoned_fields(&z))
}

/// Relies on `jiff::Zoned::checked_add` and `jiff::Zoned::round`: adding one
/// hour and truncating to the hour yields an instant on a whole second. A
/// zone transition can step the truncated time backward past the input, or
/// off the minute boundary: the caller must test for progress and
/// alignment.
#[verifier::external_body]
pub fn advance_hour(ms: i64, zone: &str) -> (r: Result<ZonedTime, Error>)
    ensures
        r is Ok ==> r->Ok_0.wf() && r->Ok_0.ms as int % 1000 == 0,
        r is Err ==> crate::has_prefix(r->Err_0@, "failed to advance timestamp "@),
{
    let e = |e: jiff::Error| Error::new(format!("failed to advance timestamp {ms}: {e}"));
    let tz = jiff::tz::TimeZone::get(zone).map_err(e)?;
    let z = jiff::Timestamp::from_millisecond(ms).map_err(e)?.to_zoned(tz);
    let z = z.checked_add(jiff::Span::new().hours(1)).map_err(e)?;
    let z = z.round(jiff::ZonedRound::new().mode(jiff::RoundMode::Trunc).smallest(jiff::Unit::Hour)).map_err(e)?;
    Ok(zoned_fields(&z))
}

/// Relies on `jiff::Zoned::checked_add` and `jiff::Zoned::round`: adding
/// `days` civil days and truncating to the day yields an instant on a
/// whole second — usually a local midnight, but a zone transition can
/// start the day later, shift other components, or step the result
/// backward past the input: the caller must test for progress and
/// alignment.
#[verifier::external_body]
pub fn advance_days(ms: i64, zone: &str, days: u8) -> (r: Result<ZonedTime, Error>)
    requires
        1 <= days <= 31,
    ensures
        r is Ok ==> r->Ok_0.wf() && r->Ok_0.ms as int % 1000 == 0,
        r is Err ==> crate::has_prefix(r->Err_0@, "failed to advance timestamp "@),
{
    let e = |e: jiff::Error| Error::new(format!("failed to advance timestamp {ms}: {e}"));
    let tz = jiff::tz::TimeZone::get(zone).map_err(e)?;
    let z = jiff::Timestamp::from_millisecond(ms).map_err(e)?.to_zoned(tz);
    let z = z.checked_add(jiff::Span::new().days(days as i64)).map_err(e)?;
    let z = z.round(jiff::ZonedRound::new().mode(jiff::RoundMode::Trunc).smallest(jiff::Unit::Day)).map_err(e)?;
    Ok(zoned_fields(&z))
}

/// Relies on `jiff::Zoned::checked_add`: adding four calendar years yields a
/// strictly later instant.
#[verifier::external_body]
pub fn add_four_years(ms: i64, zone: &str) -> (r: Result<i64, Error>)
    ensures
        r is Ok ==> r->Ok_0 > ms,
        r is Err ==> crate::has_prefix(r->Err_0@, "failed to compute search bound from "@),
{
    let e = |e: jiff::Error| Error::new(format!("failed to compute search bound from {ms}: {e}"));
    let tz = jiff::tz::TimeZone::get(zone).map_err(e)?;
    let z = jiff::Timestamp::from_millisecond(ms).map_err(e)?.to_zoned(tz);
    let z = z.checked_add(jiff::Span::new().years(4)).map_err(e)?;
    Ok(z.timestamp().as_millisecond())
}

/// Relies on `jiff::Timestamp::now`: the current instant in milliseconds
/// since the Unix epoch.
#[verifier::external_body]
pub fn timestamp_now_ms() -> i64 {
    jiff::Timestamp::now().as_millisecond()
}

/// Relies on the `Display` impl of `jiff::Zoned`: renders the instant `ms`
/// in `zone` for error messages, or the raw milliseconds where the zone or
/// instant cannot be resolved.
#[verifier::external_body]
pub fn zoned_display(ms: i64, zone: &str) -> String {
    let tz = match jiff::tz::TimeZone::get(zone) {
        Ok(tz) => tz,
        Err(_) => return format!("timestamp {ms}"),
    };
    match jiff::Timestamp::from_millisecond(ms) {
        Ok(ts) => format!("{}", ts.to_zoned(tz)),
        Err(_) => format!("timestamp {ms}"),
    }
}

} // verus!
