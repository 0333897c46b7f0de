//! Days, local times and timestamps.
//!
//! A day is the number of a day in the proleptic Gregorian calendar, with 1 January of the year 1
//! as day 1. A timestamp counts seconds from the start of 1970, UTC. A time zone is named as in
//! the IANA database.

use crate::text;
use chrono::{DateTime, Datelike, Duration, LocalResult, NaiveDate, NaiveTime, TimeZone, Utc};
use chrono_tz::Tz;
use vstd::prelude::*;

verus! {

/// The first day of the calendar, 1 January of the year -262143.
pub const FIRST_DAY: i32 = -95_746_129;

/// The last day of the calendar, 31 December of the year 262142.
pub const LAST_DAY: i32 = 95_745_399;

/// 1 January 1970.
pub const EPOCH_DAY: i32 = 719_163;

/// The zone of a route for which no agency names one.
pub const DEFAULT_ZONE: &'static str = "Europe/Paris";

/// Whether `day` is a day of the calendar.
pub open spec fn in_calendar(day: int) -> bool {
    FIRST_DAY <= day <= LAST_DAY
}

/// Whether `t` is in the years 0 to 9999, give or take a day for the offset from UTC: the
/// timestamps that RFC 3339 can write.
pub open spec fn is_stamp(t: int) -> bool {
    -62_167_305_600 <= t <= 253_402_387_199
}

/// Whether `t` is a timestamp on a day of the calendar.
pub open spec fn is_calendar_time(t: int) -> bool {
    -8_334_601_228_800 <= t <= 8_210_266_876_799
}

/// The timestamp that a text writes by RFC 3339, if it writes one.
pub uninterp spec fn rfc3339_timestamp(text: Seq<char>) -> Option<i64>;

/// `DateTime::parse_from_rfc3339` reads a timestamp by RFC 3339 or fails. What it reads has a year
/// of four digits and an offset of less than a day.
#[verifier::external_body]
pub(crate) fn parse_timestamp(value: &str) -> (r: Option<i64>)
    ensures
        r == rfc3339_timestamp(value@),
        r matches Some(t) ==> is_stamp(t as int),
{
    DateTime::parse_from_rfc3339(value).ok().map(|read| read.timestamp())
}

/// Whether a text names a time zone.
pub uninterp spec fn is_zone(name: Seq<char>) -> bool;

/// `Tz::from_str` finds the zones of the IANA database by name; Paris is one of them.
#[verifier::external_body]
pub(crate) fn is_zone_name(name: &str) -> (r: bool)
    ensures
        r == is_zone(name@),
        name@ == DEFAULT_ZONE@ ==> r,
{
    name.parse::<Tz>().is_ok()
}

/// The day in zone `zone` at `timestamp`; none where `zone` names no zone.
pub uninterp spec fn zone_day(timestamp: i64, zone: Seq<char>) -> Option<i32>;

/// `DateTime::with_timezone`, with `TimeZone::timestamp_opt` in front of it and
/// `DateTime::date_naive` behind it, gives the day that a zone has at a timestamp. It does so for
/// every timestamp in the years 0 to 9999.
#[verifier::external_body]
pub(crate) fn local_day(timestamp: i64, zone: &str) -> (r: Option<i32>)
    requires
        is_stamp(timestamp as int),
    ensures
        r == zone_day(timestamp, zone@),
        r is Some <==> is_zone(zone@),
        r matches Some(day) ==> in_calendar(day as int),
{
    let zone = zone.parse::<Tz>().ok()?;
    let instant = Utc.timestamp_opt(timestamp, 0).single()?;
    Some(instant.with_timezone(&zone).date_naive().num_days_from_ce())
}

/// The timestamps at which the clocks of `zone` show second `second` of day `day`: none where they
/// skip it or `zone` names no zone, two where they show it twice.
pub uninterp spec fn clock_times(day: i32, second: u32, zone: Seq<char>) -> Seq<i64>;

/// `TimeZone::from_local_datetime` finds the moments at which a zone shows a local time. They lie
/// in the calendar.
#[verifier::external_body]
pub(crate) fn local_times(day: i32, second: u32, zone: &str) -> (r: Vec<i64>)
    requires
        in_calendar(day as int),
        second < 86_400,
    ensures
        r@ == clock_times(day, second, zone@),
        forall|i: int| 0 <= i < r@.len() ==> is_calendar_time(#[trigger] r@[i] as int),
{
    let date = NaiveDate::from_num_days_from_ce_opt(day).unwrap();
    let time = NaiveTime::from_num_seconds_from_midnight_opt(second, 0).unwrap();
    match zone.parse::<Tz>().map(|zone| zone.from_local_datetime(&date.and_time(time))) {
        Ok(LocalResult::Single(at)) => vec![at.timestamp()],
        Ok(LocalResult::Ambiguous(first, second)) => vec![first.timestamp(), second.timestamp()],
        Ok(LocalResult::None) => Vec::new(),
        Err(_) => Vec::new(),
    }
}

/// The day `count` days from `day`, if both are days of the calendar.
pub open spec fn day_from(day: int, count: int) -> Option<i32> {
    if in_calendar(day) && in_calendar(day + count) {
        Some((day + count) as i32)
    } else {
        None
    }
}

/// `NaiveDate::checked_sub_signed` goes back by whole days and fails outside the calendar.
#[verifier::external_body]
pub(crate) fn days_earlier(day: i32, count: u32) -> (r: Option<i32>)
    ensures
        r == day_from(day as int, -count),
{
    NaiveDate::from_num_days_from_ce_opt(day)
        .and_then(|date| date.checked_sub_signed(Duration::days(i64::from(count))))
        .map(|date| date.num_days_from_ce())
}

/// `NaiveDate::checked_add_signed` goes forward by whole days and fails outside the calendar.
#[verifier::external_body]
pub(crate) fn days_later(day: i32, count: u32) -> (r: Option<i32>)
    ensures
        r == day_from(day as int, count as int),
{
    NaiveDate::from_num_days_from_ce_opt(day)
        .and_then(|date| date.checked_add_signed(Duration::days(i64::from(count))))
        .map(|date| date.num_days_from_ce())
}

/// The weekday of `day`, counted from Monday as 0: day 1 is a Monday.
pub open spec fn weekday_of(day: int) -> int {
    (day - 1) % 7
}

/// `Datelike::weekday` gives the weekday of a date, and `Weekday::num_days_from_monday` its number.
#[verifier::external_body]
pub(crate) fn weekday(day: i32) -> (r: Option<u32>)
    ensures
        r is Some <==> in_calendar(day as int),
        r matches Some(w) ==> w == weekday_of(day as int),
{
    NaiveDate::from_num_days_from_ce_opt(day).map(|date| date.weekday().num_days_from_monday())
}

/// `Utc::now` reads the clock; `DateTime::with_timezone` and `DateTime::date_naive` give the day
/// that a zone has then. Nothing is said of what the clock shows; it is expected to be past 1970.
#[verifier::external_body]
pub(crate) fn current_day(zone: &str) -> (r: Option<i32>)
    ensures
        r is Some <==> is_zone(zone@),
        r matches Some(day) ==> in_calendar(day as int),
{
    let zone = zone.parse::<Tz>().ok()?;
    Some(Utc::now().with_timezone(&zone).date_naive().num_days_from_ce())
}

/// The text of a day of the calendar as year, month and day in digits.
pub uninterp spec fn day_digits(day: i32) -> Option<Seq<char>>;

/// `NaiveDate::format` writes a date by the pattern `%Y%m%d`.
#[verifier::external_body]
pub(crate) fn day_text(day: i32) -> (r: Option<String>)
    ensures
        text::opt_string(r) == day_digits(day),
        r is Some <==> in_calendar(day as int),
{
    NaiveDate::from_num_days_from_ce_opt(day).map(|date| date.format("%Y%m%d").to_string())
}

/// `day` and the two days before it, as far as they are in the calendar.
pub open spec fn recent_days(day: i32) -> Seq<i32> {
    if !in_calendar(day as int) {
        seq![]
    } else if !in_calendar(day - 1) {
        seq![day]
    } else if !in_calendar(day - 2) {
        seq![day, (day - 1) as i32]
    } else {
        seq![day, (day - 1) as i32, (day - 2) as i32]
    }
}

/// The days on which a service that is seen on `day` may have begun.
pub fn service_days(day: i32) -> (r: Vec<i32>)
    ensures
        r@ == recent_days(day),
        forall|i: int| 0 <= i < r@.len() ==> in_calendar(#[trigger] r@[i] as int),
{
    let mut days: Vec<i32> = Vec::new();
    let mut back: u32 = 0;
    while back <= 2
        invariant
            back <= 3,
            days@ == recent_days(day).take(
                if back <= recent_days(day).len() {
                    back as int
                } else {
                    recent_days(day).len() as int
                },
            ),
        decreases 3 - back,
    {
        if let Some(earlier) = days_earlier(day, back) {
            days.push(earlier);
        }
        assert(days@ =~= recent_days(day).take(
            if back + 1 <= recent_days(day).len() {
                back + 1
            } else {
                recent_days(day).len() as int
            },
        ));
        back = back + 1;
    }
    assert(days@ =~= recent_days(day));
    days
}

/// The moments at which a stop is due that the schedule puts `seconds` after the start of service
/// day `day`.
pub open spec fn scheduled_times(day: i32, seconds: u32, zone: Seq<char>) -> Seq<i64> {
    match day_from(day as int, (seconds / 86_400) as int) {
        Some(date) => clock_times(date, seconds % 86_400, zone),
        None => seq![],
    }
}

/// The moments at which a stop is due.
pub fn scheduled_timestamps(day: i32, seconds: u32, zone: &str) -> (r: Vec<i64>)
    ensures
        r@ == scheduled_times(day, seconds, zone@),
        forall|i: int| 0 <= i < r@.len() ==> is_calendar_time(#[trigger] r@[i] as int),
{
    match days_later(day, seconds / 86_400) {
        Some(date) => local_times(date, seconds % 86_400, zone),
        None => Vec::new(),
    }
}

/// The distance between two moments.
pub open spec fn gap(a: int, b: int) -> int {
    if a < b {
        b - a
    } else {
        a - b
    }
}

/// The least distance of `moment` from one of `times`.
pub open spec fn least_gap(moment: int, times: Seq<i64>) -> Option<int>
    decreases times.len(),
{
    if times.len() == 0 {
        None
    } else {
        let here = gap(moment, times.last() as int);
        match least_gap(moment, times.drop_last()) {
            Some(other) if other <= here => Some(other),
            _ => Some(here),
        }
    }
}

/// The distance of a moment from the time at which a stop is due.
pub fn minimum_time_difference(moment: i64, day: i32, seconds: u32, zone: &str) -> (r: Option<i64>)
    requires
        is_stamp(moment as int),
    ensures
        match r {
            Some(d) => least_gap(moment as int, scheduled_times(day, seconds, zone@)) == Some(
                d as int,
            ) && 0 <= d <= 8_600_000_000_000,
            None => least_gap(moment as int, scheduled_times(day, seconds, zone@)) is None,
        },
{
    let times = scheduled_timestamps(day, seconds, zone);
    let mut best: Option<i64> = None;
    let mut i: usize = 0;
    while i < times.len()
        invariant
            i <= times@.len(),
            is_stamp(moment as int),
            forall|k: int| 0 <= k < times@.len() ==> is_calendar_time(#[trigger] times@[k] as int),
            match best {
                Some(d) => least_gap(moment as int, times@.take(i as int)) == Some(d as int) && 0
                    <= d <= 8_600_000_000_000,
                None => least_gap(moment as int, times@.take(i as int)) is None,
            },
        decreases times@.len() - i,
    {
        assert(is_calendar_time(times@[i as int] as int));
        assert(times@.take(i + 1).drop_last() =~= times@.take(i as int));
        let here: i64 = if moment < times[i] {
            times[i] - moment
        } else {
            moment - times[i]
        };
        best = match best {
            Some(other) => if other <= here {
                Some(other)
            } else {
                Some(here)
            },
            None => Some(here),
        };
        i = i + 1;
    }
    assert(times@.take(times@.len() as int) =~= times@);
    best
}

/// How long after the nearest of `times` the moment is, the earliest of them where several are as
/// near.
pub open spec fn nearest_delay(moment: int, times: Seq<i64>) -> Option<int>
    decreases times.len(),
{
    if times.len() == 0 {
        None
    } else {
        let here = moment - times.last();
        match nearest_delay(moment, times.drop_last()) {
            Some(other) if gap(other, 0) <= gap(here, 0) => Some(other),
            _ => Some(here),
        }
    }
}

/// How long after the time at which a stop is due the moment is.
pub fn signed_time_difference(moment: i64, day: i32, seconds: u32, zone: &str) -> (r: Option<i64>)
    requires
        is_stamp(moment as int),
    ensures
        match r {
            Some(d) => nearest_delay(moment as int, scheduled_times(day, seconds, zone@)) == Some(
                d as int,
            ) && -8_600_000_000_000 <= d <= 8_600_000_000_000,
            None => nearest_delay(moment as int, scheduled_times(day, seconds, zone@)) is None,
        },
{
    let times = scheduled_timestamps(day, seconds, zone);
    let mut best: Option<i64> = None;
    let mut i: usize = 0;
    while i < times.len()
        invariant
            i <= times@.len(),
            is_stamp(moment as int),
            forall|k: int| 0 <= k < times@.len() ==> is_calendar_time(#[trigger] times@[k] as int),
            match best {
                Some(d) => nearest_delay(moment as int, times@.take(i as int)) == Some(d as int)
                    && -8_600_000_000_000 <= d <= 8_600_000_000_000,
                None => nearest_delay(moment as int, times@.take(i as int)) is None,
            },
        decreases times@.len() - i,
    {
        assert(is_calendar_time(times@[i as int] as int));
        assert(times@.take(i + 1).drop_last() =~= times@.take(i as int));
        let here: i64 = moment - times[i];
        best = match best {
            Some(other) => if magnitude(other) <= magnitude(here) {
                Some(other)
            } else {
                Some(here)
            },
            None => Some(here),
        };
        i = i + 1;
    }
    assert(times@.take(times@.len() as int) =~= times@);
    best
}

/// The size of a delay, whatever its sign.
pub fn magnitude(delay: i64) -> (r: i64)
    requires
        delay > i64::MIN,
    ensures
        r == gap(delay as int, 0),
{
    if delay < 0 {
        -delay
    } else {
        delay
    }
}

} // verus!
