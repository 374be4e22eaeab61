//! The expiration time of a session: reading `YYYY-MM-DDTHH:MM:SSZ`, turning
//! it into a timestamp, and the time left until it.

use vstd::prelude::*;
use chrono::{DateTime, LocalResult, TimeZone, Utc};
use crate::numbers::{parse_i32, parse_i32_spec, parse_u32, parse_u32_spec};
use crate::text::{chars_of, pieces, pop_seq, split_ranges, split_seq};

verus! {

/// The calendar fields of an expiration time: year, month, day, hour,
/// minute, second.
pub type ExpiryFields = (i32, u32, u32, u32, u32, u32);

/// The fields of the expiration text `e`: the part before the first `T` split
/// on `-` gives year, month and day, the part after it without its last
/// character (the `Z`) split on `:` gives hour, minute and second. `None`
/// when a part is missing or is not a number of its type.
pub open spec fn expiration_fields(e: Seq<char>) -> Option<ExpiryFields> {
    let parts = split_seq(e, "T"@);
    if parts.len() < 2 {
        None
    } else {
        let dates = split_seq(parts[0], "-"@);
        let times = split_seq(pop_seq(parts[1]), ":"@);
        if dates.len() < 3 || times.len() < 3 {
            None
        } else {
            match (
                parse_i32_spec(dates[0]),
                parse_u32_spec(dates[1]),
                parse_u32_spec(dates[2]),
                parse_u32_spec(times[0]),
                parse_u32_spec(times[1]),
                parse_u32_spec(times[2]),
            ) {
                (Some(y), Some(mo), Some(d), Some(h), Some(mi), Some(s)) => Some((y, mo, d, h, mi, s)),
                _ => None,
            }
        }
    }
}

/// A leap year of the proleptic Gregorian calendar (year 0 is 1 BCE).
pub open spec fn is_leap_year(y: int) -> bool {
    y % 4 == 0 && (y % 100 != 0 || y % 400 == 0)
}

/// The number of days of month `m` (1 to 12) of year `y`.
pub open spec fn days_in_month(y: int, m: int) -> int {
    if m == 2 {
        if is_leap_year(y) { 29 } else { 28 }
    } else if m == 4 || m == 6 || m == 9 || m == 11 {
        30
    } else {
        31
    }
}

/// The days of the months of a common year before month `m` (1 to 12).
pub open spec fn days_before_month(m: int) -> int {
    seq![0int, 31, 59, 90, 120, 151, 181, 212, 243, 273, 304, 334][m - 1]
}

/// The days from 1970-01-01 to the date `y`-`m`-`d`: 365 a year, one more
/// for each leap year between (the multiples of 4, but of 100 only those of
/// 400; `1969 / 4 - 1969 / 100 + 1969 / 400` is 477), the days of the
/// months before `m`, with February 29 in a leap year, and the days before
/// `d`. Division rounds down, so this holds before 1970 too.
pub open spec fn days_since_epoch(y: int, m: int, d: int) -> int {
    365 * (y - 1970) + (y - 1) / 4 - (y - 1) / 100 + (y - 1) / 400 - 477 + days_before_month(m) + (if m > 2
        && is_leap_year(y) {
        1int
    } else {
        0int
    }) + d - 1
}

/// chrono has the date and time: the year within the range of `NaiveDate`
/// (-262143 to 262142), the month from 1 to 12, a day of that month, the hour
/// below 24, minute and second below 60.
pub open spec fn utc_time_exists(year: i32, month: u32, day: u32, hour: u32, minute: u32, second: u32) -> bool {
    &&& -262143 <= year <= 262142
    &&& 1 <= month <= 12
    &&& 1 <= day <= days_in_month(year as int, month as int)
    &&& hour < 24
    &&& minute < 60
    &&& second < 60
}

/// The UNIX timestamp of a date and time in UTC (the seconds since
/// 1970-01-01T00:00:00Z, leap seconds not counted); `None` for a date or
/// time that does not exist.
pub open spec fn utc_timestamp_of(year: i32, month: u32, day: u32, hour: u32, minute: u32, second: u32) -> Option<i64> {
    if utc_time_exists(year, month, day, hour, minute, second) {
        Some(
            (days_since_epoch(year as int, month as int, day as int) * 86400 + hour * 3600 + minute * 60
                + second) as i64,
        )
    } else {
        None
    }
}

/// Calls chrono's `TimeZone::with_ymd_and_hms` on `Utc` and takes the
/// `timestamp` of the result. chrono documents both: the date is one of the
/// proleptic Gregorian calendar, refused when the day does not exist, the
/// month or day is out of range or the year is beyond `NaiveDate`'s range;
/// the time is refused unless hour, minute and second are below 24, 60 and
/// 60; `timestamp` is the number of non-leap seconds since the UNIX epoch.
#[verifier::external_body]
fn utc_timestamp(year: i32, month: u32, day: u32, hour: u32, minute: u32, second: u32) -> (r: Option<i64>)
    ensures
        r == utc_timestamp_of(year, month, day, hour, minute, second),
{
    match Utc.with_ymd_and_hms(year, month, day, hour, minute, second) {
        LocalResult::Single(t) => Some(t.timestamp()),
        LocalResult::Ambiguous(_, _) => None,
        LocalResult::None => None,
    }
}

/// Reads the system clock with `std::time::SystemTime::now` and converts it
/// with chrono's `From<SystemTime> for DateTime<Utc>`, which handles a clock
/// set before the UNIX epoch; returns the whole seconds since the epoch
/// (rounded down) and the nanoseconds past them. The clock decides the
/// value: the contract states only what chrono's source shows of every
/// outcome, fewer than a second's nanoseconds. chrono unwraps the timestamp
/// it builds, which fails only for a clock more than about 262,000 years
/// from the epoch; nothing here rules that out.
#[verifier::external_body]
pub(crate) fn utc_now() -> (r: (i64, u32))
    ensures
        r.1 < 1_000_000_000,
{
    let t = DateTime::<Utc>::from(std::time::SystemTime::now());
    (t.timestamp(), t.timestamp_subsec_nanos())
}

/// The time left of a session.
#[derive(Debug, PartialEq, Eq)]
pub enum SessionState {
    /// Not expired yet: the hours (modulo a day), minutes and seconds left.
    Active { hours: i64, minutes: i64, seconds: i64 },
    Expired,
}

/// The time left from the instant `now_secs` seconds and `now_nanos`
/// nanoseconds after the epoch until the timestamp `expiration`: the
/// duration counted in whole seconds toward zero, then its hours modulo 24,
/// minutes modulo 60 and seconds modulo 60; expired when it is negative.
pub open spec fn session_state(expiration: i64, now_secs: i64, now_nanos: u32) -> SessionState {
    let d = (expiration - now_secs) * 1_000_000_000 - now_nanos;
    if d >= 0 {
        let secs = d / 1_000_000_000;
        SessionState::Active {
            hours: ((secs / 3600) % 24) as i64,
            minutes: ((secs / 60) % 60) as i64,
            seconds: (secs % 60) as i64,
        }
    } else {
        SessionState::Expired
    }
}

/// The timestamp of the expiration text `e`; `None` when `e` does not read
/// as a date and time that exists.
pub open spec fn expiry_timestamp(e: Seq<char>) -> Option<i64> {
    match expiration_fields(e) {
        None => None,
        Some(f) => utc_timestamp_of(f.0, f.1, f.2, f.3, f.4, f.5),
    }
}

/// What becomes of the expiration text `e` at the instant `now`; `None`
/// when `e` does not read as a date and time that exists.
pub open spec fn expiry_state(e: Seq<char>, now_secs: i64, now_nanos: u32) -> Option<SessionState> {
    match expiry_timestamp(e) {
        None => None,
        Some(t) => Some(session_state(t, now_secs, now_nanos)),
    }
}

/// The time left until the timestamp `expiration` at the instant `now`.
pub fn time_left(expiration: i64, now_secs: i64, now_nanos: u32) -> (r: SessionState)
    ensures
        r == session_state(expiration, now_secs, now_nanos),
{
    let d: i128 = (expiration as i128 - now_secs as i128) * 1_000_000_000 - now_nanos as i128;
    if d >= 0 {
        let du = d as u128;
        let secs = du / 1_000_000_000;
        let hours = ((secs / 3600) % 24) as i64;
        let minutes = ((secs / 60) % 60) as i64;
        let seconds = (secs % 60) as i64;
        SessionState::Active { hours, minutes, seconds }
    } else {
        SessionState::Expired
    }
}

/// The fields of the expiration text `e`.
pub fn read_expiration(e: &str) -> (r: Option<ExpiryFields>)
    ensures
        r == expiration_fields(e@),
{
    let s = chars_of(e);
    let t = chars_of("T");
    let dash = chars_of("-");
    let colon = chars_of(":");
    proof {
        reveal_strlit("T");
        reveal_strlit("-");
        reveal_strlit(":");
    }
    assert(s@.subrange(0, s@.len() as int) =~= s@);
    let parts = split_ranges(&s, 0, s.len(), &t);
    let ghost ps = split_seq(e@, "T"@);
    assert(pieces(s@, parts@) == ps);
    if parts.len() < 2 {
        return None;
    }
    let (a0, b0) = parts[0];
    let (a1, b1) = parts[1];
    assert(ps[0] == s@.subrange(a0 as int, b0 as int));
    assert(ps[1] == s@.subrange(a1 as int, b1 as int));
    let e1 = if b1 > a1 {
        b1 - 1
    } else {
        b1
    };
    assert(pop_seq(ps[1]) =~= s@.subrange(a1 as int, e1 as int));
    let dates = split_ranges(&s, a0, b0, &dash);
    let times = split_ranges(&s, a1, e1, &colon);
    let ghost ds = split_seq(ps[0], "-"@);
    let ghost ts = split_seq(pop_seq(ps[1]), ":"@);
    assert(pieces(s@, dates@) == ds);
    assert(pieces(s@, times@) == ts);
    if dates.len() < 3 || times.len() < 3 {
        return None;
    }
    let (ya, yb) = dates[0];
    let (moa, mob) = dates[1];
    let (da, db) = dates[2];
    let (ha, hb) = times[0];
    let (mia, mib) = times[1];
    let (sa, sb) = times[2];
    assert(ds[0] == s@.subrange(ya as int, yb as int));
    assert(ds[1] == s@.subrange(moa as int, mob as int));
    assert(ds[2] == s@.subrange(da as int, db as int));
    assert(ts[0] == s@.subrange(ha as int, hb as int));
    assert(ts[1] == s@.subrange(mia as int, mib as int));
    assert(ts[2] == s@.subrange(sa as int, sb as int));
    let y = parse_i32(&s, ya, yb);
    let mo = parse_u32(&s, moa, mob);
    let d = parse_u32(&s, da, db);
    let h = parse_u32(&s, ha, hb);
    let mi = parse_u32(&s, mia, mib);
    let sec = parse_u32(&s, sa, sb);
    match (y, mo, d, h, mi, sec) {
        (Some(y), Some(mo), Some(d), Some(h), Some(mi), Some(sec)) => Some((y, mo, d, h, mi, sec)),
        _ => None,
    }
}

/// What becomes of the expiration text `e` at the instant `now`.
pub fn expiry_status(e: &str, now_secs: i64, now_nanos: u32) -> (r: Option<SessionState>)
    ensures
        r == expiry_state(e@, now_secs, now_nanos),
{
    match read_expiration(e) {
        None => None,
        Some((y, mo, d, h, mi, s)) => match utc_timestamp(y, mo, d, h, mi, s) {
            None => None,
            Some(t) => Some(time_left(t, now_secs, now_nanos)),
        },
    }
}

} // verus!
