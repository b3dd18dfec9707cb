//! The library's model of a UTC instant: whole seconds since the Unix epoch,
//! held in an `i64`, restricted to the years 1 through 9999.
//!
//! Everything that takes a calendar to answer (month arithmetic, RFC-2822 and
//! RFC-3339 text) is delegated to the `chrono` and `chronoutil` crates behind
//! trusted wrappers; day-of-week arithmetic is plain modular arithmetic and is
//! verified here.

use vstd::prelude::*;

verus! {

/// 0001-01-01T00:00:00Z, the earliest instant the library accepts.
pub const MIN_TS: i64 = -62135596800;

/// 9999-12-31T23:59:59Z, the latest instant the library accepts.
pub const MAX_TS: i64 = 253402300799;

pub const SECS_PER_DAY: i64 = 86400;

pub const SECS_PER_WEEK: i64 = 604800;

pub open spec fn ts_in_range(ts: int) -> bool {
    MIN_TS <= ts <= MAX_TS
}

/// Day of the week of the day containing `ts`, numbered from Sunday:
/// 0 = Sunday, 1 = Monday, ..., 6 = Saturday.
///
/// `MIN_TS` opens 0001-01-01, a Monday in the proleptic Gregorian calendar,
/// so day counting starts there with weekday 1.
pub open spec fn weekday(ts: int) -> int {
    (((ts - MIN_TS) / (SECS_PER_DAY as int)) % 7 + 1) % 7
}

/// How many whole days lie between `ts` and the first instant at or after it
/// that falls on weekday `target` (same time of day).
pub open spec fn spec_days_until_weekday(ts: int, target: int) -> int {
    (7 + target - weekday(ts)) % 7
}

pub fn weekday_of(ts: i64) -> (r: u8)
    requires
        ts_in_range(ts as int),
    ensures
        r == weekday(ts as int),
        r < 7,
{
    let shifted: i64 = ts - MIN_TS;
    let days: i64 = shifted / SECS_PER_DAY;
    let r: i64 = ((days % 7) + 1) % 7;
    r as u8
}

/// Days from `ts` forward (0 to 6) to the next day with weekday `target`.
pub fn days_until_weekday(ts: i64, target: u8) -> (r: u8)
    requires
        ts_in_range(ts as int),
        target < 7,
    ensures
        r == spec_days_until_weekday(ts as int, target as int),
        r < 7,
{
    let base = weekday_of(ts);
    ((7 + target - base) % 7) as u8
}

/// `a + b`, stopped at `i64::MAX` instead of overflowing; `b` must not be
/// negative.
pub open spec fn sat_add(a: int, b: int) -> int {
    if a + b > i64::MAX {
        i64::MAX as int
    } else {
        a + b
    }
}

pub fn saturating_add(a: i64, b: i64) -> (r: i64)
    requires
        b >= 0,
    ensures
        r == sat_add(a as int, b as int),
{
    if a > i64::MAX - b {
        i64::MAX
    } else {
        a + b
    }
}

/// What `chronoutil` answers for "`months` calendar months after `ts`":
/// same time of day, day of month clamped to the target month's length.
pub uninterp spec fn month_shift(ts: int, months: int) -> int;

/// Relies on `chronoutil::shift_months` (via `chrono`): adds whole calendar
/// months to a UTC instant, clamping the day of month; the result depends on
/// the arguments alone.  Moving by at least one month always lands in a later
/// calendar month and therefore strictly later in time — and later than any
/// smaller shift of the same instant, since a larger month count lands in a
/// later calendar month whatever the day clamping does.  `chrono` cannot
/// represent instants beyond the year 262143, which bounds the result.
#[verifier::external_body]
pub(crate) fn shift_by_months(ts: i64, months: u32) -> (r: i64)
    requires
        ts_in_range(ts as int),
        months <= 1_200_000,
    ensures
        r == month_shift(ts as int, months as int),
        months >= 1 ==> r > ts,
        months == 0 ==> r == ts,
        forall|m: int| 0 <= m < months ==> month_shift(ts as int, m) < r,
        r <= 4_000_000_000_000,
{
    let dt = chrono::DateTime::<chrono::Utc>::from_timestamp(ts, 0).unwrap();
    chronoutil::shift_months(dt, months as i32).timestamp()
}

/// The RFC-2822 rendering (`Mon, 13 Dec 2021 16:00:00 +0000`) of an instant.
pub uninterp spec fn rfc2822_of(ts: int) -> Seq<char>;

/// Relies on `chrono`'s `DateTime::to_rfc2822`: the text depends on the
/// instant alone.
#[verifier::external_body]
pub fn format_rfc2822(ts: i64) -> (r: String)
    requires
        ts_in_range(ts as int),
    ensures
        r@ == rfc2822_of(ts as int),
{
    let dt = chrono::DateTime::<chrono::Utc>::from_timestamp(ts, 0).unwrap();
    dt.to_rfc2822()
}

/// The RFC-3339 rendering at seconds precision with a `Z` suffix
/// (`2021-12-13T16:00:00Z`) of an instant.
pub uninterp spec fn rfc3339_of(ts: int) -> Seq<char>;

/// Relies on `chrono`'s `DateTime::to_rfc3339_opts` with seconds precision
/// and `use_z`: the text depends on the instant alone, and parsing it back
/// with `DateTime::parse_from_rfc3339` recovers exactly the same instant
/// (the output is a complete RFC-3339 date-time at whole seconds).
#[verifier::external_body]
pub fn format_rfc3339(ts: i64) -> (r: String)
    requires
        ts_in_range(ts as int),
    ensures
        r@ == rfc3339_of(ts as int),
        parsed_rfc3339(r@) == Some(ts),
{
    let dt = chrono::DateTime::<chrono::Utc>::from_timestamp(ts, 0).unwrap();
    dt.to_rfc3339_opts(chrono::SecondsFormat::Secs, true)
}

/// What `diligent_date_parser` makes of a piece of feed text: the instant it
/// denotes in one of the common podcast date shapes, or `None`.
pub uninterp spec fn parsed_date(s: Seq<char>) -> Option<i64>;

/// Relies on `diligent_date_parser::parse_date`, which accepts RFC-822,
/// RFC-3339 and several other common podcast date forms; the result depends
/// on the text alone.  `chrono` timestamps are bounded by its supported year
/// range (up to 262143), which bounds any parsed instant.
#[verifier::external_body]
pub fn parse_timestamp(s: &str) -> (r: Option<i64>)
    ensures
        r == parsed_date(s@),
        r is Some ==> -9_000_000_000_000 <= r.unwrap() <= 9_000_000_000_000,
{
    diligent_date_parser::parse_date(s).map(|dt| dt.timestamp())
}

/// What `chrono` makes of a piece of RFC-3339 text: the instant it denotes,
/// or `None` when the text is not a valid RFC-3339 date-time.
pub uninterp spec fn parsed_rfc3339(s: Seq<char>) -> Option<i64>;

/// Relies on `chrono`'s `DateTime::parse_from_rfc3339`: the result depends on
/// the text alone, and is bounded by `chrono`'s supported year range.
#[verifier::external_body]
pub fn parse_rfc3339(s: &str) -> (r: Option<i64>)
    ensures
        r == parsed_rfc3339(s@),
        r is Some ==> -9_000_000_000_000 <= r.unwrap() <= 9_000_000_000_000,
{
    chrono::DateTime::parse_from_rfc3339(s).ok().map(|dt| dt.timestamp())
}

} // verus!
