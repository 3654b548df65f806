//! Points in time.

use vstd::prelude::*;

use chrono::TimeZone;

use crate::json;

verus! {

/// A point in time: whole seconds since the Unix epoch and the nanoseconds
/// within the second. A leap second counts on past a full second.
#[derive(Debug, Clone, Copy, PartialEq, Eq, Structural)]
pub struct Moment {
    pub secs: i64,
    pub nanos: u32,
}

/// The moment an RFC 2822 date names, if the text is one.
pub uninterp spec fn rfc2822_moment(text: Seq<char>) -> Option<Moment>;

/// `chrono::DateTime::parse_from_rfc2822`: the moment the date names, a
/// function of the text alone, named [`rfc2822_moment`].
#[verifier::external_body]
pub(crate) fn read_rfc2822(text: &str) -> (moment: Option<Moment>)
    ensures
        moment == rfc2822_moment(text@),
{
    let at = chrono::DateTime::parse_from_rfc2822(text).ok()?;
    Some(Moment { secs: at.timestamp(), nanos: at.timestamp_subsec_nanos() })
}

/// The moment an RFC 3339 date and time names, if the text is one.
pub uninterp spec fn rfc3339_moment(text: Seq<char>) -> Option<Moment>;

/// `chrono::DateTime::parse_from_rfc3339`: the moment the text names, a
/// function of the text alone, named [`rfc3339_moment`].
#[verifier::external_body]
pub(crate) fn read_rfc3339(text: &str) -> (moment: Option<Moment>)
    ensures
        moment == rfc3339_moment(text@),
{
    let at = chrono::DateTime::parse_from_rfc3339(text).ok()?;
    Some(Moment { secs: at.timestamp(), nanos: at.timestamp_subsec_nanos() })
}

/// Whether seconds since the Unix epoch can be those of a calendar day: days
/// are counted in 32 bits.
pub open spec fn in_calendar(secs: int) -> bool {
    -200_000_000_000_000 <= secs <= 200_000_000_000_000
}

/// `chrono::Utc::now`: the current time. Nothing is promised of it but that it
/// lies in the calendar.
#[verifier::external_body]
pub(crate) fn now() -> (moment: Moment)
    ensures
        in_calendar(moment.secs as int),
{
    let at = chrono::Utc::now();
    Moment { secs: at.timestamp(), nanos: at.timestamp_subsec_nanos() }
}

/// The nanoseconds from `now` until `at`, none where `at` has passed. A leap
/// second that is later in its day than `now` has not been counted yet and one
/// that is earlier has.
pub open spec fn nanos_until(at: Moment, now: Moment) -> int {
    let leap: int = if at.nanos >= 1_000_000_000 && (at.secs as int) % 86_400 < (now.secs as int)
        % 86_400 {
        1
    } else {
        0
    };
    let gap = (at.secs - now.secs - leap) * 1_000_000_000 + (at.nanos - now.nanos);
    if gap < 0 {
        0
    } else {
        gap
    }
}

/// The second of its day that `secs` is.
fn second_of_day(secs: i64) -> (r: i64)
    ensures
        r == (secs as int) % 86_400,
{
    let r: i64 = secs % 86_400;
    if r < 0 {
        r + 86_400
    } else {
        r
    }
}

/// How long to wait from `now` until `at`, in nanoseconds.
pub fn wait_until(at: Moment, now: Moment) -> (nanos: u128)
    ensures
        nanos == nanos_until(at, now),
{
    let leap: i128 = if at.nanos >= 1_000_000_000 && second_of_day(at.secs) < second_of_day(
        now.secs,
    ) {
        1
    } else {
        0
    };
    let gap: i128 = (at.secs as i128 - now.secs as i128 - leap) * 1_000_000_000 + (at.nanos as i128
        - now.nanos as i128);
    if gap < 0 {
        0
    } else {
        gap as u128
    }
}

/// How far local time can be from UTC, in seconds: less than a day.
pub open spec fn is_offset(offset: int) -> bool {
    -86_400 < offset < 86_400
}

/// `chrono::Local`, `TimeZone::timestamp_opt` and `DateTime::offset`: by how
/// many seconds local time is ahead of UTC at a second. It depends on the time
/// zone of the machine. There is none where the second is outside the calendar.
/// Nothing else is promised but that it is less than a day.
#[verifier::external_body]
fn local_offset(secs: i64) -> (offset: Option<i32>)
    ensures
        offset matches Some(o) ==> is_offset(o as int) && in_calendar(secs as int),
{
    Some(chrono::Local.timestamp_opt(secs, 0).single()?.offset().local_minus_utc())
}

/// `chrono::NaiveDateTime::and_local_timezone` with `chrono::Local`: the second
/// at which a local clock shows `local`, in seconds as if it were UTC. It
/// depends on the time zone of the machine. There is none where `local` is
/// outside the calendar or a local clock shows it never or twice. Nothing else
/// is promised but that the two are less than a day apart, and that the second
/// lies in the calendar.
#[verifier::external_body]
fn local_second(local: i64) -> (secs: Option<i64>)
    ensures
        secs matches Some(s) ==> is_offset(local - s) && in_calendar(s as int),
{
    let shown = chrono::DateTime::from_timestamp(local, 0)?.naive_utc();
    Some(shown.and_local_timezone(chrono::Local).single()?.timestamp())
}

/// The date that a clock shows, as `2024-05-31`, with what it shows in seconds
/// since the Unix epoch as if it were UTC. There is none outside the calendar.
pub uninterp spec fn date_shown(local: i64) -> Option<Seq<char>>;

/// `chrono::DateTime::from_timestamp` and `DateTime::format`: the date of a
/// second in UTC, a function of the second alone, named [`date_shown`].
#[verifier::external_body]
fn read_date(local: i64) -> (date: Option<String>)
    ensures
        json::opt_text(date) == date_shown(local),
{
    Some(chrono::DateTime::from_timestamp(local, 0)?.format("%Y-%m-%d").to_string())
}

/// Whether a day begins at `start` that holds the second `secs`, where local
/// time is ahead of UTC by `then` at `secs` and by `first` at `start`.
pub open spec fn begins(secs: int, then: int, first: int, start: int) -> bool {
    is_offset(then) && is_offset(first) && start == ((secs + then) / 86_400) * 86_400 - first
}

/// Whether the day of a second can begin at `start`, in some time zone.
pub open spec fn is_midnight(secs: int, start: int) -> bool {
    exists|then: int, first: int| begins(secs, then, first, start)
}

/// Whether `date` can be the date of a second, in some time zone.
pub open spec fn is_date(secs: int, date: Seq<char>) -> bool {
    exists|local: i64| is_offset(local - secs) && #[trigger] date_shown(local) == Some(date)
}

/// When the local day of a second began. There is no such time where the second
/// or its local day is outside the calendar, or where midnight is skipped or
/// comes twice.
pub(crate) fn local_midnight(secs: i64) -> (start: Option<i64>)
    ensures
        start matches Some(s) ==> is_midnight(secs as int, s as int) && in_calendar(s as int),
{
    let offset: i64 = match local_offset(secs) {
        Some(offset) => offset as i64,
        None => return None,
    };
    let local: i64 = secs + offset;
    let midnight: i64 = local - second_of_day(local);
    let start = local_second(midnight);
    proof {
        if let Some(s) = start {
            assert(begins(secs as int, offset as int, midnight - s, s as int));
        }
    }
    start
}

/// The local date of a second, as `2024-05-31`.
pub(crate) fn local_date(secs: i64) -> (date: Option<String>)
    ensures
        date matches Some(d) ==> is_date(secs as int, d@),
{
    let offset: i64 = match local_offset(secs) {
        Some(offset) => offset as i64,
        None => return None,
    };
    let local: i64 = secs + offset;
    read_date(local)
}

// ---------------------------------------------------------------------------
// Laws
// ---------------------------------------------------------------------------

/// The wait is the time between the two moments, and none where the later has
/// passed. A leap second that comes earlier in its day is a second less.
pub proof fn waits_are_the_time_between(at: Moment, now: Moment, nanos: u128)
    requires
        call_ensures(wait_until, (at, now), nanos),
    ensures
        ({
            let then = at.secs * 1_000_000_000 + at.nanos;
            let here = now.secs * 1_000_000_000 + now.nanos;
            let counted = at.nanos >= 1_000_000_000 && (at.secs as int) % 86_400 < (now.secs as int)
                % 86_400;
            &&& !counted && then >= here ==> here + nanos == then
            &&& counted && then >= here + 1_000_000_000 ==> here + 1_000_000_000 + nanos == then
            &&& then < here ==> nanos == 0
            &&& counted && then < here + 1_000_000_000 ==> nanos == 0
        }),
{
}

} // verus!
