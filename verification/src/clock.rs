//! Wall-clock time in the configured timezone.

use chrono::{Datelike, Timelike};

use vstd::prelude::*;

use crate::number::{
    decimal, decimal_reads_back, i32_of, is_digit, parse_i32, signs_are_read,
};
use crate::text::{
    a_prefix_comes_off, chars_of, is_blank, is_tight, str_eq, strip_prefix, trim, trimmed,
    trimming_takes_off_white_space, without_prefix,
};
use crate::window::{minute_after, weekday_after};

verus! {

/// Number of the day 1970-01-01, where 0001-01-01 is day 1.
pub const EPOCH_DAY: i32 = 719163;

/// Number of the last day of the calendar, 262142-12-31.
pub const LAST_DAY: i32 = 95745399;

/// The last epoch second of the calendar in UTC.
pub const LAST_UTC_SECOND: i64 = 8210266876799;

/// A moment, as the configured timezone writes it.
#[derive(Debug, Clone, Copy, PartialEq, Eq, Structural)]
pub struct Clock {
    /// seconds since 1970-01-01 00:00 UTC
    pub epoch: u64,
    /// local minute of the day
    pub minute: u32,
    /// local day, where 0001-01-01 is day 1
    pub day: i32,
    /// local ISO weekday, 1 = Monday .. 7 = Sunday
    pub weekday: u8,
}

impl Clock {
    /// The fields are within their ranges.
    pub open spec fn wf(self) -> bool {
        &&& self.minute < 1440
        &&& 1 <= self.day <= LAST_DAY
        &&& 1 <= self.weekday <= 7
    }
}

// ---------------------------------------------------------------------------
// The timezone setting
// ---------------------------------------------------------------------------

/// Whether `s` starts with a sign.
pub open spec fn is_signed(s: Seq<char>) -> bool {
    s.len() > 0 && (s[0] == '+' || s[0] == '-')
}

/// `h` hours in seconds, where that is a 32-bit number.
pub open spec fn hours_in_secs(h: i32) -> Option<i32> {
    if i32::MIN <= h * 3600 <= i32::MAX {
        Some((h * 3600) as i32)
    } else {
        None
    }
}

/// The offset that a timezone setting names, in seconds east of UTC.
pub open spec fn tz_of(value: Seq<char>) -> Option<i32> {
    let v = trimmed(value);
    if v == "UTC"@ {
        Some(0i32)
    } else {
        match without_prefix(v, "UTC"@) {
            Some(n) => if is_signed(n) {
                match i32_of(n) {
                    Some(h) => hours_in_secs(h),
                    None => None,
                }
            } else {
                None
            },
            None => None,
        }
    }
}

/// Parse the timezone setting. Only fixed "UTC" / "UTC+N" / "UTC-N" offsets
/// are supported (no device-local "auto", no DST); any other value falls back
/// to UTC. The installer bakes the detected offset in at install time.
pub fn parse_tz(value: &str) -> (r: Option<i32>)
    ensures
        r == tz_of(value@),
{
    let v = trim(value);
    if str_eq(v.as_str(), "UTC") {
        return Some(0);
    }
    match strip_prefix(v.as_str(), "UTC") {
        Some(n) => {
            let cs = chars_of(n.as_str());
            if cs.len() == 0 || (cs[0] != '+' && cs[0] != '-') {
                return None;
            }
            match parse_i32(n.as_str()) {
                Some(h) => h.checked_mul(3600),
                None => None,
            }
        },
        None => None,
    }
}

/// The offset that is in force: one of a day or more, like none at all, is UTC.
pub open spec fn offset_of(tz: Option<i32>) -> int {
    match tz {
        Some(s) => if -86400 < s < 86400 {
            s as int
        } else {
            0
        },
        None => 0,
    }
}

/// Whether a fixed offset of `secs` seconds exists.
///
/// Calls `chrono::FixedOffset::east_opt`, which gives an offset exactly for
/// less than a day in either direction.
#[verifier::external_body]
fn offset_exists(secs: i32) -> (r: bool)
    ensures
        r == (-86400 < secs < 86400),
{
    chrono::FixedOffset::east_opt(secs).is_some()
}

/// The offset that is in force.
fn offset_in_force(tz: Option<i32>) -> (r: i32)
    ensures
        r == offset_of(tz),
{
    match tz {
        Some(s) => if offset_exists(s) {
            s
        } else {
            0
        },
        None => 0,
    }
}

// ---------------------------------------------------------------------------
// Reading the clock
// ---------------------------------------------------------------------------

/// Whether the calendar holds the moment `secs` after the epoch, in UTC and
/// `east` seconds east of it.
pub open spec fn in_calendar(secs: int, east: int) -> bool {
    0 <= secs <= LAST_UTC_SECOND && secs + east <= LAST_UTC_SECOND
}

/// The moment `secs` after the epoch, `east` seconds east of UTC.
pub open spec fn clock_of(secs: int, east: int) -> Clock {
    let local = secs + east;
    Clock {
        epoch: secs as u64,
        minute: (local % 86400 / 60) as u32,
        day: (local / 86400 + EPOCH_DAY) as i32,
        weekday: ((local / 86400 + EPOCH_DAY - 1) % 7 + 1) as u8,
    }
}

/// Seconds since the epoch.
///
/// Calls `chrono::Utc::now` and takes its `timestamp`. What it returns is the
/// machine's time; it never lies before the epoch nor past the calendar's end.
#[verifier::external_body]
fn utc_seconds() -> (r: i64)
    ensures
        0 <= r <= LAST_UTC_SECOND,
{
    chrono::Utc::now().timestamp()
}

/// Hour, minute, day number and ISO weekday of the moment `secs` after the
/// epoch, `east` seconds east of UTC.
///
/// Calls `chrono::DateTime::from_timestamp` and `with_timezone` and takes the
/// local fields: the hours and minutes since local midnight, the local date
/// counted in days with 0001-01-01, a Monday, as day 1, and its weekday.
#[verifier::external_body]
fn local_fields(secs: i64, east: i32) -> (r: (u32, u32, i32, u32))
    requires
        in_calendar(secs as int, east as int),
        -86400 < east < 86400,
    ensures
        r.0 == (secs + east) % 86400 / 3600,
        r.1 == (secs + east) % 3600 / 60,
        r.2 == (secs + east) / 86400 + EPOCH_DAY,
        r.3 == ((secs + east) / 86400 + EPOCH_DAY - 1) % 7 + 1,
{
    let offset = chrono::FixedOffset::east_opt(east).unwrap();
    let local = chrono::DateTime::from_timestamp(secs, 0).unwrap().with_timezone(&offset);
    let day = local.date_naive().num_days_from_ce();
    (local.hour(), local.minute(), day, local.weekday().number_from_monday())
}

/// The moment `secs` after the epoch in the configured timezone.
pub fn clock_at(secs: i64, tz: Option<i32>) -> (r: Clock)
    requires
        in_calendar(secs as int, offset_of(tz)),
    ensures
        r == clock_of(secs as int, offset_of(tz)),
        r.wf(),
        r.epoch == secs,
{
    let east: i32 = offset_in_force(tz);
    let (hour, minute, day, weekday): (u32, u32, i32, u32) = local_fields(secs, east);
    let ghost local = secs + east;
    assert(local % 86400 / 3600 * 60 + local % 3600 / 60 == local % 86400 / 60);
    Clock { epoch: secs as u64, minute: hour * 60 + minute, day, weekday: weekday as u8 }
}

/// What the machine's time `secs` after the epoch stands for: a moment, or no
/// date where the calendar ends before it in the configured timezone.
pub open spec fn moment_of(secs: i64, tz: Option<i32>) -> Result<Clock, i64> {
    if in_calendar(secs as int, offset_of(tz)) {
        Ok(clock_of(secs as int, offset_of(tz)))
    } else {
        Err(secs)
    }
}

/// The moment `secs` after the epoch in the configured timezone. A time past the
/// calendar's end there has no date and comes back as it is.
pub fn clock_or_late(secs: i64, tz: Option<i32>) -> (r: Result<Clock, i64>)
    requires
        0 <= secs <= LAST_UTC_SECOND,
    ensures
        r == moment_of(secs, tz),
        r matches Ok(c) ==> c.wf() && c.epoch == secs,
{
    if secs + offset_in_force(tz) as i64 <= LAST_UTC_SECOND {
        Ok(clock_at(secs, tz))
    } else {
        Err(secs)
    }
}

/// The current moment in the configured timezone: epoch seconds, minute of the
/// day, date and ISO weekday. Which moment that is, is the machine's time; what
/// it stands for, `clock_or_late` says.
pub fn now_parts(tz: Option<i32>) -> (r: Result<Clock, i64>)
    ensures
        exists|secs: i64| 0 <= secs <= LAST_UTC_SECOND && r == #[trigger] moment_of(secs, tz),
        match r {
            Ok(c) => c.wf() && in_calendar(c.epoch as int, offset_of(tz)) && c == clock_of(
                c.epoch as int,
                offset_of(tz),
            ),
            Err(secs) => 0 <= secs <= LAST_UTC_SECOND && !in_calendar(secs as int, offset_of(tz)),
        },
{
    clock_or_late(utc_seconds(), tz)
}

// ---------------------------------------------------------------------------
// Dates in words
// ---------------------------------------------------------------------------

/// How a day is written: "2026-01-31".
pub uninterp spec fn date_text(day: int) -> Seq<char>;

/// Writes the day with the number `day` as year, month and day of the month.
///
/// Calls `chrono::NaiveDate::from_num_days_from_ce_opt` and formats the date as
/// "%Y-%m-%d". Year, month and day all stand in the text, the last two always
/// with two digits, so no two days are written alike.
#[verifier::external_body]
pub(crate) fn day_text(day: i32) -> (r: String)
    requires
        1 <= day <= LAST_DAY,
    ensures
        r@ == date_text(day as int),
        forall|other: int|
            1 <= other <= LAST_DAY && #[trigger] date_text(other) == r@ ==> other == day,
{
    chrono::NaiveDate::from_num_days_from_ce_opt(day).unwrap().format("%Y-%m-%d").to_string()
}

// ---------------------------------------------------------------------------
// Laws
// ---------------------------------------------------------------------------

/// The next second is either the same local minute or the one after it; the
/// weekday moves on exactly when the day does.
pub proof fn time_moves_on(secs: int, east: int)
    requires
        0 <= secs,
        in_calendar(secs + 1, east),
        -86400 < east < 86400,
    ensures
        ({
            let a = clock_of(secs, east);
            let b = clock_of(secs + 1, east);
            &&& b.day == a.day && b.weekday == a.weekday && (b.minute == a.minute || b.minute
                == a.minute + 1)
                || b.day == a.day + 1 && b.weekday == a.weekday % 7 + 1 && a.minute == 1439
                && b.minute == 0
        }),
{
}

/// At an offset of whole minutes the clock moves as the wake schedule counts:
/// `t` seconds later it is as many minutes later as the second in the minute and
/// `t` make up.
pub proof fn the_clock_moves_as_scheduled(secs: int, east: int, t: int)
    requires
        0 <= secs,
        0 <= t,
        in_calendar(secs + t, east),
        -86400 < east < 86400,
        east % 60 == 0,
    ensures
        ({
            let a = clock_of(secs, east);
            let b = clock_of(secs + t, east);
            let step = (secs % 60 + t) / 60;
            &&& b.minute == minute_after(a.minute, step)
            &&& b.weekday == weekday_after(a.minute, a.weekday, step)
        }),
{
    let local = secs + east;
    let m = local / 60;
    let step = (secs % 60 + t) / 60;
    lemma_whole_minutes(secs, east, t);
    lemma_minutes_of_seconds(local);
    lemma_minutes_of_seconds(local + t);
    lemma_minutes_later(m, step);
    lemma_weekday_later(m / 1440, (m % 1440 + step) / 1440);
}

/// Seconds that whole minutes are added to count their minutes apart.
proof fn lemma_whole_minutes(secs: int, east: int, t: int)
    requires
        east % 60 == 0,
    ensures
        (secs + east + t) / 60 == (secs + east) / 60 + (secs % 60 + t) / 60,
{
    let e = east / 60;
    let s = secs / 60;
    assert(secs + east == 60 * (s + e) + secs % 60);
    assert((secs + east) / 60 == s + e);
}

/// Days, and minutes of the day, of `x` seconds.
proof fn lemma_minutes_of_seconds(x: int)
    ensures
        x % 86400 / 60 == x / 60 % 1440,
        x / 86400 == x / 60 / 1440,
{
}

/// Days, and the minute of the day, `step` minutes after minute `m`.
proof fn lemma_minutes_later(m: int, step: int)
    ensures
        (m + step) % 1440 == (m % 1440 + step) % 1440,
        (m + step) / 1440 == m / 1440 + (m % 1440 + step) / 1440,
{
    let q = m / 1440;
    let x = m % 1440 + step;
    assert(m + step == 1440 * q + x);
}

/// The weekday `k` days after day `day`.
proof fn lemma_weekday_later(day: int, k: int)
    ensures
        (day + k + EPOCH_DAY - 1) % 7 == ((day + EPOCH_DAY - 1) % 7 + k) % 7,
{
    let x = day + EPOCH_DAY - 1;
    assert(x == 7 * (x / 7) + x % 7);
}

/// Every offset that a timezone setting can name is whole hours.
pub proof fn offsets_are_whole_hours(value: Seq<char>)
    ensures
        tz_of(value) matches Some(s) ==> s % 3600 == 0,
        offset_of(tz_of(value)) % 3600 == 0,
{
}

/// A moment is its local day and its local minute: days of 86400 seconds counted
/// from the epoch's, minutes of sixty seconds from local midnight. Weeks run from
/// Monday, and 0001-01-01 was one.
pub proof fn a_moment_is_its_local_day_and_minute(secs: int, east: int)
    requires
        in_calendar(secs, east),
        -86400 < east < 86400,
    ensures
        ({
            let c = clock_of(secs, east);
            let local = secs + east;
            &&& c.epoch == secs
            &&& (c.day - 719163) * 86400 + c.minute * 60 <= local
            &&& local < (c.day - 719163) * 86400 + c.minute * 60 + 60
            &&& c.minute < 1440
            &&& 1 <= c.weekday <= 7
            &&& (c.day - c.weekday) % 7 == 0
        }),
{
    let local = secs + east;
    assert(local == 86400 * (local / 86400) + local % 86400);
    let x = local / 86400 + EPOCH_DAY - 1;
    assert(x == 7 * (x / 7) + x % 7);
}

/// The setting "UTC" is no offset, and "UTC+N" and "UTC-N" are N hours east and west
/// of it, whatever white space stands around them.
pub proof fn a_setting_names_hours_from_utc(a: Seq<char>, n: u32, b: Seq<char>)
    requires
        is_blank(a),
        is_blank(b),
        n <= 596523,
    ensures
        tz_of(a + "UTC"@ + b) == Some(0i32),
        tz_of(a + ("UTC"@ + (seq!['+'] + decimal(n as nat))) + b) == Some((n * 3600) as i32),
        tz_of(a + ("UTC"@ + (seq!['-'] + decimal(n as nat))) + b) == Some((-(n * 3600)) as i32),
{
    reveal_strlit("UTC");
    let d = decimal(n as nat);
    decimal_reads_back(n);
    signs_are_read(n);
    assert(is_digit(d[d.len() - 1]));
    trimming_takes_off_white_space(a, "UTC"@, b);
    let plus = seq!['+'] + d;
    let minus = seq!['-'] + d;
    let (p, m) = ("UTC"@ + plus, "UTC"@ + minus);
    assert(p.last() == d.last() && m.last() == d.last());
    trimming_takes_off_white_space(a, p, b);
    trimming_takes_off_white_space(a, m, b);
    a_prefix_comes_off("UTC"@, plus, p);
    a_prefix_comes_off("UTC"@, minus, m);
}

/// Any other setting names no offset: one that does not start with "UTC", one without
/// a sign behind it, and one whose hours are no number.
pub proof fn other_settings_name_no_offset(v: Seq<char>, rest: Seq<char>)
    requires
        is_tight(v),
        v != "UTC"@,
        v == "UTC"@ + rest ==> rest[0] != '+' && rest[0] != '-' || i32_of(rest) is None,
        v != "UTC"@ + rest ==> forall|t: Seq<char>| v != #[trigger] ("UTC"@ + t),
    ensures
        tz_of(v) is None,
{
    trimming_takes_off_white_space(Seq::empty(), v, Seq::empty());
    assert(Seq::<char>::empty() + v + Seq::<char>::empty() =~= v);
    a_prefix_comes_off("UTC"@, rest, v);
    if let Some(t) = without_prefix(v, "UTC"@) {
        assert(v == "UTC"@ + t);
    }
}

/// An offset of less than a day is in force as it is; a day or more, like none, is
/// UTC.
pub proof fn an_offset_of_less_than_a_day_is_in_force(s: i32)
    ensures
        -86400 < s < 86400 ==> offset_of(Some(s)) == s,
        s <= -86400 || s >= 86400 ==> offset_of(Some(s)) == 0,
        offset_of(None) == 0,
{
}

/// A machine time is a moment wherever the calendar holds it: up to its last second
/// in UTC, and up to the end of its last local day.
pub proof fn a_time_in_the_calendar_is_a_moment(secs: i64, tz: Option<i32>)
    requires
        0 <= secs <= LAST_UTC_SECOND,
    ensures
        moment_of(secs, tz) is Ok <==> secs + offset_of(tz) < (95745399 + 1 - 719163) * 86400,
        moment_of(secs, tz) matches Ok(c) ==> c == clock_of(secs as int, offset_of(tz)),
        moment_of(secs, tz) matches Err(late) ==> late == secs,
{
}

} // verus!
