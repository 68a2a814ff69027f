//! Time windows, the decision of one rule set, and when a window changes next.

use vstd::prelude::*;

use crate::number::{
    all_digits, decimal, decimal_reads_back, digits_value, is_digit, leading_zeros_do_not_count,
    parse_u32, u32_of,
};
use crate::rules::{has_day, is_weekday, RuleSet, TimeWindow, TimeWindows};
use crate::text::{a_join_is_split_again, nothing_to_split, split_at_first, split_once, str_eq};

verus! {

/// Minutes of a day.
pub const DAY_MINUTES: u32 = 1440;

/// How far ahead a window is searched for its next change: a week, after which
/// every answer repeats.
pub const EDGE_HORIZON: u32 = 10080;

// ---------------------------------------------------------------------------
// Times of day and weekdays
// ---------------------------------------------------------------------------

/// The number in `s`, or zero when `s` is no number.
pub open spec fn number_or_zero(s: Seq<char>) -> u32 {
    match u32_of(s) {
        Some(n) => n,
        None => 0,
    }
}

/// The minute of the day that "HH:MM" names. Text without a colon names minute
/// zero, a part that is no number counts as zero, and the sum wraps at 32 bits.
pub open spec fn hhmm(s: Seq<char>) -> u32 {
    match split_at_first(s, ':') {
        None => 0,
        Some((h, m)) => ((number_or_zero(h) * 60 + number_or_zero(m)) % 0x1_0000_0000) as u32,
    }
}

/// The minute of the day that "HH:MM" names.
pub fn parse_hhmm(s: &str) -> (r: u32)
    ensures
        r == hhmm(s@),
{
    match split_once(s, ':') {
        None => 0,
        Some((h, m)) => {
            let h: u32 = match parse_u32(h.as_str()) {
                Some(n) => n,
                None => 0,
            };
            let m: u32 = match parse_u32(m.as_str()) {
                Some(n) => n,
                None => 0,
            };
            ((h as u64 * 60 + m as u64) % 0x1_0000_0000) as u32
        },
    }
}

/// The weekday before `d`.
pub open spec fn day_before(d: u8) -> u8 {
    if d <= 1 {
        7
    } else {
        (d - 1) as u8
    }
}

/// The weekday before `weekday`.
pub fn prev_weekday(weekday: u8) -> (r: u8)
    ensures
        r == day_before(weekday),
{
    if weekday <= 1 {
        7
    } else {
        weekday - 1
    }
}

/// Whether a set of weekdays covers `d`: the empty set covers every day.
pub open spec fn covers(days: Seq<u8>, d: u8) -> bool {
    days.len() == 0 || days.contains(d)
}

/// Whether a set of weekdays covers `weekday`: the empty set covers every day.
pub fn days_allow(days: &Vec<u8>, weekday: u8) -> (r: bool)
    ensures
        r == covers(days@, weekday),
{
    days.len() == 0 || has_day(days, weekday)
}

/// Whether the days of window `w` cover `weekday`.
pub fn day_allowed(w: &TimeWindow, weekday: u8) -> (r: bool)
    ensures
        r == covers(w.days@, weekday),
{
    days_allow(&w.days, weekday)
}

// ---------------------------------------------------------------------------
// Windows
// ---------------------------------------------------------------------------

/// Whether a window from `start` to `end` on `days` holds minute `m` of weekday
/// `d`. A window whose end is not after its start crosses midnight, and belongs
/// to the day it starts on; equal times make it a whole day long.
pub open spec fn holds(start: u32, end: u32, days: Seq<u8>, m: u32, d: u8) -> bool {
    if start < end {
        start <= m < end && covers(days, d)
    } else if m >= start {
        covers(days, d)
    } else {
        m < end && covers(days, day_before(d))
    }
}

/// Whether window `w` holds minute `m` of weekday `d`.
pub open spec fn window_holds(w: TimeWindow, m: u32, d: u8) -> bool {
    holds(hhmm(w.start@), hhmm(w.end@), w.days@, m, d)
}

/// Whether a window from `start` to `end` on `days` holds minute `m` of weekday `d`.
fn span_holds(start: u32, end: u32, days: &Vec<u8>, m: u32, d: u8) -> (r: bool)
    ensures
        r == holds(start, end, days@, m, d),
{
    if start < end {
        days_allow(days, d) && start <= m && m < end
    } else if m >= start {
        // Crosses midnight, still in the first part: the window belongs to the
        // day it started on.
        days_allow(days, d)
    } else if m < end {
        // Crosses midnight, in the tail: it started the day before.
        days_allow(days, prev_weekday(d))
    } else {
        false
    }
}

/// Is this window active at this minute of this weekday?
/// Weekdays are ISO (1 = Monday .. 7 = Sunday); an empty day set = every day.
pub fn in_window(w: &TimeWindow, now_min: u32, weekday: u8) -> (r: bool)
    ensures
        r == window_holds(*w, now_min, weekday),
{
    let start: u32 = parse_hhmm(w.start.as_str());
    let end: u32 = parse_hhmm(w.end.as_str());
    span_holds(start, end, &w.days, now_min, weekday)
}

/// Whether some window of `ws` holds minute `m` of weekday `d`.
pub open spec fn any_holds(ws: Seq<TimeWindow>, m: u32, d: u8) -> bool {
    exists|i: int| 0 <= i < ws.len() && window_holds(#[trigger] ws[i], m, d)
}

fn in_any_window(ws: &Vec<TimeWindow>, now_min: u32, weekday: u8) -> (r: bool)
    ensures
        r == any_holds(ws@, now_min, weekday),
{
    let mut i: usize = 0;
    while i < ws.len()
        invariant
            i <= ws@.len(),
            forall|k: int| 0 <= k < i ==> !window_holds(#[trigger] ws@[k], now_min, weekday),
        decreases ws@.len() - i,
    {
        if in_window(&ws[i], now_min, weekday) {
            return true;
        }
        i = i + 1;
    }
    false
}

/// Whether the windows block at minute `m` of weekday `d`: in block mode inside
/// a window, in any other mode outside all of them; without windows never.
pub open spec fn windows_block(tw: TimeWindows, m: u32, d: u8) -> bool {
    tw.windows@.len() > 0 && (any_holds(tw.windows@, m, d) == (tw.mode@ == "block"@))
}

// ---------------------------------------------------------------------------
// The decision of one rule set
// ---------------------------------------------------------------------------

/// Whether a rule set blocks. A running extension exempts from everything else;
/// without one any single reason is enough.
pub open spec fn blocks(
    rules: RuleSet,
    m: u32,
    d: u8,
    ext_active: bool,
    over_duration: bool,
    cooldown: bool,
    screen_off: bool,
) -> bool {
    &&& !ext_active
    &&& {
        ||| rules.always_on
        ||| rules.lock_block && screen_off
        ||| cooldown
        ||| over_duration
        ||| windows_block(rules.time_windows, m, d)
    }
}

/// Does this rule set block now? In order of priority:
/// 1. extension active -> allow (temporary exemption, even over always_on)
/// 2. always_on -> block
/// 3. lock_block and screen off -> block
/// 4. cooldown active -> block
/// 5. duration exceeded -> block
/// 6. time windows: allow mode (the default) -> block outside; block mode -> block inside
/// otherwise -> allow
pub fn eval(
    rules: &RuleSet,
    now_min: u32,
    weekday: u8,
    ext_active: bool,
    over_duration: bool,
    cooldown: bool,
    screen_off: bool,
) -> (r: bool)
    ensures
        r == blocks(
            *rules,
            now_min,
            weekday,
            ext_active,
            over_duration,
            cooldown,
            screen_off,
        ),
{
    if ext_active {
        return false;
    }
    if rules.always_on {
        return true;
    }
    if rules.lock_block && screen_off {
        return true;
    }
    if cooldown {
        return true;
    }
    if over_duration {
        return true;
    }
    let tw = &rules.time_windows;
    if tw.windows.len() > 0 {
        let in_any = in_any_window(&tw.windows, now_min, weekday);
        // Only an explicit "block" blocks inside a window; the default and any
        // unknown value mean "only usable inside".
        if str_eq(tw.mode.as_str(), "block") {
            return in_any;
        } else {
            return !in_any;
        }
    }
    false
}

// ---------------------------------------------------------------------------
// The next change of a window
// ---------------------------------------------------------------------------

/// The minute of the day `step` minutes after minute `m`.
pub open spec fn minute_after(m: u32, step: int) -> u32 {
    ((m + step) % 1440) as u32
}

/// The weekday `step` minutes after minute `m` of weekday `d`.
pub open spec fn weekday_after(m: u32, d: u8, step: int) -> u8 {
    ((d - 1 + (m + step) / 1440) % 7 + 1) as u8
}

/// Whether window `w` holds `step` minutes after minute `m` of weekday `d`.
pub open spec fn holds_after(w: TimeWindow, m: u32, d: u8, step: int) -> bool {
    window_holds(w, minute_after(m, step), weekday_after(m, d, step))
}

/// The first step from `step` on, within the horizon, at which window `w`
/// answers otherwise than at minute `m` of weekday `d`.
pub open spec fn flip_from(w: TimeWindow, m: u32, d: u8, step: int) -> Option<int>
    decreases EDGE_HORIZON + 1 - step,
{
    if step > EDGE_HORIZON {
        None
    } else if holds_after(w, m, d, step) != window_holds(w, m, d) {
        Some(step)
    } else {
        flip_from(w, m, d, step + 1)
    }
}

/// Seconds until the answer of window `w` flips, when `sec` seconds of minute
/// `m` are over: the start of the first minute with another answer, but never
/// at once. None when nothing flips in a week.
pub open spec fn flip_after(w: TimeWindow, m: u32, d: u8, sec: u64) -> Option<int> {
    match flip_from(w, m, d, 1) {
        None => None,
        Some(step) => Some(
            if step * 60 - sec >= 1 {
                step * 60 - sec
            } else {
                1
            },
        ),
    }
}

/// The flip of a window that has an edge: one whose start is its end has none.
pub open spec fn edge_after(w: TimeWindow, m: u32, d: u8, sec: u64) -> Option<int> {
    if hhmm(w.start@) == hhmm(w.end@) {
        None
    } else {
        flip_after(w, m, d, sec)
    }
}

/// Seconds until this window's answer flips, if it ever does. Walks minute by
/// minute with the predicate the engine decides with, so the schedule can never
/// disagree with the decision.
pub fn next_flip_secs(w: &TimeWindow, now_min: u32, weekday: u8, sec_in_min: u64) -> (r: Option<u64>)
    requires
        weekday >= 1,
        now_min <= u32::MAX - EDGE_HORIZON,
    ensures
        match r {
            Some(s) => flip_after(*w, now_min, weekday, sec_in_min) == Some(s as int),
            None => flip_after(*w, now_min, weekday, sec_in_min) is None,
        },
{
    let start: u32 = parse_hhmm(w.start.as_str());
    let end: u32 = parse_hhmm(w.end.as_str());
    let inside = span_holds(start, end, &w.days, now_min, weekday);
    let mut step: u32 = 1;
    while step <= EDGE_HORIZON
        invariant
            1 <= step <= EDGE_HORIZON + 1,
            weekday >= 1,
            now_min <= u32::MAX - EDGE_HORIZON,
            start == hhmm(w.start@),
            end == hhmm(w.end@),
            inside == window_holds(*w, now_min, weekday),
            flip_from(*w, now_min, weekday, 1) == flip_from(*w, now_min, weekday, step as int),
        decreases EDGE_HORIZON + 1 - step,
    {
        let abs: u32 = now_min + step;
        let m: u32 = abs % DAY_MINUTES;
        let d: u8 = ((weekday as u32 - 1 + abs / DAY_MINUTES) % 7) as u8 + 1;
        let now_inside = span_holds(start, end, &w.days, m, d);
        if now_inside != inside {
            let edge: u64 = (step as u64 * 60).saturating_sub(sec_in_min);
            return Some(
                if edge >= 1 {
                    edge
                } else {
                    1
                },
            );
        }
        step = step + 1;
    }
    None
}

/// Seconds until this window's answer flips. None for a degenerate window
/// (start == end), and for one that nothing flips in a week. A degenerate window
/// is whole days long: on every day it never flips, and on some days only it
/// does, which the schedule learns from `next_flip_secs` instead.
pub fn window_edge_secs(w: &TimeWindow, now_min: u32, weekday: u8, sec_in_min: u64) -> (r: Option<
    u64,
>)
    requires
        weekday >= 1,
        now_min <= u32::MAX - EDGE_HORIZON,
    ensures
        match r {
            Some(s) => edge_after(*w, now_min, weekday, sec_in_min) == Some(s as int),
            None => edge_after(*w, now_min, weekday, sec_in_min) is None,
        },
{
    let start: u32 = parse_hhmm(w.start.as_str());
    let end: u32 = parse_hhmm(w.end.as_str());
    if start == end {
        None
    } else {
        next_flip_secs(w, now_min, weekday, sec_in_min)
    }
}

// ---------------------------------------------------------------------------
// Laws
// ---------------------------------------------------------------------------

/// A running extension always allows, whatever the rules say.
pub proof fn extension_always_allows(
    rules: RuleSet,
    m: u32,
    d: u8,
    over: bool,
    cool: bool,
    off: bool,
)
    ensures
        !blocks(rules, m, d, true, over, cool, off),
{
}

/// Without an extension, "always on" always blocks.
pub proof fn always_on_blocks(rules: RuleSet, m: u32, d: u8, over: bool, cool: bool, off: bool)
    requires
        rules.always_on,
    ensures
        blocks(rules, m, d, false, over, cool, off),
{
}

/// A mode other than "block" is the mode "allow": usable only inside a window.
pub proof fn unknown_mode_is_allow(tw: TimeWindows, other: TimeWindows, m: u32, d: u8)
    requires
        tw.mode@ != "block"@,
        other.mode@ == "allow"@,
        other.windows == tw.windows,
    ensures
        windows_block(tw, m, d) == windows_block(other, m, d),
        windows_block(tw, m, d) == (tw.windows@.len() > 0 && !any_holds(tw.windows@, m, d)),
{
    reveal_strlit("allow");
    reveal_strlit("block");
    assert("allow"@[0] == 'a');
    assert("block"@[0] == 'b');
}

/// The two modes are opposites wherever there is a window.
pub proof fn modes_are_opposite(allow: TimeWindows, block: TimeWindows, m: u32, d: u8)
    requires
        allow.mode@ != "block"@,
        block.mode@ == "block"@,
        allow.windows == block.windows,
        allow.windows@.len() > 0,
    ensures
        windows_block(allow, m, d) == !windows_block(block, m, d),
{
}

/// The minute of the week, counted from Monday's first minute.
pub open spec fn week_minute(m: u32, d: u8) -> int {
    (d - 1) * 1440 + m
}

/// The length of a window, in minutes.
pub open spec fn span(start: u32, end: u32) -> int {
    if start < end {
        end - start
    } else {
        end - start + 1440
    }
}

/// A window belongs to the day it starts on: it holds at a moment exactly when
/// it was opened on one of its weekdays, less than its own length ago. A
/// window whose end is not after its start runs on into the day after.
pub proof fn window_belongs_to_its_starting_day(
    start: u32,
    end: u32,
    days: Seq<u8>,
    m: u32,
    d: u8,
)
    requires
        start < 1440,
        end <= 1440,
        m < 1440,
        is_weekday(d),
    ensures
        holds(start, end, days, m, d) <==> exists|s: u8|
            is_weekday(s) && #[trigger] covers(days, s) && (week_minute(m, d) - week_minute(
                start,
                s,
            )) % 10080 < span(start, end),
{
    let len = span(start, end);
    if holds(start, end, days, m, d) {
        let s = if m >= start { d } else { day_before(d) };
        let diff = week_minute(m, d) - week_minute(start, s);
        assert(is_weekday(s) && covers(days, s));
        if m >= start {
            assert(diff == m - start);
        } else if d == 1 {
            assert(diff == m - start - 6 * 1440);
            assert(diff % 10080 == m - start + 1440);
        } else {
            assert(diff == m - start + 1440);
        }
        assert(diff % 10080 < len);
    }
    assert forall|s: u8|
        is_weekday(s) && #[trigger] covers(days, s) && (week_minute(m, d) - week_minute(start, s))
            % 10080 < len implies holds(start, end, days, m, d) by {
        let diff = week_minute(m, d) - week_minute(start, s);
        assert(diff == (d - s) * 1440 + m - start);
        let k = d - s;
        assert(-6 <= k <= 6);
        if k >= 1 {
            assert(diff >= 1440 * k + m - start);
            if k == 1 {
                assert(diff % 10080 == 1440 + m - start);
            } else {
                assert(diff % 10080 >= 1440);
            }
        } else if k == 0 {
            if m >= start {
                assert(diff % 10080 == m - start);
            } else {
                assert(diff % 10080 == m - start + 10080);
            }
        } else {
            assert((diff + 10080) % 10080 == diff % 10080);
            assert(diff % 10080 == 10080 + 1440 * k + m - start);
            if k != -6 {
                assert(diff % 10080 >= 1440);
            }
        }
    }
}

/// Until its first flip a window does not change its answer, and at it it does;
/// a window without one does not change within a week.
pub proof fn edge_is_the_first_flip(w: TimeWindow, m: u32, d: u8, from: int)
    requires
        1 <= from,
    ensures
        match flip_from(w, m, d, from) {
            Some(n) => from <= n <= EDGE_HORIZON && holds_after(w, m, d, n) != window_holds(w, m, d)
                && forall|k: int| from <= k < n ==> #[trigger] holds_after(w, m, d, k)
                == window_holds(w, m, d),
            None => forall|k: int| from <= k <= EDGE_HORIZON ==> #[trigger] holds_after(w, m, d, k)
                == window_holds(w, m, d),
        },
    decreases EDGE_HORIZON + 1 - from,
{
    if from <= EDGE_HORIZON && holds_after(w, m, d, from) == window_holds(w, m, d) {
        edge_is_the_first_flip(w, m, d, from + 1);
    }
}

/// A week later every window answers the same.
pub proof fn windows_repeat_every_week(w: TimeWindow, m: u32, d: u8, step: int)
    requires
        m < 1440,
        is_weekday(d),
        0 <= step,
    ensures
        holds_after(w, m, d, step + 10080) == holds_after(w, m, d, step),
{
    let x = m + step;
    assert((x + 10080) % 1440 == x % 1440);
    assert((x + 10080) / 1440 == x / 1440 + 7);
    let y = d - 1 + x / 1440;
    assert((y + 7) % 7 == y % 7);
}

proof fn lemma_no_flip_in_a_week(w: TimeWindow, m: u32, d: u8, step: int)
    requires
        m < 1440,
        is_weekday(d),
        0 <= step,
        flip_from(w, m, d, 1) is None,
    ensures
        holds_after(w, m, d, step) == window_holds(w, m, d),
    decreases step,
{
    if step == 0 {
        assert(minute_after(m, 0) == m);
        assert(weekday_after(m, d, 0) == d);
    } else if step <= EDGE_HORIZON {
        edge_is_the_first_flip(w, m, d, 1);
    } else {
        lemma_no_flip_in_a_week(w, m, d, step - 10080);
        windows_repeat_every_week(w, m, d, step - 10080);
    }
}

/// Before its next flip, counted in seconds, a window has the answer it has now,
/// and one without a flip has that answer for ever.
pub proof fn no_flip_before_the_next(w: TimeWindow, m: u32, d: u8, sec: u64, t: int)
    requires
        sec < 60,
        m < 1440,
        is_weekday(d),
        0 <= t,
        flip_after(w, m, d, sec) matches Some(e) ==> t < e,
    ensures
        holds_after(w, m, d, (sec + t) / 60) == window_holds(w, m, d),
{
    let step = (sec + t) / 60;
    if flip_from(w, m, d, 1) is None {
        lemma_no_flip_in_a_week(w, m, d, step);
    } else if step == 0 {
        assert(minute_after(m, 0) == m);
        assert(weekday_after(m, d, 0) == d);
    } else {
        edge_is_the_first_flip(w, m, d, 1);
    }
}

/// A window that runs on every day from its start to the same time of the next
/// day always holds.
pub proof fn equal_times_on_every_day_always_hold(w: TimeWindow, m: u32, d: u8)
    requires
        hhmm(w.start@) == hhmm(w.end@),
        w.days@.len() == 0,
    ensures
        window_holds(w, m, d),
{
}

// ---------------------------------------------------------------------------
// How long a window holds
// ---------------------------------------------------------------------------

/// How many of the first `n` minutes of weekday `d` a window holds.
pub open spec fn held_minutes(start: u32, end: u32, days: Seq<u8>, d: u8, n: int) -> int
    decreases n,
{
    if n <= 0 {
        0
    } else {
        held_minutes(start, end, days, d, n - 1) + if holds(start, end, days, (n - 1) as u32, d) {
            1int
        } else {
            0
        }
    }
}

/// How many minutes of the first `k` weekdays a window holds.
pub open spec fn held_days(start: u32, end: u32, days: Seq<u8>, k: int) -> int
    decreases k,
{
    if k <= 0 {
        0
    } else {
        held_days(start, end, days, k - 1) + held_minutes(start, end, days, k as u8, 1440)
    }
}

/// How many minutes of a week window `w` holds.
pub open spec fn week_minutes(w: TimeWindow) -> int {
    held_days(hhmm(w.start@), hhmm(w.end@), w.days@, 7)
}

/// `n` where `b` holds, else nothing.
spec fn share(b: bool, n: int) -> int {
    if b {
        n
    } else {
        0
    }
}

/// How many of the first `k` weekdays are in `days`.
spec fn tally(days: Seq<u8>, k: int) -> int
    decreases k,
{
    if k <= 0 {
        0
    } else {
        tally(days, k - 1) + share(days.contains(k as u8), 1)
    }
}

proof fn lemma_held_minutes(start: u32, end: u32, days: Seq<u8>, d: u8, n: int)
    requires
        0 <= n <= 1440,
    ensures
        start < end ==> held_minutes(start, end, days, d, n) == share(
            covers(days, d),
            if n <= start {
                0
            } else if n <= end {
                n - start
            } else {
                end - start
            },
        ),
        start >= end ==> held_minutes(start, end, days, d, n) == share(
            covers(days, d),
            if n <= start {
                0
            } else {
                n - start
            },
        ) + share(
            covers(days, day_before(d)),
            if n <= end {
                n
            } else {
                end as int
            },
        ),
    decreases n,
{
    if n > 0 {
        lemma_held_minutes(start, end, days, d, n - 1);
    }
}

proof fn lemma_tally_last(days: Seq<u8>, k: int)
    requires
        0 <= k <= 7,
        days.len() > 0,
        forall|i: int, j: int| 0 <= i < j < days.len() ==> days[i] < days[j],
    ensures
        tally(days, k) == tally(days.drop_last(), k) + share(1 <= days.last() <= k, 1),
    decreases k,
{
    if k > 0 {
        lemma_tally_last(days, k - 1);
        let x = k as u8;
        let rest = days.drop_last();
        if days.contains(x) && x != days.last() {
            assert(rest[days.index_of(x)] == x);
        }
        if rest.contains(x) {
            let i = rest.index_of(x);
            assert(days[i] == x);
            assert(days[i] < days[days.len() - 1]);
        }
        if x == days.last() {
            assert(days[days.len() - 1] == x);
        }
    }
}

proof fn lemma_tally(days: Seq<u8>)
    requires
        forall|i: int, j: int| 0 <= i < j < days.len() ==> days[i] < days[j],
        forall|i: int| 0 <= i < days.len() ==> is_weekday(#[trigger] days[i]),
    ensures
        tally(days, 7) == days.len(),
    decreases days.len(),
{
    if days.len() == 0 {
        reveal_with_fuel(tally, 8);
    } else {
        let rest = days.drop_last();
        assert forall|i: int| 0 <= i < rest.len() implies is_weekday(#[trigger] rest[i]) by {
            assert(rest[i] == days[i]);
        }
        lemma_tally(rest);
        lemma_tally_last(days, 7);
        assert(is_weekday(days[days.len() - 1]));
    }
}

proof fn lemma_share(b: bool, n: int)
    ensures
        share(b, n) == share(b, 1) * n,
{
    assert(0 * n == 0) by (nonlinear_arith);
    assert(1 * n == n) by (nonlinear_arith);
}

/// Seven shares of one length are as many lengths as there are shares.
proof fn lemma_shares(c: Seq<bool>, n: int)
    requires
        c.len() == 7,
    ensures
        share(c[0], n) + share(c[1], n) + share(c[2], n) + share(c[3], n) + share(c[4], n) + share(
            c[5],
            n,
        ) + share(c[6], n) == (share(c[0], 1) + share(c[1], 1) + share(c[2], 1) + share(c[3], 1)
            + share(c[4], 1) + share(c[5], 1) + share(c[6], 1)) * n,
{
    let a = |i: int| share(c[i], 1);
    lemma_share(c[0], n);
    lemma_share(c[1], n);
    lemma_share(c[2], n);
    lemma_share(c[3], n);
    lemma_share(c[4], n);
    lemma_share(c[5], n);
    lemma_share(c[6], n);
    let (x0, x1, x2, x3) = (a(0), a(1), a(2), a(3));
    let (x4, x5, x6) = (a(4), a(5), a(6));
    assert(x0 * n + x1 * n + x2 * n + x3 * n + x4 * n + x5 * n + x6 * n == (x0 + x1 + x2 + x3 + x4
        + x5 + x6) * n) by (nonlinear_arith);
}

/// Over a week each selected starting day contributes the whole length of the
/// window once, whether it crosses midnight or not.
pub proof fn each_day_gives_the_whole_window(w: TimeWindow)
    requires
        hhmm(w.start@) < 1440,
        hhmm(w.end@) <= 1440,
        forall|i: int, j: int| 0 <= i < j < w.days@.len() ==> w.days@[i] < w.days@[j],
        forall|i: int| 0 <= i < w.days@.len() ==> is_weekday(#[trigger] w.days@[i]),
    ensures
        week_minutes(w) == (if w.days@.len() == 0 {
            7
        } else {
            w.days@.len() as int
        }) * span(hhmm(w.start@), hhmm(w.end@)),
        hhmm(w.start@) != hhmm(w.end@) && hhmm(w.end@) < 1440 ==> span(hhmm(w.start@), hhmm(w.end@))
            == (hhmm(w.end@) + 1440 - hhmm(w.start@)) % 1440,
{
    let (start, end, days) = (hhmm(w.start@), hhmm(w.end@), w.days@);
    let c = Seq::new(7, |i: int| covers(days, (i + 1) as u8));
    let n: int = if days.len() == 0 {
        7
    } else {
        days.len() as int
    };
    assert(share(c[0], 1) + share(c[1], 1) + share(c[2], 1) + share(c[3], 1) + share(c[4], 1)
        + share(c[5], 1) + share(c[6], 1) == n) by {
        if days.len() > 0 {
            lemma_tally(days);
            reveal_with_fuel(tally, 8);
        }
    }
    assert forall|d: int| 1 <= d <= 7 implies #[trigger] held_minutes(
        start,
        end,
        days,
        d as u8,
        1440,
    ) == if start < end {
        share(c[d - 1], end - start)
    } else {
        share(c[d - 1], 1440 - start) + share(c[(d + 5) % 7], end as int)
    } by {
        lemma_held_minutes(start, end, days, d as u8, 1440);
        assert(day_before(d as u8) == (d + 5) % 7 + 1);
    }
    reveal_with_fuel(held_days, 8);
    if start < end {
        lemma_shares(c, end - start);
    } else {
        lemma_shares(c, 1440 - start);
        lemma_shares(c, end as int);
        assert(n * (1440 - start) + n * end == n * (end - start + 1440)) by (nonlinear_arith);
    }
}

/// Cleaning a window's days changes none of its answers, as long as one of the
/// days is a weekday: only values that match no day are dropped.
pub proof fn sanitize_keeps_answers(w: TimeWindow, clean: TimeWindow, m: u32, d: u8)
    requires
        clean.cleans(w),
        is_weekday(d),
        w.days@.len() == 0 || exists|x: u8| #[trigger] w.days@.contains(x) && is_weekday(x),
    ensures
        window_holds(clean, m, d) == window_holds(w, m, d),
{
    assert(is_weekday(day_before(d)));
    if w.days@.len() == 0 {
        if clean.days@.len() > 0 {
            assert(clean.days@.contains(clean.days@[0]));
        }
    } else {
        let x = choose|x: u8| #[trigger] w.days@.contains(x) && is_weekday(x);
        assert(clean.days@.contains(x));
    }
    assert(covers(clean.days@, d) == covers(w.days@, d));
    assert(covers(clean.days@, day_before(d)) == covers(w.days@, day_before(d)));
}

/// A window that names no weekday at all covers every day once cleaned, instead
/// of matching never.
pub proof fn sanitize_frees_dead_windows(w: TimeWindow, clean: TimeWindow, m: u32, d: u8)
    requires
        clean.cleans(w),
        forall|x: u8| #[trigger] w.days@.contains(x) ==> !is_weekday(x),
    ensures
        window_holds(clean, m, d) == holds(
            hhmm(w.start@),
            hhmm(w.end@),
            Seq::<u8>::empty(),
            m,
            d,
        ),
{
    if clean.days@.len() > 0 {
        assert(clean.days@.contains(clean.days@[0]));
    }
}

// ---------------------------------------------------------------------------
// What the answers mean
// ---------------------------------------------------------------------------

/// A time of day is its hours and its minutes: sixty times the number before the
/// first colon, and the number after it.
pub proof fn a_time_is_its_hours_and_minutes(h: Seq<char>, m: Seq<char>)
    requires
        h.len() > 0,
        m.len() > 0,
        all_digits(h),
        all_digits(m),
        digits_value(h) * 60 + digits_value(m) <= u32::MAX,
    ensures
        hhmm(h + seq![':'] + m) == digits_value(h) * 60 + digits_value(m),
{
    assert forall|i: int| 0 <= i < h.len() implies h[i] != ':' by {
        assert(is_digit(h[i]));
    }
    a_join_is_split_again(h, ':', m);
    assert(is_digit(h[0]) && is_digit(m[0]));
}

/// The hours and minutes of a day, written with or without leading zeros, name its
/// minutes one after the other.
pub proof fn every_minute_of_the_day_has_its_time(h: u32, m: u32)
    requires
        h < 24,
        m < 60,
    ensures
        hhmm(decimal(h as nat) + seq![':'] + decimal(m as nat)) == h * 60 + m,
        hhmm(seq!['0'] + decimal(h as nat) + seq![':'] + (seq!['0'] + decimal(m as nat))) == h * 60
            + m,
{
    let (a, b) = (decimal(h as nat), decimal(m as nat));
    decimal_reads_back(h);
    decimal_reads_back(m);
    a_time_is_its_hours_and_minutes(a, b);
    leading_zeros_do_not_count(a);
    leading_zeros_do_not_count(b);
    let (a0, b0) = (seq!['0'] + a, seq!['0'] + b);
    assert forall|i: int| 0 <= i < a0.len() implies is_digit(#[trigger] a0[i]) by {
        if i > 0 {
            assert(a0[i] == a[i - 1]);
        }
    }
    assert forall|i: int| 0 <= i < b0.len() implies is_digit(#[trigger] b0[i]) by {
        if i > 0 {
            assert(b0[i] == b[i - 1]);
        }
    }
    a_time_is_its_hours_and_minutes(a0, b0);
}

/// Text without a colon names midnight.
pub proof fn a_time_without_a_colon_is_midnight(s: Seq<char>)
    requires
        !s.contains(':'),
    ensures
        hhmm(s) == 0,
{
    nothing_to_split(s, ':');
}

/// A window within a day holds from its start up to, but not at, its end, on each
/// of its days; one that names no day does so every day.
pub proof fn a_plain_window_holds_between_its_times(w: TimeWindow, m: u32, d: u8)
    requires
        hhmm(w.start@) < hhmm(w.end@),
    ensures
        window_holds(w, m, d) <==> hhmm(w.start@) <= m < hhmm(w.end@) && (w.days@.len() == 0
            || w.days@.contains(d)),
{
}

/// A window across midnight holds from its start to the end of each of its days,
/// and on the day after each of them up to its end. Monday comes after Sunday.
pub proof fn a_window_across_midnight_belongs_to_its_evening(w: TimeWindow, m: u32, d: u8)
    requires
        hhmm(w.start@) >= hhmm(w.end@),
        is_weekday(d),
    ensures
        m >= hhmm(w.start@) ==> (window_holds(w, m, d) <==> w.days@.len() == 0 || w.days@.contains(d)),
        m < hhmm(w.end@) ==> (window_holds(w, m, d) <==> w.days@.len() == 0 || w.days@.contains(
            ((d + 5) % 7 + 1) as u8,
        )),
        hhmm(w.end@) <= m < hhmm(w.start@) ==> !window_holds(w, m, d),
{
}

/// One window is enough: in block mode the rule set is then blocked, in any other
/// mode it is usable as far as the windows go.
pub proof fn any_window_is_enough(tw: TimeWindows, k: int, m: u32, d: u8)
    requires
        0 <= k < tw.windows@.len(),
        window_holds(tw.windows@[k], m, d),
    ensures
        tw.mode@ == "block"@ ==> windows_block(tw, m, d),
        tw.mode@ != "block"@ ==> !windows_block(tw, m, d),
{
}

/// Outside all windows it is the other way round, and without any window nothing
/// is restricted.
pub proof fn outside_all_windows(tw: TimeWindows, m: u32, d: u8)
    requires
        forall|k: int| 0 <= k < tw.windows@.len() ==> !window_holds(#[trigger] tw.windows@[k], m, d),
    ensures
        tw.mode@ == "block"@ ==> !windows_block(tw, m, d),
        tw.mode@ != "block"@ ==> windows_block(tw, m, d) == (tw.windows@.len() > 0),
{
}

/// The order and the number of times a window stands in the list do not matter.
pub proof fn the_order_of_windows_does_not_matter(a: TimeWindows, b: TimeWindows, m: u32, d: u8)
    requires
        a.mode@ == b.mode@,
        forall|w: TimeWindow| #[trigger] a.windows@.contains(w) <==> b.windows@.contains(w),
    ensures
        windows_block(a, m, d) == windows_block(b, m, d),
{
    if a.windows@.len() > 0 {
        assert(a.windows@.contains(a.windows@[0]));
        assert(b.windows@.len() > 0);
    }
    if b.windows@.len() > 0 {
        assert(b.windows@.contains(b.windows@[0]));
        assert(a.windows@.contains(b.windows@[0]));
    }
    if any_holds(a.windows@, m, d) {
        let i = choose|i: int| 0 <= i < a.windows@.len() && window_holds(#[trigger] a.windows@[i], m, d);
        assert(a.windows@.contains(a.windows@[i]));
        assert(window_holds(b.windows@[b.windows@.index_of(a.windows@[i])], m, d));
    }
    if any_holds(b.windows@, m, d) {
        let i = choose|i: int| 0 <= i < b.windows@.len() && window_holds(#[trigger] b.windows@[i], m, d);
        assert(b.windows@.contains(b.windows@[i]));
        assert(a.windows@.contains(b.windows@[i]));
        assert(window_holds(a.windows@[a.windows@.index_of(b.windows@[i])], m, d));
    }
}

/// Without an extension each reason blocks on its own: the screen being off where
/// the rules ask for it, a cooldown, a limit that is used up, and the windows.
pub proof fn every_reason_blocks_on_its_own(
    rules: RuleSet,
    m: u32,
    d: u8,
    over: bool,
    cool: bool,
    off: bool,
)
    ensures
        rules.lock_block && off ==> blocks(rules, m, d, false, over, cool, off),
        cool ==> blocks(rules, m, d, false, over, cool, off),
        over ==> blocks(rules, m, d, false, over, cool, off),
        windows_block(rules.time_windows, m, d) ==> blocks(rules, m, d, false, over, cool, off),
{
}

/// Without a reason nothing is blocked: the screen matters only to rules that ask
/// for it.
pub proof fn nothing_blocks_without_a_reason(rules: RuleSet, m: u32, d: u8, ext: bool, off: bool)
    requires
        !rules.always_on,
        !rules.lock_block || !off,
        !windows_block(rules.time_windows, m, d),
    ensures
        !blocks(rules, m, d, ext, false, false, off),
{
}

/// Counting minutes on is walking through the week, from Sunday's last minute to
/// Monday's first.
pub proof fn minutes_walk_through_the_week(m: u32, d: u8, step: int)
    requires
        m < 1440,
        is_weekday(d),
        0 <= step,
    ensures
        minute_after(m, step) < 1440,
        is_weekday(weekday_after(m, d, step)),
        week_minute(minute_after(m, step), weekday_after(m, d, step)) == (week_minute(m, d) + step)
            % 10080,
{
    let x = m + step;
    let (q, r) = (x / 1440, x % 1440);
    let y = d - 1 + q;
    assert(y == 7 * (y / 7) + y % 7);
    assert(week_minute(m, d) + step == 10080 * (y / 7) + (y % 7) * 1440 + r);
}

/// At its next flip a window answers otherwise than now, so a wake-up at that
/// moment comes neither early nor late.
pub proof fn a_window_flips_at_its_next_flip(w: TimeWindow, m: u32, d: u8, sec: u64)
    requires
        sec < 60,
    ensures
        flip_after(w, m, d, sec) matches Some(e) ==> e >= 1 && holds_after(
            w,
            m,
            d,
            (sec + e) / 60,
        ) != window_holds(w, m, d),
        (exists|k: int|
            1 <= k <= 10080 && #[trigger] holds_after(w, m, d, k) != window_holds(w, m, d))
            ==> flip_after(w, m, d, sec) is Some,
{
    edge_is_the_first_flip(w, m, d, 1);
}

/// A window with different times has its edge where it flips; one whose times are
/// the same has none.
pub proof fn the_edge_of_a_window_is_its_flip(w: TimeWindow, m: u32, d: u8, sec: u64)
    ensures
        hhmm(w.start@) != hhmm(w.end@) ==> edge_after(w, m, d, sec) == flip_after(w, m, d, sec),
        hhmm(w.start@) == hhmm(w.end@) ==> edge_after(w, m, d, sec) is None,
{
}

/// Cleaning rules changes no decision of theirs, as long as every window names a
/// weekday or no day at all.
pub proof fn cleaning_keeps_decisions(
    s: RuleSet,
    clean: RuleSet,
    m: u32,
    d: u8,
    ext: bool,
    over: bool,
    cool: bool,
    off: bool,
)
    requires
        clean.cleans(s),
        is_weekday(d),
        forall|k: int|
            0 <= k < s.time_windows.windows@.len() ==> (
            #[trigger] s.time_windows.windows@[k]).days@.len() == 0 || exists|x: u8| #[trigger]
                s.time_windows.windows@[k].days@.contains(x) && is_weekday(x),
    ensures
        blocks(clean, m, d, ext, over, cool, off) == blocks(s, m, d, ext, over, cool, off),
{
    let (a, b) = (clean.time_windows.windows@, s.time_windows.windows@);
    assert forall|k: int| 0 <= k < b.len() implies window_holds(#[trigger] a[k], m, d)
        == window_holds(b[k], m, d) by {
        assert(b[k].days@.len() == 0 || exists|x: u8| #[trigger]
            b[k].days@.contains(x) && is_weekday(x));
        sanitize_keeps_answers(b[k], a[k], m, d);
    }
    if any_holds(b, m, d) {
        let i = choose|i: int| 0 <= i < b.len() && window_holds(#[trigger] b[i], m, d);
        assert(window_holds(a[i], m, d));
    }
    assert(any_holds(a, m, d) == any_holds(b, m, d));
}

/// What is no number counts as zero in a time: hours without minutes are the full hour,
/// minutes without hours stand after midnight.
pub proof fn a_part_that_is_no_number_counts_as_zero(h: Seq<char>, m: Seq<char>, n: u32)
    requires
        !h.contains(':'),
    ensures
        u32_of(h) is None && u32_of(m) == Some(n) ==> hhmm(h + seq![':'] + m) == n,
        u32_of(h) == Some(n) && u32_of(m) is None && n < 24 ==> hhmm(h + seq![':'] + m) == n * 60,
        u32_of(h) is None && u32_of(m) is None ==> hhmm(h + seq![':'] + m) == 0,
{
    a_join_is_split_again(h, ':', m);
}

} // verus!
