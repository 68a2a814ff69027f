//! The wake schedule: how long the daemon may sleep before something can change.

use vstd::prelude::*;

use crate::rules::{is_weekday, AppRule, GroupRule, RuleSet, Rules};
use crate::window::{
    any_holds, blocks, flip_after, holds_after, minute_after, next_flip_secs,
    no_flip_before_the_next, weekday_after, window_holds,
};

verus! {

/// Seconds between two sweeps over the blocked uids.
pub const SWEEP_SECS: u64 = 60;

/// Wake cadences, in seconds. The scheduler picks the shortest one that keeps
/// the configured features correct. Blocking a launch never depends on these:
/// that happens in the kernel gate.
pub const ACTIVE_TICK_SECS: u64 = 15;

pub const SWEEP_TICK_SECS: u64 = SWEEP_SECS;

pub const IDLE_TICK_SECS: u64 = 300;

// ---------------------------------------------------------------------------
// Enabled rule sets
// ---------------------------------------------------------------------------

/// The rule sets of the enabled apps, in order.
pub open spec fn enabled_app_sets(apps: Seq<AppRule>) -> Seq<RuleSet>
    decreases apps.len(),
{
    if apps.len() == 0 {
        Seq::empty()
    } else if apps.last().enabled {
        enabled_app_sets(apps.drop_last()).push(apps.last().rules)
    } else {
        enabled_app_sets(apps.drop_last())
    }
}

/// The rule sets of the enabled groups, in order.
pub open spec fn enabled_group_sets(groups: Seq<GroupRule>) -> Seq<RuleSet>
    decreases groups.len(),
{
    if groups.len() == 0 {
        Seq::empty()
    } else if groups.last().enabled {
        enabled_group_sets(groups.drop_last()).push(groups.last().rules)
    } else {
        enabled_group_sets(groups.drop_last())
    }
}

/// Every enabled rule set: app rules, then group rules.
pub open spec fn enabled_of(rules: Rules) -> Seq<RuleSet> {
    enabled_app_sets(rules.apps.vals()) + enabled_group_sets(rules.groups.vals())
}

/// The rule sets that `v` refers to.
pub open spec fn set_values(v: Seq<&RuleSet>) -> Seq<RuleSet> {
    v.map_values(|r: &RuleSet| *r)
}

/// Every enabled rule set: app rules, then group rules.
pub fn enabled_sets(rules: &Rules) -> (r: Vec<&RuleSet>)
    requires
        rules.wf(),
    ensures
        set_values(r@) == enabled_of(*rules),
{
    let mut r: Vec<&RuleSet> = Vec::new();
    let ghost apps = rules.apps.vals();
    let ghost groups = rules.groups.vals();
    let mut i: usize = 0;
    assert(apps.take(0) =~= Seq::empty());
    assert(set_values(r@) =~= enabled_app_sets(apps.take(0)));
    while i < rules.apps.len()
        invariant
            rules.wf(),
            apps == rules.apps.vals(),
            i <= apps.len(),
            set_values(r@) == enabled_app_sets(apps.take(i as int)),
        decreases apps.len() - i,
    {
        let a = rules.apps.val_at(i);
        let ghost before = r@;
        assert(apps.take(i + 1).drop_last() =~= apps.take(i as int));
        if a.enabled {
            r.push(&a.rules);
            assert(set_values(r@) =~= set_values(before).push(a.rules));
        }
        i = i + 1;
    }
    assert(apps.take(i as int) =~= apps);
    let ghost first = set_values(r@);
    i = 0;
    assert(groups.take(0) =~= Seq::empty());
    assert(first + enabled_group_sets(groups.take(0)) =~= first);
    while i < rules.groups.len()
        invariant
            rules.wf(),
            groups == rules.groups.vals(),
            i <= groups.len(),
            set_values(r@) == first + enabled_group_sets(groups.take(i as int)),
        decreases groups.len() - i,
    {
        let g = rules.groups.val_at(i);
        let ghost before = r@;
        assert(groups.take(i + 1).drop_last() =~= groups.take(i as int));
        if g.enabled {
            r.push(&g.rules);
            assert(set_values(r@) =~= set_values(before).push(g.rules));
            assert(first + enabled_group_sets(groups.take(i as int)).push(g.rules) =~= (first
                + enabled_group_sets(groups.take(i as int))).push(g.rules));
        }
        i = i + 1;
    }
    assert(groups.take(i as int) =~= groups);
    r
}

/// A rule set is among the enabled ones exactly when an enabled app or an
/// enabled group carries it.
pub proof fn enabled_sets_are_the_enabled_rules(rules: Rules, s: RuleSet)
    ensures
        enabled_of(rules).contains(s) <==> {
            ||| exists|i: int|
                0 <= i < rules.apps.vals().len() && (#[trigger] rules.apps.vals()[i]).enabled
                    && rules.apps.vals()[i].rules == s
            ||| exists|i: int|
                0 <= i < rules.groups.vals().len() && (#[trigger] rules.groups.vals()[i]).enabled
                    && rules.groups.vals()[i].rules == s
        },
{
    let a = enabled_app_sets(rules.apps.vals());
    let g = enabled_group_sets(rules.groups.vals());
    lemma_app_sets(rules.apps.vals(), s);
    lemma_group_sets(rules.groups.vals(), s);
    if (a + g).contains(s) {
        let k = (a + g).index_of(s);
        if k < a.len() {
            assert(a[k] == s);
        } else {
            assert(g[k - a.len()] == s);
        }
    }
    if a.contains(s) {
        assert((a + g)[a.index_of(s)] == s);
    }
    if g.contains(s) {
        assert((a + g)[a.len() + g.index_of(s)] == s);
    }
}

proof fn lemma_app_sets(apps: Seq<AppRule>, s: RuleSet)
    ensures
        enabled_app_sets(apps).contains(s) <==> exists|i: int|
            0 <= i < apps.len() && (#[trigger] apps[i]).enabled && apps[i].rules == s,
    decreases apps.len(),
{
    if apps.len() > 0 {
        let rest = apps.drop_last();
        lemma_app_sets(rest, s);
        let p = enabled_app_sets(rest);
        let q = enabled_app_sets(apps);
        if q.contains(s) {
            let k = q.index_of(s);
            if k < p.len() {
                assert(p[k] == s);
                let i = choose|i: int|
                    0 <= i < rest.len() && (#[trigger] rest[i]).enabled && rest[i].rules == s;
                assert(apps[i] == rest[i]);
            } else {
                assert(apps[apps.len() - 1].enabled);
            }
        }
        if exists|i: int|
            0 <= i < apps.len() && (#[trigger] apps[i]).enabled && apps[i].rules == s {
            let i = choose|i: int|
                0 <= i < apps.len() && (#[trigger] apps[i]).enabled && apps[i].rules == s;
            if i < rest.len() {
                assert(rest[i] == apps[i]);
                let k = p.index_of(s);
                assert(q[k] == s);
            } else {
                assert(q[p.len() as int] == s);
            }
        }
    }
}

proof fn lemma_group_sets(groups: Seq<GroupRule>, s: RuleSet)
    ensures
        enabled_group_sets(groups).contains(s) <==> exists|i: int|
            0 <= i < groups.len() && (#[trigger] groups[i]).enabled && groups[i].rules == s,
    decreases groups.len(),
{
    if groups.len() > 0 {
        let rest = groups.drop_last();
        lemma_group_sets(rest, s);
        let p = enabled_group_sets(rest);
        let q = enabled_group_sets(groups);
        if q.contains(s) {
            let k = q.index_of(s);
            if k < p.len() {
                assert(p[k] == s);
                let i = choose|i: int|
                    0 <= i < rest.len() && (#[trigger] rest[i]).enabled && rest[i].rules == s;
                assert(groups[i] == rest[i]);
            } else {
                assert(groups[groups.len() - 1].enabled);
            }
        }
        if exists|i: int|
            0 <= i < groups.len() && (#[trigger] groups[i]).enabled && groups[i].rules == s {
            let i = choose|i: int|
                0 <= i < groups.len() && (#[trigger] groups[i]).enabled && groups[i].rules == s;
            if i < rest.len() {
                assert(rest[i] == groups[i]);
                let k = p.index_of(s);
                assert(q[k] == s);
            } else {
                assert(q[p.len() as int] == s);
            }
        }
    }
}

// ---------------------------------------------------------------------------
// The next wake-up
// ---------------------------------------------------------------------------

/// Everything the wake scheduler needs.
pub struct WakeInputs<'a> {
    pub rules: &'a Rules,
    pub any_blocked: bool,
    /// expiry deadlines (epoch seconds) of extensions and cooldowns
    pub expiries: Vec<u64>,
    pub now_epoch: u64,
    pub now_min: u32,
    pub weekday: u8,
    /// seconds already elapsed inside the current minute
    pub sec_in_min: u64,
}

/// Whether a rule set needs the steady cadence: it limits usage, or it watches the screen.
pub open spec fn needs_cadence(s: RuleSet) -> bool {
    s.duration.limit_minutes > 0 || s.lock_block
}

/// Seconds to local midnight, when the daily counters reset; at least one.
pub open spec fn to_midnight(now_min: u32, sec_in_min: u64) -> int {
    if (1440 - now_min) * 60 - sec_in_min >= 1 {
        (1440 - now_min) * 60 - sec_in_min
    } else {
        1
    }
}

/// The wake-ups that the enabled rule sets `sets` ask for: the steady cadence of
/// a limit or a screen rule, and the edge of each window.
pub open spec fn rule_wake(sets: Seq<RuleSet>, m: u32, d: u8, sec: u64, b: int) -> bool {
    ||| b == ACTIVE_TICK_SECS && exists|i: int| 0 <= i < sets.len() && needs_cadence(#[trigger] sets[i])
    ||| exists|i: int, k: int|
        0 <= i < sets.len() && 0 <= k < sets[i].time_windows.windows@.len() && flip_after(
            #[trigger] sets[i].time_windows.windows@[k],
            m,
            d,
            sec,
        ) == Some(b)
}

/// The wake-ups that the deadlines `e` ask for: each one still to come.
pub open spec fn expiry_wake(e: Seq<u64>, now: u64, b: int) -> bool {
    exists|i: int| 0 <= i < e.len() && #[trigger] e[i] > now && b == e[i] - now
}

/// Every moment, in seconds from now, at which the daemon has to be awake.
pub open spec fn wake_bound(i: WakeInputs, b: int) -> bool {
    ||| b == IDLE_TICK_SECS
    ||| i.any_blocked && b == SWEEP_TICK_SECS
    ||| rule_wake(enabled_of(*i.rules), i.now_min, i.weekday, i.sec_in_min, b)
    ||| expiry_wake(i.expiries@, i.now_epoch, b)
    ||| b == to_midnight(i.now_min, i.sec_in_min)
}

/// The smaller of two numbers.
fn smaller(a: u64, b: u64) -> (r: u64)
    ensures
        r == if a <= b { a } else { b },
{
    if a <= b {
        a
    } else {
        b
    }
}

/// The earliest wake-up that the enabled rule sets ask for, if it comes before `cap`.
fn rules_wake(sets: &Vec<&RuleSet>, cap: u64, now_min: u32, weekday: u8, sec_in_min: u64) -> (r:
    u64)
    requires
        weekday >= 1,
        now_min <= 1440,
        cap >= 1,
    ensures
        1 <= r <= cap,
        r == cap || rule_wake(set_values(sets@), now_min, weekday, sec_in_min, r as int),
        forall|b: int|
            rule_wake(set_values(sets@), now_min, weekday, sec_in_min, b) ==> r <= b,
{
    let ghost vs = set_values(sets@);
    let mut secs: u64 = cap;
    let mut i: usize = 0;
    while i < sets.len()
        invariant
            weekday >= 1,
            now_min <= 1440,
            i <= sets@.len(),
            vs == set_values(sets@),
            1 <= secs <= cap,
            secs == cap || rule_wake(vs, now_min, weekday, sec_in_min, secs as int),
            forall|j: int| 0 <= j < i && needs_cadence(#[trigger] vs[j]) ==> secs
                <= ACTIVE_TICK_SECS,
            forall|j: int, k: int|
                0 <= j < i && 0 <= k < vs[j].time_windows.windows@.len() ==> match flip_after(
                    #[trigger] vs[j].time_windows.windows@[k],
                    now_min,
                    weekday,
                    sec_in_min,
                ) {
                    Some(e) => secs <= e,
                    None => true,
                },
        decreases sets@.len() - i,
    {
        let set = sets[i];
        assert(vs[i as int] == *set);
        // Usage accounting needs a steady cadence while a limit is configured,
        // and the screen can turn off at any moment while lock_block is on.
        if set.duration.limit_minutes > 0 || set.lock_block {
            assert(needs_cadence(vs[i as int]));
            secs = smaller(secs, ACTIVE_TICK_SECS);
        }
        // Time windows switch on minute boundaries: wake exactly at the edge.
        let windows = &set.time_windows.windows;
        let mut k: usize = 0;
        while k < windows.len()
            invariant
                weekday >= 1,
                now_min <= 1440,
                i < sets@.len(),
                vs == set_values(sets@),
                vs[i as int] == *set,
                windows@ == set.time_windows.windows@,
                k <= windows@.len(),
                1 <= secs <= cap,
                secs == cap || rule_wake(vs, now_min, weekday, sec_in_min, secs as int),
                forall|j: int| 0 <= j <= i && needs_cadence(#[trigger] vs[j]) ==> secs
                    <= ACTIVE_TICK_SECS,
                forall|j: int, n: int|
                    0 <= j < i && 0 <= n < vs[j].time_windows.windows@.len() ==> match flip_after(
                        #[trigger] vs[j].time_windows.windows@[n],
                        now_min,
                        weekday,
                        sec_in_min,
                    ) {
                        Some(e) => secs <= e,
                        None => true,
                    },
                forall|n: int|
                    0 <= n < k ==> match flip_after(
                        #[trigger] windows@[n],
                        now_min,
                        weekday,
                        sec_in_min,
                    ) {
                        Some(e) => secs <= e,
                        None => true,
                    },
            decreases windows@.len() - k,
        {
            if let Some(s) = next_flip_secs(&windows[k], now_min, weekday, sec_in_min) {
                proof {
                    let w = vs[i as int].time_windows.windows@[k as int];
                    assert(flip_after(w, now_min, weekday, sec_in_min) == Some(s as int));
                    assert(rule_wake(vs, now_min, weekday, sec_in_min, s as int));
                }
                secs = smaller(secs, s);
            }
            k = k + 1;
        }
        i = i + 1;
    }
    secs
}

/// The sleep schedule: the shortest interval that still applies every
/// configured feature on time, and a long idle sleep when nothing is
/// time-dependent. Ticks are bookkeeping only, so a long sleep never weakens
/// blocking (the kernel gate catches launches).
pub fn next_wake_secs(i: &WakeInputs) -> (r: u64)
    requires
        i.rules.wf(),
        i.weekday >= 1,
        i.now_min <= 1440,
    ensures
        wake_bound(*i, r as int),
        forall|b: int| wake_bound(*i, b) ==> r <= b,
        1 <= r <= IDLE_TICK_SECS,
{
    let mut secs: u64 = IDLE_TICK_SECS;
    // Blocked uids need the periodic sweep for anything that slipped past the
    // gate and never made an outgoing binder call.
    if i.any_blocked {
        secs = smaller(secs, SWEEP_TICK_SECS);
    }
    let sets = enabled_sets(i.rules);
    secs = rules_wake(&sets, secs, i.now_min, i.weekday, i.sec_in_min);
    // Extensions and cooldowns must take effect the moment they expire.
    let ghost before = secs;
    let mut k: usize = 0;
    while k < i.expiries.len()
        invariant
            k <= i.expiries@.len(),
            1 <= secs <= before,
            secs == before || expiry_wake(i.expiries@, i.now_epoch, secs as int),
            forall|j: int| 0 <= j < k && #[trigger] i.expiries@[j] > i.now_epoch ==> secs
                <= i.expiries@[j] - i.now_epoch,
        decreases i.expiries@.len() - k,
    {
        let t: u64 = i.expiries[k];
        if t > i.now_epoch {
            assert(expiry_wake(i.expiries@, i.now_epoch, t - i.now_epoch));
            secs = smaller(secs, t - i.now_epoch);
        }
        k = k + 1;
    }
    // Daily counters reset at local midnight.
    let left: u64 = ((1440 - i.now_min as u64) * 60).saturating_sub(i.sec_in_min);
    let left: u64 = if left >= 1 {
        left
    } else {
        1
    };
    smaller(secs, left)
}

// ---------------------------------------------------------------------------
// Laws
// ---------------------------------------------------------------------------

/// No window of an enabled rule changes its answer while the daemon sleeps: up
/// to the wake-up `r`, every one of them answers as it does now.
pub proof fn no_window_flips_while_asleep(
    sets: Seq<RuleSet>,
    m: u32,
    d: u8,
    sec: u64,
    r: u64,
    s: int,
    k: int,
    t: int,
)
    requires
        forall|b: int| #[trigger] rule_wake(sets, m, d, sec, b) ==> r <= b,
        m < 1440,
        is_weekday(d),
        sec < 60,
        0 <= s < sets.len(),
        0 <= k < sets[s].time_windows.windows@.len(),
        0 <= t < r,
    ensures
        holds_after(sets[s].time_windows.windows@[k], m, d, (sec + t) / 60) == window_holds(
            sets[s].time_windows.windows@[k],
            m,
            d,
        ),
{
    let w = sets[s].time_windows.windows@[k];
    if let Some(e) = flip_after(w, m, d, sec) {
        assert(rule_wake(sets, m, d, sec, e));
    }
    no_flip_before_the_next(w, m, d, sec, t);
}

/// The schedule never disagrees with the decision: with everything else as it
/// is, no enabled rule set changes its mind while the daemon sleeps.
pub proof fn no_decision_changes_while_asleep(
    sets: Seq<RuleSet>,
    m: u32,
    d: u8,
    sec: u64,
    r: u64,
    s: int,
    t: int,
    ext: bool,
    over: bool,
    cool: bool,
    off: bool,
)
    requires
        forall|b: int| #[trigger] rule_wake(sets, m, d, sec, b) ==> r <= b,
        m < 1440,
        is_weekday(d),
        sec < 60,
        0 <= s < sets.len(),
        0 <= t < r,
    ensures
        blocks(
            sets[s],
            minute_after(m, (sec + t) / 60),
            weekday_after(m, d, (sec + t) / 60),
            ext,
            over,
            cool,
            off,
        ) == blocks(sets[s], m, d, ext, over, cool, off),
{
    let m2 = minute_after(m, (sec + t) / 60);
    let d2 = weekday_after(m, d, (sec + t) / 60);
    let ws = sets[s].time_windows.windows@;
    assert forall|k: int| 0 <= k < ws.len() implies window_holds(#[trigger] ws[k], m2, d2)
        == window_holds(ws[k], m, d) by {
        no_window_flips_while_asleep(sets, m, d, sec, r, s, k, t);
    }
    assert(any_holds(ws, m2, d2) == any_holds(ws, m, d));
}

/// No deadline still to come, and no midnight, passes while the daemon sleeps.
pub proof fn no_deadline_passes_while_asleep(i: WakeInputs, r: u64, k: int)
    requires
        forall|b: int| wake_bound(i, b) ==> r <= b,
        0 <= k < i.expiries@.len(),
        i.expiries@[k] > i.now_epoch,
    ensures
        i.now_epoch + r <= i.expiries@[k],
        i.now_min < 1440 && i.sec_in_min < 60 ==> i.now_min * 60 + i.sec_in_min + r <= 1440 * 60,
{
    assert(expiry_wake(i.expiries@, i.now_epoch, i.expiries@[k] - i.now_epoch));
    assert(wake_bound(i, i.expiries@[k] - i.now_epoch));
    assert(wake_bound(i, to_midnight(i.now_min, i.sec_in_min)));
}

/// Disabled rules do not shorten the sleep: with nothing enabled, nothing
/// blocked and no deadline, the sleep is the idle interval or ends at midnight.
pub proof fn disabled_rules_do_not_wake(i: WakeInputs, r: u64)
    requires
        wake_bound(i, r as int),
        forall|b: int| wake_bound(i, b) ==> r <= b,
        enabled_of(*i.rules).len() == 0,
        !i.any_blocked,
        i.expiries@.len() == 0,
    ensures
        r == IDLE_TICK_SECS || r == to_midnight(i.now_min, i.sec_in_min),
{
}

/// While a rule limits usage or watches the screen the daemon wakes every fifteen
/// seconds, and while anything is blocked every minute; it never sleeps longer than
/// five minutes, nor past midnight.
pub proof fn the_cadences_are_kept(i: WakeInputs, r: u64, k: int)
    requires
        forall|b: int| wake_bound(i, b) ==> r <= b,
    ensures
        r <= 300,
        i.any_blocked ==> r <= 60,
        0 <= k < enabled_of(*i.rules).len() && (enabled_of(*i.rules)[k].duration.limit_minutes > 0
            || enabled_of(*i.rules)[k].lock_block) ==> r <= 15,
        i.now_min < 1440 && i.sec_in_min < 60 ==> r <= 86400 - i.now_min * 60 - i.sec_in_min,
{
    assert(wake_bound(i, 300));
    if i.any_blocked {
        assert(wake_bound(i, 60));
    }
    if 0 <= k < enabled_of(*i.rules).len() && (enabled_of(*i.rules)[k].duration.limit_minutes > 0
        || enabled_of(*i.rules)[k].lock_block) {
        assert(needs_cadence(enabled_of(*i.rules)[k]));
        assert(rule_wake(enabled_of(*i.rules), i.now_min, i.weekday, i.sec_in_min, 15));
        assert(wake_bound(i, 15));
    }
    assert(wake_bound(i, to_midnight(i.now_min, i.sec_in_min)));
}

/// The daemon does not wake for nothing: where nothing is blocked, no enabled rule
/// limits usage or watches the screen, and no window, no deadline and no midnight
/// comes within five minutes, it sleeps for those.
pub proof fn nothing_to_do_is_slept_through(i: WakeInputs, r: u64)
    requires
        wake_bound(i, r as int),
        !i.any_blocked,
        forall|k: int|
            0 <= k < enabled_of(*i.rules).len() ==> (
            #[trigger] enabled_of(*i.rules)[k]).duration.limit_minutes == 0
                && !enabled_of(*i.rules)[k].lock_block,
        forall|k: int, n: int|
            0 <= k < enabled_of(*i.rules).len() && 0 <= n
                < enabled_of(*i.rules)[k].time_windows.windows@.len() ==> match flip_after(
                #[trigger] enabled_of(*i.rules)[k].time_windows.windows@[n],
                i.now_min,
                i.weekday,
                i.sec_in_min,
            ) {
                Some(e) => e >= 300,
                None => true,
            },
        forall|k: int|
            0 <= k < i.expiries@.len() ==> #[trigger] i.expiries@[k] <= i.now_epoch
                || i.expiries@[k] >= i.now_epoch + 300,
        i.now_min * 60 + i.sec_in_min + 300 <= 86400,
    ensures
        r >= 300,
{
    let sets = enabled_of(*i.rules);
    if rule_wake(sets, i.now_min, i.weekday, i.sec_in_min, r as int) {
        assert forall|k: int| 0 <= k < sets.len() implies !needs_cadence(#[trigger] sets[k]) by {}
    }
}

/// Local midnight is where the minutes and seconds of the day come to 24 hours; a time
/// that is not within a day is taken to be a second before it.
pub proof fn midnight_ends_the_day(now_min: u32, sec_in_min: u64)
    ensures
        now_min * 60 + sec_in_min < 86400 ==> now_min * 60 + sec_in_min + to_midnight(
            now_min,
            sec_in_min,
        ) == 86400,
        now_min * 60 + sec_in_min >= 86400 ==> to_midnight(now_min, sec_in_min) == 1,
{
}

} // verus!
