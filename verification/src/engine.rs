//! Rule engine: evaluates the rules, keeps the counters and says which uids have
//! to be blocked or released.
//!
//! Priority: extension > always_on > lock_block (screen off) > cooldown >
//! duration over > time windows.

use std::collections::{BTreeSet, HashMap, HashSet};

use vstd::prelude::*;

use crate::clock::{
    clock_of, in_calendar, offset_of, offsets_are_whole_hours, the_clock_moves_as_scheduled, tz_of,
    Clock,
};
use crate::counters::{
    pending, usage_counts_what_was_seen, Counters, CountersView, MAX_TICK_SECS,
};
use crate::decide::{
    after_changes, an_app_is_blocked_for_each_reason, an_ungrouped_app_follows_its_own_rule,
    app_concerns, block_index, blocked_anyway, blocked_apps_are_listed, blocked_as, changes_reach_the_wanted_state,
    claims, group_concerns, rules_are_about_installed_unprotected_apps, transition, transitions,
    wanted, wanted_map, wants, what_is_wanted_comes_about, BlockIndex, Change, Moment, Situation,
    SituationView,
};
use crate::limits::{
    asks_for_screen, cooldowns_done, cooldowns_fit, cooldowns_keep_extensions, counts_background,
    counts_usage, duration_targets, has_room_for_cooldowns, limited, no_pool_is_over,
    only_what_enabled_rules_need_is_looked_at, some_enabled, usage_counts_for_limited_apps_and_members,
    usage_is_kept_until_a_cooldown_is_over, maintain_cooldowns, needs_live_scan, needs_screen, needs_usage,
};
use crate::pm::{key_gives_its_package, user_key};
use crate::rules::{is_default, RuleSet, Rules};
use crate::schedule::{
    enabled_of, expiry_wake, needs_cadence, next_wake_secs, no_decision_changes_while_asleep, rule_wake, to_midnight,
    wake_bound, WakeInputs, ACTIVE_TICK_SECS, IDLE_TICK_SECS, SWEEP_SECS, SWEEP_TICK_SECS,
};
use crate::table::{ascending, StrMap, StrSet};
use crate::uids::{count_in, count_of, map_keys};
use crate::window::blocks;

verus! {

broadcast use {
    vstd::std_specs::hash::group_hash_axioms,
    vstd::std_specs::btree::group_btree_axioms,
};

/// How often the runtime state is saved, in seconds.
pub const STATE_SAVE_SECS: u64 = 60;

/// Where the rule set in memory came from. `Default` means the module is
/// running with no rules at all, which must never be invisible.
#[derive(Debug, Clone, Copy, PartialEq, Eq, Structural)]
pub enum RulesSource {
    File,
    Backup,
    Default,
}

impl RulesSource {
    /// The name of the source.
    pub open spec fn name(self) -> Seq<char> {
        match self {
            RulesSource::File => "file"@,
            RulesSource::Backup => "backup"@,
            RulesSource::Default => "default"@,
        }
    }

    /// The name of the source.
    pub fn as_str(self) -> (r: &'static str)
        ensures
            r@ == self.name(),
    {
        match self {
            RulesSource::File => "file",
            RulesSource::Backup => "backup",
            RulesSource::Default => "default",
        }
    }
}

/// When a file was last written.
#[derive(Debug, Clone, Copy, PartialEq, Eq, Structural)]
pub struct Stamp {
    pub secs: i64,
    pub nanos: i64,
}

/// The engine's state.
#[derive(Debug)]
pub struct Engine {
    pub rules: Rules,
    /// "user:pkg" -> uid
    pub uid_of: StrMap<u32>,
    /// currently blocked uids
    pub blocked: BTreeSet<u32>,
    /// rules.json mtime, detects rule changes
    pub last_mtime: Option<Stamp>,
    /// packages.list mtime, detects install/uninstall (uid change/recycle)
    pub last_pkg_mtime: Option<Stamp>,
    /// usage, cooldowns and extensions of the day
    pub counters: Counters,
    /// last tick epoch seconds
    pub last_tick: Option<u64>,
    /// last tick date, detects day rollover
    pub last_day: Option<i32>,
    /// configured timezone offset east in seconds (None = UTC fallback)
    pub tz_secs: Option<i32>,
    /// packages that may never be blocked (static list + IME + launcher)
    pub protected: StrSet,
    /// screen state from the last tick; None until a lock_block rule asks for it
    pub screen_off: Option<bool>,
    /// where the active rule set came from (file / backup / built-in default)
    pub rules_source: RulesSource,
    /// interval the loop will sleep with next, for `status`
    pub last_interval: u64,
    /// daemon start (epoch seconds), for `status`
    pub started: u64,
    /// last state save epoch seconds
    pub last_save: u64,
    /// last blocked-uid sweep epoch seconds
    pub last_sweep: u64,
}

impl Engine {
    /// The maps and sets of the engine are well formed.
    pub open spec fn wf(&self) -> bool {
        &&& self.rules.wf()
        &&& self.uid_of.wf()
        &&& self.protected.wf()
        &&& self.counters.wf()
    }

    /// Whether the engine started at `now` and has seen nothing of the device yet,
    /// and blocks nothing. Its rules, and what is restored of the day, are another
    /// matter.
    pub open spec fn just_started(&self, now: u64) -> bool {
        &&& self.uid_of@ == Map::<Seq<char>, u32>::empty()
        &&& self.blocked@ == Set::<u32>::empty()
        &&& self.last_mtime is None
        &&& self.last_pkg_mtime is None
        &&& self.last_tick is None
        &&& self.protected@ == Set::<Seq<char>>::empty()
        &&& self.screen_off is None
        &&& self.last_interval == ACTIVE_TICK_SECS
        &&& self.started == now
        &&& self.last_save == 0
        &&& self.last_sweep == 0
    }

    /// An engine without rules, started at `now` (epoch seconds).
    pub fn new(now: u64) -> (r: Self)
        ensures
            r.wf(),
            is_default(r.rules),
            r.rules_source == RulesSource::Default,
            r.tz_secs is None,
            r.counters@ == CountersView::none(),
            r.last_day is None,
            r.just_started(now),
    {
        Engine {
            rules: Rules::default(),
            uid_of: StrMap::new(),
            blocked: BTreeSet::new(),
            last_mtime: None,
            last_pkg_mtime: None,
            counters: Counters::new(),
            last_tick: None,
            last_day: None,
            tz_secs: None,
            protected: StrSet::new(),
            screen_off: None,
            rules_source: RulesSource::Default,
            last_interval: ACTIVE_TICK_SECS,
            started: now,
            last_save: 0,
            last_sweep: 0,
        }
    }
}

// ---------------------------------------------------------------------------
// A tick
// ---------------------------------------------------------------------------

/// What a tick has to look at.
#[derive(Debug)]
pub struct Needs {
    /// the uids whose usage counts; None when no usage has to be counted
    pub targets: Option<HashSet<u32>>,
    /// whether every running process has to be looked at, not only the foreground
    pub live: bool,
    /// whether the screen has to be looked at
    pub screen: bool,
}

/// What a tick sees of the device.
#[derive(Debug)]
pub struct Seen {
    /// uids with a running process
    pub live: HashSet<u32>,
    /// uids with a process in the foreground
    pub fg: HashSet<u32>,
    /// whether the screen is off
    pub screen_off: bool,
}

/// What a tick asks for.
#[derive(Debug)]
pub struct TickPlan {
    /// a new day has begun: today's counts start again from nothing
    pub new_day: bool,
    /// the package names behind the blocks
    pub index: BlockIndex,
    /// the uids to block and to release
    pub changes: Vec<Change>,
}

/// The seconds of usage that a tick at `now` counts: the time since the last
/// tick, but no more than a minute.
pub open spec fn elapsed_secs(last_tick: Option<u64>, now: u64) -> u64 {
    match last_tick {
        None => 0,
        Some(t) => if now <= t {
            0
        } else if now - t <= MAX_TICK_SECS {
            (now - t) as u64
        } else {
            MAX_TICK_SECS
        },
    }
}

impl Engine {
    /// The counters after a tick at `clock` that saw `seen`: a new day starts
    /// from nothing, then usage is counted, then the cooldowns move.
    pub open spec fn counters_after(&self, clock: Clock, seen: Seen) -> CountersView {
        let secs = elapsed_secs(self.last_tick, clock.epoch);
        let today = if self.last_day == Some(clock.day) {
            self.counters@
        } else {
            CountersView::none()
        };
        let counted = if secs > 0 && counts_usage(self.rules) {
            today.used(limited(self.rules, self.uid_of@), seen.live@, seen.fg@, secs)
        } else {
            today
        };
        cooldowns_done(counted, self.rules, self.uid_of@, clock.epoch)
    }

    /// What the rules are held against at `clock`.
    pub open spec fn situation(&self, clock: Clock, screen_off: bool) -> SituationView {
        SituationView {
            uids: self.uid_of@,
            protected: self.protected@,
            counters: self.counters@,
            moment: Moment {
                now: clock.epoch,
                minute: clock.minute,
                weekday: clock.weekday,
                screen_off,
            },
        }
    }

    /// The seconds of usage that a tick at `now` counts.
    fn elapsed(&self, now: u64) -> (r: u64)
        ensures
            r == elapsed_secs(self.last_tick, now),
    {
        match self.last_tick {
            None => 0,
            Some(t) => {
                let secs: u64 = now.saturating_sub(t);
                if secs <= MAX_TICK_SECS {
                    secs
                } else {
                    MAX_TICK_SECS
                }
            },
        }
    }

    /// A tick at `clock` cannot overflow a counter that it adds to, nor the
    /// deadline of a cooldown that it starts. Counters of another day do not
    /// matter: they start again from nothing.
    pub open spec fn fits(&self, clock: Clock) -> bool {
        let secs = elapsed_secs(self.last_tick, clock.epoch);
        &&& cooldowns_fit(self.rules, clock.epoch)
        &&& self.last_day == Some(clock.day) && secs > 0 ==> self.counters@.usage_fits(
            limited(self.rules, self.uid_of@),
            secs,
        )
    }

    /// Whether a tick at `clock` cannot overflow a counter that it adds to, nor
    /// the deadline of a cooldown that it starts.
    pub fn can_tick(&self, clock: &Clock) -> (r: bool)
        requires
            self.wf(),
        ensures
            r == self.fits(*clock),
    {
        if !has_room_for_cooldowns(&self.rules, clock.epoch) {
            return false;
        }
        let today: bool = match self.last_day {
            Some(d) => d == clock.day,
            None => false,
        };
        let secs: u64 = self.elapsed(clock.epoch);
        !today || secs == 0 || self.counters.has_room(
            &duration_targets(&self.rules, &self.uid_of),
            secs,
        )
    }

    /// Whether `needs` is what a tick at `now` has to look at.
    pub open spec fn needs_look(&self, now: u64, needs: Needs) -> bool {
        &&& match needs.targets {
            Some(t) => elapsed_secs(self.last_tick, now) > 0 && counts_usage(self.rules) && t@
                == limited(self.rules, self.uid_of@),
            None => elapsed_secs(self.last_tick, now) == 0 || !counts_usage(self.rules),
        }
        &&& needs.live == counts_background(self.rules)
        &&& needs.screen == asks_for_screen(self.rules)
    }

    /// What a tick at `now` has to look at. Usage accounting is only needed while
    /// some duration rule exists, and only for the uids that actually carry a
    /// limit; the pass over every process only when some rule counts "any" or
    /// "background"; the screen only when some rule uses lock_block.
    pub fn needs(&self, now: u64) -> (r: Needs)
        requires
            self.wf(),
        ensures
            self.needs_look(now, r),
    {
        let targets = if self.elapsed(now) > 0 && needs_usage(&self.rules) {
            Some(duration_targets(&self.rules, &self.uid_of))
        } else {
            None
        };
        Needs { targets, live: needs_live_scan(&self.rules), screen: needs_screen(&self.rules) }
    }

    /// Whether the engine is what `before` becomes by a tick at `clock` that saw
    /// `seen`, and `plan` what that tick asks for.
    pub open spec fn ticked(&self, before: Engine, clock: Clock, seen: Seen, plan: TickPlan) -> bool {
        let off = asks_for_screen(before.rules) && seen.screen_off;
        let claims = self.situation(clock, off).claims(before.rules);
        &&& self.counters@ == before.counters_after(clock, seen)
        &&& transition(wanted_map(claims), before.blocked@, plan.changes@)
        &&& plan.index.wf()
        &&& forall|uid: u32, pkg: Seq<char>| #[trigger]
            plan.index.lists(uid, pkg) == blocked_as(claims, uid, pkg)
        &&& plan.new_day == (before.last_day != Some(clock.day))
        &&& *self == (Engine {
            counters: self.counters,
            last_day: Some(clock.day),
            last_tick: Some(clock.epoch),
            screen_off: if asks_for_screen(before.rules) {
                Some(seen.screen_off)
            } else {
                before.screen_off
            },
            ..before
        })
    }

    /// Periodic work: accumulate usage, move the cooldowns and re-evaluate every
    /// rule. What it asks for is made known one change at a time with `applied`.
    pub fn tick(&mut self, clock: &Clock, seen: &Seen) -> (r: TickPlan)
        requires
            old(self).wf(),
            old(self).fits(*clock),
        ensures
            final(self).wf(),
            final(self).ticked(*old(self), *clock, *seen, r),
    {
        // Daily reset in the configured timezone.
        let new_day: bool = match self.last_day {
            Some(d) => d != clock.day,
            None => true,
        };
        if new_day {
            self.last_day = Some(clock.day);
            self.counters.reset();
        }
        // Accumulate usage by real elapsed time.
        let secs: u64 = self.elapsed(clock.epoch);
        self.last_tick = Some(clock.epoch);
        if secs > 0 && needs_usage(&self.rules) {
            let targets = duration_targets(&self.rules, &self.uid_of);
            self.counters.record_usage(&targets, &seen.live, &seen.fg, secs);
        }
        // Cooldown maintenance for duration rules that have a cooldown period.
        maintain_cooldowns(&mut self.counters, &self.rules, &self.uid_of, clock.epoch);
        // Only look at the screen state when some enabled rule uses lock_block.
        // The result is cached for `status`, which must stay side-effect free.
        let screen_off: bool = if needs_screen(&self.rules) {
            self.screen_off = Some(seen.screen_off);
            seen.screen_off
        } else {
            false
        };
        // Compute the wanted state per uid, and which package names are blocked
        // for each uid.
        let s = Situation {
            uid_of: &self.uid_of,
            protected: &self.protected,
            counters: &self.counters,
            moment: Moment {
                now: clock.epoch,
                minute: clock.minute,
                weekday: clock.weekday,
                screen_off,
            },
        };
        let said = claims(&self.rules, &s);
        let want = wants(&said);
        let index = block_index(&said);
        let changes = transitions(&want, &self.blocked);
        TickPlan { new_day, index, changes }
    }
}

// ---------------------------------------------------------------------------
// After a tick
// ---------------------------------------------------------------------------

/// What is due at the end of a tick.
#[derive(Debug, Clone, Copy, PartialEq, Eq, Structural)]
pub struct TickEnd {
    /// sweep every blocked uid for processes that slipped past the kernel gate
    pub sweep: bool,
    /// save the runtime state
    pub save: bool,
}

/// Whether `period` seconds have passed at `now` since `last`.
pub open spec fn due(last: u64, now: u64, period: u64) -> bool {
    now >= last && now - last >= period
}

/// Whether one of the counters has a deadline `b` seconds after `now`.
pub open spec fn deadline_in(c: CountersView, now: u64, b: int) -> bool {
    ||| exists|k: u32| #[trigger] c.extension.contains_key(k) && c.extension[k] == now + b
    ||| exists|k: Seq<char>| #[trigger]
        c.group_extension.contains_key(k) && c.group_extension[k] == now + b
    ||| exists|k: u32| #[trigger] c.cooldown.contains_key(k) && c.cooldown[k] == now + b
    ||| exists|k: Seq<char>| #[trigger]
        c.group_cooldown.contains_key(k) && c.group_cooldown[k] == now + b
}

/// Whether the daemon has to be awake `b` seconds after `clock`: at the latest
/// when it has idled long enough, for the sweep while anything is blocked, for
/// what the rules ask for, at each deadline and at midnight.
pub open spec fn awake_in(
    rules: Rules,
    blocked: Set<u32>,
    c: CountersView,
    clock: Clock,
    b: int,
) -> bool {
    ||| b == IDLE_TICK_SECS
    ||| b == SWEEP_TICK_SECS && exists|uid: u32| #[trigger] blocked.contains(uid)
    ||| rule_wake(enabled_of(rules), clock.minute, clock.weekday, (clock.epoch % 60) as u64, b)
    ||| b > 0 && deadline_in(c, clock.epoch, b)
    ||| b == to_midnight(clock.minute, (clock.epoch % 60) as u64)
}

/// Adds the values of `m` to `out`.
fn push_values(out: &mut Vec<u64>, m: &HashMap<u32, u64>)
    ensures
        forall|t: u64| #[trigger]
            final(out)@.contains(t) <==> old(out)@.contains(t) || exists|k: u32| #[trigger]
                m@.contains_key(k) && m@[k] == t,
{
    let ks = map_keys(m);
    let mut i: usize = 0;
    while i < ks.len()
        invariant
            i <= ks@.len(),
            ks@.to_set() == m@.dom(),
            forall|t: u64| #[trigger]
                out@.contains(t) <==> old(out)@.contains(t) || exists|j: int|
                    0 <= j < i && m@[#[trigger] ks@[j]] == t,
        decreases ks@.len() - i,
    {
        assert(ks@.to_set().contains(ks@[i as int]));
        let ghost before = out@;
        let v: u64 = count_in(m, ks[i]);
        out.push(v);
        assert forall|t: u64| #[trigger] out@.contains(t) <==> before.contains(t) || t == v by {
            if before.contains(t) {
                assert(out@[before.index_of(t)] == t);
            }
            assert(out@[before.len() as int] == v);
            if out@.contains(t) && t != v {
                let j = out@.index_of(t);
                assert(before[j] == t);
            }
        }
        i = i + 1;
    }
    assert forall|t: u64| #[trigger] out@.contains(t) <==> old(out)@.contains(t) || exists|k: u32|
     #[trigger] m@.contains_key(k) && m@[k] == t by {
        if exists|k: u32| #[trigger] m@.contains_key(k) && m@[k] == t {
            let k = choose|k: u32| #[trigger] m@.contains_key(k) && m@[k] == t;
            assert(ks@.to_set().contains(k));
            assert(ks@[ks@.index_of(k)] == k);
        }
        if exists|j: int| 0 <= j < ks@.len() && m@[#[trigger] ks@[j]] == t {
            let j = choose|j: int| 0 <= j < ks@.len() && m@[#[trigger] ks@[j]] == t;
            assert(ks@.to_set().contains(ks@[j]));
            assert(m@.contains_key(ks@[j]));
        }
    }
}

/// Adds the values of `m` to `out`.
fn push_group_values(out: &mut Vec<u64>, m: &StrMap<u64>)
    requires
        m.wf(),
    ensures
        forall|t: u64| #[trigger]
            final(out)@.contains(t) <==> old(out)@.contains(t) || exists|k: Seq<char>| #[trigger]
                m@.contains_key(k) && m@[k] == t,
{
    let mut i: usize = 0;
    while i < m.len()
        invariant
            m.wf(),
            i <= m.keys().len(),
            forall|t: u64| #[trigger]
                out@.contains(t) <==> old(out)@.contains(t) || exists|j: int|
                    0 <= j < i && #[trigger] m.vals()[j] == t,
        decreases m.keys().len() - i,
    {
        let ghost before = out@;
        let v: u64 = *m.val_at(i);
        out.push(v);
        assert forall|t: u64| #[trigger] out@.contains(t) <==> before.contains(t) || t == v by {
            if before.contains(t) {
                assert(out@[before.index_of(t)] == t);
            }
            assert(out@[before.len() as int] == v);
            if out@.contains(t) && t != v {
                let j = out@.index_of(t);
                assert(before[j] == t);
            }
        }
        i = i + 1;
    }
    assert forall|t: u64| #[trigger] out@.contains(t) <==> old(out)@.contains(t) || exists|
        k: Seq<char>,
    | #[trigger] m@.contains_key(k) && m@[k] == t by {
        if exists|k: Seq<char>| #[trigger] m@.contains_key(k) && m@[k] == t {
            let k = choose|k: Seq<char>| #[trigger] m@.contains_key(k) && m@[k] == t;
            m.lemma_key(k);
            assert(m.vals()[m.keys().index_of(k)] == t);
        }
        if exists|j: int| 0 <= j < m.keys().len() && #[trigger] m.vals()[j] == t {
            let j = choose|j: int| 0 <= j < m.keys().len() && #[trigger] m.vals()[j] == t;
            m.lemma_entry(j);
            assert(m@.contains_key(m.keys()[j]));
        }
    }
}

impl Engine {
    /// Takes note that `change` was made.
    pub fn applied(&mut self, change: Change)
        requires
            old(self).wf(),
        ensures
            final(self).wf(),
            final(self).blocked@ == after_changes(old(self).blocked@, seq![change]),
            *final(self) == (Engine { blocked: final(self).blocked, ..*old(self) }),
    {
        if change.block {
            let _ = self.blocked.insert(change.uid);
        } else {
            let _ = self.blocked.remove(&change.uid);
        }
        proof {
            reveal_with_fuel(after_changes, 2);
            assert(seq![change].drop_last() =~= Seq::<Change>::empty());
        }
    }

    /// Every moment, in seconds from `clock`, at which the daemon has to be awake.
    pub open spec fn wakes(&self, clock: Clock, b: int) -> bool {
        awake_in(self.rules, self.blocked@, self.counters@, clock, b)
    }

    /// How long the main loop may sleep before the next tick is needed.
    ///
    /// Blocking a launched app never depends on this: the kernel gate catches
    /// it. Userspace ticks exist for bookkeeping (usage accounting), for
    /// the periodic sweep over blocked uids, and to apply time-based
    /// transitions on time.
    pub fn tick_interval_secs(&self, clock: &Clock) -> (r: u64)
        requires
            self.wf(),
            clock.wf(),
        ensures
            self.wakes(*clock, r as int),
            forall|b: int| #[trigger] self.wakes(*clock, b) ==> r <= b,
            1 <= r <= IDLE_TICK_SECS,
    {
        let mut expiries: Vec<u64> = Vec::new();
        push_values(&mut expiries, &self.counters.extension_until);
        push_group_values(&mut expiries, &self.counters.group_extension_until);
        push_values(&mut expiries, &self.counters.cooldown_until);
        push_group_values(&mut expiries, &self.counters.group_cooldown_until);
        let i = WakeInputs {
            rules: &self.rules,
            any_blocked: !self.blocked.is_empty(),
            expiries,
            now_epoch: clock.epoch,
            now_min: clock.minute,
            weekday: clock.weekday,
            sec_in_min: clock.epoch % 60,
        };
        proof {
            let e = i.expiries@;
            let c = self.counters@;
            let now = clock.epoch;
            assert(c.extension == self.counters.extension_until@);
            assert(c.group_extension == self.counters.group_extension_until@);
            assert(c.cooldown == self.counters.cooldown_until@);
            assert(c.group_cooldown == self.counters.group_cooldown_until@);
            assert(i.any_blocked == exists|uid: u32| #[trigger] self.blocked@.contains(uid)) by {
                if self.blocked@.len() > 0 {
                    assert(self.blocked@.contains(self.blocked@.choose()));
                }
            }
            assert forall|b: int| #[trigger] wake_bound(i, b) == self.wakes(*clock, b) by {
                if expiry_wake(e, now, b) {
                    let k = choose|k: int| 0 <= k < e.len() && #[trigger] e[k] > now && b == e[k] - now;
                    assert(e.contains(e[k]));
                    assert(deadline_in(c, now, b));
                }
                if b > 0 && deadline_in(c, now, b) {
                    let t = (now + b) as u64;
                    assert(e.contains(t));
                    let k = e.index_of(t);
                    assert(e[k] > now);
                }
            }
            assert forall|b: int| #[trigger] self.wakes(*clock, b) == wake_bound(i, b) by {}
        }
        next_wake_secs(&i)
    }

    /// Whether the engine is what `before` becomes by ending a tick at `clock`, and
    /// `end` what is due then.
    pub open spec fn finished(&self, before: Engine, clock: Clock, end: TickEnd) -> bool {
        &&& end.sweep == (due(before.last_sweep, clock.epoch, SWEEP_SECS) && exists|uid: u32|
         #[trigger] before.blocked@.contains(uid))
        &&& end.save == due(before.last_save, clock.epoch, STATE_SAVE_SECS)
        &&& self.wakes(clock, self.last_interval as int)
        &&& forall|b: int| #[trigger] self.wakes(clock, b) ==> self.last_interval <= b
        &&& *self == (Engine {
            last_sweep: if due(before.last_sweep, clock.epoch, SWEEP_SECS) {
                clock.epoch
            } else {
                before.last_sweep
            },
            last_interval: self.last_interval,
            ..before
        })
    }

    /// Ends a tick: what is due now, and how long the loop will sleep.
    pub fn finish_tick(&mut self, clock: &Clock) -> (r: TickEnd)
        requires
            old(self).wf(),
            clock.wf(),
        ensures
            final(self).wf(),
            final(self).finished(*old(self), *clock, r),
    {
        // Safety net: periodically sweep every blocked uid for processes that
        // slipped past the kernel gate (e.g. a cached process that never made an
        // outgoing binder call).
        let mut sweep: bool = false;
        if clock.epoch.saturating_sub(self.last_sweep) >= SWEEP_SECS {
            self.last_sweep = clock.epoch;
            sweep = !self.blocked.is_empty();
            assert(sweep == exists|uid: u32| #[trigger] self.blocked@.contains(uid)) by {
                if self.blocked@.len() > 0 {
                    assert(self.blocked@.contains(self.blocked@.choose()));
                }
            }
        }
        let save: bool = clock.epoch.saturating_sub(self.last_save) >= STATE_SAVE_SECS;
        let ghost before = *self;
        self.last_interval = self.tick_interval_secs(clock);
        assert forall|b: int| #[trigger] self.wakes(*clock, b) == before.wakes(*clock, b) by {}
        TickEnd { sweep, save }
    }
}

// ---------------------------------------------------------------------------
// Laws
// ---------------------------------------------------------------------------

/// A new day starts from nothing: no extension is left, nothing of the day's
/// grant is spent, and no more than the last tick's time can be on any counter.
pub proof fn a_new_day_starts_from_nothing(e: Engine, clock: Clock, seen: Seen)
    requires
        e.last_day != Some(clock.day),
    ensures
        ({
            let c = e.counters_after(clock, seen);
            &&& c.extension == Map::<u32, u64>::empty()
            &&& c.group_extension == Map::<Seq<char>, u64>::empty()
            &&& c.granted == Map::<u32, u32>::empty()
            &&& c.group_granted == Map::<Seq<char>, u32>::empty()
        }),
        forall|clean: Engine|
            clean.counters@ == CountersView::none() && clean.rules == e.rules && clean.uid_of
                == e.uid_of && clean.last_tick == e.last_tick && clean.last_day == Some(clock.day)
                ==> e.counters_after(clock, seen) == #[trigger] clean.counters_after(clock, seen),
{
    let secs = elapsed_secs(e.last_tick, clock.epoch);
    let none = CountersView::none();
    let counted = if secs > 0 && counts_usage(e.rules) {
        none.used(limited(e.rules, e.uid_of@), seen.live@, seen.fg@, secs)
    } else {
        none
    };
    cooldowns_keep_extensions(counted, e.rules, e.uid_of@, clock.epoch);
}

/// Within a day, a tick neither grants nor revokes an extension.
pub proof fn a_tick_keeps_extensions(e: Engine, clock: Clock, seen: Seen)
    requires
        e.last_day == Some(clock.day),
    ensures
        ({
            let c = e.counters_after(clock, seen);
            &&& c.extension == e.counters@.extension
            &&& c.group_extension == e.counters@.group_extension
            &&& c.granted == e.counters@.granted
            &&& c.group_granted == e.counters@.group_granted
        }),
{
    let secs = elapsed_secs(e.last_tick, clock.epoch);
    let counted = if secs > 0 && counts_usage(e.rules) {
        e.counters@.used(limited(e.rules, e.uid_of@), seen.live@, seen.fg@, secs)
    } else {
        e.counters@
    };
    cooldowns_keep_extensions(counted, e.rules, e.uid_of@, clock.epoch);
}

/// One tick counts at most a minute, however long the daemon slept.
pub proof fn a_tick_counts_at_most_a_minute(last_tick: Option<u64>, now: u64)
    ensures
        elapsed_secs(last_tick, now) <= MAX_TICK_SECS,
        last_tick matches Some(t) ==> now >= t ==> elapsed_secs(last_tick, now) <= now - t,
{
}

/// No extension and no cooldown that is still to end does so while the daemon
/// sleeps, and neither does the day.
pub proof fn no_expiry_is_slept_through(e: Engine, clock: Clock, r: u64, uid: u32, gid: Seq<char>)
    requires
        clock.wf(),
        forall|b: int| #[trigger] e.wakes(clock, b) ==> r <= b,
    ensures
        pending(e.counters@.extension, uid, clock.epoch) ==> clock.epoch + r
            <= e.counters@.extension[uid],
        pending(e.counters@.cooldown, uid, clock.epoch) ==> clock.epoch + r
            <= e.counters@.cooldown[uid],
        pending(e.counters@.group_extension, gid, clock.epoch) ==> clock.epoch + r
            <= e.counters@.group_extension[gid],
        pending(e.counters@.group_cooldown, gid, clock.epoch) ==> clock.epoch + r
            <= e.counters@.group_cooldown[gid],
        clock.minute * 60 + clock.epoch % 60 + r <= 1440 * 60,
{
    let now = clock.epoch;
    let c = e.counters@;
    if pending(c.extension, uid, now) {
        assert(deadline_in(c, now, c.extension[uid] - now));
        assert(e.wakes(clock, c.extension[uid] - now));
    }
    if pending(c.cooldown, uid, now) {
        assert(deadline_in(c, now, c.cooldown[uid] - now));
        assert(e.wakes(clock, c.cooldown[uid] - now));
    }
    if pending(c.group_extension, gid, now) {
        assert(deadline_in(c, now, c.group_extension[gid] - now));
        assert(e.wakes(clock, c.group_extension[gid] - now));
    }
    if pending(c.group_cooldown, gid, now) {
        assert(deadline_in(c, now, c.group_cooldown[gid] - now));
        assert(e.wakes(clock, c.group_cooldown[gid] - now));
    }
    assert(e.wakes(clock, to_midnight(clock.minute, (clock.epoch % 60) as u64)));
}

impl Engine {
    /// The offset from UTC that the rules ask for.
    pub open spec fn configured_offset(&self) -> int {
        offset_of(tz_of(self.rules.settings.timezone@))
    }
}

/// Sleeping weakens nothing: up to the planned wake-up, no enabled rule set
/// changes its mind for reasons of time.
pub proof fn no_decision_is_slept_through(
    e: Engine,
    secs: int,
    r: u64,
    s: int,
    t: int,
    ext: bool,
    over: bool,
    cool: bool,
    off: bool,
)
    requires
        0 <= secs,
        0 <= t < r,
        in_calendar(secs + t, e.configured_offset()),
        forall|b: int| #[trigger]
            e.wakes(clock_of(secs, e.configured_offset()), b) ==> r <= b,
        0 <= s < enabled_of(e.rules).len(),
    ensures
        ({
            let now = clock_of(secs, e.configured_offset());
            let later = clock_of(secs + t, e.configured_offset());
            let set = enabled_of(e.rules)[s];
            blocks(set, later.minute, later.weekday, ext, over, cool, off) == blocks(
                set,
                now.minute,
                now.weekday,
                ext,
                over,
                cool,
                off,
            )
        }),
{
    let east = e.configured_offset();
    offsets_are_whole_hours(e.rules.settings.timezone@);
    let now = clock_of(secs, east);
    let sec = (now.epoch % 60) as u64;
    assert forall|b: int| #[trigger]
        rule_wake(enabled_of(e.rules), now.minute, now.weekday, sec, b) implies r <= b by {
        assert(e.wakes(now, b));
    }
    the_clock_moves_as_scheduled(secs, east, t);
    no_decision_changes_while_asleep(
        enabled_of(e.rules),
        now.minute,
        now.weekday,
        sec,
        r,
        s,
        t,
        ext,
        over,
        cool,
        off,
    );
}

/// A tick counts the time since the last one, to the second, up to a minute; the
/// first tick, and one at which the clock went back, counts nothing.
pub proof fn a_tick_counts_the_time_that_passed(last_tick: Option<u64>, now: u64)
    ensures
        last_tick is None ==> elapsed_secs(last_tick, now) == 0,
        last_tick matches Some(t) ==> now < t ==> elapsed_secs(last_tick, now) == 0,
        last_tick matches Some(t) ==> t <= now <= t + 60 ==> t + elapsed_secs(last_tick, now) == now,
        last_tick matches Some(t) ==> now > t + 60 ==> elapsed_secs(last_tick, now) == 60,
{
}

/// Something is due once its time has passed since it was last done, and not before.
pub proof fn due_after_its_period(last: u64, now: u64, period: u64)
    ensures
        due(last, now, period) <==> now >= last + period,
{
}

/// Within a day a tick adds to the usage of each limited uid exactly the time that
/// passed while it ran, and to its foreground usage while it was in front; nobody
/// else's usage moves. (Usage starts again only where a cooldown is over.)
pub proof fn a_tick_adds_what_was_used(e: Engine, clock: Clock, seen: Seen, uid: u32)
    requires
        e.wf(),
        e.fits(clock),
        e.last_day == Some(clock.day),
        e.counters@.cooldown.contains_key(uid) ==> clock.epoch < e.counters@.cooldown[uid],
        no_pool_is_over(e.counters@, clock.epoch),
    ensures
        ({
            let r = e.counters_after(clock, seen);
            let secs = elapsed_secs(e.last_tick, clock.epoch);
            let counts = limited(e.rules, e.uid_of@).contains(uid);
            &&& count_of(r.usage, uid) == count_of(e.counters@.usage, uid) + if counts
                && seen.live@.contains(uid) {
                secs
            } else {
                0
            }
            &&& count_of(r.usage_fg, uid) == count_of(e.counters@.usage_fg, uid) + if counts
                && seen.fg@.contains(uid) {
                secs
            } else {
                0
            }
        }),
{
    let secs = elapsed_secs(e.last_tick, clock.epoch);
    let targets = limited(e.rules, e.uid_of@);
    let c = e.counters@;
    let counted = if secs > 0 && counts_usage(e.rules) {
        c.used(targets, seen.live@, seen.fg@, secs)
    } else {
        c
    };
    if secs > 0 {
        usage_counts_what_was_seen(c, targets, seen.live@, seen.fg@, secs, uid);
        if !counts_usage(e.rules) {
            lemma_nobody_is_limited(e.rules, e.uid_of@, uid);
        }
    }
    usage_is_kept_until_a_cooldown_is_over(counted, e.rules, e.uid_of@, clock.epoch, uid);
}

proof fn lemma_nobody_is_limited(rules: Rules, uids: Map<Seq<char>, u32>, uid: u32)
    requires
        !counts_usage(rules),
        rules.wf(),
    ensures
        !limited(rules, uids).contains(uid),
{
    only_what_enabled_rules_need_is_looked_at(rules);
    usage_counts_for_limited_apps_and_members(rules, uids, uid);
    let p = |s: RuleSet| s.duration.limit_minutes > 0;
    assert(!some_enabled(rules, p));
    assert forall|i: int| 0 <= i < rules.apps.vals().len() && (
    #[trigger] rules.apps.vals()[i]).enabled implies rules.apps.vals()[i].rules.duration.limit_minutes
        == 0 by {
        assert(!p(rules.apps.vals()[i].rules));
    }
    assert forall|i: int| 0 <= i < rules.groups.vals().len() && (
    #[trigger] rules.groups.vals()[i]).enabled implies rules.groups.vals()[i].rules.duration.limit_minutes
        == 0 by {
        assert(!p(rules.groups.vals()[i].rules));
    }
}

/// The moment and the state that a decision is made from are those of the engine.
pub proof fn a_decision_is_made_from_what_is(e: Engine, clock: Clock, screen_off: bool)
    ensures
        ({
            let s = e.situation(clock, screen_off);
            &&& s.uids == e.uid_of@
            &&& s.protected == e.protected@
            &&& s.counters == e.counters@
            &&& s.moment.now == clock.epoch
            &&& s.moment.minute == clock.minute
            &&& s.moment.weekday == clock.weekday
            &&& s.moment.screen_off == screen_off
        }),
{
}

/// While a rule limits usage or watches the screen the engine asks to be woken every
/// fifteen seconds, while anything is blocked every minute, and always within five
/// minutes and by midnight.
pub proof fn the_engine_keeps_its_cadences(e: Engine, clock: Clock, r: u64, k: int, uid: u32)
    requires
        clock.wf(),
        forall|b: int| #[trigger] e.wakes(clock, b) ==> r <= b,
    ensures
        r <= 300,
        e.blocked@.contains(uid) ==> r <= 60,
        0 <= k < enabled_of(e.rules).len() && (enabled_of(e.rules)[k].duration.limit_minutes > 0
            || enabled_of(e.rules)[k].lock_block) ==> r <= 15,
        r <= 86400 - clock.minute * 60 - clock.epoch % 60,
{
    assert(e.wakes(clock, 300));
    if e.blocked@.contains(uid) {
        assert(e.wakes(clock, 60));
    }
    if 0 <= k < enabled_of(e.rules).len() && (enabled_of(e.rules)[k].duration.limit_minutes > 0
        || enabled_of(e.rules)[k].lock_block) {
        assert(needs_cadence(enabled_of(e.rules)[k]));
        assert(rule_wake(
            enabled_of(e.rules),
            clock.minute,
            clock.weekday,
            (clock.epoch % 60) as u64,
            15,
        ));
        assert(e.wakes(clock, 15));
    }
    assert(e.wakes(clock, to_midnight(clock.minute, (clock.epoch % 60) as u64)));
}

/// The engine does not ask to be woken for nothing: with nothing blocked, no enabled
/// rule set at all and no deadline within five minutes or midnight, it sleeps for
/// those.
pub proof fn an_idle_engine_sleeps(e: Engine, clock: Clock, r: u64)
    requires
        e.wakes(clock, r as int),
        e.blocked@ == Set::<u32>::empty(),
        enabled_of(e.rules).len() == 0,
        forall|b: int| #[trigger] deadline_in(e.counters@, clock.epoch, b) ==> b <= 0 || b >= 300,
        clock.minute * 60 + clock.epoch % 60 + 300 <= 86400,
    ensures
        r >= 300,
{
}

/// A deadline is a deadline of some extension or some cooldown, and each of them is
/// one.
pub proof fn every_deadline_counts(c: CountersView, now: u64, uid: u32, gid: Seq<char>)
    ensures
        c.extension.contains_key(uid) ==> deadline_in(c, now, c.extension[uid] - now),
        c.cooldown.contains_key(uid) ==> deadline_in(c, now, c.cooldown[uid] - now),
        c.group_extension.contains_key(gid) ==> deadline_in(c, now, c.group_extension[gid] - now),
        c.group_cooldown.contains_key(gid) ==> deadline_in(c, now, c.group_cooldown[gid] - now),
        forall|b: int| !#[trigger] deadline_in(CountersView::none(), now, b),
{
}

/// Once the changes of a tick are made, exactly those uids are blocked that the rules
/// want blocked, held against the counters as the tick leaves them, at its moment,
/// with the screen counting only where an enabled rule asks for it.
pub proof fn a_tick_blocks_what_the_rules_want(
    before: Engine,
    after: Engine,
    clock: Clock,
    seen: Seen,
    plan: TickPlan,
    uid: u32,
)
    requires
        after.ticked(before, clock, seen, plan),
    ensures
        ({
            let lock = some_enabled(before.rules, |s: RuleSet| s.lock_block);
            let s = after.situation(clock, lock && seen.screen_off);
            after_changes(before.blocked@, plan.changes@).contains(uid) <==> wanted(
                s.claims(before.rules),
                uid,
            ) == Some(true)
        }),
        plan.index.names@.contains_key(uid) ==> ascending(plan.index.names@[uid].seq()),
{
    only_what_enabled_rules_need_is_looked_at(before.rules);
    let s = after.situation(clock, asks_for_screen(before.rules) && seen.screen_off);
    changes_reach_the_wanted_state(
        wanted_map(s.claims(before.rules)),
        before.blocked@,
        plan.changes@,
        uid,
    );
}

/// A tick keeps the rules, the uids and the protected packages, and leaves what is
/// blocked to the changes it asks for; it says when a new day has begun.
pub proof fn a_tick_changes_the_day_alone(
    before: Engine,
    after: Engine,
    clock: Clock,
    seen: Seen,
    plan: TickPlan,
)
    requires
        after.ticked(before, clock, seen, plan),
    ensures
        after.rules == before.rules,
        after.uid_of == before.uid_of,
        after.protected == before.protected,
        after.blocked == before.blocked,
        after.started == before.started,
        after.last_day == Some(clock.day),
        after.last_tick == Some(clock.epoch),
        before.last_day == Some(clock.day) ==> !plan.new_day,
        before.last_day != Some(clock.day) ==> plan.new_day,
        after.counters@ == before.counters_after(clock, seen),
{
}

/// An installed app of a user whose rule is enabled and always blocks is blocked after
/// a tick, unless its package is protected, its extension runs, or a group it is in
/// decides otherwise.
pub proof fn an_always_blocked_app_is_blocked_by_a_tick(
    before: Engine,
    after: Engine,
    clock: Clock,
    seen: Seen,
    plan: TickPlan,
    s: SituationView,
    i: int,
    user: u32,
    pkg: Seq<char>,
    uid: u32,
)
    requires
        before.wf(),
        after.ticked(before, clock, seen, plan),
        0 <= i < before.rules.apps.keys().len(),
        before.rules.apps.keys()[i] == user_key(user, pkg),
        before.rules.apps.vals()[i].enabled,
        before.rules.apps.vals()[i].rules.always_on,
        before.uid_of@.contains_key(user_key(user, pkg)),
        before.uid_of@[user_key(user, pkg)] == uid,
        uid >= 10000,
        !before.protected@.contains(pkg),
        !pending(after.counters@.extension, uid, clock.epoch),
        s == after.situation(clock, asks_for_screen(before.rules) && seen.screen_off),
        forall|k: int| #[trigger] app_concerns(s, before.rules, k, uid) ==> k == i,
        forall|k: int, n: int| !#[trigger] group_concerns(s, before.rules, k, n, uid),
    ensures
        after_changes(before.blocked@, plan.changes@).contains(uid),
        pkg.len() > 0 ==> plan.index.lists(uid, pkg),
{
    if pkg.len() > 0 {
        key_gives_its_package(user, pkg);
    }
    rules_are_about_installed_unprotected_apps(s, user, pkg, uid);
    an_app_is_blocked_for_each_reason(s, before.rules.apps.vals()[i], uid);
    assert(app_concerns(s, before.rules, i, uid));
    assert(blocked_anyway(s, before.rules.apps.vals()[i].rules));
    assert forall|k: int| #[trigger] app_concerns(s, before.rules, k, uid) implies s.app_blocks(
        before.rules.apps.vals()[k],
        uid,
    ) == true by {
        assert(k == i);
    }
    an_ungrouped_app_follows_its_own_rule(s, before.rules, uid, true, i);
    what_is_wanted_comes_about(
        s.claims(before.rules),
        before.blocked@,
        plan.changes@,
        uid,
        true,
    );
    blocked_apps_are_listed(s, before.rules, i, 0, uid, pkg);
}

/// A tick ends with a sweep when a minute has passed since the last one and something
/// is blocked, and with a save when a minute has passed since the last one; the time of
/// the sweep is noted, and nothing but that and the sleep changes.
pub proof fn a_tick_ends_with_what_is_due(before: Engine, after: Engine, clock: Clock, end: TickEnd, uid: u32)
    requires
        after.finished(before, clock, end),
    ensures
        clock.epoch < before.last_sweep + 60 ==> !end.sweep && after.last_sweep == before.last_sweep,
        clock.epoch >= before.last_sweep + 60 ==> after.last_sweep == clock.epoch,
        clock.epoch >= before.last_sweep + 60 && before.blocked@.contains(uid) ==> end.sweep,
        before.blocked@ == Set::<u32>::empty() ==> !end.sweep,
        end.save <==> clock.epoch >= before.last_save + 60,
        after.last_save == before.last_save,
        after.blocked == before.blocked,
        after.rules == before.rules,
        after.counters == before.counters,
        after.last_interval <= 300,
{
    assert(after.wakes(clock, 300));
}

/// A tick looks for those who have to be counted, and only when time has passed.
pub proof fn a_tick_looks_for_the_limited(e: Engine, now: u64, needs: Needs, uid: u32)
    requires
        e.wf(),
        e.needs_look(now, needs),
    ensures
        needs.targets matches Some(t) ==> (t@.contains(uid) <==> limited(e.rules, e.uid_of@).contains(
            uid,
        )),
        limited(e.rules, e.uid_of@).contains(uid) && elapsed_secs(e.last_tick, now) > 0
            ==> needs.targets is Some,
        elapsed_secs(e.last_tick, now) == 0 ==> needs.targets is None,
        needs.screen <==> some_enabled(e.rules, |s: RuleSet| s.lock_block),
        needs.live <==> some_enabled(
            e.rules,
            |s: RuleSet| s.duration.limit_minutes > 0 && s.duration.scope@ != "foreground"@,
        ),
{
    only_what_enabled_rules_need_is_looked_at(e.rules);
    if !counts_usage(e.rules) {
        lemma_nobody_is_limited(e.rules, e.uid_of@, uid);
    }
}

/// An engine that has just started blocks nobody, knows of no app, protects none, has
/// read no file yet and takes the time since it started from now on.
pub proof fn a_started_engine_knows_nothing_yet(e: Engine, now: u64, uid: u32, k: Seq<char>)
    requires
        e.just_started(now),
    ensures
        !e.blocked@.contains(uid),
        !e.uid_of@.contains_key(k),
        !e.protected@.contains(k),
        e.last_mtime is None && e.last_pkg_mtime is None,
        e.last_tick is None,
        e.screen_off is None,
        e.started == now,
        e.last_interval == 15,
        elapsed_secs(e.last_tick, now) == 0,
{
}

/// The first tick of a day, and one that counts no time, always has room for the usage:
/// only the end of a cooldown could then not be written.
pub proof fn a_new_day_has_room_for_usage(e: Engine, clock: Clock)
    ensures
        e.last_day != Some(clock.day) ==> (e.fits(clock) <==> cooldowns_fit(e.rules, clock.epoch)),
        e.last_tick is None || e.last_tick.unwrap() >= clock.epoch ==> (e.fits(clock)
            <==> cooldowns_fit(e.rules, clock.epoch)),
        e.fits(clock) ==> cooldowns_fit(e.rules, clock.epoch),
        e.fits(clock) && e.last_day == Some(clock.day) && elapsed_secs(e.last_tick, clock.epoch) > 0
            ==> e.counters@.usage_fits(
            limited(e.rules, e.uid_of@),
            elapsed_secs(e.last_tick, clock.epoch),
        ),
{
}

} // verus!
