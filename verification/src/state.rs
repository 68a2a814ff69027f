//! What survives a restart of the daemon.

use std::collections::{HashMap, HashSet};

use vstd::prelude::*;

use crate::clock::{
    clock_of, clock_or_late, date_text, day_text, in_calendar, offset_of, tz_of, Clock, LAST_DAY,
    LAST_UTC_SECOND,
};
use crate::counters::{pending, pooled_usage, CountersView};
use crate::engine::{Engine, RulesSource, Seen};
use crate::limits::cooldowns_done;
use crate::reload::{is_pick, parsed_wf, usable};
use crate::rules::{DurationRule, Rules};
use crate::table::StrMap;
use crate::text::str_eq;
use crate::uids::{count_in, count_of, relocate, relocated, retain_keys};

verus! {

broadcast use vstd::std_specs::hash::group_hash_axioms;

/// How often a uid was stopped today.
#[derive(Debug)]
pub struct KillCount {
    pub counts: HashMap<u32, u64>,
}

impl View for KillCount {
    type V = Map<u32, u64>;

    open spec fn view(&self) -> Map<u32, u64> {
        self.counts@
    }
}

impl KillCount {
    /// Nothing was stopped.
    pub fn new() -> (r: Self)
        ensures
            r@ == Map::<u32, u64>::empty(),
    {
        KillCount { counts: HashMap::new() }
    }

    /// How often `uid` was stopped.
    pub fn count(&self, uid: u32) -> (r: u64)
        ensures
            r == count_of(self@, uid),
    {
        count_in(&self.counts, uid)
    }

    /// Counts one more stop of `uid`.
    pub fn bump(&mut self, uid: u32)
        requires
            count_of(old(self)@, uid) < u64::MAX,
        ensures
            final(self)@ == old(self)@.insert(uid, (count_of(old(self)@, uid) + 1) as u64),
    {
        let n: u64 = count_in(&self.counts, uid) + 1;
        let _ = self.counts.insert(uid, n);
    }

    /// Counts a cleanup of `uid` that sent `sent` signals. Only real
    /// interceptions count: one with nothing running is not a kill.
    pub fn count_cleanup(&mut self, uid: u32, sent: usize)
        requires
            sent > 0 ==> count_of(old(self)@, uid) < u64::MAX,
        ensures
            final(self)@ == if sent > 0 {
                old(self)@.insert(uid, (count_of(old(self)@, uid) + 1) as u64)
            } else {
                old(self)@
            },
    {
        if sent > 0 {
            self.bump(uid);
        }
    }

    /// Forgets every count.
    pub fn clear(&mut self)
        ensures
            final(self)@ == Map::<u32, u64>::empty(),
    {
        self.counts.clear();
    }

    /// Hands the count of each uid over to the uids that its apps have after
    /// `moves`.
    pub fn relocate(&mut self, moves: &Vec<(u32, u32)>)
        ensures
            final(self)@ == relocated(old(self)@, moves@),
    {
        relocate(&mut self.counts, moves);
    }

    /// Forgets the counts of uids that are not in `live`.
    pub fn keep(&mut self, live: &HashSet<u32>)
        ensures
            final(self)@ == old(self)@.restrict(live@),
    {
        retain_keys(&mut self.counts, live);
    }
}

/// Runtime state persisted across daemon restarts so that a reboot does not
/// defeat daily limits. Active extensions are intentionally NOT saved:
/// restarting the module revokes them (by design).
#[derive(Debug)]
pub struct StateFile {
    pub day: String,
    pub usage_seconds: HashMap<u32, u64>,
    pub usage_fg: HashMap<u32, u64>,
    pub cooldown_until: HashMap<u32, u64>,
    pub group_cooldown_until: StrMap<u64>,
    pub ext_granted_today: HashMap<u32, u32>,
    pub group_ext_granted_today: StrMap<u32>,
    pub kill_count: HashMap<u32, u64>,
}

impl StateFile {
    /// The maps of the file are well formed.
    pub open spec fn wf(&self) -> bool {
        self.group_cooldown_until.wf() && self.group_ext_granted_today.wf()
    }
}

impl CountersView {
    /// The counters once every extension is revoked.
    pub open spec fn without_extensions(self) -> CountersView {
        CountersView { extension: Map::empty(), group_extension: Map::empty(), ..self }
    }

    /// The counters with what `st` holds in place of their own; extensions are
    /// not in the file.
    pub open spec fn restored(self, st: StateFile) -> CountersView {
        CountersView {
            usage: st.usage_seconds@,
            usage_fg: st.usage_fg@,
            extension: self.extension,
            group_extension: self.group_extension,
            granted: st.ext_granted_today@,
            group_granted: st.group_ext_granted_today@,
            cooldown: st.cooldown_until@,
            group_cooldown: st.group_cooldown_until@,
        }
    }
}

impl StateFile {
    /// Whether the file holds the counters `c` and the kill counts `kills`.
    pub open spec fn holds(self, c: CountersView, kills: Map<u32, u64>) -> bool {
        &&& self.usage_seconds@ == c.usage
        &&& self.usage_fg@ == c.usage_fg
        &&& self.cooldown_until@ == c.cooldown
        &&& self.group_cooldown_until@ == c.group_cooldown
        &&& self.ext_granted_today@ == c.granted
        &&& self.group_ext_granted_today@ == c.group_granted
        &&& self.kill_count@ == kills
    }
}

impl Engine {
    /// The runtime state of the day that is written `today`.
    pub fn snapshot(&self, today: String, kills: &KillCount) -> (r: StateFile)
        requires
            self.wf(),
        ensures
            r.wf(),
            r.day == today,
            r.holds(self.counters@, kills@),
    {
        let c = &self.counters;
        StateFile {
            day: today,
            usage_seconds: c.usage_seconds.clone(),
            usage_fg: c.usage_fg.clone(),
            cooldown_until: c.cooldown_until.clone(),
            group_cooldown_until: c.group_cooldown_until.copied(),
            ext_granted_today: c.ext_granted_today.clone(),
            group_ext_granted_today: c.group_ext_granted_today.copied(),
            kill_count: kills.counts.clone(),
        }
    }

    /// The runtime state to persist (every minute). Active extensions are not
    /// saved.
    pub fn save_state(&mut self, clock: &Clock, kills: &KillCount) -> (r: StateFile)
        requires
            old(self).wf(),
            clock.wf(),
        ensures
            final(self).wf(),
            r.wf(),
            r.day@ == date_text(clock.day as int),
            r.holds(old(self).counters@, kills@),
            *final(self) == (Engine { last_save: clock.epoch, ..*old(self) }),
    {
        self.last_save = clock.epoch;
        self.snapshot(day_text(clock.day), kills)
    }

    /// Whether the engine is `before` with the state in `st` taken over for the day
    /// `day` if it is today's, and unchanged if not; `r` is today's kill counts.
    pub open spec fn took_over(
        &self,
        before: Engine,
        st: StateFile,
        todays: bool,
        day: i32,
        r: Option<KillCount>,
    ) -> bool {
        match r {
            Some(kills) => todays && kills@ == st.kill_count@ && self.counters@
                == before.counters@.restored(st) && *self == (Engine {
                last_day: Some(day),
                counters: self.counters,
                ..before
            }),
            None => !todays && *self == before,
        }
    }

    /// Takes over the state in `st` when it is that of the day `day`, which is
    /// written `today`, and gives back that day's kill counts.
    pub fn restore(&mut self, st: StateFile, today: &str, day: i32) -> (r: Option<KillCount>)
        requires
            old(self).wf(),
            st.wf(),
        ensures
            final(self).wf(),
            final(self).took_over(*old(self), st, st.day@ == today@, day, r),
    {
        if !str_eq(st.day.as_str(), today) {
            return None;
        }
        // Restored state belongs to today: keep the first tick's daily reset
        // from immediately wiping it.
        self.last_day = Some(day);
        self.counters.usage_seconds = st.usage_seconds;
        self.counters.usage_fg = st.usage_fg;
        self.counters.cooldown_until = st.cooldown_until;
        self.counters.group_cooldown_until = st.group_cooldown_until;
        self.counters.ext_granted_today = st.ext_granted_today;
        self.counters.group_ext_granted_today = st.group_ext_granted_today;
        Some(KillCount { counts: st.kill_count })
    }

    /// Restore today's usage/cooldown/budget state (survives daemon restarts),
    /// and give back today's kill counts. State of another day is left alone.
    pub fn load_state(&mut self, st: StateFile, clock: &Clock) -> (r: Option<KillCount>)
        requires
            old(self).wf(),
            st.wf(),
            clock.wf(),
        ensures
            final(self).wf(),
            r is Some <==> st.day@ == date_text(clock.day as int),
            forall|day: int|
                1 <= day <= LAST_DAY && st.day@ == #[trigger] date_text(day) ==> (r is Some <==> day
                    == clock.day),
            final(self).took_over(
                *old(self),
                st,
                st.day@ == date_text(clock.day as int),
                clock.day,
                r,
            ),
    {
        let today = day_text(clock.day);
        self.restore(st, today.as_str(), clock.day)
    }
}

// ---------------------------------------------------------------------------
// Starting
// ---------------------------------------------------------------------------

/// An engine that just started.
#[derive(Debug)]
pub struct Started {
    pub engine: Engine,
    /// today's kill counts, where the saved state is today's
    pub kills: Option<KillCount>,
    /// the rules came from the live file, whose copy is to be renewed
    pub from_file: bool,
}

/// Whether `st` is the state of the day on which `secs` falls `east` seconds east
/// of UTC.
pub open spec fn is_todays(st: StateFile, secs: int, east: int) -> bool {
    st.day@ == date_text(clock_of(secs, east).day as int)
}

impl Engine {
    /// Starts an engine `secs` seconds after the epoch: take the rules over, read
    /// the clock in their timezone, and restore the state that was saved (None when
    /// there is none) where it is that of the local day. Gives `secs` back where it
    /// has no date in that timezone to hold the saved state against.
    pub fn start(
        secs: i64,
        file: Option<Rules>,
        backup: Option<Rules>,
        saved: Option<StateFile>,
    ) -> (r: Result<Started, i64>)
        requires
            0 <= secs <= LAST_UTC_SECOND,
            parsed_wf(file),
            parsed_wf(backup),
            saved matches Some(st) ==> st.wf(),
        ensures
            match r {
                Err(late) => late == secs && saved is Some && exists|
                    rules: Rules,
                    source: RulesSource,
                | #[trigger]
                    is_pick(file, backup, rules, source) && !in_calendar(
                        secs as int,
                        offset_of(tz_of(rules.settings.timezone@)),
                    ),
                Ok(s) => {
                    let e = s.engine;
                    let east = e.configured_offset();
                    &&& e.wf()
                    &&& e.just_started(secs as u64)
                    &&& is_pick(file, backup, e.rules, e.rules_source)
                    &&& e.tz_secs == tz_of(e.rules.settings.timezone@)
                    &&& s.from_file == usable(file)
                    &&& saved is Some ==> in_calendar(secs as int, east)
                    &&& saved matches Some(st) ==> forall|day: int|
                        1 <= day <= LAST_DAY && st.day@ == #[trigger] date_text(day) ==> (s.kills is Some
                            <==> day == clock_of(secs as int, east).day)
                    &&& if saved is Some && is_todays(saved.unwrap(), secs as int, east) {
                        &&& s.kills matches Some(k) && k@ == saved.unwrap().kill_count@
                        &&& e.counters@ == CountersView::none().restored(saved.unwrap())
                        &&& e.last_day == Some(clock_of(secs as int, east).day)
                    } else {
                        &&& s.kills is None
                        &&& e.counters@ == CountersView::none()
                        &&& e.last_day is None
                    }
                },
            },
    {
        let mut engine = Engine::new(secs as u64);
        let from_file: bool = engine.load_rules(file, backup);
        match saved {
            None => Ok(Started { engine, kills: None, from_file }),
            Some(st) => match clock_or_late(secs, engine.tz_secs) {
                Ok(now) => {
                    let kills = engine.load_state(st, &now);
                    Ok(Started { engine, kills, from_file })
                },
                Err(late) => {
                    assert(is_pick(file, backup, engine.rules, engine.rules_source));
                    Err(late)
                },
            },
        }
    }
}

// ---------------------------------------------------------------------------
// Laws
// ---------------------------------------------------------------------------

/// A restart on the same day keeps every limit and every grant, and revokes the
/// extensions that were running: what was saved comes back into an engine that
/// just started, and nothing else does.
pub proof fn a_restart_keeps_limits_and_revokes_extensions(
    c: CountersView,
    kills: Map<u32, u64>,
    st: StateFile,
)
    requires
        st.holds(c, kills),
    ensures
        CountersView::none().restored(st) == c.without_extensions(),
{
    assert(CountersView::none().restored(st) =~= c.without_extensions());
}

/// The first tick after a restart does not wipe what was restored: with the day
/// taken over, only usage since the last tick is added, and there was none.
pub proof fn the_first_tick_keeps_what_was_restored(e: Engine, clock: Clock, seen: Seen)
    requires
        e.last_day == Some(clock.day),
        e.last_tick is None,
    ensures
        e.counters_after(clock, seen) == cooldowns_done(
            e.counters@,
            e.rules,
            e.uid_of@,
            clock.epoch,
        ),
{
}

/// What comes back into an engine that just started is, map by map, what was saved:
/// usage, cooldowns and grants of uids and groups; no extension does.
pub proof fn a_restart_restores_what_was_saved(c: CountersView, kills: Map<u32, u64>, st: StateFile)
    requires
        st.holds(c, kills),
    ensures
        ({
            let r = CountersView::none().restored(st);
            &&& r.usage == c.usage
            &&& r.usage_fg == c.usage_fg
            &&& r.cooldown == c.cooldown
            &&& r.group_cooldown == c.group_cooldown
            &&& r.granted == c.granted
            &&& r.group_granted == c.group_granted
            &&& r.extension == Map::<u32, u64>::empty()
            &&& r.group_extension == Map::<Seq<char>, u64>::empty()
        }),
        st.kill_count@ == kills,
{
}

/// A limit that was used up before a restart is used up after it, and a cooldown
/// that ran still runs: restarting gains no time.
pub proof fn a_restart_gains_no_time(
    c: CountersView,
    kills: Map<u32, u64>,
    st: StateFile,
    uids: Seq<u32>,
    d: DurationRule,
    uid: u32,
    gid: Seq<char>,
    now: u64,
)
    requires
        st.holds(c, kills),
    ensures
        ({
            let r = CountersView::none().restored(st);
            &&& r.used_up(uids, d) == c.used_up(uids, d)
            &&& pending(r.cooldown, uid, now) == pending(c.cooldown, uid, now)
            &&& pending(r.group_cooldown, gid, now) == pending(c.group_cooldown, gid, now)
            &&& !pending(r.extension, uid, now)
            &&& !pending(r.group_extension, gid, now)
        }),
{
    lemma_same_pools(CountersView::none().restored(st), c, uids, d.scope@);
}

proof fn lemma_same_pools(a: CountersView, b: CountersView, uids: Seq<u32>, scope: Seq<char>)
    requires
        a.usage == b.usage,
        a.usage_fg == b.usage_fg,
    ensures
        pooled_usage(a, uids, scope) == pooled_usage(b, uids, scope),
    decreases uids.len(),
{
    if uids.len() > 0 {
        lemma_same_pools(a, b, uids.drop_last(), scope);
    }
}

/// State is that of the local day on which it is read, or it is not today's.
pub proof fn state_is_todays_by_its_local_day(st: StateFile, secs: int, east: int)
    requires
        in_calendar(secs, east),
        -86400 < east < 86400,
    ensures
        is_todays(st, secs, east) <==> st.day@ == date_text((secs + east) / 86400 + 719163),
{
}

/// State of today is taken over whole, with its day, so that the next tick does not
/// start a new one; state of another day is left alone.
pub proof fn todays_state_is_taken_over_whole(
    before: Engine,
    after: Engine,
    st: StateFile,
    todays: bool,
    day: i32,
    r: Option<KillCount>,
)
    requires
        after.took_over(before, st, todays, day, r),
    ensures
        todays ==> {
            &&& after.counters@.usage == st.usage_seconds@
            &&& after.counters@.usage_fg == st.usage_fg@
            &&& after.counters@.cooldown == st.cooldown_until@
            &&& after.counters@.group_cooldown == st.group_cooldown_until@
            &&& after.counters@.granted == st.ext_granted_today@
            &&& after.counters@.group_granted == st.group_ext_granted_today@
            &&& after.counters@.extension == before.counters@.extension
            &&& after.counters@.group_extension == before.counters@.group_extension
            &&& after.last_day == Some(day)
            &&& r is Some && r.unwrap()@ == st.kill_count@
        },
        !todays ==> after == before && r is None,
        after.rules == before.rules,
        after.last_tick == before.last_tick,
{
}

} // verus!
