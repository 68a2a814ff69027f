//! The status snapshot.

use std::collections::HashMap;

use vstd::prelude::*;

use crate::engine::{Engine, RulesSource};
use crate::gate::GateHealth;
use crate::state::KillCount;
use crate::table::StrMap;
use crate::text::views;
use crate::uids::{count_of, ordered_items};

verus! {

broadcast use {
    vstd::std_specs::hash::group_hash_axioms,
    vstd::std_specs::btree::group_btree_axioms,
};

/// The version of this build.
pub const VERSION: &'static str = "0.4.3";

/// Status snapshot for the WebUI.
#[derive(Debug)]
pub struct Status {
    pub version: &'static str,
    pub rules_ok: bool,
    pub rules_source: &'static str,
    pub interval: u64,
    pub last_tick_age: u64,
    pub uptime: u64,
    pub gate: GateHealth,
    pub blocked_uids: Vec<u32>,
    pub app_count: usize,
    pub group_count: usize,
    pub extensions: HashMap<u32, u64>,
    pub group_extensions: StrMap<u64>,
    pub usage_seconds: HashMap<u32, u64>,
    pub usage_fg_seconds: HashMap<u32, u64>,
    pub kill_counts: HashMap<u32, u64>,
    pub screen_off: Option<bool>,
    pub protected: Vec<String>,
}

/// Seconds from `then` to `now`; none when that lies ahead.
pub open spec fn secs_after(then: u64, now: u64) -> u64 {
    if now >= then {
        (now - then) as u64
    } else {
        0
    }
}

/// Whether the snapshot `r` is that of the engine `e` at `now`.
pub open spec fn reports(
    r: Status,
    e: Engine,
    now: u64,
    gate: GateHealth,
    kills: Map<u32, u64>,
) -> bool {
    &&& r.version@ == VERSION@
    &&& r.rules_ok == (e.rules_source == RulesSource::File)
    &&& r.rules_source@ == e.rules_source.name()
    &&& r.interval == e.last_interval
    &&& r.last_tick_age == match e.last_tick {
        Some(t) => secs_after(t, now),
        None => 0,
    }
    &&& r.uptime == secs_after(e.started, now)
    &&& r.gate == gate
    &&& forall|i: int, j: int|
        0 <= i < j < r.blocked_uids@.len() ==> r.blocked_uids@[i] < r.blocked_uids@[j]
    &&& r.blocked_uids@.to_set() == e.blocked@
    &&& r.app_count == e.rules.apps.keys().len()
    &&& r.group_count == e.rules.groups.keys().len()
    &&& r.extensions@ == e.counters@.extension
    &&& r.group_extensions.wf()
    &&& r.group_extensions@ == e.counters@.group_extension
    &&& r.usage_seconds@ == e.counters@.usage
    &&& r.usage_fg_seconds@ == e.counters@.usage_fg
    &&& r.kill_counts@ == kills
    &&& r.screen_off == e.screen_off
    &&& views(r.protected@) == e.protected.seq()
}

impl Engine {
    /// Status snapshot for the WebUI. Reads in-memory state only: a status query
    /// must never tick the engine (that could kill processes as a side effect of
    /// opening the WebUI).
    pub fn status(&self, now: u64, gate: &GateHealth, kills: &KillCount) -> (r: Status)
        requires
            self.wf(),
        ensures
            reports(r, *self, now, *gate, kills@),
    {
        let rules_ok: bool = match self.rules_source {
            RulesSource::File => true,
            _ => false,
        };
        let last_tick_age: u64 = match self.last_tick {
            Some(t) => now.saturating_sub(t),
            None => 0,
        };
        Status {
            version: VERSION,
            rules_ok,
            rules_source: self.rules_source.as_str(),
            interval: self.last_interval,
            last_tick_age,
            uptime: now.saturating_sub(self.started),
            gate: *gate,
            blocked_uids: ordered_items(&self.blocked),
            app_count: self.rules.apps.len(),
            group_count: self.rules.groups.len(),
            extensions: self.counters.extension_until.clone(),
            group_extensions: self.counters.group_extension_until.copied(),
            usage_seconds: self.counters.usage_seconds.clone(),
            usage_fg_seconds: self.counters.usage_fg.clone(),
            kill_counts: kills.counts.clone(),
            screen_off: self.screen_off,
            protected: self.protected.to_vec(),
        }
    }
}

// ---------------------------------------------------------------------------
// Laws
// ---------------------------------------------------------------------------

/// A status shows the engine as it is: where the rules come from, what is blocked,
/// what was used, what was stopped, and how long ago things happened.
pub proof fn a_status_shows_the_engine_as_it_is(
    r: Status,
    e: Engine,
    now: u64,
    gate: GateHealth,
    kills: Map<u32, u64>,
    uid: u32,
)
    requires
        reports(r, e, now, gate, kills),
    ensures
        r.rules_ok <==> e.rules_source == RulesSource::File,
        e.rules_source == RulesSource::File ==> r.rules_source@ == "file"@,
        e.rules_source == RulesSource::Backup ==> r.rules_source@ == "backup"@,
        e.rules_source == RulesSource::Default ==> r.rules_source@ == "default"@,
        r.blocked_uids@.contains(uid) <==> e.blocked@.contains(uid),
        count_of(r.usage_seconds@, uid) == count_of(e.counters@.usage, uid),
        count_of(r.usage_fg_seconds@, uid) == count_of(e.counters@.usage_fg, uid),
        count_of(r.kill_counts@, uid) == count_of(kills, uid),
        r.extensions@ == e.counters@.extension,
        r.group_extensions@ == e.counters@.group_extension,
        r.gate == gate,
        r.interval == e.last_interval,
        r.screen_off == e.screen_off,
        e.started <= now ==> e.started + r.uptime == now,
        e.started > now ==> r.uptime == 0,
        e.last_tick matches Some(t) ==> t <= now ==> t + r.last_tick_age == now,
        e.last_tick matches Some(t) ==> t > now ==> r.last_tick_age == 0,
        e.last_tick is None ==> r.last_tick_age == 0,
        forall|i: int, j: int|
            0 <= i < j < r.blocked_uids@.len() ==> r.blocked_uids@[i] < r.blocked_uids@[j],
        views(r.protected@) == e.protected.seq(),
        r.app_count == e.rules.apps.keys().len(),
        r.group_count == e.rules.groups.keys().len(),
{
    assert(r.blocked_uids@.contains(uid) <==> r.blocked_uids@.to_set().contains(uid));
}

} // verus!
