use std::collections::HashSet;

use ningshi::clock::{clock_at, Clock, LAST_UTC_SECOND};
use ningshi::decide::Change;
use ningshi::engine::{Engine, RulesSource, Seen, Stamp};
use ningshi::extension::ExtensionError;
use ningshi::gate::{Gate, KernelStats, Reading};
use ningshi::reload::{resolve_protected, ApplyError};
use ningshi::rules::{AppRule, DurationRule, GroupRule, RuleSet, Rules, Settings, TimeWindow};
use ningshi::state::KillCount;
use ningshi::table::StrMap;

// 2024-02-29 12:00:00 UTC, a Thursday.
const NOON: i64 = 1709208000;

fn at(secs: i64) -> Clock {
    clock_at(NOON + secs, Some(0))
}

fn limit(minutes: u32, freeze: u32, scope: &str) -> RuleSet {
    let mut s = RuleSet::default();
    s.duration = DurationRule { limit_minutes: minutes, freeze_minutes: freeze, scope: scope.to_string() };
    s
}

fn always() -> RuleSet {
    let mut s = RuleSet::default();
    s.always_on = true;
    s
}

fn rules(apps: Vec<(&str, bool, RuleSet)>, groups: Vec<(&str, GroupRule)>) -> Rules {
    let mut r = Rules { version: 1, settings: Settings::default(), apps: StrMap::new(), groups: StrMap::new() };
    for (k, enabled, rules) in apps {
        r.apps.insert(k.to_string(), AppRule { enabled, rules });
    }
    for (k, g) in groups {
        r.groups.insert(k.to_string(), g);
    }
    r
}

fn group(shared_pool: bool, members: &[&str], rules: RuleSet) -> GroupRule {
    GroupRule {
        name: "g".to_string(),
        enabled: true,
        shared_pool,
        members: members.iter().map(|s| s.to_string()).collect(),
        rules,
    }
}

fn uids(list: &[(&str, u32)]) -> StrMap<u32> {
    let mut m = StrMap::new();
    for (k, u) in list {
        m.insert(k.to_string(), *u);
    }
    m
}

fn engine(r: Rules, u: &[(&str, u32)]) -> Engine {
    let mut e = Engine::new(NOON as u64);
    let done = e.reload(Some(r), None, resolve_protected(&None, &None), Some(uids(u)), Some(Stamp { secs: 1, nanos: 0 }));
    assert!(done.complete && done.from_file);
    e
}

fn set(list: &[u32]) -> HashSet<u32> {
    list.iter().copied().collect()
}

fn seen(live: &[u32], fg: &[u32]) -> Seen {
    Seen { live: set(live), fg: set(fg), screen_off: false }
}

/// Ticks and makes every change; the uids that were blocked and released.
fn tick(e: &mut Engine, clock: &Clock, s: &Seen) -> (Vec<u32>, Vec<u32>) {
    let plan = e.tick(clock, s);
    let mut on: Vec<u32> = Vec::new();
    let mut off: Vec<u32> = Vec::new();
    for c in plan.changes {
        if c.block {
            on.push(c.uid);
        } else {
            off.push(c.uid);
        }
        e.applied(c);
    }
    on.sort();
    off.sort();
    (on, off)
}

fn blocked(e: &Engine) -> Vec<u32> {
    e.blocked.iter().copied().collect()
}

// ---------- decisions ----------

#[test]
fn always_on_apps_are_blocked_and_released() {
    let mut e = engine(rules(vec![("0:com.a", true, always()), ("0:com.b", false, always())], vec![]), &[("0:com.a", 10001), ("0:com.b", 10002)]);
    let plan = e.tick(&at(0), &seen(&[], &[]));
    assert!(plan.new_day);
    assert_eq!(plan.changes, vec![Change { uid: 10001, block: true }]);
    assert!(plan.index.contains(10001, "com.a"));
    assert!(!plan.index.contains(10001, "com.b"));
    assert!(!plan.index.contains(10002, "com.b"));
    e.applied(Change { uid: 10001, block: true });
    assert_eq!(blocked(&e), vec![10001]);
    // Nothing left to do.
    assert_eq!(tick(&mut e, &at(15), &seen(&[], &[])), (vec![], vec![]));
    // The rule goes away: released.
    let done = e.reload(Some(rules(vec![], vec![])), None, resolve_protected(&None, &None), Some(uids(&[("0:com.a", 10001)])), None);
    assert!(done.complete);
    assert_eq!(tick(&mut e, &at(30), &seen(&[], &[])), (vec![], vec![10001]));
    assert!(blocked(&e).is_empty());
}

#[test]
fn system_and_protected_apps_are_left_alone() {
    let r = rules(
        vec![("0:android", true, always()), ("0:com.android.settings", true, always()), ("0:com.ime", true, always()), ("0:gone", true, always())],
        vec![("g", group(false, &["10:com.android.systemui", "0:com.ok"], always()))],
    );
    let mut e = Engine::new(0);
    let _ = e.reload(
        Some(r),
        None,
        resolve_protected(&Some("com.ime/.Ime".to_string()), &None),
        Some(uids(&[("0:android", 1000), ("0:com.android.settings", 10002), ("0:com.ime", 10003), ("10:com.android.systemui", 1010004), ("0:com.ok", 10005)])),
        None,
    );
    assert_eq!(tick(&mut e, &at(0), &seen(&[], &[])), (vec![10005], vec![]));
}

#[test]
fn the_last_rule_about_a_uid_decides() {
    // The group comes after the app, and its windows let the app run.
    let mut open = RuleSet::default();
    open.time_windows.windows = vec![TimeWindow { start: "11:00".to_string(), end: "13:00".to_string(), days: vec![] }];
    let r = rules(vec![("0:com.a", true, always())], vec![("g", group(false, &["0:com.a"], open))]);
    let mut e = engine(r, &[("0:com.a", 10001)]);
    assert_eq!(tick(&mut e, &at(0), &seen(&[], &[])), (vec![], vec![]));
    // The window closes: now the group blocks it too.
    assert_eq!(tick(&mut e, &at(3600), &seen(&[], &[])), (vec![10001], vec![]));
}

#[test]
fn lock_block_follows_the_screen() {
    let mut s = RuleSet::default();
    s.lock_block = true;
    let mut e = engine(rules(vec![("0:com.a", true, s)], vec![]), &[("0:com.a", 10001)]);
    assert!(e.needs(NOON as u64).screen);
    assert_eq!(e.screen_off, None);
    let dark = Seen { live: set(&[]), fg: set(&[]), screen_off: true };
    assert_eq!(tick(&mut e, &at(0), &dark), (vec![10001], vec![]));
    assert_eq!(e.screen_off, Some(true));
    assert_eq!(tick(&mut e, &at(15), &seen(&[], &[])), (vec![], vec![10001]));
    // Without such a rule the screen is not looked at.
    let mut e = engine(rules(vec![], vec![]), &[]);
    assert!(!e.needs(NOON as u64).screen);
    let _ = tick(&mut e, &at(0), &dark);
    assert_eq!(e.screen_off, None);
}

#[test]
fn a_window_rule_follows_the_clock() {
    let mut s = RuleSet::default();
    s.time_windows.windows = vec![TimeWindow { start: "12:00".to_string(), end: "12:30".to_string(), days: vec![4] }];
    let mut e = engine(rules(vec![("0:com.a", true, s)], vec![]), &[("0:com.a", 10001)]);
    assert_eq!(tick(&mut e, &at(0), &seen(&[], &[])), (vec![], vec![]));
    assert_eq!(tick(&mut e, &at(30 * 60), &seen(&[], &[])), (vec![10001], vec![]));
    assert_eq!(e.tick_interval_secs(&at(29 * 60)), 60);
}

// ---------- usage and limits ----------

#[test]
fn usage_is_counted_for_limited_uids() {
    let r = rules(vec![("0:com.a", true, limit(1, 0, "foreground")), ("0:com.b", true, limit(1, 0, "background"))], vec![]);
    let mut e = engine(r, &[("0:com.a", 10001), ("0:com.b", 10002), ("0:com.c", 10003)]);
    assert!(e.needs(NOON as u64).targets.is_none()); // no tick yet, so no time has passed
    let _ = tick(&mut e, &at(0), &seen(&[10001, 10002, 10003], &[10001, 10003]));
    assert!(e.counters.usage_seconds.is_empty());
    let needs = e.needs((NOON + 15) as u64);
    assert_eq!(needs.targets, Some(set(&[10001, 10002])));
    assert!(needs.live);
    let _ = tick(&mut e, &at(15), &seen(&[10001, 10002, 10003], &[10001, 10003]));
    assert_eq!(e.counters.usage_seconds.get(&10001), Some(&15));
    assert_eq!(e.counters.usage_fg.get(&10001), Some(&15));
    assert_eq!(e.counters.usage_seconds.get(&10002), Some(&15));
    assert_eq!(e.counters.usage_fg.get(&10002), None);
    assert_eq!(e.counters.usage_seconds.get(&10003), None);
    assert_eq!(e.counters.scoped_usage(10001, "foreground"), 15);
    assert_eq!(e.counters.scoped_usage(10001, "background"), 0);
    assert_eq!(e.counters.scoped_usage(10002, "background"), 15);
    assert_eq!(e.counters.scoped_usage(10002, "any"), 15);
    assert_eq!(e.counters.scoped_usage(10002, "whatever"), 0);
}

#[test]
fn one_tick_counts_at_most_a_minute() {
    let mut e = engine(rules(vec![("0:com.a", true, limit(10, 0, "any"))], vec![]), &[("0:com.a", 10001)]);
    let _ = tick(&mut e, &at(0), &seen(&[10001], &[]));
    let _ = tick(&mut e, &at(3600), &seen(&[10001], &[]));
    assert_eq!(e.counters.usage_seconds.get(&10001), Some(&60));
    // The clock was set back: nothing is counted.
    let _ = tick(&mut e, &at(10), &seen(&[10001], &[]));
    assert_eq!(e.counters.usage_seconds.get(&10001), Some(&60));
}

#[test]
fn a_spent_limit_blocks_until_the_next_day() {
    let mut e = engine(rules(vec![("0:com.a", true, limit(1, 0, "foreground"))], vec![]), &[("0:com.a", 10001)]);
    let s = seen(&[], &[10001]);
    assert_eq!(tick(&mut e, &at(0), &s), (vec![], vec![]));
    assert_eq!(tick(&mut e, &at(59), &s), (vec![], vec![]));
    assert_eq!(tick(&mut e, &at(60), &s), (vec![10001], vec![]));
    assert_eq!(tick(&mut e, &at(3600), &seen(&[], &[])), (vec![], vec![]));
    // 12 hours later it is another day.
    let plan = e.tick(&at(12 * 3600), &seen(&[], &[]));
    assert!(plan.new_day);
    assert_eq!(plan.changes, vec![Change { uid: 10001, block: false }]);
    assert!(e.counters.usage_fg.is_empty());
}

#[test]
fn a_cooldown_blocks_and_then_frees() {
    let mut e = engine(rules(vec![("0:com.a", true, limit(1, 5, "foreground"))], vec![]), &[("0:com.a", 10001)]);
    let s = seen(&[], &[10001]);
    let _ = tick(&mut e, &at(0), &s);
    assert_eq!(tick(&mut e, &at(60), &s), (vec![10001], vec![]));
    assert_eq!(e.counters.cooldown_until.get(&10001), Some(&((NOON + 60 + 300) as u64)));
    assert_eq!(e.tick_interval_secs(&at(60)), 15);
    assert_eq!(tick(&mut e, &at(359), &seen(&[], &[])), (vec![], vec![]));
    assert_eq!(tick(&mut e, &at(360), &seen(&[], &[])), (vec![], vec![10001]));
    assert_eq!(e.counters.usage_fg.get(&10001), Some(&0));
    assert_eq!(e.counters.cooldown_until.get(&10001), None);
}

#[test]
fn a_shared_pool_counts_together() {
    let r = rules(vec![], vec![("g", group(true, &["0:com.a", "0:com.b", "0:gone"], limit(1, 5, "foreground")))]);
    let mut e = engine(r, &[("0:com.a", 10001), ("0:com.b", 10002)]);
    let _ = tick(&mut e, &at(0), &seen(&[], &[]));
    assert_eq!(tick(&mut e, &at(30), &seen(&[], &[10001])), (vec![], vec![]));
    assert_eq!(tick(&mut e, &at(60), &seen(&[], &[10002])), (vec![10001, 10002], vec![]));
    assert_eq!(e.counters.group_cooldown_until.get("g"), Some(&((NOON + 360) as u64)));
    assert_eq!(tick(&mut e, &at(360), &seen(&[], &[])), (vec![], vec![10001, 10002]));
    assert_eq!(e.counters.usage_fg.get(&10001), Some(&0));
    assert_eq!(e.counters.usage_fg.get(&10002), Some(&0));
}

#[test]
fn members_without_a_pool_count_alone() {
    let r = rules(vec![], vec![("g", group(false, &["0:com.a", "0:com.b"], limit(1, 5, "foreground")))]);
    let mut e = engine(r, &[("0:com.a", 10001), ("0:com.b", 10002)]);
    let _ = tick(&mut e, &at(0), &seen(&[], &[]));
    assert_eq!(tick(&mut e, &at(60), &seen(&[], &[10001])), (vec![10001], vec![]));
    assert_eq!(e.counters.cooldown_until.get(&10001), Some(&((NOON + 360) as u64)));
    assert_eq!(e.counters.cooldown_until.get(&10002), None);
}

// ---------- extensions ----------

#[test]
fn an_extension_exempts_until_it_ends() {
    let mut e = engine(rules(vec![("0:com.a", true, always())], vec![]), &[("0:com.a", 10001)]);
    assert_eq!(tick(&mut e, &at(0), &seen(&[], &[])), (vec![10001], vec![]));
    assert_eq!(e.add_extension("0:com.a", 5, at(0).epoch).unwrap(), 5);
    assert_eq!(tick(&mut e, &at(0), &seen(&[], &[])), (vec![], vec![10001]));
    assert_eq!(e.tick_interval_secs(&at(0)), 300);
    assert_eq!(e.tick_interval_secs(&at(290)), 10);
    assert_eq!(tick(&mut e, &at(299), &seen(&[], &[])), (vec![], vec![]));
    assert_eq!(tick(&mut e, &at(300), &seen(&[], &[])), (vec![10001], vec![]));
}

#[test]
fn extensions_are_capped_for_the_day() {
    let mut e = engine(rules(vec![("0:com.a", true, always())], vec![]), &[("0:com.a", 10001)]);
    let now = at(0).epoch;
    assert_eq!(e.add_extension("0:com.a", 100, now).unwrap(), 100);
    assert_eq!(e.add_extension("0:com.a", 100, now).unwrap(), 20);
    assert_eq!(e.counters.extension_until.get(&10001), Some(&(now + 120 * 60)));
    let err = e.add_extension("0:com.a", 1, now).unwrap_err();
    assert!(matches!(err, ExtensionError::LimitReached));
    assert_eq!(err.message(), "daily extension limit (120 min) reached");
    assert_eq!(e.counters.ext_granted_today.get(&10001), Some(&120));
}

#[test]
fn a_group_is_extended_as_one() {
    let r = rules(vec![], vec![("g", group(false, &["0:com.a", "0:com.b"], always()))]);
    let mut e = engine(r, &[("0:com.a", 10001), ("0:com.b", 10002)]);
    assert_eq!(tick(&mut e, &at(0), &seen(&[], &[])), (vec![10001, 10002], vec![]));
    let err = e.add_extension("0:com.a", 5, at(0).epoch).unwrap_err();
    assert_eq!(err.message(), "0:com.a is managed by group 'g'; extend that group instead");
    assert!(matches!(err, ExtensionError::ManagedByGroup { .. }));
    assert_eq!(e.add_extension("g", 20, at(0).epoch).unwrap(), 20);
    assert_eq!(tick(&mut e, &at(0), &seen(&[], &[])), (vec![], vec![10001, 10002]));
    for _ in 0..5 {
        let _ = e.add_extension("g", 20, at(0).epoch);
    }
    assert!(matches!(e.add_extension("g", 20, at(0).epoch), Err(ExtensionError::LimitReached)));
    assert_eq!(e.counters.group_extension_until.get("g"), Some(&(at(0).epoch + 7200)));
}

#[test]
fn unknown_keys_are_refused() {
    let mut e = engine(rules(vec![], vec![]), &[]);
    let err = e.add_extension("nope", 5, at(0).epoch).unwrap_err();
    assert!(matches!(err, ExtensionError::UnknownKey { .. }));
    assert_eq!(err.message(), "unknown app or group key: nope");
}

#[test]
fn two_extensions_add_up() {
    let mut a = engine(rules(vec![("0:com.a", true, always())], vec![]), &[("0:com.a", 10001)]);
    let mut b = engine(rules(vec![("0:com.a", true, always())], vec![]), &[("0:com.a", 10001)]);
    let now = at(0).epoch;
    a.add_extension("0:com.a", 5, now).unwrap();
    a.add_extension("0:com.a", 20, now).unwrap();
    b.add_extension("0:com.a", 25, now).unwrap();
    assert_eq!(a.counters.extension_until, b.counters.extension_until);
    assert_eq!(a.counters.ext_granted_today, b.counters.ext_granted_today);
}

// ---------- rules and packages ----------

#[test]
fn an_unusable_file_keeps_the_running_rules() {
    let mut e = engine(rules(vec![("0:com.a", true, always())], vec![]), &[("0:com.a", 10001)]);
    let mut newer = rules(vec![], vec![]);
    newer.version = 99;
    let done = e.reload(Some(newer), None, resolve_protected(&None, &None), Some(uids(&[("0:com.a", 10001)])), None);
    assert!(done.complete && !done.from_file);
    assert_eq!(e.rules_source, RulesSource::File);
    assert_eq!(e.rules.apps.len(), 1);
    let done = e.reload(None, None, resolve_protected(&None, &None), None, None);
    assert!(!done.complete);
    assert_eq!(e.rules.apps.len(), 1);
}

#[test]
fn a_fallback_set_picks_up_a_repaired_file() {
    let mut e = Engine::new(0);
    assert!(!e.load_rules(None, Some(rules(vec![("0:com.a", true, always())], vec![]))));
    assert_eq!(e.rules_source, RulesSource::Backup);
    assert!(!e.load_rules(None, None));
    assert_eq!(e.rules_source, RulesSource::Default);
    assert_eq!(e.rules.apps.len(), 0);
    let mut r = rules(vec![("0:com.a", true, always())], vec![]);
    r.settings.timezone = "UTC+8".to_string();
    let done = e.reload(Some(r), None, resolve_protected(&None, &None), Some(uids(&[])), Some(Stamp { secs: 3, nanos: 4 }));
    assert!(done.from_file);
    assert_eq!(e.rules_source, RulesSource::File);
    assert_eq!(e.tz_secs, Some(28800));
    assert!(!e.rules_changed(Some(Stamp { secs: 3, nanos: 4 })));
    assert!(e.rules_changed(Some(Stamp { secs: 3, nanos: 5 })));
    assert!(!e.rules_changed(None));
}

#[test]
fn applying_rules_says_how_many_apps() {
    let mut e = Engine::new(0);
    let r = rules(vec![("0:com.a", true, always()), ("0:com.b", true, always())], vec![]);
    let n = e.apply_rules_file(Some(r), None, resolve_protected(&None, &None), Some(uids(&[])), None).unwrap();
    assert_eq!(n, 2);
    let mut e = Engine::new(0);
    let err = e.apply_rules_file(None, None, resolve_protected(&None, &None), Some(uids(&[])), None).unwrap_err();
    assert!(matches!(err, ApplyError::NotReadBack));
    let err = e.apply_rules_file(None, None, resolve_protected(&None, &None), None, None).unwrap_err();
    assert!(matches!(err, ApplyError::Packages));
}

#[test]
fn toggling_the_pool_clears_its_cooldown() {
    let make = |shared: bool| rules(vec![], vec![("g", group(shared, &["0:com.a"], limit(1, 5, "foreground"))), ("h", group(true, &["0:com.b"], limit(1, 5, "foreground")))]);
    let u = [("0:com.a", 10001), ("0:com.b", 10002)];
    let mut e = engine(make(false), &u);
    let _ = tick(&mut e, &at(0), &seen(&[], &[]));
    let _ = tick(&mut e, &at(60), &seen(&[], &[10001, 10002]));
    assert!(e.counters.cooldown_until.contains_key(&10001));
    assert!(e.counters.group_cooldown_until.contains_key("h"));
    // The same rules again: nothing is reset.
    let _ = e.reload(Some(make(false)), None, resolve_protected(&None, &None), Some(uids(&u)), None);
    assert!(e.counters.cooldown_until.contains_key(&10001));
    let _ = e.reload(Some(make(true)), None, resolve_protected(&None, &None), Some(uids(&u)), None);
    assert!(!e.counters.cooldown_until.contains_key(&10001));
    assert!(e.counters.group_cooldown_until.contains_key("h"));
    assert_eq!(e.counters.usage_fg.get(&10001), Some(&60));
}

#[test]
fn a_changed_uid_takes_its_usage_along() {
    let mut e = engine(rules(vec![("0:com.a", true, limit(10, 0, "any")), ("0:com.b", true, limit(10, 0, "any"))], vec![]), &[("0:com.a", 10001), ("0:com.b", 10002)]);
    let _ = tick(&mut e, &at(0), &seen(&[10001, 10002], &[]));
    let _ = tick(&mut e, &at(30), &seen(&[10001, 10002], &[]));
    e.add_extension("0:com.a", 5, at(30).epoch).unwrap();
    let mut kills = KillCount::new();
    kills.bump(10001);
    kills.bump(10002);
    kills.bump(10002);
    assert!(e.packages_changed(Some(Stamp { secs: 9, nanos: 0 })));
    // com.a was reinstalled with another uid, com.b is gone.
    e.sync_packages(uids(&[("0:com.a", 10007)]), Stamp { secs: 9, nanos: 0 }, &mut kills);
    assert!(!e.packages_changed(Some(Stamp { secs: 9, nanos: 0 })));
    assert_eq!(e.counters.usage_seconds.get(&10007), Some(&30));
    assert_eq!(e.counters.usage_seconds.len(), 1);
    assert_eq!(e.counters.extension_until.get(&10007), Some(&(at(30).epoch + 300)));
    assert_eq!(e.counters.ext_granted_today.get(&10007), Some(&5));
    assert_eq!(e.counters.ext_granted_today.len(), 1);
    assert_eq!(kills.count(10007), 1);
    assert_eq!(kills.count(10001), 0);
    assert_eq!(kills.count(10002), 0);
    assert_eq!(e.uid_of.get("0:com.a"), Some(&10007));
}

#[test]
fn a_reinstall_does_not_end_a_cooldown() {
    let mut e = engine(rules(vec![("0:com.a", true, limit(1, 5, "foreground"))], vec![]), &[("0:com.a", 10001)]);
    let _ = tick(&mut e, &at(0), &seen(&[], &[10001]));
    let _ = tick(&mut e, &at(60), &seen(&[], &[10001]));
    assert_eq!(e.counters.cooldown_until.get(&10001), Some(&at(360).epoch));
    e.sync_packages(uids(&[("0:com.a", 10007)]), Stamp { secs: 9, nanos: 0 }, &mut KillCount::new());
    assert_eq!(e.counters.cooldown_until.get(&10007), Some(&at(360).epoch));
    assert_eq!(e.counters.cooldown_until.len(), 1);
}

#[test]
fn apps_that_trade_uids_keep_their_own_state() {
    let mut e = engine(rules(vec![], vec![]), &[("0:com.a", 10010), ("0:com.b", 10020), ("0:com.c", 10040)]);
    for (uid, secs) in [(10010, 1), (10020, 2), (10040, 4)] {
        e.counters.usage_seconds.insert(uid, secs);
        e.counters.cooldown_until.insert(uid, secs);
    }
    e.counters.usage_fg.insert(10020, 22);
    let mut kills = KillCount::new();
    kills.bump(10010);
    // com.a takes the uid that com.b leaves, and a new app the one of com.a.
    let now = uids(&[("0:com.a", 10020), ("0:com.b", 10030), ("0:com.c", 10040), ("0:com.new", 10010)]);
    e.sync_packages(now, Stamp { secs: 9, nanos: 0 }, &mut kills);
    let usage = |uid: u32| e.counters.usage_seconds.get(&uid).copied();
    assert_eq!((usage(10020), usage(10030), usage(10040), usage(10010)), (Some(1), Some(2), Some(4), None));
    assert_eq!(e.counters.cooldown_until.get(&10030), Some(&2));
    // com.a was never in the foreground, and does not find com.b's time there.
    assert_eq!(e.counters.usage_fg.get(&10020), None);
    assert_eq!(e.counters.usage_fg.get(&10030), Some(&22));
    assert_eq!((kills.count(10020), kills.count(10010)), (1, 0));
    // Two apps swap.
    let now = uids(&[("0:com.a", 10030), ("0:com.b", 10020), ("0:com.c", 10040)]);
    e.sync_packages(now, Stamp { secs: 10, nanos: 0 }, &mut kills);
    let usage = |uid: u32| e.counters.usage_seconds.get(&uid).copied();
    assert_eq!((usage(10030), usage(10020), usage(10040)), (Some(1), Some(2), Some(4)));
}

#[test]
fn apps_that_shared_a_uid_each_keep_its_state() {
    let mut e = engine(rules(vec![], vec![]), &[("0:com.a", 10010), ("0:com.b", 10010), ("0:com.c", 10010)]);
    e.counters.usage_seconds.insert(10010, 7);
    let now = uids(&[("0:com.a", 10010), ("0:com.b", 10020), ("0:com.c", 10030)]);
    e.sync_packages(now, Stamp { secs: 9, nanos: 0 }, &mut KillCount::new());
    for uid in [10010, 10020, 10030] {
        assert_eq!(e.counters.usage_seconds.get(&uid), Some(&7));
    }
}

#[test]
fn a_uid_that_comes_to_be_shared_has_one_entry() {
    let mut e = engine(rules(vec![], vec![]), &[("0:com.a", 10010), ("0:com.b", 10020)]);
    e.counters.usage_seconds.insert(10010, 1);
    e.counters.usage_seconds.insert(10020, 2);
    e.counters.usage_fg.insert(10020, 3);
    e.sync_packages(uids(&[("0:com.a", 10020), ("0:com.b", 10020)]), Stamp { secs: 9, nanos: 0 }, &mut KillCount::new());
    // The one that moved brings its entry, where it has one.
    assert_eq!(e.counters.usage_seconds.get(&10020), Some(&1));
    assert_eq!(e.counters.usage_fg.get(&10020), Some(&3));
}

#[test]
fn other_apps_keep_their_state_through_a_reinstall() {
    let mut e = engine(rules(vec![("0:com.a", true, limit(10, 0, "any")), ("0:com.b", true, limit(10, 0, "any"))], vec![]), &[("0:com.a", 10001), ("0:com.b", 10002)]);
    let _ = tick(&mut e, &at(0), &seen(&[10001, 10002], &[]));
    let _ = tick(&mut e, &at(30), &seen(&[10001, 10002], &[]));
    let mut kills = KillCount::new();
    kills.bump(10002);
    e.sync_packages(uids(&[("0:com.a", 10007), ("0:com.b", 10002)]), Stamp { secs: 9, nanos: 0 }, &mut kills);
    assert_eq!(e.counters.usage_seconds.get(&10002), Some(&30));
    assert_eq!(e.counters.usage_seconds.get(&10007), Some(&30));
    assert_eq!(kills.count(10002), 1);
}

#[test]
fn a_toggle_ends_cooldowns_without_a_package_list() {
    let shared = |on: bool| rules(vec![], vec![("g", group(on, &["0:com.a"], limit(1, 5, "any")))]);
    let mut e = engine(shared(false), &[("0:com.a", 10001)]);
    e.counters.cooldown_until.insert(10001, at(300).epoch);
    e.counters.cooldown_until.insert(10002, at(300).epoch);
    e.counters.usage_seconds.insert(10001, 60);
    let done = e.reload(Some(shared(true)), None, resolve_protected(&None, &None), None, Some(Stamp { secs: 3, nanos: 0 }));
    assert!(done.from_file && !done.complete);
    assert_eq!(e.counters.cooldown_until.get(&10001), None);
    assert_eq!(e.counters.cooldown_until.get(&10002), Some(&at(300).epoch));
    assert_eq!(e.counters.usage_seconds.get(&10001), Some(&60));
    // The uid map is left as it was, and the stamp for the next time.
    assert_eq!(e.uid_of.get("0:com.a"), Some(&10001));
    assert!(e.rules_changed(Some(Stamp { secs: 3, nanos: 0 })));
    e.counters.group_cooldown_until.insert("g".to_string(), at(300).epoch);
    let _ = e.reload(Some(shared(false)), None, resolve_protected(&None, &None), None, None);
    assert_eq!(e.counters.group_cooldown_until.get("g"), None);
}

// ---------- state ----------

#[test]
fn a_start_restores_the_day_of_the_configured_timezone() {
    let r = || {
        let mut r = rules(vec![("0:com.a", true, limit(1, 5, "any"))], vec![]);
        r.settings.timezone = "UTC+8".to_string();
        r
    };
    // 2024-02-29 20:00 UTC is 2024-03-01 in UTC+8.
    let evening = NOON + 8 * 3600;
    let saved = |day: i64| {
        let mut e = Engine::new(0);
        e.counters.usage_seconds.insert(10001, 30);
        e.counters.extension_until.insert(10001, u64::MAX);
        let mut kills = KillCount::new();
        kills.bump(10001);
        e.save_state(&clock_at(day, Some(0)), &kills)
    };
    let s = Engine::start(evening, Some(r()), None, Some(saved(NOON + 86400))).unwrap();
    assert!(s.from_file);
    assert_eq!(s.kills.unwrap().count(10001), 1);
    assert_eq!(s.engine.started, evening as u64);
    assert_eq!(s.engine.tz_secs, Some(28800));
    assert_eq!(s.engine.last_day, Some(clock_at(evening, Some(28800)).day));
    assert_eq!(s.engine.counters.usage_seconds.get(&10001), Some(&30));
    assert!(s.engine.counters.extension_until.is_empty());
    // It is no longer the day of UTC.
    let s = Engine::start(evening, None, Some(r()), Some(saved(NOON))).unwrap();
    assert!(!s.from_file && s.kills.is_none());
    assert_eq!(s.engine.rules_source, RulesSource::Backup);
    assert_eq!(s.engine.last_day, None);
    assert!(s.engine.counters.usage_seconds.is_empty());
    // Without rules the day is that of UTC.
    let s = Engine::start(evening, None, None, Some(saved(NOON))).unwrap();
    assert_eq!(s.engine.rules_source, RulesSource::Default);
    assert!(s.kills.is_some());
    // Nothing saved, nothing restored.
    assert!(Engine::start(evening, Some(r()), None, None).unwrap().kills.is_none());
    // The calendar ends before this moment in UTC+8.
    let end = LAST_UTC_SECOND;
    assert_eq!(Engine::start(end, Some(r()), None, Some(saved(NOON))).err(), Some(end));
    assert!(Engine::start(end, None, None, Some(saved(NOON))).is_ok());
}

#[test]
fn a_restart_keeps_limits_and_drops_extensions() {
    let r = || rules(vec![("0:com.a", true, limit(1, 5, "foreground"))], vec![]);
    let mut e = engine(r(), &[("0:com.a", 10001)]);
    let _ = tick(&mut e, &at(0), &seen(&[], &[10001]));
    let _ = tick(&mut e, &at(60), &seen(&[], &[10001]));
    e.add_extension("0:com.a", 5, at(60).epoch).unwrap();
    let mut kills = KillCount::new();
    kills.count_cleanup(10001, 3);
    kills.count_cleanup(10001, 0);
    let st = e.save_state(&at(61), &kills);
    assert_eq!(st.day, "2024-02-29");
    assert_eq!(e.last_save, at(61).epoch);

    let mut again = Engine::new(at(100).epoch);
    assert!(again.load_rules(Some(r()), None));
    let restored = again.load_state(st, &at(100)).unwrap();
    assert_eq!(restored.count(10001), 1);
    assert_eq!(again.counters.usage_fg.get(&10001), Some(&60));
    assert_eq!(again.counters.cooldown_until.get(&10001), Some(&at(360).epoch));
    assert_eq!(again.counters.ext_granted_today.get(&10001), Some(&5));
    assert!(again.counters.extension_until.is_empty());
    let _ = again.reload(Some(r()), None, resolve_protected(&None, &None), Some(uids(&[("0:com.a", 10001)])), None);
    // The first tick keeps what was restored, and the app is blocked again.
    let plan = again.tick(&at(100), &seen(&[], &[]));
    assert!(!plan.new_day);
    assert_eq!(plan.changes, vec![Change { uid: 10001, block: true }]);
}

#[test]
fn state_of_another_day_is_left_alone() {
    let mut e = engine(rules(vec![("0:com.a", true, limit(9, 0, "any"))], vec![]), &[("0:com.a", 10001)]);
    let _ = tick(&mut e, &at(0), &seen(&[10001], &[]));
    let _ = tick(&mut e, &at(30), &seen(&[10001], &[]));
    let st = e.save_state(&at(30), &KillCount::new());
    let mut again = Engine::new(0);
    assert!(again.load_state(st, &at(86400)).is_none());
    assert!(again.counters.usage_seconds.is_empty());
    assert_eq!(again.last_day, None);
}

#[test]
fn a_snapshot_is_restored_by_its_day() {
    let mut e = engine(rules(vec![("0:com.a", true, limit(9, 0, "any"))], vec![]), &[("0:com.a", 10001)]);
    let _ = tick(&mut e, &at(0), &seen(&[10001], &[]));
    let _ = tick(&mut e, &at(30), &seen(&[10001], &[]));
    let st = || e.snapshot("today".to_string(), &KillCount::new());
    let mut again = Engine::new(0);
    assert!(again.restore(st(), "tomorrow", 5).is_none());
    assert!(again.restore(st(), "today", 5).is_some());
    assert_eq!(again.last_day, Some(5));
    assert_eq!(again.counters.usage_seconds.get(&10001), Some(&30));
}

#[test]
fn sweeps_and_saves_are_due_every_minute() {
    let mut e = engine(rules(vec![("0:com.a", true, always())], vec![]), &[("0:com.a", 10001)]);
    let end = e.finish_tick(&at(0));
    assert!(!end.sweep); // nothing is blocked
    assert!(end.save);
    let _ = e.save_state(&at(0), &KillCount::new());
    let _ = tick(&mut e, &at(0), &seen(&[], &[]));
    assert!(!e.finish_tick(&at(59)).sweep);
    assert_eq!(e.last_interval, 60);
    let end = e.finish_tick(&at(60));
    assert!(end.sweep && end.save);
    assert!(!e.finish_tick(&at(61)).sweep);
}

#[test]
fn counters_that_are_full_are_noticed() {
    let mut e = engine(rules(vec![("0:com.a", true, always())], vec![]), &[("0:com.a", 10001)]);
    let _ = tick(&mut e, &at(0), &seen(&[], &[]));
    assert!(e.can_tick(&at(15)));
    // Nothing limits the app, so nothing is added to its counter.
    e.counters.usage_seconds.insert(10001, u64::MAX);
    assert!(e.can_tick(&at(15)));
    e.rules = rules(vec![("0:com.a", true, limit(9, 0, "any"))], vec![]);
    assert!(!e.can_tick(&at(15)));
    assert!(!e.counters.has_room(&HashSet::from([10001]), 1));
    assert!(e.counters.has_room(&HashSet::from([10002]), 60));
    // A full counter of an app without a limit does not matter.
    e.counters.usage_seconds.remove(&10001);
    e.counters.usage_seconds.insert(10009, u64::MAX);
    assert!(e.can_tick(&at(15)));
    // Exactly what passed has to fit.
    e.counters.usage_fg.insert(10001, u64::MAX - 15);
    assert!(e.can_tick(&at(15)));
    assert!(!e.can_tick(&at(16)));
    // No time passed, or a new day: there is nothing to add.
    assert!(e.can_tick(&at(0)));
    assert!(e.can_tick(&at(86400)));
}

#[test]
fn cooldowns_that_cannot_end_are_noticed() {
    let mut late = at(15);
    late.epoch = u64::MAX;
    let tick_at = |r: Rules| engine(r, &[("0:com.a", 10001)]).can_tick(&late);
    assert!(tick_at(rules(vec![("0:com.a", true, limit(9, 0, "any"))], vec![])));
    assert!(tick_at(rules(vec![("0:com.a", false, limit(9, 5, "any"))], vec![])));
    assert!(!tick_at(rules(vec![("0:com.a", true, limit(9, 5, "any"))], vec![])));
    assert!(!tick_at(rules(vec![], vec![("g", group(true, &["0:com.a"], limit(9, 5, "any")))])));
    late.epoch = u64::MAX - 300;
    assert!(engine(rules(vec![("0:com.a", true, limit(9, 5, "any"))], vec![]), &[("0:com.a", 10001)]).can_tick(&late));
}

#[test]
fn only_the_deadline_that_is_prolonged_needs_room() {
    let mut e = engine(rules(vec![("0:com.a", true, always())], vec![("g", group(false, &["0:com.b"], always()))]), &[("0:com.a", 10001), ("0:com.b", 10002)]);
    let now = at(0).epoch;
    e.counters.extension_until.insert(10002, u64::MAX);
    assert!(e.has_room_to_extend("0:com.a", 5, now));
    assert!(e.has_room_to_extend("g", 5, now));
    assert!(e.has_room_to_extend("nobody", 5, u64::MAX));
    // Refused in favour of the group.
    assert!(e.has_room_to_extend("0:com.b", 5, u64::MAX));
    assert!(!e.has_room_to_extend("g", 5, u64::MAX));
    e.counters.extension_until.insert(10001, u64::MAX - 300);
    assert!(e.has_room_to_extend("0:com.a", 5, now));
    assert!(!e.has_room_to_extend("0:com.a", 6, now));
    assert_eq!(e.add_extension("0:com.a", 5, now).unwrap(), 5);
    assert_eq!(e.counters.extension_until.get(&10001), Some(&u64::MAX));
    // The day's grant is spent: nothing is added, so nothing can overflow.
    e.counters.ext_granted_today.insert(10001, 120);
    assert!(e.has_room_to_extend("0:com.a", 6, now));
    assert!(matches!(e.add_extension("0:com.a", 6, now), Err(ExtensionError::LimitReached)));
}

#[test]
fn a_cleanup_of_nothing_counts_nothing() {
    let mut kills = KillCount::new();
    kills.counts.insert(10001, u64::MAX);
    kills.count_cleanup(10001, 0);
    assert_eq!(kills.count(10001), u64::MAX);
}

#[test]
fn the_same_packages_migrate_nothing() {
    let mut e = engine(rules(vec![("0:com.a", true, limit(10, 0, "any"))], vec![]), &[("0:com.a", 10001)]);
    let _ = tick(&mut e, &at(0), &seen(&[10001], &[]));
    let _ = tick(&mut e, &at(30), &seen(&[10001], &[]));
    e.sync_packages(uids(&[("0:com.a", 10001)]), Stamp { secs: 2, nanos: 0 }, &mut KillCount::new());
    assert_eq!(e.counters.usage_seconds.get(&10001), Some(&30));
}

#[test]
fn status_is_a_snapshot() {
    let mut e = engine(rules(vec![("0:com.a", true, always())], vec![("g", group(false, &[], always()))]), &[("0:com.a", 10001)]);
    let _ = tick(&mut e, &at(0), &seen(&[], &[]));
    let mut kills = KillCount::new();
    kills.bump(10001);
    let gate = Gate::start(true, false, None).unwrap();
    let none = || Reading { values: None };
    let stats = KernelStats {
        marks: Reading { values: Some(vec![1, 2, 3]) },
        events: none(),
        ringbuf_full: none(),
        uid_switch_events: none(),
        uid_switch_ringbuf_full: none(),
        probe_read_failures: none(),
    };
    let s = e.status(at(10).epoch, &gate.health(&stats), &kills);
    assert_eq!(s.version, "0.4.3");
    assert!(s.rules_ok);
    assert_eq!(s.rules_source, "file");
    assert_eq!(s.interval, 15);
    assert_eq!(s.last_tick_age, 10);
    assert_eq!(s.uptime, 10);
    assert_eq!(s.gate.marks, 6);
    assert_eq!(s.blocked_uids, vec![10001]);
    assert_eq!((s.app_count, s.group_count), (1, 1));
    assert_eq!(s.kill_counts.get(&10001), Some(&1));
    assert_eq!(s.protected.len(), 3);
    assert_eq!(s.screen_off, None);
}

#[test]
fn no_decision_changes_within_the_sleep() {
    let mut s = RuleSet::default();
    s.time_windows.windows = vec![TimeWindow { start: "12:03".to_string(), end: "12:04".to_string(), days: vec![] }];
    let mut e = engine(rules(vec![("0:com.a", true, s)], vec![]), &[("0:com.a", 10001)]);
    let _ = tick(&mut e, &at(7), &seen(&[], &[]));
    assert_eq!(blocked(&e), vec![10001]);
    let mut t = 7;
    for (wait, want) in [(60, true), (60, true), (53, false), (60, true)] {
        // While it sleeps, every look would give the same answer.
        let sleep = e.tick_interval_secs(&at(t)) as i64;
        assert_eq!(sleep, wait);
        for k in 0..sleep {
            assert!(e.tick(&at(t + k), &seen(&[], &[])).changes.is_empty());
        }
        t += sleep;
        let _ = tick(&mut e, &at(t), &seen(&[], &[]));
        assert_eq!(!blocked(&e).is_empty(), want);
    }
}
