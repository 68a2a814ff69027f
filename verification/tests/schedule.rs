use ningshi::rules::{AppRule, DurationRule, GroupRule, RuleSet, Rules, Settings, TimeWindow, TimeWindows};
use ningshi::schedule::{
    enabled_sets, next_wake_secs, WakeInputs, ACTIVE_TICK_SECS, IDLE_TICK_SECS, SWEEP_TICK_SECS,
};
use ningshi::table::StrMap;

const MON: u8 = 1;

fn no_rules() -> Rules {
    Rules { version: 1, settings: Settings::default(), apps: StrMap::new(), groups: StrMap::new() }
}

fn app(enabled: bool, rules: RuleSet) -> Rules {
    let mut r = no_rules();
    r.apps.insert("0:com.a".to_string(), AppRule { enabled, rules });
    r
}

fn limit(minutes: u32) -> RuleSet {
    let mut s = RuleSet::default();
    s.duration = DurationRule { limit_minutes: minutes, freeze_minutes: 0, scope: "foreground".to_string() };
    s
}

fn windows(list: &[(&str, &str, &[u8])]) -> RuleSet {
    let mut s = RuleSet::default();
    s.time_windows = TimeWindows {
        mode: "allow".to_string(),
        windows: list
            .iter()
            .map(|(a, b, d)| TimeWindow { start: a.to_string(), end: b.to_string(), days: d.to_vec() })
            .collect(),
    };
    s
}

fn wake_inputs<'a>(
    rules: &'a Rules,
    any_blocked: bool,
    expiries: Vec<u64>,
    now_min: u32,
    sec_in_min: u64,
    weekday: u8,
) -> WakeInputs<'a> {
    WakeInputs { rules, any_blocked, expiries, now_epoch: 1_000_000, now_min, weekday, sec_in_min }
}

fn wake_at(rules: &Rules, any_blocked: bool, expiries: Vec<u64>, now_min: u32, sec_in_min: u64) -> u64 {
    next_wake_secs(&wake_inputs(rules, any_blocked, expiries, now_min, sec_in_min, MON))
}

#[test]
fn idle_sleep_when_nothing_is_configured() {
    // No rules, nothing blocked: nothing can change by itself.
    assert_eq!(wake_at(&no_rules(), false, vec![], 8 * 60, 0), IDLE_TICK_SECS);
    assert_eq!(IDLE_TICK_SECS, 300);
}

#[test]
fn blocked_uids_keep_the_sweep_cadence() {
    assert_eq!(wake_at(&no_rules(), true, vec![], 8 * 60, 0), SWEEP_TICK_SECS);
    assert_eq!(SWEEP_TICK_SECS, 60);
}

#[test]
fn duration_and_lock_block_need_the_active_cadence() {
    let duration = app(true, limit(30));
    assert_eq!(wake_at(&duration, false, vec![], 8 * 60, 0), ACTIVE_TICK_SECS);

    let mut s = RuleSet::default();
    s.lock_block = true;
    let lock = app(true, s);
    assert_eq!(wake_at(&lock, false, vec![], 8 * 60, 0), ACTIVE_TICK_SECS);
    assert_eq!(ACTIVE_TICK_SECS, 15);
}

#[test]
fn disabled_rules_do_not_shorten_the_sleep() {
    let mut s = limit(30);
    s.lock_block = true;
    let disabled = app(false, s);
    assert_eq!(wake_at(&disabled, false, vec![], 8 * 60, 0), IDLE_TICK_SECS);
    // A window list with no entries restricts nothing.
    let empty_windows = app(true, windows(&[]));
    assert_eq!(wake_at(&empty_windows, false, vec![], 8 * 60, 0), IDLE_TICK_SECS);
}

#[test]
fn window_edge_is_used_as_the_wakeup() {
    // 08:57 now, the window opens at 09:00 -> 180s, shorter than idle.
    let w = app(true, windows(&[("09:00", "10:00", &[])]));
    assert_eq!(wake_at(&w, false, vec![], 8 * 60 + 57, 0), 180);
    // 50s into the minute before the edge: wake 10s from now.
    assert_eq!(wake_at(&w, false, vec![], 8 * 60 + 59, 50), 10);
    // Inside a window that ends at 06:02: the closing edge is next.
    let closing = app(true, windows(&[("22:00", "06:02", &[])]));
    assert_eq!(wake_at(&closing, false, vec![], 6 * 60, 0), 120);
}

#[test]
fn window_edges_respect_weekday_sets() {
    // Monday-only window: opens in 180s on Monday, a week away on Tuesday.
    let rules = app(true, windows(&[("09:00", "10:00", &[1])]));
    let monday = next_wake_secs(&wake_inputs(&rules, false, vec![], 8 * 60 + 57, 0, 1));
    assert_eq!(monday, 180);
    let tuesday = next_wake_secs(&wake_inputs(&rules, false, vec![], 8 * 60 + 57, 0, 2));
    assert_eq!(tuesday, IDLE_TICK_SECS);
}

#[test]
fn expiries_and_midnight_cap_the_sleep() {
    // An extension ending in 45s must be noticed then.
    assert_eq!(wake_at(&no_rules(), false, vec![1_000_045], 8 * 60, 0), 45);
    // Already expired deadlines do not hold the loop back.
    assert_eq!(wake_at(&no_rules(), false, vec![999_000], 8 * 60, 0), IDLE_TICK_SECS);
    // 23:59:30 -> daily counters reset in 30s.
    assert_eq!(wake_at(&no_rules(), false, vec![], 1439, 30), 30);
}

#[test]
fn sleep_is_never_zero() {
    assert!(wake_at(&no_rules(), false, vec![], 0, 0) >= 1);
}

#[test]
fn the_shortest_wakeup_wins() {
    let rules = app(true, windows(&[("09:00", "10:00", &[]), ("08:58", "12:00", &[])]));
    assert_eq!(wake_at(&rules, false, vec![1_000_200], 8 * 60 + 57, 0), 60);
    assert_eq!(wake_at(&rules, true, vec![1_000_030], 8 * 60 + 57, 0), 30);
}

#[test]
fn enabled_rule_sets_come_apps_first() {
    let mut rules = app(true, limit(1));
    rules.apps.insert("0:com.b".to_string(), AppRule { enabled: false, rules: limit(2) });
    rules.apps.insert("0:com.0".to_string(), AppRule { enabled: true, rules: limit(3) });
    rules.groups.insert(
        "g".to_string(),
        GroupRule { name: "g".to_string(), enabled: true, shared_pool: false, members: vec![], rules: limit(4) },
    );
    let got: Vec<u32> = enabled_sets(&rules).iter().map(|s| s.duration.limit_minutes).collect();
    assert_eq!(got, vec![3, 1, 4]);
}
