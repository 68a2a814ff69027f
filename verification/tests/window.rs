use ningshi::rules::{DurationRule, RuleSet, TimeWindow, TimeWindows};
use ningshi::window::{
    day_allowed, days_allow, eval, in_window, next_flip_secs, parse_hhmm, prev_weekday, window_edge_secs,
};

const MON: u8 = 1;
const TUE: u8 = 2;

fn win(start: &str, end: &str, days: &[u8]) -> TimeWindow {
    TimeWindow { start: start.into(), end: end.into(), days: days.to_vec() }
}

fn set(mode: &str, windows: Vec<TimeWindow>) -> RuleSet {
    RuleSet {
        always_on: false,
        lock_block: false,
        time_windows: TimeWindows { mode: mode.into(), windows },
        duration: DurationRule::default(),
    }
}

fn decide(s: &RuleSet, now_min: u32, weekday: u8) -> bool {
    eval(s, now_min, weekday, false, false, false, false)
}

#[test]
fn plain_window_matches_minutes_and_days() {
    let w = win("09:00", "10:00", &[]);
    assert!(in_window(&w, 9 * 60, MON));
    assert!(in_window(&w, 9 * 60 + 59, MON));
    assert!(!in_window(&w, 10 * 60, MON)); // end is exclusive
    assert!(!in_window(&w, 9 * 60 - 1, MON));

    let weekend = win("09:00", "10:00", &[6, 7]);
    assert!(!in_window(&weekend, 9 * 60, MON));
    assert!(in_window(&weekend, 9 * 60, 7));
}

#[test]
fn cross_midnight_uses_the_starting_day() {
    // Monday 22:00 -> Tuesday 07:00
    let w = win("22:00", "07:00", &[MON]);
    assert!(in_window(&w, 22 * 60, MON));
    assert!(in_window(&w, 23 * 60 + 59, MON));
    assert!(in_window(&w, 0, TUE)); // the tail belongs to Monday's window
    assert!(in_window(&w, 6 * 60 + 59, TUE));
    assert!(!in_window(&w, 7 * 60, TUE));
    assert!(!in_window(&w, 21 * 60, TUE));
    // Monday 00:00 would belong to a Sunday window, which is not selected.
    assert!(!in_window(&w, 0, MON));
}

#[test]
fn multi_day_cross_midnight_window() {
    // Friday + Saturday 23:00-06:00
    let w = win("23:00", "06:00", &[5, 6]);
    assert!(in_window(&w, 2 * 60, 6)); // Sat 02:00, started Friday
    assert!(in_window(&w, 2 * 60, 7)); // Sun 02:00, started Saturday
    assert!(!in_window(&w, 2 * 60, MON)); // Mon 02:00, started Sunday
    assert!(in_window(&w, 23 * 60 + 30, 6)); // Sat 23:30
    assert!(!in_window(&w, 23 * 60 + 30, 7)); // Sun 23:30
}

#[test]
fn allow_mode_blocks_everything_outside_windows() {
    let s = set("allow", vec![win("09:00", "10:00", &[])]);
    assert!(!decide(&s, 9 * 60 + 30, MON)); // inside -> allowed
    assert!(decide(&s, 11 * 60, MON)); // outside -> blocked
    assert!(decide(&s, 0, MON));
}

#[test]
fn block_mode_blocks_inside_windows() {
    let s = set("block", vec![win("09:00", "10:00", &[])]);
    assert!(decide(&s, 9 * 60 + 30, MON));
    assert!(!decide(&s, 11 * 60, MON));
}

#[test]
fn unknown_mode_fails_open() {
    let s = set("", vec![win("09:00", "10:00", &[])]);
    assert!(!decide(&s, 9 * 60 + 30, MON));
    assert!(decide(&s, 11 * 60, MON));
}

#[test]
fn no_windows_never_restrict() {
    let s = set("allow", vec![]);
    assert!(!decide(&s, 0, MON));
    let s = set("block", vec![]);
    assert!(!decide(&s, 0, MON));
}

#[test]
fn window_on_selected_day_only() {
    let s = set("allow", vec![win("09:00", "10:00", &[6, 7])]);
    assert!(!decide(&s, 9 * 60 + 30, 7)); // Sunday inside -> allowed
    assert!(decide(&s, 9 * 60 + 30, MON)); // Monday -> blocked
}

#[test]
fn extension_and_always_on_take_priority() {
    let mut s = set("allow", vec![]);
    s.always_on = true;
    assert!(decide(&s, 0, MON));
    assert!(!eval(&s, 0, MON, true, false, false, false)); // extension wins
    assert!(eval(&set("allow", vec![]), 0, MON, false, true, false, false)); // over duration
    assert!(eval(&set("allow", vec![]), 0, MON, false, false, true, false)); // cooldown
}

#[test]
fn prev_weekday_wraps_around() {
    assert_eq!(prev_weekday(1), 7);
    assert_eq!(prev_weekday(2), 1);
    assert_eq!(prev_weekday(7), 6);
}

#[test]
fn lock_block_needs_the_screen_off() {
    let mut s = set("allow", vec![]);
    s.lock_block = true;
    assert!(!eval(&s, 0, MON, false, false, false, false));
    assert!(eval(&s, 0, MON, false, false, false, true));
    assert!(!eval(&s, 0, MON, true, false, false, true));
}

#[test]
fn times_of_day_are_read_leniently() {
    assert_eq!(parse_hhmm("00:00"), 0);
    assert_eq!(parse_hhmm("09:05"), 545);
    assert_eq!(parse_hhmm("23:59"), 1439);
    assert_eq!(parse_hhmm("24:00"), 1440);
    assert_eq!(parse_hhmm("noon"), 0);
    assert_eq!(parse_hhmm("x:15"), 15);
    assert_eq!(parse_hhmm("2:y"), 120);
    assert_eq!(parse_hhmm("1:2:3"), 60);
}

#[test]
fn an_empty_day_set_is_every_day() {
    for d in 1..=7u8 {
        assert!(days_allow(&vec![], d));
        assert_eq!(days_allow(&vec![2, 4], d), d == 2 || d == 4);
        assert_eq!(day_allowed(&win("01:00", "02:00", &[3]), d), d == 3);
    }
}

#[test]
fn equal_times_are_the_whole_day() {
    let w = win("09:00", "09:00", &[]);
    assert!(in_window(&w, 600, MON));
    for d in 1..=7u8 {
        for m in 0..1440u32 {
            assert!(in_window(&w, m, d));
        }
    }
    assert_eq!(window_edge_secs(&w, 0, MON, 0), None);
    assert_eq!(next_flip_secs(&w, 0, MON, 0), None);
}

#[test]
fn equal_times_on_one_day_end_the_next() {
    let w = win("09:00", "09:00", &[1]);
    assert!(!in_window(&w, 9 * 60 - 1, MON));
    assert!(in_window(&w, 9 * 60, MON));
    assert!(in_window(&w, 9 * 60 - 1, TUE));
    assert!(!in_window(&w, 9 * 60, TUE));
    assert_eq!(window_edge_secs(&w, 8 * 60, MON, 0), None);
    assert_eq!(next_flip_secs(&w, 8 * 60, MON, 0), Some(3600));
    assert_eq!(next_flip_secs(&w, 9 * 60, MON, 0), Some(86400));
    assert_eq!(next_flip_secs(&w, 9 * 60, TUE, 0), Some(6 * 86400));
}

#[test]
fn each_named_day_gives_the_whole_window() {
    let minutes = |w: &TimeWindow| (1..=7u8).map(|d| (0..1440u32).filter(|m| in_window(w, *m, d)).count()).sum::<usize>();
    assert_eq!(minutes(&win("09:00", "10:30", &[])), 7 * 90);
    assert_eq!(minutes(&win("09:00", "10:30", &[1, 3])), 2 * 90);
    assert_eq!(minutes(&win("22:00", "06:00", &[5, 7])), 2 * 480);
    assert_eq!(minutes(&win("09:00", "09:00", &[2])), 1440);
    assert_eq!(minutes(&win("09:00", "10:30", &[9])), 0);
}

#[test]
fn edges_count_from_the_second() {
    let w = win("09:00", "10:00", &[]);
    assert_eq!(window_edge_secs(&w, 8 * 60, MON, 0), Some(3600));
    assert_eq!(window_edge_secs(&w, 9 * 60, MON, 0), Some(3600));
    assert_eq!(window_edge_secs(&w, 9 * 60 + 59, MON, 59), Some(1));
    // The search covers the whole week.
    assert_eq!(window_edge_secs(&win("09:00", "10:00", &[5]), 9 * 60, MON, 0), Some(4 * 86400));
    assert_eq!(window_edge_secs(&win("09:00", "10:00", &[1]), 8 * 60 + 57, TUE, 0), Some(518580));
    // A window on no real day never flips.
    assert_eq!(window_edge_secs(&win("09:00", "10:00", &[9]), 9 * 60, MON, 0), None);
}

#[test]
fn cleaning_days_keeps_the_answers() {
    // Out-of-range days never match a real weekday, so dropping them changes
    // nothing while another day is left ...
    let w = win("09:00", "10:00", &[3, 9, 3, 0]);
    let clean = win("09:00", "10:00", &[3]);
    for d in 1..=7u8 {
        assert_eq!(in_window(&w, 9 * 60, d), in_window(&clean, 9 * 60, d));
    }
    // ... and frees a window that could never have held.
    assert!(!in_window(&win("09:00", "10:00", &[9]), 9 * 60, MON));
    assert!(in_window(&win("09:00", "10:00", &[]), 9 * 60, MON));
}

#[test]
fn the_two_modes_are_opposite() {
    let w = || vec![win("09:00", "10:00", &[2])];
    for d in 1..=7u8 {
        for m in [0, 9 * 60, 9 * 60 + 59, 10 * 60] {
            assert_ne!(decide(&set("allow", w()), m, d), decide(&set("block", w()), m, d));
        }
    }
}
