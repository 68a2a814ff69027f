use ningshi::reload::{
    check_candidate, cmd_line, pick_line, pick_rules, resolve_protected, ApplyError, Candidate,
};
use ningshi::engine::RulesSource;
use ningshi::rules::{AppRule, RuleSet, Rules, RulesError, Settings, TimeWindow, TimeWindows};
use ningshi::table::StrMap;

fn rules_with(version: u32, window: TimeWindow) -> Rules {
    let mut set = RuleSet::default();
    set.time_windows = TimeWindows { windows: vec![window], ..TimeWindows::default() };
    let mut apps = StrMap::new();
    apps.insert("0:com.foo".to_string(), AppRule { enabled: true, rules: set });
    Rules { version, settings: Settings::default(), apps, groups: StrMap::new() }
}

fn window(days: &[u8]) -> TimeWindow {
    TimeWindow { start: "09:00".to_string(), end: "10:00".to_string(), days: days.to_vec() }
}

fn days_of(r: &Rules) -> Vec<u8> {
    r.apps.get("0:com.foo").unwrap().rules.time_windows.windows[0].days.clone()
}

#[test]
fn window_mode_defaults_to_allow() {
    let mut r = rules_with(1, window(&[]));
    r.sanitize();
    assert_eq!(r.apps.get("0:com.foo").unwrap().rules.time_windows.mode, "allow");
    assert_eq!(TimeWindows::default().mode, "allow");
    // No days = every day.
    assert!(days_of(&r).is_empty());
}

#[test]
fn days_default_empty_and_sanitized() {
    let mut r = rules_with(1, window(&[3, 9, 0, 3, 1]));
    r.sanitize();
    assert_eq!(days_of(&r), vec![1, 3]);
}

#[test]
fn sanitize_runs_on_load() {
    let r = Rules::load(rules_with(0, window(&[0, 7, 8]))).unwrap();
    assert_eq!(days_of(&r), vec![7]);
}

#[test]
fn sanitizing_twice_changes_nothing_more() {
    let mut r = rules_with(1, window(&[7, 1, 7, 200]));
    r.sanitize();
    let once = days_of(&r);
    r.sanitize();
    assert_eq!(days_of(&r), once);
    assert_eq!(once, vec![1, 7]);
}

#[test]
fn a_newer_schema_is_refused() {
    let e = Rules::load(rules_with(2, window(&[]))).unwrap_err();
    assert_eq!(e, RulesError::NewerVersion { version: 2 });
    assert_eq!(e.message(), "rules version 2 is newer than this module supports (1)");
    assert!(Rules::load(rules_with(1, window(&[]))).is_ok());
}

#[test]
fn the_live_file_comes_before_its_copy() {
    let (r, s) = pick_rules(Some(rules_with(1, window(&[1]))), Some(rules_with(1, window(&[2]))));
    assert_eq!((days_of(&r), s), (vec![1], RulesSource::File));
    let (r, s) = pick_rules(Some(rules_with(9, window(&[1]))), Some(rules_with(1, window(&[2]))));
    assert_eq!((days_of(&r), s), (vec![2], RulesSource::Backup));
    let (r, s) = pick_rules(None, Some(rules_with(9, window(&[2]))));
    assert_eq!((r.apps.len(), r.version, s), (0, 0, RulesSource::Default));
    assert_eq!(RulesSource::File.as_str(), "file");
    assert_eq!(RulesSource::Backup.as_str(), "backup");
    assert_eq!(RulesSource::Default.as_str(), "default");
}

#[test]
fn a_candidate_is_checked_before_it_is_written() {
    let e = check_candidate(Candidate::Unreadable { path: "/x".to_string(), error: "gone".to_string() }).unwrap_err();
    assert_eq!(e.message(), "cannot read /x: gone");
    let e = check_candidate(Candidate::Invalid { error: "eof".to_string() }).unwrap_err();
    assert_eq!(e.message(), "invalid rules: eof");
    let e = check_candidate(Candidate::Parsed { rules: rules_with(7, window(&[])) }).unwrap_err();
    assert_eq!(e.message(), "rules version 7 is newer than this module supports (1)");
    let r = check_candidate(Candidate::Parsed { rules: rules_with(1, window(&[9, 2])) }).unwrap();
    assert_eq!(days_of(&r), vec![2]);
    assert_eq!(ApplyError::NotReadBack.message(), "rules were replaced but could not be read back");
    assert_eq!(ApplyError::Packages.message(), "cannot read the package list");
}

#[test]
fn launcher_and_input_method_are_protected() {
    let s = resolve_protected(
        &Some("com.android.inputmethod.latin/.LatinIME".to_string()),
        &Some("com.home/.Main".to_string()),
    );
    assert_eq!(
        s.to_vec(),
        vec![
            "com.android.inputmethod.latin",
            "com.android.settings",
            "com.android.systemui",
            "com.home",
            "me.weishu.kernelsu"
        ]
    );
    let s = resolve_protected(&None, &Some("No activity found".to_string()));
    assert_eq!(s.to_vec(), vec!["com.android.settings", "com.android.systemui", "me.weishu.kernelsu"]);
}

#[test]
fn one_line_of_an_output_counts() {
    let text = "\n  first \n\t\nlast line\r\n\n";
    assert_eq!(pick_line(text, false).as_deref(), Some("first"));
    assert_eq!(pick_line(text, true).as_deref(), Some("last line"));
    assert_eq!(pick_line(" \n\n", true), None);
    assert_eq!(pick_line("", false), None);
    assert_eq!(cmd_line(true, b"a\nb\n", true).as_deref(), Some("b"));
    assert_eq!(cmd_line(true, b"a\xff\n", false).as_deref(), Some("a\u{fffd}"));
    assert_eq!(cmd_line(false, b"a\nb\n", true), None);
}

#[test]
fn a_written_candidate_reads_back_the_same() {
    let written = check_candidate(Candidate::Parsed { rules: rules_with(1, window(&[7, 7, 0, 3])) }).unwrap();
    let days = days_of(&written);
    let read = Rules::load(written).unwrap();
    assert_eq!(days_of(&read), days);
    assert_eq!(days, vec![3, 7]);
}
