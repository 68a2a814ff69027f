use ningshi::clear::cgroup_path;
use ningshi::config::{data_file, lock_path, log_path, module_file, rules_backup_path, rules_path, socket_path, state_path};
use ningshi::daemon::{cli, drain_inotify, invocation, tick_due, version_warning, wait_ms, Invocation};
use ningshi::engine::Engine;
use ningshi::gate::{Gate, GateHealth, KernelStats, Reading};
use ningshi::rules::{AppRule, RuleSet, Rules, Settings};
use ningshi::socket::{
    apply_answer, err_resp, handle, ok_resp, reload_answer, Answer, Command, Handled, ReplyData, Request,
    PROTOCOL_VERSION,
};
use ningshi::state::KillCount;
use ningshi::table::{StrMap, StrSet};

fn req(v: u32, cmd: &str) -> Request {
    Request { v, cmd: cmd.to_string(), key: None, minutes: None, path: None }
}

fn health() -> GateHealth {
    let none = || Reading { values: None };
    Gate::start(true, true, None).unwrap().health(&KernelStats {
        marks: none(),
        events: none(),
        ringbuf_full: none(),
        uid_switch_events: none(),
        uid_switch_ringbuf_full: none(),
        probe_read_failures: none(),
    })
}

fn engine() -> Engine {
    let mut r = Rules { version: 1, settings: Settings::default(), apps: StrMap::new(), groups: StrMap::new() };
    r.apps.insert("0:com.a".to_string(), AppRule { enabled: true, rules: RuleSet::default() });
    let mut u = StrMap::new();
    u.insert("0:com.a".to_string(), 10001);
    let mut e = Engine::new(1000);
    let _ = e.reload(Some(r), None, StrSet::new(), Some(u), None);
    e
}

fn answered(h: Handled) -> Answer {
    match h {
        Handled::Answered { answer } => answer,
        _ => panic!("no answer"),
    }
}

fn refusal(e: &mut Engine, r: &Request) -> String {
    let a = answered(handle(r, e, 2000, &health(), &KillCount::new()));
    assert!(!a.changed && !a.resp.ok && a.resp.v == PROTOCOL_VERSION);
    assert!(matches!(a.resp.data, ReplyData::Empty));
    a.resp.error.unwrap()
}

#[test]
fn an_unknown_version_is_refused() {
    let mut e = engine();
    assert_eq!(
        refusal(&mut e, &req(1, "status")),
        "protocol v1 is not supported by this daemon (v2); reinstall the module"
    );
    assert!(matches!(req(0, "status").command(), Command::Status));
    assert!(matches!(req(2, "status").command(), Command::Status));
}

#[test]
fn an_unknown_command_is_refused() {
    let mut e = engine();
    assert_eq!(refusal(&mut e, &req(2, "explode")), "unknown cmd: explode");
    assert_eq!(refusal(&mut e, &req(2, "apply")), "apply needs a file path");
    let mut r = req(2, "apply");
    r.path = Some(String::new());
    assert_eq!(refusal(&mut e, &r), "apply needs a file path");
}

#[test]
fn reload_and_apply_are_handed_on() {
    let mut e = engine();
    assert!(matches!(handle(&req(0, "reload"), &mut e, 0, &health(), &KillCount::new()), Handled::Reload));
    let mut r = req(2, "apply");
    r.path = Some("/tmp/x".to_string());
    match handle(&r, &mut e, 0, &health(), &KillCount::new()) {
        Handled::Apply { path } => assert_eq!(path, "/tmp/x"),
        _ => panic!("not handed on"),
    }
    let a = reload_answer(None);
    assert!(a.changed && a.resp.ok);
    let a = reload_answer(Some("no".to_string()));
    assert!(!a.changed && !a.resp.ok);
    assert_eq!(a.resp.error.as_deref(), Some("no"));
    let a = apply_answer(Ok(3));
    assert!(a.changed && matches!(a.resp.data, ReplyData::Applied { apps: 3 }));
    let a = apply_answer(Err("bad".to_string()));
    assert!(!a.changed && a.resp.error.as_deref() == Some("bad"));
}

#[test]
fn an_extension_defaults_to_five_minutes() {
    let mut e = engine();
    let mut r = req(2, "extension");
    r.key = Some("0:com.a".to_string());
    let a = answered(handle(&r, &mut e, 2000, &health(), &KillCount::new()));
    assert!(a.changed && a.resp.ok && a.resp.error.is_none());
    assert!(matches!(a.resp.data, ReplyData::Minutes { minutes: 5 }));
    r.minutes = Some(20);
    let a = answered(handle(&r, &mut e, 2000, &health(), &KillCount::new()));
    assert!(matches!(a.resp.data, ReplyData::Minutes { minutes: 20 }));
    assert_eq!(e.counters.extension_until.get(&10001), Some(&3500));
    // Without a key nothing is known.
    assert_eq!(refusal(&mut e, &req(2, "extension")), "unknown app or group key: ");
    assert_eq!(e.counters.extension_until.get(&10001), Some(&3500));
}

#[test]
fn status_changes_nothing() {
    let mut e = engine();
    let a = answered(handle(&req(2, "status"), &mut e, 2000, &health(), &KillCount::new()));
    assert!(!a.changed && a.resp.ok);
    match a.resp.data {
        ReplyData::Status { status } => {
            assert_eq!(status.app_count, 1);
            assert_eq!(status.uptime, 1000);
        }
        _ => panic!("no status"),
    }
    assert_eq!(e.last_tick, None);
}

#[test]
fn answers_carry_the_protocol_version() {
    let r = ok_resp(ReplyData::Empty);
    assert!(r.ok && r.v == 2 && r.error.is_none());
    let r = err_resp("x");
    assert!(!r.ok && r.v == 2 && r.error.as_deref() == Some("x"));
}

// ---------- command line ----------

fn args(list: &[&str]) -> Vec<String> {
    list.iter().map(|s| s.to_string()).collect()
}

#[test]
fn the_first_argument_selects_the_mode() {
    assert_eq!(invocation(&args(&["ningshi"])), Invocation::Daemon);
    assert_eq!(invocation(&args(&[])), Invocation::Daemon);
    assert_eq!(invocation(&args(&["ningshi", "whatever"])), Invocation::Daemon);
    for c in ["status", "reload", "extension", "apply"] {
        assert_eq!(invocation(&args(&["ningshi", c])), Invocation::Client);
    }
    assert_eq!(invocation(&args(&["ningshi", "clear_log"])), Invocation::ClearLog);
    assert_eq!(invocation(&args(&["ningshi", "version"])), Invocation::Version);
    assert_eq!(invocation(&args(&["ningshi", "--version"])), Invocation::Version);
}

#[test]
fn the_client_builds_its_request() {
    let r = cli(&args(&["ningshi", "extension", "0:com.a", "20"]));
    assert_eq!((r.v, r.cmd.as_str(), r.key.as_deref(), r.minutes), (2, "extension", Some("0:com.a"), Some(20)));
    let r = cli(&args(&["ningshi", "extension", "g", "many"]));
    assert_eq!((r.key.as_deref(), r.minutes), (Some("g"), None));
    let r = cli(&args(&["ningshi", "apply", "/x", "3"]));
    assert_eq!((r.path.as_deref(), r.key, r.minutes), (Some("/x"), None, None));
    let r = cli(&args(&["ningshi", "status", "y"]));
    assert_eq!((r.cmd.as_str(), r.path, r.key), ("status", None, None));
}

#[test]
fn another_build_is_pointed_out() {
    assert_eq!(version_warning("0.4.3"), None);
    assert_eq!(
        version_warning("0.4.2").as_deref(),
        Some("warning: daemon is v0.4.2, this binary is v0.4.3; reinstall the module")
    );
}

// ---------- package events ----------

fn event(name: &[u8], pad: usize) -> Vec<u8> {
    let mut v = vec![1, 0, 0, 0, 0x80, 0, 0, 0, 0, 0, 0, 0];
    let len = (name.len() + pad) as u32;
    v.extend_from_slice(&len.to_le_bytes());
    v.extend_from_slice(name);
    v.extend(vec![0u8; pad]);
    v
}

#[test]
fn only_the_package_list_wakes_the_engine() {
    assert!(!drain_inotify(&[]));
    assert!(drain_inotify(&event(b"packages.list", 3)));
    assert!(drain_inotify(&event(b"packages.list", 0)));
    assert!(!drain_inotify(&event(b"packages.list.tmp", 3)));
    assert!(!drain_inotify(&event(b"packages.xml", 4)));
    assert!(!drain_inotify(&event(b"", 0)));
    let mut two = event(b"appops.xml", 6);
    two.extend(event(b"packages.list", 3));
    assert!(drain_inotify(&two));
    // A cut-off event ends the walk.
    assert!(!drain_inotify(&two[..two.len() - 1]));
}

// ---------- main loop ----------

#[test]
fn the_loop_waits_for_the_next_tick() {
    assert_eq!(wait_ms(1000, 1000), 0);
    assert_eq!(wait_ms(2000, 1000), 0);
    assert_eq!(wait_ms(1000, 16000), 15000);
    assert_eq!(wait_ms(0, u64::MAX), i32::MAX);
    assert!(tick_due(10, 10, false));
    assert!(!tick_due(9, 10, false));
    assert!(tick_due(9, 10, true));
}

// ---------- paths ----------

#[test]
fn files_have_their_places() {
    assert_eq!(module_file("x"), "/data/adb/modules/ningshi/x");
    assert_eq!(data_file("x"), "/data/adb/ningshi/x");
    assert_eq!(rules_path(), "/data/adb/ningshi/rules.json");
    assert_eq!(rules_backup_path(), "/data/adb/ningshi/rules.json.ok");
    assert_eq!(cgroup_path(1), "/sys/fs/cgroup/apps/uid_1/cgroup.procs");
    for p in [lock_path(), state_path(), socket_path(), log_path()] {
        assert!(p.starts_with("/data/adb/"));
    }
}
