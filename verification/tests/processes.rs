use std::collections::{HashMap, HashSet};

use ningshi::clear::{cgroup_path, cgroup_pids, kill_uid, kill_uids, needs_walk, Listing};
use ningshi::fg::{is_connector, screen_off, top_app_pids, uids_snapshot, Connector};
use ningshi::proc::{kill_pid_if_uid, parse_pid, parse_pids, pkg_from_cmdline, pkg_from_name, uid_in, Process};

#[test]
fn reads_the_package_name() {
    assert_eq!(pkg_from_cmdline(b"com.example.app\0").as_deref(), Some("com.example.app"));
    assert_eq!(pkg_from_cmdline(b"com.example.app\0--flag\0").as_deref(), Some("com.example.app"));
}

#[test]
fn strips_a_secondary_process_suffix() {
    assert_eq!(pkg_from_cmdline(b"com.example.app:remote\0").as_deref(), Some("com.example.app"));
    assert_eq!(pkg_from_cmdline(b"com.example.app:service\0").as_deref(), Some("com.example.app"));
}

#[test]
fn rejects_what_is_not_a_package() {
    // Kernel threads have an empty cmdline; other programs carry their own
    // argv[0], which simply will not match any rule.
    assert_eq!(pkg_from_cmdline(b""), None);
    assert_eq!(pkg_from_cmdline(b"\0"), None);
    assert_eq!(pkg_from_cmdline(b"\0--flag\0"), None);
    assert_eq!(pkg_from_cmdline(b"sh\0").as_deref(), Some("sh"));
}

#[test]
fn bytes_that_are_no_text_are_replaced() {
    assert_eq!(pkg_from_cmdline(b"com.\xff.app\0").as_deref(), Some("com.\u{fffd}.app"));
    assert_eq!(pkg_from_cmdline("凝时\0".as_bytes()).as_deref(), Some("凝时"));
}

#[test]
fn a_process_name_is_trimmed() {
    assert_eq!(pkg_from_name(" com.foo :x").as_deref(), Some("com.foo"));
    assert_eq!(pkg_from_name(" :x"), None);
    assert_eq!(pkg_from_name("com.foo").as_deref(), Some("com.foo"));
}

#[test]
fn pids_up_to_one_are_nobody() {
    assert_eq!(parse_pid("2"), Some(2));
    assert_eq!(parse_pid("1"), None);
    assert_eq!(parse_pid("0"), None);
    assert_eq!(parse_pid("-7"), None);
    assert_eq!(parse_pid("self"), None);
    assert_eq!(parse_pid("2147483648"), None);
    assert_eq!(parse_pids("12 x 1\n-3 40\n"), vec![12, 40]);
}

#[test]
fn the_block_mirror_answers_by_uid() {
    let mut m: HashMap<u32, u8> = HashMap::new();
    m.insert(10001, 1);
    assert!(uid_in(&m, 10001));
    assert!(!uid_in(&m, 10002));
}

#[test]
fn a_recycled_pid_is_not_signalled() {
    assert!(kill_pid_if_uid(Some(10001), 10001));
    assert!(!kill_pid_if_uid(Some(10002), 10001));
    assert!(!kill_pid_if_uid(None, 10001));
}

// ---------- foreground ----------

#[test]
fn the_first_layout_that_lists_pids_counts() {
    let got = top_app_pids(&vec![None, Some("  \n".to_string()), Some("100\n200 1".to_string()), Some("300".to_string())]);
    let want: HashSet<i32> = [100, 200].into_iter().collect();
    assert_eq!(got, want);
    assert!(top_app_pids(&vec![None, Some("0".to_string())]).is_empty());
}

fn procs(list: &[(i32, u32)]) -> Vec<Process> {
    list.iter().map(|&(pid, uid)| Process { pid, uid }).collect()
}

#[test]
fn the_snapshot_tells_live_from_foreground() {
    let top: HashSet<i32> = [11, 12].into_iter().collect();
    let all = procs(&[(10, 10001), (11, 10002), (12, 10002), (13, 10003)]);
    let (live, fg) = uids_snapshot(&top, true, &all);
    assert_eq!(live, [10001, 10002, 10003].into_iter().collect::<HashSet<u32>>());
    assert_eq!(fg, [10002].into_iter().collect::<HashSet<u32>>());
    let (live, fg) = uids_snapshot(&top, false, &procs(&[(11, 10002)]));
    assert!(live.is_empty());
    assert_eq!(fg, [10002].into_iter().collect::<HashSet<u32>>());
}

fn connector(name: &str, dpms: Option<&str>) -> Connector {
    Connector { name: name.to_string(), dpms: dpms.map(|s| s.to_string()) }
}

#[test]
fn the_screen_is_off_only_when_known_to_be() {
    assert!(screen_off(&vec![connector("card0-DSI-1", Some("Off\n"))]));
    assert!(!screen_off(&vec![connector("card0-DSI-1", Some("On\n"))]));
    assert!(!screen_off(&vec![connector("card0-DSI-1", Some("Off")), connector("card0-DP-1", Some("On"))]));
    // Nothing known: the screen is assumed on.
    assert!(!screen_off(&vec![]));
    assert!(!screen_off(&vec![connector("card0-DSI-1", None)]));
    // Virtual displays and what is no connector do not count.
    assert!(!screen_off(&vec![connector("card0-Virtual-1", Some("Off")), connector("card0", Some("Off"))]));
    assert!(screen_off(&vec![connector("card0-Virtual-1", Some("On")), connector("card0-DSI-1", Some("Off"))]));
    assert!(is_connector("card0-DSI-1"));
    assert!(!is_connector("renderD128"));
}

// ---------- cleanup ----------

fn listing(uid: u32, procs: Option<&str>) -> Listing {
    Listing { uid, procs: procs.map(|s| s.to_string()) }
}

#[test]
fn the_cgroup_file_of_a_uid() {
    assert_eq!(cgroup_path(10123), "/sys/fs/cgroup/apps/uid_10123/cgroup.procs");
    assert_eq!(cgroup_pids(&listing(1, None)), None);
    assert_eq!(cgroup_pids(&listing(1, Some(""))), Some(vec![]));
    assert_eq!(cgroup_pids(&listing(1, Some("5\n6\n1\n"))), Some(vec![5, 6]));
}

#[test]
fn a_sweep_covers_every_uid_once() {
    let l = vec![listing(10001, Some("21 22")), listing(10002, None), listing(10003, Some(""))];
    assert!(needs_walk(&l));
    let walked = procs(&[(1, 10002), (22, 10002), (30, 10002), (31, 10003), (32, 10004)]);
    let got = kill_uids(&l, &walked);
    let want: HashMap<i32, u32> = [(21, 10001), (22, 10002), (30, 10002)].into_iter().collect();
    assert_eq!(got, want);
}

#[test]
fn covered_uids_ignore_the_walk() {
    let l = vec![listing(10001, Some("21"))];
    assert!(!needs_walk(&l));
    let got = kill_uids(&l, &procs(&[(50, 10001)]));
    assert_eq!(got, [(21, 10001)].into_iter().collect::<HashMap<i32, u32>>());
    assert!(kill_uids(&vec![], &procs(&[(50, 10001)])).is_empty());
}

#[test]
fn one_uid_is_cleared_alone() {
    let got = kill_uid(10002, None, &procs(&[(30, 10002), (31, 10003)]));
    assert_eq!(got, [(30, 10002)].into_iter().collect::<HashMap<i32, u32>>());
    let got = kill_uid(10002, Some("7".to_string()), &procs(&[(30, 10002)]));
    assert_eq!(got, [(7, 10002)].into_iter().collect::<HashMap<i32, u32>>());
}

#[test]
fn a_helper_suffix_never_matters() {
    for name in ["com.example.app", "sh", "com.пример", " com.a ", ""] {
        for suffix in ["", "remote", "a:b", "служба", " "] {
            assert_eq!(pkg_from_name(&format!("{name}:{suffix}")), pkg_from_name(name));
            assert_eq!(pkg_from_cmdline(format!("{name}:{suffix}\0x").as_bytes()), pkg_from_cmdline(name.as_bytes()));
        }
    }
}
