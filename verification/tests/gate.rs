use std::collections::HashMap;

use ningshi::decide::BlockIndex;
use ningshi::gate::{
    confirm_kill, decode_event, kill_if_blocked, read_oom_score_adj, verdict, Debounce, Event, Gate,
    GateError, KernelStats, KillDecision, Killer, Pending, Reading, UidSwitch, Verdict,
};

#[test]
fn one_anchor_is_enough() {
    let g = Gate::start(true, false, None).unwrap();
    assert!(g.attached.binder_entry && !g.attached.binder_exit && !g.attached.uid_switch);
    let g = Gate::start(false, false, Some(UidSwitch::CommitCreds)).unwrap();
    assert!(g.attached.uid_switch);
    assert_eq!(g.attached.uid_switch_symbol, Some(UidSwitch::CommitCreds));
    // The exit probe alone catches nothing.
    let e = Gate::start(false, true, None).unwrap_err();
    assert_eq!(e, GateError::NoAnchor);
    assert_eq!(
        e.message(),
        "no usable kernel anchor: neither binder_transaction nor __arm64_sys_setresuid could be attached"
    );
}

#[test]
fn the_uid_switch_falls_back() {
    assert_eq!(UidSwitch::first(), UidSwitch::CommitCreds);
    assert_eq!(UidSwitch::CommitCreds.symbol(), "commit_creds");
    assert_eq!(UidSwitch::CommitCreds.fallback(), Some(UidSwitch::SetResUid));
    assert_eq!(UidSwitch::SetResUid.symbol(), "__arm64_sys_setresuid");
    assert_eq!(UidSwitch::SetResUid.fallback(), None);
}

#[test]
fn events_are_two_words() {
    let item = [0x39, 0x30, 0, 0, 0x11, 0x27, 0, 0, 0xff];
    assert_eq!(decode_event(&item), Some(Event { pid: 12345, uid: 10001 }));
    assert_eq!(decode_event(&item[..7]), None);
    assert_eq!(decode_event(&[0xff; 8]), Some(Event { pid: u32::MAX, uid: u32::MAX }));
}

#[test]
fn a_pid_is_taken_once() {
    let mut d = Debounce::new();
    assert!(d.take(7, 1000));
    assert!(!d.take(7, 1001));
    assert!(!d.take(7, 5999));
    assert!(d.take(7, 6000));
    assert!(d.take(8, 6000));
}

#[test]
fn old_pids_are_forgotten_when_there_are_many() {
    let mut d = Debounce::new();
    for pid in 0..64u32 {
        assert!(d.take(pid, 0));
    }
    assert_eq!(d.recent.len(), 64);
    assert!(d.take(100, 9_999));
    assert_eq!(d.recent.len(), 65);
    assert!(d.take(101, 10_000));
    assert_eq!(d.recent.len(), 2);
}

#[test]
fn the_score_is_read_from_its_file() {
    assert_eq!(read_oom_score_adj(Some("0\n")), Some(0));
    assert_eq!(read_oom_score_adj(Some(" -1000 ")), Some(-1000));
    assert_eq!(read_oom_score_adj(Some("x")), None);
    assert_eq!(read_oom_score_adj(None), None);
}

#[test]
fn a_pending_pid_is_killed_in_the_foreground() {
    assert_eq!(verdict(true, Some(0), 999), Verdict::Gone);
    assert_eq!(verdict(false, None, 999), Verdict::Gone);
    assert_eq!(verdict(false, Some(0), 0), Verdict::KillForeground);
    assert_eq!(verdict(false, Some(-1000), 299), Verdict::Wait);
    assert_eq!(verdict(false, Some(-1000), 300), Verdict::KillTimeout);
}

#[test]
fn the_queue_is_looked_at_in_turn() {
    let mut k = Killer::new();
    assert_eq!(k.wait(), None);
    let p = |n: u32| Pending { pidfd: n as i32, pid: n, uid: 10000 + n, since_ms: 100 };
    for n in 1..=3 {
        k.queue(p(n));
    }
    assert_eq!(k.wait(), Some(5));
    assert_eq!(k.look(0, false, Some(-1000), 110), (p(1), Verdict::Wait));
    assert_eq!(k.look(0, false, Some(0), 110), (p(1), Verdict::KillForeground));
    assert_eq!(k.pending, vec![p(3), p(2)]);
    assert_eq!(k.look(1, true, None, 110), (p(2), Verdict::Gone));
    assert_eq!(k.look(0, false, Some(5), 400), (p(3), Verdict::KillTimeout));
    assert!(k.pending.is_empty());
    k.queue(p(4));
    assert_eq!(k.drain(), vec![p(4)]);
    assert!(k.pending.is_empty());
}

fn index() -> BlockIndex {
    let mut i = BlockIndex::new();
    i.list(10001, "com.a".to_string());
    i.list(10001, "com.b".to_string());
    i
}

#[test]
fn a_kill_needs_the_block_and_the_name() {
    let mut set: HashMap<u32, u8> = HashMap::new();
    set.insert(10001, 1);
    let i = index();
    assert_eq!(kill_if_blocked(&set, &i, 10001, Some(b"com.a\0")), KillDecision::Kill);
    assert_eq!(kill_if_blocked(&set, &i, 10001, Some(b"com.b:push\0x\0")), KillDecision::Kill);
    // The uid was recycled by another app.
    assert_eq!(kill_if_blocked(&set, &i, 10001, Some(b"com.other\0")), KillDecision::OtherApp);
    assert_eq!(kill_if_blocked(&set, &i, 10001, Some(b"")), KillDecision::OtherApp);
    assert_eq!(kill_if_blocked(&set, &i, 10001, None), KillDecision::OtherApp);
    // The rule is gone.
    assert_eq!(kill_if_blocked(&set, &i, 10002, Some(b"com.a\0")), KillDecision::NotBlocked);
    assert_eq!(confirm_kill(&set, &i, 10001, &Some("com.a".to_string())), KillDecision::Kill);
    assert_eq!(confirm_kill(&set, &i, 10001, &None), KillDecision::OtherApp);
}

#[test]
fn refused_kills_are_counted() {
    let mut g = Gate::start(true, true, None).unwrap();
    g.set_block_index(index());
    assert_eq!(g.settle(10001, Some(b"com.a\0")), KillDecision::NotBlocked);
    g.set_blocked(10001, true);
    assert_eq!(g.settle(10001, Some(b"com.a\0")), KillDecision::Kill);
    assert_eq!(g.settle(10001, Some(b"sh\0")), KillDecision::OtherApp);
    g.set_blocked(10001, false);
    assert_eq!(g.settle(10001, Some(b"com.a\0")), KillDecision::NotBlocked);
    assert_eq!((g.kill_skipped, g.identity_skipped), (2, 1));
}

#[test]
fn counters_are_summed_over_the_cpus() {
    let mut g = Gate::start(true, true, Some(UidSwitch::SetResUid)).unwrap();
    g.set_block_index(index());
    let r = |v: &[u64]| Reading { values: Some(v.to_vec()) };
    let h = g.health(&KernelStats {
        marks: r(&[1, 2]),
        events: r(&[]),
        ringbuf_full: r(&[u64::MAX, 2]),
        uid_switch_events: Reading { values: None },
        uid_switch_ringbuf_full: r(&[5]),
        probe_read_failures: r(&[7, 0, 1]),
    });
    assert_eq!((h.marks, h.events, h.ringbuf_full), (3, 0, 1));
    assert_eq!((h.uid_switch_events, h.uid_switch_ringbuf_full, h.probe_read_failures), (0, 5, 8));
    assert!(h.binder_entry && h.binder_exit && h.uid_switch);
}
