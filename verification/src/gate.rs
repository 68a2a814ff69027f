//! Gate: deterministic detect-then-kill, as far as it decides anything.
//!
//! Two kernel anchors, either of which is enough, report a process of a blocked
//! uid before its code runs. Each reported pid is queued, and it is killed the
//! moment its oom_score_adj becomes 0 (attach handshake done -> the process is
//! foreground), or after a timeout that catches background launches that never
//! reach foreground. Every kill re-checks the block list and the identity of the
//! process first.

use std::collections::HashMap;

use vstd::prelude::*;

use crate::decide::{
    a_block_is_asked_for, app_says, blocked_as, claims_come_from_rules, group_says, some_rule_asks,
    BlockIndex, SituationView,
};
use crate::number::{decimal, decimal_reads_back, i32_of, is_digit, parse_i32, signs_are_read};
use crate::pm::key_package;
use crate::proc::{cmdline_package, pkg_from_cmdline, uid_in};
use crate::rules::Rules;
use crate::text::{is_blank, trim, trimmed, trimming_takes_off_white_space, views};
use crate::uids::map_keys;

verus! {

broadcast use vstd::std_specs::hash::group_hash_axioms;

/// How long the killer waits between two looks at the pending pids.
pub const POLL_MS: u64 = 5;

/// How long a pid may stay in the background before it is killed there.
pub const TIMEOUT_MS: u64 = 300;

/// One spawn may emit several events while dying: events of a pid are dropped
/// for this long after one was taken.
pub const DEBOUNCE_SECS: u64 = 5;

/// How many taken pids are remembered before the old ones are forgotten.
pub const RECENT_MAX: usize = 64;

/// How long a taken pid is remembered at least.
pub const RECENT_SECS: u64 = 10;

// ---------------------------------------------------------------------------
// Anchors
// ---------------------------------------------------------------------------

/// The kernel function that every outgoing transaction goes through.
pub const BINDER_SYMBOL: &'static str = "binder_transaction";

/// The kernel functions that a change of uid goes through.
#[derive(Debug, Clone, Copy, PartialEq, Eq, Structural)]
pub enum UidSwitch {
    /// every credential change
    CommitCreds,
    /// the system call that zygote's child makes
    SetResUid,
}

impl UidSwitch {
    /// What to try first: every credential change goes through it, whichever
    /// system call makes it.
    pub fn first() -> (r: UidSwitch)
        ensures
            r == UidSwitch::CommitCreds,
    {
        UidSwitch::CommitCreds
    }

    /// The kernel's name of the function.
    pub open spec fn name(self) -> Seq<char> {
        match self {
            UidSwitch::CommitCreds => "commit_creds"@,
            UidSwitch::SetResUid => "__arm64_sys_setresuid"@,
        }
    }

    /// The kernel's name of the function.
    pub fn symbol(self) -> (r: &'static str)
        ensures
            r@ == self.name(),
    {
        match self {
            UidSwitch::CommitCreds => "commit_creds",
            UidSwitch::SetResUid => "__arm64_sys_setresuid",
        }
    }

    /// What to try when this one cannot be attached.
    pub fn fallback(self) -> (r: Option<UidSwitch>)
        ensures
            r == (match self {
                UidSwitch::CommitCreds => Some(UidSwitch::SetResUid),
                UidSwitch::SetResUid => None,
            }),
    {
        match self {
            UidSwitch::CommitCreds => Some(UidSwitch::SetResUid),
            UidSwitch::SetResUid => None,
        }
    }
}

/// Which anchors are attached plus the counters kept on both sides. A degrading
/// gate must never be invisible.
#[derive(Debug, Clone, Copy, PartialEq, Eq, Structural)]
pub struct GateHealth {
    pub binder_entry: bool,
    pub binder_exit: bool,
    pub uid_switch: bool,
    /// the symbol that the uid-switch anchor uses
    pub uid_switch_symbol: Option<UidSwitch>,
    /// blocked transactions marked at entry
    pub marks: u64,
    /// events emitted by the binder anchor
    pub events: u64,
    /// ring buffer full: binder events lost
    pub ringbuf_full: u64,
    /// events emitted by the uid-switch anchor
    pub uid_switch_events: u64,
    /// ring buffer full: uid-switch events lost
    pub uid_switch_ringbuf_full: u64,
    /// target handle could not be read
    pub probe_read_failures: u64,
    /// queued kills dropped because the uid was no longer blocked
    pub kill_skipped: u64,
    /// queued kills dropped because the process is not one the user blocked
    pub identity_skipped: u64,
}

/// Why the kernel gate cannot start.
#[derive(Debug, Clone, Copy, PartialEq, Eq, Structural)]
pub enum GateError {
    /// no anchor that could catch a launch is attached
    NoAnchor,
}

impl GateError {
    /// The error in words.
    pub open spec fn text(self) -> Seq<char> {
        "no usable kernel anchor: neither binder_transaction nor __arm64_sys_setresuid could be attached"@
    }

    /// The error in words.
    pub fn message(&self) -> (r: String)
        ensures
            r@ == self.text(),
    {
        "no usable kernel anchor: neither binder_transaction nor __arm64_sys_setresuid could be attached".to_owned()
    }
}

impl GateHealth {
    /// Every counter is zero.
    pub open spec fn fresh(self) -> bool {
        &&& self.marks == 0
        &&& self.events == 0
        &&& self.ringbuf_full == 0
        &&& self.uid_switch_events == 0
        &&& self.uid_switch_ringbuf_full == 0
        &&& self.probe_read_failures == 0
        &&& self.kill_skipped == 0
        &&& self.identity_skipped == 0
    }
}

/// The sum of `values`.
pub open spec fn total(values: Seq<u64>) -> nat
    decreases values.len(),
{
    if values.len() == 0 {
        0
    } else {
        total(values.drop_last()) + values.last() as nat
    }
}

/// The value of a counter that is kept on every CPU: the sum, wrapping around at
/// 64 bits, or zero where it cannot be read.
pub open spec fn counter_value(reading: Option<Seq<u64>>) -> u64 {
    match reading {
        Some(values) => (total(values) % 0x1_0000_0000_0000_0000) as u64,
        None => 0,
    }
}

/// What the kernel keeps of each counter on every CPU.
#[derive(Debug)]
pub struct Reading {
    pub values: Option<Vec<u64>>,
}

impl View for Reading {
    type V = Option<Seq<u64>>;

    open spec fn view(&self) -> Option<Seq<u64>> {
        match self.values {
            Some(v) => Some(v@),
            None => None,
        }
    }
}

impl Reading {
    /// The value of the counter.
    pub fn value(&self) -> (r: u64)
        ensures
            r == counter_value(self@),
    {
        match &self.values {
            None => 0,
            Some(v) => {
                let mut sum: u64 = 0;
                let mut i: usize = 0;
                assert(v@.take(0) =~= Seq::empty());
                while i < v.len()
                    invariant
                        i <= v@.len(),
                        sum == total(v@.take(i as int)) % 0x1_0000_0000_0000_0000,
                    decreases v@.len() - i,
                {
                    assert(v@.take(i + 1).drop_last() =~= v@.take(i as int));
                    sum = sum.wrapping_add(v[i]);
                    i = i + 1;
                }
                assert(v@.take(i as int) =~= v@);
                sum
            },
        }
    }
}

/// The counters that the kernel keeps.
#[derive(Debug)]
pub struct KernelStats {
    pub marks: Reading,
    pub events: Reading,
    pub ringbuf_full: Reading,
    pub uid_switch_events: Reading,
    pub uid_switch_ringbuf_full: Reading,
    pub probe_read_failures: Reading,
}

// ---------------------------------------------------------------------------
// Events
// ---------------------------------------------------------------------------

/// The little-endian number in the four bytes from `i` on.
pub open spec fn word_at(b: Seq<u8>, i: int) -> u32 {
    (b[i] + b[i + 1] * 0x100 + b[i + 2] * 0x1_0000 + b[i + 3] * 0x100_0000) as u32
}

/// Reads the little-endian number in the four bytes from `i` on.
pub fn read_word(b: &[u8], i: usize) -> (r: u32)
    requires
        i + 4 <= b@.len(),
    ensures
        r == word_at(b@, i as int),
{
    b[i] as u32 + b[i + 1] as u32 * 0x100 + b[i + 2] as u32 * 0x1_0000 + b[i + 3] as u32 * 0x100_0000
}

/// A process of a blocked uid that the kernel reported.
#[derive(Debug, Clone, Copy, PartialEq, Eq, Structural)]
pub struct Event {
    pub pid: u32,
    pub uid: u32,
}

/// Decodes an event of the ring buffer: the pid, then the uid. One that is too
/// short is dropped.
pub fn decode_event(item: &[u8]) -> (r: Option<Event>)
    ensures
        match r {
            Some(e) => item@.len() >= 8 && e.pid == word_at(item@, 0) && e.uid == word_at(item@, 4),
            None => item@.len() < 8,
        },
{
    if item.len() < 8 {
        None
    } else {
        Some(Event { pid: read_word(item, 0), uid: read_word(item, 4) })
    }
}

/// The pids that were taken lately, and when (in milliseconds of a clock that
/// never goes back).
#[derive(Debug)]
pub struct Debounce {
    pub recent: HashMap<u32, u64>,
}

/// Whole seconds from `then` to `now`.
pub open spec fn secs_since(then: u64, now: u64) -> u64 {
    if now >= then {
        ((now - then) / 1000) as u64
    } else {
        0
    }
}

/// The entries of `recent` that are not old yet.
pub open spec fn unforgotten(recent: Map<u32, u64>, now: u64) -> Map<u32, u64> {
    Map::new(
        |pid: u32| recent.contains_key(pid) && secs_since(recent[pid], now) < RECENT_SECS,
        |pid: u32| recent[pid],
    )
}

/// Takes the old entries out of `recent`.
fn forget_old(recent: &mut HashMap<u32, u64>, now: u64)
    ensures
        final(recent)@ == unforgotten(old(recent)@, now),
{
    let ks = map_keys(recent);
    let mut i: usize = 0;
    while i < ks.len()
        invariant
            i <= ks@.len(),
            ks@.no_duplicates(),
            ks@.to_set() == old(recent)@.dom(),
            forall|k: u32| #[trigger]
                recent@.contains_key(k) <==> old(recent)@.contains_key(k) && (secs_since(
                    old(recent)@[k],
                    now,
                ) < RECENT_SECS || exists|j: int| i <= j < ks@.len() && #[trigger] ks@[j] == k),
            forall|k: u32| #[trigger]
                recent@.contains_key(k) ==> recent@[k] == old(recent)@[k],
        decreases ks@.len() - i,
    {
        let k: u32 = ks[i];
        assert(ks@.to_set().contains(k));
        let t: u64 = match recent.get(&k) {
            Some(t) => *t,
            None => 0,
        };
        if now.saturating_sub(t) / 1000 >= RECENT_SECS {
            let _ = recent.remove(&k);
        }
        i = i + 1;
    }
    assert(recent@ =~= unforgotten(old(recent)@, now));
}

impl Debounce {
    /// No pid was taken.
    pub fn new() -> (r: Self)
        ensures
            r.recent@ == Map::<u32, u64>::empty(),
    {
        Debounce { recent: HashMap::new() }
    }

    /// Whether `pid` was taken a moment ago.
    pub open spec fn holds(&self, pid: u32, now: u64) -> bool {
        self.recent@.contains_key(pid) && secs_since(self.recent@[pid], now) < DEBOUNCE_SECS
    }

    /// Whether this is what `before` becomes by an event of `pid` at `now`, and `r`
    /// whether the event was taken.
    pub open spec fn took(&self, before: Debounce, pid: u32, now: u64, r: bool) -> bool {
        &&& r == !before.holds(pid, now)
        &&& self.recent@ == if r {
            let taken = before.recent@.insert(pid, now);
            if taken.len() > RECENT_MAX {
                unforgotten(taken, now)
            } else {
                taken
            }
        } else {
            before.recent@
        }
    }

    /// Takes an event of `pid`, unless one was taken a moment ago: kill and
    /// count once.
    pub fn take(&mut self, pid: u32, now: u64) -> (r: bool)
        ensures
            final(self).took(*old(self), pid, now, r),
    {
        if let Some(t) = self.recent.get(&pid) {
            if now.saturating_sub(*t) / 1000 < DEBOUNCE_SECS {
                return false;
            }
        }
        let _ = self.recent.insert(pid, now);
        if self.recent.len() > RECENT_MAX {
            forget_old(&mut self.recent, now);
        }
        true
    }
}

// ---------------------------------------------------------------------------
// The killer
// ---------------------------------------------------------------------------

/// What a pid's oom_score_adj file says. None when the pid already exited.
pub open spec fn adj_of(content: Option<Seq<char>>) -> Option<i32> {
    match content {
        Some(s) => i32_of(trimmed(s)),
        None => None,
    }
}

/// Read a pid's oom_score_adj from the content of its file (None when the pid
/// already exited). A value of 0 means the process is the foreground app: at the
/// attach boundary the value is still -1000 (inherited from zygote), and it flips
/// to 0 a few ms later once the attach handshake is complete -- so 0 is a real,
/// later, deterministic "safe to kill" signal.
pub fn read_oom_score_adj(content: Option<&str>) -> (r: Option<i32>)
    ensures
        r == adj_of(
            match content {
                Some(s) => Some(s@),
                None => None,
            },
        ),
{
    match content {
        Some(s) => parse_i32(trim(s).as_str()),
        None => None,
    }
}

/// What happens to a pending pid.
#[derive(Debug, Clone, Copy, PartialEq, Eq, Structural)]
pub enum Verdict {
    /// it already exited: forget it
    Gone,
    /// it is foreground: kill it now, before the first frame is drawn
    KillForeground,
    /// it never became foreground: kill it
    KillTimeout,
    /// look again later
    Wait,
}

/// What happens to a pending pid that exited or not, whose oom_score_adj reads
/// `adj`, and that was queued `waited_ms` ago.
pub open spec fn verdict_of(exited: bool, adj: Option<i32>, waited_ms: u64) -> Verdict {
    if exited || adj is None {
        Verdict::Gone
    } else if adj == Some(0i32) {
        Verdict::KillForeground
    } else if waited_ms >= TIMEOUT_MS {
        Verdict::KillTimeout
    } else {
        Verdict::Wait
    }
}

/// What happens to a pending pid that exited or not, whose oom_score_adj reads
/// `adj`, and that was queued `waited_ms` ago.
pub fn verdict(exited: bool, adj: Option<i32>, waited_ms: u64) -> (r: Verdict)
    ensures
        r == verdict_of(exited, adj, waited_ms),
{
    if exited {
        return Verdict::Gone;
    }
    match adj {
        None => Verdict::Gone,
        Some(a) => if a == 0 {
            Verdict::KillForeground
        } else if waited_ms >= TIMEOUT_MS {
            Verdict::KillTimeout
        } else {
            Verdict::Wait
        },
    }
}

/// A reported process, pinned by a pidfd so that a recycled pid number can never
/// redirect a kill.
#[derive(Debug, Clone, Copy, PartialEq, Eq, Structural)]
pub struct Pending {
    pub pidfd: i32,
    pub pid: u32,
    pub uid: u32,
    /// when it was queued, in milliseconds of a clock that never goes back
    pub since_ms: u64,
}

/// The processes that wait for their kill. They are looked at in turn, so a slow
/// background launch never delays a foreground one.
#[derive(Debug)]
pub struct Killer {
    pub pending: Vec<Pending>,
}

/// How long `p` has been waiting.
pub open spec fn waited(p: Pending, now_ms: u64) -> u64 {
    if now_ms >= p.since_ms {
        (now_ms - p.since_ms) as u64
    } else {
        0
    }
}

/// `s` without the entry at `i`, in whose place the last one moves.
pub open spec fn taken_out(s: Seq<Pending>, i: int) -> Seq<Pending> {
    s.update(i, s.last()).drop_last()
}

/// Whether a look at the process at `i` of the queue `before` leaves the queue
/// `after`, and `v` is what happens to that process.
pub open spec fn looked(
    before: Seq<Pending>,
    after: Seq<Pending>,
    i: int,
    exited: bool,
    adj: Option<i32>,
    now_ms: u64,
    v: Verdict,
) -> bool {
    &&& v == verdict_of(exited, adj, waited(before[i], now_ms))
    &&& after == if v == Verdict::Wait {
        before
    } else {
        taken_out(before, i)
    }
}

impl Killer {
    /// Nothing is pending.
    pub fn new() -> (r: Self)
        ensures
            r.pending@ == Seq::<Pending>::empty(),
    {
        Killer { pending: Vec::new() }
    }

    /// How long to wait for the next report, in milliseconds: without end when
    /// nothing is pending (no wakeups while idle), else until the next look.
    pub fn wait(&self) -> (r: Option<u64>)
        ensures
            r == if self.pending@.len() == 0 {
                None
            } else {
                Some(POLL_MS)
            },
    {
        if self.pending.len() == 0 {
            None
        } else {
            Some(POLL_MS)
        }
    }

    /// Queues a process.
    pub fn queue(&mut self, p: Pending)
        ensures
            final(self).pending@ == old(self).pending@.push(p),
    {
        self.pending.push(p);
    }

    /// Looks at the pending process at `i`, which exited or not and whose
    /// oom_score_adj reads `adj`: what happens to it. Unless it waits on, it is
    /// no longer pending.
    pub fn look(
        &mut self,
        i: usize,
        exited: bool,
        adj: Option<i32>,
        now_ms: u64,
    ) -> (r: (Pending, Verdict))
        requires
            i < old(self).pending@.len(),
        ensures
            r.0 == old(self).pending@[i as int],
            looked(old(self).pending@, final(self).pending@, i as int, exited, adj, now_ms, r.1),
    {
        let p: Pending = self.pending[i];
        let v: Verdict = verdict(exited, adj, now_ms.saturating_sub(p.since_ms));
        match v {
            Verdict::Wait => {},
            _ => {
                let _ = self.pending.swap_remove(i);
            },
        }
        (p, v)
    }

    /// Shutdown: every pending process is due right away, so that no blocked app
    /// is left running.
    pub fn drain(&mut self) -> (r: Vec<Pending>)
        ensures
            r@ == old(self).pending@,
            final(self).pending@ == Seq::<Pending>::empty(),
    {
        let mut r: Vec<Pending> = Vec::new();
        std::mem::swap(&mut r, &mut self.pending);
        r
    }
}

/// Whether a queued kill is sent.
#[derive(Debug, Clone, Copy, PartialEq, Eq, Structural)]
pub enum KillDecision {
    /// send it
    Kill,
    /// the uid is no longer blocked
    NotBlocked,
    /// the process does not carry a name that the user blocked for the uid
    OtherApp,
}

/// Whether a kill of a process with the uid `uid` that carries the package name
/// `pkg` is sent.
pub open spec fn kill_decision(
    blocked: Set<u32>,
    index: BlockIndex,
    uid: u32,
    pkg: Option<Seq<char>>,
) -> KillDecision {
    if !blocked.contains(uid) {
        KillDecision::NotBlocked
    } else if pkg is Some && index.lists(uid, pkg.unwrap()) {
        KillDecision::Kill
    } else {
        KillDecision::OtherApp
    }
}

/// Whether a kill of a process with the uid `uid` that carries the package name
/// `pkg` is sent.
pub fn confirm_kill(
    set: &HashMap<u32, u8>,
    index: &BlockIndex,
    uid: u32,
    pkg: &Option<String>,
) -> (r: KillDecision)
    ensures
        r == kill_decision(
            set@.dom(),
            *index,
            uid,
            match *pkg {
                Some(p) => Some(p@),
                None => None,
            },
        ),
{
    if !uid_in(set, uid) {
        return KillDecision::NotBlocked;
    }
    match pkg {
        Some(p) => if index.contains(uid, p.as_str()) {
            KillDecision::Kill
        } else {
            KillDecision::OtherApp
        },
        None => KillDecision::OtherApp,
    }
}

/// Kill only if the uid is still on the block list and the process carries, in
/// its own cmdline, a name that the user blocked for that uid. The kernel-side
/// mark can outlive the rule (the process may be killed by a sweep or a
/// transition before its kretprobe runs), and a uid can be recycled: a kill must
/// never land on an app the user did not block. A cmdline that cannot be read
/// confirms nothing.
pub fn kill_if_blocked(
    set: &HashMap<u32, u8>,
    index: &BlockIndex,
    uid: u32,
    cmdline: Option<&[u8]>,
) -> (r: KillDecision)
    ensures
        r == kill_decision(
            set@.dom(),
            *index,
            uid,
            match cmdline {
                Some(raw) => cmdline_package(raw@),
                None => None,
            },
        ),
{
    let pkg = match cmdline {
        Some(raw) => pkg_from_cmdline(raw),
        None => None,
    };
    confirm_kill(set, index, uid, &pkg)
}

// ---------------------------------------------------------------------------
// Shared state
// ---------------------------------------------------------------------------

/// What the killer and the engine share: which uids are blocked, under which
/// names, and what became of the kills.
#[derive(Debug)]
pub struct Gate {
    /// Mirror of the kernel's block map: a pid that was queued must still be
    /// blocked when the kill is actually sent (a stale mark can otherwise
    /// redirect a kill onto a recycled pid).
    pub blocked_set: HashMap<u32, u8>,
    /// the package names behind the blocks
    pub index: BlockIndex,
    /// which anchors are attached
    pub attached: GateHealth,
    /// kills refused because the uid was no longer blocked
    pub kill_skipped: u64,
    /// kills refused because the process is not one the user blocked
    pub identity_skipped: u64,
}

/// `n` and one more, wrapping around at 64 bits.
pub open spec fn one_more(n: u64) -> u64 {
    if n == u64::MAX {
        0
    } else {
        (n + 1) as u64
    }
}

impl Gate {
    /// A kernel gate with the anchors that could be attached, which blocks
    /// nothing yet.
    /// The exit probe alone catches nothing: the binder entry or the uid switch
    /// has to be there.
    pub fn start(
        binder_entry: bool,
        binder_exit: bool,
        uid_switch: Option<UidSwitch>,
    ) -> (r: Result<
        Gate,
        GateError,
    >)
        ensures
            match r {
                Ok(g) => {
                    &&& binder_entry || uid_switch is Some
                    &&& g.attached.fresh()
                    &&& g.attached.binder_entry == binder_entry
                    &&& g.attached.binder_exit == binder_exit
                    &&& g.attached.uid_switch == (uid_switch is Some)
                    &&& g.attached.uid_switch_symbol == uid_switch
                    &&& g.blocked_set@ == Map::<u32, u8>::empty()
                    &&& g.index.wf()
                    &&& forall|uid: u32, pkg: Seq<char>| !#[trigger] g.index.lists(uid, pkg)
                    &&& g.kill_skipped == 0
                    &&& g.identity_skipped == 0
                },
                Err(e) => !binder_entry && uid_switch is None && e == GateError::NoAnchor,
            },
    {
        let switched: bool = match uid_switch {
            Some(_) => true,
            None => false,
        };
        if !binder_entry && !switched {
            return Err(GateError::NoAnchor);
        }
        let attached = GateHealth {
            binder_entry,
            binder_exit,
            uid_switch: switched,
            uid_switch_symbol: uid_switch,
            marks: 0,
            events: 0,
            ringbuf_full: 0,
            uid_switch_events: 0,
            uid_switch_ringbuf_full: 0,
            probe_read_failures: 0,
            kill_skipped: 0,
            identity_skipped: 0,
        };
        Ok(
            Gate {
                blocked_set: HashMap::new(),
                index: BlockIndex::new(),
                attached,
                kill_skipped: 0,
                identity_skipped: 0,
            },
        )
    }

    /// Takes note that the kernel's block map has `uid`, or no longer has it.
    pub fn set_blocked(&mut self, uid: u32, blocked: bool)
        ensures
            final(self).blocked_set@ == if blocked {
                old(self).blocked_set@.insert(uid, 1)
            } else {
                old(self).blocked_set@.remove(uid)
            },
            *final(self) == (Gate { blocked_set: final(self).blocked_set, ..*old(self) }),
    {
        if blocked {
            let _ = self.blocked_set.insert(uid, 1);
        } else {
            let _ = self.blocked_set.remove(&uid);
        }
    }

    /// Takes over the package names behind the blocks.
    pub fn set_block_index(&mut self, index: BlockIndex)
        ensures
            *final(self) == (Gate { index, ..*old(self) }),
    {
        self.index = index;
    }

    /// Whether this is what `before` becomes by the decision `r` on a queued kill of a
    /// process with the uid `uid` that carries the package name `pkg`.
    pub open spec fn settled(
        &self,
        before: Gate,
        uid: u32,
        pkg: Option<Seq<char>>,
        r: KillDecision,
    ) -> bool {
        &&& r == kill_decision(before.blocked_set@.dom(), before.index, uid, pkg)
        &&& *self == (Gate {
            kill_skipped: if r is NotBlocked {
                one_more(before.kill_skipped)
            } else {
                before.kill_skipped
            },
            identity_skipped: if r is OtherApp {
                one_more(before.identity_skipped)
            } else {
                before.identity_skipped
            },
            ..before
        })
    }

    /// Decides on a queued kill of a process with the uid `uid` and the command
    /// line `cmdline`, and counts it when it is refused.
    pub fn settle(&mut self, uid: u32, cmdline: Option<&[u8]>) -> (r: KillDecision)
        ensures
            final(self).settled(
                *old(self),
                uid,
                match cmdline {
                    Some(raw) => cmdline_package(raw@),
                    None => None,
                },
                r,
            ),
    {
        let d: KillDecision = kill_if_blocked(&self.blocked_set, &self.index, uid, cmdline);
        match d {
            KillDecision::Kill => {},
            KillDecision::NotBlocked => {
                self.kill_skipped = self.kill_skipped.wrapping_add(1);
            },
            KillDecision::OtherApp => {
                self.identity_skipped = self.identity_skipped.wrapping_add(1);
            },
        }
        d
    }

    /// Attach state plus the counters of both sides, for `status`.
    pub fn health(&self, stats: &KernelStats) -> (r: GateHealth)
        ensures
            r == (GateHealth {
                marks: counter_value(stats.marks@),
                events: counter_value(stats.events@),
                ringbuf_full: counter_value(stats.ringbuf_full@),
                uid_switch_events: counter_value(stats.uid_switch_events@),
                uid_switch_ringbuf_full: counter_value(stats.uid_switch_ringbuf_full@),
                probe_read_failures: counter_value(stats.probe_read_failures@),
                kill_skipped: self.kill_skipped,
                identity_skipped: self.identity_skipped,
                ..self.attached
            }),
    {
        GateHealth {
            binder_entry: self.attached.binder_entry,
            binder_exit: self.attached.binder_exit,
            uid_switch: self.attached.uid_switch,
            uid_switch_symbol: self.attached.uid_switch_symbol,
            marks: stats.marks.value(),
            events: stats.events.value(),
            ringbuf_full: stats.ringbuf_full.value(),
            uid_switch_events: stats.uid_switch_events.value(),
            uid_switch_ringbuf_full: stats.uid_switch_ringbuf_full.value(),
            probe_read_failures: stats.probe_read_failures.value(),
            kill_skipped: self.kill_skipped,
            identity_skipped: self.identity_skipped,
        }
    }
}

// ---------------------------------------------------------------------------
// Laws
// ---------------------------------------------------------------------------

/// A kill is sent only to a process of a blocked uid that carries a name the
/// user blocked for that uid; a uid recycled by another app is never hit.
pub proof fn kills_only_what_was_blocked(
    blocked: Set<u32>,
    index: BlockIndex,
    uid: u32,
    pkg: Option<Seq<char>>,
)
    ensures
        kill_decision(blocked, index, uid, pkg) is Kill <==> blocked.contains(uid)
            && pkg is Some && index.lists(uid, pkg.unwrap()),
{
}

/// With the names of a decision, a kill lands only on a package that some rule
/// names for that uid and blocks right now, and never on a protected one.
pub proof fn kills_follow_the_rules(
    s: SituationView,
    rules: Rules,
    blocked: Set<u32>,
    index: BlockIndex,
    uid: u32,
    pkg: Option<Seq<char>>,
)
    requires
        rules.wf(),
        forall|u: u32, p: Seq<char>| #[trigger]
            index.lists(u, p) == blocked_as(s.claims(rules), u, p),
        kill_decision(blocked, index, uid, pkg) is Kill,
    ensures
        exists|key: Seq<char>| #[trigger]
            s.subject(key) == Some(uid) && key_package(key) == pkg,
        some_rule_asks(s, rules, uid),
        blocked_as(s.claims(rules), uid, pkg.unwrap()),
{
    let p = pkg.unwrap();
    assert(index.lists(uid, p));
    let cs = s.claims(rules);
    let i = choose|i: int|
        0 <= i < cs.len() && (#[trigger] cs[i]).uid == uid && cs[i].block && cs[i].pkg == Some(p);
    claims_come_from_rules(s, rules, i);
    a_block_is_asked_for(s, rules, cs[i]);
    if exists|k: int| #[trigger] app_says(s, rules.apps.keys(), rules.apps.vals(), k, cs[i]) {
        let k = choose|k: int| #[trigger]
            app_says(s, rules.apps.keys(), rules.apps.vals(), k, cs[i]);
        assert(s.subject(rules.apps.keys()[k]) == Some(uid));
    } else {
        let (k, m) = choose|k: int, m: int| #[trigger]
            group_says(s, rules.groups.keys(), rules.groups.vals(), k, m, cs[i]);
        assert(s.subject(views(rules.groups.vals()[k].members@)[m]) == Some(uid));
    }
}

/// An event that was taken holds its pid until the end of the debounce time.
pub proof fn a_taken_pid_is_held(before: Debounce, taken: Debounce, pid: u32, now: u64, later: u64)
    requires
        !before.holds(pid, now),
        taken.recent@ == (if before.recent@.insert(pid, now).len() > RECENT_MAX {
            unforgotten(before.recent@.insert(pid, now), now)
        } else {
            before.recent@.insert(pid, now)
        }),
        now <= later < now + DEBOUNCE_SECS * 1000,
    ensures
        taken.holds(pid, later),
{
}

/// Forgetting old pids never forgets one that is still held.
pub proof fn pruning_keeps_what_is_held(recent: Map<u32, u64>, pid: u32, now: u64)
    requires
        recent.contains_key(pid),
        secs_since(recent[pid], now) < DEBOUNCE_SECS,
    ensures
        unforgotten(recent, now).contains_key(pid),
        unforgotten(recent, now)[pid] == recent[pid],
{
}

/// No reported process waits longer than the timeout: by then it has exited or
/// is killed.
pub proof fn nothing_waits_past_the_timeout(p: Pending, exited: bool, adj: Option<i32>, now_ms: u64)
    requires
        now_ms >= p.since_ms + TIMEOUT_MS,
    ensures
        verdict_of(exited, adj, waited(p, now_ms)) != Verdict::Wait,
{
}

/// Taking one process out of the queue leaves all others in it.
pub proof fn taking_one_out_leaves_the_others(s: Seq<Pending>, i: int)
    requires
        0 <= i < s.len(),
    ensures
        taken_out(s, i).to_multiset() == s.to_multiset().remove(s[i]),
{
    broadcast use vstd::seq_lib::group_to_multiset_ensures;

    let t = s.update(i, s.last());
    assert(t =~= t.drop_last().push(s.last()));
    vstd::seq_lib::to_multiset_update(s, i, s.last());
    assert(t.to_multiset() == t.drop_last().to_multiset().insert(s.last()));
    assert(s.contains(s[i]));
    let rest = t.drop_last().to_multiset();
    assert(s.to_multiset().count(s[i]) > 0);
    assert(rest.insert(s.last()).remove(s.last()) =~= rest);
    assert(s.to_multiset().insert(s.last()).remove(s[i]).remove(s.last())
        =~= s.to_multiset().remove(s[i]));
}

/// A pending process is given up as gone only if it has exited or its state can no
/// longer be read.
pub proof fn only_a_gone_process_is_given_up(exited: bool, adj: Option<i32>, waited_ms: u64)
    ensures
        verdict_of(exited, adj, waited_ms) == Verdict::Gone <==> exited || adj is None,
{
}

/// A process that is there is killed: at once when it is in the foreground, and
/// wherever it is once it has waited 300 ms; until then one in the background waits.
pub proof fn a_living_process_is_killed(adj: i32, waited_ms: u64)
    ensures
        adj == 0 ==> verdict_of(false, Some(adj), waited_ms) == Verdict::KillForeground,
        adj != 0 && waited_ms >= 300 ==> verdict_of(false, Some(adj), waited_ms)
            == Verdict::KillTimeout,
        adj != 0 && waited_ms < 300 ==> verdict_of(false, Some(adj), waited_ms) == Verdict::Wait,
{
}

/// A process waits from the moment it was queued.
pub proof fn a_process_waits_since_it_was_queued(p: Pending, now_ms: u64)
    ensures
        now_ms >= p.since_ms ==> p.since_ms + waited(p, now_ms) == now_ms,
        now_ms < p.since_ms ==> waited(p, now_ms) == 0,
{
}

/// Looking at one pending process leaves every other in the queue, and that one
/// only while it waits.
pub proof fn a_look_takes_out_one_at_most(s: Seq<Pending>, i: int, p: Pending)
    requires
        0 <= i < s.len(),
    ensures
        taken_out(s, i).len() == s.len() - 1,
        taken_out(s, i).contains(p) ==> s.contains(p),
        s.contains(p) && p != s[i] ==> taken_out(s, i).contains(p),
{
    let t = taken_out(s, i);
    if t.contains(p) {
        let k = t.index_of(p);
        if k == i {
            assert(s[s.len() - 1] == p);
        } else {
            assert(s[k] == p);
        }
    }
    if s.contains(p) && p != s[i] {
        let k = s.index_of(p);
        if k < s.len() - 1 {
            assert(t[k] == p);
        } else {
            assert(t[i] == p);
        }
    }
}

/// Events of a pid are dropped for five seconds after one was taken, and taken
/// again from then on; what other pids do does not matter.
pub proof fn a_pid_is_held_for_five_seconds(d: Debounce, pid: u32, now: u64)
    ensures
        !d.recent@.contains_key(pid) ==> !d.holds(pid, now),
        d.recent@.contains_key(pid) && now < d.recent@[pid] + 5000 ==> d.holds(pid, now),
        d.recent@.contains_key(pid) && now >= d.recent@[pid] + 5000 ==> !d.holds(pid, now),
{
}

/// A pid is forgotten when it was taken ten seconds ago or more, and not before.
pub proof fn old_pids_are_forgotten(recent: Map<u32, u64>, pid: u32, now: u64)
    requires
        recent.contains_key(pid),
    ensures
        unforgotten(recent, now).contains_key(pid) <==> now < recent[pid] + 10000,
{
}

/// A kill is refused as not blocked exactly when the uid is not blocked, and as
/// another app's when it is but the name is not one that was blocked.
pub proof fn a_kill_is_refused_for_its_reason(
    blocked: Set<u32>,
    index: BlockIndex,
    uid: u32,
    pkg: Option<Seq<char>>,
)
    ensures
        kill_decision(blocked, index, uid, pkg) is NotBlocked <==> !blocked.contains(uid),
        kill_decision(blocked, index, uid, pkg) is OtherApp <==> blocked.contains(uid) && (pkg is None
            || !index.lists(uid, pkg.unwrap())),
{
}

/// A counter is the sum over all CPUs: one value is itself, two parts add up, and
/// what cannot be read counts as nothing.
pub proof fn counters_add_up_over_cpus(a: Seq<u64>, b: Seq<u64>, v: u64)
    ensures
        total(Seq::empty()) == 0,
        total(seq![v]) == v,
        total(a + b) == total(a) + total(b),
        counter_value(None) == 0,
        total(a) <= u64::MAX ==> counter_value(Some(a)) == total(a),
    decreases b.len(),
{
    reveal_with_fuel(total, 2);
    assert(seq![v].drop_last() =~= Seq::<u64>::empty());
    if b.len() > 0 {
        counters_add_up_over_cpus(a, b.drop_last(), v);
        assert((a + b).drop_last() =~= a + b.drop_last());
        assert((a + b).last() == b.last());
    } else {
        assert(a + b =~= a);
    }
}

/// The four bytes of a number, lowest first, are read as that number, wherever they
/// stand.
pub proof fn words_are_read_lowest_byte_first(before: Seq<u8>, n: u32, after: Seq<u8>)
    ensures
        ({
            let bytes = seq![
                (n % 0x100) as u8,
                (n / 0x100 % 0x100) as u8,
                (n / 0x1_0000 % 0x100) as u8,
                (n / 0x100_0000) as u8,
            ];
            word_at(before + bytes + after, before.len() as int) == n
        }),
{
    let bytes = seq![
        (n % 0x100) as u8,
        (n / 0x100 % 0x100) as u8,
        (n / 0x1_0000 % 0x100) as u8,
        (n / 0x100_0000) as u8,
    ];
    let b = before + bytes + after;
    let i = before.len() as int;
    assert(b[i] == bytes[0] && b[i + 1] == bytes[1] && b[i + 2] == bytes[2] && b[i + 3] == bytes[3]);
    assert(n == n % 0x100 + 0x100 * (n / 0x100));
    assert(n / 0x100 == n / 0x100 % 0x100 + 0x100 * (n / 0x1_0000));
    assert(n / 0x1_0000 == n / 0x1_0000 % 0x100 + 0x100 * (n / 0x100_0000));
}

/// A score is read whatever white space stands around it, with its sign; a file that
/// is gone has none.
pub proof fn scores_are_read_with_their_sign(a: Seq<char>, n: u32, b: Seq<char>)
    requires
        is_blank(a),
        is_blank(b),
        n <= i32::MAX,
    ensures
        adj_of(Some(a + decimal(n as nat) + b)) == Some(n as i32),
        adj_of(Some(a + (seq!['-'] + decimal(n as nat)) + b)) == Some((-(n as int)) as i32),
        adj_of(None) is None,
{
    let d = decimal(n as nat);
    decimal_reads_back(n);
    signs_are_read(n);
    assert(is_digit(d[0]) && is_digit(d[d.len() - 1]));
    trimming_takes_off_white_space(a, d, b);
    let m = seq!['-'] + d;
    assert(m.last() == d.last());
    trimming_takes_off_white_space(a, m, b);
}

/// One spawn is taken once: the first event of a pid is, and noted; another within five
/// seconds is not, and changes nothing; later ones are again. Whatever is taken, no
/// other pid that is held becomes free.
pub proof fn a_spawn_is_taken_once(
    before: Debounce,
    after: Debounce,
    pid: u32,
    now: u64,
    r: bool,
    other: u32,
)
    requires
        after.took(before, pid, now, r),
    ensures
        !before.recent@.contains_key(pid) ==> r,
        before.recent@.contains_key(pid) ==> (r <==> now >= before.recent@[pid] + 5000),
        r ==> after.recent@.contains_key(pid) && after.recent@[pid] == now,
        !r ==> after.recent@ == before.recent@,
        other != pid && before.holds(other, now) ==> after.holds(other, now),
        other != pid && after.recent@.contains_key(other) ==> before.recent@.contains_key(other)
            && after.recent@[other] == before.recent@[other],
{
}

/// A pending process stays in the queue while it is there, in the background, and has
/// waited less than 300 ms; otherwise it leaves it, and alone. It is killed unless it
/// has exited or its state cannot be read.
pub proof fn a_look_settles_one_process(
    before: Seq<Pending>,
    after: Seq<Pending>,
    i: int,
    exited: bool,
    adj: Option<i32>,
    now_ms: u64,
    v: Verdict,
    p: Pending,
)
    requires
        0 <= i < before.len(),
        before[i].since_ms <= now_ms,
        looked(before, after, i, exited, adj, now_ms, v),
    ensures
        !exited && adj is Some && adj != Some(0i32) && now_ms - before[i].since_ms < 300
            ==> after == before && v == Verdict::Wait,
        exited || adj is None ==> v == Verdict::Gone,
        !exited && adj == Some(0i32) ==> v == Verdict::KillForeground,
        !exited && adj is Some && adj != Some(0i32) && now_ms - before[i].since_ms >= 300 ==> v
            == Verdict::KillTimeout,
        v != Verdict::Wait ==> after.len() == before.len() - 1,
        before.contains(p) && p != before[i] ==> after.contains(p),
{
    a_look_takes_out_one_at_most(before, i, p);
}

/// A queued kill is sent only where it is confirmed; a refused one is counted under its
/// reason, and nothing else changes.
pub proof fn a_refused_kill_is_counted(
    before: Gate,
    after: Gate,
    uid: u32,
    pkg: Option<Seq<char>>,
    r: KillDecision,
)
    requires
        after.settled(before, uid, pkg, r),
    ensures
        r is Kill <==> before.blocked_set@.contains_key(uid) && pkg is Some && before.index.lists(
            uid,
            pkg.unwrap(),
        ),
        r is NotBlocked <==> !before.blocked_set@.contains_key(uid),
        before.kill_skipped < u64::MAX ==> after.kill_skipped == before.kill_skipped + if r is NotBlocked {
            1int
        } else {
            0
        },
        before.identity_skipped < u64::MAX ==> after.identity_skipped == before.identity_skipped
            + if r is OtherApp {
            1int
        } else {
            0
        },
        after.blocked_set == before.blocked_set,
        after.index == before.index,
        after.attached == before.attached,
{
}

/// A kernel gate that has just been attached has counted nothing.
pub proof fn a_new_gate_has_counted_nothing(h: GateHealth)
    requires
        h.fresh(),
    ensures
        h.marks + h.events + h.ringbuf_full + h.uid_switch_events + h.uid_switch_ringbuf_full
            + h.probe_read_failures + h.kill_skipped + h.identity_skipped == 0,
{
}

/// Milliseconds short of a second do not count, and a moment that is still to come is
/// no time ago.
pub proof fn whole_seconds_pass(then: u64, now: u64)
    ensures
        now <= then ==> secs_since(then, now) == 0,
        now > then ==> secs_since(then, now) * 1000 <= now - then < secs_since(then, now) * 1000
            + 1000,
{
}

} // verus!
