//! The command line and the main loop, as far as they decide anything.

use vstd::prelude::*;
use vstd::string::*;

use crate::gate::{read_word, word_at};
use crate::number::{decimal, decimal_reads_back, parse_u32, u32_of};
use crate::proc::{argv0, find_zero};
use crate::socket::{a_command_is_what_it_names, CommandView, Request, PROTOCOL_VERSION};
use crate::status::VERSION;
use crate::text::str_eq;

verus! {

// ---------------------------------------------------------------------------
// The command line
// ---------------------------------------------------------------------------

/// What the program was started for.
#[derive(Debug, Clone, Copy, PartialEq, Eq, Structural)]
pub enum Invocation {
    /// to ask the daemon for something
    Client,
    /// to clear the log file
    ClearLog,
    /// to say its version
    Version,
    /// to be the daemon
    Daemon,
}

/// What the program was started for, by its first argument.
pub open spec fn invoked_for(args: Seq<String>) -> Invocation {
    if args.len() < 2 {
        Invocation::Daemon
    } else if args[1]@ == "status"@ || args[1]@ == "reload"@ || args[1]@ == "extension"@
        || args[1]@ == "apply"@ {
        Invocation::Client
    } else if args[1]@ == "clear_log"@ {
        Invocation::ClearLog
    } else if args[1]@ == "--version"@ || args[1]@ == "version"@ {
        Invocation::Version
    } else {
        Invocation::Daemon
    }
}

/// What the program was started for: `args` starts with the program's own name.
pub fn invocation(args: &Vec<String>) -> (r: Invocation)
    ensures
        r == invoked_for(args@),
{
    if args.len() < 2 {
        return Invocation::Daemon;
    }
    let cmd = args[1].as_str();
    if str_eq(cmd, "status") || str_eq(cmd, "reload") || str_eq(cmd, "extension") || str_eq(
        cmd,
        "apply",
    ) {
        Invocation::Client
    } else if str_eq(cmd, "clear_log") {
        Invocation::ClearLog
    } else if str_eq(cmd, "--version") || str_eq(cmd, "version") {
        Invocation::Version
    } else {
        Invocation::Daemon
    }
}

/// The argument at position `i`, where there is one.
pub open spec fn arg(args: Seq<String>, i: int) -> Option<Seq<char>> {
    if 0 <= i < args.len() {
        Some(args[i]@)
    } else {
        None
    }
}

/// The text of an optional string.
pub open spec fn opt_text(s: Option<String>) -> Option<Seq<char>> {
    match s {
        Some(t) => Some(t@),
        None => None,
    }
}

/// The argument at position `i`, where there is one.
fn arg_at(args: &Vec<String>, i: usize) -> (r: Option<String>)
    ensures
        opt_text(r) == arg(args@, i as int),
{
    if i < args.len() {
        Some(args[i].clone())
    } else {
        None
    }
}

/// Whether `r` is the request that the arguments of a client stand for.
pub open spec fn stands_for(args: Seq<String>, r: Request) -> bool {
    &&& r.v == PROTOCOL_VERSION
    &&& r.cmd@ == args[1]@
    &&& opt_text(r.key) == if args[1]@ == "extension"@ {
        arg(args, 2)
    } else {
        None
    }
    &&& r.minutes == if args[1]@ == "extension"@ && args.len() > 3 {
        u32_of(args[3]@)
    } else {
        None
    }
    &&& opt_text(r.path) == if args[1]@ == "apply"@ {
        arg(args, 2)
    } else {
        None
    }
}

/// The request that the arguments of a client stand for.
pub fn cli(args: &Vec<String>) -> (r: Request)
    requires
        args@.len() >= 2,
    ensures
        stands_for(args@, r),
{
    let cmd = args[1].clone();
    let mut key: Option<String> = None;
    let mut minutes: Option<u32> = None;
    let mut path: Option<String> = None;
    proof {
        reveal_strlit("extension");
        reveal_strlit("apply");
        assert("extension"@.len() != "apply"@.len());
    }
    if str_eq(cmd.as_str(), "extension") {
        key = arg_at(args, 2);
        if args.len() > 3 {
            minutes = parse_u32(args[3].as_str());
        }
    } else if str_eq(cmd.as_str(), "apply") {
        path = arg_at(args, 2);
    }
    Request { v: PROTOCOL_VERSION, cmd, key, minutes, path }
}

/// What to say about a daemon of the version `daemon`. A daemon from a different
/// build means a stale binary was copied in (or the daemon was never restarted):
/// say so instead of behaving oddly.
pub fn version_warning(daemon: &str) -> (r: Option<String>)
    ensures
        match r {
            Some(w) => daemon@ != VERSION@ && w@ == "warning: daemon is v"@ + daemon@
                + ", this binary is v"@ + VERSION@ + "; reinstall the module"@,
            None => daemon@ == VERSION@,
        },
{
    if str_eq(daemon, VERSION) {
        return None;
    }
    let mut s = "warning: daemon is v".to_owned();
    s.append(daemon);
    s.append(", this binary is v");
    s.append(VERSION);
    s.append("; reinstall the module");
    Some(s)
}

// ---------------------------------------------------------------------------
// Package events
// ---------------------------------------------------------------------------

/// Bytes of the fixed part of an event: watch, mask, cookie and the length of
/// the name that follows.
pub const EVENT_HEADER: usize = 16;

/// "packages.list".
pub open spec fn packages_list() -> Seq<u8> {
    seq![112u8, 97, 99, 107, 97, 103, 101, 115, 46, 108, 105, 115, 116]
}

/// Whether one of the events in `buf` from `off` on names the package list.
/// Events are walked one after the other; one that is cut off ends the walk.
pub open spec fn names_packages(buf: Seq<u8>, off: int) -> bool
    decreases buf.len() - off,
{
    if off < 0 || off + EVENT_HEADER > buf.len() {
        false
    } else {
        let len = word_at(buf, off + 12);
        let next = off + EVENT_HEADER + len;
        if next > buf.len() {
            false
        } else {
            len > 0 && argv0(buf.subrange(off + EVENT_HEADER, next)) == packages_list()
                || names_packages(buf, next)
        }
    }
}

/// Whether the bytes of `buf` from `from` to `to` are the name of the package
/// list.
fn is_packages_list(buf: &[u8], from: usize, to: usize) -> (r: bool)
    requires
        from <= to <= buf@.len(),
    ensures
        r == (buf@.subrange(from as int, to as int) == packages_list()),
{
    let name: [u8; 13] = [112, 97, 99, 107, 97, 103, 101, 115, 46, 108, 105, 115, 116];
    assert(name@ =~= packages_list());
    let ghost part = buf@.subrange(from as int, to as int);
    if to - from != 13 {
        return false;
    }
    let mut i: usize = 0;
    while i < 13
        invariant
            i <= 13,
            from + 13 == to,
            to <= buf@.len(),
            name@ == packages_list(),
            part == buf@.subrange(from as int, to as int),
            forall|j: int| 0 <= j < i ==> part[j] == packages_list()[j],
        decreases 13 - i,
    {
        assert(part[i as int] == buf@[from + i]);
        if buf[from + i] != name[i] {
            return false;
        }
        i = i + 1;
    }
    assert(part =~= packages_list());
    true
}

/// Walks the events in `buf`. Returns true only when packages.list itself
/// changed. Everything else written beside it (battery stats, dropbox, appops,
/// ...) is ignored on purpose: waking the engine for it would cost power and
/// change nothing.
pub fn drain_inotify(buf: &[u8]) -> (r: bool)
    ensures
        r == names_packages(buf@, 0),
{
    let n: usize = buf.len();
    let mut changed: bool = false;
    let mut off: usize = 0;
    while off <= n && n - off >= EVENT_HEADER
        invariant
            n == buf@.len(),
            names_packages(buf@, 0) == (changed || names_packages(buf@, off as int)),
        decreases n - off,
    {
        let len: usize = read_word(buf, off + 12) as usize;
        let start: usize = off + EVENT_HEADER;
        if len > n - start {
            return changed;
        }
        if len > 0 {
            let end: usize = find_zero(buf, start, start + len);
            let ghost raw = buf@.subrange(start as int, start + len);
            assert(buf@.subrange(start as int, end as int) =~= argv0(raw));
            if is_packages_list(buf, start, end) {
                changed = true;
            }
        }
        off = start + len;
    }
    changed
}

// ---------------------------------------------------------------------------
// The main loop
// ---------------------------------------------------------------------------

/// How long the loop may wait for something to happen, in milliseconds, when the
/// next tick is planned for `next_ms`.
pub open spec fn waits(now_ms: u64, next_ms: u64) -> int {
    if next_ms <= now_ms {
        0
    } else if next_ms - now_ms <= i32::MAX {
        next_ms - now_ms
    } else {
        i32::MAX as int
    }
}

/// How long the loop may wait for something to happen, in milliseconds, when the
/// next tick is planned for `next_ms`.
pub fn wait_ms(now_ms: u64, next_ms: u64) -> (r: i32)
    ensures
        r == waits(now_ms, next_ms),
{
    let left: u64 = next_ms.saturating_sub(now_ms);
    if left <= i32::MAX as u64 {
        left as i32
    } else {
        i32::MAX
    }
}

/// Whether to tick: when the schedule says so, or immediately when a request
/// changed something (rules reload, extension, package install).
pub fn tick_due(now_ms: u64, next_ms: u64, changed: bool) -> (r: bool)
    ensures
        r == (now_ms >= next_ms || changed),
{
    now_ms >= next_ms || changed
}

// ---------------------------------------------------------------------------
// Laws
// ---------------------------------------------------------------------------

/// The loop never waits past the planned tick, and once it has waited long
/// enough a tick is due.
pub proof fn the_loop_wakes_in_time(now_ms: u64, next_ms: u64)
    ensures
        now_ms <= next_ms ==> now_ms + waits(now_ms, next_ms) <= next_ms,
        waits(now_ms, next_ms) == 0 <==> now_ms >= next_ms,
{
}

/// The program is the daemon unless its first argument says otherwise.
pub proof fn the_first_argument_says_what_for(args: Seq<String>)
    ensures
        args.len() < 2 ==> invoked_for(args) == Invocation::Daemon,
        args.len() >= 2 ==> {
            let a = args[1]@;
            &&& a == "status"@ ==> invoked_for(args) == Invocation::Client
            &&& a == "reload"@ ==> invoked_for(args) == Invocation::Client
            &&& a == "extension"@ ==> invoked_for(args) == Invocation::Client
            &&& a == "apply"@ ==> invoked_for(args) == Invocation::Client
            &&& a == "clear_log"@ ==> invoked_for(args) == Invocation::ClearLog
            &&& a == "version"@ ==> invoked_for(args) == Invocation::Version
            &&& a == "--version"@ ==> invoked_for(args) == Invocation::Version
            &&& a != "status"@ && a != "reload"@ && a != "extension"@ && a != "apply"@ && a
                != "clear_log"@ && a != "version"@ && a != "--version"@ ==> invoked_for(args)
                == Invocation::Daemon
        },
{
    reveal_strlit("status");
    reveal_strlit("reload");
    reveal_strlit("extension");
    reveal_strlit("apply");
    reveal_strlit("clear_log");
    reveal_strlit("version");
    reveal_strlit("--version");
    assert("extension"@[0] == 'e' && "clear_log"@[0] == 'c' && "--version"@[0] == '-');
    assert("status"@.len() == 6 && "reload"@.len() == 6 && "apply"@.len() == 5);
    assert("version"@.len() == 7 && "extension"@.len() == 9);
}

/// The name that is looked for is "packages.list".
pub proof fn the_package_list_is_called_so(i: int)
    ensures
        packages_list().len() == "packages.list"@.len(),
        0 <= i < packages_list().len() ==> packages_list()[i] as char == "packages.list"@[i],
{
    reveal_strlit("packages.list");
    let s = "packages.list"@;
    assert(s.len() == 13);
    assert(s[0] == 'p' && s[1] == 'a' && s[2] == 'c' && s[3] == 'k' && s[4] == 'a' && s[5] == 'g');
    assert(s[6] == 'e' && s[7] == 's' && s[8] == '.' && s[9] == 'l' && s[10] == 'i' && s[11] == 's');
    assert(s[12] == 't');
}

/// Where an event stands in what was read does not matter.
proof fn lemma_events_shift(head: Seq<u8>, buf: Seq<u8>, off: int)
    requires
        0 <= off,
    ensures
        names_packages(head + buf, head.len() + off) == names_packages(buf, off),
    decreases buf.len() - off,
{
    let all = head + buf;
    let at = head.len() + off;
    if off + EVENT_HEADER <= buf.len() {
        assert(all[at + 12] == buf[off + 12] && all[at + 13] == buf[off + 13]);
        assert(all[at + 14] == buf[off + 14] && all[at + 15] == buf[off + 15]);
        let len = word_at(buf, off + 12);
        assert(word_at(all, at + 12) == len);
        let next = off + EVENT_HEADER + len;
        if next <= buf.len() {
            assert(all.subrange(at + EVENT_HEADER, head.len() + next) =~= buf.subrange(
                off + EVENT_HEADER,
                next,
            ));
            lemma_events_shift(head, buf, next);
        }
    }
}

/// Events are looked at one by one: what was read tells of a change of the package
/// list exactly when its first event names it or the rest tells of one. An event is
/// twelve bytes, the length of its name, and that name up to its first zero byte.
pub proof fn every_event_is_looked_at(head: Seq<u8>, len: Seq<u8>, name: Seq<u8>, rest: Seq<u8>)
    requires
        head.len() == 12,
        len.len() == 4,
        word_at(len, 0) == name.len(),
    ensures
        names_packages(head + len + name + rest, 0) <==> argv0(name) == packages_list()
            || names_packages(rest, 0),
{
    let event = head + len + name;
    let buf = event + rest;
    assert(buf[12] == len[0] && buf[13] == len[1] && buf[14] == len[2] && buf[15] == len[3]);
    assert(word_at(buf, 12) == name.len());
    assert(buf.subrange(16, 16 + name.len() as int) =~= name);
    lemma_events_shift(event, rest, 0);
    if name.len() == 0 {
        assert(argv0(name).len() == 0);
    }
}

/// What is too short for an event, and an event whose name is cut off, tell of
/// nothing.
pub proof fn a_cut_off_event_tells_of_nothing(buf: Seq<u8>)
    requires
        buf.len() < 16 || buf.len() < 16 + word_at(buf, 12),
    ensures
        !names_packages(buf, 0),
{
}

/// What a client types is what the daemon is asked for: its command, for an extension
/// the key and the minutes, for rules to be made live the file.
pub proof fn a_client_asks_for_what_was_typed(args: Seq<String>, r: Request, n: u32)
    requires
        args.len() >= 2,
        stands_for(args, r),
    ensures
        args[1]@ == "status"@ ==> r.asks() is Status,
        args[1]@ == "reload"@ ==> r.asks() is Reload,
        args[1]@ == "extension"@ && args.len() > 2 ==> (r.asks() matches CommandView::Extension {
            key,
            minutes,
        } && key == args[2]@ && (args.len() > 3 && args[3]@ == decimal(n as nat) ==> minutes == n)
            && (args.len() == 3 ==> minutes == 5)),
        args[1]@ == "apply"@ && args.len() > 2 && args[2]@.len() > 0 ==> r.asks()
            == (CommandView::Apply { path: args[2]@ }),
        args[1]@ == "apply"@ && args.len() == 2 ==> r.asks() is Refused,
{
    decimal_reads_back(n);
    a_command_is_what_it_names(r);
    reveal_strlit("extension");
    reveal_strlit("apply");
    assert("extension"@.len() == 9 && "apply"@.len() == 5);
}

/// The arguments are counted from zero, and none stands behind the last.
pub proof fn arguments_are_counted_from_zero(args: Seq<String>, i: int)
    ensures
        0 <= i < args.len() ==> arg(args, i) == Some(args[i]@),
        i >= args.len() ==> arg(args, i) is None,
{
}

} // verus!
