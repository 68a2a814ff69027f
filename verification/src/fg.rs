//! Foreground and screen state detection from what the kernel's files say.

use std::collections::HashSet;

use vstd::prelude::*;

use crate::proc::{only_real_pids_are_listed, parse_pids, pid_of, pids_in, Process};
use crate::text::{
    a_part_stands_inside, contains_part, has_part, is_blank, is_tight, str_eq, trim, trimmed,
    trimming_takes_off_white_space, words,
};

verus! {

broadcast use vstd::std_specs::hash::group_hash_axioms;

/// Where the v1 cpuset of the foreground is mounted.
pub const TOP_APP_CPUSET: &'static str = "/dev/cpuset/top-app/cgroup.procs";

/// Where cgroup v2 keeps it.
pub const TOP_APP_CGROUP: &'static str = "/sys/fs/cgroup/cpuset/top-app/cgroup.procs";

/// The tasks of the v1 cpuset, for other layouts.
pub const TOP_APP_TASKS: &'static str = "/dev/cpuset/top-app/tasks";

/// What a file was found to hold; None when it could not be read.
pub open spec fn text_of(reading: Option<String>) -> Option<Seq<char>> {
    match reading {
        Some(s) => Some(s@),
        None => None,
    }
}

/// The pids that a file lists; none when it could not be read.
pub open spec fn listed_pids(reading: Option<Seq<char>>) -> Set<i32> {
    match reading {
        Some(s) => pids_in(words(s)).to_set(),
        None => Set::empty(),
    }
}

/// Whether `pids` are those of the first reading that lists any; none at all
/// when no reading does.
pub open spec fn first_listed(readings: Seq<Option<String>>, pids: Set<i32>) -> bool {
    ||| exists|i: int|
        0 <= i < readings.len() && pids == listed_pids(text_of(#[trigger] readings[i]))
            && pids != Set::<i32>::empty() && forall|j: int|
            0 <= j < i ==> listed_pids(text_of(#[trigger] readings[j])) == Set::<i32>::empty()
    ||| pids == Set::<i32>::empty() && forall|j: int|
        0 <= j < readings.len() ==> listed_pids(text_of(#[trigger] readings[j])) == Set::<
            i32,
        >::empty()
}

/// Pids currently in the top-app cpuset, from what the candidate files hold
/// (empty when unavailable). An empty file means this layout is unused on this
/// device: the next candidate is tried instead of silently returning nothing,
/// which would break foreground accounting.
pub fn top_app_pids(readings: &Vec<Option<String>>) -> (r: HashSet<i32>)
    ensures
        first_listed(readings@, r@),
{
    let mut i: usize = 0;
    while i < readings.len()
        invariant
            i <= readings@.len(),
            forall|j: int|
                0 <= j < i ==> listed_pids(text_of(#[trigger] readings@[j])) == Set::<i32>::empty(),
        decreases readings@.len() - i,
    {
        if let Some(content) = &readings[i] {
            let pids = parse_pids(content.as_str());
            let mut set: HashSet<i32> = HashSet::new();
            let mut k: usize = 0;
            assert(pids@.take(0).to_set() =~= Set::<i32>::empty());
            while k < pids.len()
                invariant
                    k <= pids@.len(),
                    set@ == pids@.take(k as int).to_set(),
                decreases pids@.len() - k,
            {
                assert(pids@.take(k + 1) =~= pids@.take(k as int).push(pids@[k as int]));
                proof {
                    pids@.take(k as int).lemma_push_to_set_commute(pids@[k as int]);
                }
                let _ = set.insert(pids[k]);
                k = k + 1;
            }
            assert(pids@.take(k as int) =~= pids@);
            assert(set@ == listed_pids(text_of(readings@[i as int])));
            if pids.len() > 0 {
                assert(pids@.to_set().contains(pids@[0]));
                return set;
            }
            assert(set@ =~= Set::<i32>::empty());
        }
        i = i + 1;
    }
    HashSet::new()
}

/// The uids of `procs`.
pub open spec fn live_uids(procs: Seq<Process>) -> Set<u32> {
    Set::new(|uid: u32| exists|i: int| 0 <= i < procs.len() && (#[trigger] procs[i]).uid == uid)
}

/// The uids of those `procs` whose pid is in `top`.
pub open spec fn fg_uids(procs: Seq<Process>, top: Set<i32>) -> Set<u32> {
    Set::new(
        |uid: u32|
            exists|i: int|
                0 <= i < procs.len() && (#[trigger] procs[i]).uid == uid && top.contains(
                    procs[i].pid,
                ),
    )
}

/// Live uids (when `need_live` is set) and foreground uids of the processes
/// `procs` that were looked at. When every duration rule counts "foreground"
/// only, need_live is false and it is enough to look at the few top-app pids
/// instead of walking all of /proc every tick.
pub fn uids_snapshot(top_pids: &HashSet<i32>, need_live: bool, procs: &Vec<Process>) -> (r: (
    HashSet<u32>,
    HashSet<u32>,
))
    ensures
        r.0@ == if need_live {
            live_uids(procs@)
        } else {
            Set::empty()
        },
        r.1@ == fg_uids(procs@, top_pids@),
{
    let mut live: HashSet<u32> = HashSet::new();
    let mut fg: HashSet<u32> = HashSet::new();
    let mut i: usize = 0;
    assert(live@ =~= live_uids(procs@.take(0)));
    assert(fg@ =~= fg_uids(procs@.take(0), top_pids@));
    while i < procs.len()
        invariant
            i <= procs@.len(),
            need_live ==> live@ == live_uids(procs@.take(i as int)),
            !need_live ==> live@ == Set::<u32>::empty(),
            fg@ == fg_uids(procs@.take(i as int), top_pids@),
        decreases procs@.len() - i,
    {
        let p = &procs[i];
        let ghost a = procs@.take(i as int);
        let ghost b = procs@.take(i + 1);
        assert(b =~= a.push(*p));
        if need_live {
            let _ = live.insert(p.uid);
            assert(live@ =~= live_uids(b)) by {
                lemma_live(a, *p);
            }
        }
        if top_pids.contains(&p.pid) {
            let _ = fg.insert(p.uid);
        }
        assert(fg@ =~= fg_uids(b, top_pids@)) by {
            lemma_fg(a, *p, top_pids@);
        }
        i = i + 1;
    }
    assert(procs@.take(i as int) =~= procs@);
    (live, fg)
}

proof fn lemma_live(a: Seq<Process>, p: Process)
    ensures
        live_uids(a.push(p)) == live_uids(a).insert(p.uid),
{
    let b = a.push(p);
    assert forall|uid: u32| #[trigger]
        live_uids(b).contains(uid) == live_uids(a).insert(p.uid).contains(uid) by {
        if live_uids(a).contains(uid) {
            let i = choose|i: int| 0 <= i < a.len() && (#[trigger] a[i]).uid == uid;
            assert(b[i].uid == uid);
        }
        if uid == p.uid {
            assert(b[a.len() as int].uid == uid);
        }
        if live_uids(b).contains(uid) && uid != p.uid {
            let i = choose|i: int| 0 <= i < b.len() && (#[trigger] b[i]).uid == uid;
            assert(a[i].uid == uid);
        }
    }
    assert(live_uids(b) =~= live_uids(a).insert(p.uid));
}

proof fn lemma_fg(a: Seq<Process>, p: Process, top: Set<i32>)
    ensures
        fg_uids(a.push(p), top) == if top.contains(p.pid) {
            fg_uids(a, top).insert(p.uid)
        } else {
            fg_uids(a, top)
        },
{
    let b = a.push(p);
    let want = if top.contains(p.pid) {
        fg_uids(a, top).insert(p.uid)
    } else {
        fg_uids(a, top)
    };
    assert forall|uid: u32| #[trigger] fg_uids(b, top).contains(uid) == want.contains(uid) by {
        if fg_uids(a, top).contains(uid) {
            let i = choose|i: int|
                0 <= i < a.len() && (#[trigger] a[i]).uid == uid && top.contains(a[i].pid);
            assert(b[i].uid == uid);
        }
        if uid == p.uid && top.contains(p.pid) {
            assert(b[a.len() as int].uid == uid);
        }
        if fg_uids(b, top).contains(uid) {
            let i = choose|i: int|
                0 <= i < b.len() && (#[trigger] b[i]).uid == uid && top.contains(b[i].pid);
            if i < a.len() {
                assert(a[i].uid == uid);
            }
        }
    }
    assert(fg_uids(b, top) =~= want);
}

/// A display connector: its name, and what its power state file holds (None
/// when it could not be read).
#[derive(Debug)]
pub struct Connector {
    pub name: String,
    pub dpms: Option<String>,
}

/// Whether a name is that of a physical connector. Virtual displays always
/// report On and are ignored.
pub open spec fn is_physical(name: Seq<char>) -> bool {
    name.contains('-') && !has_part(name, "Virtual"@)
}

impl Connector {
    /// Whether the state of a physical display is known.
    pub open spec fn known(self) -> bool {
        is_physical(self.name@) && self.dpms is Some
    }

    /// Whether a display is known to be on.
    pub open spec fn on(self) -> bool {
        self.known() && trimmed(self.dpms.unwrap()@) == "On"@
    }
}

/// Whether a name is that of a physical connector.
pub fn is_connector(name: &str) -> (r: bool)
    ensures
        r == is_physical(name@),
{
    proof {
        reveal_strlit("-");
        if name@.contains('-') {
            let i = name@.index_of('-');
            assert(name@.subrange(i, i + 1) =~= "-"@);
        }
        if has_part(name@, "-"@) {
            let i = choose|i: int|
                0 <= i && i + "-"@.len() <= name@.len() && #[trigger] name@.subrange(
                    i,
                    i + "-"@.len(),
                ) == "-"@;
            assert(name@.subrange(i, i + 1)[0] == name@[i]);
        }
    }
    contains_part(name, "-") && !contains_part(name, "Virtual")
}

/// Whether the physical display is off: some connector is known, and none is on.
pub open spec fn all_dark(connectors: Seq<Connector>) -> bool {
    &&& exists|i: int| 0 <= i < connectors.len() && (#[trigger] connectors[i]).known()
    &&& forall|i: int| 0 <= i < connectors.len() ==> !(#[trigger] connectors[i]).on()
}

/// Whether the physical display is off (locked): some connector is known, and
/// none is on. False (screen assumed on) when no connector is found, so this can
/// never wrongly block anything.
pub fn screen_off(connectors: &Vec<Connector>) -> (r: bool)
    ensures
        r == all_dark(connectors@),
{
    let mut found: bool = false;
    let mut i: usize = 0;
    while i < connectors.len()
        invariant
            i <= connectors@.len(),
            found == exists|j: int| 0 <= j < i && (#[trigger] connectors@[j]).known(),
            forall|j: int| 0 <= j < i ==> !(#[trigger] connectors@[j]).on(),
        decreases connectors@.len() - i,
    {
        let c = &connectors[i];
        if is_connector(c.name.as_str()) {
            if let Some(s) = &c.dpms {
                found = true;
                assert(connectors@[i as int].known());
                if str_eq(trim(s.as_str()).as_str(), "On") {
                    assert(connectors@[i as int].on());
                    return false;
                }
            }
        }
        i = i + 1;
    }
    found
}

// ---------------------------------------------------------------------------
// Laws
// ---------------------------------------------------------------------------

/// With `need_live`, every foreground uid is a live one.
pub proof fn foreground_is_live(procs: Seq<Process>, top: Set<i32>, uid: u32)
    requires
        fg_uids(procs, top).contains(uid),
    ensures
        live_uids(procs).contains(uid),
{
}

/// A uid is in the foreground when one of its processes is, and it is live when it
/// has a process at all; nobody else is either.
pub proof fn a_process_makes_its_uid_live(procs: Seq<Process>, top: Set<i32>, i: int, uid: u32)
    ensures
        0 <= i < procs.len() ==> live_uids(procs).contains(procs[i].uid),
        0 <= i < procs.len() && top.contains(procs[i].pid) ==> fg_uids(procs, top).contains(
            procs[i].uid,
        ),
        (forall|k: int| 0 <= k < procs.len() ==> (#[trigger] procs[k]).uid != uid) ==> !live_uids(
            procs,
        ).contains(uid),
        (forall|k: int|
            0 <= k < procs.len() && (#[trigger] procs[k]).uid == uid ==> !top.contains(procs[k].pid))
            ==> !fg_uids(procs, top).contains(uid),
{
}

/// A file lists the pids that its words write, and one that cannot be read none.
pub proof fn a_file_lists_the_pids_in_it(reading: Option<Seq<char>>, pid: i32)
    ensures
        reading is None ==> !listed_pids(reading).contains(pid),
        reading matches Some(s) ==> (listed_pids(reading).contains(pid) <==> exists|i: int|
            0 <= i < words(s).len() && pid_of(#[trigger] words(s)[i]) == Some(pid)),
{
    if let Some(s) = reading {
        only_real_pids_are_listed(words(s), pid);
    }
}

/// Of the files that may list the foreground, the first that lists anything counts:
/// there is one answer, it is what some file lists, and it is empty only if no file
/// lists anything.
pub proof fn the_first_file_that_lists_anything_counts(
    readings: Seq<Option<String>>,
    pids: Set<i32>,
    i: int,
)
    requires
        first_listed(readings, pids),
        0 <= i < readings.len(),
        forall|j: int|
            0 <= j < i ==> listed_pids(text_of(#[trigger] readings[j])) == Set::<i32>::empty(),
    ensures
        listed_pids(text_of(readings[i])) != Set::<i32>::empty() ==> pids == listed_pids(
            text_of(readings[i]),
        ),
        pids == Set::<i32>::empty() ==> listed_pids(text_of(readings[i])) == Set::<i32>::empty(),
{
    if exists|k: int|
        0 <= k < readings.len() && pids == listed_pids(text_of(#[trigger] readings[k])) && pids
            != Set::<i32>::empty() && forall|j: int|
            0 <= j < k ==> listed_pids(text_of(#[trigger] readings[j])) == Set::<i32>::empty() {
        let k = choose|k: int|
            0 <= k < readings.len() && pids == listed_pids(text_of(#[trigger] readings[k])) && pids
                != Set::<i32>::empty() && forall|j: int|
                0 <= j < k ==> listed_pids(text_of(#[trigger] readings[j])) == Set::<i32>::empty();
        if k < i {
            assert(listed_pids(text_of(readings[k])) == Set::<i32>::empty());
        } else if i < k {
            assert(listed_pids(text_of(readings[i])) == Set::<i32>::empty());
        }
    } else {
        assert(listed_pids(text_of(readings[i])) == Set::<i32>::empty());
    }
}

/// The screen is never taken for off without a known physical display, nor while
/// one of them is on; with all of them known to be otherwise it is off.
pub proof fn the_screen_is_off_only_when_known(connectors: Seq<Connector>, i: int)
    ensures
        (forall|k: int|
            0 <= k < connectors.len() ==> !is_physical((#[trigger] connectors[k]).name@)
                || connectors[k].dpms is None) ==> !all_dark(connectors),
        0 <= i < connectors.len() && connectors[i].on() ==> !all_dark(connectors),
        0 <= i < connectors.len() && is_physical(connectors[i].name@) && connectors[i].dpms is Some
            && (forall|k: int| 0 <= k < connectors.len() ==> !(#[trigger] connectors[k]).on())
            ==> all_dark(connectors),
{
    if 0 <= i < connectors.len() && is_physical(connectors[i].name@) && connectors[i].dpms is Some {
        assert(connectors[i].known());
    }
}

/// A display is on when its state reads "On", whatever white space stands around it,
/// and no other state means that.
pub proof fn a_display_is_on_when_it_says_so(c: Connector, a: Seq<char>, state: Seq<char>, b: Seq<char>)
    requires
        is_physical(c.name@),
        is_blank(a),
        is_blank(b),
        is_tight(state),
        c.dpms matches Some(s) && s@ == a + state + b,
    ensures
        c.on() <==> state == "On"@,
{
    trimming_takes_off_white_space(a, state, b);
}

/// The name of a physical display has a dash in it, and "Virtual" nowhere.
pub proof fn virtual_displays_do_not_count(a: Seq<char>, b: Seq<char>, name: Seq<char>)
    ensures
        !is_physical(a + "Virtual"@ + b),
        !name.contains('-') ==> !is_physical(name),
        name.contains('-') && !has_part(name, "Virtual"@) ==> is_physical(name),
{
    a_part_stands_inside(a, "Virtual"@, b, name);
}

} // verus!
