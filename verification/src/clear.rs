//! Cleanup: which processes to kill for one or more uids.
//!
//! Two things matter here:
//!  * one /proc pass for the whole sweep, not one per blocked uid (the cgroup v2
//!    fast path only exists on some kernels);
//!  * every signal goes out after the pid's uid was checked once more, so a
//!    recycled pid number can never send SIGKILL to an unrelated process.

use std::collections::HashMap;

use vstd::prelude::*;
use vstd::string::*;

use crate::config::CGROUP_ROOT;
use crate::number::{decimal, u32_text};
use crate::proc::{only_real_pids_are_listed, parse_pids, pid_of, pids_in, Process};
use crate::text::words;

verus! {

broadcast use vstd::std_specs::hash::group_hash_axioms;

/// The file that lists the processes of `uid`, when the kernel has that layout.
pub fn cgroup_path(uid: u32) -> (r: String)
    ensures
        r@ == CGROUP_ROOT@ + "/apps/uid_"@ + decimal(uid as nat) + "/cgroup.procs"@,
{
    let mut s = CGROUP_ROOT.to_owned();
    s.append("/apps/uid_");
    s.append(u32_text(uid).as_str());
    s.append("/cgroup.procs");
    s
}

/// A uid to clean up, and what its cgroup file holds (None when the kernel has
/// no such file).
#[derive(Debug)]
pub struct Listing {
    pub uid: u32,
    pub procs: Option<String>,
}

impl Listing {
    /// The pids that the cgroup file lists.
    pub open spec fn pids(self) -> Seq<i32> {
        match self.procs {
            Some(content) => pids_in(words(content@)),
            None => Seq::empty(),
        }
    }
}

/// Pids of one uid from the cgroup fast path, when the kernel has that layout.
/// `Some(empty)` means the cgroup exists and the uid has no processes at all, so
/// the /proc fallback is not needed for it.
pub fn cgroup_pids(listing: &Listing) -> (r: Option<Vec<i32>>)
    ensures
        match r {
            Some(pids) => listing.procs is Some && pids@ == listing.pids(),
            None => listing.procs is None,
        },
{
    match &listing.procs {
        Some(content) => Some(parse_pids(content.as_str())),
        None => None,
    }
}

/// Each of `pids` is expected to run under `uid`.
pub open spec fn with_pids(m: Map<i32, u32>, pids: Seq<i32>, uid: u32) -> Map<i32, u32> {
    Map::new(
        |pid: i32| m.contains_key(pid) || pids.contains(pid),
        |pid: i32|
            if pids.contains(pid) {
                uid
            } else {
                m[pid]
            },
    )
}

/// The processes that the cgroup files list, with the uid each is listed under.
pub open spec fn listed(listings: Seq<Listing>) -> Map<i32, u32>
    decreases listings.len(),
{
    if listings.len() == 0 {
        Map::empty()
    } else {
        with_pids(listed(listings.drop_last()), listings.last().pids(), listings.last().uid)
    }
}

/// Whether `uid` is to be cleaned up and has no cgroup file.
pub open spec fn unlisted(listings: Seq<Listing>, uid: u32) -> bool {
    exists|i: int|
        0 <= i < listings.len() && (#[trigger] listings[i]).uid == uid && listings[i].procs is None
}

/// `m` and those `procs` that run under a uid without a cgroup file.
pub open spec fn with_procs(m: Map<i32, u32>, listings: Seq<Listing>, procs: Seq<Process>) -> Map<
    i32,
    u32,
>
    decreases procs.len(),
{
    if procs.len() == 0 {
        m
    } else {
        let before = with_procs(m, listings, procs.drop_last());
        let p = procs.last();
        if p.pid > 1 && unlisted(listings, p.uid) {
            before.insert(p.pid, p.uid)
        } else {
            before
        }
    }
}

/// Whether some uid has no cgroup file, so that /proc has to be walked.
pub fn needs_walk(listings: &Vec<Listing>) -> (r: bool)
    ensures
        r == exists|uid: u32| #[trigger] unlisted(listings@, uid),
{
    let mut i: usize = 0;
    while i < listings.len()
        invariant
            i <= listings@.len(),
            forall|j: int| 0 <= j < i ==> (#[trigger] listings@[j]).procs is Some,
        decreases listings@.len() - i,
    {
        if listings[i].procs.is_none() {
            assert(unlisted(listings@, listings@[i as int].uid));
            return true;
        }
        i = i + 1;
    }
    false
}

/// Whether `uid` is to be cleaned up and has no cgroup file.
fn is_unlisted(listings: &Vec<Listing>, uid: u32) -> (r: bool)
    ensures
        r == unlisted(listings@, uid),
{
    let mut i: usize = 0;
    while i < listings.len()
        invariant
            i <= listings@.len(),
            forall|j: int|
                0 <= j < i ==> !((#[trigger] listings@[j]).uid == uid && listings@[j].procs is None),
        decreases listings@.len() - i,
    {
        if listings[i].uid == uid && listings[i].procs.is_none() {
            return true;
        }
        i = i + 1;
    }
    false
}

/// Adds `pids`, expected to run under `uid`, to `m`.
fn add_pids(m: &mut HashMap<i32, u32>, pids: &Vec<i32>, uid: u32)
    ensures
        final(m)@ == with_pids(old(m)@, pids@, uid),
{
    let mut i: usize = 0;
    assert(m@ =~= with_pids(old(m)@, pids@.take(0), uid));
    while i < pids.len()
        invariant
            i <= pids@.len(),
            m@ == with_pids(old(m)@, pids@.take(i as int), uid),
        decreases pids@.len() - i,
    {
        let ghost a = pids@.take(i as int);
        let ghost b = pids@.take(i + 1);
        let _ = m.insert(pids[i], uid);
        assert forall|k: i32| #[trigger] b.contains(k) <==> a.contains(k) || k == pids@[i as int] by {
            if a.contains(k) {
                assert(b[a.index_of(k)] == k);
            }
            if k == pids@[i as int] {
                assert(b[i as int] == k);
            }
            if b.contains(k) {
                let j = b.index_of(k);
                if j < i {
                    assert(a[j] == k);
                }
            }
        }
        assert(m@ =~= with_pids(old(m)@, b, uid));
        i = i + 1;
    }
    assert(pids@.take(i as int) =~= pids@);
}

/// The processes to kill for the uids in `listings`, with the uid each is
/// expected to run under so that the final signal can be re-validated: those
/// that the cgroup files list, and from one pass over /proc (`procs`) those of
/// every uid the cgroup path did not cover.
pub fn kill_uids(listings: &Vec<Listing>, procs: &Vec<Process>) -> (r: HashMap<i32, u32>)
    ensures
        r@ == with_procs(listed(listings@), listings@, procs@),
{
    let mut targets: HashMap<i32, u32> = HashMap::new();
    let mut i: usize = 0;
    assert(listings@.take(0) =~= Seq::empty());
    assert(targets@ =~= listed(listings@.take(0)));
    while i < listings.len()
        invariant
            i <= listings@.len(),
            targets@ == listed(listings@.take(i as int)),
        decreases listings@.len() - i,
    {
        assert(listings@.take(i + 1).drop_last() =~= listings@.take(i as int));
        if let Some(pids) = cgroup_pids(&listings[i]) {
            add_pids(&mut targets, &pids, listings[i].uid);
        } else {
            assert(targets@ =~= with_pids(targets@, Seq::empty(), listings@[i as int].uid));
        }
        i = i + 1;
    }
    assert(listings@.take(i as int) =~= listings@);
    i = 0;
    assert(procs@.take(0) =~= Seq::empty());
    while i < procs.len()
        invariant
            i <= procs@.len(),
            targets@ == with_procs(listed(listings@), listings@, procs@.take(i as int)),
        decreases procs@.len() - i,
    {
        assert(procs@.take(i + 1).drop_last() =~= procs@.take(i as int));
        let p = &procs[i];
        if p.pid > 1 && is_unlisted(listings, p.uid) {
            let _ = targets.insert(p.pid, p.uid);
        }
        i = i + 1;
    }
    assert(procs@.take(i as int) =~= procs@);
    targets
}

/// The processes to kill for a single uid (rule transition path).
pub fn kill_uid(uid: u32, procs: Option<String>, walked: &Vec<Process>) -> (r: HashMap<i32, u32>)
    ensures
        r@ == with_procs(
            listed(seq![Listing { uid, procs }]),
            seq![Listing { uid, procs }],
            walked@,
        ),
{
    let one: Vec<Listing> = vec![Listing { uid, procs }];
    assert(one@ =~= seq![Listing { uid, procs }]);
    kill_uids(&one, walked)
}

// ---------------------------------------------------------------------------
// Laws
// ---------------------------------------------------------------------------

/// Whether `uid` is one of those to be cleaned up.
pub open spec fn asked_for(listings: Seq<Listing>, uid: u32) -> bool {
    exists|i: int| 0 <= i < listings.len() && (#[trigger] listings[i]).uid == uid
}

proof fn lemma_listed(listings: Seq<Listing>, pid: i32)
    requires
        listed(listings).contains_key(pid),
    ensures
        pid > 1,
        asked_for(listings, listed(listings)[pid]),
    decreases listings.len(),
{
    let last = listings.last();
    if last.pids().contains(pid) {
        only_real_pids_are_listed(words(last.procs.unwrap()@), pid);
        assert(listings[listings.len() - 1].uid == last.uid);
    } else {
        let before = listings.drop_last();
        lemma_listed(before, pid);
        let i = choose|i: int| 0 <= i < before.len() && (#[trigger] before[i]).uid == listed(before)[pid];
        assert(listings[i].uid == before[i].uid);
    }
}

/// Only real pids are killed, and only under a uid that was asked for: init and
/// the kernel are never a target.
pub proof fn only_asked_for_uids_are_cleared(listings: Seq<Listing>, procs: Seq<Process>, pid: i32)
    requires
        with_procs(listed(listings), listings, procs).contains_key(pid),
    ensures
        pid > 1,
        asked_for(listings, with_procs(listed(listings), listings, procs)[pid]),
    decreases procs.len(),
{
    if procs.len() == 0 {
        lemma_listed(listings, pid);
    } else {
        let p = procs.last();
        if p.pid == pid && p.pid > 1 && unlisted(listings, p.uid) {
            let i = choose|i: int|
                0 <= i < listings.len() && (#[trigger] listings[i]).uid == p.uid
                    && listings[i].procs is None;
            assert(listings[i].uid == p.uid);
        } else {
            only_asked_for_uids_are_cleared(listings, procs.drop_last(), pid);
        }
    }
}

proof fn lemma_listed_pid(listings: Seq<Listing>, i: int, pid: i32)
    requires
        0 <= i < listings.len(),
        listings[i].pids().contains(pid),
    ensures
        listed(listings).contains_key(pid),
    decreases listings.len(),
{
    if i < listings.len() - 1 {
        lemma_listed_pid(listings.drop_last(), i, pid);
    }
}

proof fn lemma_procs_keep(m: Map<i32, u32>, listings: Seq<Listing>, procs: Seq<Process>, pid: i32)
    requires
        m.contains_key(pid),
    ensures
        with_procs(m, listings, procs).contains_key(pid),
    decreases procs.len(),
{
    if procs.len() > 0 {
        lemma_procs_keep(m, listings, procs.drop_last(), pid);
    }
}

/// No process is missed: every pid that a cgroup file lists is a target, and so
/// is every process that runs under a uid without such a file.
pub proof fn no_process_is_missed(listings: Seq<Listing>, procs: Seq<Process>, i: int, pid: i32)
    requires
        0 <= i < listings.len() && listings[i].pids().contains(pid) || 0 <= i < procs.len()
            && procs[i].pid == pid && pid > 1 && unlisted(listings, procs[i].uid),
    ensures
        with_procs(listed(listings), listings, procs).contains_key(pid),
    decreases procs.len(),
{
    if 0 <= i < listings.len() && listings[i].pids().contains(pid) {
        lemma_listed_pid(listings, i, pid);
        lemma_procs_keep(listed(listings), listings, procs, pid);
    } else if i < procs.len() - 1 {
        no_process_is_missed(listings, procs.drop_last(), i, pid);
    }
}

/// Where every uid has its cgroup file, what /proc says does not matter.
pub proof fn covered_uids_need_no_walk(listings: Seq<Listing>, procs: Seq<Process>)
    requires
        forall|uid: u32| !#[trigger] unlisted(listings, uid),
    ensures
        with_procs(listed(listings), listings, procs) == listed(listings),
    decreases procs.len(),
{
    if procs.len() > 0 {
        covered_uids_need_no_walk(listings, procs.drop_last());
        assert(!unlisted(listings, procs.last().uid));
    }
}

/// Nothing is killed when nothing is asked for.
pub proof fn nothing_asked_nothing_cleared(procs: Seq<Process>)
    ensures
        with_procs(listed(Seq::empty()), Seq::empty(), procs) == Map::<i32, u32>::empty(),
{
    covered_uids_need_no_walk(Seq::empty(), procs);
}

/// Every target is expected to run under a uid under which it was seen: the one
/// whose cgroup file lists it, or the one that it runs under in /proc.
pub proof fn every_target_was_seen_under_its_uid(
    listings: Seq<Listing>,
    procs: Seq<Process>,
    pid: i32,
)
    requires
        with_procs(listed(listings), listings, procs).contains_key(pid),
    ensures
        ({
            let uid = with_procs(listed(listings), listings, procs)[pid];
            ||| exists|i: int|
                0 <= i < listings.len() && (#[trigger] listings[i]).uid == uid
                    && listings[i].pids().contains(pid)
            ||| exists|i: int|
                0 <= i < procs.len() && (#[trigger] procs[i]).uid == uid && procs[i].pid == pid
                    && unlisted(listings, uid)
        }),
    decreases procs.len(),
{
    if procs.len() == 0 {
        lemma_listed_under(listings, pid);
    } else {
        let rest = procs.drop_last();
        let p = procs[procs.len() - 1];
        assert(p == procs.last());
        if !(p.pid == pid && p.pid > 1 && unlisted(listings, p.uid)) {
            every_target_was_seen_under_its_uid(listings, rest, pid);
            let uid = with_procs(listed(listings), listings, rest)[pid];
            if exists|i: int|
                0 <= i < rest.len() && (#[trigger] rest[i]).uid == uid && rest[i].pid == pid && unlisted(
                    listings,
                    uid,
                ) {
                let i = choose|i: int|
                    0 <= i < rest.len() && (#[trigger] rest[i]).uid == uid && rest[i].pid == pid
                        && unlisted(listings, uid);
                assert(procs[i] == rest[i]);
            }
        }
    }
}

proof fn lemma_listed_under(listings: Seq<Listing>, pid: i32)
    requires
        listed(listings).contains_key(pid),
    ensures
        exists|i: int|
            0 <= i < listings.len() && (#[trigger] listings[i]).uid == listed(listings)[pid]
                && listings[i].pids().contains(pid),
    decreases listings.len(),
{
    let last = listings[listings.len() - 1];
    assert(last == listings.last());
    if !last.pids().contains(pid) {
        let before = listings.drop_last();
        lemma_listed_under(before, pid);
        let i = choose|i: int|
            0 <= i < before.len() && (#[trigger] before[i]).uid == listed(before)[pid]
                && before[i].pids().contains(pid);
        assert(listings[i] == before[i]);
    }
}

/// A cgroup file lists the pids that its words write; a kernel without it lists
/// none.
pub proof fn a_cgroup_file_lists_its_words(l: Listing, pid: i32)
    ensures
        l.procs is None ==> !l.pids().contains(pid),
        l.procs matches Some(text) ==> (l.pids().contains(pid) <==> exists|i: int|
            0 <= i < words(text@).len() && pid_of(#[trigger] words(text@)[i]) == Some(pid)),
{
    if let Some(text) = l.procs {
        only_real_pids_are_listed(words(text@), pid);
    }
}

/// /proc speaks for a uid wherever in the list it stands without a cgroup file, and for
/// no uid whose files could all be read.
pub proof fn a_uid_without_a_file_is_unlisted(listings: Seq<Listing>, i: int, uid: u32)
    requires
        0 <= i < listings.len(),
    ensures
        listings[i].procs is None ==> unlisted(listings, listings[i].uid),
        (forall|j: int|
            0 <= j < listings.len() && (#[trigger] listings[j]).uid == uid ==> listings[j].procs
                is Some) ==> !unlisted(listings, uid),
{
}

} // verus!
