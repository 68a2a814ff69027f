//! Which rules count usage, for whom, and the cooldowns that follow from it.

use std::collections::HashSet;

use vstd::prelude::*;

use crate::counters::{
    a_cooldown_is_one_uids_own, a_cooldown_lasts_its_minutes, a_pool_cooldown_is_the_pools_own,
    a_running_pool_cooldown_stands_still, a_used_up_pool_cools_down, an_ended_cooldown_frees,
    an_ended_pool_cooldown_frees, cooldown_fits, pending, pooled_usage,
    within_the_limit_nothing_cools_down, Counters, CountersView,
};
use crate::decide::{
    a_groups_uids_are_its_installed_members, member_uids, uids_of_members,
};
use crate::rules::{AppRule, DurationRule, GroupRule, RuleSet, Rules};
use crate::schedule::{
    enabled_of, enabled_sets, enabled_sets_are_the_enabled_rules, set_values,
};
use crate::table::{ascending_distinct, StrMap};
use crate::text::{str_eq, views};
use crate::uids::count_of;

verus! {

broadcast use vstd::std_specs::hash::group_hash_axioms;

// ---------------------------------------------------------------------------
// What has to be watched
// ---------------------------------------------------------------------------

/// Whether a rule set limits usage.
pub open spec fn limits_usage(s: RuleSet) -> bool {
    s.duration.limit_minutes > 0
}

/// Whether a rule set limits something other than foreground time.
pub open spec fn limits_background(s: RuleSet) -> bool {
    s.duration.limit_minutes > 0 && s.duration.scope@ != "foreground"@
}

/// Whether a rule set watches the screen.
pub open spec fn watches_screen(s: RuleSet) -> bool {
    s.lock_block
}

/// Whether some enabled rule limits usage.
pub open spec fn counts_usage(rules: Rules) -> bool {
    exists|i: int| 0 <= i < enabled_of(rules).len() && limits_usage(#[trigger] enabled_of(rules)[i])
}

/// Whether some enabled rule limits something other than foreground time.
pub open spec fn counts_background(rules: Rules) -> bool {
    exists|i: int|
        0 <= i < enabled_of(rules).len() && limits_background(#[trigger] enabled_of(rules)[i])
}

/// Whether some enabled rule watches the screen.
pub open spec fn asks_for_screen(rules: Rules) -> bool {
    exists|i: int| 0 <= i < enabled_of(rules).len() && watches_screen(#[trigger] enabled_of(rules)[i])
}

/// Is any enabled rule limiting usage? (drives the usage accounting pass)
pub fn needs_usage(rules: &Rules) -> (r: bool)
    requires
        rules.wf(),
    ensures
        r == counts_usage(*rules),
{
    let sets = enabled_sets(rules);
    let mut i: usize = 0;
    while i < sets.len()
        invariant
            set_values(sets@) == enabled_of(*rules),
            i <= sets@.len(),
            forall|j: int| 0 <= j < i ==> !limits_usage(#[trigger] enabled_of(*rules)[j]),
        decreases sets@.len() - i,
    {
        let s = sets[i];
        assert(enabled_of(*rules)[i as int] == *s);
        if s.duration.limit_minutes > 0 {
            return true;
        }
        i = i + 1;
    }
    assert(enabled_of(*rules).len() == sets@.len());
    false
}

/// Does any enabled rule count something other than foreground time?
pub fn needs_live_scan(rules: &Rules) -> (r: bool)
    requires
        rules.wf(),
    ensures
        r == counts_background(*rules),
{
    let sets = enabled_sets(rules);
    let mut i: usize = 0;
    while i < sets.len()
        invariant
            set_values(sets@) == enabled_of(*rules),
            i <= sets@.len(),
            forall|j: int| 0 <= j < i ==> !limits_background(#[trigger] enabled_of(*rules)[j]),
        decreases sets@.len() - i,
    {
        let s = sets[i];
        assert(enabled_of(*rules)[i as int] == *s);
        if s.duration.limit_minutes > 0 && !str_eq(s.duration.scope.as_str(), "foreground") {
            return true;
        }
        i = i + 1;
    }
    assert(enabled_of(*rules).len() == sets@.len());
    false
}

/// Does any enabled rule care about the physical screen state?
pub fn needs_screen(rules: &Rules) -> (r: bool)
    requires
        rules.wf(),
    ensures
        r == asks_for_screen(*rules),
{
    let sets = enabled_sets(rules);
    let mut i: usize = 0;
    while i < sets.len()
        invariant
            set_values(sets@) == enabled_of(*rules),
            i <= sets@.len(),
            forall|j: int| 0 <= j < i ==> !watches_screen(#[trigger] enabled_of(*rules)[j]),
        decreases sets@.len() - i,
    {
        let s = sets[i];
        assert(enabled_of(*rules)[i as int] == *s);
        if s.lock_block {
            return true;
        }
        i = i + 1;
    }
    assert(enabled_of(*rules).len() == sets@.len());
    false
}

// ---------------------------------------------------------------------------
// Whose usage counts
// ---------------------------------------------------------------------------

/// Whether the rule of one of the apps limits `uid`.
pub open spec fn app_limited(
    keys: Seq<Seq<char>>,
    apps: Seq<AppRule>,
    uids: Map<Seq<char>, u32>,
    uid: u32,
) -> bool {
    exists|i: int|
        0 <= i < keys.len() && apps[i].enabled && limits_usage(apps[i].rules) && uids.contains_key(
            #[trigger] keys[i],
        ) && uids[keys[i]] == uid
}

/// Whether the rule of one of the groups limits `uid`.
pub open spec fn group_limited(
    groups: Seq<GroupRule>,
    uids: Map<Seq<char>, u32>,
    uid: u32,
) -> bool {
    exists|i: int|
        0 <= i < groups.len() && (#[trigger] groups[i]).enabled && limits_usage(groups[i].rules)
            && member_uids(views(groups[i].members@), uids).contains(uid)
}

/// The uids that have a duration limit configured.
pub open spec fn limited(rules: Rules, uids: Map<Seq<char>, u32>) -> Set<u32> {
    Set::new(
        |uid: u32|
            app_limited(rules.apps.keys(), rules.apps.vals(), uids, uid) || group_limited(
                rules.groups.vals(),
                uids,
                uid,
            ),
    )
}

/// Adds each of `items` to `set`.
fn insert_all(set: &mut HashSet<u32>, items: &Vec<u32>)
    ensures
        forall|u: u32| #[trigger]
            final(set)@.contains(u) == (old(set)@.contains(u) || items@.contains(u)),
{
    let mut i: usize = 0;
    while i < items.len()
        invariant
            i <= items@.len(),
            forall|u: u32| #[trigger]
                set@.contains(u) == (old(set)@.contains(u) || exists|j: int|
                    0 <= j < i && #[trigger] items@[j] == u),
        decreases items@.len() - i,
    {
        let _ = set.insert(items[i]);
        i = i + 1;
    }
    assert forall|u: u32| items@.contains(u) implies exists|j: int|
        0 <= j < i && #[trigger] items@[j] == u by {
        assert(items@[items@.index_of(u)] == u);
    }
}

/// Uids that have a duration limit configured. Only these need to be looked up
/// in /proc at all.
pub fn duration_targets(rules: &Rules, uid_of: &StrMap<u32>) -> (r: HashSet<u32>)
    requires
        rules.wf(),
        uid_of.wf(),
    ensures
        r@ == limited(*rules, uid_of@),
{
    let mut out: HashSet<u32> = HashSet::new();
    let ghost keys = rules.apps.keys();
    let ghost apps = rules.apps.vals();
    let ghost groups = rules.groups.vals();
    let mut i: usize = 0;
    while i < rules.apps.len()
        invariant
            rules.wf(),
            uid_of.wf(),
            keys == rules.apps.keys(),
            apps == rules.apps.vals(),
            i <= keys.len(),
            forall|u: u32| #[trigger]
                out@.contains(u) <==> exists|k: int|
                    0 <= k < i && apps[k].enabled && limits_usage(apps[k].rules)
                        && uid_of@.contains_key(#[trigger] keys[k]) && uid_of@[keys[k]] == u,
        decreases keys.len() - i,
    {
        let app = rules.apps.val_at(i);
        let ghost before = out@;
        if app.enabled && app.rules.duration.limit_minutes > 0 {
            if let Some(uid) = uid_of.get(rules.apps.key_at(i).as_str()) {
                let _ = out.insert(*uid);
            }
        }
        assert forall|u: u32| #[trigger] out@.contains(u) implies exists|k: int|
            0 <= k < i + 1 && apps[k].enabled && limits_usage(apps[k].rules)
                && uid_of@.contains_key(#[trigger] keys[k]) && uid_of@[keys[k]] == u by {
            if !before.contains(u) {
                assert(uid_of@.contains_key(keys[i as int]));
            }
        }
        i = i + 1;
    }
    assert(forall|u: u32| #[trigger]
        out@.contains(u) <==> app_limited(keys, apps, uid_of@, u));
    i = 0;
    while i < rules.groups.len()
        invariant
            rules.wf(),
            uid_of.wf(),
            groups == rules.groups.vals(),
            i <= groups.len(),
            forall|u: u32| #[trigger]
                out@.contains(u) <==> app_limited(keys, apps, uid_of@, u) || exists|k: int|
                    0 <= k < i && (#[trigger] groups[k]).enabled && limits_usage(groups[k].rules)
                        && member_uids(views(groups[k].members@), uid_of@).contains(u),
        decreases groups.len() - i,
    {
        let g = rules.groups.val_at(i);
        let ghost before = out@;
        if g.enabled && g.rules.duration.limit_minutes > 0 {
            let ms = uids_of_members(&g.members, uid_of);
            insert_all(&mut out, &ms);
        }
        assert forall|u: u32| #[trigger] out@.contains(u) implies app_limited(
            keys,
            apps,
            uid_of@,
            u,
        ) || exists|k: int|
            0 <= k < i + 1 && (#[trigger] groups[k]).enabled && limits_usage(groups[k].rules)
                && member_uids(views(groups[k].members@), uid_of@).contains(u) by {
            if !before.contains(u) {
                assert(groups[i as int].enabled);
            }
        }
        i = i + 1;
    }
    assert(out@ =~= limited(*rules, uid_of@));
    out
}

// ---------------------------------------------------------------------------
// Cooldowns
// ---------------------------------------------------------------------------

/// Whether a limit is followed by a cooldown.
pub open spec fn cools_down(d: DurationRule) -> bool {
    d.limit_minutes > 0 && d.freeze_minutes > 0
}

/// The cooldowns that the rules of the apps ask for, in order of their keys.
pub open spec fn app_jobs(
    keys: Seq<Seq<char>>,
    apps: Seq<AppRule>,
    uids: Map<Seq<char>, u32>,
) -> Seq<(u32, DurationRule)>
    decreases keys.len(),
{
    if keys.len() == 0 {
        Seq::empty()
    } else {
        let before = app_jobs(keys.drop_last(), apps.drop_last(), uids);
        let d = apps.last().rules.duration;
        if uids.contains_key(keys.last()) && apps.last().enabled && cools_down(d) {
            before.push((uids[keys.last()], d))
        } else {
            before
        }
    }
}

/// A cooldown of its own for each of `uids`.
pub open spec fn jobs_for(uids: Seq<u32>, d: DurationRule) -> Seq<(u32, DurationRule)> {
    uids.map_values(|u: u32| (u, d))
}

/// The cooldowns that the rules of the groups without a shared pool ask for.
pub open spec fn member_jobs(
    groups: Seq<GroupRule>,
    uids: Map<Seq<char>, u32>,
) -> Seq<(u32, DurationRule)>
    decreases groups.len(),
{
    if groups.len() == 0 {
        Seq::empty()
    } else {
        let before = member_jobs(groups.drop_last(), uids);
        let g = groups.last();
        if g.enabled && cools_down(g.rules.duration) && !g.shared_pool {
            before + jobs_for(member_uids(views(g.members@), uids), g.rules.duration)
        } else {
            before
        }
    }
}

/// The counters after one step of each of the cooldowns `jobs`.
pub open spec fn jobs_done(
    c: CountersView,
    jobs: Seq<(u32, DurationRule)>,
    now: u64,
) -> CountersView
    decreases jobs.len(),
{
    if jobs.len() == 0 {
        c
    } else {
        jobs_done(c, jobs.drop_last(), now).cooled(jobs.last().0, jobs.last().1, now)
    }
}

/// The counters after one step of the cooldown of each shared pool.
pub open spec fn pools_done(
    c: CountersView,
    gids: Seq<Seq<char>>,
    groups: Seq<GroupRule>,
    uids: Map<Seq<char>, u32>,
    now: u64,
) -> CountersView
    decreases gids.len(),
{
    if gids.len() == 0 {
        c
    } else {
        let before = pools_done(c, gids.drop_last(), groups.drop_last(), uids, now);
        let g = groups.last();
        if g.enabled && cools_down(g.rules.duration) && g.shared_pool {
            before.pool_cooled(
                gids.last(),
                member_uids(views(g.members@), uids),
                g.rules.duration,
                now,
            )
        } else {
            before
        }
    }
}

/// The counters after one step of every cooldown that the rules ask for: those
/// of single uids, then those of the shared pools.
pub open spec fn cooldowns_done(
    c: CountersView,
    rules: Rules,
    uids: Map<Seq<char>, u32>,
    now: u64,
) -> CountersView {
    pools_done(
        jobs_done(
            c,
            app_jobs(rules.apps.keys(), rules.apps.vals(), uids) + member_jobs(
                rules.groups.vals(),
                uids,
            ),
            now,
        ),
        rules.groups.keys(),
        rules.groups.vals(),
        uids,
        now,
    )
}

/// The uids and limits that `jobs` refer to.
pub open spec fn job_values(jobs: Seq<(u32, &DurationRule)>) -> Seq<(u32, DurationRule)> {
    jobs.map_values(|j: (u32, &DurationRule)| (j.0, *j.1))
}

/// The cooldowns of single uids that the rules ask for: the apps, then the
/// members of groups without a shared pool.
fn cooldown_jobs<'a>(rules: &'a Rules, uid_of: &StrMap<u32>) -> (r: Vec<(u32, &'a DurationRule)>)
    requires
        rules.wf(),
        uid_of.wf(),
    ensures
        job_values(r@) == app_jobs(rules.apps.keys(), rules.apps.vals(), uid_of@) + member_jobs(
            rules.groups.vals(),
            uid_of@,
        ),
{
    let mut r: Vec<(u32, &'a DurationRule)> = Vec::new();
    let ghost keys = rules.apps.keys();
    let ghost apps = rules.apps.vals();
    let ghost groups = rules.groups.vals();
    let mut i: usize = 0;
    assert(job_values(r@) =~= app_jobs(keys.take(0), apps.take(0), uid_of@));
    while i < rules.apps.len()
        invariant
            rules.wf(),
            uid_of.wf(),
            keys == rules.apps.keys(),
            apps == rules.apps.vals(),
            i <= keys.len(),
            job_values(r@) == app_jobs(keys.take(i as int), apps.take(i as int), uid_of@),
        decreases keys.len() - i,
    {
        let app = rules.apps.val_at(i);
        let ghost before = r@;
        assert(keys.take(i + 1).drop_last() =~= keys.take(i as int));
        assert(apps.take(i + 1).drop_last() =~= apps.take(i as int));
        if let Some(uid) = uid_of.get(rules.apps.key_at(i).as_str()) {
            let d = &app.rules.duration;
            if app.enabled && d.limit_minutes > 0 && d.freeze_minutes > 0 {
                r.push((*uid, d));
                assert(job_values(r@) =~= job_values(before).push((*uid, *d)));
            }
        }
        i = i + 1;
    }
    assert(keys.take(i as int) =~= keys);
    assert(apps.take(i as int) =~= apps);
    let ghost first = job_values(r@);
    i = 0;
    assert(first + member_jobs(groups.take(0), uid_of@) =~= first);
    while i < rules.groups.len()
        invariant
            rules.wf(),
            uid_of.wf(),
            groups == rules.groups.vals(),
            i <= groups.len(),
            job_values(r@) == first + member_jobs(groups.take(i as int), uid_of@),
        decreases groups.len() - i,
    {
        let g = rules.groups.val_at(i);
        let d = &g.rules.duration;
        let ghost start = job_values(r@);
        assert(groups.take(i + 1).drop_last() =~= groups.take(i as int));
        if g.enabled && d.limit_minutes > 0 && d.freeze_minutes > 0 && !g.shared_pool {
            let ms = uids_of_members(&g.members, uid_of);
            let mut j: usize = 0;
            assert(start + jobs_for(ms@.take(0), *d) =~= start);
            while j < ms.len()
                invariant
                    j <= ms@.len(),
                    job_values(r@) == start + jobs_for(ms@.take(j as int), *d),
                decreases ms@.len() - j,
            {
                let ghost before = r@;
                r.push((ms[j], d));
                assert(job_values(r@) =~= job_values(before).push((ms@[j as int], *d)));
                assert(jobs_for(ms@.take(j + 1), *d) =~= jobs_for(ms@.take(j as int), *d).push(
                    (ms@[j as int], *d),
                ));
                assert(job_values(r@) =~= start + jobs_for(ms@.take(j + 1), *d));
                j = j + 1;
            }
            assert(ms@.take(j as int) =~= ms@);
            assert((first + member_jobs(groups.take(i as int), uid_of@)) + jobs_for(ms@, *d)
                =~= first + (member_jobs(groups.take(i as int), uid_of@) + jobs_for(ms@, *d)));
        }
        i = i + 1;
    }
    assert(groups.take(i as int) =~= groups);
    r
}

/// No cooldown of an enabled rule that starts at `now` can overflow its deadline.
pub open spec fn cooldowns_fit(rules: Rules, now: u64) -> bool {
    &&& forall|i: int|
        0 <= i < rules.apps.vals().len() && (#[trigger] rules.apps.vals()[i]).enabled && cools_down(
            rules.apps.vals()[i].rules.duration,
        ) ==> cooldown_fits(rules.apps.vals()[i].rules.duration, now)
    &&& forall|i: int|
        0 <= i < rules.groups.vals().len() && (#[trigger] rules.groups.vals()[i]).enabled
            && cools_down(rules.groups.vals()[i].rules.duration) ==> cooldown_fits(
            rules.groups.vals()[i].rules.duration,
            now,
        )
}

/// Whether a cooldown under `d` that starts at `now` cannot overflow its deadline,
/// or there is none.
fn has_room_to_cool(d: &DurationRule, now: u64) -> (r: bool)
    ensures
        r == (cools_down(*d) ==> cooldown_fits(*d, now)),
{
    d.limit_minutes == 0 || d.freeze_minutes == 0 || now <= u64::MAX - d.freeze_minutes as u64 * 60
}

/// Whether no cooldown of an enabled rule that starts at `now` can overflow its
/// deadline.
pub fn has_room_for_cooldowns(rules: &Rules, now: u64) -> (r: bool)
    requires
        rules.wf(),
    ensures
        r == cooldowns_fit(*rules, now),
{
    let ghost apps = rules.apps.vals();
    let ghost groups = rules.groups.vals();
    let mut i: usize = 0;
    while i < rules.apps.len()
        invariant
            rules.wf(),
            apps == rules.apps.vals(),
            i <= apps.len(),
            forall|j: int|
                0 <= j < i && (#[trigger] apps[j]).enabled && cools_down(apps[j].rules.duration)
                    ==> cooldown_fits(apps[j].rules.duration, now),
        decreases apps.len() - i,
    {
        let app = rules.apps.val_at(i);
        if app.enabled && !has_room_to_cool(&app.rules.duration, now) {
            assert(apps[i as int].enabled);
            return false;
        }
        i = i + 1;
    }
    i = 0;
    while i < rules.groups.len()
        invariant
            rules.wf(),
            groups == rules.groups.vals(),
            i <= groups.len(),
            forall|j: int|
                0 <= j < i && (#[trigger] groups[j]).enabled && cools_down(groups[j].rules.duration)
                    ==> cooldown_fits(groups[j].rules.duration, now),
        decreases groups.len() - i,
    {
        let g = rules.groups.val_at(i);
        if g.enabled && !has_room_to_cool(&g.rules.duration, now) {
            assert(groups[i as int].enabled);
            return false;
        }
        i = i + 1;
    }
    true
}

proof fn lemma_app_jobs_fit(
    keys: Seq<Seq<char>>,
    apps: Seq<AppRule>,
    uids: Map<Seq<char>, u32>,
    now: u64,
)
    requires
        keys.len() == apps.len(),
        forall|i: int|
            0 <= i < apps.len() && (#[trigger] apps[i]).enabled && cools_down(apps[i].rules.duration)
                ==> cooldown_fits(apps[i].rules.duration, now),
    ensures
        forall|j: int|
            0 <= j < app_jobs(keys, apps, uids).len() ==> cooldown_fits(
                (#[trigger] app_jobs(keys, apps, uids)[j]).1,
                now,
            ),
    decreases keys.len(),
{
    if keys.len() > 0 {
        let rest = apps.drop_last();
        assert forall|i: int| 0 <= i < rest.len() implies #[trigger] rest[i] == apps[i] by {}
        lemma_app_jobs_fit(keys.drop_last(), rest, uids, now);
        assert(apps[apps.len() - 1] == apps.last());
        let before = app_jobs(keys.drop_last(), rest, uids);
        let js = app_jobs(keys, apps, uids);
        assert forall|j: int| 0 <= j < js.len() implies cooldown_fits((#[trigger] js[j]).1, now) by {
            if j < before.len() {
                assert(js[j] == before[j]);
            }
        }
    }
}

proof fn lemma_member_jobs_fit(groups: Seq<GroupRule>, uids: Map<Seq<char>, u32>, now: u64)
    requires
        forall|i: int|
            0 <= i < groups.len() && (#[trigger] groups[i]).enabled && cools_down(
                groups[i].rules.duration,
            ) ==> cooldown_fits(groups[i].rules.duration, now),
    ensures
        forall|j: int|
            0 <= j < member_jobs(groups, uids).len() ==> cooldown_fits(
                (#[trigger] member_jobs(groups, uids)[j]).1,
                now,
            ),
    decreases groups.len(),
{
    if groups.len() > 0 {
        let rest = groups.drop_last();
        assert forall|i: int| 0 <= i < rest.len() implies #[trigger] rest[i] == groups[i] by {}
        lemma_member_jobs_fit(rest, uids, now);
        assert(groups[groups.len() - 1] == groups.last());
        let before = member_jobs(rest, uids);
        let js = member_jobs(groups, uids);
        assert forall|j: int| 0 <= j < js.len() implies cooldown_fits((#[trigger] js[j]).1, now) by {
            if j < before.len() {
                assert(js[j] == before[j]);
            }
        }
    }
}

proof fn lemma_jobs_fit(rules: Rules, uids: Map<Seq<char>, u32>, now: u64)
    requires
        rules.wf(),
        cooldowns_fit(rules, now),
    ensures
        ({
            let js = app_jobs(rules.apps.keys(), rules.apps.vals(), uids) + member_jobs(
                rules.groups.vals(),
                uids,
            );
            forall|j: int| 0 <= j < js.len() ==> cooldown_fits((#[trigger] js[j]).1, now)
        }),
{
    lemma_app_jobs_fit(rules.apps.keys(), rules.apps.vals(), uids, now);
    lemma_member_jobs_fit(rules.groups.vals(), uids, now);
}

/// One step of every cooldown that the rules ask for.
pub fn maintain_cooldowns(counters: &mut Counters, rules: &Rules, uid_of: &StrMap<u32>, now: u64)
    requires
        old(counters).wf(),
        rules.wf(),
        uid_of.wf(),
        cooldowns_fit(*rules, now),
    ensures
        final(counters).wf(),
        final(counters)@ == cooldowns_done(old(counters)@, *rules, uid_of@, now),
{
    let jobs = cooldown_jobs(rules, uid_of);
    let ghost js = job_values(jobs@);
    let ghost gids = rules.groups.keys();
    let ghost groups = rules.groups.vals();
    let mut i: usize = 0;
    assert(js.take(0) =~= Seq::empty());
    proof {
        lemma_jobs_fit(*rules, uid_of@, now);
    }
    while i < jobs.len()
        invariant
            counters.wf(),
            forall|j: int| 0 <= j < js.len() ==> cooldown_fits((#[trigger] js[j]).1, now),
            js == job_values(jobs@),
            i <= jobs@.len(),
            counters@ == jobs_done(old(counters)@, js.take(i as int), now),
        decreases jobs@.len() - i,
    {
        let (uid, d): (u32, &DurationRule) = jobs[i];
        assert(js.take(i + 1).drop_last() =~= js.take(i as int));
        assert(js.take(i + 1).last() == (uid, *d));
        assert(js[i as int] == (uid, *d));
        counters.maintain_uid_cooldown(uid, d, now);
        i = i + 1;
    }
    assert(js.take(i as int) =~= js);
    let ghost c = counters@;
    i = 0;
    while i < rules.groups.len()
        invariant
            counters.wf(),
            rules.wf(),
            uid_of.wf(),
            cooldowns_fit(*rules, now),
            gids == rules.groups.keys(),
            groups == rules.groups.vals(),
            i <= gids.len(),
            counters@ == pools_done(c, gids.take(i as int), groups.take(i as int), uid_of@, now),
        decreases gids.len() - i,
    {
        let g = rules.groups.val_at(i);
        let d = &g.rules.duration;
        assert(gids.take(i + 1).drop_last() =~= gids.take(i as int));
        assert(groups.take(i + 1).drop_last() =~= groups.take(i as int));
        if g.enabled && d.limit_minutes > 0 && d.freeze_minutes > 0 && g.shared_pool {
            let ms = uids_of_members(&g.members, uid_of);
            counters.maintain_group_cooldown(rules.groups.key_at(i), ms.as_slice(), d, now);
        }
        i = i + 1;
    }
    assert(gids.take(i as int) =~= gids);
    assert(groups.take(i as int) =~= groups);
}

// ---------------------------------------------------------------------------
// Laws
// ---------------------------------------------------------------------------

proof fn lemma_jobs_keep_extensions(c: CountersView, jobs: Seq<(u32, DurationRule)>, now: u64)
    ensures
        jobs_done(c, jobs, now).extension == c.extension,
        jobs_done(c, jobs, now).group_extension == c.group_extension,
        jobs_done(c, jobs, now).granted == c.granted,
        jobs_done(c, jobs, now).group_granted == c.group_granted,
        jobs_done(c, jobs, now).group_cooldown == c.group_cooldown,
    decreases jobs.len(),
{
    if jobs.len() > 0 {
        lemma_jobs_keep_extensions(c, jobs.drop_last(), now);
    }
}

proof fn lemma_pools_keep_extensions(
    c: CountersView,
    gids: Seq<Seq<char>>,
    groups: Seq<GroupRule>,
    uids: Map<Seq<char>, u32>,
    now: u64,
)
    ensures
        pools_done(c, gids, groups, uids, now).extension == c.extension,
        pools_done(c, gids, groups, uids, now).group_extension == c.group_extension,
        pools_done(c, gids, groups, uids, now).granted == c.granted,
        pools_done(c, gids, groups, uids, now).group_granted == c.group_granted,
        pools_done(c, gids, groups, uids, now).cooldown == c.cooldown,
    decreases gids.len(),
{
    if gids.len() > 0 {
        lemma_pools_keep_extensions(c, gids.drop_last(), groups.drop_last(), uids, now);
    }
}

/// Cooldowns never touch extensions, nor what was granted of them.
pub proof fn cooldowns_keep_extensions(
    c: CountersView,
    rules: Rules,
    uids: Map<Seq<char>, u32>,
    now: u64,
)
    ensures
        ({
            let r = cooldowns_done(c, rules, uids, now);
            &&& r.extension == c.extension
            &&& r.group_extension == c.group_extension
            &&& r.granted == c.granted
            &&& r.group_granted == c.group_granted
        }),
{
    let jobs = app_jobs(rules.apps.keys(), rules.apps.vals(), uids) + member_jobs(
        rules.groups.vals(),
        uids,
    );
    lemma_jobs_keep_extensions(c, jobs, now);
    lemma_pools_keep_extensions(
        jobs_done(c, jobs, now),
        rules.groups.keys(),
        rules.groups.vals(),
        uids,
        now,
    );
}

/// A plain daily limit, one without a cooldown, asks for no cooldown at all.
pub proof fn a_plain_limit_has_no_cooldown(
    keys: Seq<Seq<char>>,
    apps: Seq<AppRule>,
    uids: Map<Seq<char>, u32>,
)
    requires
        keys.len() == apps.len(),
        forall|i: int| 0 <= i < apps.len() ==> (#[trigger] apps[i]).rules.duration.freeze_minutes
            == 0,
    ensures
        app_jobs(keys, apps, uids).len() == 0,
    decreases keys.len(),
{
    if keys.len() > 0 {
        assert forall|i: int| 0 <= i < apps.drop_last().len() implies (
        #[trigger] apps.drop_last()[i]).rules.duration.freeze_minutes == 0 by {
            assert(apps.drop_last()[i] == apps[i]);
        }
        a_plain_limit_has_no_cooldown(keys.drop_last(), apps.drop_last(), uids);
        assert(apps[apps.len() - 1].rules.duration.freeze_minutes == 0);
    }
}

// ---------------------------------------------------------------------------
// Laws of what is watched
// ---------------------------------------------------------------------------

/// Whether an enabled rule of an app, or of a group, satisfies `p`.
pub open spec fn some_enabled(rules: Rules, p: spec_fn(RuleSet) -> bool) -> bool {
    ||| exists|i: int|
        0 <= i < rules.apps.vals().len() && (#[trigger] rules.apps.vals()[i]).enabled && p(
            rules.apps.vals()[i].rules,
        )
    ||| exists|i: int|
        0 <= i < rules.groups.vals().len() && (#[trigger] rules.groups.vals()[i]).enabled && p(
            rules.groups.vals()[i].rules,
        )
}

proof fn lemma_some_enabled(rules: Rules, p: spec_fn(RuleSet) -> bool)
    ensures
        some_enabled(rules, p) <==> exists|i: int|
            0 <= i < enabled_of(rules).len() && p(#[trigger] enabled_of(rules)[i]),
{
    let sets = enabled_of(rules);
    if some_enabled(rules, p) {
        let s = if exists|i: int|
            0 <= i < rules.apps.vals().len() && (#[trigger] rules.apps.vals()[i]).enabled && p(
                rules.apps.vals()[i].rules,
            ) {
            let i = choose|i: int|
                0 <= i < rules.apps.vals().len() && (#[trigger] rules.apps.vals()[i]).enabled && p(
                    rules.apps.vals()[i].rules,
                );
            rules.apps.vals()[i].rules
        } else {
            let i = choose|i: int|
                0 <= i < rules.groups.vals().len() && (#[trigger] rules.groups.vals()[i]).enabled
                    && p(rules.groups.vals()[i].rules);
            rules.groups.vals()[i].rules
        };
        enabled_sets_are_the_enabled_rules(rules, s);
        assert(p(sets[sets.index_of(s)]));
    }
    if exists|i: int| 0 <= i < sets.len() && p(#[trigger] sets[i]) {
        let i = choose|i: int| 0 <= i < sets.len() && p(#[trigger] sets[i]);
        assert(sets.contains(sets[i]));
        enabled_sets_are_the_enabled_rules(rules, sets[i]);
    }
}

/// Usage is counted while some enabled rule has a limit, all running processes are
/// looked at while one of those counts more than the foreground, and the screen
/// while some enabled rule blocks on it; never otherwise.
pub proof fn only_what_enabled_rules_need_is_looked_at(rules: Rules)
    ensures
        counts_usage(rules) == some_enabled(rules, |s: RuleSet| s.duration.limit_minutes > 0),
        counts_background(rules) == some_enabled(
            rules,
            |s: RuleSet| s.duration.limit_minutes > 0 && s.duration.scope@ != "foreground"@,
        ),
        asks_for_screen(rules) == some_enabled(rules, |s: RuleSet| s.lock_block),
{
    let sets = enabled_of(rules);
    let a = |s: RuleSet| s.duration.limit_minutes > 0;
    let b = |s: RuleSet| s.duration.limit_minutes > 0 && s.duration.scope@ != "foreground"@;
    let c = |s: RuleSet| s.lock_block;
    lemma_some_enabled(rules, a);
    lemma_some_enabled(rules, b);
    lemma_some_enabled(rules, c);
    assert forall|i: int| 0 <= i < sets.len() implies limits_usage(#[trigger] sets[i]) == a(sets[i]) by {}
    assert forall|i: int| 0 <= i < sets.len() implies limits_background(#[trigger] sets[i]) == b(
        sets[i],
    ) by {}
    assert forall|i: int| 0 <= i < sets.len() implies watches_screen(#[trigger] sets[i]) == c(
        sets[i],
    ) by {}
}

/// Usage counts for the installed apps whose enabled rule has a limit and for the
/// installed members of enabled groups with one, and for nobody else.
pub proof fn usage_counts_for_limited_apps_and_members(
    rules: Rules,
    uids: Map<Seq<char>, u32>,
    uid: u32,
)
    ensures
        limited(rules, uids).contains(uid) <==> {
            ||| exists|i: int|
                0 <= i < rules.apps.keys().len() && rules.apps.vals()[i].enabled
                    && rules.apps.vals()[i].rules.duration.limit_minutes > 0 && uids.contains_key(
                    #[trigger] rules.apps.keys()[i],
                ) && uids[rules.apps.keys()[i]] == uid
            ||| exists|i: int, m: int|
                0 <= i < rules.groups.vals().len() && rules.groups.vals()[i].enabled
                    && rules.groups.vals()[i].rules.duration.limit_minutes > 0 && 0 <= m
                    < rules.groups.vals()[i].members@.len() && uids.contains_key(
                    (#[trigger] rules.groups.vals()[i].members@[m])@,
                ) && uids[rules.groups.vals()[i].members@[m]@] == uid
        },
{
    let groups = rules.groups.vals();
    if group_limited(groups, uids, uid) {
        let i = choose|i: int|
            0 <= i < groups.len() && (#[trigger] groups[i]).enabled && limits_usage(groups[i].rules)
                && member_uids(views(groups[i].members@), uids).contains(uid);
        let ms = views(groups[i].members@);
        a_groups_uids_are_its_installed_members(ms, uids, uid);
        let m = choose|m: int|
            0 <= m < ms.len() && uids.contains_key(#[trigger] ms[m]) && uids[ms[m]] == uid;
        assert(ms[m] == groups[i].members@[m]@);
    }
    if exists|i: int, m: int|
        0 <= i < groups.len() && groups[i].enabled && groups[i].rules.duration.limit_minutes > 0 && 0
            <= m < groups[i].members@.len() && uids.contains_key(
            (#[trigger] groups[i].members@[m])@,
        ) && uids[groups[i].members@[m]@] == uid {
        let (i, m) = choose|i: int, m: int|
            0 <= i < groups.len() && groups[i].enabled && groups[i].rules.duration.limit_minutes > 0
                && 0 <= m < groups[i].members@.len() && uids.contains_key(
                (#[trigger] groups[i].members@[m])@,
            ) && uids[groups[i].members@[m]@] == uid;
        let ms = views(groups[i].members@);
        assert(ms[m] == groups[i].members@[m]@);
        a_groups_uids_are_its_installed_members(ms, uids, uid);
        assert(groups[i].enabled);
    }
}

// ---------------------------------------------------------------------------
// Laws of the cooldowns of a tick
// ---------------------------------------------------------------------------

/// The cooldowns that the rules ask for: those of the apps, then of the members of
/// groups without a shared pool.
pub open spec fn all_jobs(rules: Rules, uids: Map<Seq<char>, u32>) -> Seq<(u32, DurationRule)> {
    app_jobs(rules.apps.keys(), rules.apps.vals(), uids) + member_jobs(rules.groups.vals(), uids)
}

proof fn lemma_app_job(
    keys: Seq<Seq<char>>,
    apps: Seq<AppRule>,
    uids: Map<Seq<char>, u32>,
    i: int,
)
    requires
        keys.len() == apps.len(),
        0 <= i < keys.len(),
        apps[i].enabled,
        cools_down(apps[i].rules.duration),
        uids.contains_key(keys[i]),
    ensures
        app_jobs(keys, apps, uids).contains((uids[keys[i]], apps[i].rules.duration)),
    decreases keys.len(),
{
    let (ks, vs) = (keys.drop_last(), apps.drop_last());
    let js = app_jobs(keys, apps, uids);
    let job = (uids[keys[i]], apps[i].rules.duration);
    if i < ks.len() {
        assert(ks[i] == keys[i] && vs[i] == apps[i]);
        lemma_app_job(ks, vs, uids, i);
        let k = app_jobs(ks, vs, uids).index_of(job);
        assert(js[k] == job);
    } else {
        assert(js[js.len() - 1] == job);
    }
}

proof fn lemma_member_job(groups: Seq<GroupRule>, uids: Map<Seq<char>, u32>, i: int, uid: u32)
    requires
        0 <= i < groups.len(),
        groups[i].enabled,
        cools_down(groups[i].rules.duration),
        !groups[i].shared_pool,
        member_uids(views(groups[i].members@), uids).contains(uid),
    ensures
        member_jobs(groups, uids).contains((uid, groups[i].rules.duration)),
    decreases groups.len(),
{
    let rest = groups.drop_last();
    let (before, js) = (member_jobs(rest, uids), member_jobs(groups, uids));
    let job = (uid, groups[i].rules.duration);
    if i < rest.len() {
        assert(rest[i] == groups[i]);
        lemma_member_job(rest, uids, i, uid);
        assert(js[before.index_of(job)] == job);
    } else {
        let us = member_uids(views(groups[i].members@), uids);
        let k = us.index_of(uid);
        assert(jobs_for(us, groups[i].rules.duration)[k] == job);
        assert(js[before.len() + k] == job);
    }
}

/// Every enabled rule with a limit and a cooldown has its cooldown looked at: that
/// of an installed app for its uid, that of a group without a shared pool for each
/// installed member.
pub proof fn every_cooldown_is_looked_at(
    rules: Rules,
    uids: Map<Seq<char>, u32>,
    i: int,
    m: int,
)
    requires
        rules.wf(),
    ensures
        0 <= i < rules.apps.keys().len() && rules.apps.vals()[i].enabled
            && rules.apps.vals()[i].rules.duration.limit_minutes > 0
            && rules.apps.vals()[i].rules.duration.freeze_minutes > 0 && uids.contains_key(
            rules.apps.keys()[i],
        ) ==> all_jobs(rules, uids).contains(
            (uids[rules.apps.keys()[i]], rules.apps.vals()[i].rules.duration),
        ),
        0 <= i < rules.groups.keys().len() && rules.groups.vals()[i].enabled
            && !rules.groups.vals()[i].shared_pool
            && rules.groups.vals()[i].rules.duration.limit_minutes > 0
            && rules.groups.vals()[i].rules.duration.freeze_minutes > 0 && 0 <= m
            < rules.groups.vals()[i].members@.len() && uids.contains_key(
            rules.groups.vals()[i].members@[m]@,
        ) ==> all_jobs(rules, uids).contains(
            (uids[rules.groups.vals()[i].members@[m]@], rules.groups.vals()[i].rules.duration),
        ),
{
    let (a, g) = (
        app_jobs(rules.apps.keys(), rules.apps.vals(), uids),
        member_jobs(rules.groups.vals(), uids),
    );
    let js = all_jobs(rules, uids);
    if 0 <= i < rules.apps.keys().len() && rules.apps.vals()[i].enabled && cools_down(
        rules.apps.vals()[i].rules.duration,
    ) && uids.contains_key(rules.apps.keys()[i]) {
        lemma_app_job(rules.apps.keys(), rules.apps.vals(), uids, i);
        let job = (uids[rules.apps.keys()[i]], rules.apps.vals()[i].rules.duration);
        assert(js[a.index_of(job)] == job);
    }
    if 0 <= i < rules.groups.keys().len() && 0 <= m < rules.groups.vals()[i].members@.len() {
        let gr = rules.groups.vals()[i];
        let key = gr.members@[m]@;
        if gr.enabled && cools_down(gr.rules.duration) && !gr.shared_pool && uids.contains_key(key) {
            let ms = views(gr.members@);
            assert(ms[m] == key);
            a_groups_uids_are_its_installed_members(ms, uids, uids[key]);
            lemma_member_job(rules.groups.vals(), uids, i, uids[key]);
            let job = (uids[key], gr.rules.duration);
            assert(js[a.len() + g.index_of(job)] == job);
        }
    }
}

/// Whether two counters agree on `uid`: its usage and its cooldown.
spec fn agree(a: CountersView, b: CountersView, uid: u32) -> bool {
    &&& count_of(a.usage, uid) == count_of(b.usage, uid)
    &&& count_of(a.usage_fg, uid) == count_of(b.usage_fg, uid)
    &&& a.cooldown.contains_key(uid) == b.cooldown.contains_key(uid)
    &&& a.cooldown.contains_key(uid) ==> a.cooldown[uid] == b.cooldown[uid]
}

/// Whether some of `jobs` is about `uid`.
pub open spec fn has_job(jobs: Seq<(u32, DurationRule)>, uid: u32) -> bool {
    exists|j: int| 0 <= j < jobs.len() && (#[trigger] jobs[j]).0 == uid
}

proof fn lemma_jobs_leave_others(c: CountersView, jobs: Seq<(u32, DurationRule)>, now: u64, uid: u32)
    requires
        !has_job(jobs, uid) || pending(c.cooldown, uid, now),
    ensures
        agree(jobs_done(c, jobs, now), c, uid),
    decreases jobs.len(),
{
    if jobs.len() > 0 {
        let rest = jobs.drop_last();
        if has_job(rest, uid) {
            let j = choose|j: int| 0 <= j < rest.len() && (#[trigger] rest[j]).0 == uid;
            assert(jobs[j].0 == uid);
        }
        lemma_jobs_leave_others(c, rest, now, uid);
        let job = jobs[jobs.len() - 1];
        assert(job == jobs.last());
        let b = jobs_done(c, rest, now);
        if job.0 != uid {
            a_cooldown_is_one_uids_own(b, job.0, job.1, now, uid);
        }
    }
}

/// A cooldown that runs is left alone by a whole tick, whoever else cools down: that
/// of a uid and that of a shared pool keep their deadline.
pub proof fn a_tick_leaves_running_cooldowns_alone(
    c: CountersView,
    rules: Rules,
    uids: Map<Seq<char>, u32>,
    now: u64,
    uid: u32,
    gid: Seq<char>,
)
    ensures
        ({
            let r = cooldowns_done(c, rules, uids, now);
            &&& c.cooldown.contains_key(uid) && now < c.cooldown[uid] ==> r.cooldown.contains_key(uid)
                && r.cooldown[uid] == c.cooldown[uid]
            &&& c.group_cooldown.contains_key(gid) && now < c.group_cooldown[gid]
                ==> r.group_cooldown.contains_key(gid) && r.group_cooldown[gid]
                == c.group_cooldown[gid]
        }),
{
    let jobs = all_jobs(rules, uids);
    let b = jobs_done(c, jobs, now);
    lemma_jobs_keep_extensions(c, jobs, now);
    lemma_pools_keep_extensions(b, rules.groups.keys(), rules.groups.vals(), uids, now);
    if pending(c.cooldown, uid, now) {
        lemma_jobs_leave_others(c, jobs, now, uid);
    }
    if pending(c.group_cooldown, gid, now) {
        lemma_running_pool(b, rules.groups.keys(), rules.groups.vals(), uids, now, gid);
    }
}

proof fn lemma_running_pool(
    c: CountersView,
    gids: Seq<Seq<char>>,
    groups: Seq<GroupRule>,
    uids: Map<Seq<char>, u32>,
    now: u64,
    gid: Seq<char>,
)
    requires
        pending(c.group_cooldown, gid, now),
    ensures
        pools_done(c, gids, groups, uids, now).group_cooldown.contains_key(gid),
        pools_done(c, gids, groups, uids, now).group_cooldown[gid] == c.group_cooldown[gid],
    decreases gids.len(),
{
    if gids.len() > 0 {
        lemma_running_pool(c, gids.drop_last(), groups.drop_last(), uids, now, gid);
        let b = pools_done(c, gids.drop_last(), groups.drop_last(), uids, now);
        let g = groups.last();
        let ms = member_uids(views(g.members@), uids);
        if gids.last() == gid {
            a_running_pool_cooldown_stands_still(b, gid, ms, g.rules.duration, now);
        } else {
            a_pool_cooldown_is_the_pools_own(b, gids.last(), ms, g.rules.duration, now, gid, 0);
        }
    }
}

proof fn lemma_job_starts(
    c: CountersView,
    jobs: Seq<(u32, DurationRule)>,
    now: u64,
    uid: u32,
    j: int,
)
    requires
        0 <= j < jobs.len(),
        jobs[j].0 == uid,
        !c.cooldown.contains_key(uid),
        c.scoped_usage(uid, jobs[j].1.scope@) >= jobs[j].1.limit_minutes * 60,
        forall|k: int|
            0 <= k < jobs.len() ==> cools_down((#[trigger] jobs[k]).1) && cooldown_fits(
                jobs[k].1,
                now,
            ),
    ensures
        pending(jobs_done(c, jobs, now).cooldown, uid, now),
        exists|k: int|
            0 <= k < jobs.len() && (#[trigger] jobs[k]).0 == uid && jobs_done(
                c,
                jobs,
                now,
            ).cooldown[uid] == now + jobs[k].1.freeze_minutes * 60,
        count_of(jobs_done(c, jobs, now).usage, uid) == count_of(c.usage, uid),
        count_of(jobs_done(c, jobs, now).usage_fg, uid) == count_of(c.usage_fg, uid),
    decreases jobs.len(),
{
    let rest = jobs.drop_last();
    assert forall|k: int| 0 <= k < rest.len() implies #[trigger] rest[k] == jobs[k] by {}
    let b = jobs_done(c, rest, now);
    let n = jobs.len() - 1;
    let job = jobs[n];
    assert(job == jobs.last());
    if exists|k: int|
        0 <= k < rest.len() && (#[trigger] rest[k]).0 == uid && c.scoped_usage(uid, rest[k].1.scope@)
            >= rest[k].1.limit_minutes * 60 {
        let k = choose|k: int|
            0 <= k < rest.len() && (#[trigger] rest[k]).0 == uid && c.scoped_usage(
                uid,
                rest[k].1.scope@,
            ) >= rest[k].1.limit_minutes * 60;
        lemma_job_starts(c, rest, now, uid, k);
        if job.0 != uid {
            a_cooldown_is_one_uids_own(b, job.0, job.1, now, uid);
        }
        let x = choose|x: int|
            0 <= x < rest.len() && (#[trigger] rest[x]).0 == uid && b.cooldown[uid] == now
                + rest[x].1.freeze_minutes * 60;
        assert(jobs[x].0 == uid);
    } else {
        lemma_jobs_wait(c, rest, now, uid);
        if j < n {
            assert(rest[j].0 == uid);
        }
        lemma_same_scoped(b, c, uid, job.1.scope@);
        a_cooldown_lasts_its_minutes(b, uid, job.1, now);
        assert(jobs[n].0 == uid);
    }
}

/// The scoped usage of a uid depends on its own counters alone.
proof fn lemma_same_scoped(a: CountersView, b: CountersView, uid: u32, scope: Seq<char>)
    requires
        count_of(a.usage, uid) == count_of(b.usage, uid),
        count_of(a.usage_fg, uid) == count_of(b.usage_fg, uid),
    ensures
        a.scoped_usage(uid, scope) == b.scoped_usage(uid, scope),
{
}

proof fn lemma_jobs_wait(c: CountersView, jobs: Seq<(u32, DurationRule)>, now: u64, uid: u32)
    requires
        !c.cooldown.contains_key(uid),
        forall|k: int|
            0 <= k < jobs.len() && (#[trigger] jobs[k]).0 == uid ==> c.scoped_usage(
                uid,
                jobs[k].1.scope@,
            ) < jobs[k].1.limit_minutes * 60,
    ensures
        agree(jobs_done(c, jobs, now), c, uid),
    decreases jobs.len(),
{
    if jobs.len() > 0 {
        let rest = jobs.drop_last();
        assert forall|k: int| 0 <= k < rest.len() && (#[trigger] rest[k]).0 == uid implies c.scoped_usage(
            uid,
            rest[k].1.scope@,
        ) < rest[k].1.limit_minutes * 60 by {
            assert(jobs[k] == rest[k]);
        }
        lemma_jobs_wait(c, rest, now, uid);
        let b = jobs_done(c, rest, now);
        let job = jobs[jobs.len() - 1];
        assert(job == jobs.last());
        if job.0 == uid {
            lemma_same_scoped(b, c, uid, job.1.scope@);
            within_the_limit_nothing_cools_down(b, uid, job.1, now);
        } else {
            a_cooldown_is_one_uids_own(b, job.0, job.1, now, uid);
        }
    }
}

proof fn lemma_jobs_cool(rules: Rules, uids: Map<Seq<char>, u32>)
    requires
        rules.wf(),
    ensures
        forall|k: int|
            0 <= k < all_jobs(rules, uids).len() ==> cools_down((#[trigger] all_jobs(rules, uids)[k]).1),
{
    lemma_app_jobs_cool(rules.apps.keys(), rules.apps.vals(), uids);
    lemma_member_jobs_cool(rules.groups.vals(), uids);
}

proof fn lemma_app_jobs_cool(keys: Seq<Seq<char>>, apps: Seq<AppRule>, uids: Map<Seq<char>, u32>)
    requires
        keys.len() == apps.len(),
    ensures
        forall|k: int|
            0 <= k < app_jobs(keys, apps, uids).len() ==> cools_down(
                (#[trigger] app_jobs(keys, apps, uids)[k]).1,
            ),
    decreases keys.len(),
{
    if keys.len() > 0 {
        lemma_app_jobs_cool(keys.drop_last(), apps.drop_last(), uids);
        let before = app_jobs(keys.drop_last(), apps.drop_last(), uids);
        let js = app_jobs(keys, apps, uids);
        assert forall|k: int| 0 <= k < js.len() implies cools_down((#[trigger] js[k]).1) by {
            if k < before.len() {
                assert(js[k] == before[k]);
            }
        }
    }
}

proof fn lemma_member_jobs_cool(groups: Seq<GroupRule>, uids: Map<Seq<char>, u32>)
    ensures
        forall|k: int|
            0 <= k < member_jobs(groups, uids).len() ==> cools_down(
                (#[trigger] member_jobs(groups, uids)[k]).1,
            ),
    decreases groups.len(),
{
    if groups.len() > 0 {
        lemma_member_jobs_cool(groups.drop_last(), uids);
        let before = member_jobs(groups.drop_last(), uids);
        let js = member_jobs(groups, uids);
        assert forall|k: int| 0 <= k < js.len() implies cools_down((#[trigger] js[k]).1) by {
            if k < before.len() {
                assert(js[k] == before[k]);
            }
        }
    }
}

/// A tick at which a limit with a cooldown is found used up starts the cooldown: the
/// uid then cools down, until the minutes of one of its rules from now, and keeps
/// its usage meanwhile.
pub proof fn a_tick_starts_the_cooldown_of_a_used_up_limit(
    c: CountersView,
    rules: Rules,
    uids: Map<Seq<char>, u32>,
    now: u64,
    uid: u32,
    d: DurationRule,
)
    requires
        rules.wf(),
        cooldowns_fit(rules, now),
        all_jobs(rules, uids).contains((uid, d)),
        !c.cooldown.contains_key(uid),
        c.scoped_usage(uid, d.scope@) >= d.limit_minutes * 60,
    ensures
        ({
            let r = cooldowns_done(c, rules, uids, now);
            &&& r.cooldown.contains_key(uid) && now < r.cooldown[uid]
            &&& exists|k: int|
                0 <= k < all_jobs(rules, uids).len() && (#[trigger] all_jobs(rules, uids)[k]).0 == uid
                    && r.cooldown[uid] == now + all_jobs(rules, uids)[k].1.freeze_minutes * 60
        }),
{
    let jobs = all_jobs(rules, uids);
    lemma_jobs_fit(rules, uids, now);
    lemma_jobs_cool(rules, uids);
    lemma_job_starts(c, jobs, now, uid, jobs.index_of((uid, d)));
    lemma_pools_keep_extensions(
        jobs_done(c, jobs, now),
        rules.groups.keys(),
        rules.groups.vals(),
        uids,
        now,
    );
}

proof fn lemma_job_ends(c: CountersView, jobs: Seq<(u32, DurationRule)>, now: u64, uid: u32)
    requires
        has_job(jobs, uid),
        c.cooldown.contains_key(uid),
        c.cooldown[uid] <= now,
        forall|k: int| 0 <= k < jobs.len() ==> cools_down((#[trigger] jobs[k]).1),
    ensures
        !jobs_done(c, jobs, now).cooldown.contains_key(uid),
        count_of(jobs_done(c, jobs, now).usage, uid) == 0,
        count_of(jobs_done(c, jobs, now).usage_fg, uid) == 0,
    decreases jobs.len(),
{
    let rest = jobs.drop_last();
    assert forall|k: int| 0 <= k < rest.len() implies #[trigger] rest[k] == jobs[k] by {}
    let b = jobs_done(c, rest, now);
    let job = jobs[jobs.len() - 1];
    assert(job == jobs.last());
    if has_job(rest, uid) {
        lemma_job_ends(c, rest, now, uid);
        if job.0 == uid {
            within_the_limit_nothing_cools_down(b, uid, job.1, now);
        } else {
            a_cooldown_is_one_uids_own(b, job.0, job.1, now, uid);
        }
    } else {
        lemma_jobs_leave_others(c, rest, now, uid);
        let j = choose|j: int| 0 <= j < jobs.len() && (#[trigger] jobs[j]).0 == uid;
        if j < rest.len() {
            assert(rest[j].0 == uid);
        }
        an_ended_cooldown_frees(b, uid, job.1, now);
    }
}

/// A tick at or after the end of a cooldown frees the uid: the cooldown is gone, and
/// its usage starts again from zero.
pub proof fn a_tick_ends_a_cooldown_that_is_over(
    c: CountersView,
    rules: Rules,
    uids: Map<Seq<char>, u32>,
    now: u64,
    uid: u32,
)
    requires
        rules.wf(),
        has_job(all_jobs(rules, uids), uid),
        c.cooldown.contains_key(uid),
        c.cooldown[uid] <= now,
    ensures
        ({
            let r = cooldowns_done(c, rules, uids, now);
            &&& !r.cooldown.contains_key(uid)
            &&& count_of(r.usage, uid) == 0
            &&& count_of(r.usage_fg, uid) == 0
        }),
{
    let jobs = all_jobs(rules, uids);
    let b = jobs_done(c, jobs, now);
    lemma_jobs_cool(rules, uids);
    lemma_job_ends(c, jobs, now, uid);
    let (gids, groups) = (rules.groups.keys(), rules.groups.vals());
    lemma_pools_keep_extensions(b, gids, groups, uids, now);
    lemma_pools_never_add_usage(b, gids, groups, uids, now, uid);
}

proof fn lemma_pools_never_add_usage(
    c: CountersView,
    gids: Seq<Seq<char>>,
    groups: Seq<GroupRule>,
    uids: Map<Seq<char>, u32>,
    now: u64,
    uid: u32,
)
    ensures
        ({
            let r = pools_done(c, gids, groups, uids, now);
            &&& count_of(r.usage, uid) == count_of(c.usage, uid) || count_of(r.usage, uid) == 0
            &&& count_of(r.usage_fg, uid) == count_of(c.usage_fg, uid) || count_of(r.usage_fg, uid)
                == 0
        }),
    decreases gids.len(),
{
    if gids.len() > 0 {
        lemma_pools_never_add_usage(c, gids.drop_last(), groups.drop_last(), uids, now, uid);
    }
}

/// Whether every cooldown of a shared pool that is there still runs at `now`.
pub open spec fn no_pool_is_over(c: CountersView, now: u64) -> bool {
    forall|g: Seq<char>| #[trigger] c.group_cooldown.contains_key(g) ==> now < c.group_cooldown[g]
}

proof fn lemma_pools_keep_usage(
    c: CountersView,
    gids: Seq<Seq<char>>,
    groups: Seq<GroupRule>,
    uids: Map<Seq<char>, u32>,
    now: u64,
)
    requires
        gids.len() == groups.len(),
        no_pool_is_over(c, now),
        forall|i: int|
            0 <= i < groups.len() && (#[trigger] groups[i]).enabled && cools_down(
                groups[i].rules.duration,
            ) ==> cooldown_fits(groups[i].rules.duration, now),
    ensures
        ({
            let r = pools_done(c, gids, groups, uids, now);
            &&& r.usage == c.usage
            &&& r.usage_fg == c.usage_fg
            &&& no_pool_is_over(r, now)
        }),
    decreases gids.len(),
{
    if gids.len() > 0 {
        let rest = groups.drop_last();
        assert forall|i: int| 0 <= i < rest.len() implies #[trigger] rest[i] == groups[i] by {}
        lemma_pools_keep_usage(c, gids.drop_last(), rest, uids, now);
        assert(groups[groups.len() - 1] == groups.last());
    }
}

/// A tick at which the members of a shared pool have used its limit up together
/// starts the cooldown of the group.
pub proof fn a_tick_starts_the_cooldown_of_a_used_up_pool(
    c: CountersView,
    rules: Rules,
    uids: Map<Seq<char>, u32>,
    now: u64,
    i: int,
)
    requires
        rules.wf(),
        0 <= i < rules.groups.keys().len(),
        cooldowns_fit(rules, now),
        no_pool_is_over(c, now),
        rules.groups.vals()[i].enabled,
        rules.groups.vals()[i].shared_pool,
        rules.groups.vals()[i].rules.duration.limit_minutes > 0,
        rules.groups.vals()[i].rules.duration.freeze_minutes > 0,
        !c.group_cooldown.contains_key(rules.groups.keys()[i]),
        pooled_usage(
            jobs_done(c, all_jobs(rules, uids), now),
            member_uids(views(rules.groups.vals()[i].members@), uids),
            rules.groups.vals()[i].rules.duration.scope@,
        ) >= rules.groups.vals()[i].rules.duration.limit_minutes * 60,
    ensures
        ({
            let r = cooldowns_done(c, rules, uids, now);
            let gid = rules.groups.keys()[i];
            r.group_cooldown.contains_key(gid) && r.group_cooldown[gid] == now
                + rules.groups.vals()[i].rules.duration.freeze_minutes * 60
        }),
{
    let jobs = all_jobs(rules, uids);
    let b = jobs_done(c, jobs, now);
    lemma_jobs_keep_extensions(c, jobs, now);
    let (gids, groups) = (rules.groups.keys(), rules.groups.vals());
    ascending_distinct(gids);
    lemma_pool_starts(b, gids, groups, uids, now, i);
}

proof fn lemma_pool_starts(
    c: CountersView,
    gids: Seq<Seq<char>>,
    groups: Seq<GroupRule>,
    uids: Map<Seq<char>, u32>,
    now: u64,
    i: int,
)
    requires
        gids.len() == groups.len(),
        gids.no_duplicates(),
        0 <= i < gids.len(),
        no_pool_is_over(c, now),
        forall|k: int|
            0 <= k < groups.len() && (#[trigger] groups[k]).enabled && cools_down(
                groups[k].rules.duration,
            ) ==> cooldown_fits(groups[k].rules.duration, now),
        groups[i].enabled,
        groups[i].shared_pool,
        cools_down(groups[i].rules.duration),
        !c.group_cooldown.contains_key(gids[i]),
        pooled_usage(
            c,
            member_uids(views(groups[i].members@), uids),
            groups[i].rules.duration.scope@,
        ) >= groups[i].rules.duration.limit_minutes * 60,
    ensures
        pools_done(c, gids, groups, uids, now).group_cooldown.contains_key(gids[i]),
        pools_done(c, gids, groups, uids, now).group_cooldown[gids[i]] == now
            + groups[i].rules.duration.freeze_minutes * 60,
    decreases gids.len(),
{
    let (ks, vs) = (gids.drop_last(), groups.drop_last());
    assert forall|k: int| 0 <= k < ks.len() implies #[trigger] vs[k] == groups[k] && ks[k]
        == gids[k] by {}
    let b = pools_done(c, ks, vs, uids, now);
    let g = groups.last();
    let ms = member_uids(views(g.members@), uids);
    if i < ks.len() {
        lemma_pool_starts(c, ks, vs, uids, now, i);
        a_pool_cooldown_is_the_pools_own(b, gids.last(), ms, g.rules.duration, now, gids[i], 0);
    } else {
        lemma_pools_keep_usage(c, ks, vs, uids, now);
        lemma_untouched_pool(c, ks, vs, uids, now, gids[i]);
        lemma_same_pool(b, c, ms, g.rules.duration.scope@);
        a_used_up_pool_cools_down(b, gids[i], ms, g.rules.duration, now, now);
    }
}

proof fn lemma_same_pool(a: CountersView, b: CountersView, uids: Seq<u32>, scope: Seq<char>)
    requires
        a.usage == b.usage,
        a.usage_fg == b.usage_fg,
    ensures
        pooled_usage(a, uids, scope) == pooled_usage(b, uids, scope),
    decreases uids.len(),
{
    if uids.len() > 0 {
        lemma_same_pool(a, b, uids.drop_last(), scope);
    }
}

proof fn lemma_untouched_pool(
    c: CountersView,
    gids: Seq<Seq<char>>,
    groups: Seq<GroupRule>,
    uids: Map<Seq<char>, u32>,
    now: u64,
    gid: Seq<char>,
)
    requires
        !gids.contains(gid),
    ensures
        ({
            let r = pools_done(c, gids, groups, uids, now);
            &&& r.group_cooldown.contains_key(gid) == c.group_cooldown.contains_key(gid)
            &&& r.group_cooldown.contains_key(gid) ==> r.group_cooldown[gid] == c.group_cooldown[gid]
        }),
    decreases gids.len(),
{
    if gids.len() > 0 {
        let rest = gids.drop_last();
        assert(gids[gids.len() - 1] == gids.last());
        assert(gids.contains(gids.last()));
        if rest.contains(gid) {
            assert(gids[rest.index_of(gid)] == gid);
        }
        lemma_untouched_pool(c, rest, groups.drop_last(), uids, now, gid);
        let b = pools_done(c, rest, groups.drop_last(), uids, now);
        let g = groups.last();
        let ms = member_uids(views(g.members@), uids);
        a_pool_cooldown_is_the_pools_own(b, gids.last(), ms, g.rules.duration, now, gid, 0);
    }
}

/// A tick at or after the end of a shared pool's cooldown frees the group: the
/// cooldown is gone, and the usage of every installed member starts again from zero.
pub proof fn a_tick_ends_a_pool_cooldown_that_is_over(
    c: CountersView,
    rules: Rules,
    uids: Map<Seq<char>, u32>,
    now: u64,
    i: int,
    uid: u32,
)
    requires
        rules.wf(),
        0 <= i < rules.groups.keys().len(),
        rules.groups.vals()[i].enabled,
        rules.groups.vals()[i].shared_pool,
        rules.groups.vals()[i].rules.duration.limit_minutes > 0,
        rules.groups.vals()[i].rules.duration.freeze_minutes > 0,
        c.group_cooldown.contains_key(rules.groups.keys()[i]),
        c.group_cooldown[rules.groups.keys()[i]] <= now,
        member_uids(views(rules.groups.vals()[i].members@), uids).contains(uid),
    ensures
        ({
            let r = cooldowns_done(c, rules, uids, now);
            &&& !r.group_cooldown.contains_key(rules.groups.keys()[i])
            &&& count_of(r.usage, uid) == 0
            &&& count_of(r.usage_fg, uid) == 0
        }),
{
    let jobs = all_jobs(rules, uids);
    let b = jobs_done(c, jobs, now);
    lemma_jobs_keep_extensions(c, jobs, now);
    let (gids, groups) = (rules.groups.keys(), rules.groups.vals());
    ascending_distinct(gids);
    lemma_pool_ends(b, gids, groups, uids, now, i, uid);
}

proof fn lemma_pool_ends(
    c: CountersView,
    gids: Seq<Seq<char>>,
    groups: Seq<GroupRule>,
    uids: Map<Seq<char>, u32>,
    now: u64,
    i: int,
    uid: u32,
)
    requires
        gids.len() == groups.len(),
        gids.no_duplicates(),
        0 <= i < gids.len(),
        groups[i].enabled,
        groups[i].shared_pool,
        cools_down(groups[i].rules.duration),
        c.group_cooldown.contains_key(gids[i]),
        c.group_cooldown[gids[i]] <= now,
        member_uids(views(groups[i].members@), uids).contains(uid),
    ensures
        ({
            let r = pools_done(c, gids, groups, uids, now);
            &&& !r.group_cooldown.contains_key(gids[i])
            &&& count_of(r.usage, uid) == 0
            &&& count_of(r.usage_fg, uid) == 0
        }),
    decreases gids.len(),
{
    let (ks, vs) = (gids.drop_last(), groups.drop_last());
    assert forall|k: int| 0 <= k < ks.len() implies #[trigger] vs[k] == groups[k] && ks[k]
        == gids[k] by {}
    let b = pools_done(c, ks, vs, uids, now);
    let g = groups.last();
    let ms = member_uids(views(g.members@), uids);
    if i < ks.len() {
        lemma_pool_ends(c, ks, vs, uids, now, i, uid);
        a_pool_cooldown_is_the_pools_own(b, gids.last(), ms, g.rules.duration, now, gids[i], uid);
    } else {
        lemma_untouched_pool(c, ks, vs, uids, now, gids[i]);
        let k = ms.index_of(uid);
        an_ended_pool_cooldown_frees(b, gids[i], ms, g.rules.duration, now, k);
    }
}

/// As long as no cooldown is over, moving the cooldowns on takes nobody's usage
/// away.
pub proof fn usage_is_kept_until_a_cooldown_is_over(
    c: CountersView,
    rules: Rules,
    uids: Map<Seq<char>, u32>,
    now: u64,
    uid: u32,
)
    requires
        rules.wf(),
        cooldowns_fit(rules, now),
        c.cooldown.contains_key(uid) ==> now < c.cooldown[uid],
        no_pool_is_over(c, now),
    ensures
        count_of(cooldowns_done(c, rules, uids, now).usage, uid) == count_of(c.usage, uid),
        count_of(cooldowns_done(c, rules, uids, now).usage_fg, uid) == count_of(c.usage_fg, uid),
{
    let jobs = all_jobs(rules, uids);
    let b = jobs_done(c, jobs, now);
    lemma_jobs_fit(rules, uids, now);
    lemma_jobs_cool(rules, uids);
    lemma_jobs_keep_extensions(c, jobs, now);
    if c.cooldown.contains_key(uid) {
        lemma_jobs_leave_others(c, jobs, now, uid);
    } else if exists|k: int|
        0 <= k < jobs.len() && (#[trigger] jobs[k]).0 == uid && c.scoped_usage(uid, jobs[k].1.scope@)
            >= jobs[k].1.limit_minutes * 60 {
        let k = choose|k: int|
            0 <= k < jobs.len() && (#[trigger] jobs[k]).0 == uid && c.scoped_usage(
                uid,
                jobs[k].1.scope@,
            ) >= jobs[k].1.limit_minutes * 60;
        lemma_job_starts(c, jobs, now, uid, k);
    } else {
        lemma_jobs_wait(c, jobs, now, uid);
    }
    lemma_pools_keep_usage(b, rules.groups.keys(), rules.groups.vals(), uids, now);
}

} // verus!
