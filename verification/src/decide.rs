//! The decision: which uids the rules want blocked, under which package names,
//! and what has to change for that.

use std::collections::{BTreeSet, HashMap};

use vstd::prelude::*;

use crate::counters::{
    a_limit_is_reached_at_its_minutes, pending, pooled_usage, Counters, CountersView,
};
use crate::pm::{key_package, lemma_key_colon, package_of, user_key};
use crate::rules::{AppRule, DurationRule, GroupRule, RuleSet, Rules};
use crate::table::{StrMap, StrSet};
use crate::text::{split_at_first, split_once, views};
use crate::uids::{map_keys, ordered_items};
use crate::window::{blocks, eval, windows_block};

verus! {

broadcast use {
    vstd::std_specs::hash::group_hash_axioms,
    vstd::std_specs::btree::group_btree_axioms,
};

/// The lowest uid of an app. Everything below belongs to the system and is
/// never blocked.
pub const FIRST_APP_UID: u32 = 10000;

// ---------------------------------------------------------------------------
// What a decision is made from
// ---------------------------------------------------------------------------

/// The moment of a decision.
#[derive(Debug, Clone, Copy, PartialEq, Eq, Structural)]
pub struct Moment {
    /// epoch seconds
    pub now: u64,
    /// local minute of the day
    pub minute: u32,
    /// local ISO weekday
    pub weekday: u8,
    /// whether the screen is off
    pub screen_off: bool,
}

/// What the rules are held against.
pub struct Situation<'a> {
    /// "user:pkg" -> uid
    pub uid_of: &'a StrMap<u32>,
    /// packages that may never be blocked
    pub protected: &'a StrSet,
    pub counters: &'a Counters,
    pub moment: Moment,
}

/// What the rules are held against.
pub struct SituationView {
    pub uids: Map<Seq<char>, u32>,
    pub protected: Set<Seq<char>>,
    pub counters: CountersView,
    pub moment: Moment,
}

impl<'a> View for Situation<'a> {
    type V = SituationView;

    open spec fn view(&self) -> SituationView {
        SituationView {
            uids: self.uid_of@,
            protected: self.protected@,
            counters: self.counters@,
            moment: self.moment,
        }
    }
}

impl<'a> Situation<'a> {
    /// The maps of the situation are well formed.
    pub open spec fn wf(&self) -> bool {
        self.uid_of.wf() && self.protected.wf() && self.counters.wf()
    }
}

/// The uids of those `members` that are installed, in order.
pub open spec fn member_uids(members: Seq<Seq<char>>, uids: Map<Seq<char>, u32>) -> Seq<u32>
    decreases members.len(),
{
    if members.len() == 0 {
        Seq::empty()
    } else if uids.contains_key(members.last()) {
        member_uids(members.drop_last(), uids).push(uids[members.last()])
    } else {
        member_uids(members.drop_last(), uids)
    }
}

/// The uids of those `members` that are installed, in order.
pub fn uids_of_members(members: &Vec<String>, uid_of: &StrMap<u32>) -> (r: Vec<u32>)
    requires
        uid_of.wf(),
    ensures
        r@ == member_uids(views(members@), uid_of@),
{
    let mut r: Vec<u32> = Vec::new();
    let ghost ms = views(members@);
    let mut i: usize = 0;
    assert(ms.take(0) =~= Seq::empty());
    while i < members.len()
        invariant
            uid_of.wf(),
            ms == views(members@),
            i <= members@.len(),
            r@ == member_uids(ms.take(i as int), uid_of@),
        decreases members@.len() - i,
    {
        assert(ms.take(i + 1).drop_last() =~= ms.take(i as int));
        assert(ms.take(i + 1).last() == members@[i as int]@);
        if let Some(uid) = uid_of.get(members[i].as_str()) {
            r.push(*uid);
        }
        i = i + 1;
    }
    assert(ms.take(i as int) =~= ms);
    r
}

/// The package that a key stands for: what follows the first ':', or all of it.
pub open spec fn guarded_package(key: Seq<char>) -> Seq<char> {
    match split_at_first(key, ':') {
        Some((_, p)) => p,
        None => key,
    }
}

/// "user:pkg" -> is this package on the never-block list?
pub fn is_protected(protected: &StrSet, key: &str) -> (r: bool)
    ensures
        r == protected@.contains(guarded_package(key@)),
{
    match split_once(key, ':') {
        Some((_, pkg)) => protected.contains(pkg.as_str()),
        None => protected.contains(key),
    }
}

// ---------------------------------------------------------------------------
// Claims
// ---------------------------------------------------------------------------

/// What one rule says about one uid.
#[derive(Debug)]
pub struct Claim {
    pub uid: u32,
    pub block: bool,
    /// the package that the rule names
    pub pkg: Option<String>,
}

/// What one rule says about one uid.
pub struct ClaimView {
    pub uid: u32,
    pub block: bool,
    pub pkg: Option<Seq<char>>,
}

impl View for Claim {
    type V = ClaimView;

    open spec fn view(&self) -> ClaimView {
        ClaimView {
            uid: self.uid,
            block: self.block,
            pkg: match self.pkg {
                Some(p) => Some(p@),
                None => None,
            },
        }
    }
}

/// The views of `claims`.
pub open spec fn claim_views(claims: Seq<Claim>) -> Seq<ClaimView> {
    claims.map_values(|c: Claim| c@)
}

/// Whether the usage of `uids` has passed the limit `d`. No limit is never passed.
pub open spec fn over_limit(c: CountersView, d: DurationRule, uids: Seq<u32>) -> bool {
    d.limit_minutes > 0 && c.used_up(uids, d)
}

impl SituationView {
    /// The uid that a rule for `key` is about: none where the app is not
    /// installed, belongs to the system or is protected.
    pub open spec fn subject(self, key: Seq<char>) -> Option<u32> {
        if self.uids.contains_key(key) && self.uids[key] >= FIRST_APP_UID
            && !self.protected.contains(guarded_package(key)) {
            Some(self.uids[key])
        } else {
            None
        }
    }

    /// Whether `rules` block at this moment.
    pub open spec fn blocks(
        self,
        enabled: bool,
        rules: RuleSet,
        ext: bool,
        over: bool,
        cool: bool,
    ) -> bool {
        enabled && blocks(
            rules,
            self.moment.minute,
            self.moment.weekday,
            ext,
            over,
            cool,
            self.moment.screen_off,
        )
    }

    /// Whether the rules of an app block `uid`.
    pub open spec fn app_blocks(self, app: AppRule, uid: u32) -> bool {
        self.blocks(
            app.enabled,
            app.rules,
            pending(self.counters.extension, uid, self.moment.now),
            over_limit(self.counters, app.rules.duration, seq![uid]),
            pending(self.counters.cooldown, uid, self.moment.now),
        )
    }

    /// Whether the rules of the group `gid` block its member `uid`. The
    /// extension is always the group's; a shared pool also shares usage and
    /// cooldown.
    pub open spec fn group_blocks(self, gid: Seq<char>, g: GroupRule, uid: u32) -> bool {
        let pool = member_uids(views(g.members@), self.uids);
        self.blocks(
            g.enabled,
            g.rules,
            pending(self.counters.group_extension, gid, self.moment.now),
            over_limit(
                self.counters,
                g.rules.duration,
                if g.shared_pool {
                    pool
                } else {
                    seq![uid]
                },
            ),
            if g.shared_pool {
                pending(self.counters.group_cooldown, gid, self.moment.now)
            } else {
                pending(self.counters.cooldown, uid, self.moment.now)
            },
        )
    }

    /// What the rules of the apps say, in order of their keys.
    pub open spec fn app_claims(self, keys: Seq<Seq<char>>, apps: Seq<AppRule>) -> Seq<ClaimView>
        decreases keys.len(),
    {
        if keys.len() == 0 {
            Seq::empty()
        } else {
            let before = self.app_claims(keys.drop_last(), apps.drop_last());
            match self.subject(keys.last()) {
                Some(uid) => before.push(
                    ClaimView {
                        uid,
                        block: self.app_blocks(apps.last(), uid),
                        pkg: key_package(keys.last()),
                    },
                ),
                None => before,
            }
        }
    }

    /// What the rules of the group `gid` say about `members`, in order.
    pub open spec fn member_claims(
        self,
        gid: Seq<char>,
        g: GroupRule,
        members: Seq<Seq<char>>,
    ) -> Seq<ClaimView>
        decreases members.len(),
    {
        if members.len() == 0 {
            Seq::empty()
        } else {
            let before = self.member_claims(gid, g, members.drop_last());
            match self.subject(members.last()) {
                Some(uid) => before.push(
                    ClaimView {
                        uid,
                        block: self.group_blocks(gid, g, uid),
                        pkg: key_package(members.last()),
                    },
                ),
                None => before,
            }
        }
    }

    /// What the rules of the groups say, in order of their ids.
    pub open spec fn group_claims(
        self,
        gids: Seq<Seq<char>>,
        groups: Seq<GroupRule>,
    ) -> Seq<ClaimView>
        decreases gids.len(),
    {
        if gids.len() == 0 {
            Seq::empty()
        } else {
            self.group_claims(gids.drop_last(), groups.drop_last()) + self.member_claims(
                gids.last(),
                groups.last(),
                views(groups.last().members@),
            )
        }
    }

    /// What all rules say: the apps, then the groups.
    pub open spec fn claims(self, rules: Rules) -> Seq<ClaimView> {
        self.app_claims(rules.apps.keys(), rules.apps.vals()) + self.group_claims(
            rules.groups.keys(),
            rules.groups.vals(),
        )
    }
}

/// Whether the deadline of `k` is still to come.
fn uid_pending(deadlines: &HashMap<u32, u64>, k: u32, now: u64) -> (r: bool)
    ensures
        r == pending(deadlines@, k, now),
{
    match deadlines.get(&k) {
        Some(t) => now < *t,
        None => false,
    }
}

/// Whether the deadline of `k` is still to come.
fn group_pending(deadlines: &StrMap<u64>, k: &str, now: u64) -> (r: bool)
    requires
        deadlines.wf(),
    ensures
        r == pending(deadlines@, k@, now),
{
    match deadlines.get(k) {
        Some(t) => now < *t,
        None => false,
    }
}

/// Whether the usage of `uids` has passed the limit `d`.
pub fn over_duration(counters: &Counters, d: &DurationRule, uids: &[u32]) -> (r: bool)
    ensures
        r == over_limit(counters@, *d, uids@),
{
    d.limit_minutes > 0 && counters.used_up(uids, d)
}

/// The uid that a rule for `key` is about.
fn subject(s: &Situation, key: &str) -> (r: Option<u32>)
    requires
        s.wf(),
    ensures
        r == s@.subject(key@),
{
    match s.uid_of.get(key) {
        Some(uid) => {
            if *uid < FIRST_APP_UID || is_protected(s.protected, key) {
                None
            } else {
                Some(*uid)
            }
        },
        None => None,
    }
}

/// Whether the rules of an app block `uid`.
fn app_blocks(s: &Situation, app: &AppRule, uid: u32) -> (r: bool)
    requires
        s.wf(),
    ensures
        r == s@.app_blocks(*app, uid),
{
    let one: Vec<u32> = vec![uid];
    assert(one@ =~= seq![uid]);
    let ext: bool = uid_pending(&s.counters.extension_until, uid, s.moment.now);
    let over: bool = over_duration(s.counters, &app.rules.duration, one.as_slice());
    let cool: bool = uid_pending(&s.counters.cooldown_until, uid, s.moment.now);
    app.enabled && eval(
        &app.rules,
        s.moment.minute,
        s.moment.weekday,
        ext,
        over,
        cool,
        s.moment.screen_off,
    )
}

/// Whether the rules of the group `gid`, whose members have the uids `pool`,
/// block its member `uid`.
fn group_blocks(s: &Situation, gid: &str, g: &GroupRule, pool: &Vec<u32>, uid: u32) -> (r: bool)
    requires
        s.wf(),
        pool@ == member_uids(views(g.members@), s.uid_of@),
    ensures
        r == s@.group_blocks(gid@, *g, uid),
{
    let one: Vec<u32> = vec![uid];
    assert(one@ =~= seq![uid]);
    // Extension is always per-group: the +5/+20 button exempts the whole group;
    // shared_pool only affects usage/cooldown pooling.
    let ext: bool = group_pending(&s.counters.group_extension_until, gid, s.moment.now);
    let over: bool = if g.shared_pool {
        over_duration(s.counters, &g.rules.duration, pool.as_slice())
    } else {
        over_duration(s.counters, &g.rules.duration, one.as_slice())
    };
    let cool: bool = if g.shared_pool {
        group_pending(&s.counters.group_cooldown_until, gid, s.moment.now)
    } else {
        uid_pending(&s.counters.cooldown_until, uid, s.moment.now)
    };
    g.enabled && eval(
        &g.rules,
        s.moment.minute,
        s.moment.weekday,
        ext,
        over,
        cool,
        s.moment.screen_off,
    )
}

/// What all rules say about the uids they are about: the apps in order of their
/// keys, then the groups in order of their ids.
pub fn claims(rules: &Rules, s: &Situation) -> (r: Vec<Claim>)
    requires
        rules.wf(),
        s.wf(),
    ensures
        claim_views(r@) == s@.claims(*rules),
{
    let mut r: Vec<Claim> = Vec::new();
    let ghost keys = rules.apps.keys();
    let ghost apps = rules.apps.vals();
    let ghost gids = rules.groups.keys();
    let ghost groups = rules.groups.vals();
    let mut i: usize = 0;
    assert(keys.take(0) =~= Seq::empty());
    assert(claim_views(r@) =~= Seq::empty());
    while i < rules.apps.len()
        invariant
            rules.wf(),
            s.wf(),
            keys == rules.apps.keys(),
            apps == rules.apps.vals(),
            i <= keys.len(),
            claim_views(r@) == s@.app_claims(keys.take(i as int), apps.take(i as int)),
        decreases keys.len() - i,
    {
        let key = rules.apps.key_at(i);
        let app = rules.apps.val_at(i);
        let ghost before = r@;
        assert(keys.take(i + 1).drop_last() =~= keys.take(i as int));
        assert(apps.take(i + 1).drop_last() =~= apps.take(i as int));
        if let Some(uid) = subject(s, key.as_str()) {
            let block: bool = app_blocks(s, app, uid);
            let c = Claim { uid, block, pkg: package_of(key.as_str()) };
            let ghost cv = c@;
            r.push(c);
            assert(claim_views(r@) =~= claim_views(before).push(cv));
        }
        i = i + 1;
    }
    assert(keys.take(i as int) =~= keys);
    assert(apps.take(i as int) =~= apps);
    let ghost first = claim_views(r@);
    i = 0;
    assert(gids.take(0) =~= Seq::empty());
    assert(first + s@.group_claims(gids.take(0), groups.take(0)) =~= first);
    while i < rules.groups.len()
        invariant
            rules.wf(),
            s.wf(),
            gids == rules.groups.keys(),
            groups == rules.groups.vals(),
            i <= gids.len(),
            claim_views(r@) == first + s@.group_claims(gids.take(i as int), groups.take(i as int)),
        decreases gids.len() - i,
    {
        let gid = rules.groups.key_at(i);
        let g = rules.groups.val_at(i);
        let pool = uids_of_members(&g.members, s.uid_of);
        let ghost start = claim_views(r@);
        let ghost ms = views(g.members@);
        let mut j: usize = 0;
        assert(ms.take(0) =~= Seq::empty());
        assert(start + s@.member_claims(gid@, *g, ms.take(0)) =~= start);
        while j < g.members.len()
            invariant
                s.wf(),
                ms == views(g.members@),
                pool@ == member_uids(ms, s.uid_of@),
                j <= g.members@.len(),
                claim_views(r@) == start + s@.member_claims(gid@, *g, ms.take(j as int)),
            decreases g.members@.len() - j,
        {
            let member = &g.members[j];
            let ghost before = r@;
            let ghost prefix = s@.member_claims(gid@, *g, ms.take(j as int));
            assert(ms.take(j + 1).drop_last() =~= ms.take(j as int));
            assert(ms.take(j + 1).last() == member@);
            if let Some(uid) = subject(s, member.as_str()) {
                let block: bool = group_blocks(s, gid.as_str(), g, &pool, uid);
                let c = Claim { uid, block, pkg: package_of(member.as_str()) };
                let ghost cv = c@;
                r.push(c);
                assert(claim_views(r@) =~= claim_views(before).push(cv));
                assert(start + prefix.push(cv) =~= (start + prefix).push(cv));
            }
            j = j + 1;
        }
        assert(ms.take(j as int) =~= ms);
        proof {
            let gs = s@.group_claims(gids.take(i as int), groups.take(i as int));
            let mc = s@.member_claims(gid@, *g, ms);
            assert(gids.take(i + 1).drop_last() =~= gids.take(i as int));
            assert(groups.take(i + 1).drop_last() =~= groups.take(i as int));
            assert((first + gs) + mc =~= first + (gs + mc));
        }
        i = i + 1;
    }
    assert(gids.take(i as int) =~= gids);
    assert(groups.take(i as int) =~= groups);
    r
}

// ---------------------------------------------------------------------------
// The wanted state
// ---------------------------------------------------------------------------

/// What the claims want for `uid`: the last one about it decides. None where no
/// rule is about it.
pub open spec fn wanted(claims: Seq<ClaimView>, uid: u32) -> Option<bool>
    decreases claims.len(),
{
    if claims.len() == 0 {
        None
    } else if claims.last().uid == uid {
        Some(claims.last().block)
    } else {
        wanted(claims.drop_last(), uid)
    }
}

/// What the claims want for each uid they are about.
pub open spec fn wanted_map(claims: Seq<ClaimView>) -> Map<u32, bool> {
    Map::new(
        |uid: u32| wanted(claims, uid) is Some,
        |uid: u32| wanted(claims, uid).unwrap(),
    )
}

/// What the claims want for each uid they are about.
pub fn wants(claims: &Vec<Claim>) -> (r: HashMap<u32, bool>)
    ensures
        r@ == wanted_map(claim_views(claims@)),
{
    let mut r: HashMap<u32, bool> = HashMap::new();
    let ghost cs = claim_views(claims@);
    let mut i: usize = 0;
    assert(r@ =~= wanted_map(cs.take(0)));
    while i < claims.len()
        invariant
            cs == claim_views(claims@),
            i <= claims@.len(),
            r@ == wanted_map(cs.take(i as int)),
        decreases claims@.len() - i,
    {
        let ghost before = r@;
        assert(cs.take(i + 1).drop_last() =~= cs.take(i as int));
        assert(cs.take(i + 1).last() == claims@[i as int]@);
        let _ = r.insert(claims[i].uid, claims[i].block);
        assert forall|uid: u32| #[trigger] wanted(cs.take(i + 1), uid) == if uid
            == claims@[i as int].uid {
            Some(claims@[i as int].block)
        } else {
            wanted(cs.take(i as int), uid)
        } by {}
        assert(r@ =~= wanted_map(cs.take(i + 1)));
        i = i + 1;
    }
    assert(cs.take(i as int) =~= cs);
    r
}

// ---------------------------------------------------------------------------
// The names behind a block
// ---------------------------------------------------------------------------

/// The package names that the user blocked, by uid. The killer confirms a
/// process's identity from its own cmdline before signalling, so a recycled uid
/// cannot hit a new app.
#[derive(Debug)]
pub struct BlockIndex {
    pub names: HashMap<u32, StrSet>,
}

/// Whether some claim blocks `uid` under the name `pkg`.
pub open spec fn blocked_as(claims: Seq<ClaimView>, uid: u32, pkg: Seq<char>) -> bool {
    exists|i: int|
        0 <= i < claims.len() && (#[trigger] claims[i]).uid == uid && claims[i].block
            && claims[i].pkg == Some(pkg)
}

impl BlockIndex {
    /// The names of each uid are well formed.
    pub open spec fn wf(&self) -> bool {
        forall|uid: u32| #[trigger] self.names@.contains_key(uid) ==> self.names@[uid].wf()
    }

    /// Whether the index lists `pkg` for `uid`.
    pub open spec fn lists(&self, uid: u32, pkg: Seq<char>) -> bool {
        self.names@.contains_key(uid) && self.names@[uid]@.contains(pkg)
    }

    /// An index that lists nothing.
    pub fn new() -> (r: Self)
        ensures
            r.wf(),
            forall|uid: u32, pkg: Seq<char>| !#[trigger] r.lists(uid, pkg),
    {
        BlockIndex { names: HashMap::new() }
    }

    /// Whether the index lists `pkg` for `uid`.
    pub fn contains(&self, uid: u32, pkg: &str) -> (r: bool)
        ensures
            r == self.lists(uid, pkg@),
    {
        match self.names.get(&uid) {
            Some(s) => s.contains(pkg),
            None => false,
        }
    }

    /// Lists `pkg` for `uid`.
    pub fn list(&mut self, uid: u32, pkg: String)
        requires
            old(self).wf(),
        ensures
            final(self).wf(),
            forall|u: u32, p: Seq<char>| #[trigger]
                final(self).lists(u, p) == (old(self).lists(u, p) || (u == uid && p == pkg@)),
    {
        let ghost pv = pkg@;
        let mut names = match self.names.remove(&uid) {
            Some(s) => s,
            None => StrSet::new(),
        };
        let _ = names.insert(pkg);
        let ghost ns = names;
        let _ = self.names.insert(uid, names);
        assert(self.names@ =~= old(self).names@.insert(uid, ns));
    }
}

/// The package names behind the blocking claims.
pub fn block_index(claims: &Vec<Claim>) -> (r: BlockIndex)
    ensures
        r.wf(),
        forall|uid: u32, pkg: Seq<char>| #[trigger]
            r.lists(uid, pkg) == blocked_as(claim_views(claims@), uid, pkg),
{
    let mut r = BlockIndex::new();
    let ghost cs = claim_views(claims@);
    let mut i: usize = 0;
    while i < claims.len()
        invariant
            r.wf(),
            cs == claim_views(claims@),
            i <= claims@.len(),
            forall|uid: u32, pkg: Seq<char>| #[trigger]
                r.lists(uid, pkg) == blocked_as(cs.take(i as int), uid, pkg),
        decreases claims@.len() - i,
    {
        let c = &claims[i];
        let ghost before = r;
        if c.block {
            if let Some(pkg) = &c.pkg {
                r.list(c.uid, pkg.clone());
            }
        }
        assert forall|uid: u32, pkg: Seq<char>| #[trigger]
            r.lists(uid, pkg) == blocked_as(cs.take(i + 1), uid, pkg) by {
            let a = cs.take(i as int);
            let b = cs.take(i + 1);
            assert(b[i as int] == c@);
            if before.lists(uid, pkg) {
                let k = choose|k: int|
                    0 <= k < a.len() && (#[trigger] a[k]).uid == uid && a[k].block && a[k].pkg
                        == Some(pkg);
                assert(b[k] == a[k]);
            }
            if blocked_as(b, uid, pkg) {
                let k = choose|k: int|
                    0 <= k < b.len() && (#[trigger] b[k]).uid == uid && b[k].block && b[k].pkg
                        == Some(pkg);
                if k < i {
                    assert(a[k] == b[k]);
                    assert(blocked_as(a, uid, pkg));
                }
            }
        }
        i = i + 1;
    }
    assert(cs.take(i as int) =~= cs);
    r
}

// ---------------------------------------------------------------------------
// What has to change
// ---------------------------------------------------------------------------

/// One uid to block or to release.
#[derive(Debug, Clone, Copy, PartialEq, Eq, Structural)]
pub struct Change {
    pub uid: u32,
    pub block: bool,
}

/// Whether `uid` has to be switched to `block`: it is not as it is wanted, or it
/// is blocked and no rule is about it any more.
pub open spec fn switches(want: Map<u32, bool>, blocked: Set<u32>, uid: u32, block: bool) -> bool {
    if want.contains_key(uid) {
        block == want[uid] && block != blocked.contains(uid)
    } else {
        blocked.contains(uid) && !block
    }
}

/// Whether `changes` are exactly the switches, one for each uid.
pub open spec fn transition(want: Map<u32, bool>, blocked: Set<u32>, changes: Seq<Change>) -> bool {
    &&& forall|i: int, j: int|
        0 <= i < j < changes.len() ==> (#[trigger] changes[i]).uid != (#[trigger] changes[j]).uid
    &&& forall|i: int|
        0 <= i < changes.len() ==> #[trigger] switches(want, blocked, changes[i].uid, changes[i].block)
    &&& forall|uid: u32, block: bool| #[trigger]
        switches(want, blocked, uid, block) ==> changes.contains(Change { uid, block })
}

/// What has to change so that exactly the wanted uids are blocked. Uids that
/// rules are about come first, then those that no rule is about any more.
pub fn transitions(want: &HashMap<u32, bool>, blocked: &BTreeSet<u32>) -> (r: Vec<Change>)
    ensures
        transition(want@, blocked@, r@),
{
    let mut r: Vec<Change> = Vec::new();
    let ks = map_keys(want);
    let mut i: usize = 0;
    while i < ks.len()
        invariant
            i <= ks@.len(),
            ks@.no_duplicates(),
            ks@.to_set() == want@.dom(),
            forall|a: int, b: int|
                0 <= a < b < r@.len() ==> (#[trigger] r@[a]).uid != (#[trigger] r@[b]).uid,
            forall|a: int|
                0 <= a < r@.len() ==> #[trigger] switches(want@, blocked@, r@[a].uid, r@[a].block),
            forall|a: int|
                0 <= a < r@.len() ==> exists|k: int| 0 <= k < i && ks@[k] == (#[trigger] r@[a]).uid,
            forall|k: int, block: bool|
                0 <= k < i && #[trigger] switches(want@, blocked@, ks@[k], block)
                    ==> r@.contains(Change { uid: ks@[k], block }),
        decreases ks@.len() - i,
    {
        let uid: u32 = ks[i];
        assert(ks@.to_set().contains(uid));
        let ghost before = r@;
        if let Some(w) = want.get(&uid) {
            let should: bool = *w;
            if should != blocked.contains(&uid) {
                r.push(Change { uid, block: should });
                assert(r@[before.len() as int] == Change { uid, block: should });
            }
        }
        assert forall|k: int, block: bool|
            0 <= k < i + 1 && #[trigger] switches(want@, blocked@, ks@[k], block) implies r@.contains(
            Change { uid: ks@[k], block },
        ) by {
            if k < i {
                let x = Change { uid: ks@[k], block };
                assert(before.contains(x));
                assert(r@[before.index_of(x)] == x);
            } else {
                assert(r@.last() == Change { uid, block });
            }
        }
        i = i + 1;
    }
    let ghost first = r@;
    assert forall|uid: u32, block: bool|
        want@.contains_key(uid) && #[trigger] switches(want@, blocked@, uid, block) implies first.contains(
        Change { uid, block },
    ) by {
        assert(ks@.to_set().contains(uid));
        let k = ks@.index_of(uid);
        assert(switches(want@, blocked@, ks@[k], block));
    }
    assert forall|a: int| 0 <= a < first.len() implies want@.contains_key(
        (#[trigger] first[a]).uid,
    ) by {
        let k = choose|k: int| 0 <= k < ks@.len() && ks@[k] == first[a].uid;
        assert(ks@.to_set().contains(ks@[k]));
    }
    let bs = ordered_items(blocked);
    i = 0;
    while i < bs.len()
        invariant
            i <= bs@.len(),
            forall|a: int, b: int| 0 <= a < b < bs@.len() ==> bs@[a] < bs@[b],
            bs@.to_set() == blocked@,
            forall|a: int, b: int|
                0 <= a < b < r@.len() ==> (#[trigger] r@[a]).uid != (#[trigger] r@[b]).uid,
            forall|a: int|
                0 <= a < r@.len() ==> #[trigger] switches(want@, blocked@, r@[a].uid, r@[a].block),
            forall|a: int|
                0 <= a < r@.len() ==> want@.contains_key((#[trigger] r@[a]).uid) || exists|k: int|
                    0 <= k < i && bs@[k] == r@[a].uid,
            forall|x: Change| #[trigger] first.contains(x) ==> r@.contains(x),
            forall|k: int|
                0 <= k < i && !want@.contains_key(#[trigger] bs@[k]) ==> r@.contains(
                    Change { uid: bs@[k], block: false },
                ),
        decreases bs@.len() - i,
    {
        let uid: u32 = bs[i];
        let ghost before = r@;
        assert(bs@.to_set().contains(uid));
        if !want.contains_key(&uid) {
            r.push(Change { uid, block: false });
            assert(r@[before.len() as int] == Change { uid, block: false });
        }
        assert forall|x: Change| #[trigger] before.contains(x) implies r@.contains(x) by {
            assert(r@[before.index_of(x)] == x);
        }
        i = i + 1;
    }
    assert forall|uid: u32, block: bool| #[trigger]
        switches(want@, blocked@, uid, block) implies r@.contains(Change { uid, block }) by {
        if want@.contains_key(uid) {
            assert(first.contains(Change { uid, block }));
        } else {
            assert(bs@.to_set().contains(uid));
            let k = bs@.index_of(uid);
            assert(!want@.contains_key(bs@[k]));
        }
    }
    r
}

// ---------------------------------------------------------------------------
// Laws
// ---------------------------------------------------------------------------

/// Whether the rule of the app at `i` makes the claim `c`.
pub open spec fn app_says(
    s: SituationView,
    keys: Seq<Seq<char>>,
    apps: Seq<AppRule>,
    i: int,
    c: ClaimView,
) -> bool {
    &&& 0 <= i < keys.len()
    &&& s.subject(keys[i]) == Some(c.uid)
    &&& c.block == s.app_blocks(apps[i], c.uid)
    &&& c.pkg == key_package(keys[i])
}

/// Whether the rule of the group `g` makes the claim `c` about its member at `m`.
pub open spec fn member_says(
    s: SituationView,
    gid: Seq<char>,
    g: GroupRule,
    members: Seq<Seq<char>>,
    m: int,
    c: ClaimView,
) -> bool {
    &&& 0 <= m < members.len()
    &&& s.subject(members[m]) == Some(c.uid)
    &&& c.block == s.group_blocks(gid, g, c.uid)
    &&& c.pkg == key_package(members[m])
}

/// Whether the rule of the group at `i` makes the claim `c` about its member at `m`.
pub open spec fn group_says(
    s: SituationView,
    gids: Seq<Seq<char>>,
    groups: Seq<GroupRule>,
    i: int,
    m: int,
    c: ClaimView,
) -> bool {
    0 <= i < gids.len() && member_says(s, gids[i], groups[i], views(groups[i].members@), m, c)
}

/// Whether some rule makes the claim `c`: that of an app about itself, or that of
/// a group about a member.
pub open spec fn some_rule_says(s: SituationView, rules: Rules, c: ClaimView) -> bool {
    ||| exists|i: int| #[trigger] app_says(s, rules.apps.keys(), rules.apps.vals(), i, c)
    ||| exists|i: int, m: int| #[trigger]
        group_says(s, rules.groups.keys(), rules.groups.vals(), i, m, c)
}

proof fn lemma_app_says(s: SituationView, keys: Seq<Seq<char>>, apps: Seq<AppRule>, i: int)
    requires
        keys.len() == apps.len(),
        0 <= i < s.app_claims(keys, apps).len(),
    ensures
        exists|k: int| #[trigger] app_says(s, keys, apps, k, s.app_claims(keys, apps)[i]),
    decreases keys.len(),
{
    let (ks, vs) = (keys.drop_last(), apps.drop_last());
    let before = s.app_claims(ks, vs);
    let c = s.app_claims(keys, apps)[i];
    if i < before.len() {
        lemma_app_says(s, ks, vs, i);
        let k = choose|k: int| #[trigger] app_says(s, ks, vs, k, before[i]);
        assert(ks[k] == keys[k] && vs[k] == apps[k]);
        assert(app_says(s, keys, apps, k, c));
    } else {
        assert(app_says(s, keys, apps, keys.len() - 1, c));
    }
}

proof fn lemma_member_says(
    s: SituationView,
    gid: Seq<char>,
    g: GroupRule,
    members: Seq<Seq<char>>,
    i: int,
)
    requires
        0 <= i < s.member_claims(gid, g, members).len(),
    ensures
        exists|m: int| #[trigger]
            member_says(s, gid, g, members, m, s.member_claims(gid, g, members)[i]),
    decreases members.len(),
{
    let rest = members.drop_last();
    let before = s.member_claims(gid, g, rest);
    let c = s.member_claims(gid, g, members)[i];
    if i < before.len() {
        lemma_member_says(s, gid, g, rest, i);
        let m = choose|m: int| #[trigger] member_says(s, gid, g, rest, m, before[i]);
        assert(rest[m] == members[m]);
        assert(member_says(s, gid, g, members, m, c));
    } else {
        assert(member_says(s, gid, g, members, members.len() - 1, c));
    }
}

proof fn lemma_group_says(s: SituationView, gids: Seq<Seq<char>>, groups: Seq<GroupRule>, i: int)
    requires
        gids.len() == groups.len(),
        0 <= i < s.group_claims(gids, groups).len(),
    ensures
        exists|k: int, m: int| #[trigger]
            group_says(s, gids, groups, k, m, s.group_claims(gids, groups)[i]),
    decreases gids.len(),
{
    let (ks, vs) = (gids.drop_last(), groups.drop_last());
    let before = s.group_claims(ks, vs);
    let c = s.group_claims(gids, groups)[i];
    if i < before.len() {
        lemma_group_says(s, ks, vs, i);
        let (k, m) = choose|k: int, m: int| #[trigger] group_says(s, ks, vs, k, m, before[i]);
        assert(ks[k] == gids[k] && vs[k] == groups[k]);
        assert(group_says(s, gids, groups, k, m, c));
    } else {
        let (gid, g) = (gids.last(), groups.last());
        let members = views(g.members@);
        lemma_member_says(s, gid, g, members, i - before.len());
        let m = choose|m: int| #[trigger]
            member_says(s, gid, g, members, m, s.member_claims(gid, g, members)[i - before.len()]);
        assert(group_says(s, gids, groups, gids.len() - 1, m, c));
    }
}

/// Every claim is made by a rule: it is about an installed app of a user, under a
/// key whose package is not protected, and says what that rule decides.
pub proof fn claims_come_from_rules(s: SituationView, rules: Rules, i: int)
    requires
        rules.wf(),
        0 <= i < s.claims(rules).len(),
    ensures
        some_rule_says(s, rules, s.claims(rules)[i]),
{
    let a = s.app_claims(rules.apps.keys(), rules.apps.vals());
    if i < a.len() {
        lemma_app_says(s, rules.apps.keys(), rules.apps.vals(), i);
    } else {
        lemma_group_says(s, rules.groups.keys(), rules.groups.vals(), i - a.len());
    }
}

/// What is wanted for a uid comes from a claim about it.
pub proof fn wanted_comes_from_a_claim(claims: Seq<ClaimView>, uid: u32)
    requires
        wanted(claims, uid) is Some,
    ensures
        exists|i: int|
            0 <= i < claims.len() && (#[trigger] claims[i]).uid == uid && Some(claims[i].block)
                == wanted(claims, uid),
    decreases claims.len(),
{
    if claims.last().uid == uid {
        assert(claims[claims.len() - 1].uid == uid);
    } else {
        let before = claims.drop_last();
        wanted_comes_from_a_claim(before, uid);
        let i = choose|i: int|
            0 <= i < before.len() && (#[trigger] before[i]).uid == uid && Some(before[i].block)
                == wanted(before, uid);
        assert(claims[i] == before[i]);
    }
}

/// Whether the rule of an app asks for `uid` to be blocked: it is enabled, decides
/// so now, and stands under a key that is installed as `uid` and not protected.
pub open spec fn app_asks(s: SituationView, rules: Rules, i: int, uid: u32) -> bool {
    &&& 0 <= i < rules.apps.keys().len()
    &&& s.subject(rules.apps.keys()[i]) == Some(uid)
    &&& rules.apps.vals()[i].enabled
    &&& s.app_blocks(rules.apps.vals()[i], uid)
}

/// Whether the rule of a group asks for `uid` to be blocked: it is enabled, decides
/// so now, and has a member that is installed as `uid` and not protected.
pub open spec fn group_asks(s: SituationView, rules: Rules, i: int, m: int, uid: u32) -> bool {
    let g = rules.groups.vals()[i];
    &&& 0 <= i < rules.groups.keys().len()
    &&& 0 <= m < g.members@.len()
    &&& s.subject(g.members@[m]@) == Some(uid)
    &&& g.enabled
    &&& s.group_blocks(rules.groups.keys()[i], g, uid)
}

/// Whether some rule asks for `uid` to be blocked.
pub open spec fn some_rule_asks(s: SituationView, rules: Rules, uid: u32) -> bool {
    ||| exists|i: int| #[trigger] app_asks(s, rules, i, uid)
    ||| exists|i: int, m: int| #[trigger] group_asks(s, rules, i, m, uid)
}

/// A claim to block comes from a rule that asks for it.
pub proof fn a_block_is_asked_for(s: SituationView, rules: Rules, c: ClaimView)
    requires
        some_rule_says(s, rules, c),
        c.block,
    ensures
        some_rule_asks(s, rules, c.uid),
{
    if exists|i: int| #[trigger] app_says(s, rules.apps.keys(), rules.apps.vals(), i, c) {
        let i = choose|i: int| #[trigger]
            app_says(s, rules.apps.keys(), rules.apps.vals(), i, c);
        assert(app_asks(s, rules, i, c.uid));
    } else {
        let (i, m) = choose|i: int, m: int| #[trigger]
            group_says(s, rules.groups.keys(), rules.groups.vals(), i, m, c);
        assert(views(rules.groups.vals()[i].members@)[m] == rules.groups.vals()[i].members@[m]@);
        assert(group_asks(s, rules, i, m, c.uid));
    }
}

/// The system is never blocked, and a uid is wanted blocked only where an enabled
/// rule of an app or a group asks for it, through a key that is not protected.
pub proof fn only_what_a_rule_asks_for_is_wanted(s: SituationView, rules: Rules, uid: u32)
    requires
        rules.wf(),
        wanted(s.claims(rules), uid) == Some(true),
    ensures
        uid >= FIRST_APP_UID,
        some_rule_asks(s, rules, uid),
{
    let cs = s.claims(rules);
    wanted_comes_from_a_claim(cs, uid);
    let i = choose|i: int|
        0 <= i < cs.len() && (#[trigger] cs[i]).uid == uid && Some(cs[i].block) == wanted(cs, uid);
    claims_come_from_rules(s, rules, i);
    a_block_is_asked_for(s, rules, cs[i]);
}

/// The blocked uids after `changes` were made, one after the other.
pub open spec fn after_changes(blocked: Set<u32>, changes: Seq<Change>) -> Set<u32>
    decreases changes.len(),
{
    if changes.len() == 0 {
        blocked
    } else {
        let before = after_changes(blocked, changes.drop_last());
        if changes.last().block {
            before.insert(changes.last().uid)
        } else {
            before.remove(changes.last().uid)
        }
    }
}

proof fn lemma_after_changes(blocked: Set<u32>, changes: Seq<Change>, uid: u32)
    requires
        forall|i: int, j: int|
            0 <= i < j < changes.len() ==> (#[trigger] changes[i]).uid != (
            #[trigger] changes[j]).uid,
    ensures
        forall|i: int|
            0 <= i < changes.len() && (#[trigger] changes[i]).uid == uid ==> after_changes(
                blocked,
                changes,
            ).contains(uid) == changes[i].block,
        (forall|i: int| 0 <= i < changes.len() ==> (#[trigger] changes[i]).uid != uid)
            ==> after_changes(blocked, changes).contains(uid) == blocked.contains(uid),
    decreases changes.len(),
{
    if changes.len() > 0 {
        let before = changes.drop_last();
        lemma_after_changes(blocked, before, uid);
        assert forall|i: int| 0 <= i < changes.len() && (#[trigger] changes[i]).uid == uid implies
            after_changes(blocked, changes).contains(uid) == changes[i].block by {
            if i < before.len() {
                assert(before[i] == changes[i]);
                assert(changes[i].uid != changes[changes.len() - 1].uid);
            }
        }
        if forall|i: int| 0 <= i < changes.len() ==> (#[trigger] changes[i]).uid != uid {
            assert forall|i: int| 0 <= i < before.len() implies (#[trigger] before[i]).uid
                != uid by {
                assert(before[i] == changes[i]);
            }
            assert(changes[changes.len() - 1].uid != uid);
        }
    }
}

/// Once the changes are made, exactly the wanted uids are blocked.
pub proof fn changes_reach_the_wanted_state(
    want: Map<u32, bool>,
    blocked: Set<u32>,
    changes: Seq<Change>,
    uid: u32,
)
    requires
        transition(want, blocked, changes),
    ensures
        after_changes(blocked, changes).contains(uid) == (want.contains_key(uid) && want[uid]),
{
    lemma_after_changes(blocked, changes, uid);
    let target = want.contains_key(uid) && want[uid];
    if blocked.contains(uid) != target {
        assert(switches(want, blocked, uid, target));
        let i = changes.index_of(Change { uid, block: target });
        assert(changes[i].uid == uid);
    } else {
        assert forall|i: int| 0 <= i < changes.len() implies (#[trigger] changes[i]).uid != uid by {
            assert(switches(want, blocked, changes[i].uid, changes[i].block));
        }
    }
}

/// Making the changes again changes nothing: in the wanted state there is
/// nothing left to switch.
pub proof fn wanted_state_is_stable(want: Map<u32, bool>, blocked: Set<u32>, changes: Seq<Change>)
    requires
        forall|uid: u32| #[trigger]
            blocked.contains(uid) == (want.contains_key(uid) && want[uid]),
        transition(want, blocked, changes),
    ensures
        changes.len() == 0,
{
    if changes.len() > 0 {
        assert(switches(want, blocked, changes[0].uid, changes[0].block));
    }
}

/// Once the changes of a decision are made, every blocked uid is that of an app
/// of the user, and it is the uid of a key that is not protected: the key of an app
/// rule or of a group's member, of a rule that is enabled and decides to block.
pub proof fn only_unprotected_apps_are_blocked(
    s: SituationView,
    rules: Rules,
    blocked: Set<u32>,
    changes: Seq<Change>,
    uid: u32,
)
    requires
        rules.wf(),
        transition(wanted_map(s.claims(rules)), blocked, changes),
        after_changes(blocked, changes).contains(uid),
    ensures
        uid >= FIRST_APP_UID,
        some_rule_asks(s, rules, uid),
{
    changes_reach_the_wanted_state(wanted_map(s.claims(rules)), blocked, changes, uid);
    only_what_a_rule_asks_for_is_wanted(s, rules, uid);
}

/// A running extension exempts an app from its own rules, and a whole group
/// from the group's rules.
pub proof fn extension_exempts(
    s: SituationView,
    app: AppRule,
    gid: Seq<char>,
    g: GroupRule,
    uid: u32,
)
    ensures
        pending(s.counters.extension, uid, s.moment.now) ==> !s.app_blocks(app, uid),
        pending(s.counters.group_extension, gid, s.moment.now) ==> !s.group_blocks(gid, g, uid),
{
}

/// Rules that are switched off block nothing.
pub proof fn disabled_rules_block_nothing(
    s: SituationView,
    app: AppRule,
    gid: Seq<char>,
    g: GroupRule,
    uid: u32,
)
    ensures
        !app.enabled ==> !s.app_blocks(app, uid),
        !g.enabled ==> !s.group_blocks(gid, g, uid),
{
}

/// A member of a group with a shared pool is blocked exactly when every other
/// member is.
pub proof fn a_shared_pool_is_blocked_as_one(
    s: SituationView,
    gid: Seq<char>,
    g: GroupRule,
    a: u32,
    b: u32,
)
    requires
        g.shared_pool,
    ensures
        s.group_blocks(gid, g, a) == s.group_blocks(gid, g, b),
{
}

// ---------------------------------------------------------------------------
// When an app is blocked
// ---------------------------------------------------------------------------

/// The uids of a group are those of its members that are installed.
pub proof fn a_groups_uids_are_its_installed_members(
    members: Seq<Seq<char>>,
    uids: Map<Seq<char>, u32>,
    uid: u32,
)
    ensures
        member_uids(members, uids).contains(uid) <==> exists|i: int|
            0 <= i < members.len() && uids.contains_key(#[trigger] members[i]) && uids[members[i]]
                == uid,
    decreases members.len(),
{
    if members.len() > 0 {
        let rest = members.drop_last();
        a_groups_uids_are_its_installed_members(rest, uids, uid);
        let (a, b) = (member_uids(rest, uids), member_uids(members, uids));
        assert(members[members.len() - 1] == members.last());
        if a.contains(uid) {
            assert(b[a.index_of(uid)] == uid);
            let i = choose|i: int|
                0 <= i < rest.len() && uids.contains_key(#[trigger] rest[i]) && uids[rest[i]] == uid;
            assert(members[i] == rest[i]);
        }
        if b.contains(uid) && !a.contains(uid) {
            let k = b.index_of(uid);
            if k < a.len() {
                assert(a[k] == uid);
            }
        }
        if exists|i: int|
            0 <= i < members.len() && uids.contains_key(#[trigger] members[i]) && uids[members[i]]
                == uid {
            let i = choose|i: int|
                0 <= i < members.len() && uids.contains_key(#[trigger] members[i])
                    && uids[members[i]] == uid;
            if i < rest.len() {
                assert(rest[i] == members[i]);
                assert(a.contains(uid));
            } else {
                assert(b[b.len() - 1] == uid);
            }
        }
    }
}

/// The seconds that the installed members of a group have used together.
pub open spec fn group_usage(s: SituationView, g: GroupRule) -> nat {
    pooled_usage(s.counters, member_uids(views(g.members@), s.uids), g.rules.duration.scope@)
}

/// Whether one of the reasons that have nothing to do with usage is there: the
/// rules always block, the screen is off and they ask for it, or the windows block.
pub open spec fn blocked_anyway(s: SituationView, rules: RuleSet) -> bool {
    ||| rules.always_on
    ||| rules.lock_block && s.moment.screen_off
    ||| windows_block(rules.time_windows, s.moment.minute, s.moment.weekday)
}

/// Without an extension, an app whose rule is enabled is blocked once its own usage
/// has reached the limit, while its cooldown runs, and for every other reason.
pub proof fn an_app_is_blocked_for_each_reason(s: SituationView, app: AppRule, uid: u32)
    requires
        app.enabled,
        !pending(s.counters.extension, uid, s.moment.now),
    ensures
        app.rules.duration.limit_minutes > 0 && s.counters.scoped_usage(
            uid,
            app.rules.duration.scope@,
        ) >= app.rules.duration.limit_minutes * 60 ==> s.app_blocks(app, uid),
        pending(s.counters.cooldown, uid, s.moment.now) ==> s.app_blocks(app, uid),
        blocked_anyway(s, app.rules) ==> s.app_blocks(app, uid),
{
    a_limit_is_reached_at_its_minutes(s.counters, uid, seq![uid], app.rules.duration);
}

/// An app that has used less than its limit, or has none, that does not cool down
/// and that nothing else blocks is not blocked.
pub proof fn an_app_is_free_without_a_reason(s: SituationView, app: AppRule, uid: u32)
    requires
        !blocked_anyway(s, app.rules),
        !pending(s.counters.cooldown, uid, s.moment.now),
        app.rules.duration.limit_minutes == 0 || s.counters.scoped_usage(
            uid,
            app.rules.duration.scope@,
        ) < app.rules.duration.limit_minutes * 60,
    ensures
        !s.app_blocks(app, uid),
{
    a_limit_is_reached_at_its_minutes(s.counters, uid, seq![uid], app.rules.duration);
}

/// Without an extension of the group, a member of an enabled group is blocked once
/// the limit is used up: by its own usage where the group has no shared pool, by
/// that of all installed members together where it has one.
pub proof fn a_used_up_limit_blocks_a_member(
    s: SituationView,
    gid: Seq<char>,
    g: GroupRule,
    uid: u32,
)
    requires
        g.enabled,
        !pending(s.counters.group_extension, gid, s.moment.now),
        g.rules.duration.limit_minutes > 0,
    ensures
        !g.shared_pool && s.counters.scoped_usage(uid, g.rules.duration.scope@)
            >= g.rules.duration.limit_minutes * 60 ==> s.group_blocks(gid, g, uid),
        g.shared_pool && group_usage(s, g) >= g.rules.duration.limit_minutes * 60
            ==> s.group_blocks(gid, g, uid),
{
    let pool = member_uids(views(g.members@), s.uids);
    a_limit_is_reached_at_its_minutes(s.counters, uid, pool, g.rules.duration);
}

/// Without an extension of the group, a member of an enabled group is blocked while
/// the cooldown runs (its own, or that of a shared pool) and for every other reason.
pub proof fn a_member_is_blocked_for_each_reason(
    s: SituationView,
    gid: Seq<char>,
    g: GroupRule,
    uid: u32,
)
    requires
        g.enabled,
        !pending(s.counters.group_extension, gid, s.moment.now),
    ensures
        !g.shared_pool && pending(s.counters.cooldown, uid, s.moment.now) ==> s.group_blocks(
            gid,
            g,
            uid,
        ),
        g.shared_pool && pending(s.counters.group_cooldown, gid, s.moment.now) ==> s.group_blocks(
            gid,
            g,
            uid,
        ),
        blocked_anyway(s, g.rules) ==> s.group_blocks(gid, g, uid),
{
}

/// A member whose limit is not used up, that does not cool down and that nothing
/// else blocks is not blocked. The usage and the cooldown that count are its own,
/// or those of a shared pool, and never the other ones.
pub proof fn a_member_is_free_without_a_reason(
    s: SituationView,
    gid: Seq<char>,
    g: GroupRule,
    uid: u32,
)
    requires
        !blocked_anyway(s, g.rules),
        g.shared_pool ==> !pending(s.counters.group_cooldown, gid, s.moment.now),
        !g.shared_pool ==> !pending(s.counters.cooldown, uid, s.moment.now),
        g.rules.duration.limit_minutes == 0 || (if g.shared_pool {
            group_usage(s, g)
        } else {
            s.counters.scoped_usage(uid, g.rules.duration.scope@) as nat
        }) < g.rules.duration.limit_minutes * 60,
    ensures
        !s.group_blocks(gid, g, uid),
{
    let pool = member_uids(views(g.members@), s.uids);
    a_limit_is_reached_at_its_minutes(s.counters, uid, pool, g.rules.duration);
}

/// The rules for a package of a user are about its uid exactly when it is installed
/// as an app of a user and its package is not protected.
pub proof fn rules_are_about_installed_unprotected_apps(
    s: SituationView,
    user: u32,
    pkg: Seq<char>,
    uid: u32,
)
    ensures
        s.subject(user_key(user, pkg)) == Some(uid) <==> s.uids.contains_key(user_key(user, pkg))
            && s.uids[user_key(user, pkg)] == uid && uid >= 10000 && !s.protected.contains(pkg),
{
    lemma_key_colon(user, pkg);
}

// ---------------------------------------------------------------------------
// How the rules come together
// ---------------------------------------------------------------------------

proof fn lemma_app_is_heard(s: SituationView, keys: Seq<Seq<char>>, apps: Seq<AppRule>, i: int)
    requires
        keys.len() == apps.len(),
        0 <= i < keys.len(),
        s.subject(keys[i]) is Some,
    ensures
        exists|k: int|
            0 <= k < s.app_claims(keys, apps).len() && app_says(
                s,
                keys,
                apps,
                i,
                #[trigger] s.app_claims(keys, apps)[k],
            ),
    decreases keys.len(),
{
    let (ks, vs) = (keys.drop_last(), apps.drop_last());
    let (before, all) = (s.app_claims(ks, vs), s.app_claims(keys, apps));
    if i < ks.len() {
        assert(ks[i] == keys[i] && vs[i] == apps[i]);
        lemma_app_is_heard(s, ks, vs, i);
        let k = choose|k: int|
            0 <= k < before.len() && app_says(s, ks, vs, i, #[trigger] before[k]);
        assert(all[k] == before[k]);
    } else {
        assert(app_says(s, keys, apps, i, all[all.len() - 1]));
    }
}

proof fn lemma_member_is_heard(
    s: SituationView,
    gid: Seq<char>,
    g: GroupRule,
    members: Seq<Seq<char>>,
    m: int,
)
    requires
        0 <= m < members.len(),
        s.subject(members[m]) is Some,
    ensures
        exists|k: int|
            0 <= k < s.member_claims(gid, g, members).len() && member_says(
                s,
                gid,
                g,
                members,
                m,
                #[trigger] s.member_claims(gid, g, members)[k],
            ),
    decreases members.len(),
{
    let rest = members.drop_last();
    let (before, all) = (s.member_claims(gid, g, rest), s.member_claims(gid, g, members));
    if m < rest.len() {
        assert(rest[m] == members[m]);
        lemma_member_is_heard(s, gid, g, rest, m);
        let k = choose|k: int|
            0 <= k < before.len() && member_says(s, gid, g, rest, m, #[trigger] before[k]);
        assert(all[k] == before[k]);
    } else {
        assert(member_says(s, gid, g, members, m, all[all.len() - 1]));
    }
}

proof fn lemma_group_is_heard(
    s: SituationView,
    gids: Seq<Seq<char>>,
    groups: Seq<GroupRule>,
    i: int,
    m: int,
)
    requires
        gids.len() == groups.len(),
        0 <= i < gids.len(),
        0 <= m < groups[i].members@.len(),
        s.subject(groups[i].members@[m]@) is Some,
    ensures
        exists|k: int|
            0 <= k < s.group_claims(gids, groups).len() && group_says(
                s,
                gids,
                groups,
                i,
                m,
                #[trigger] s.group_claims(gids, groups)[k],
            ),
    decreases gids.len(),
{
    let (ks, vs) = (gids.drop_last(), groups.drop_last());
    let (before, all) = (s.group_claims(ks, vs), s.group_claims(gids, groups));
    if i < ks.len() {
        assert(ks[i] == gids[i] && vs[i] == groups[i]);
        lemma_group_is_heard(s, ks, vs, i, m);
        let k = choose|k: int|
            0 <= k < before.len() && group_says(s, ks, vs, i, m, #[trigger] before[k]);
        assert(all[k] == before[k]);
    } else {
        let (gid, g) = (gids.last(), groups.last());
        let members = views(g.members@);
        assert(members[m] == g.members@[m]@);
        lemma_member_is_heard(s, gid, g, members, m);
        let own = s.member_claims(gid, g, members);
        let k = choose|k: int|
            0 <= k < own.len() && member_says(s, gid, g, members, m, #[trigger] own[k]);
        assert(all[before.len() + k] == own[k]);
    }
}

/// No rule is passed over: that of an app says what it decides about its uid, and
/// that of a group about each member, under the package of the key.
pub proof fn every_rule_is_heard(s: SituationView, rules: Rules, i: int, m: int)
    requires
        rules.wf(),
    ensures
        0 <= i < rules.apps.keys().len() && s.subject(rules.apps.keys()[i]) is Some ==> exists|k: int|
            0 <= k < s.claims(rules).len() && app_says(
                s,
                rules.apps.keys(),
                rules.apps.vals(),
                i,
                #[trigger] s.claims(rules)[k],
            ),
        0 <= i < rules.groups.keys().len() && 0 <= m < rules.groups.vals()[i].members@.len()
            && s.subject(rules.groups.vals()[i].members@[m]@) is Some ==> exists|k: int|
            0 <= k < s.claims(rules).len() && group_says(
                s,
                rules.groups.keys(),
                rules.groups.vals(),
                i,
                m,
                #[trigger] s.claims(rules)[k],
            ),
{
    let a = s.app_claims(rules.apps.keys(), rules.apps.vals());
    let g = s.group_claims(rules.groups.keys(), rules.groups.vals());
    let cs = s.claims(rules);
    if 0 <= i < rules.apps.keys().len() && s.subject(rules.apps.keys()[i]) is Some {
        lemma_app_is_heard(s, rules.apps.keys(), rules.apps.vals(), i);
        let k = choose|k: int|
            0 <= k < a.len() && app_says(
                s,
                rules.apps.keys(),
                rules.apps.vals(),
                i,
                #[trigger] a[k],
            );
        assert(cs[k] == a[k]);
    }
    if 0 <= i < rules.groups.keys().len() && 0 <= m < rules.groups.vals()[i].members@.len()
        && s.subject(rules.groups.vals()[i].members@[m]@) is Some {
        lemma_group_is_heard(s, rules.groups.keys(), rules.groups.vals(), i, m);
        let k = choose|k: int|
            0 <= k < g.len() && group_says(
                s,
                rules.groups.keys(),
                rules.groups.vals(),
                i,
                m,
                #[trigger] g[k],
            );
        assert(cs[a.len() + k] == g[k]);
    }
}

/// Of several claims about a uid the last decides; without one nothing is wanted.
pub proof fn the_last_claim_decides(claims: Seq<ClaimView>, uid: u32, i: int)
    requires
        -1 <= i < claims.len(),
        i >= 0 ==> claims[i].uid == uid,
        forall|k: int| i < k < claims.len() ==> (#[trigger] claims[k]).uid != uid,
    ensures
        i >= 0 ==> wanted(claims, uid) == Some(claims[i].block),
        i < 0 ==> wanted(claims, uid) is None,
    decreases claims.len(),
{
    if claims.len() > 0 {
        let rest = claims.drop_last();
        let n = claims.len() - 1;
        assert(claims[n] == claims.last());
        if i < n {
            assert(claims[n].uid != uid);
            assert forall|k: int| i < k < rest.len() implies (#[trigger] rest[k]).uid != uid by {
                assert(rest[k] == claims[k]);
            }
            if i >= 0 {
                assert(rest[i] == claims[i]);
            }
            the_last_claim_decides(rest, uid, i);
        }
    }
}

/// Whether the rule of the app at `i` is about `uid`.
pub open spec fn app_concerns(s: SituationView, rules: Rules, i: int, uid: u32) -> bool {
    0 <= i < rules.apps.keys().len() && s.subject(rules.apps.keys()[i]) == Some(uid)
}

/// Whether the rule of the group at `i` is about `uid`, through its member at `m`.
pub open spec fn group_concerns(s: SituationView, rules: Rules, i: int, m: int, uid: u32) -> bool {
    &&& 0 <= i < rules.groups.keys().len()
    &&& 0 <= m < rules.groups.vals()[i].members@.len()
    &&& s.subject(rules.groups.vals()[i].members@[m]@) == Some(uid)
}

/// Where all groups that a uid is in agree, they decide, whatever its own rule
/// says.
pub proof fn groups_go_before_apps(
    s: SituationView,
    rules: Rules,
    uid: u32,
    block: bool,
    i: int,
    m: int,
)
    requires
        rules.wf(),
        group_concerns(s, rules, i, m, uid),
        forall|k: int, n: int| #[trigger]
            group_concerns(s, rules, k, n, uid) ==> s.group_blocks(
                rules.groups.keys()[k],
                rules.groups.vals()[k],
                uid,
            ) == block,
    ensures
        wanted(s.claims(rules), uid) == Some(block),
{
    let a = s.app_claims(rules.apps.keys(), rules.apps.vals());
    let (gids, groups) = (rules.groups.keys(), rules.groups.vals());
    let g = s.group_claims(gids, groups);
    lemma_group_is_heard(s, gids, groups, i, m);
    let k = choose|k: int| 0 <= k < g.len() && group_says(s, gids, groups, i, m, #[trigger] g[k]);
    assert forall|j: int| 0 <= j < g.len() && (#[trigger] g[j]).uid == uid implies g[j].block
        == block by {
        lemma_group_says(s, gids, groups, j);
        let (x, y) = choose|x: int, y: int| #[trigger] group_says(s, gids, groups, x, y, g[j]);
        assert(views(groups[x].members@)[y] == groups[x].members@[y]@);
        assert(group_concerns(s, rules, x, y, uid));
    }
    assert(views(groups[i].members@)[m] == groups[i].members@[m]@);
    assert(g[k].uid == uid);
    lemma_agreeing_tail(a, g, uid, block, k);
}

proof fn lemma_agreeing_tail(a: Seq<ClaimView>, g: Seq<ClaimView>, uid: u32, block: bool, k: int)
    requires
        0 <= k < g.len(),
        g[k].uid == uid,
        forall|j: int| 0 <= j < g.len() && (#[trigger] g[j]).uid == uid ==> g[j].block == block,
    ensures
        wanted(a + g, uid) == Some(block),
    decreases g.len(),
{
    let all = a + g;
    let rest = g.drop_last();
    assert(all.last() == g[g.len() - 1]);
    if all.last().uid != uid {
        assert(all.drop_last() =~= a + rest);
        assert(rest[k] == g[k]);
        assert forall|j: int| 0 <= j < rest.len() && (#[trigger] rest[j]).uid == uid implies rest[j].block
            == block by {
            assert(rest[j] == g[j]);
        }
        lemma_agreeing_tail(a, rest, uid, block, k);
    }
}

/// An app that is in no group is blocked as its own rules agree.
pub proof fn an_ungrouped_app_follows_its_own_rule(
    s: SituationView,
    rules: Rules,
    uid: u32,
    block: bool,
    i: int,
)
    requires
        rules.wf(),
        app_concerns(s, rules, i, uid),
        forall|k: int| #[trigger]
            app_concerns(s, rules, k, uid) ==> s.app_blocks(rules.apps.vals()[k], uid) == block,
        forall|k: int, n: int| !#[trigger] group_concerns(s, rules, k, n, uid),
    ensures
        wanted(s.claims(rules), uid) == Some(block),
{
    let cs = s.claims(rules);
    every_rule_is_heard(s, rules, i, 0);
    let (keys, apps) = (rules.apps.keys(), rules.apps.vals());
    let k = choose|k: int| 0 <= k < cs.len() && app_says(s, keys, apps, i, #[trigger] cs[k]);
    assert forall|j: int| 0 <= j < cs.len() && (#[trigger] cs[j]).uid == uid implies cs[j].block
        == block by {
        claims_come_from_rules(s, rules, j);
        if exists|x: int| #[trigger] app_says(s, keys, apps, x, cs[j]) {
            let x = choose|x: int| #[trigger] app_says(s, keys, apps, x, cs[j]);
            assert(app_concerns(s, rules, x, uid));
        } else {
            let (gids, groups) = (rules.groups.keys(), rules.groups.vals());
            let (x, y) = choose|x: int, y: int| #[trigger] group_says(s, gids, groups, x, y, cs[j]);
            assert(views(groups[x].members@)[y] == groups[x].members@[y]@);
            assert(group_concerns(s, rules, x, y, uid));
        }
    }
    lemma_agreeing_tail(Seq::empty(), cs, uid, block, k);
    assert(Seq::<ClaimView>::empty() + cs =~= cs);
}

/// A uid that no rule is about is released.
pub proof fn a_uid_without_rules_is_released(
    s: SituationView,
    rules: Rules,
    blocked: Set<u32>,
    changes: Seq<Change>,
    uid: u32,
)
    requires
        rules.wf(),
        forall|k: int| !#[trigger] app_concerns(s, rules, k, uid),
        forall|k: int, n: int| !#[trigger] group_concerns(s, rules, k, n, uid),
        transition(wanted_map(s.claims(rules)), blocked, changes),
    ensures
        wanted(s.claims(rules), uid) is None,
        !after_changes(blocked, changes).contains(uid),
{
    let cs = s.claims(rules);
    assert forall|j: int| 0 <= j < cs.len() implies (#[trigger] cs[j]).uid != uid by {
        claims_come_from_rules(s, rules, j);
        if cs[j].uid == uid {
            let (keys, apps) = (rules.apps.keys(), rules.apps.vals());
            if exists|x: int| #[trigger] app_says(s, keys, apps, x, cs[j]) {
                let x = choose|x: int| #[trigger] app_says(s, keys, apps, x, cs[j]);
                assert(app_concerns(s, rules, x, uid));
            } else {
                let (gids, groups) = (rules.groups.keys(), rules.groups.vals());
                let (x, y) = choose|x: int, y: int| #[trigger]
                    group_says(s, gids, groups, x, y, cs[j]);
                assert(views(groups[x].members@)[y] == groups[x].members@[y]@);
                assert(group_concerns(s, rules, x, y, uid));
            }
        }
    }
    the_last_claim_decides(cs, uid, -1);
    changes_reach_the_wanted_state(wanted_map(cs), blocked, changes, uid);
}

/// A uid that is wanted blocked is blocked once the changes are made, and one that
/// is wanted free is free.
pub proof fn what_is_wanted_comes_about(
    claims: Seq<ClaimView>,
    blocked: Set<u32>,
    changes: Seq<Change>,
    uid: u32,
    block: bool,
)
    requires
        transition(wanted_map(claims), blocked, changes),
        wanted(claims, uid) == Some(block),
    ensures
        after_changes(blocked, changes).contains(uid) == block,
{
    changes_reach_the_wanted_state(wanted_map(claims), blocked, changes, uid);
}

/// Only what is not yet as it should be is changed, and nothing twice.
pub proof fn every_change_is_needed(
    want: Map<u32, bool>,
    blocked: Set<u32>,
    changes: Seq<Change>,
    i: int,
    j: int,
)
    requires
        transition(want, blocked, changes),
        0 <= i < changes.len(),
    ensures
        changes[i].block != blocked.contains(changes[i].uid),
        0 <= j < changes.len() && changes[j].uid == changes[i].uid ==> j == i,
{
    assert(switches(want, blocked, changes[i].uid, changes[i].block));
}

/// A change is a change of one uid: it is blocked or released, and no other is.
pub proof fn a_change_is_of_one_uid(blocked: Set<u32>, change: Change, other: u32)
    ensures
        after_changes(blocked, seq![change]).contains(change.uid) == change.block,
        other != change.uid ==> after_changes(blocked, seq![change]).contains(other)
            == blocked.contains(other),
{
    reveal_with_fuel(after_changes, 2);
    assert(seq![change].drop_last() =~= Seq::<Change>::empty());
}

/// The names behind the blocks are those of the rules that block: the package of
/// the key of each app that its own rule blocks, and of each member that a group
/// blocks, under the uid it is installed as.
pub proof fn blocked_apps_are_listed(s: SituationView, rules: Rules, i: int, m: int, uid: u32, pkg: Seq<char>)
    requires
        rules.wf(),
    ensures
        app_concerns(s, rules, i, uid) && s.app_blocks(rules.apps.vals()[i], uid) && key_package(
            rules.apps.keys()[i],
        ) == Some(pkg) ==> blocked_as(s.claims(rules), uid, pkg),
        group_concerns(s, rules, i, m, uid) && s.group_blocks(
            rules.groups.keys()[i],
            rules.groups.vals()[i],
            uid,
        ) && key_package(rules.groups.vals()[i].members@[m]@) == Some(pkg) ==> blocked_as(
            s.claims(rules),
            uid,
            pkg,
        ),
{
    let cs = s.claims(rules);
    every_rule_is_heard(s, rules, i, m);
    if app_concerns(s, rules, i, uid) && s.app_blocks(rules.apps.vals()[i], uid) && key_package(
        rules.apps.keys()[i],
    ) == Some(pkg) {
        let k = choose|k: int|
            0 <= k < cs.len() && app_says(
                s,
                rules.apps.keys(),
                rules.apps.vals(),
                i,
                #[trigger] cs[k],
            );
        assert(cs[k].uid == uid && cs[k].block);
    }
    if group_concerns(s, rules, i, m, uid) && s.group_blocks(
        rules.groups.keys()[i],
        rules.groups.vals()[i],
        uid,
    ) && key_package(rules.groups.vals()[i].members@[m]@) == Some(pkg) {
        let k = choose|k: int|
            0 <= k < cs.len() && group_says(
                s,
                rules.groups.keys(),
                rules.groups.vals(),
                i,
                m,
                #[trigger] cs[k],
            );
        assert(views(rules.groups.vals()[i].members@)[m] == rules.groups.vals()[i].members@[m]@);
        assert(cs[k].uid == uid && cs[k].block);
    }
}

/// A name is listed for a uid if it stands among the names of that uid, and for no uid
/// that has none.
pub proof fn a_name_is_listed_under_its_uid(x: BlockIndex, uid: u32, pkg: Seq<char>)
    ensures
        x.names@.contains_key(uid) ==> (x.lists(uid, pkg) <==> x.names@[uid]@.contains(pkg)),
        !x.names@.contains_key(uid) ==> !x.lists(uid, pkg),
{
}

} // verus!
