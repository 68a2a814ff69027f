//! The counters of a day: usage, cooldowns and extensions, and how they move.

use std::collections::{HashMap, HashSet};

use vstd::prelude::*;

use crate::rules::DurationRule;
use crate::table::StrMap;
use crate::text::str_eq;
use crate::uids::{
    count_in, count_of, handed_over, map_keys, relocate, relocated, retain_keys, set_items,
};

verus! {

broadcast use vstd::std_specs::hash::group_hash_axioms;

/// The longest time that one tick adds to a usage counter, in seconds.
pub const MAX_TICK_SECS: u64 = 60;

/// The most extension minutes that one app or group is granted in a day.
pub const DAILY_EXTENSION_MINUTES: u32 = 120;

/// The counters of a day. Uids and group ids that are missing count as zero, or
/// as having no deadline.
#[derive(Debug)]
pub struct Counters {
    /// uid -> usage in seconds, any scope (running at all)
    pub usage_seconds: HashMap<u32, u64>,
    /// uid -> foreground usage in seconds
    pub usage_fg: HashMap<u32, u64>,
    /// uid -> extension deadline (epoch seconds)
    pub extension_until: HashMap<u32, u64>,
    /// group id -> extension deadline (epoch seconds)
    pub group_extension_until: StrMap<u64>,
    /// uid -> extension minutes granted today
    pub ext_granted_today: HashMap<u32, u32>,
    /// group id -> extension minutes granted today
    pub group_ext_granted_today: StrMap<u32>,
    /// uid -> cooldown deadline (epoch seconds)
    pub cooldown_until: HashMap<u32, u64>,
    /// group id -> cooldown deadline of a shared pool (epoch seconds)
    pub group_cooldown_until: StrMap<u64>,
}

/// What the counters hold.
#[verifier::ext_equal]
pub struct CountersView {
    pub usage: Map<u32, u64>,
    pub usage_fg: Map<u32, u64>,
    pub extension: Map<u32, u64>,
    pub group_extension: Map<Seq<char>, u64>,
    pub granted: Map<u32, u32>,
    pub group_granted: Map<Seq<char>, u32>,
    pub cooldown: Map<u32, u64>,
    pub group_cooldown: Map<Seq<char>, u64>,
}

impl View for Counters {
    type V = CountersView;

    open spec fn view(&self) -> CountersView {
        CountersView {
            usage: self.usage_seconds@,
            usage_fg: self.usage_fg@,
            extension: self.extension_until@,
            group_extension: self.group_extension_until@,
            granted: self.ext_granted_today@,
            group_granted: self.group_ext_granted_today@,
            cooldown: self.cooldown_until@,
            group_cooldown: self.group_cooldown_until@,
        }
    }
}

// ---------------------------------------------------------------------------
// Usage
// ---------------------------------------------------------------------------

/// The minutes granted to `k`, or zero where none were.
pub open spec fn granted_of<K>(granted: Map<K, u32>, k: K) -> u32 {
    if granted.contains_key(k) {
        granted[k]
    } else {
        0
    }
}

/// How many of `minutes` the rest of the day's grant of `k` covers.
pub open spec fn minutes_granted<K>(granted: Map<K, u32>, k: K, minutes: u32) -> u32 {
    let used = granted_of(granted, k);
    if used >= DAILY_EXTENSION_MINUTES {
        0
    } else if minutes <= DAILY_EXTENSION_MINUTES - used {
        minutes
    } else {
        (DAILY_EXTENSION_MINUTES - used) as u32
    }
}

/// The deadline of `k` after `minutes` more: they count from a deadline still to
/// come, or else from now.
pub open spec fn extended_until<K>(deadlines: Map<K, u64>, k: K, minutes: u32, now: u64) -> u64 {
    (extension_base(deadlines, k, now) + minutes * 60) as u64
}

/// The moment from which an extension of `k` at `now` counts.
pub open spec fn extension_base<K>(deadlines: Map<K, u64>, k: K, now: u64) -> u64 {
    if pending(deadlines, k, now) {
        deadlines[k]
    } else {
        now
    }
}

/// Whether the deadline of `k` has room for what is granted of `minutes` at `now`.
pub open spec fn has_room<K>(
    deadlines: Map<K, u64>,
    granted: Map<K, u32>,
    k: K,
    minutes: u32,
    now: u64,
) -> bool {
    extension_base(deadlines, k, now) + minutes_granted(granted, k, minutes) * 60 <= u64::MAX
}

/// Whether `k` has a deadline that `now` has not reached.
pub open spec fn pending<K>(deadlines: Map<K, u64>, k: K, now: u64) -> bool {
    deadlines.contains_key(k) && now < deadlines[k]
}

/// Every member of `who` gets `secs` more.
pub open spec fn credited(m: Map<u32, u64>, who: Set<u32>, secs: u64) -> Map<u32, u64> {
    Map::new(
        |k: u32| m.contains_key(k) || who.contains(k),
        |k: u32|
            if who.contains(k) {
                (count_of(m, k) + secs) as u64
            } else {
                m[k]
            },
    )
}

/// Both usage counters of each of `uids` are zero.
pub open spec fn zeroed(m: Map<u32, u64>, uids: Seq<u32>) -> Map<u32, u64> {
    Map::new(
        |k: u32| m.contains_key(k) || uids.contains(k),
        |k: u32|
            if uids.contains(k) {
                0
            } else {
                m[k]
            },
    )
}

/// The sum of the scoped usage of each of `uids`.
pub open spec fn pooled_usage(c: CountersView, uids: Seq<u32>, scope: Seq<char>) -> nat
    decreases uids.len(),
{
    if uids.len() == 0 {
        0
    } else {
        pooled_usage(c, uids.drop_last(), scope) + c.scoped_usage(uids.last(), scope) as nat
    }
}

impl CountersView {
    /// No counter, nothing granted, no deadline.
    pub open spec fn none() -> CountersView {
        CountersView {
            usage: Map::empty(),
            usage_fg: Map::empty(),
            extension: Map::empty(),
            group_extension: Map::empty(),
            granted: Map::empty(),
            group_granted: Map::empty(),
            cooldown: Map::empty(),
            group_cooldown: Map::empty(),
        }
    }

    /// Usage under a counting scope: "background" counts the time spent running
    /// out of the foreground, "any" all of it; any other scope is the foreground.
    pub open spec fn scoped_usage(self, uid: u32, scope: Seq<char>) -> u64 {
        let any = count_of(self.usage, uid);
        let fg = count_of(self.usage_fg, uid);
        if scope == "background"@ {
            if any >= fg {
                (any - fg) as u64
            } else {
                0
            }
        } else if scope == "any"@ {
            any
        } else {
            fg
        }
    }

    /// Whether the usage of `uids` together has reached the limit `d`.
    pub open spec fn used_up(self, uids: Seq<u32>, d: DurationRule) -> bool {
        pooled_usage(self, uids, d.scope@) >= d.limit_minutes * 60
    }

    /// `secs` more for each of the limited uids `targets` that is running, and
    /// in the foreground.
    pub open spec fn used(
        self,
        targets: Set<u32>,
        live: Set<u32>,
        fg: Set<u32>,
        secs: u64,
    ) -> CountersView {
        CountersView {
            usage: credited(self.usage, targets.intersect(live), secs),
            usage_fg: credited(self.usage_fg, targets.intersect(fg), secs),
            ..self
        }
    }

    /// The usage of each of `uids` starts again from zero.
    pub open spec fn restarted(self, uids: Seq<u32>) -> CountersView {
        CountersView {
            usage: zeroed(self.usage, uids),
            usage_fg: zeroed(self.usage_fg, uids),
            ..self
        }
    }

    /// One step of the cooldown of `uid` under the limit `d`: while it runs,
    /// nothing moves; when it has ended, usage starts again from zero; and when
    /// the limit is used up, a new one starts.
    pub open spec fn cooled(self, uid: u32, d: DurationRule, now: u64) -> CountersView {
        if pending(self.cooldown, uid, now) {
            self
        } else {
            let c = if self.cooldown.contains_key(uid) {
                CountersView { cooldown: self.cooldown.remove(uid), ..self.restarted(seq![uid]) }
            } else {
                self
            };
            if c.used_up(seq![uid], d) {
                CountersView {
                    cooldown: c.cooldown.insert(uid, (now + d.freeze_minutes * 60) as u64),
                    ..c
                }
            } else {
                c
            }
        }
    }

    /// One step of the cooldown of the shared pool `gid` with the members
    /// `uids`: the same cycle, pooled over all members.
    pub open spec fn pool_cooled(
        self,
        gid: Seq<char>,
        uids: Seq<u32>,
        d: DurationRule,
        now: u64,
    ) -> CountersView {
        if pending(self.group_cooldown, gid, now) {
            self
        } else {
            let c = if self.group_cooldown.contains_key(gid) {
                CountersView {
                    group_cooldown: self.group_cooldown.remove(gid),
                    ..self.restarted(uids)
                }
            } else {
                self
            };
            if c.used_up(uids, d) {
                CountersView {
                    group_cooldown: c.group_cooldown.insert(
                        gid,
                        (now + d.freeze_minutes * 60) as u64,
                    ),
                    ..c
                }
            } else {
                c
            }
        }
    }

    /// `uid` gets `minutes` more, as far as its day's grant reaches.
    pub open spec fn extended(self, uid: u32, minutes: u32, now: u64) -> CountersView {
        let add = minutes_granted(self.granted, uid, minutes);
        CountersView {
            granted: self.granted.insert(uid, (granted_of(self.granted, uid) + add) as u32),
            extension: self.extension.insert(uid, extended_until(self.extension, uid, add, now)),
            ..self
        }
    }

    /// The group `gid` gets `minutes` more, as far as its day's grant reaches.
    pub open spec fn group_extended(self, gid: Seq<char>, minutes: u32, now: u64) -> CountersView {
        let add = minutes_granted(self.group_granted, gid, minutes);
        CountersView {
            group_granted: self.group_granted.insert(
                gid,
                (granted_of(self.group_granted, gid) + add) as u32,
            ),
            group_extension: self.group_extension.insert(
                gid,
                extended_until(self.group_extension, gid, add, now),
            ),
            ..self
        }
    }

    /// What was counted for a uid belongs to the uids that its apps have after
    /// `moves`.
    pub open spec fn relocated(self, moves: Seq<(u32, u32)>) -> CountersView {
        CountersView {
            usage: relocated(self.usage, moves),
            usage_fg: relocated(self.usage_fg, moves),
            extension: relocated(self.extension, moves),
            granted: relocated(self.granted, moves),
            cooldown: relocated(self.cooldown, moves),
            ..self
        }
    }

    /// Only the uids in `live` keep what was counted for them.
    pub open spec fn kept(self, live: Set<u32>) -> CountersView {
        CountersView {
            usage: self.usage.restrict(live),
            usage_fg: self.usage_fg.restrict(live),
            extension: self.extension.restrict(live),
            granted: self.granted.restrict(live),
            cooldown: self.cooldown.restrict(live),
            ..self
        }
    }

    /// The usage counters of `who` leave room for `secs` more.
    pub open spec fn usage_fits(self, who: Set<u32>, secs: u64) -> bool {
        forall|uid: u32| #[trigger]
            who.contains(uid) ==> count_of(self.usage, uid) + secs <= u64::MAX && count_of(
                self.usage_fg,
                uid,
            ) + secs <= u64::MAX
    }

    /// An extension of `uid` by `minutes` at `now` cannot overflow its deadline.
    pub open spec fn can_extend(self, uid: u32, minutes: u32, now: u64) -> bool {
        has_room(self.extension, self.granted, uid, minutes, now)
    }

    /// An extension of the group `gid` by `minutes` at `now` cannot overflow its
    /// deadline.
    pub open spec fn can_extend_group(self, gid: Seq<char>, minutes: u32, now: u64) -> bool {
        has_room(self.group_extension, self.group_granted, gid, minutes, now)
    }
}

/// A cooldown under the limit `d` that starts at `now` cannot overflow its deadline.
pub open spec fn cooldown_fits(d: DurationRule, now: u64) -> bool {
    now + d.freeze_minutes * 60 <= u64::MAX
}

impl Counters {
    /// The maps of the counters are well formed.
    pub open spec fn wf(&self) -> bool {
        &&& self.group_extension_until.wf()
        &&& self.group_ext_granted_today.wf()
        &&& self.group_cooldown_until.wf()
    }

    /// The counters of a day that begins.
    pub fn new() -> (r: Self)
        ensures
            r.wf(),
            r@ == CountersView::none(),
    {
        Counters {
            usage_seconds: HashMap::new(),
            usage_fg: HashMap::new(),
            extension_until: HashMap::new(),
            group_extension_until: StrMap::new(),
            ext_granted_today: HashMap::new(),
            group_ext_granted_today: StrMap::new(),
            cooldown_until: HashMap::new(),
            group_cooldown_until: StrMap::new(),
        }
    }

    /// A new day: everything starts again from nothing.
    pub fn reset(&mut self)
        ensures
            final(self).wf(),
            final(self)@ == CountersView::none(),
    {
        self.usage_seconds.clear();
        self.usage_fg.clear();
        self.extension_until.clear();
        self.group_extension_until.clear();
        self.ext_granted_today.clear();
        self.group_ext_granted_today.clear();
        self.cooldown_until.clear();
        self.group_cooldown_until.clear();
        assert(self@ =~= CountersView::none());
    }

    /// Usage under the given counting scope.
    pub fn scoped_usage(&self, uid: u32, scope: &str) -> (r: u64)
        ensures
            r == self@.scoped_usage(uid, scope@),
    {
        let any: u64 = count_in(&self.usage_seconds, uid);
        let fg: u64 = count_in(&self.usage_fg, uid);
        if str_eq(scope, "background") {
            any.saturating_sub(fg)
        } else if str_eq(scope, "any") {
            any
        } else {
            fg  // "foreground" default

        }
    }

    /// Whether the usage of `uids` together has reached the limit `d`.
    pub fn used_up(&self, uids: &[u32], d: &DurationRule) -> (r: bool)
        ensures
            r == self@.used_up(uids@, *d),
    {
        let limit: u64 = d.limit_minutes as u64 * 60;
        let mut used: u64 = 0;
        let mut i: usize = 0;
        assert(uids@.take(0) =~= Seq::empty());
        while i < uids.len()
            invariant
                i <= uids@.len(),
                used == if pooled_usage(self@, uids@.take(i as int), d.scope@) <= u64::MAX {
                    pooled_usage(self@, uids@.take(i as int), d.scope@)
                } else {
                    u64::MAX as nat
                },
            decreases uids@.len() - i,
        {
            assert(uids@.take(i + 1).drop_last() =~= uids@.take(i as int));
            used = used.saturating_add(self.scoped_usage(uids[i], d.scope.as_str()));
            i = i + 1;
        }
        assert(uids@.take(i as int) =~= uids@);
        used >= limit
    }
}

/// Gives each member of `who` that is also in `seen` `secs` more.
fn credit(m: &mut HashMap<u32, u64>, who: &HashSet<u32>, seen: &HashSet<u32>, secs: u64)
    requires
        forall|k: u32| #[trigger] who@.contains(k) ==> count_of(old(m)@, k) + secs <= u64::MAX,
    ensures
        final(m)@ == credited(old(m)@, who@.intersect(seen@), secs),
{
    let items = set_items(who);
    let ghost done = Set::<u32>::empty();
    let mut i: usize = 0;
    assert(m@ =~= credited(old(m)@, done, secs));
    while i < items.len()
        invariant
            i <= items@.len(),
            items@.no_duplicates(),
            items@.to_set() == who@,
            forall|k: u32| #[trigger] who@.contains(k) ==> count_of(old(m)@, k) + secs <= u64::MAX,
            forall|k: u32|
                #![trigger done.contains(k)]
                done.contains(k) <==> seen@.contains(k) && exists|j: int|
                    0 <= j < i && #[trigger] items@[j] == k,
            m@ == credited(old(m)@, done, secs),
        decreases items@.len() - i,
    {
        let uid: u32 = items[i];
        if seen.contains(&uid) {
            let ghost before = done;
            assert(!done.contains(uid));
            assert(count_of(m@, uid) == count_of(old(m)@, uid));
            assert(items@.to_set().contains(uid));
            let v: u64 = count_in(m, uid) + secs;
            m.insert(uid, v);
            proof {
                done = done.insert(uid);
                assert(m@ =~= credited(old(m)@, done, secs));
            }
        }
        i = i + 1;
    }
    assert forall|k: u32| #[trigger] done.contains(k) <==> who@.intersect(seen@).contains(k) by {
        if who@.contains(k) {
            assert(items@.to_set().contains(k));
            let j = items@.index_of(k);
            assert(items@[j] == k);
        }
        if exists|j: int| 0 <= j < items@.len() && #[trigger] items@[j] == k {
            assert(items@.contains(k));
            assert(items@.to_set().contains(k));
        }
    }
    assert(done =~= who@.intersect(seen@));
}

/// Sets the counter of each of `uids` to zero.
fn zero(m: &mut HashMap<u32, u64>, uids: &[u32])
    ensures
        final(m)@ == zeroed(old(m)@, uids@),
{
    let mut i: usize = 0;
    assert(m@ =~= zeroed(old(m)@, uids@.take(0)));
    while i < uids.len()
        invariant
            i <= uids@.len(),
            m@ == zeroed(old(m)@, uids@.take(i as int)),
        decreases uids@.len() - i,
    {
        let ghost a = uids@.take(i as int);
        let ghost b = uids@.take(i + 1);
        assert(b =~= a.push(uids@[i as int]));
        m.insert(uids[i], 0);
        assert forall|k: u32| #[trigger] b.contains(k) <==> a.contains(k) || k == uids@[i as int] by {
            if a.contains(k) {
                assert(b[a.index_of(k)] == k);
            }
            if k == uids@[i as int] {
                assert(b[i as int] == k);
            }
            if b.contains(k) {
                let j = b.index_of(k);
                if j < i {
                    assert(a[j] == k);
                }
            }
        }
        assert(m@ =~= zeroed(old(m)@, b));
        i = i + 1;
    }
    assert(uids@.take(i as int) =~= uids@);
}

impl Counters {
    /// Adds `secs` of usage to each of the limited uids `targets` that is in
    /// `live`, and of foreground usage to each that is in `fg`.
    pub fn record_usage(
        &mut self,
        targets: &HashSet<u32>,
        live: &HashSet<u32>,
        fg: &HashSet<u32>,
        secs: u64,
    )
        requires
            old(self).wf(),
            old(self)@.usage_fits(targets@, secs),
        ensures
            final(self).wf(),
            final(self)@ == old(self)@.used(targets@, live@, fg@, secs),
    {
        assert(self@.usage == self.usage_seconds@);
        assert(self@.usage_fg == self.usage_fg@);
        credit(&mut self.usage_seconds, targets, live, secs);
        credit(&mut self.usage_fg, targets, fg, secs);
    }

    /// Starts the usage of each of `uids` again from zero.
    fn restart(&mut self, uids: &[u32])
        requires
            old(self).wf(),
        ensures
            final(self).wf(),
            final(self)@ == old(self)@.restarted(uids@),
    {
        zero(&mut self.usage_seconds, uids);
        zero(&mut self.usage_fg, uids);
    }

    /// Per-uid cooldown: start when the period is used up, reset usage when it ends.
    pub fn maintain_uid_cooldown(&mut self, uid: u32, d: &DurationRule, now: u64)
        requires
            old(self).wf(),
            cooldown_fits(*d, now),
        ensures
            final(self).wf(),
            final(self)@ == old(self)@.cooled(uid, *d, now),
    {
        let one: Vec<u32> = vec![uid];
        assert(one@ =~= seq![uid]);
        let until: Option<u64> = match self.cooldown_until.get(&uid) {
            Some(t) => Some(*t),
            None => None,
        };
        if let Some(until) = until {
            if now < until {
                return ;  // still cooling down
            }
            self.cooldown_until.remove(&uid);
            self.restart(one.as_slice());
        }
        if self.used_up(one.as_slice(), d) {
            let _ = self.cooldown_until.insert(uid, now + d.freeze_minutes as u64 * 60);
        }
    }

    /// Shared-pool cooldown: same cycle, pooled across all members.
    pub fn maintain_group_cooldown(
        &mut self,
        gid: &String,
        uids: &[u32],
        d: &DurationRule,
        now: u64,
    )
        requires
            old(self).wf(),
            cooldown_fits(*d, now),
        ensures
            final(self).wf(),
            final(self)@ == old(self)@.pool_cooled(gid@, uids@, *d, now),
    {
        let until: Option<u64> = match self.group_cooldown_until.get(gid.as_str()) {
            Some(t) => Some(*t),
            None => None,
        };
        if let Some(until) = until {
            if now < until {
                return ;
            }
            self.group_cooldown_until.remove(gid.as_str());
            self.restart(uids);
        }
        if self.used_up(uids, d) {
            self.group_cooldown_until.insert(gid.clone(), now + d.freeze_minutes as u64 * 60);
        }
    }
}

/// How many of `minutes` are left to grant when `used` were granted already.
fn grant(used: u32, minutes: u32) -> (r: u32)
    requires
        used < DAILY_EXTENSION_MINUTES,
    ensures
        r == if minutes <= DAILY_EXTENSION_MINUTES - used {
            minutes
        } else {
            (DAILY_EXTENSION_MINUTES - used) as u32
        },
{
    if minutes <= DAILY_EXTENSION_MINUTES - used {
        minutes
    } else {
        DAILY_EXTENSION_MINUTES - used
    }
}

/// The deadline after `minutes` more.
fn prolong(until: Option<&u64>, minutes: u32, now: u64) -> (r: u64)
    requires
        base_of(until, now) + minutes * 60 <= u64::MAX,
    ensures
        r == base_of(until, now) + minutes * 60,
{
    later_of(until, now) + minutes as u64 * 60
}

/// The moment from which an extension at `now` of the deadline `until` counts.
spec fn base_of(until: Option<&u64>, now: u64) -> u64 {
    match until {
        Some(t) => if now < *t {
            *t
        } else {
            now
        },
        None => now,
    }
}

/// The moment from which an extension at `now` of the deadline `until` counts.
fn later_of(until: Option<&u64>, now: u64) -> (r: u64)
    ensures
        r == base_of(until, now),
{
    match until {
        Some(t) => if now < *t {
            *t
        } else {
            now
        },
        None => now,
    }
}

/// Whether the deadline `until` has room for what is granted of `minutes` at `now`
/// when `used` were granted already.
fn fits_in(until: Option<&u64>, used: u32, minutes: u32, now: u64) -> (r: bool)
    ensures
        r == (base_of(until, now) + (if used >= DAILY_EXTENSION_MINUTES {
            0
        } else if minutes <= DAILY_EXTENSION_MINUTES - used {
            minutes as int
        } else {
            DAILY_EXTENSION_MINUTES - used
        }) * 60 <= u64::MAX),
{
    let add: u32 = if used >= DAILY_EXTENSION_MINUTES {
        0
    } else {
        grant(used, minutes)
    };
    later_of(until, now) <= u64::MAX - add as u64 * 60
}

impl Counters {
    /// Whether the usage counters of `who` leave room for `secs` more.
    pub fn has_room(&self, who: &HashSet<u32>, secs: u64) -> (r: bool)
        ensures
            r == self@.usage_fits(who@, secs),
    {
        let items = set_items(who);
        let mut i: usize = 0;
        while i < items.len()
            invariant
                i <= items@.len(),
                items@.to_set() == who@,
                forall|j: int|
                    0 <= j < i ==> count_of(self@.usage, #[trigger] items@[j]) + secs <= u64::MAX
                        && count_of(self@.usage_fg, items@[j]) + secs <= u64::MAX,
            decreases items@.len() - i,
        {
            let uid: u32 = items[i];
            assert(items@.to_set().contains(uid));
            assert(who@.contains(uid));
            if count_in(&self.usage_seconds, uid) > u64::MAX - secs || count_in(&self.usage_fg, uid)
                > u64::MAX - secs {
                return false;
            }
            i = i + 1;
        }
        assert forall|uid: u32| #[trigger] who@.contains(uid) implies count_of(self@.usage, uid) + secs
            <= u64::MAX && count_of(self@.usage_fg, uid) + secs <= u64::MAX by {
            assert(items@.to_set().contains(uid));
            assert(items@[items@.index_of(uid)] == uid);
        }
        true
    }

    /// Whether an extension of `uid` by `minutes` at `now` cannot overflow its
    /// deadline.
    pub fn has_room_to_extend(&self, uid: u32, minutes: u32, now: u64) -> (r: bool)
        ensures
            r == self@.can_extend(uid, minutes, now),
    {
        let used: u32 = match self.ext_granted_today.get(&uid) {
            Some(n) => *n,
            None => 0,
        };
        assert(self@.extension == self.extension_until@);
        fits_in(self.extension_until.get(&uid), used, minutes, now)
    }

    /// Whether an extension of the group `gid` by `minutes` at `now` cannot
    /// overflow its deadline.
    pub fn has_room_to_extend_group(&self, gid: &str, minutes: u32, now: u64) -> (r: bool)
        requires
            self.wf(),
        ensures
            r == self@.can_extend_group(gid@, minutes, now),
    {
        let used: u32 = match self.group_ext_granted_today.get(gid) {
            Some(n) => *n,
            None => 0,
        };
        assert(self@.group_extension == self.group_extension_until@);
        fits_in(self.group_extension_until.get(gid), used, minutes, now)
    }

    /// Grants `uid` up to `minutes` more; how many, or nothing when the day's
    /// grant is spent.
    pub fn extend(&mut self, uid: u32, minutes: u32, now: u64) -> (r: Option<u32>)
        requires
            old(self).wf(),
            old(self)@.can_extend(uid, minutes, now),
        ensures
            final(self).wf(),
            match r {
                None => granted_of(old(self)@.granted, uid) >= DAILY_EXTENSION_MINUTES
                    && final(self)@ == old(self)@,
                Some(add) => granted_of(old(self)@.granted, uid) < DAILY_EXTENSION_MINUTES && add
                    == minutes_granted(old(self)@.granted, uid, minutes) && final(self)@
                    == old(self)@.extended(uid, minutes, now),
            },
    {
        let used: u32 = match self.ext_granted_today.get(&uid) {
            Some(n) => *n,
            None => 0,
        };
        if used >= DAILY_EXTENSION_MINUTES {
            return None;
        }
        let add: u32 = grant(used, minutes);
        assert(self@.extension == self.extension_until@);
        let until: u64 = prolong(self.extension_until.get(&uid), add, now);
        let _ = self.ext_granted_today.insert(uid, used + add);
        let _ = self.extension_until.insert(uid, until);
        Some(add)
    }

    /// Grants the group `gid` up to `minutes` more; how many, or nothing when
    /// the day's grant is spent.
    pub fn extend_group(&mut self, gid: &str, minutes: u32, now: u64) -> (r: Option<u32>)
        requires
            old(self).wf(),
            old(self)@.can_extend_group(gid@, minutes, now),
        ensures
            final(self).wf(),
            match r {
                None => granted_of(old(self)@.group_granted, gid@) >= DAILY_EXTENSION_MINUTES
                    && final(self)@ == old(self)@,
                Some(add) => granted_of(old(self)@.group_granted, gid@) < DAILY_EXTENSION_MINUTES
                    && add == minutes_granted(old(self)@.group_granted, gid@, minutes)
                    && final(self)@ == old(self)@.group_extended(gid@, minutes, now),
            },
    {
        let used: u32 = match self.group_ext_granted_today.get(gid) {
            Some(n) => *n,
            None => 0,
        };
        if used >= DAILY_EXTENSION_MINUTES {
            return None;
        }
        let add: u32 = grant(used, minutes);
        assert(self@.group_extension == self.group_extension_until@);
        let until: u64 = prolong(self.group_extension_until.get(gid), add, now);
        self.group_ext_granted_today.insert(gid.to_owned(), used + add);
        self.group_extension_until.insert(gid.to_owned(), until);
        Some(add)
    }

    /// Hands what was counted for each uid over to the uids that its apps have
    /// after `moves`.
    pub fn relocate(&mut self, moves: &Vec<(u32, u32)>)
        requires
            old(self).wf(),
        ensures
            final(self).wf(),
            final(self)@ == old(self)@.relocated(moves@),
    {
        relocate(&mut self.usage_seconds, moves);
        relocate(&mut self.usage_fg, moves);
        relocate(&mut self.extension_until, moves);
        relocate(&mut self.ext_granted_today, moves);
        relocate(&mut self.cooldown_until, moves);
    }

    /// Drops what was counted for uids that are not in `live`.
    pub fn keep(&mut self, live: &HashSet<u32>)
        requires
            old(self).wf(),
        ensures
            final(self).wf(),
            final(self)@ == old(self)@.kept(live@),
    {
        retain_keys(&mut self.usage_seconds, live);
        retain_keys(&mut self.usage_fg, live);
        retain_keys(&mut self.extension_until, live);
        retain_keys(&mut self.ext_granted_today, live);
        retain_keys(&mut self.cooldown_until, live);
    }
}

// ---------------------------------------------------------------------------
// Laws
// ---------------------------------------------------------------------------

/// The sum over one uid is its own usage.
proof fn lemma_pool_of_one(c: CountersView, uid: u32, scope: Seq<char>)
    ensures
        pooled_usage(c, seq![uid], scope) == c.scoped_usage(uid, scope),
{
    reveal_with_fuel(pooled_usage, 2);
    assert(seq![uid].drop_last() =~= Seq::<u32>::empty());
}

/// Usage that starts again from zero is zero in every scope.
proof fn lemma_restarted_pool(c: CountersView, uids: Seq<u32>, part: Seq<u32>, scope: Seq<char>)
    requires
        forall|i: int| 0 <= i < part.len() ==> uids.contains(#[trigger] part[i]),
    ensures
        pooled_usage(c.restarted(uids), part, scope) == 0,
    decreases part.len(),
{
    if part.len() > 0 {
        assert forall|i: int| 0 <= i < part.drop_last().len() implies uids.contains(
            #[trigger] part.drop_last()[i],
        ) by {
            assert(part.drop_last()[i] == part[i]);
        }
        lemma_restarted_pool(c, uids, part.drop_last(), scope);
        assert(uids.contains(part[part.len() - 1]));
    }
}

/// A limit that is used up starts its cooldown, and it runs for exactly the
/// configured minutes.
pub proof fn a_used_up_limit_cools_down(
    c: CountersView,
    uid: u32,
    d: DurationRule,
    now: u64,
    later: u64,
)
    requires
        !c.cooldown.contains_key(uid),
        c.used_up(seq![uid], d),
        cooldown_fits(d, now),
    ensures
        c.cooled(uid, d, now).cooldown.contains_key(uid),
        pending(c.cooled(uid, d, now).cooldown, uid, later) <==> later < now + d.freeze_minutes
            * 60,
        c.cooled(uid, d, now).usage == c.usage,
        c.cooled(uid, d, now).usage_fg == c.usage_fg,
{
}

/// While a cooldown runs, nothing moves: not the deadline, not the usage.
pub proof fn a_running_cooldown_stands_still(c: CountersView, uid: u32, d: DurationRule, now: u64)
    requires
        pending(c.cooldown, uid, now),
    ensures
        c.cooled(uid, d, now) == c,
{
}

/// A cooldown that has ended frees the uid: its usage starts again from zero,
/// and no new cooldown starts.
pub proof fn an_ended_cooldown_frees(c: CountersView, uid: u32, d: DurationRule, now: u64)
    requires
        c.cooldown.contains_key(uid),
        c.cooldown[uid] <= now,
        d.limit_minutes > 0,
    ensures
        !c.cooled(uid, d, now).cooldown.contains_key(uid),
        count_of(c.cooled(uid, d, now).usage, uid) == 0,
        count_of(c.cooled(uid, d, now).usage_fg, uid) == 0,
        !c.cooled(uid, d, now).used_up(seq![uid], d),
{
    let r = CountersView { cooldown: c.cooldown.remove(uid), ..c.restarted(seq![uid]) };
    assert(seq![uid].contains(seq![uid][0]));
    lemma_pool_of_one(r, uid, d.scope@);
}

/// The cooldown of a shared pool that has ended frees the group: the usage of
/// every member starts again from zero, and no new cooldown starts.
pub proof fn an_ended_pool_cooldown_frees(
    c: CountersView,
    gid: Seq<char>,
    uids: Seq<u32>,
    d: DurationRule,
    now: u64,
    i: int,
)
    requires
        c.group_cooldown.contains_key(gid),
        c.group_cooldown[gid] <= now,
        d.limit_minutes > 0,
        0 <= i < uids.len(),
    ensures
        !c.pool_cooled(gid, uids, d, now).group_cooldown.contains_key(gid),
        count_of(c.pool_cooled(gid, uids, d, now).usage, uids[i]) == 0,
        count_of(c.pool_cooled(gid, uids, d, now).usage_fg, uids[i]) == 0,
        !c.pool_cooled(gid, uids, d, now).used_up(uids, d),
{
    let r = CountersView { group_cooldown: c.group_cooldown.remove(gid), ..c.restarted(uids) };
    lemma_restarted_pool(c, uids, uids, d.scope@);
    lemma_same_usage(r, c.restarted(uids), uids, d.scope@);
    assert(uids.contains(uids[i]));
}

/// Pooled usage depends on the usage counters alone.
proof fn lemma_same_usage(a: CountersView, b: CountersView, uids: Seq<u32>, scope: Seq<char>)
    requires
        a.usage == b.usage,
        a.usage_fg == b.usage_fg,
    ensures
        pooled_usage(a, uids, scope) == pooled_usage(b, uids, scope),
    decreases uids.len(),
{
    if uids.len() > 0 {
        lemma_same_usage(a, b, uids.drop_last(), scope);
    }
}

/// Usage is counted for limited uids alone, by exactly the time that passed:
/// for those that run, and for those in the foreground.
pub proof fn usage_counts_what_was_seen(
    c: CountersView,
    targets: Set<u32>,
    live: Set<u32>,
    fg: Set<u32>,
    secs: u64,
    uid: u32,
)
    requires
        c.usage_fits(targets, secs),
    ensures
        count_of(c.used(targets, live, fg, secs).usage, uid) == count_of(c.usage, uid) + if targets.contains(
            uid,
        ) && live.contains(uid) {
            secs
        } else {
            0
        },
        count_of(c.used(targets, live, fg, secs).usage_fg, uid) == count_of(c.usage_fg, uid)
            + if targets.contains(uid) && fg.contains(uid) {
            secs
        } else {
            0
        },
{
}

/// Where nothing is detected nothing is counted: a failed look at the device
/// uses up nobody's time.
pub proof fn nothing_seen_nothing_counted(c: CountersView, targets: Set<u32>, secs: u64)
    ensures
        c.used(targets, Set::empty(), Set::empty(), secs) == c,
{
    let r = c.used(targets, Set::empty(), Set::empty(), secs);
    assert(r.usage =~= c.usage);
    assert(r.usage_fg =~= c.usage_fg);
}

/// Counting usage never lowers what a limit is held against, so a limit that was
/// reached stays reached until the counters start again.
pub proof fn a_reached_limit_stays_reached(
    c: CountersView,
    targets: Set<u32>,
    live: Set<u32>,
    fg: Set<u32>,
    secs: u64,
    uids: Seq<u32>,
    d: DurationRule,
)
    requires
        c.usage_fits(targets, secs),
        d.scope@ != "background"@ || fg.subset_of(live),
        c.used_up(uids, d),
    ensures
        c.used(targets, live, fg, secs).used_up(uids, d),
{
    lemma_usage_grows(c, targets, live, fg, secs, uids, d.scope@);
}

proof fn lemma_usage_grows(
    c: CountersView,
    targets: Set<u32>,
    live: Set<u32>,
    fg: Set<u32>,
    secs: u64,
    uids: Seq<u32>,
    scope: Seq<char>,
)
    requires
        c.usage_fits(targets, secs),
        scope != "background"@ || fg.subset_of(live),
    ensures
        pooled_usage(c, uids, scope) <= pooled_usage(c.used(targets, live, fg, secs), uids, scope),
    decreases uids.len(),
{
    if uids.len() > 0 {
        lemma_usage_grows(c, targets, live, fg, secs, uids.drop_last(), scope);
        usage_counts_what_was_seen(c, targets, live, fg, secs, uids.last());
    }
}

// ---------------------------------------------------------------------------
// Laws of usage and pools
// ---------------------------------------------------------------------------

/// All usage is either foreground or background: the scope "any" counts all the
/// time an app runs, "foreground" and every unknown scope the time it is in front,
/// and "background" the rest.
pub proof fn scopes_split_the_usage(c: CountersView, uid: u32, scope: Seq<char>)
    ensures
        c.scoped_usage(uid, "any"@) == count_of(c.usage, uid),
        c.scoped_usage(uid, "foreground"@) == count_of(c.usage_fg, uid),
        count_of(c.usage_fg, uid) <= count_of(c.usage, uid) ==> c.scoped_usage(uid, "foreground"@)
            + c.scoped_usage(uid, "background"@) == c.scoped_usage(uid, "any"@),
        count_of(c.usage_fg, uid) > count_of(c.usage, uid) ==> c.scoped_usage(uid, "background"@) == 0,
        scope != "any"@ && scope != "background"@ ==> c.scoped_usage(uid, scope) == c.scoped_usage(
            uid,
            "foreground"@,
        ),
{
    reveal_strlit("any");
    reveal_strlit("foreground");
    reveal_strlit("background");
    assert("any"@.len() == 3 && "foreground"@.len() == 10 && "background"@.len() == 10);
    assert("foreground"@[0] == 'f' && "background"@[0] == 'b');
}

/// The usage of a pool is the sum over its members: that of a member alone is its
/// own, and two pools together use what each of them does.
pub proof fn pools_add_up(c: CountersView, a: Seq<u32>, b: Seq<u32>, uid: u32, scope: Seq<char>)
    ensures
        pooled_usage(c, Seq::empty(), scope) == 0,
        pooled_usage(c, seq![uid], scope) == c.scoped_usage(uid, scope),
        pooled_usage(c, a + b, scope) == pooled_usage(c, a, scope) + pooled_usage(c, b, scope),
    decreases b.len(),
{
    lemma_pool_of_one(c, uid, scope);
    if b.len() > 0 {
        pools_add_up(c, a, b.drop_last(), uid, scope);
        assert((a + b).drop_last() =~= a + b.drop_last());
        assert((a + b).last() == b.last());
    } else {
        assert(a + b =~= a);
    }
}

/// A limit is used up exactly when the seconds used reach sixty times its minutes:
/// for a uid its own, for a pool those of all members together.
pub proof fn a_limit_is_reached_at_its_minutes(c: CountersView, uid: u32, uids: Seq<u32>, d: DurationRule)
    ensures
        c.used_up(seq![uid], d) <==> c.scoped_usage(uid, d.scope@) >= d.limit_minutes * 60,
        c.used_up(uids, d) <==> pooled_usage(c, uids, d.scope@) >= d.limit_minutes * 60,
{
    lemma_pool_of_one(c, uid, d.scope@);
}

/// Counting usage changes the usage counters and nothing else.
pub proof fn counting_changes_usage_alone(
    c: CountersView,
    targets: Set<u32>,
    live: Set<u32>,
    fg: Set<u32>,
    secs: u64,
)
    ensures
        ({
            let r = c.used(targets, live, fg, secs);
            &&& r.extension == c.extension
            &&& r.group_extension == c.group_extension
            &&& r.granted == c.granted
            &&& r.group_granted == c.group_granted
            &&& r.cooldown == c.cooldown
            &&& r.group_cooldown == c.group_cooldown
        }),
{
}

// ---------------------------------------------------------------------------
// Laws of cooldowns
// ---------------------------------------------------------------------------

/// While a limit is not used up and no cooldown runs, a step changes nothing.
pub proof fn within_the_limit_nothing_cools_down(c: CountersView, uid: u32, d: DurationRule, now: u64)
    requires
        !c.cooldown.contains_key(uid),
        c.scoped_usage(uid, d.scope@) < d.limit_minutes * 60,
    ensures
        c.cooled(uid, d, now) == c,
{
    lemma_pool_of_one(c, uid, d.scope@);
}

/// The cooldown that a used-up limit starts ends its minutes from now.
pub proof fn a_cooldown_lasts_its_minutes(c: CountersView, uid: u32, d: DurationRule, now: u64)
    requires
        !c.cooldown.contains_key(uid),
        c.scoped_usage(uid, d.scope@) >= d.limit_minutes * 60,
        cooldown_fits(d, now),
    ensures
        c.cooled(uid, d, now).cooldown == c.cooldown.insert(uid, (now + d.freeze_minutes * 60) as u64),
        c.cooled(uid, d, now).usage == c.usage,
        c.cooled(uid, d, now).usage_fg == c.usage_fg,
{
    lemma_pool_of_one(c, uid, d.scope@);
}

/// The cooldown of a uid is its own: a step of it touches no other uid, no group
/// and no extension.
pub proof fn a_cooldown_is_one_uids_own(
    c: CountersView,
    uid: u32,
    d: DurationRule,
    now: u64,
    other: u32,
)
    requires
        other != uid,
    ensures
        ({
            let r = c.cooled(uid, d, now);
            &&& count_of(r.usage, other) == count_of(c.usage, other)
            &&& count_of(r.usage_fg, other) == count_of(c.usage_fg, other)
            &&& r.cooldown.contains_key(other) == c.cooldown.contains_key(other)
            &&& r.cooldown.contains_key(other) ==> r.cooldown[other] == c.cooldown[other]
            &&& r.group_cooldown == c.group_cooldown
            &&& r.extension == c.extension
            &&& r.group_extension == c.group_extension
            &&& r.granted == c.granted
            &&& r.group_granted == c.group_granted
        }),
{
    assert(!seq![uid].contains(other)) by {
        if seq![uid].contains(other) {
            let i = seq![uid].index_of(other);
            assert(seq![uid][i] == other);
        }
    }
}

/// While the cooldown of a shared pool runs, a step of it changes nothing: not the
/// deadline, not the usage of any member.
pub proof fn a_running_pool_cooldown_stands_still(
    c: CountersView,
    gid: Seq<char>,
    uids: Seq<u32>,
    d: DurationRule,
    now: u64,
)
    requires
        c.group_cooldown.contains_key(gid),
        now < c.group_cooldown[gid],
    ensures
        c.pool_cooled(gid, uids, d, now) == c,
{
}

/// A pool without a cooldown that its members have used up together starts one,
/// and it runs for exactly the configured minutes; their usage is kept meanwhile.
pub proof fn a_used_up_pool_cools_down(
    c: CountersView,
    gid: Seq<char>,
    uids: Seq<u32>,
    d: DurationRule,
    now: u64,
    later: u64,
)
    requires
        !c.group_cooldown.contains_key(gid),
        pooled_usage(c, uids, d.scope@) >= d.limit_minutes * 60,
        cooldown_fits(d, now),
    ensures
        c.pool_cooled(gid, uids, d, now).group_cooldown == c.group_cooldown.insert(
            gid,
            (now + d.freeze_minutes * 60) as u64,
        ),
        pending(c.pool_cooled(gid, uids, d, now).group_cooldown, gid, later) <==> later < now
            + d.freeze_minutes * 60,
        c.pool_cooled(gid, uids, d, now).usage == c.usage,
        c.pool_cooled(gid, uids, d, now).usage_fg == c.usage_fg,
{
}

/// While a pool is not used up and has no cooldown, a step changes nothing.
pub proof fn a_pool_within_its_limit_goes_on(
    c: CountersView,
    gid: Seq<char>,
    uids: Seq<u32>,
    d: DurationRule,
    now: u64,
)
    requires
        !c.group_cooldown.contains_key(gid),
        pooled_usage(c, uids, d.scope@) < d.limit_minutes * 60,
    ensures
        c.pool_cooled(gid, uids, d, now) == c,
{
}

/// The cooldown of a pool is its own: a step of it touches no other group, no uid
/// outside the pool, no cooldown of a single uid and no extension.
pub proof fn a_pool_cooldown_is_the_pools_own(
    c: CountersView,
    gid: Seq<char>,
    uids: Seq<u32>,
    d: DurationRule,
    now: u64,
    other: Seq<char>,
    uid: u32,
)
    ensures
        ({
            let r = c.pool_cooled(gid, uids, d, now);
            &&& !uids.contains(uid) ==> count_of(r.usage, uid) == count_of(c.usage, uid)
            &&& !uids.contains(uid) ==> count_of(r.usage_fg, uid) == count_of(c.usage_fg, uid)
            &&& other != gid ==> r.group_cooldown.contains_key(other)
                == c.group_cooldown.contains_key(other)
            &&& other != gid && r.group_cooldown.contains_key(other) ==> r.group_cooldown[other]
                == c.group_cooldown[other]
            &&& r.cooldown == c.cooldown
            &&& r.extension == c.extension
            &&& r.group_extension == c.group_extension
            &&& r.granted == c.granted
            &&& r.group_granted == c.group_granted
        }),
{
}

/// Deadlines are kept to the second: one is to come until it is reached, and not
/// from then on; who has none is not held up.
pub proof fn a_deadline_is_reached_at_its_second<K>(deadlines: Map<K, u64>, k: K, now: u64)
    ensures
        deadlines.contains_key(k) && now < deadlines[k] ==> pending(deadlines, k, now),
        deadlines.contains_key(k) && now >= deadlines[k] ==> !pending(deadlines, k, now),
        !deadlines.contains_key(k) ==> !pending(deadlines, k, now),
{
}

// ---------------------------------------------------------------------------
// Laws of extensions
// ---------------------------------------------------------------------------

/// A request is granted as far as the day's two hours reach: in full while they do,
/// up to them where they do not, and not at all once they are spent.
pub proof fn a_grant_fills_up_to_the_cap<K>(granted: Map<K, u32>, k: K, minutes: u32)
    ensures
        ({
            let used: u32 = if granted.contains_key(k) {
                granted[k]
            } else {
                0
            };
            let add = minutes_granted(granted, k, minutes);
            &&& used >= 120 ==> add == 0
            &&& used + minutes <= 120 ==> add == minutes
            &&& used < 120 && used + minutes > 120 ==> used + add == 120
        }),
{
}

/// When minutes are granted to a uid, its extension runs at once, and until they
/// are over: they count from the deadline it has if that is still to come, or else
/// from now.
pub proof fn an_extension_counts_from_now_or_its_deadline(
    c: CountersView,
    uid: u32,
    minutes: u32,
    now: u64,
    later: u64,
)
    requires
        c.can_extend(uid, minutes, now),
    ensures
        ({
            let r = c.extended(uid, minutes, now);
            let add = minutes_granted(c.granted, uid, minutes);
            let from: u64 = if c.extension.contains_key(uid) && c.extension[uid] > now {
                c.extension[uid]
            } else {
                now
            };
            &&& r.extension.contains_key(uid) && r.extension[uid] == from + add * 60
            &&& add > 0 ==> pending(r.extension, uid, now)
            &&& pending(r.extension, uid, later) <==> later < from + add * 60
            &&& r.granted.contains_key(uid) && r.granted[uid] == granted_of(c.granted, uid) + add
        }),
{
}

/// The same holds of a group.
pub proof fn a_group_extension_counts_from_now_or_its_deadline(
    c: CountersView,
    gid: Seq<char>,
    minutes: u32,
    now: u64,
    later: u64,
)
    requires
        c.can_extend_group(gid, minutes, now),
    ensures
        ({
            let r = c.group_extended(gid, minutes, now);
            let add = minutes_granted(c.group_granted, gid, minutes);
            let from: u64 = if c.group_extension.contains_key(gid) && c.group_extension[gid] > now {
                c.group_extension[gid]
            } else {
                now
            };
            &&& r.group_extension.contains_key(gid) && r.group_extension[gid] == from + add * 60
            &&& add > 0 ==> pending(r.group_extension, gid, now)
            &&& pending(r.group_extension, gid, later) <==> later < from + add * 60
            &&& r.group_granted.contains_key(gid) && r.group_granted[gid] == granted_of(
                c.group_granted,
                gid,
            ) + add
        }),
{
}

/// An extension of a uid changes its own deadline and its own grant, and nothing
/// else; an extension of a group those of the group.
pub proof fn an_extension_is_for_one_alone(
    c: CountersView,
    uid: u32,
    gid: Seq<char>,
    minutes: u32,
    now: u64,
    other: u32,
    other_gid: Seq<char>,
)
    ensures
        ({
            let r = c.extended(uid, minutes, now);
            &&& r.usage == c.usage && r.usage_fg == c.usage_fg
            &&& r.cooldown == c.cooldown && r.group_cooldown == c.group_cooldown
            &&& r.group_extension == c.group_extension && r.group_granted == c.group_granted
            &&& other != uid ==> r.extension.contains_key(other) == c.extension.contains_key(other)
            &&& other != uid && c.extension.contains_key(other) ==> r.extension[other]
                == c.extension[other]
            &&& other != uid ==> granted_of(r.granted, other) == granted_of(c.granted, other)
        }),
        ({
            let r = c.group_extended(gid, minutes, now);
            &&& r.usage == c.usage && r.usage_fg == c.usage_fg
            &&& r.cooldown == c.cooldown && r.group_cooldown == c.group_cooldown
            &&& r.extension == c.extension && r.granted == c.granted
            &&& other_gid != gid ==> r.group_extension.contains_key(other_gid)
                == c.group_extension.contains_key(other_gid)
            &&& other_gid != gid && c.group_extension.contains_key(other_gid)
                ==> r.group_extension[other_gid] == c.group_extension[other_gid]
            &&& other_gid != gid ==> granted_of(r.group_granted, other_gid) == granted_of(
                c.group_granted,
                other_gid,
            )
        }),
{
}

/// Extending a group twice at one moment is extending it once by the sum, as long
/// as the day's grant covers both.
pub proof fn group_extensions_add_up(c: CountersView, gid: Seq<char>, a: u32, b: u32, now: u64)
    requires
        c.can_extend_group(gid, (a + b) as u32, now),
        granted_of(c.group_granted, gid) + a + b <= 120,
    ensures
        c.group_extended(gid, a, now).group_extended(gid, b, now) == c.group_extended(
            gid,
            (a + b) as u32,
            now,
        ),
{
    let twice = c.group_extended(gid, a, now).group_extended(gid, b, now);
    let sum = c.group_extended(gid, (a + b) as u32, now);
    assert(twice.group_granted =~= sum.group_granted);
    assert(twice.group_extension =~= sum.group_extension);
}

// ---------------------------------------------------------------------------
// Laws of packages that come and go
// ---------------------------------------------------------------------------

/// Dropping what belongs to uninstalled apps keeps the whole state of every other
/// uid, and what belongs to groups.
pub proof fn installed_uids_keep_everything(c: CountersView, live: Set<u32>, uid: u32)
    requires
        live.contains(uid),
    ensures
        ({
            let r = c.kept(live);
            &&& handed_over(c.usage, uid, r.usage, uid)
            &&& handed_over(c.usage_fg, uid, r.usage_fg, uid)
            &&& handed_over(c.extension, uid, r.extension, uid)
            &&& handed_over(c.granted, uid, r.granted, uid)
            &&& handed_over(c.cooldown, uid, r.cooldown, uid)
            &&& r.group_extension == c.group_extension
            &&& r.group_granted == c.group_granted
            &&& r.group_cooldown == c.group_cooldown
        }),
{
}

/// Groups have no uid: what is counted for them stays when uids change.
pub proof fn groups_do_not_move(c: CountersView, moves: Seq<(u32, u32)>)
    ensures
        c.relocated(moves).group_extension == c.group_extension,
        c.relocated(moves).group_granted == c.group_granted,
        c.relocated(moves).group_cooldown == c.group_cooldown,
{
}

/// There is room for an extension exactly where its deadline, counted from one still to
/// come or from now, is a moment that can be written; that is then its deadline.
pub proof fn there_is_room_up_to_the_end_of_time(
    c: CountersView,
    uid: u32,
    gid: Seq<char>,
    minutes: u32,
    now: u64,
)
    ensures
        c.extension.contains_key(uid) && c.extension[uid] > now ==> (c.can_extend(
            uid,
            minutes,
            now,
        ) <==> c.extension[uid] + minutes_granted(c.granted, uid, minutes) * 60 <= u64::MAX),
        !(c.extension.contains_key(uid) && c.extension[uid] > now) ==> (c.can_extend(
            uid,
            minutes,
            now,
        ) <==> now + minutes_granted(c.granted, uid, minutes) * 60 <= u64::MAX),
        c.group_extension.contains_key(gid) && c.group_extension[gid] > now ==> (
        c.can_extend_group(gid, minutes, now) <==> c.group_extension[gid] + minutes_granted(
            c.group_granted,
            gid,
            minutes,
        ) * 60 <= u64::MAX),
        !(c.group_extension.contains_key(gid) && c.group_extension[gid] > now) ==> (
        c.can_extend_group(gid, minutes, now) <==> now + minutes_granted(
            c.group_granted,
            gid,
            minutes,
        ) * 60 <= u64::MAX),
{
}

/// Usage fits exactly where no uid that is credited would count past what can be
/// written, and a cooldown where its end can be.
pub proof fn counts_fit_up_to_their_end(
    c: CountersView,
    who: Set<u32>,
    secs: u64,
    uid: u32,
    d: DurationRule,
    now: u64,
)
    ensures
        c.usage_fits(who, secs) && who.contains(uid) ==> count_of(c.usage, uid) + secs <= u64::MAX
            && count_of(c.usage_fg, uid) + secs <= u64::MAX,
        cooldown_fits(d, now) <==> now + 60 * d.freeze_minutes <= u64::MAX,
{
}

} // verus!
