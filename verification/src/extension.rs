//! Temporary extensions.

use vstd::prelude::*;
use vstd::string::*;

use crate::counters::{
    a_group_extension_counts_from_now_or_its_deadline, an_extension_counts_from_now_or_its_deadline,
    extended_until, granted_of, minutes_granted, pending, CountersView, DAILY_EXTENSION_MINUTES,
};
use crate::engine::Engine;
use crate::rules::{GroupRule, Rules};
use crate::text::{str_eq, views};

verus! {

/// Whether `key` is a member of the group `g`.
pub open spec fn has_member(g: GroupRule, key: Seq<char>) -> bool {
    views(g.members@).contains(key)
}

/// Whether `gid` is the first group that has `key` as a member.
pub open spec fn owns(rules: Rules, gid: Seq<char>, key: Seq<char>) -> bool {
    exists|i: int|
        0 <= i < rules.groups.keys().len() && #[trigger] rules.groups.keys()[i] == gid
            && has_member(rules.groups.vals()[i], key) && forall|j: int|
            0 <= j < i ==> !has_member(#[trigger] rules.groups.vals()[j], key)
}

/// Whether some group has `key` as a member.
pub open spec fn grouped(rules: Rules, key: Seq<char>) -> bool {
    exists|i: int|
        0 <= i < rules.groups.keys().len() && has_member(#[trigger] rules.groups.vals()[i], key)
}

/// Whether the extensions of `key` are a group's: it has no rules of its own,
/// and it is a member.
pub open spec fn managed(rules: Rules, key: Seq<char>) -> bool {
    !rules.apps@.contains_key(key) && grouped(rules, key)
}

/// Whether `key` is a member of the group `g`.
fn is_member(g: &GroupRule, key: &str) -> (r: bool)
    ensures
        r == has_member(*g, key@),
{
    let mut i: usize = 0;
    while i < g.members.len()
        invariant
            i <= g.members@.len(),
            forall|j: int| 0 <= j < i ==> (#[trigger] g.members@[j])@ != key@,
        decreases g.members@.len() - i,
    {
        if str_eq(g.members[i].as_str(), key) {
            assert(views(g.members@)[i as int] == key@);
            return true;
        }
        i = i + 1;
    }
    assert forall|j: int| 0 <= j < views(g.members@).len() implies views(g.members@)[j]
        != key@ by {
        assert(views(g.members@)[j] == g.members@[j]@);
    }
    false
}

/// The group that owns this "user:pkg" key, if any.
pub fn group_of_member(rules: &Rules, key: &str) -> (r: Option<String>)
    requires
        rules.wf(),
    ensures
        match r {
            Some(gid) => owns(*rules, gid@, key@) && grouped(*rules, key@),
            None => !grouped(*rules, key@),
        },
{
    let mut i: usize = 0;
    while i < rules.groups.len()
        invariant
            rules.wf(),
            i <= rules.groups.keys().len(),
            forall|j: int| 0 <= j < i ==> !has_member(#[trigger] rules.groups.vals()[j], key@),
        decreases rules.groups.keys().len() - i,
    {
        if is_member(rules.groups.val_at(i), key) {
            let gid = rules.groups.key_at(i);
            assert(rules.groups.keys()[i as int] == gid@);
            return Some(gid.clone());
        }
        i = i + 1;
    }
    None
}

/// Why no extension is granted.
#[derive(Debug)]
pub enum ExtensionError {
    /// the app is a member of a group and has no rules of its own
    ManagedByGroup { key: String, gid: String },
    /// the day's grant is spent
    LimitReached,
    /// neither an installed app nor a group
    UnknownKey { key: String },
}

impl ExtensionError {
    /// The error in words.
    pub open spec fn text(self) -> Seq<char> {
        match self {
            ExtensionError::ManagedByGroup { key, gid } => key@ + " is managed by group '"@ + gid@
                + "'; extend that group instead"@,
            ExtensionError::LimitReached => "daily extension limit (120 min) reached"@,
            ExtensionError::UnknownKey { key } => "unknown app or group key: "@ + key@,
        }
    }

    /// The error in words.
    pub fn message(&self) -> (r: String)
        ensures
            r@ == self.text(),
    {
        match self {
            ExtensionError::ManagedByGroup { key, gid } => {
                let mut s = key.clone();
                s.append(" is managed by group '");
                s.append(gid.as_str());
                s.append("'; extend that group instead");
                s
            },
            ExtensionError::LimitReached => "daily extension limit (120 min) reached".to_owned(),
            ExtensionError::UnknownKey { key } => {
                let mut s = "unknown app or group key: ".to_owned();
                s.append(key.as_str());
                s
            },
        }
    }
}

/// Whether `r` is the outcome of a request for `minutes` more for `key` at `now`
/// that turns the engine `before` into `after`. Only the counters move, and they
/// only when minutes are granted.
pub open spec fn extension_outcome(
    before: Engine,
    after: Engine,
    key: Seq<char>,
    minutes: u32,
    now: u64,
    r: Result<u32, ExtensionError>,
) -> bool {
    let c = before.counters@;
    let is_app = before.uid_of@.contains_key(key);
    let uid = before.uid_of@[key];
    let is_group = before.rules.groups@.contains_key(key);
    let spent = if is_app {
        granted_of(c.granted, uid) >= DAILY_EXTENSION_MINUTES
    } else {
        granted_of(c.group_granted, key) >= DAILY_EXTENSION_MINUTES
    };
    &&& after == (Engine { counters: after.counters, ..before })
    &&& r is Err ==> after.counters@ == c
    &&& match r {
        Err(ExtensionError::ManagedByGroup { key: k, gid }) => managed(before.rules, key) && k@
            == key && owns(before.rules, gid@, key),
        Err(ExtensionError::LimitReached) => !managed(before.rules, key) && (is_app || is_group)
            && spent,
        Err(ExtensionError::UnknownKey { key: k }) => !managed(before.rules, key) && !is_app
            && !is_group && k@ == key,
        Ok(add) => !managed(before.rules, key) && (is_app || is_group) && !spent && if is_app {
            add == minutes_granted(c.granted, uid, minutes) && after.counters@ == c.extended(
                uid,
                minutes,
                now,
            )
        } else {
            add == minutes_granted(c.group_granted, key, minutes) && after.counters@
                == c.group_extended(key, minutes, now)
        },
    }
}

impl Engine {
    /// The deadline that a request for `minutes` more for `key` at `now` prolongs,
    /// if there is one, has room for what is granted.
    pub open spec fn room_to_extend(&self, key: Seq<char>, minutes: u32, now: u64) -> bool {
        if managed(self.rules, key) {
            true
        } else if self.uid_of@.contains_key(key) {
            self.counters@.can_extend(self.uid_of@[key], minutes, now)
        } else {
            self.rules.groups@.contains_key(key) ==> self.counters@.can_extend_group(
                key,
                minutes,
                now,
            )
        }
    }

    /// Whether the deadline that a request for `minutes` more for `key` at `now`
    /// prolongs, if there is one, has room for what is granted.
    pub fn has_room_to_extend(&self, key: &str, minutes: u32, now: u64) -> (r: bool)
        requires
            self.wf(),
        ensures
            r == self.room_to_extend(key@, minutes, now),
    {
        if !self.rules.apps.contains_key(key) {
            if group_of_member(&self.rules, key).is_some() {
                return true;
            }
        }
        match self.uid_of.get(key) {
            Some(uid) => self.counters.has_room_to_extend(*uid, minutes, now),
            None => !self.rules.groups.contains_key(key) || self.counters.has_room_to_extend_group(
                key,
                minutes,
                now,
            ),
        }
    }

    /// Add extension minutes. key = "user:pkg" or a group id. Runtime state only:
    /// lost on module restart, reset daily, capped at 120 min/day. Returns the
    /// minutes actually added.
    ///
    /// An app that lives in a group is governed by the group's extension pool, so
    /// a per-uid extension would be stored and then never read. Extending a whole
    /// group from an app key would be a much bigger surprise than an error, so
    /// that is refused, and the answer points at the group.
    pub fn add_extension(
        &mut self,
        key: &str,
        minutes: u32,
        now: u64,
    ) -> (r: Result<u32, ExtensionError>)
        requires
            old(self).wf(),
            old(self).room_to_extend(key@, minutes, now),
        ensures
            final(self).wf(),
            extension_outcome(*old(self), *final(self), key@, minutes, now, r),
    {
        if !self.rules.apps.contains_key(key) {
            if let Some(gid) = group_of_member(&self.rules, key) {
                return Err(ExtensionError::ManagedByGroup { key: key.to_owned(), gid });
            }
        }
        let uid: Option<u32> = match self.uid_of.get(key) {
            Some(u) => Some(*u),
            None => None,
        };
        if let Some(uid) = uid {
            return match self.counters.extend(uid, minutes, now) {
                Some(add) => Ok(add),
                None => Err(ExtensionError::LimitReached),
            };
        }
        if self.rules.groups.contains_key(key) {
            return match self.counters.extend_group(key, minutes, now) {
                Some(add) => Ok(add),
                None => Err(ExtensionError::LimitReached),
            };
        }
        Err(ExtensionError::UnknownKey { key: key.to_owned() })
    }
}

// ---------------------------------------------------------------------------
// Laws
// ---------------------------------------------------------------------------

/// However many minutes are asked for, and however often, no uid is granted more
/// than the day's cap: a grant that is within it stays within it.
pub proof fn the_daily_cap_holds(c: CountersView, uid: u32, gid: Seq<char>, minutes: u32, now: u64)
    requires
        granted_of(c.granted, uid) <= DAILY_EXTENSION_MINUTES,
        granted_of(c.group_granted, gid) <= DAILY_EXTENSION_MINUTES,
    ensures
        granted_of(c.extended(uid, minutes, now).granted, uid) <= DAILY_EXTENSION_MINUTES,
        granted_of(c.group_extended(gid, minutes, now).group_granted, gid)
            <= DAILY_EXTENSION_MINUTES,
{
}

/// An extension that was granted runs until its minutes are over, and not
/// longer: it is pending before its deadline and gone at it.
pub proof fn an_extension_ends(c: CountersView, uid: u32, minutes: u32, now: u64, later: u64)
    requires
        c.can_extend(uid, minutes, now),
        minutes_granted(c.granted, uid, minutes) > 0,
        later >= now,
    ensures
        ({
            let after = c.extended(uid, minutes, now);
            let until = extended_until(
                c.extension,
                uid,
                minutes_granted(c.granted, uid, minutes),
                now,
            );
            &&& until > now
            &&& pending(after.extension, uid, later) <==> later < until
        }),
{
}

/// Extending twice at one moment is extending once by the sum, as long as the
/// day's grant covers both.
pub proof fn extensions_add_up(c: CountersView, uid: u32, a: u32, b: u32, now: u64)
    requires
        c.can_extend(uid, (a + b) as u32, now),
        granted_of(c.granted, uid) + a + b <= DAILY_EXTENSION_MINUTES,
    ensures
        c.extended(uid, a, now).extended(uid, b, now) == c.extended(uid, (a + b) as u32, now),
{
    let once = c.extended(uid, a, now);
    let twice = once.extended(uid, b, now);
    let sum = c.extended(uid, (a + b) as u32, now);
    assert(twice.granted =~= sum.granted);
    assert(twice.extension =~= sum.extension);
}

/// A key without rules of its own that is a member of a group is refused, and the
/// answer names that group; the day and everything else stay as they are.
pub proof fn members_are_pointed_to_their_group(
    before: Engine,
    after: Engine,
    key: Seq<char>,
    minutes: u32,
    now: u64,
    r: Result<u32, ExtensionError>,
    i: int,
    m: int,
)
    requires
        extension_outcome(before, after, key, minutes, now, r),
        !before.rules.apps@.contains_key(key),
        0 <= i < before.rules.groups.keys().len(),
        0 <= m < before.rules.groups.vals()[i].members@.len(),
        before.rules.groups.vals()[i].members@[m]@ == key,
    ensures
        r matches Err(ExtensionError::ManagedByGroup { key: k, gid }) && k@ == key && owns(
            before.rules,
            gid@,
            key,
        ),
        after.counters@ == before.counters@,
{
    let g = before.rules.groups.vals()[i];
    assert(views(g.members@)[m] == key);
    assert(has_member(g, key));
    assert(grouped(before.rules, key));
}

/// The group that a refusal names has the key as a member, and no group before it
/// has.
pub proof fn the_group_that_is_named_has_the_member(rules: Rules, gid: Seq<char>, key: Seq<char>)
    requires
        owns(rules, gid, key),
    ensures
        exists|i: int, m: int|
            0 <= i < rules.groups.keys().len() && rules.groups.keys()[i] == gid && 0 <= m
                < rules.groups.vals()[i].members@.len() && (
            #[trigger] rules.groups.vals()[i].members@[m])@ == key,
{
    let i = choose|i: int|
        0 <= i < rules.groups.keys().len() && #[trigger] rules.groups.keys()[i] == gid && has_member(
            rules.groups.vals()[i],
            key,
        ) && forall|j: int| 0 <= j < i ==> !has_member(#[trigger] rules.groups.vals()[j], key);
    let ms = views(rules.groups.vals()[i].members@);
    let m = ms.index_of(key);
    assert(ms[m] == rules.groups.vals()[i].members@[m]@);
}

/// Whether a group's member writes `key`.
pub open spec fn in_some_group(rules: Rules, key: Seq<char>) -> bool {
    exists|i: int, m: int|
        0 <= i < rules.groups.keys().len() && 0 <= m < rules.groups.vals()[i].members@.len() && (
        #[trigger] rules.groups.vals()[i].members@[m])@ == key
}

proof fn lemma_grouped(rules: Rules, key: Seq<char>)
    ensures
        grouped(rules, key) == in_some_group(rules, key),
{
    if grouped(rules, key) {
        let i = choose|i: int|
            0 <= i < rules.groups.keys().len() && has_member(#[trigger] rules.groups.vals()[i], key);
        let ms = views(rules.groups.vals()[i].members@);
        let m = ms.index_of(key);
        assert(ms[m] == rules.groups.vals()[i].members@[m]@);
    }
    if in_some_group(rules, key) {
        let (i, m) = choose|i: int, m: int|
            0 <= i < rules.groups.keys().len() && 0 <= m < rules.groups.vals()[i].members@.len() && (
            #[trigger] rules.groups.vals()[i].members@[m])@ == key;
        assert(views(rules.groups.vals()[i].members@)[m] == key);
        assert(has_member(rules.groups.vals()[i], key));
    }
}

/// An installed app that has rules of its own, or is in no group, gets what is left
/// of its day's two hours: it is exempt from now on for the minutes that the answer
/// says, on top of what it had left. Once the two hours are spent it is refused.
pub proof fn an_app_gets_what_is_left_of_its_day(
    before: Engine,
    after: Engine,
    key: Seq<char>,
    minutes: u32,
    now: u64,
    r: Result<u32, ExtensionError>,
)
    requires
        extension_outcome(before, after, key, minutes, now, r),
        before.room_to_extend(key, minutes, now),
        before.uid_of@.contains_key(key),
        before.rules.apps@.contains_key(key) || !in_some_group(before.rules, key),
    ensures
        ({
            let uid = before.uid_of@[key];
            let (c, d) = (before.counters@, after.counters@);
            let used = granted_of(c.granted, uid);
            &&& used >= 120 ==> r is Err && d == c
            &&& used < 120 ==> {
                &&& r matches Ok(add) && add == if used + minutes <= 120 {
                    minutes as int
                } else {
                    120 - used
                }
                &&& granted_of(d.granted, uid) == used + r.unwrap()
                &&& d.extension.contains_key(uid) && d.extension[uid] == (if c.extension.contains_key(
                    uid,
                ) && c.extension[uid] > now {
                    c.extension[uid]
                } else {
                    now
                }) + r.unwrap() * 60
                &&& d.usage == c.usage && d.usage_fg == c.usage_fg && d.cooldown == c.cooldown
                &&& d.group_extension == c.group_extension && d.group_granted == c.group_granted
            }
        }),
{
    lemma_grouped(before.rules, key);
    let uid = before.uid_of@[key];
    if granted_of(before.counters@.granted, uid) < 120 {
        an_extension_counts_from_now_or_its_deadline(before.counters@, uid, minutes, now, now);
    }
}

/// A group gets the same, for all of its members.
pub proof fn a_group_gets_what_is_left_of_its_day(
    before: Engine,
    after: Engine,
    gid: Seq<char>,
    minutes: u32,
    now: u64,
    r: Result<u32, ExtensionError>,
)
    requires
        extension_outcome(before, after, gid, minutes, now, r),
        before.room_to_extend(gid, minutes, now),
        !before.uid_of@.contains_key(gid),
        before.rules.groups@.contains_key(gid),
        before.rules.apps@.contains_key(gid) || !in_some_group(before.rules, gid),
    ensures
        ({
            let (c, d) = (before.counters@, after.counters@);
            let used = granted_of(c.group_granted, gid);
            &&& used >= 120 ==> r is Err && d == c
            &&& used < 120 ==> {
                &&& r matches Ok(add) && add == if used + minutes <= 120 {
                    minutes as int
                } else {
                    120 - used
                }
                &&& granted_of(d.group_granted, gid) == used + r.unwrap()
                &&& d.group_extension.contains_key(gid) && d.group_extension[gid] == (
                if c.group_extension.contains_key(gid) && c.group_extension[gid] > now {
                    c.group_extension[gid]
                } else {
                    now
                }) + r.unwrap() * 60
                &&& d.usage == c.usage && d.usage_fg == c.usage_fg && d.cooldown == c.cooldown
                &&& d.extension == c.extension && d.granted == c.granted
            }
        }),
{
    lemma_grouped(before.rules, gid);
    if granted_of(before.counters@.group_granted, gid) < 120 {
        a_group_extension_counts_from_now_or_its_deadline(
            before.counters@,
            gid,
            minutes,
            now,
            now,
        );
    }
}

/// A key that is neither an installed app, nor a group, nor a member of one is
/// refused as unknown, and changes nothing.
pub proof fn an_unknown_key_is_refused(
    before: Engine,
    after: Engine,
    key: Seq<char>,
    minutes: u32,
    now: u64,
    r: Result<u32, ExtensionError>,
)
    requires
        extension_outcome(before, after, key, minutes, now, r),
        !before.uid_of@.contains_key(key),
        !before.rules.groups@.contains_key(key),
        !in_some_group(before.rules, key),
    ensures
        r matches Err(ExtensionError::UnknownKey { key: k }) && k@ == key,
        after.counters@ == before.counters@,
        after == (Engine { counters: after.counters, ..before }),
{
    lemma_grouped(before.rules, key);
}

/// An extension touches the counters and nothing else of the engine.
pub proof fn an_extension_touches_the_counters_alone(
    before: Engine,
    after: Engine,
    key: Seq<char>,
    minutes: u32,
    now: u64,
    r: Result<u32, ExtensionError>,
)
    requires
        extension_outcome(before, after, key, minutes, now, r),
    ensures
        after.rules == before.rules,
        after.uid_of == before.uid_of,
        after.blocked == before.blocked,
        after.protected == before.protected,
        after.last_tick == before.last_tick,
        after.last_day == before.last_day,
        after.counters@.cooldown == before.counters@.cooldown,
        after.counters@.group_cooldown == before.counters@.group_cooldown,
{
}

} // verus!
