//! Taking rules and package lists over into the engine.

use std::collections::HashSet;

use vstd::prelude::*;
use vstd::string::*;

use crate::clock::{parse_tz, tz_of};
use crate::counters::CountersView;
use crate::decide::{member_uids, uids_of_members};
use crate::engine::{Engine, RulesSource, Stamp};
use crate::proc::{lossy_text, utf8_lossy};
use crate::rules::{
    is_default, sanitize_is_idempotent, GroupRule, Rules, RulesError, RULES_VERSION_MAX,
};
use crate::state::KillCount;
use crate::table::{StrMap, StrSet};
use crate::text::{
    a_join_is_split_again, lines, nothing_to_split, split_at_first, split_lines, split_once, trim,
    trimmed, views,
};
use crate::uids::{
    a_uid_given_up_has_no_entry, an_app_finds_its_entry, an_untraded_uid_keeps_its_entry, handed_over,
    relocated, traded,
};

verus! {

broadcast use vstd::std_specs::hash::group_hash_axioms;

// ---------------------------------------------------------------------------
// Which rules are in force
// ---------------------------------------------------------------------------

/// Whether rules that were read and parsed (None when they could not be) can be
/// used.
pub open spec fn usable(parsed: Option<Rules>) -> bool {
    parsed matches Some(p) && p.version <= RULES_VERSION_MAX
}

/// Rules that were read are well formed.
pub open spec fn parsed_wf(parsed: Option<Rules>) -> bool {
    parsed matches Some(p) ==> p.wf()
}

/// Whether `rules` from `source` are the pick among the live file and the last
/// known good copy: the first one that can be used, cleaned, or else the default.
pub open spec fn is_pick(
    file: Option<Rules>,
    backup: Option<Rules>,
    rules: Rules,
    source: RulesSource,
) -> bool {
    &&& rules.wf()
    &&& if usable(file) {
        source == RulesSource::File && rules.cleans(file.unwrap())
    } else if usable(backup) {
        source == RulesSource::Backup && rules.cleans(backup.unwrap())
    } else {
        source == RulesSource::Default && is_default(rules)
    }
}

/// Whether rules that were read and parsed (None when they could not be) can be
/// used.
pub fn is_usable(parsed: &Option<Rules>) -> (r: bool)
    ensures
        r == usable(*parsed),
{
    match parsed {
        Some(p) => p.version <= RULES_VERSION_MAX,
        None => false,
    }
}

/// The rules of a file that was read and parsed, if they can be used.
fn usable_rules(parsed: Option<Rules>) -> (r: Option<Rules>)
    requires
        parsed_wf(parsed),
    ensures
        match r {
            Some(rules) => usable(parsed) && rules.wf() && rules.cleans(parsed.unwrap()),
            None => !usable(parsed),
        },
{
    match parsed {
        Some(p) => match Rules::load(p) {
            Ok(rules) => Some(rules),
            Err(_) => None,
        },
        None => None,
    }
}

/// Picks the rules: the live file, else the last known good copy, else the
/// built-in default.
pub fn pick_rules(file: Option<Rules>, backup: Option<Rules>) -> (r: (Rules, RulesSource))
    requires
        parsed_wf(file),
        parsed_wf(backup),
    ensures
        is_pick(file, backup, r.0, r.1),
{
    match usable_rules(file) {
        Some(rules) => (rules, RulesSource::File),
        None => match usable_rules(backup) {
            Some(rules) => (rules, RulesSource::Backup),
            None => (Rules::default(), RulesSource::Default),
        },
    }
}

impl Engine {
    /// Pick the rule set: the live file, else the last known good copy, else the
    /// built-in default. A parse failure must never silently disarm the module.
    /// True when the rules came from the file, whose copy is then to be renewed.
    pub fn load_rules(&mut self, file: Option<Rules>, backup: Option<Rules>) -> (r: bool)
        requires
            old(self).wf(),
            parsed_wf(file),
            parsed_wf(backup),
        ensures
            final(self).wf(),
            r == usable(file),
            is_pick(file, backup, final(self).rules, final(self).rules_source),
            final(self).tz_secs == tz_of(final(self).rules.settings.timezone@),
            *final(self) == (Engine {
                rules: final(self).rules,
                rules_source: final(self).rules_source,
                tz_secs: final(self).tz_secs,
                ..*old(self)
            }),
    {
        let (rules, source) = pick_rules(file, backup);
        self.rules = rules;
        self.rules_source = source;
        self.tz_secs = parse_tz(self.rules.settings.timezone.as_str());
        source == RulesSource::File
    }
}

// ---------------------------------------------------------------------------
// Reloading
// ---------------------------------------------------------------------------

/// Whether the timing mode of the group `gid` changed between two rule sets.
pub open spec fn toggled(
    old_groups: Map<Seq<char>, GroupRule>,
    new_groups: Map<Seq<char>, GroupRule>,
    gid: Seq<char>,
) -> bool {
    old_groups.contains_key(gid) && new_groups.contains_key(gid) && old_groups[gid].shared_pool
        != new_groups[gid].shared_pool
}

/// Whether `uid` is a member of a group whose timing mode changed.
pub open spec fn in_toggled(
    old_groups: Map<Seq<char>, GroupRule>,
    new_groups: Map<Seq<char>, GroupRule>,
    uids: Map<Seq<char>, u32>,
    uid: u32,
) -> bool {
    exists|gid: Seq<char>| #[trigger]
        toggled(old_groups, new_groups, gid) && member_uids(
            views(new_groups[gid].members@),
            uids,
        ).contains(uid)
}

/// The counters without the cooldowns that started under another timing mode.
/// Usage is kept either way.
pub open spec fn untoggled(
    c: CountersView,
    old_groups: Map<Seq<char>, GroupRule>,
    new_groups: Map<Seq<char>, GroupRule>,
    uids: Map<Seq<char>, u32>,
) -> CountersView {
    CountersView {
        cooldown: Map::new(
            |uid: u32|
                c.cooldown.contains_key(uid) && !in_toggled(old_groups, new_groups, uids, uid),
            |uid: u32| c.cooldown[uid],
        ),
        group_cooldown: Map::new(
            |gid: Seq<char>|
                c.group_cooldown.contains_key(gid) && !toggled(old_groups, new_groups, gid),
            |gid: Seq<char>| c.group_cooldown[gid],
        ),
        ..c
    }
}

/// What a reload did.
#[derive(Debug, Clone, Copy, PartialEq, Eq, Structural)]
pub struct Reloaded {
    /// the rules came from the live file, whose copy is to be renewed
    pub from_file: bool,
    /// the package list was known, and the reload went through
    pub complete: bool,
}

impl Engine {
    /// Whether rules are in force as a reload leaves them: a usable file
    /// replaces them; an unusable one leaves rules from a file in force, and
    /// picks again where a fallback set was.
    pub open spec fn reloads_rules(
        &self,
        before: Engine,
        file: Option<Rules>,
        backup: Option<Rules>,
    ) -> bool {
        if usable(file) || before.rules_source != RulesSource::File {
            is_pick(file, backup, self.rules, self.rules_source)
        } else {
            self.rules == before.rules && self.rules_source == before.rules_source
        }
    }

    /// Whether the engine is `before` with the rules that are in force now, the
    /// protected packages, the new uid map where there is one, and without the
    /// cooldowns that started under another timing mode.
    pub open spec fn takes_over(
        &self,
        before: Engine,
        protected: StrSet,
        uids: Option<StrMap<u32>>,
        mtime: Option<Stamp>,
    ) -> bool {
        &&& self.tz_secs == tz_of(self.rules.settings.timezone@)
        &&& self.counters@ == untoggled(
            before.counters@,
            before.rules.groups@,
            self.rules.groups@,
            self.uid_of@,
        )
        &&& *self == (Engine {
            rules: self.rules,
            rules_source: self.rules_source,
            tz_secs: self.tz_secs,
            protected,
            uid_of: match uids {
                Some(u) => u,
                None => before.uid_of,
            },
            last_mtime: if uids is Some && mtime is Some {
                mtime
            } else {
                before.last_mtime
            },
            counters: self.counters,
            ..before
        })
    }

    /// Drops the cooldowns that started while a group's timing mode was another
    /// one: a member of a group that toggled is neither blocked nor freed by one.
    fn reset_toggled(&mut self, prev: &StrMap<GroupRule>)
        requires
            old(self).wf(),
            prev.wf(),
        ensures
            final(self).wf(),
            final(self).counters@ == untoggled(
                old(self).counters@,
                prev@,
                old(self).rules.groups@,
                old(self).uid_of@,
            ),
            *final(self) == (Engine { counters: final(self).counters, ..*old(self) }),
    {
        let ghost c = self.counters@;
        let ghost new = self.rules.groups@;
        let ghost uids = self.uid_of@;
        let mut i: usize = 0;
        while i < prev.len()
            invariant
                self.wf(),
                prev.wf(),
                i <= prev.keys().len(),
                c == old(self).counters@,
                new == self.rules.groups@,
                uids == self.uid_of@,
                *self == (Engine { counters: self.counters, ..*old(self) }),
                self.counters@ == (CountersView {
                    cooldown: self.counters@.cooldown,
                    group_cooldown: self.counters@.group_cooldown,
                    ..c
                }),
                forall|g: Seq<char>| #[trigger]
                    self.counters@.group_cooldown.contains_key(g) <==> c.group_cooldown.contains_key(g)
                        && !(exists|j: int|
                        0 <= j < i && #[trigger] prev.keys()[j] == g && toggled(prev@, new, g)),
                forall|g: Seq<char>| #[trigger]
                    self.counters@.group_cooldown.contains_key(g) ==> self.counters@.group_cooldown[g]
                        == c.group_cooldown[g],
                forall|u: u32| #[trigger]
                    self.counters@.cooldown.contains_key(u) <==> c.cooldown.contains_key(u) && !(
                    exists|j: int|
                        0 <= j < i && toggled(prev@, new, #[trigger] prev.keys()[j]) && member_uids(
                            views(new[prev.keys()[j]].members@),
                            uids,
                        ).contains(u)),
                forall|u: u32| #[trigger]
                    self.counters@.cooldown.contains_key(u) ==> self.counters@.cooldown[u]
                        == c.cooldown[u],
            decreases prev.keys().len() - i,
        {
            let gid = prev.key_at(i);
            let was: bool = prev.val_at(i).shared_pool;
            proof {
                prev.lemma_entry(i as int);
            }
            let uids_out: Option<Vec<u32>> = match self.rules.groups.get(gid.as_str()) {
                Some(g) => if g.shared_pool != was {
                    Some(uids_of_members(&g.members, &self.uid_of))
                } else {
                    None
                },
                None => None,
            };
            let ghost before = self.counters@;
            if let Some(out) = uids_out {
                assert(toggled(prev@, new, gid@));
                self.counters.group_cooldown_until.remove(gid.as_str());
                let mut k: usize = 0;
                while k < out.len()
                    invariant
                        self.wf(),
                        *self == (Engine { counters: self.counters, ..*old(self) }),
                        k <= out@.len(),
                        self.counters@ == (CountersView {
                            cooldown: self.counters@.cooldown,
                            group_cooldown: before.group_cooldown.remove(gid@),
                            ..before
                        }),
                        forall|u: u32| #[trigger]
                            self.counters@.cooldown.contains_key(u) <==> before.cooldown.contains_key(u)
                                && !(exists|j: int| 0 <= j < k && #[trigger] out@[j] == u),
                        forall|u: u32| #[trigger]
                            self.counters@.cooldown.contains_key(u) ==> self.counters@.cooldown[u]
                                == before.cooldown[u],
                    decreases out@.len() - k,
                {
                    let _ = self.counters.cooldown_until.remove(&out[k]);
                    k = k + 1;
                }
                assert forall|u: u32| #[trigger] out@.contains(u) implies exists|j: int|
                    0 <= j < out@.len() && #[trigger] out@[j] == u by {
                    assert(out@[out@.index_of(u)] == u);
                }
            } else {
                assert(!toggled(prev@, new, gid@));
            }
            i = i + 1;
        }
        proof {
            assert forall|g: Seq<char>| toggled(prev@, new, g) implies exists|j: int|
                0 <= j < prev.keys().len() && #[trigger] prev.keys()[j] == g by {
                prev.lemma_key(g);
                assert(prev.keys()[prev.keys().index_of(g)] == g);
            }
            assert(self.counters@.group_cooldown =~= untoggled(c, prev@, new, uids).group_cooldown);
            assert forall|u: u32| #[trigger]
                in_toggled(prev@, new, uids, u) implies !self.counters@.cooldown.contains_key(u) by {
                let g = choose|g: Seq<char>| #[trigger]
                    toggled(prev@, new, g) && member_uids(views(new[g].members@), uids).contains(u);
                prev.lemma_key(g);
                assert(prev.keys()[prev.keys().index_of(g)] == g);
            }
            assert(self.counters@.cooldown =~= untoggled(c, prev@, new, uids).cooldown);
            assert(self.counters@ =~= untoggled(c, prev@, new, uids));
        }
    }

    /// Force reload: take the rules over, and rebuild the uid map from the
    /// package list (None when it could not be read: the uid map and the stamp of
    /// the rules file are then left for the next time).
    pub fn reload(
        &mut self,
        file: Option<Rules>,
        backup: Option<Rules>,
        protected: StrSet,
        uids: Option<StrMap<u32>>,
        mtime: Option<Stamp>,
    ) -> (r: Reloaded)
        requires
            old(self).wf(),
            parsed_wf(file),
            parsed_wf(backup),
            protected.wf(),
            uids matches Some(u) ==> u.wf(),
        ensures
            final(self).wf(),
            r.from_file == usable(file),
            r.complete == (uids is Some),
            final(self).reloads_rules(*old(self), file, backup),
            final(self).takes_over(*old(self), protected, uids, mtime),
    {
        let ghost before = *self;
        let from_file: bool = is_usable(&file);
        let was_file: bool = self.rules_source == RulesSource::File;
        // Keep the old groups to detect timing-mode toggles.
        let prev: Option<Rules> = if from_file || !was_file {
            let (mut rules, source) = pick_rules(file, backup);
            std::mem::swap(&mut self.rules, &mut rules);
            self.rules_source = source;
            Some(rules)
        } else {
            None
        };
        self.tz_secs = parse_tz(self.rules.settings.timezone.as_str());
        self.protected = protected;
        let complete: bool = uids.is_some();
        if let Some(u) = uids {
            self.uid_of = u;
            if mtime.is_some() {
                self.last_mtime = mtime;
            }
        }
        // Toggling shared_pool changes how usage/cooldown are aggregated. Clear any
        // cooldown started under the old mode so it cannot linger and wrongly
        // block/unblock members. The new rules are in force now, so this does not
        // wait for a package list that can be read.
        if let Some(old_rules) = prev {
            self.reset_toggled(&old_rules.groups);
        } else {
            assert(self.counters@ =~= untoggled(
                before.counters@,
                before.rules.groups@,
                before.rules.groups@,
                self.uid_of@,
            ));
        }
        Reloaded { from_file, complete }
    }

    /// Whether the rules file was written since it was last taken over. `mtime`
    /// is None when that cannot be told.
    pub fn rules_changed(&self, mtime: Option<Stamp>) -> (r: bool)
        ensures
            r == (mtime is Some && self.last_mtime != mtime),
    {
        match mtime {
            None => false,
            Some(m) => match self.last_mtime {
                None => true,
                Some(l) => l != m,
            },
        }
    }

    /// Whether the package list was written since it was last taken over.
    /// `mtime` is None when that cannot be told.
    pub fn packages_changed(&self, mtime: Option<Stamp>) -> (r: bool)
        ensures
            r == (mtime is Some && self.last_pkg_mtime != mtime),
    {
        match mtime {
            None => false,
            Some(m) => match self.last_pkg_mtime {
                None => true,
                Some(l) => l != m,
            },
        }
    }
}

// ---------------------------------------------------------------------------
// Making a candidate live
// ---------------------------------------------------------------------------

/// A rules file that is to become the live one.
#[derive(Debug)]
pub enum Candidate {
    /// it could not be read
    Unreadable { path: String, error: String },
    /// it is no rules file
    Invalid { error: String },
    /// it was parsed
    Parsed { rules: Rules },
}

/// Why rules did not become the live ones.
#[derive(Debug)]
pub enum ApplyError {
    /// the candidate could not be read
    Unreadable { path: String, error: String },
    /// the candidate is no rules file
    Invalid { error: String },
    /// the candidate is of a newer schema
    Refused { why: RulesError },
    /// the package list could not be read
    Packages,
    /// the live file was replaced, but cannot be used
    NotReadBack,
}

impl ApplyError {
    /// The error in words.
    pub open spec fn text(self) -> Seq<char> {
        match self {
            ApplyError::Unreadable { path, error } => "cannot read "@ + path@ + ": "@ + error@,
            ApplyError::Invalid { error } => "invalid rules: "@ + error@,
            ApplyError::Refused { why } => why.text(),
            ApplyError::Packages => "cannot read the package list"@,
            ApplyError::NotReadBack => "rules were replaced but could not be read back"@,
        }
    }

    /// The error in words.
    pub fn message(&self) -> (r: String)
        ensures
            r@ == self.text(),
    {
        match self {
            ApplyError::Unreadable { path, error } => {
                let mut s = "cannot read ".to_owned();
                s.append(path.as_str());
                s.append(": ");
                s.append(error.as_str());
                s
            },
            ApplyError::Invalid { error } => {
                let mut s = "invalid rules: ".to_owned();
                s.append(error.as_str());
                s
            },
            ApplyError::Refused { why } => why.message(),
            ApplyError::Packages => "cannot read the package list".to_owned(),
            ApplyError::NotReadBack => "rules were replaced but could not be read back".to_owned(),
        }
    }
}

/// Whether `r` is what becomes of a candidate: what is to be written to the live file,
/// or why the candidate is refused.
pub open spec fn is_verdict_on(candidate: Candidate, r: Result<Rules, ApplyError>) -> bool {
    match (candidate, r) {
        (Candidate::Unreadable { path, error }, Err(ApplyError::Unreadable { path: p, error: e })) => p
            == path && e == error,
        (Candidate::Invalid { error }, Err(ApplyError::Invalid { error: e })) => e == error,
        (Candidate::Parsed { rules }, Err(ApplyError::Refused { why })) => rules.version
            > RULES_VERSION_MAX && why == (RulesError::NewerVersion { version: rules.version }),
        (Candidate::Parsed { rules }, Ok(clean)) => rules.version <= RULES_VERSION_MAX && clean.wf()
            && clean.cleans(rules),
        _ => false,
    }
}

/// Validates a candidate: what is to be written to the live file, or why the
/// candidate is refused.
pub fn check_candidate(candidate: Candidate) -> (r: Result<Rules, ApplyError>)
    requires
        candidate matches Candidate::Parsed { rules } ==> rules.wf(),
    ensures
        is_verdict_on(candidate, r),
{
    match candidate {
        Candidate::Unreadable { path, error } => Err(ApplyError::Unreadable { path, error }),
        Candidate::Invalid { error } => Err(ApplyError::Invalid { error }),
        Candidate::Parsed { rules } => match Rules::load(rules) {
            Ok(clean) => Ok(clean),
            Err(why) => Err(ApplyError::Refused { why }),
        },
    }
}

impl Engine {
    /// Takes the live file over after a candidate replaced it: how many apps it
    /// has rules for.
    pub fn apply_rules_file(
        &mut self,
        file: Option<Rules>,
        backup: Option<Rules>,
        protected: StrSet,
        uids: Option<StrMap<u32>>,
        mtime: Option<Stamp>,
    ) -> (r: Result<usize, ApplyError>)
        requires
            old(self).wf(),
            parsed_wf(file),
            parsed_wf(backup),
            protected.wf(),
            uids matches Some(u) ==> u.wf(),
        ensures
            final(self).wf(),
            final(self).reloads_rules(*old(self), file, backup),
            match r {
                Ok(n) => uids is Some && final(self).rules_source == RulesSource::File && n
                    == final(self).rules.apps.keys().len(),
                Err(e) => e == (if uids is None {
                    ApplyError::Packages
                } else {
                    ApplyError::NotReadBack
                }) && (uids is Some ==> final(self).rules_source != RulesSource::File),
            },
            final(self).takes_over(*old(self), protected, uids, mtime),
    {
        let done = self.reload(file, backup, protected, uids, mtime);
        if !done.complete {
            return Err(ApplyError::Packages);
        }
        if self.rules_source != RulesSource::File {
            return Err(ApplyError::NotReadBack);
        }
        Ok(self.rules.apps.len())
    }
}

// ---------------------------------------------------------------------------
// Package changes
// ---------------------------------------------------------------------------

/// The uids of the installed apps.
pub open spec fn installed(uids: Map<Seq<char>, u32>) -> Set<u32> {
    Set::new(
        |uid: u32| exists|k: Seq<char>| #[trigger] uids.contains_key(k) && uids[k] == uid,
    )
}

/// The uid before and after of each app in `keys` that was installed before, in
/// order.
pub open spec fn moves_of(
    keys: Seq<Seq<char>>,
    from: Map<Seq<char>, u32>,
    to: Map<Seq<char>, u32>,
) -> Seq<(u32, u32)>
    decreases keys.len(),
{
    if keys.len() == 0 {
        Seq::empty()
    } else {
        let before = moves_of(keys.drop_last(), from, to);
        let k = keys.last();
        if from.contains_key(k) {
            before.push((from[k], to[k]))
        } else {
            before
        }
    }
}

/// The uids of the installed apps.
fn installed_uids(uids: &StrMap<u32>) -> (r: HashSet<u32>)
    requires
        uids.wf(),
    ensures
        r@ == installed(uids@),
{
    let mut r: HashSet<u32> = HashSet::new();
    let mut i: usize = 0;
    while i < uids.len()
        invariant
            uids.wf(),
            i <= uids.keys().len(),
            forall|u: u32| #[trigger]
                r@.contains(u) <==> exists|j: int| 0 <= j < i && #[trigger] uids.vals()[j] == u,
        decreases uids.keys().len() - i,
    {
        let _ = r.insert(*uids.val_at(i));
        i = i + 1;
    }
    assert forall|u: u32| #[trigger] r@.contains(u) == installed(uids@).contains(u) by {
        if r@.contains(u) {
            let j = choose|j: int| 0 <= j < uids.keys().len() && #[trigger] uids.vals()[j] == u;
            uids.lemma_entry(j);
            assert(uids@.contains_key(uids.keys()[j]));
        }
        if installed(uids@).contains(u) {
            let k = choose|k: Seq<char>| #[trigger] uids@.contains_key(k) && uids@[k] == u;
            uids.lemma_key(k);
            assert(uids.vals()[uids.keys().index_of(k)] == u);
        }
    }
    assert(r@ =~= installed(uids@));
    r
}

impl Engine {
    /// Whether the engine is what `before` becomes by taking the uid map `uids` over,
    /// and `kills` what the kill counts `kills0` become.
    pub open spec fn resynced(
        &self,
        before: Engine,
        uids: StrMap<u32>,
        mtime: Stamp,
        kills0: Map<u32, u64>,
        kills: Map<u32, u64>,
    ) -> bool {
        let moves = moves_of(uids.keys(), before.uid_of@, uids@);
        &&& self.counters@ == before.counters@.relocated(moves).kept(installed(uids@))
        &&& kills == relocated(kills0, moves).restrict(installed(uids@))
        &&& *self == (Engine {
            uid_of: uids,
            last_pkg_mtime: Some(mtime),
            counters: self.counters,
            ..before
        })
    }

    /// App install/uninstall rewrites the package list (uid change/recycle): take
    /// the new uid map over, migrate per-uid state, and drop the state of
    /// uninstalled apps (their uid may be recycled by another app). The next tick
    /// blocks the new uid and releases the old one.
    pub fn sync_packages(&mut self, uids: StrMap<u32>, mtime: Stamp, kills: &mut KillCount)
        requires
            old(self).wf(),
            uids.wf(),
        ensures
            final(self).wf(),
            final(self).resynced(*old(self), uids, mtime, old(kills)@, final(kills)@),
    {
        self.last_pkg_mtime = Some(mtime);
        let ghost keys = uids.keys();
        let mut moves: Vec<(u32, u32)> = Vec::new();
        let mut i: usize = 0;
        assert(keys.take(0) =~= Seq::empty());
        while i < uids.len()
            invariant
                self.wf(),
                uids.wf(),
                keys == uids.keys(),
                i <= keys.len(),
                moves@ == moves_of(keys.take(i as int), self.uid_of@, uids@),
            decreases keys.len() - i,
        {
            let new_uid: u32 = *uids.val_at(i);
            assert(keys.take(i + 1).drop_last() =~= keys.take(i as int));
            proof {
                uids.lemma_entry(i as int);
            }
            if let Some(old_uid) = self.uid_of.get(uids.key_at(i).as_str()) {
                moves.push((*old_uid, new_uid));
            }
            i = i + 1;
        }
        assert(keys.take(i as int) =~= keys);
        self.counters.relocate(&moves);
        kills.relocate(&moves);
        self.uid_of = uids;
        let live = installed_uids(&self.uid_of);
        self.counters.keep(&live);
        kills.keep(&live);
    }
}

// ---------------------------------------------------------------------------
// Protected packages
// ---------------------------------------------------------------------------

/// The manager of the module.
pub const MANAGER_PACKAGE: &'static str = "me.weishu.kernelsu";

/// The status bar and the lock screen.
pub const SYSTEMUI_PACKAGE: &'static str = "com.android.systemui";

/// Settings is the user's way back out of any rule.
pub const SETTINGS_PACKAGE: &'static str = "com.android.settings";

/// The package of a component such as "com.android.inputmethod.latin/.LatinIME".
pub open spec fn component_package(line: Option<Seq<char>>) -> Option<Seq<char>> {
    match line {
        Some(l) => match split_at_first(l, '/') {
            Some((pkg, _)) => Some(pkg),
            None => None,
        },
        None => None,
    }
}

/// The packages that must never be blocked, given the device's own input method
/// and launcher.
pub open spec fn never_blocked(
    ime: Option<Seq<char>>,
    home: Option<Seq<char>>,
    pkg: Seq<char>,
) -> bool {
    ||| pkg == MANAGER_PACKAGE@
    ||| pkg == SYSTEMUI_PACKAGE@
    ||| pkg == SETTINGS_PACKAGE@
    ||| component_package(ime) == Some(pkg)
    ||| component_package(home) == Some(pkg)
}

/// What an answer holds.
pub open spec fn answer(line: Option<String>) -> Option<Seq<char>> {
    match line {
        Some(l) => Some(l@),
        None => None,
    }
}

/// Adds the package of a component to `set`.
fn protect_component(set: &mut StrSet, line: &Option<String>)
    requires
        old(set).wf(),
    ensures
        final(set).wf(),
        final(set)@ == match component_package(answer(*line)) {
            Some(pkg) => old(set)@.insert(pkg),
            None => old(set)@,
        },
{
    if let Some(l) = line {
        if let Some((pkg, _)) = split_once(l.as_str(), '/') {
            let _ = set.insert(pkg);
        }
    }
}

/// Packages that must never be blocked: killing them would freeze the system.
/// Static list plus the device's own launcher and input method: blocking the
/// IME leaves the user unable to type, blocking the launcher leaves an empty
/// home screen. `ime` and `home` are what the device answered, if it did.
pub fn resolve_protected(ime: &Option<String>, home: &Option<String>) -> (r: StrSet)
    ensures
        r.wf(),
        forall|pkg: Seq<char>| #[trigger]
            r@.contains(pkg) == never_blocked(answer(*ime), answer(*home), pkg),
{
    let mut set = StrSet::new();
    let _ = set.insert(MANAGER_PACKAGE.to_owned());
    let _ = set.insert(SYSTEMUI_PACKAGE.to_owned());
    let _ = set.insert(SETTINGS_PACKAGE.to_owned());
    protect_component(&mut set, ime);
    protect_component(&mut set, home);
    set
}

/// The first of `ls` that is not blank, without the white space around it.
pub open spec fn first_line(ls: Seq<Seq<char>>) -> Option<Seq<char>>
    decreases ls.len(),
{
    if ls.len() == 0 {
        None
    } else if trimmed(ls[0]).len() > 0 {
        Some(trimmed(ls[0]))
    } else {
        first_line(ls.drop_first())
    }
}

/// The last of `ls` that is not blank, without the white space around it.
pub open spec fn last_line(ls: Seq<Seq<char>>) -> Option<Seq<char>>
    decreases ls.len(),
{
    if ls.len() == 0 {
        None
    } else if trimmed(ls.last()).len() > 0 {
        Some(trimmed(ls.last()))
    } else {
        last_line(ls.drop_last())
    }
}

/// The line of an output that counts.
pub open spec fn output_line(text: Seq<char>, last: bool) -> Option<Seq<char>> {
    if last {
        last_line(lines(text))
    } else {
        first_line(lines(text))
    }
}

/// The line of an output that counts: the first or the last that is not blank.
pub fn pick_line(text: &str, last: bool) -> (r: Option<String>)
    ensures
        answer(r) == output_line(text@, last),
{
    let ls = split_lines(text);
    let ghost vs = views(ls@);
    if last {
        let mut n: usize = ls.len();
        assert(vs.take(n as int) =~= vs);
        while n > 0
            invariant
                vs == views(ls@),
                last,
                vs == lines(text@),
                n <= ls@.len(),
                last_line(vs) == last_line(vs.take(n as int)),
            decreases n,
        {
            let t = trim(ls[n - 1].as_str());
            assert(vs.take(n as int).last() == ls@[n - 1]@);
            assert(vs.take(n as int).drop_last() =~= vs.take(n - 1));
            if !t.as_str().is_empty() {
                return Some(t);
            }
            n = n - 1;
        }
        None
    } else {
        let mut i: usize = 0;
        assert(vs.skip(0) =~= vs);
        while i < ls.len()
            invariant
                vs == views(ls@),
                !last,
                vs == lines(text@),
                i <= ls@.len(),
                first_line(vs) == first_line(vs.skip(i as int)),
            decreases ls@.len() - i,
        {
            let t = trim(ls[i].as_str());
            assert(vs.skip(i as int)[0] == ls@[i as int]@);
            assert(vs.skip(i as int).drop_first() =~= vs.skip(i + 1));
            if !t.as_str().is_empty() {
                return Some(t);
            }
            i = i + 1;
        }
        None
    }
}

/// One line of what a helper program wrote (first or last), if it succeeded.
pub fn cmd_line(success: bool, stdout: &[u8], last: bool) -> (r: Option<String>)
    ensures
        answer(r) == if success {
            output_line(lossy_text(stdout@), last)
        } else {
            None
        },
{
    if !success {
        return None;
    }
    let text = utf8_lossy(stdout);
    pick_line(text.as_str(), last)
}

// ---------------------------------------------------------------------------
// Laws
// ---------------------------------------------------------------------------

/// The module runs without rules only when neither the live file nor the last
/// known good copy can be used: one bad file never disarms it.
pub proof fn disarmed_only_when_nothing_is_usable(
    before: Engine,
    after: Engine,
    file: Option<Rules>,
    backup: Option<Rules>,
)
    requires
        after.reloads_rules(before, file, backup),
        after.rules_source == RulesSource::Default,
    ensures
        !usable(file),
        !usable(backup),
        before.rules_source != RulesSource::File,
{
}

/// A live file that cannot be used leaves the rules that came from a file in
/// force.
pub proof fn an_unusable_file_changes_nothing(
    before: Engine,
    after: Engine,
    file: Option<Rules>,
    backup: Option<Rules>,
)
    requires
        after.reloads_rules(before, file, backup),
        before.rules_source == RulesSource::File,
        !usable(file),
    ensures
        after.rules == before.rules,
        after.rules_source == RulesSource::File,
{
}

/// What was written for a candidate is taken over as it was written: reading it
/// back cleans nothing more.
pub proof fn a_written_candidate_is_read_back(candidate: Rules, written: Rules, read: Rules)
    requires
        candidate.wf(),
        written.wf(),
        written.cleans(candidate),
        read.cleans(written),
        candidate.version <= RULES_VERSION_MAX,
    ensures
        usable(Some(written)),
        read.cleans(candidate),
{
    sanitize_is_idempotent(candidate, written, read);
}

/// While no group changes its timing mode, a reload keeps every counter.
pub proof fn without_a_toggle_nothing_is_reset(
    c: CountersView,
    old_groups: Map<Seq<char>, GroupRule>,
    new_groups: Map<Seq<char>, GroupRule>,
    uids: Map<Seq<char>, u32>,
)
    requires
        forall|gid: Seq<char>| !#[trigger] toggled(old_groups, new_groups, gid),
    ensures
        untoggled(c, old_groups, new_groups, uids) == c,
{
    assert(untoggled(c, old_groups, new_groups, uids) =~= c);
}

/// A group that changes its timing mode starts without a cooldown, and so does
/// each of its members.
pub proof fn a_toggle_ends_the_cooldown(
    c: CountersView,
    old_groups: Map<Seq<char>, GroupRule>,
    new_groups: Map<Seq<char>, GroupRule>,
    uids: Map<Seq<char>, u32>,
    gid: Seq<char>,
    uid: u32,
)
    requires
        toggled(old_groups, new_groups, gid),
        member_uids(views(new_groups[gid].members@), uids).contains(uid),
    ensures
        !untoggled(c, old_groups, new_groups, uids).group_cooldown.contains_key(gid),
        !untoggled(c, old_groups, new_groups, uids).cooldown.contains_key(uid),
{
    assert(in_toggled(old_groups, new_groups, uids, uid));
}

/// No cooldown from before a toggle is left once the new rules are in force,
/// whether the package list could be read or not.
pub proof fn no_cooldown_lingers_after_a_toggle(
    before: Engine,
    after: Engine,
    protected: StrSet,
    uids: Option<StrMap<u32>>,
    mtime: Option<Stamp>,
    gid: Seq<char>,
    uid: u32,
)
    requires
        after.takes_over(before, protected, uids, mtime),
        toggled(before.rules.groups@, after.rules.groups@, gid),
    ensures
        !after.counters@.group_cooldown.contains_key(gid),
        member_uids(views(after.rules.groups@[gid].members@), after.uid_of@).contains(uid)
            ==> !after.counters@.cooldown.contains_key(uid),
{
    let (old_groups, new_groups) = (before.rules.groups@, after.rules.groups@);
    if member_uids(views(new_groups[gid].members@), after.uid_of@).contains(uid) {
        a_toggle_ends_the_cooldown(
            before.counters@,
            old_groups,
            new_groups,
            after.uid_of@,
            gid,
            uid,
        );
    }
}

proof fn lemma_move_of_key(
    keys: Seq<Seq<char>>,
    from: Map<Seq<char>, u32>,
    to: Map<Seq<char>, u32>,
    k: Seq<char>,
)
    requires
        keys.contains(k),
        from.contains_key(k),
    ensures
        moves_of(keys, from, to).contains((from[k], to[k])),
    decreases keys.len(),
{
    let moves = moves_of(keys, from, to);
    let rest = keys.drop_last();
    if keys.last() == k {
        assert(moves[moves.len() - 1] == (from[k], to[k]));
    } else {
        assert(rest[keys.index_of(k)] == k);
        lemma_move_of_key(rest, from, to, k);
        let i = moves_of(rest, from, to).index_of((from[k], to[k]));
        assert(moves[i] == (from[k], to[k]));
    }
}

proof fn lemma_key_of_move(
    keys: Seq<Seq<char>>,
    from: Map<Seq<char>, u32>,
    to: Map<Seq<char>, u32>,
    i: int,
)
    requires
        0 <= i < moves_of(keys, from, to).len(),
    ensures
        exists|k: Seq<char>| #[trigger]
            keys.contains(k) && from.contains_key(k) && moves_of(keys, from, to)[i] == (
                from[k],
                to[k],
            ),
    decreases keys.len(),
{
    let rest = keys.drop_last();
    let before = moves_of(rest, from, to);
    if i < before.len() {
        lemma_key_of_move(rest, from, to, i);
        let k = choose|k: Seq<char>| #[trigger]
            rest.contains(k) && from.contains_key(k) && before[i] == (from[k], to[k]);
        assert(keys[rest.index_of(k)] == k);
        assert(keys.contains(k));
    } else {
        assert(keys[keys.len() - 1] == keys.last());
        assert(keys.contains(keys.last()));
    }
}

/// While every app keeps its uid, a package change moves nothing.
pub proof fn unchanged_uids_move_nothing(
    c: CountersView,
    keys: Seq<Seq<char>>,
    from: Map<Seq<char>, u32>,
    to: Map<Seq<char>, u32>,
)
    requires
        forall|k: Seq<char>| #[trigger] from.contains_key(k) ==> from[k] == to[k],
    ensures
        c.relocated(moves_of(keys, from, to)) == c,
{
    lemma_nothing_moves(c.usage, keys, from, to);
    lemma_nothing_moves(c.usage_fg, keys, from, to);
    lemma_nothing_moves(c.extension, keys, from, to);
    lemma_nothing_moves(c.granted, keys, from, to);
    lemma_nothing_moves(c.cooldown, keys, from, to);
}

proof fn lemma_nothing_moves<V>(
    m: Map<u32, V>,
    keys: Seq<Seq<char>>,
    from: Map<Seq<char>, u32>,
    to: Map<Seq<char>, u32>,
)
    requires
        forall|k: Seq<char>| #[trigger] from.contains_key(k) ==> from[k] == to[k],
    ensures
        relocated(m, moves_of(keys, from, to)) == m,
{
    let moves = moves_of(keys, from, to);
    let r = relocated(m, moves);
    assert forall|i: int| 0 <= i < moves.len() implies (#[trigger] moves[i]).0 == moves[i].1 by {
        lemma_key_of_move(keys, from, to, i);
    }
    assert forall|uid: u32| #[trigger] handed_over(m, uid, r, uid) by {
        an_untraded_uid_keeps_its_entry(m, moves, uid);
    }
    assert forall|uid: u32| #[trigger] r.contains_key(uid) == m.contains_key(uid) by {
        assert(handed_over(m, uid, r, uid));
    }
    assert forall|uid: u32| #[trigger] r.contains_key(uid) implies r[uid] == m[uid] by {
        assert(handed_over(m, uid, r, uid));
    }
    assert(r =~= m);
}

/// Whether `c` and `kills` hold at `has` whatever `c0` and `kills0` held at `had`:
/// usage, extension, what was granted today, cooldown and kill count.
pub open spec fn state_handed_over(
    c0: CountersView,
    kills0: Map<u32, u64>,
    had: u32,
    c: CountersView,
    kills: Map<u32, u64>,
    has: u32,
) -> bool {
    &&& handed_over(c0.usage, had, c.usage, has)
    &&& handed_over(c0.usage_fg, had, c.usage_fg, has)
    &&& handed_over(c0.extension, had, c.extension, has)
    &&& handed_over(c0.granted, had, c.granted, has)
    &&& handed_over(c0.cooldown, had, c.cooldown, has)
    &&& handed_over(kills0, had, kills, has)
}

/// Whether every app with the uid that `k` has now had the uid that `k` had.
pub open spec fn shares_with_none(
    keys: Seq<Seq<char>>,
    from: Map<Seq<char>, u32>,
    to: Map<Seq<char>, u32>,
    k: Seq<char>,
) -> bool {
    forall|other: Seq<char>| #[trigger]
        keys.contains(other) && from.contains_key(other) && to[other] == to[k] ==> from[other]
            == from[k]
}

/// An app that is still installed finds its whole state at the uid it has now,
/// whether that changed or not, and no state of another app, however many apps
/// trade uids among each other. (Apps of several uids that come to share one
/// share its state.)
pub proof fn an_app_keeps_its_state(
    c: CountersView,
    kills: Map<u32, u64>,
    keys: Seq<Seq<char>>,
    from: Map<Seq<char>, u32>,
    to: Map<Seq<char>, u32>,
    k: Seq<char>,
)
    requires
        keys.contains(k),
        from.contains_key(k),
        to.contains_key(k),
        shares_with_none(keys, from, to, k),
    ensures
        state_handed_over(
            c,
            kills,
            from[k],
            c.relocated(moves_of(keys, from, to)).kept(installed(to)),
            relocated(kills, moves_of(keys, from, to)).restrict(installed(to)),
            to[k],
        ),
{
    let moves = moves_of(keys, from, to);
    lemma_move_of_key(keys, from, to, k);
    let i = moves.index_of((from[k], to[k]));
    assert forall|j: int| 0 <= j < moves.len() && (#[trigger] moves[j]).1 == moves[i].1 implies
        moves[j].0 == moves[i].0 by {
        lemma_key_of_move(keys, from, to, j);
    }
    assert(installed(to).contains(to[k]));
    an_app_finds_its_entry(c.usage, moves, i);
    an_app_finds_its_entry(c.usage_fg, moves, i);
    an_app_finds_its_entry(c.extension, moves, i);
    an_app_finds_its_entry(c.granted, moves, i);
    an_app_finds_its_entry(c.cooldown, moves, i);
    an_app_finds_its_entry(kills, moves, i);
}

/// An app that is installed anew finds nothing at a uid that another app gave up.
pub proof fn a_new_app_inherits_nothing(
    c: CountersView,
    kills: Map<u32, u64>,
    keys: Seq<Seq<char>>,
    from: Map<Seq<char>, u32>,
    to: Map<Seq<char>, u32>,
    k: Seq<char>,
)
    requires
        keys.contains(k),
        from.contains_key(k),
        forall|other: Seq<char>| #[trigger]
            keys.contains(other) && from.contains_key(other) ==> to[other] != from[k],
    ensures
        ({
            let r = c.relocated(moves_of(keys, from, to)).kept(installed(to));
            &&& !r.usage.contains_key(from[k])
            &&& !r.usage_fg.contains_key(from[k])
            &&& !r.extension.contains_key(from[k])
            &&& !r.granted.contains_key(from[k])
            &&& !r.cooldown.contains_key(from[k])
            &&& !relocated(kills, moves_of(keys, from, to)).contains_key(from[k])
        }),
{
    let moves = moves_of(keys, from, to);
    lemma_move_of_key(keys, from, to, k);
    let i = moves.index_of((from[k], to[k]));
    assert forall|j: int| 0 <= j < moves.len() implies (#[trigger] moves[j]).1 != moves[i].0 by {
        lemma_key_of_move(keys, from, to, j);
    }
    a_uid_given_up_has_no_entry(c.usage, moves, i);
    a_uid_given_up_has_no_entry(c.usage_fg, moves, i);
    a_uid_given_up_has_no_entry(c.extension, moves, i);
    a_uid_given_up_has_no_entry(c.granted, moves, i);
    a_uid_given_up_has_no_entry(c.cooldown, moves, i);
    a_uid_given_up_has_no_entry(kills, moves, i);
}

/// The state of an installed uid that no app gives up or takes stays where it is.
pub proof fn other_uids_keep_their_state(
    c: CountersView,
    kills: Map<u32, u64>,
    keys: Seq<Seq<char>>,
    from: Map<Seq<char>, u32>,
    to: Map<Seq<char>, u32>,
    uid: u32,
)
    requires
        installed(to).contains(uid),
        !traded(moves_of(keys, from, to), uid),
    ensures
        state_handed_over(
            c,
            kills,
            uid,
            c.relocated(moves_of(keys, from, to)).kept(installed(to)),
            relocated(kills, moves_of(keys, from, to)).restrict(installed(to)),
            uid,
        ),
{
    let moves = moves_of(keys, from, to);
    an_untraded_uid_keeps_its_entry(c.usage, moves, uid);
    an_untraded_uid_keeps_its_entry(c.usage_fg, moves, uid);
    an_untraded_uid_keeps_its_entry(c.extension, moves, uid);
    an_untraded_uid_keeps_its_entry(c.granted, moves, uid);
    an_untraded_uid_keeps_its_entry(c.cooldown, moves, uid);
    an_untraded_uid_keeps_its_entry(kills, moves, uid);
}

/// A uid that no installed app has carries no usage, no extension and no cooldown
/// over to its next owner.
pub proof fn a_recycled_uid_starts_clean(c: CountersView, uids: Map<Seq<char>, u32>, uid: u32)
    requires
        !installed(uids).contains(uid),
    ensures
        ({
            let k = c.kept(installed(uids));
            &&& !k.usage.contains_key(uid)
            &&& !k.usage_fg.contains_key(uid)
            &&& !k.extension.contains_key(uid)
            &&& !k.granted.contains_key(uid)
            &&& !k.cooldown.contains_key(uid)
        }),
{
}

/// A live file of a known schema is the one that is used, cleaned; the copy is used
/// only where there is none; without either nothing is configured.
pub proof fn the_live_file_goes_first(
    file: Option<Rules>,
    backup: Option<Rules>,
    rules: Rules,
    source: RulesSource,
)
    requires
        is_pick(file, backup, rules, source),
    ensures
        file matches Some(f) ==> f.version <= 1 ==> source == RulesSource::File && rules.apps.keys()
            == f.apps.keys() && rules.groups.keys() == f.groups.keys() && rules.settings
            == f.settings,
        (file is None || file.unwrap().version > 1) ==> source != RulesSource::File,
        (file is None || file.unwrap().version > 1) ==> (backup matches Some(b) ==> b.version <= 1
            ==> source == RulesSource::Backup && rules.apps.keys() == b.apps.keys()
            && rules.groups.keys() == b.groups.keys() && rules.settings == b.settings),
        (file is None || file.unwrap().version > 1) && (backup is None || backup.unwrap().version > 1)
            ==> source == RulesSource::Default && rules.apps.keys().len() == 0
            && rules.groups.keys().len() == 0,
{
}

/// A reload takes a usable live file over, whatever was in force; and where a
/// fallback was in force it picks again, so that a repaired file is found.
pub proof fn a_reload_takes_a_usable_file_over(
    before: Engine,
    after: Engine,
    file: Option<Rules>,
    backup: Option<Rules>,
)
    requires
        after.reloads_rules(before, file, backup),
    ensures
        file matches Some(f) ==> f.version <= 1 ==> after.rules_source == RulesSource::File
            && after.rules.apps.keys() == f.apps.keys() && after.rules.groups.keys()
            == f.groups.keys() && after.rules.settings == f.settings,
        before.rules_source != RulesSource::File ==> is_pick(
            file,
            backup,
            after.rules,
            after.rules_source,
        ),
        (file is None || file.unwrap().version > 1) && before.rules_source == RulesSource::File
            ==> after.rules == before.rules && after.rules_source == RulesSource::File,
{
}

/// A reload takes over what it was given and resets nothing of the day: usage,
/// extensions and grants stay, and so does what is blocked until the next tick. The
/// time zone is the one that the rules in force name.
pub proof fn a_reload_keeps_the_day(
    before: Engine,
    after: Engine,
    protected: StrSet,
    uids: Option<StrMap<u32>>,
    mtime: Option<Stamp>,
)
    requires
        after.takes_over(before, protected, uids, mtime),
    ensures
        after.counters@.usage == before.counters@.usage,
        after.counters@.usage_fg == before.counters@.usage_fg,
        after.counters@.extension == before.counters@.extension,
        after.counters@.group_extension == before.counters@.group_extension,
        after.counters@.granted == before.counters@.granted,
        after.counters@.group_granted == before.counters@.group_granted,
        after.blocked == before.blocked,
        after.last_tick == before.last_tick,
        after.last_day == before.last_day,
        after.tz_secs == tz_of(after.rules.settings.timezone@),
        after.protected == protected,
        uids matches Some(u) ==> after.uid_of == u,
        uids is None ==> after.uid_of == before.uid_of && after.last_mtime == before.last_mtime,
        uids is Some && mtime is Some ==> after.last_mtime == mtime,
{
}

/// Only cooldowns of groups that changed their timing mode, and of their members, are
/// dropped: every other one keeps its deadline.
pub proof fn other_cooldowns_survive_a_reload(
    c: CountersView,
    old_groups: Map<Seq<char>, GroupRule>,
    new_groups: Map<Seq<char>, GroupRule>,
    uids: Map<Seq<char>, u32>,
    gid: Seq<char>,
    uid: u32,
)
    requires
        !(old_groups.contains_key(gid) && new_groups.contains_key(gid) && old_groups[gid].shared_pool
            != new_groups[gid].shared_pool),
        forall|g: Seq<char>|
            toggled(old_groups, new_groups, g) ==> !(#[trigger] member_uids(
                views(new_groups[g].members@),
                uids,
            )).contains(uid),
    ensures
        ({
            let r = untoggled(c, old_groups, new_groups, uids);
            &&& c.group_cooldown.contains_key(gid) == r.group_cooldown.contains_key(gid)
            &&& c.group_cooldown.contains_key(gid) ==> r.group_cooldown[gid] == c.group_cooldown[gid]
            &&& c.cooldown.contains_key(uid) == r.cooldown.contains_key(uid)
            &&& c.cooldown.contains_key(uid) ==> r.cooldown[uid] == c.cooldown[uid]
        }),
{
}

/// A group whose timing mode is another one than before has toggled, and no other
/// has: not a new group, and not one that is gone.
pub proof fn a_group_toggles_with_its_timing_mode(
    old_groups: Map<Seq<char>, GroupRule>,
    new_groups: Map<Seq<char>, GroupRule>,
    gid: Seq<char>,
)
    ensures
        old_groups.contains_key(gid) && new_groups.contains_key(gid) ==> (toggled(
            old_groups,
            new_groups,
            gid,
        ) <==> old_groups[gid].shared_pool != new_groups[gid].shared_pool),
        !old_groups.contains_key(gid) || !new_groups.contains_key(gid) ==> !toggled(
            old_groups,
            new_groups,
            gid,
        ),
{
}

/// The system's own packages, the input method and the launcher are never blocked:
/// those of a component are what stands before its first slash.
pub proof fn the_way_back_is_never_blocked(
    pkg: Seq<char>,
    class: Seq<char>,
    other: Option<Seq<char>>,
)
    requires
        !pkg.contains('/'),
    ensures
        never_blocked(other, other, "me.weishu.kernelsu"@),
        never_blocked(other, other, "com.android.systemui"@),
        never_blocked(other, other, "com.android.settings"@),
        never_blocked(Some(pkg + seq!['/'] + class), other, pkg),
        never_blocked(other, Some(pkg + seq!['/'] + class), pkg),
{
    a_join_is_split_again(pkg, '/', class);
}

/// Nothing else is protected: where the device does not answer, or with no component,
/// only the system's own packages are.
pub proof fn nothing_else_is_protected(line: Seq<char>, pkg: Seq<char>)
    requires
        !line.contains('/'),
        pkg != "me.weishu.kernelsu"@,
        pkg != "com.android.systemui"@,
        pkg != "com.android.settings"@,
    ensures
        !never_blocked(None, None, pkg),
        !never_blocked(Some(line), Some(line), pkg),
{
    nothing_to_split(line, '/');
}

/// The first line that is not blank counts, or the last one, without the white space
/// around it.
pub proof fn a_line_that_is_not_blank_counts(ls: Seq<Seq<char>>, i: int)
    requires
        0 <= i < ls.len(),
        trimmed(ls[i]).len() > 0,
    ensures
        (forall|j: int| 0 <= j < i ==> trimmed(#[trigger] ls[j]).len() == 0) ==> first_line(ls)
            == Some(trimmed(ls[i])),
        (forall|j: int| i < j < ls.len() ==> trimmed(#[trigger] ls[j]).len() == 0) ==> last_line(ls)
            == Some(trimmed(ls[i])),
{
    if forall|j: int| 0 <= j < i ==> trimmed(#[trigger] ls[j]).len() == 0 {
        lemma_first_line(ls, i);
    }
    if forall|j: int| i < j < ls.len() ==> trimmed(#[trigger] ls[j]).len() == 0 {
        lemma_last_line(ls, i);
    }
}

proof fn lemma_first_line(ls: Seq<Seq<char>>, i: int)
    requires
        0 <= i < ls.len(),
        trimmed(ls[i]).len() > 0,
        forall|j: int| 0 <= j < i ==> trimmed(#[trigger] ls[j]).len() == 0,
    ensures
        first_line(ls) == Some(trimmed(ls[i])),
    decreases i,
{
    if i > 0 {
        let rest = ls.drop_first();
        assert(trimmed(ls[0]).len() == 0);
        assert(rest[i - 1] == ls[i]);
        assert forall|j: int| 0 <= j < i - 1 implies trimmed(#[trigger] rest[j]).len() == 0 by {
            assert(rest[j] == ls[j + 1]);
        }
        lemma_first_line(rest, i - 1);
    }
}

proof fn lemma_last_line(ls: Seq<Seq<char>>, i: int)
    requires
        0 <= i < ls.len(),
        trimmed(ls[i]).len() > 0,
        forall|j: int| i < j < ls.len() ==> trimmed(#[trigger] ls[j]).len() == 0,
    ensures
        last_line(ls) == Some(trimmed(ls[i])),
    decreases ls.len() - i,
{
    if i < ls.len() - 1 {
        let rest = ls.drop_last();
        assert(trimmed(ls[ls.len() - 1]).len() == 0);
        assert(rest[i] == ls[i]);
        assert forall|j: int| i < j < rest.len() implies trimmed(#[trigger] rest[j]).len() == 0 by {
            assert(rest[j] == ls[j]);
        }
        lemma_last_line(rest, i);
    }
}

/// An output without such a line has none that counts.
pub proof fn blank_output_says_nothing(ls: Seq<Seq<char>>)
    requires
        forall|j: int| 0 <= j < ls.len() ==> trimmed(#[trigger] ls[j]).len() == 0,
    ensures
        first_line(ls) is None,
        last_line(ls) is None,
    decreases ls.len(),
{
    if ls.len() > 0 {
        assert(trimmed(ls[0]).len() == 0);
        assert(trimmed(ls[ls.len() - 1]).len() == 0);
        assert forall|j: int| 0 <= j < ls.len() - 1 implies trimmed(
            #[trigger] ls.drop_first()[j],
        ).len() == 0 by {
            assert(ls.drop_first()[j] == ls[j + 1]);
        }
        assert forall|j: int| 0 <= j < ls.len() - 1 implies trimmed(
            #[trigger] ls.drop_last()[j],
        ).len() == 0 by {
            assert(ls.drop_last()[j] == ls[j]);
        }
        blank_output_says_nothing(ls.drop_first());
        blank_output_says_nothing(ls.drop_last());
    }
}

/// Which of the two it is, the caller says.
pub proof fn the_first_or_the_last_line_is_taken(text: Seq<char>)
    ensures
        output_line(text, false) == first_line(lines(text)),
        output_line(text, true) == last_line(lines(text)),
{
}

/// An app is installed under a uid exactly when the list gives some key that uid.
pub proof fn installed_uids_are_those_of_keys(uids: Map<Seq<char>, u32>, k: Seq<char>, uid: u32)
    ensures
        uids.contains_key(k) ==> installed(uids).contains(uids[k]),
        (forall|x: Seq<char>| #[trigger] uids.contains_key(x) ==> uids[x] != uid) ==> !installed(
            uids,
        ).contains(uid),
{
}

/// A change of the package list hands every app that is still installed its state: what
/// was counted at the uid it had is found at the uid it has, usage, extension, grant,
/// cooldown and kill count. Nothing stays at a uid that nobody has, groups are left
/// alone, and the new uids are in force.
pub proof fn a_resync_hands_every_app_its_state(
    before: Engine,
    after: Engine,
    uids: StrMap<u32>,
    mtime: Stamp,
    kills0: Map<u32, u64>,
    kills: Map<u32, u64>,
    k: Seq<char>,
    gone: u32,
)
    requires
        uids.wf(),
        after.resynced(before, uids, mtime, kills0, kills),
        uids@.contains_key(k),
        before.uid_of@.contains_key(k),
        shares_with_none(uids.keys(), before.uid_of@, uids@, k),
        !installed(uids@).contains(gone),
    ensures
        state_handed_over(
            before.counters@,
            kills0,
            before.uid_of@[k],
            after.counters@,
            kills,
            uids@[k],
        ),
        !after.counters@.usage.contains_key(gone),
        !after.counters@.usage_fg.contains_key(gone),
        !after.counters@.extension.contains_key(gone),
        !after.counters@.granted.contains_key(gone),
        !after.counters@.cooldown.contains_key(gone),
        !kills.contains_key(gone),
        after.counters@.group_extension == before.counters@.group_extension,
        after.counters@.group_granted == before.counters@.group_granted,
        after.counters@.group_cooldown == before.counters@.group_cooldown,
        after.uid_of == uids,
        after.last_pkg_mtime == Some(mtime),
        after.rules == before.rules,
        after.blocked == before.blocked,
{
    uids.lemma_key(k);
    an_app_keeps_its_state(before.counters@, kills0, uids.keys(), before.uid_of@, uids@, k);
    a_recycled_uid_starts_clean(
        before.counters@.relocated(moves_of(uids.keys(), before.uid_of@, uids@)),
        uids@,
        gone,
    );
}

/// A candidate becomes live only if it was read, is a rules file and is of a known
/// schema, and then cleaned and otherwise as it is; else it is refused for that reason.
pub proof fn only_a_sound_candidate_becomes_live(candidate: Candidate, r: Result<Rules, ApplyError>)
    requires
        is_verdict_on(candidate, r),
    ensures
        candidate is Unreadable ==> (r matches Err(e) && e is Unreadable),
        candidate is Invalid ==> (r matches Err(e) && e is Invalid),
        candidate matches Candidate::Parsed { rules } ==> rules.version > 1 ==> (r matches Err(e)
            && e is Refused),
        candidate matches Candidate::Parsed { rules } ==> rules.version <= 1 ==> (r matches Ok(clean)
            && clean.version == rules.version && clean.settings == rules.settings
            && clean.apps.keys() == rules.apps.keys() && clean.groups.keys() == rules.groups.keys()),
{
}

} // verus!
