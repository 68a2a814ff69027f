//! The rules a user configures, and how a rule set is made fit for use.
//!
//! App keys and group members are written "<user_id>:<package>", e.g.
//! "0:com.foo" for the main user and "10:com.foo" for a work profile.

use vstd::prelude::*;
use vstd::string::*;

use crate::number::{decimal, u32_text};
use crate::table::StrMap;

verus! {

/// Highest rules schema this build understands. Rules that claim a newer
/// version are refused instead of being misread with today's fields.
pub const RULES_VERSION_MAX: u32 = 1;

/// Everything a user configures.
#[derive(Debug, Clone)]
pub struct Rules {
    pub version: u32,
    pub settings: Settings,
    pub apps: StrMap<AppRule>,
    pub groups: StrMap<GroupRule>,
}

/// Settings of the module itself.
#[derive(Debug, Clone)]
pub struct Settings {
    /// Fixed UTC offset: "UTC" or "UTC+N"/"UTC-N". No "auto"/DST.
    pub timezone: String,
    /// UI language: "zh" or "en".
    pub language: String,
    /// Truncate the log when the module (re)starts.
    pub clear_log_on_boot: bool,
}

/// The rules of one app.
#[derive(Debug, Clone)]
pub struct AppRule {
    pub enabled: bool,
    pub rules: RuleSet,
}

/// The rules of a group of apps.
#[derive(Debug, Clone)]
pub struct GroupRule {
    pub name: String,
    pub enabled: bool,
    /// Shared usage/extension pool across members.
    pub shared_pool: bool,
    pub members: Vec<String>,
    pub rules: RuleSet,
}

/// The four rules that an app or a group can combine.
#[derive(Debug, Clone)]
pub struct RuleSet {
    pub always_on: bool,
    /// Block immediately while the screen is off (locked).
    pub lock_block: bool,
    pub time_windows: TimeWindows,
    pub duration: DurationRule,
}

/// Time windows and what they mean.
#[derive(Debug, Clone)]
pub struct TimeWindows {
    /// "allow" = only usable inside the windows (default); "block" = not allowed inside.
    /// Only the literal "block" selects block mode: anything missing or unknown
    /// stays allow.
    pub mode: String,
    pub windows: Vec<TimeWindow>,
}

/// One time window.
#[derive(Debug, Clone)]
pub struct TimeWindow {
    /// "HH:MM"; end <= start means the window crosses midnight.
    pub start: String,
    pub end: String,
    /// Weekdays this window applies to, ISO numbering: 1 = Monday .. 7 = Sunday.
    /// Empty = every day. For a window that crosses midnight the set refers to
    /// the day the window *starts* on, so days=[1] + 22:00-07:00 covers Monday
    /// 22:00 to Tuesday 07:00.
    pub days: Vec<u8>,
}

/// A limit on usage time.
#[derive(Debug, Clone)]
pub struct DurationRule {
    pub limit_minutes: u32,
    /// Cooldown period in minutes (0 = plain daily limit, reset at midnight).
    pub freeze_minutes: u32,
    /// Counting scope: "foreground" | "background" | "any".
    pub scope: String,
}

// ---------------------------------------------------------------------------
// Defaults
// ---------------------------------------------------------------------------

/// The timezone of rules that name none.
pub fn d_timezone() -> (r: String)
    ensures
        r@ == "UTC"@,
{
    "UTC".to_owned()
}

/// The language of rules that name none.
pub fn d_language() -> (r: String)
    ensures
        r@ == "en"@,
{
    "en".to_owned()
}

/// The window mode of rules that name none: a window is something the user
/// grants, so a missing mode must not silently mean "blocked".
pub fn d_window_mode() -> (r: String)
    ensures
        r@ == "allow"@,
{
    "allow".to_owned()
}

/// The counting scope of a written duration rule that names none.
pub fn d_scope() -> (r: String)
    ensures
        r@ == "foreground"@,
{
    "foreground".to_owned()
}

impl Default for Settings {
    fn default() -> (r: Self)
        ensures
            r.timezone@ == "UTC"@,
            r.language@ == "en"@,
            !r.clear_log_on_boot,
    {
        Settings { timezone: d_timezone(), language: d_language(), clear_log_on_boot: false }
    }
}

impl Default for TimeWindows {
    fn default() -> (r: Self)
        ensures
            r.mode@ == "allow"@,
            r.windows@.len() == 0,
    {
        TimeWindows { mode: d_window_mode(), windows: Vec::new() }
    }
}

impl Default for DurationRule {
    fn default() -> (r: Self)
        ensures
            r.limit_minutes == 0,
            r.freeze_minutes == 0,
            r.scope@.len() == 0,
    {
        DurationRule { limit_minutes: 0, freeze_minutes: 0, scope: String::new() }
    }
}

impl Default for RuleSet {
    fn default() -> (r: Self)
        ensures
            !r.always_on,
            !r.lock_block,
            r.time_windows.mode@ == "allow"@,
            r.time_windows.windows@.len() == 0,
            r.duration.limit_minutes == 0,
            r.duration.freeze_minutes == 0,
            r.duration.scope@.len() == 0,
    {
        RuleSet {
            always_on: false,
            lock_block: false,
            time_windows: TimeWindows::default(),
            duration: DurationRule::default(),
        }
    }
}

/// Whether `rules` are the built-in default: nothing is configured.
pub open spec fn is_default(rules: Rules) -> bool {
    &&& rules.version == 0
    &&& rules.settings.timezone@ == "UTC"@
    &&& rules.settings.language@ == "en"@
    &&& !rules.settings.clear_log_on_boot
    &&& rules.apps.keys().len() == 0
    &&& rules.apps@ == Map::<Seq<char>, AppRule>::empty()
    &&& rules.groups.keys().len() == 0
    &&& rules.groups@ == Map::<Seq<char>, GroupRule>::empty()
}

impl Default for Rules {
    fn default() -> (r: Self)
        ensures
            r.wf(),
            is_default(r),
    {
        Rules {
            version: 0,
            settings: Settings::default(),
            apps: StrMap::new(),
            groups: StrMap::new(),
        }
    }
}

// ---------------------------------------------------------------------------
// Cleaning
// ---------------------------------------------------------------------------

/// Whether `d` is an ISO weekday.
pub open spec fn is_weekday(d: u8) -> bool {
    1 <= d <= 7
}

/// Whether `clean` holds the weekdays of `days`: each once, ascending, and nothing else.
pub open spec fn clean_days(days: Seq<u8>, clean: Seq<u8>) -> bool {
    &&& forall|i: int, j: int| 0 <= i < j < clean.len() ==> clean[i] < clean[j]
    &&& forall|d: u8| #[trigger] clean.contains(d) <==> days.contains(d) && is_weekday(d)
}

impl TimeWindow {
    /// Whether this window is `w` with its days cleaned.
    pub open spec fn cleans(self, w: TimeWindow) -> bool {
        &&& self.start == w.start
        &&& self.end == w.end
        &&& clean_days(w.days@, self.days@)
    }
}

impl RuleSet {
    /// Whether this rule set is `s` with the days of each window cleaned.
    pub open spec fn cleans(self, s: RuleSet) -> bool {
        &&& self.always_on == s.always_on
        &&& self.lock_block == s.lock_block
        &&& self.duration == s.duration
        &&& self.time_windows.mode == s.time_windows.mode
        &&& self.time_windows.windows@.len() == s.time_windows.windows@.len()
        &&& forall|i: int|
            0 <= i < s.time_windows.windows@.len()
                ==> (#[trigger] self.time_windows.windows@[i]).cleans(s.time_windows.windows@[i])
    }
}

impl AppRule {
    /// Whether this rule is `a` with the days of each window cleaned.
    pub open spec fn cleans(self, a: AppRule) -> bool {
        self.enabled == a.enabled && self.rules.cleans(a.rules)
    }
}

impl GroupRule {
    /// Whether this rule is `g` with the days of each window cleaned.
    pub open spec fn cleans(self, g: GroupRule) -> bool {
        &&& self.name == g.name
        &&& self.enabled == g.enabled
        &&& self.shared_pool == g.shared_pool
        &&& self.members == g.members
        &&& self.rules.cleans(g.rules)
    }
}

/// Whether `days` holds `d`.
pub fn has_day(days: &Vec<u8>, d: u8) -> (r: bool)
    ensures
        r == days@.contains(d),
{
    let mut i: usize = 0;
    while i < days.len()
        invariant
            i <= days@.len(),
            forall|j: int| 0 <= j < i ==> days@[j] != d,
        decreases days@.len() - i,
    {
        if days[i] == d {
            return true;
        }
        i = i + 1;
    }
    false
}

/// The weekdays of `days`, each once and ascending.
fn cleaned_days(days: &Vec<u8>) -> (r: Vec<u8>)
    ensures
        clean_days(days@, r@),
{
    let mut r: Vec<u8> = Vec::new();
    let mut d: u8 = 1;
    while d <= 7
        invariant
            1 <= d <= 8,
            forall|i: int, j: int| 0 <= i < j < r@.len() ==> r@[i] < r@[j],
            forall|i: int| 0 <= i < r@.len() ==> r@[i] < d,
            forall|x: u8| #[trigger] r@.contains(x) <==> days@.contains(x) && 1 <= x < d,
        decreases 8 - d,
    {
        let ghost before = r@;
        if has_day(days, d) {
            r.push(d);
            assert forall|x: u8| #[trigger] r@.contains(x) <==> days@.contains(x) && 1 <= x < d
                + 1 by {
                if before.contains(x) {
                    assert(r@[before.index_of(x)] == x);
                }
                if x == d {
                    assert(r@[before.len() as int] == d);
                }
                if r@.contains(x) && x != d {
                    assert(before[r@.index_of(x)] == x);
                }
            }
        }
        d = d + 1;
    }
    r
}

/// Cleans the days of each window of one rule set.
fn sanitize_set(set: &mut RuleSet)
    ensures
        final(set).cleans(*old(set)),
{
    let ghost before = set.time_windows.windows@;
    let mut i: usize = 0;
    while i < set.time_windows.windows.len()
        invariant
            i <= set.time_windows.windows@.len(),
            set.time_windows.windows@.len() == before.len(),
            set.always_on == old(set).always_on,
            set.lock_block == old(set).lock_block,
            set.duration == old(set).duration,
            set.time_windows.mode == old(set).time_windows.mode,
            before == old(set).time_windows.windows@,
            forall|k: int|
                0 <= k < i ==> (#[trigger] set.time_windows.windows@[k]).cleans(before[k]),
            forall|k: int| i <= k < before.len() ==> #[trigger] set.time_windows.windows@[k]
                == before[k],
        decreases before.len() - i,
    {
        let clean = cleaned_days(&set.time_windows.windows[i].days);
        set.time_windows.windows[i].days = clean;
        i = i + 1;
    }
}

impl Rules {
    /// The maps of the rules are well formed.
    pub open spec fn wf(self) -> bool {
        self.apps.wf() && self.groups.wf()
    }

    /// Whether these rules are `r` with the days of every window cleaned.
    pub open spec fn cleans(self, r: Rules) -> bool {
        &&& self.version == r.version
        &&& self.settings == r.settings
        &&& self.apps.keys() == r.apps.keys()
        &&& self.groups.keys() == r.groups.keys()
        &&& forall|i: int|
            0 <= i < r.apps.keys().len() ==> (#[trigger] self.apps.vals()[i]).cleans(
                r.apps.vals()[i],
            )
        &&& forall|i: int|
            0 <= i < r.groups.keys().len() ==> (#[trigger] self.groups.vals()[i]).cleans(
                r.groups.vals()[i],
            )
    }

    /// Drops values that would otherwise be "never matches": an invalid weekday
    /// left in `days` would make an allow-window block the app forever.
    pub fn sanitize(&mut self)
        requires
            old(self).wf(),
        ensures
            final(self).wf(),
            final(self).cleans(*old(self)),
    {
        let ghost apps = self.apps.vals();
        let ghost groups = self.groups.vals();
        let mut i: usize = 0;
        while i < self.apps.len()
            invariant
                self.wf(),
                i <= self.apps.keys().len(),
                self.version == old(self).version,
                self.settings == old(self).settings,
                self.apps.keys() == old(self).apps.keys(),
                self.groups == old(self).groups,
                apps == old(self).apps.vals(),
                apps.len() == self.apps.keys().len(),
                forall|k: int| 0 <= k < i ==> (#[trigger] self.apps.vals()[k]).cleans(apps[k]),
                forall|k: int| i <= k < apps.len() ==> #[trigger] self.apps.vals()[k] == apps[k],
            decreases apps.len() - i,
        {
            let a = self.apps.val_mut(i);
            sanitize_set(&mut a.rules);
            i = i + 1;
        }
        i = 0;
        while i < self.groups.len()
            invariant
                self.wf(),
                i <= self.groups.keys().len(),
                self.version == old(self).version,
                self.settings == old(self).settings,
                self.apps.keys() == old(self).apps.keys(),
                self.groups.keys() == old(self).groups.keys(),
                groups == old(self).groups.vals(),
                groups.len() == self.groups.keys().len(),
                forall|k: int|
                    0 <= k < old(self).apps.keys().len() ==> (#[trigger] self.apps.vals()[k]).cleans(
                        old(self).apps.vals()[k],
                    ),
                forall|k: int| 0 <= k < i ==> (#[trigger] self.groups.vals()[k]).cleans(groups[k]),
                forall|k: int|
                    i <= k < groups.len() ==> #[trigger] self.groups.vals()[k] == groups[k],
            decreases groups.len() - i,
        {
            let g = self.groups.val_mut(i);
            sanitize_set(&mut g.rules);
            i = i + 1;
        }
    }

    /// Takes rules over from a file that was read and parsed: rules of a newer
    /// schema are refused, others come back cleaned.
    pub fn load(parsed: Rules) -> (r: Result<Rules, RulesError>)
        requires
            parsed.wf(),
        ensures
            match r {
                Ok(rules) => parsed.version <= RULES_VERSION_MAX && rules.wf() && rules.cleans(
                    parsed,
                ),
                Err(e) => parsed.version > RULES_VERSION_MAX && e == (RulesError::NewerVersion {
                    version: parsed.version,
                }),
            },
    {
        if parsed.version > RULES_VERSION_MAX {
            return Err(RulesError::NewerVersion { version: parsed.version });
        }
        let mut rules = parsed;
        rules.sanitize();
        Ok(rules)
    }
}

/// Why rules are refused.
#[derive(Debug, Clone, Copy, PartialEq, Eq, Structural)]
pub enum RulesError {
    /// The rules claim a schema that this build does not know.
    NewerVersion { version: u32 },
}

impl RulesError {
    /// The refusal in words.
    pub open spec fn text(self) -> Seq<char> {
        match self {
            RulesError::NewerVersion { version } => "rules version "@ + decimal(version as nat)
                + " is newer than this module supports ("@ + decimal(RULES_VERSION_MAX as nat)
                + ")"@,
        }
    }

    /// The refusal in words.
    pub fn message(&self) -> (r: String)
        ensures
            r@ == self.text(),
    {
        match self {
            RulesError::NewerVersion { version } => {
                let mut s = "rules version ".to_owned();
                s.append(u32_text(*version).as_str());
                s.append(" is newer than this module supports (");
                s.append(u32_text(RULES_VERSION_MAX).as_str());
                s.append(")");
                s
            },
        }
    }
}

// ---------------------------------------------------------------------------
// Laws
// ---------------------------------------------------------------------------

/// What cleaning gives is determined: two cleaned day lists of one list are equal.
pub proof fn clean_days_unique(days: Seq<u8>, a: Seq<u8>, b: Seq<u8>)
    requires
        clean_days(days, a),
        clean_days(days, b),
    ensures
        a == b,
{
    lemma_ascending_equal(a, b);
}

/// Two strictly ascending sequences with the same members are equal.
pub proof fn lemma_ascending_equal(a: Seq<u8>, b: Seq<u8>)
    requires
        forall|i: int, j: int| 0 <= i < j < a.len() ==> a[i] < a[j],
        forall|i: int, j: int| 0 <= i < j < b.len() ==> b[i] < b[j],
        forall|d: u8| a.contains(d) <==> b.contains(d),
    ensures
        a == b,
    decreases a.len(),
{
    if a.len() == 0 {
        if b.len() > 0 {
            assert(b.contains(b[0]));
            assert(a.contains(b[0]));
        }
        assert(a =~= b);
    } else {
        assert(a.contains(a.last()));
        assert(b.contains(a.last()));
        assert(b.len() > 0);
        assert(b.contains(b.last()));
        assert(a.contains(b.last()));
        let i = a.index_of(b.last());
        let j = b.index_of(a.last());
        assert(a[i] <= a.last());
        assert(b[j] <= b.last());
        assert(a.last() == b.last());
        let a2 = a.drop_last();
        let b2 = b.drop_last();
        assert forall|d: u8| a2.contains(d) <==> b2.contains(d) by {
            if a2.contains(d) {
                let k = a2.index_of(d);
                assert(a[k] == d && d < a.last());
                assert(a.contains(d));
                assert(b.contains(d));
                let m = b.index_of(d);
                assert(b2[m] == d);
            }
            if b2.contains(d) {
                let k = b2.index_of(d);
                assert(b[k] == d && d < b.last());
                assert(b.contains(d));
                assert(a.contains(d));
                let m = a.index_of(d);
                assert(a2[m] == d);
            }
        }
        lemma_ascending_equal(a2, b2);
        assert(a =~= a2.push(a.last()));
        assert(b =~= b2.push(b.last()));
    }
}

/// Cleaning twice is cleaning once.
pub proof fn sanitize_is_idempotent(r: Rules, once: Rules, twice: Rules)
    requires
        r.wf(),
        once.wf(),
        once.cleans(r),
        twice.cleans(once),
    ensures
        twice.cleans(r),
        forall|i: int, k: int|
            0 <= i < once.apps.keys().len() && 0 <= k
                < once.apps.vals()[i].rules.time_windows.windows@.len()
                ==> (#[trigger] twice.apps.vals()[i].rules.time_windows.windows@[k]).days@
                == once.apps.vals()[i].rules.time_windows.windows@[k].days@,
        forall|i: int, k: int|
            0 <= i < once.groups.keys().len() && 0 <= k
                < once.groups.vals()[i].rules.time_windows.windows@.len()
                ==> (#[trigger] twice.groups.vals()[i].rules.time_windows.windows@[k]).days@
                == once.groups.vals()[i].rules.time_windows.windows@[k].days@,
{
    assert forall|i: int| 0 <= i < r.apps.keys().len() implies (
    #[trigger] twice.apps.vals()[i]).cleans(r.apps.vals()[i]) && once.apps.vals()[i].rules.cleans(
        r.apps.vals()[i].rules,
    ) && twice.apps.vals()[i].rules.cleans(once.apps.vals()[i].rules) by {
        let a = once.apps.vals()[i];
        lemma_clean_twice(r.apps.vals()[i].rules, a.rules, twice.apps.vals()[i].rules);
    }
    assert forall|i: int| 0 <= i < r.groups.keys().len() implies (
    #[trigger] twice.groups.vals()[i]).cleans(r.groups.vals()[i])
        && once.groups.vals()[i].rules.cleans(r.groups.vals()[i].rules)
        && twice.groups.vals()[i].rules.cleans(once.groups.vals()[i].rules) by {
        let g = once.groups.vals()[i];
        lemma_clean_twice(r.groups.vals()[i].rules, g.rules, twice.groups.vals()[i].rules);
    }
    assert forall|i: int, k: int|
        0 <= i < once.apps.keys().len() && 0 <= k
            < once.apps.vals()[i].rules.time_windows.windows@.len() implies (
    #[trigger] twice.apps.vals()[i].rules.time_windows.windows@[k]).days@
        == once.apps.vals()[i].rules.time_windows.windows@[k].days@ by {
        let a = twice.apps.vals()[i];
        lemma_clean_twice(r.apps.vals()[i].rules, once.apps.vals()[i].rules, a.rules);
    }
    assert forall|i: int, k: int|
        0 <= i < once.groups.keys().len() && 0 <= k
            < once.groups.vals()[i].rules.time_windows.windows@.len() implies (
    #[trigger] twice.groups.vals()[i].rules.time_windows.windows@[k]).days@
        == once.groups.vals()[i].rules.time_windows.windows@[k].days@ by {
        let g = twice.groups.vals()[i];
        lemma_clean_twice(r.groups.vals()[i].rules, once.groups.vals()[i].rules, g.rules);
    }
}

/// Cleaning a clean rule set leaves the days of every window as they are.
proof fn lemma_clean_twice(s: RuleSet, once: RuleSet, twice: RuleSet)
    requires
        once.cleans(s),
        twice.cleans(once),
    ensures
        twice.cleans(s),
        forall|k: int|
            0 <= k < once.time_windows.windows@.len() ==> (
            #[trigger] twice.time_windows.windows@[k]).days@
                == once.time_windows.windows@[k].days@,
{
    assert forall|k: int| 0 <= k < once.time_windows.windows@.len() implies (
    #[trigger] twice.time_windows.windows@[k]).days@ == once.time_windows.windows@[k].days@
        && twice.time_windows.windows@[k].cleans(s.time_windows.windows@[k]) by {
        let w0 = s.time_windows.windows@[k];
        let w1 = once.time_windows.windows@[k];
        let w2 = twice.time_windows.windows@[k];
        assert(w1.cleans(w0));
        assert(w2.cleans(w1));
        lemma_ascending_equal(w1.days@, w2.days@);
    }
}

/// Cleaning keeps everything that is not a weekday list: what is enabled, who is a
/// member, every limit, every mode and every time.
pub proof fn cleaning_keeps_everything_but_days(r: Rules, clean: Rules, i: int, k: int)
    requires
        clean.cleans(r),
    ensures
        clean.version == r.version,
        clean.settings == r.settings,
        clean.apps.keys() == r.apps.keys(),
        clean.groups.keys() == r.groups.keys(),
        0 <= i < r.apps.keys().len() ==> {
            let (a, b) = (clean.apps.vals()[i], r.apps.vals()[i]);
            &&& a.enabled == b.enabled
            &&& same_but_days(a.rules, b.rules, k)
        },
        0 <= i < r.groups.keys().len() ==> {
            let (a, b) = (clean.groups.vals()[i], r.groups.vals()[i]);
            &&& a.enabled == b.enabled
            &&& a.shared_pool == b.shared_pool
            &&& a.members == b.members
            &&& same_but_days(a.rules, b.rules, k)
        },
{
}

/// Whether two rule sets agree but for the days of their windows; of those, the
/// times of window `k`.
pub open spec fn same_but_days(a: RuleSet, b: RuleSet, k: int) -> bool {
    &&& a.always_on == b.always_on
    &&& a.lock_block == b.lock_block
    &&& a.duration.limit_minutes == b.duration.limit_minutes
    &&& a.duration.freeze_minutes == b.duration.freeze_minutes
    &&& a.duration.scope == b.duration.scope
    &&& a.time_windows.mode == b.time_windows.mode
    &&& a.time_windows.windows@.len() == b.time_windows.windows@.len()
    &&& 0 <= k < b.time_windows.windows@.len() ==> a.time_windows.windows@[k].start
        == b.time_windows.windows@[k].start && a.time_windows.windows@[k].end
        == b.time_windows.windows@[k].end
}

/// A cleaned window keeps every weekday it named, and names nothing else.
pub proof fn cleaning_keeps_the_weekdays(w: TimeWindow, clean: TimeWindow, d: u8)
    requires
        clean.cleans(w),
    ensures
        1 <= d <= 7 ==> clean.days@.contains(d) == w.days@.contains(d),
        d == 0 || d > 7 ==> !clean.days@.contains(d),
{
}

/// The built-in rules concern nobody: there is no app and no group in them.
pub proof fn the_default_rules_concern_nobody(rules: Rules, k: Seq<char>)
    requires
        is_default(rules),
    ensures
        !rules.apps@.contains_key(k),
        !rules.apps.keys().contains(k),
        !rules.groups@.contains_key(k),
        !rules.groups.keys().contains(k),
        rules.version == 0,
        !rules.settings.clear_log_on_boot,
{
}

} // verus!
