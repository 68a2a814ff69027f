//! Packages, users and uids.
//!
//! An app is identified by an appId, and its uid is `userId * 100000 + appId`.
//! The package list carries the appId per package, so the map is built for every
//! user that exists on the device, which is what makes a rule key like
//! "10:com.foo" resolve to the work profile's uid.

use vstd::prelude::*;
use vstd::string::*;

use crate::number::{decimal, decimal_reads_back, is_digit, parse_u32, u32_of, u32_text};
use crate::table::StrMap;
use crate::text::{
    a_join_is_split_again, first_of, lemma_first_of, lines, nothing_to_split, split_at_first,
    split_lines, split_once, split_words, views, words,
};

verus! {

/// Package list file: rewritten on install/uninstall, app uids change or get recycled.
pub const PACKAGES_LIST: &'static str = "/data/system/packages.list";

/// One directory per Android user (0, 10, ...).
pub const USERS_DIR: &'static str = "/data/system/users";

/// How many uids each user has.
pub const USER_RANGE: u32 = 100000;

// ---------------------------------------------------------------------------
// Keys
// ---------------------------------------------------------------------------

/// The rule key of package `pkg` of user `user`.
pub open spec fn user_key(user: u32, pkg: Seq<char>) -> Seq<char> {
    decimal(user as nat) + ":"@ + pkg
}

/// The rule key of package `pkg` of user `user`.
fn make_key(user: u32, pkg: &str) -> (r: String)
    ensures
        r@ == user_key(user, pkg@),
{
    u32_text(user).concat(":").concat(pkg)
}

/// The uid of app `app_id` of user `user`; it wraps at 32 bits.
pub open spec fn uid_for(user: u32, app_id: u32) -> u32 {
    ((user * 100000 + app_id) % 0x1_0000_0000) as u32
}

/// The (key, uid) pairs a package gets for one raw column value.
pub open spec fn key_pairs(raw: u32, pkg: Seq<char>, users: Seq<u32>) -> Seq<(Seq<char>, u32)> {
    if raw >= 100000 {
        seq![(user_key((raw / 100000) as u32, pkg), raw)]
    } else {
        users.map_values(|u: u32| (user_key(u, pkg), uid_for(u, raw)))
    }
}

/// The characters and uids of a list of pairs.
pub open spec fn pair_views(v: Seq<(String, u32)>) -> Seq<(Seq<char>, u32)> {
    v.map_values(|p: (String, u32)| (p.0@, p.1))
}

/// The (key, uid) pairs a package gets for one raw column value.
///
/// A value below 100000 is an appId, so it gets one key per existing user.
/// Anything larger already carries its user: should a future Android write full
/// uids into this file, the mapping still resolves instead of matching nothing.
pub fn keys_for(raw: u32, pkg: &str, users: &[u32]) -> (r: Vec<(String, u32)>)
    ensures
        pair_views(r@) == key_pairs(raw, pkg@, users@),
{
    let mut r: Vec<(String, u32)> = Vec::new();
    if raw >= USER_RANGE {
        r.push((make_key(raw / USER_RANGE, pkg), raw));
        assert(pair_views(r@) =~= key_pairs(raw, pkg@, users@));
        return r;
    }
    let mut i: usize = 0;
    while i < users.len()
        invariant
            raw < 100000,
            i <= users@.len(),
            r@.len() == i,
            forall|k: int|
                0 <= k < i ==> (#[trigger] r@[k]).0@ == user_key(users@[k], pkg@) && r@[k].1
                    == uid_for(users@[k], raw),
        decreases users@.len() - i,
    {
        let user: u32 = users[i];
        let uid: u32 = ((user as u64 * 100000 + raw as u64) % 0x1_0000_0000) as u32;
        r.push((make_key(user, pkg), uid));
        i = i + 1;
    }
    assert(pair_views(r@) =~= key_pairs(raw, pkg@, users@));
    r
}

/// The package of a "user:pkg" key: what stands behind its first colon, if anything.
pub open spec fn key_package(key: Seq<char>) -> Option<Seq<char>> {
    match split_at_first(key, ':') {
        Some((user, pkg)) => if pkg.len() > 0 {
            Some(pkg)
        } else {
            None
        },
        None => None,
    }
}

/// "user:pkg" -> "pkg". This is the identity the killer confirms against the
/// process's own cmdline.
pub fn package_of(key: &str) -> (r: Option<String>)
    ensures
        match r {
            Some(p) => key_package(key@) == Some(p@),
            None => key_package(key@) is None,
        },
{
    match split_once(key, ':') {
        Some((_, pkg)) => if pkg.as_str().is_empty() {
            None
        } else {
            Some(pkg)
        },
        None => None,
    }
}

// ---------------------------------------------------------------------------
// Users
// ---------------------------------------------------------------------------

/// Whether `u` is a user: the main user, or one that a name of `names` writes.
pub open spec fn is_user(names: Seq<Seq<char>>, u: u32) -> bool {
    u == 0 || exists|i: int| 0 <= i < names.len() && u32_of(#[trigger] names[i]) == Some(u)
}

/// Where `u` belongs in the strictly ascending `v`, and whether it is there.
fn find_u32(v: &Vec<u32>, u: u32) -> (r: (usize, bool))
    requires
        forall|i: int, j: int| 0 <= i < j < v@.len() ==> v@[i] < v@[j],
    ensures
        r.0 <= v@.len(),
        r.1 == v@.contains(u),
        forall|i: int| 0 <= i < r.0 ==> v@[i] < u,
        !r.1 ==> forall|i: int| r.0 <= i < v@.len() ==> u < v@[i],
{
    let mut i: usize = 0;
    while i < v.len() && v[i] < u
        invariant
            i <= v@.len(),
            forall|k: int| 0 <= k < i ==> v@[k] < u,
        decreases v@.len() - i,
    {
        i = i + 1;
    }
    if i < v.len() && v[i] == u {
        assert(v@[i as int] == u);
        (i, true)
    } else {
        (i, false)
    }
}

/// Android users on this device, ascending, from the names of the directories
/// that stand for them; user 0 is always included.
pub fn users(names: &Vec<String>) -> (r: Vec<u32>)
    ensures
        forall|i: int, j: int| 0 <= i < j < r@.len() ==> r@[i] < r@[j],
        forall|u: u32| #[trigger] r@.contains(u) <==> is_user(views(names@), u),
{
    let mut r: Vec<u32> = vec![0u32];
    let ghost ns = views(names@);
    let mut i: usize = 0;
    assert forall|u: u32| #[trigger] r@.contains(u) <==> is_user(ns.take(0), u) by {
        if u == 0 {
            assert(r@[0] == u);
        }
    }
    while i < names.len()
        invariant
            i <= names@.len(),
            ns == views(names@),
            forall|k: int, j: int| 0 <= k < j < r@.len() ==> r@[k] < r@[j],
            forall|u: u32| #[trigger] r@.contains(u) <==> is_user(ns.take(i as int), u),
        decreases names@.len() - i,
    {
        let ghost before = r@;
        let parsed: Option<u32> = parse_u32(names[i].as_str());
        assert(ns[i as int] == names@[i as int]@);
        if let Some(u) = parsed {
            let (n, found): (usize, bool) = find_u32(&r, u);
            if !found {
                r.insert(n, u);
                assert(r@ == before.insert(n as int, u));
                assert(r@[n as int] == u);
                assert forall|k: int, j: int| 0 <= k < j < r@.len() implies r@[k] < r@[j] by {
                    let a = if k < n { k } else { k - 1 };
                    let b = if j < n { j } else { j - 1 };
                    if k != n && j != n {
                        assert(r@[k] == before[a] && r@[j] == before[b]);
                    } else if k == n {
                        assert(r@[j] == before[b]);
                    } else {
                        assert(r@[k] == before[a]);
                    }
                }
            }
            assert forall|x: u32| #[trigger] r@.contains(x) <==> before.contains(x) || x == u by {
                if before.contains(x) && !found {
                    let k = before.index_of(x);
                    let k2 = if k < n { k } else { k + 1 };
                    assert(r@[k2] == x);
                }
                if r@.contains(x) && !found && x != u {
                    let k = r@.index_of(x);
                    let k2 = if k < n { k } else { k - 1 };
                    assert(before[k2] == x);
                }
            }
        }
        assert forall|x: u32| #[trigger] r@.contains(x) <==> is_user(ns.take(i + 1), x) by {
            let a = ns.take(i as int);
            let b = ns.take(i + 1);
            if is_user(a, x) && x != 0 {
                let k = choose|k: int| 0 <= k < a.len() && u32_of(#[trigger] a[k]) == Some(x);
                assert(b[k] == a[k]);
            }
            if is_user(b, x) && x != 0 {
                let k = choose|k: int| 0 <= k < b.len() && u32_of(#[trigger] b[k]) == Some(x);
                if k < i {
                    assert(a[k] == b[k]);
                } else {
                    assert(parsed == Some(x));
                }
            }
            if parsed == Some(x) {
                assert(b[i as int] == ns[i as int]);
            }
            assert(before.contains(x) <==> is_user(a, x));
        }
        i = i + 1;
    }
    assert(ns.take(i as int) =~= ns);
    r
}

// ---------------------------------------------------------------------------
// The package list
// ---------------------------------------------------------------------------

/// `m` with each pair of `ps` put in, in order.
pub open spec fn insert_pairs(m: Map<Seq<char>, u32>, ps: Seq<(Seq<char>, u32)>) -> Map<
    Seq<char>,
    u32,
>
    decreases ps.len(),
{
    if ps.len() == 0 {
        m
    } else {
        insert_pairs(m, ps.drop_last()).insert(ps.last().0, ps.last().1)
    }
}

/// The pairs that one line of the package list stands for: its first word is a
/// package and its second a number, or it stands for nothing.
pub open spec fn line_pairs(line: Seq<char>, users: Seq<u32>) -> Seq<(Seq<char>, u32)> {
    let w = words(line);
    if w.len() < 2 {
        Seq::empty()
    } else {
        match u32_of(w[1]) {
            Some(raw) => key_pairs(raw, w[0], users),
            None => Seq::empty(),
        }
    }
}

/// The uids that the lines `ls` of the package list give: of two lines for one
/// key the later counts.
pub open spec fn uid_map(ls: Seq<Seq<char>>, users: Seq<u32>) -> Map<Seq<char>, u32>
    decreases ls.len(),
{
    if ls.len() == 0 {
        Map::empty()
    } else {
        insert_pairs(uid_map(ls.drop_last(), users), line_pairs(ls.last(), users))
    }
}

/// Build the full "user:pkg" -> uid map from the content of the package list.
/// Line format: <pkg> <appId> <dataPath> <seinfo> [gids...].
pub fn resolve_uids(content: &str, users: &[u32]) -> (r: StrMap<u32>)
    ensures
        r.wf(),
        r@ == uid_map(lines(content@), users@),
{
    let ls = split_lines(content);
    let ghost lv = lines(content@);
    let mut r: StrMap<u32> = StrMap::new();
    let mut i: usize = 0;
    assert(lv.take(0) =~= Seq::empty());
    while i < ls.len()
        invariant
            r.wf(),
            views(ls@) == lv,
            i <= ls@.len(),
            r@ == uid_map(lv.take(i as int), users@),
        decreases ls@.len() - i,
    {
        let ws = split_words(ls[i].as_str());
        assert(lv[i as int] == ls@[i as int]@);
        assert(views(ws@) == words(lv[i as int]));
        assert(lv.take(i + 1).drop_last() =~= lv.take(i as int));
        let ghost base = r@;
        let mut pairs: Vec<(String, u32)> = Vec::new();
        if ws.len() >= 2 {
            assert(words(lv[i as int])[0] == ws@[0]@);
            assert(words(lv[i as int])[1] == ws@[1]@);
            if let Some(raw) = parse_u32(ws[1].as_str()) {
                pairs = keys_for(raw, ws[0].as_str(), users);
            }
        }
        assert(pair_views(pairs@) =~= line_pairs(lv[i as int], users@));
        let ghost ps = pair_views(pairs@);
        let mut k: usize = 0;
        assert(ps.take(0) =~= Seq::empty());
        while k < pairs.len()
            invariant
                r.wf(),
                ps == pair_views(pairs@),
                k <= pairs@.len(),
                r@ == insert_pairs(base, ps.take(k as int)),
            decreases pairs@.len() - k,
        {
            let key = pairs[k].0.clone();
            let uid: u32 = pairs[k].1;
            assert(ps.take(k + 1).drop_last() =~= ps.take(k as int));
            assert(ps.take(k + 1).last() == (key@, uid));
            r.insert(key, uid);
            k = k + 1;
        }
        assert(ps.take(k as int) =~= ps);
        i = i + 1;
    }
    assert(lv.take(i as int) =~= lv);
    r
}

// ---------------------------------------------------------------------------
// Laws
// ---------------------------------------------------------------------------

/// The first colon of a key stands right behind its user.
pub proof fn lemma_key_colon(user: u32, pkg: Seq<char>)
    ensures
        first_of(user_key(user, pkg), ':') == decimal(user as nat).len(),
        split_at_first(user_key(user, pkg), ':') == Some((decimal(user as nat), pkg)),
{
    reveal_strlit(":");
    let d = decimal(user as nat);
    let k = user_key(user, pkg);
    decimal_reads_back(user);
    assert forall|i: int| 0 <= i < d.len() implies k[i] != ':' by {
        assert(k[i] == d[i]);
        assert(is_digit(d[i]));
    }
    assert(k[d.len() as int] == ':');
    lemma_first_of(k, ':', d.len() as int);
    assert(k.take(d.len() as int) =~= d);
    assert(k.skip(d.len() as int + 1) =~= pkg);
}

/// A key names one user and one package: two keys are equal only if both are.
pub proof fn keys_are_unambiguous(u1: u32, p1: Seq<char>, u2: u32, p2: Seq<char>)
    requires
        user_key(u1, p1) == user_key(u2, p2),
    ensures
        u1 == u2,
        p1 == p2,
{
    lemma_key_colon(u1, p1);
    lemma_key_colon(u2, p2);
    decimal_reads_back(u1);
    decimal_reads_back(u2);
}

/// The package of a key is the package it was made for.
pub proof fn key_gives_its_package(user: u32, pkg: Seq<char>)
    requires
        pkg.len() > 0,
    ensures
        key_package(user_key(user, pkg)) == Some(pkg),
{
    lemma_key_colon(user, pkg);
}

/// The uid of an app names its user and its appId: within 32 bits no two of
/// them share a uid.
pub proof fn uids_are_unambiguous(u1: u32, a1: u32, u2: u32, a2: u32)
    requires
        a1 < 100000,
        a2 < 100000,
        u1 * 100000 + a1 <= u32::MAX,
        u2 * 100000 + a2 <= u32::MAX,
    ensures
        uid_for(u1, a1) / 100000 == u1,
        uid_for(u1, a1) % 100000 == a1,
        uid_for(u1, a1) == uid_for(u2, a2) ==> u1 == u2 && a1 == a2,
{
}

/// Every user's key of a package resolves to that user's uid.
pub proof fn every_user_resolves(raw: u32, pkg: Seq<char>, users: Seq<u32>, i: int)
    requires
        raw < 100000,
        0 <= i < users.len(),
    ensures
        key_pairs(raw, pkg, users).len() == users.len(),
        key_pairs(raw, pkg, users)[i] == (user_key(users[i], pkg), uid_for(users[i], raw)),
{
}

/// A key is the digits of its user, a colon and the package, and the user reads back.
pub proof fn a_key_names_its_user(user: u32, pkg: Seq<char>)
    ensures
        user_key(user, pkg) == decimal(user as nat) + seq![':'] + pkg,
        split_at_first(user_key(user, pkg), ':') matches Some(p) && u32_of(p.0) == Some(user) && p.1
            == pkg,
{
    reveal_strlit(":");
    assert(":"@ =~= seq![':']);
    lemma_key_colon(user, pkg);
    decimal_reads_back(user);
}

/// A key without a package, or without a colon, names no package.
pub proof fn a_key_without_a_package_names_none(head: Seq<char>, key: Seq<char>)
    requires
        !head.contains(':'),
        !key.contains(':'),
    ensures
        key_package(head + seq![':']) is None,
        key_package(key) is None,
{
    a_join_is_split_again(head, ':', Seq::empty());
    assert(head + seq![':'] + Seq::<char>::empty() =~= head + seq![':']);
    nothing_to_split(key, ':');
}

/// The main user always exists, and so does every user that a directory is named
/// after; no other does.
pub proof fn users_are_named_by_their_directories(names: Seq<Seq<char>>, u: u32, i: int)
    ensures
        is_user(names, 0),
        0 <= i < names.len() && names[i] == decimal(u as nat) ==> is_user(names, u),
        is_user(names, u) && u != 0 ==> exists|k: int|
            0 <= k < names.len() && u32_of(#[trigger] names[k]) == Some(u),
{
    decimal_reads_back(u);
}

proof fn lemma_pairs_keep(m: Map<Seq<char>, u32>, ps: Seq<(Seq<char>, u32)>, k: Seq<char>)
    requires
        forall|j: int| 0 <= j < ps.len() ==> (#[trigger] ps[j]).0 != k,
    ensures
        insert_pairs(m, ps).contains_key(k) == m.contains_key(k),
        m.contains_key(k) ==> insert_pairs(m, ps)[k] == m[k],
    decreases ps.len(),
{
    if ps.len() > 0 {
        let rest = ps.drop_last();
        assert forall|j: int| 0 <= j < rest.len() implies (#[trigger] rest[j]).0 != k by {
            assert(rest[j] == ps[j]);
        }
        lemma_pairs_keep(m, rest, k);
        assert(ps[ps.len() - 1].0 != k);
    }
}

proof fn lemma_pair_counts(m: Map<Seq<char>, u32>, ps: Seq<(Seq<char>, u32)>, i: int)
    requires
        0 <= i < ps.len(),
        forall|j: int| 0 <= j < ps.len() && (#[trigger] ps[j]).0 == ps[i].0 ==> ps[j].1 == ps[i].1,
    ensures
        insert_pairs(m, ps).contains_key(ps[i].0),
        insert_pairs(m, ps)[ps[i].0] == ps[i].1,
    decreases ps.len(),
{
    let rest = ps.drop_last();
    let last = ps[ps.len() - 1];
    assert(last == ps.last());
    if last.0 != ps[i].0 {
        assert(rest[i] == ps[i]);
        assert forall|j: int| 0 <= j < rest.len() && (#[trigger] rest[j]).0 == rest[i].0 implies rest[j].1
            == rest[i].1 by {
            assert(rest[j] == ps[j]);
        }
        lemma_pair_counts(m, rest, i);
    }
}

/// Whether a line of the package list is about `pkg`.
pub open spec fn is_line_of(line: Seq<char>, pkg: Seq<char>) -> bool {
    words(line).len() >= 2 && words(line)[0] == pkg
}

/// The pairs of a line are about its package.
proof fn lemma_line_pairs(line: Seq<char>, users: Seq<u32>, user: u32, pkg: Seq<char>)
    requires
        !is_line_of(line, pkg),
    ensures
        forall|j: int|
            0 <= j < line_pairs(line, users).len() ==> (#[trigger] line_pairs(line, users)[j]).0
                != user_key(user, pkg),
{
    let ps = line_pairs(line, users);
    assert forall|j: int| 0 <= j < ps.len() implies (#[trigger] ps[j]).0 != user_key(user, pkg) by {
        let w = words(line);
        let raw = u32_of(w[1]).unwrap();
        let u: u32 = if raw >= 100000 {
            (raw / 100000) as u32
        } else {
            users[j]
        };
        assert(ps[j].0 == user_key(u, w[0]));
        if ps[j].0 == user_key(user, pkg) {
            keys_are_unambiguous(u, w[0], user, pkg);
        }
    }
}

/// A package that the list gives an appId is installed for every user, as a hundred
/// thousand uids for each and the appId on top; the last line about it counts.
pub proof fn a_listed_package_resolves_for_every_user(
    ls: Seq<Seq<char>>,
    users: Seq<u32>,
    i: int,
    u: int,
    app_id: u32,
)
    requires
        0 <= i < ls.len(),
        0 <= u < users.len(),
        words(ls[i]).len() >= 2,
        u32_of(words(ls[i])[1]) == Some(app_id),
        app_id < 100000,
        users[u] * 100000 + app_id <= u32::MAX,
        forall|j: int| i < j < ls.len() ==> !is_line_of(#[trigger] ls[j], words(ls[i])[0]),
    ensures
        ({
            let key = user_key(users[u], words(ls[i])[0]);
            uid_map(ls, users).contains_key(key) && uid_map(ls, users)[key] == users[u] * 100000
                + app_id
        }),
    decreases ls.len(),
{
    let rest = ls.drop_last();
    let pkg = words(ls[i])[0];
    let key = user_key(users[u], pkg);
    if i < rest.len() {
        assert(rest[i] == ls[i]);
        assert forall|j: int| i < j < rest.len() implies !is_line_of(#[trigger] rest[j], pkg) by {
            assert(rest[j] == ls[j]);
        }
        a_listed_package_resolves_for_every_user(rest, users, i, u, app_id);
        assert(!is_line_of(ls[ls.len() - 1], pkg));
        lemma_line_pairs(ls.last(), users, users[u], pkg);
        lemma_pairs_keep(uid_map(rest, users), line_pairs(ls.last(), users), key);
    } else {
        let ps = line_pairs(ls.last(), users);
        every_user_resolves(app_id, pkg, users, u);
        assert forall|j: int| 0 <= j < ps.len() && (#[trigger] ps[j]).0 == ps[u].0 implies ps[j].1
            == ps[u].1 by {
            every_user_resolves(app_id, pkg, users, j);
            keys_are_unambiguous(users[j], pkg, users[u], pkg);
        }
        lemma_pair_counts(uid_map(rest, users), ps, u);
    }
}

/// A package that the list gives a whole uid is installed for that uid's user alone.
pub proof fn a_listed_uid_carries_its_user(ls: Seq<Seq<char>>, users: Seq<u32>, i: int, uid: u32)
    requires
        0 <= i < ls.len(),
        words(ls[i]).len() >= 2,
        u32_of(words(ls[i])[1]) == Some(uid),
        uid >= 100000,
        forall|j: int| i < j < ls.len() ==> !is_line_of(#[trigger] ls[j], words(ls[i])[0]),
    ensures
        ({
            let key = user_key((uid / 100000) as u32, words(ls[i])[0]);
            uid_map(ls, users).contains_key(key) && uid_map(ls, users)[key] == uid
        }),
    decreases ls.len(),
{
    let rest = ls.drop_last();
    let pkg = words(ls[i])[0];
    let user = (uid / 100000) as u32;
    if i < rest.len() {
        assert(rest[i] == ls[i]);
        assert forall|j: int| i < j < rest.len() implies !is_line_of(#[trigger] rest[j], pkg) by {
            assert(rest[j] == ls[j]);
        }
        a_listed_uid_carries_its_user(rest, users, i, uid);
        assert(!is_line_of(ls[ls.len() - 1], pkg));
        lemma_line_pairs(ls.last(), users, user, pkg);
        lemma_pairs_keep(
            uid_map(rest, users),
            line_pairs(ls.last(), users),
            user_key(user, pkg),
        );
    } else {
        lemma_pair_counts(uid_map(rest, users), line_pairs(ls.last(), users), 0);
    }
}

/// Nothing resolves that the list does not name.
pub proof fn only_listed_packages_resolve(
    ls: Seq<Seq<char>>,
    users: Seq<u32>,
    user: u32,
    pkg: Seq<char>,
)
    requires
        forall|j: int| 0 <= j < ls.len() ==> !is_line_of(#[trigger] ls[j], pkg),
    ensures
        !uid_map(ls, users).contains_key(user_key(user, pkg)),
    decreases ls.len(),
{
    if ls.len() > 0 {
        let rest = ls.drop_last();
        assert forall|j: int| 0 <= j < rest.len() implies !is_line_of(#[trigger] rest[j], pkg) by {
            assert(rest[j] == ls[j]);
        }
        only_listed_packages_resolve(rest, users, user, pkg);
        assert(!is_line_of(ls[ls.len() - 1], pkg));
        lemma_line_pairs(ls.last(), users, user, pkg);
        lemma_pairs_keep(
            uid_map(rest, users),
            line_pairs(ls.last(), users),
            user_key(user, pkg),
        );
    }
}

} // verus!
