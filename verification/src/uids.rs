//! Maps and sets over uids and pids.

use std::collections::{BTreeSet, HashMap, HashSet};

use vstd::prelude::*;
use vstd::std_specs::cmp::OrdSpec;

verus! {

broadcast use {
    vstd::std_specs::hash::group_hash_axioms,
    vstd::std_specs::btree::group_btree_axioms,
    vstd::laws_cmp::group_laws_cmp,
};

/// The value of `k`, or zero where it has none.
pub open spec fn count_of(m: Map<u32, u64>, k: u32) -> u64 {
    if m.contains_key(k) {
        m[k]
    } else {
        0
    }
}

/// The value of `k`, or zero where it has none.
pub fn count_in(m: &HashMap<u32, u64>, k: u32) -> (r: u64)
    ensures
        r == count_of(m@, k),
{
    match m.get(&k) {
        Some(v) => *v,
        None => 0,
    }
}

/// The keys of `m`, each once.
pub fn map_keys<V>(m: &HashMap<u32, V>) -> (r: Vec<u32>)
    ensures
        r@.no_duplicates(),
        r@.to_set() == m@.dom(),
{
    let mut r: Vec<u32> = Vec::new();
    for k in it: m.keys()
        invariant
            it.seq().no_duplicates(),
            it.seq().unref().to_set() == m@.dom(),
            r@ == it.seq().unref().take(it.index()),
            it.index() == it.seq().len() ==> r@ == it.seq().unref(),
    {
        r.push(*k);
    }
    r
}

/// The members of `s`, each once.
pub fn set_items(s: &HashSet<u32>) -> (r: Vec<u32>)
    ensures
        r@.no_duplicates(),
        r@.to_set() == s@,
{
    let mut r: Vec<u32> = Vec::new();
    for k in it: s.iter()
        invariant
            it.seq().no_duplicates(),
            it.seq().unref().to_set() == s@,
            r@ == it.seq().unref().take(it.index()),
            it.index() == it.seq().len() ==> r@ == it.seq().unref(),
    {
        r.push(*k);
    }
    r
}

/// The members of `s`, ascending.
pub fn ordered_items(s: &BTreeSet<u32>) -> (r: Vec<u32>)
    ensures
        forall|i: int, j: int| 0 <= i < j < r@.len() ==> r@[i] < r@[j],
        r@.to_set() == s@,
{
    let mut r: Vec<u32> = Vec::new();
    for k in it: s.iter()
        invariant
            it.seq().no_duplicates(),
            vstd::std_specs::btree::increasing_seq(it.seq()),
            it.seq().unref().to_set() == s@,
            r@ == it.seq().unref().take(it.index()),
            it.index() == it.seq().len() ==> r@ == it.seq().unref(),
            forall|i: int, j: int| 0 <= i < j < r@.len() ==> r@[i] < r@[j],
    {
        assert forall|i: int| 0 <= i < r@.len() implies r@[i] < *k by {
            let n = it.index();
            assert(vstd::laws_cmp::obeys_cmp::<&u32>());
            assert(0 <= i < n < it.seq().len());
            assert(OrdSpec::cmp_spec(&it.seq()[i], &it.seq()[n]) is Less);
        }
        r.push(*k);
    }
    r
}

/// Takes out of `m` every entry whose key is not in `live`.
pub fn retain_keys<V>(m: &mut HashMap<u32, V>, live: &HashSet<u32>)
    ensures
        final(m)@ == old(m)@.restrict(live@),
{
    let ks = map_keys(m);
    let mut i: usize = 0;
    while i < ks.len()
        invariant
            i <= ks@.len(),
            ks@.no_duplicates(),
            ks@.to_set() == old(m)@.dom(),
            forall|k: u32| #[trigger]
                m@.contains_key(k) <==> old(m)@.contains_key(k) && (live@.contains(k) || exists|
                    j: int,
                |
                    i <= j < ks@.len() && #[trigger] ks@[j] == k),
            forall|k: u32| #[trigger] m@.contains_key(k) ==> m@[k] == old(m)@[k],
        decreases ks@.len() - i,
    {
        let k: u32 = ks[i];
        if !live.contains(&k) {
            let _ = m.remove(&k);
        }
        i = i + 1;
    }
    assert(m@ =~= old(m)@.restrict(live@));
}

// ---------------------------------------------------------------------------
// Apps that change their uid
// ---------------------------------------------------------------------------

/// Whether some app has the uid `uid` before and after `moves`. A move is the uid
/// of one app before and after.
pub open spec fn stays(moves: Seq<(u32, u32)>, uid: u32) -> bool {
    exists|i: int| 0 <= i < moves.len() && #[trigger] moves[i] == (uid, uid)
}

/// Whether some app gives the uid `uid` up, or takes it, in `moves`.
pub open spec fn traded(moves: Seq<(u32, u32)>, uid: u32) -> bool {
    exists|i: int|
        0 <= i < moves.len() && (#[trigger] moves[i]).0 != moves[i].1 && (moves[i].0 == uid
            || moves[i].1 == uid)
}

/// The entries of `m` that stay where they are: those of uids that some app
/// keeps, and those of uids that no app trades.
pub open spec fn staying<V>(m: Map<u32, V>, moves: Seq<(u32, u32)>) -> Map<u32, V> {
    Map::new(
        |uid: u32| m.contains_key(uid) && (stays(moves, uid) || !traded(moves, uid)),
        |uid: u32| m[uid],
    )
}

/// `base` with, for each app that changes its uid, what `m` holds at the uid it
/// had entered at the one it has.
pub open spec fn arrived<V>(
    base: Map<u32, V>,
    m: Map<u32, V>,
    moves: Seq<(u32, u32)>,
) -> Map<u32, V>
    decreases moves.len(),
{
    if moves.len() == 0 {
        base
    } else {
        let before = arrived(base, m, moves.drop_last());
        let (had, has) = moves.last();
        if had != has && m.contains_key(had) {
            before.insert(has, m[had])
        } else {
            before
        }
    }
}

/// `m` after every app took the entry of the uid it had to the uid it has, all at
/// once. Where apps of several uids come to share one, an app that changed its
/// uid goes before one that did not, and a later one before an earlier.
pub open spec fn relocated<V>(m: Map<u32, V>, moves: Seq<(u32, u32)>) -> Map<u32, V> {
    arrived(staying(m, moves), m, moves)
}

/// Whether some app has the uid `uid` before and after `moves`.
fn is_kept(moves: &Vec<(u32, u32)>, uid: u32) -> (r: bool)
    ensures
        r == stays(moves@, uid),
{
    let mut i: usize = 0;
    while i < moves.len()
        invariant
            i <= moves@.len(),
            forall|j: int| 0 <= j < i ==> #[trigger] moves@[j] != (uid, uid),
        decreases moves@.len() - i,
    {
        if moves[i].0 == uid && moves[i].1 == uid {
            assert(moves@[i as int] == (uid, uid));
            return true;
        }
        i = i + 1;
    }
    false
}

/// Whether some app gives the uid `uid` up, or takes it, in `moves`.
fn is_traded(moves: &Vec<(u32, u32)>, uid: u32) -> (r: bool)
    ensures
        r == traded(moves@, uid),
{
    let mut i: usize = 0;
    while i < moves.len()
        invariant
            i <= moves@.len(),
            forall|j: int|
                0 <= j < i && (#[trigger] moves@[j]).0 != moves@[j].1 ==> moves@[j].0 != uid
                    && moves@[j].1 != uid,
        decreases moves@.len() - i,
    {
        let (had, has): (u32, u32) = moves[i];
        if had != has && (had == uid || has == uid) {
            assert(moves@[i as int].0 != moves@[i as int].1);
            return true;
        }
        i = i + 1;
    }
    false
}

/// Takes the entry of each uid to the uids that its apps have after `moves`.
pub fn relocate<V: Copy>(m: &mut HashMap<u32, V>, moves: &Vec<(u32, u32)>)
    ensures
        final(m)@ == relocated(old(m)@, moves@),
{
    let ks = map_keys(m);
    let mut r: HashMap<u32, V> = HashMap::new();
    let mut i: usize = 0;
    while i < ks.len()
        invariant
            m@ == old(m)@,
            i <= ks@.len(),
            ks@.to_set() == m@.dom(),
            forall|k: u32| #[trigger]
                r@.contains_key(k) <==> staying(m@, moves@).contains_key(k) && exists|j: int|
                    0 <= j < i && #[trigger] ks@[j] == k,
            forall|k: u32| #[trigger] r@.contains_key(k) ==> r@[k] == m@[k],
        decreases ks@.len() - i,
    {
        let k: u32 = ks[i];
        assert(ks@.to_set().contains(k));
        if is_kept(moves, k) || !is_traded(moves, k) {
            if let Some(v) = m.get(&k) {
                let _ = r.insert(k, *v);
            }
        }
        i = i + 1;
    }
    let ghost base = staying(m@, moves@);
    assert forall|k: u32| #[trigger] base.contains_key(k) implies r@.contains_key(k) by {
        assert(ks@.to_set().contains(k));
        assert(ks@[ks@.index_of(k)] == k);
    }
    assert(r@ =~= base);
    i = 0;
    assert(moves@.take(0) =~= Seq::empty());
    while i < moves.len()
        invariant
            m@ == old(m)@,
            i <= moves@.len(),
            r@ == arrived(base, m@, moves@.take(i as int)),
        decreases moves@.len() - i,
    {
        assert(moves@.take(i + 1).drop_last() =~= moves@.take(i as int));
        let (had, has): (u32, u32) = moves[i];
        if had != has {
            if let Some(v) = m.get(&had) {
                let _ = r.insert(has, *v);
            }
        }
        i = i + 1;
    }
    assert(moves@.take(i as int) =~= moves@);
    *m = r;
}

// ---------------------------------------------------------------------------
// Laws
// ---------------------------------------------------------------------------

/// Whether `after` holds at `has` what `before` held at `had`.
pub open spec fn handed_over<V>(
    before: Map<u32, V>,
    had: u32,
    after: Map<u32, V>,
    has: u32,
) -> bool {
    before.contains_key(had) == after.contains_key(has) && (before.contains_key(had) ==> after[has]
        == before[had])
}

/// What arrives at a uid that apps of one uid alone go to.
proof fn lemma_arrived<V>(
    base: Map<u32, V>,
    m: Map<u32, V>,
    moves: Seq<(u32, u32)>,
    had: u32,
    has: u32,
)
    requires
        forall|j: int| 0 <= j < moves.len() && (#[trigger] moves[j]).1 == has ==> moves[j].0 == had,
    ensures
        ({
            let r = arrived(base, m, moves);
            if had != has && m.contains_key(had) && exists|j: int|
                0 <= j < moves.len() && #[trigger] moves[j] == (had, has) {
                r.contains_key(has) && r[has] == m[had]
            } else {
                handed_over(base, has, r, has)
            }
        }),
    decreases moves.len(),
{
    if moves.len() > 0 {
        let rest = moves.drop_last();
        assert forall|j: int| 0 <= j < rest.len() implies #[trigger] rest[j] == moves[j] by {}
        lemma_arrived(base, m, rest, had, has);
        let last = moves[moves.len() - 1];
        assert(last == moves.last());
        if exists|j: int| 0 <= j < moves.len() && #[trigger] moves[j] == (had, has) {
            let j = choose|j: int| 0 <= j < moves.len() && #[trigger] moves[j] == (had, has);
            if j < rest.len() {
                assert(rest[j] == (had, has));
            }
        }
        if exists|j: int| 0 <= j < rest.len() && #[trigger] rest[j] == (had, has) {
            let j = choose|j: int| 0 <= j < rest.len() && #[trigger] rest[j] == (had, has);
            assert(moves[j] == (had, has));
        }
    }
}

/// What was held at the uid that an app had is held at the uid it has, and
/// nothing else is, however many apps trade uids. (A uid that apps of several
/// uids come to share has one entry for all of them.)
pub proof fn an_app_finds_its_entry<V>(m: Map<u32, V>, moves: Seq<(u32, u32)>, i: int)
    requires
        0 <= i < moves.len(),
        forall|j: int|
            0 <= j < moves.len() && (#[trigger] moves[j]).1 == moves[i].1 ==> moves[j].0
                == moves[i].0,
    ensures
        handed_over(m, moves[i].0, relocated(m, moves), moves[i].1),
{
    let (had, has) = moves[i];
    lemma_arrived(staying(m, moves), m, moves, had, has);
    assert(moves[i] == (had, has));
    if had != has {
        assert(traded(moves, has));
        if stays(moves, has) {
            let j = choose|j: int| 0 <= j < moves.len() && #[trigger] moves[j] == (has, has);
            assert(moves[j].1 == has);
        }
    } else {
        assert(stays(moves, has));
    }
}

proof fn lemma_nothing_arrives<V>(
    base: Map<u32, V>,
    m: Map<u32, V>,
    moves: Seq<(u32, u32)>,
    uid: u32,
)
    requires
        forall|j: int|
            0 <= j < moves.len() && (#[trigger] moves[j]).1 == uid ==> moves[j].0 == uid,
    ensures
        handed_over(base, uid, arrived(base, m, moves), uid),
{
    lemma_arrived(base, m, moves, uid, uid);
}

/// The entry of a uid that no app trades stays where it is.
pub proof fn an_untraded_uid_keeps_its_entry<V>(m: Map<u32, V>, moves: Seq<(u32, u32)>, uid: u32)
    requires
        !traded(moves, uid),
    ensures
        handed_over(m, uid, relocated(m, moves), uid),
{
    assert forall|j: int| 0 <= j < moves.len() && (#[trigger] moves[j]).1 == uid implies moves[j].0
        == uid by {
        if moves[j].0 != uid {
            assert(traded(moves, uid));
        }
    }
    lemma_nothing_arrives(staying(m, moves), m, moves, uid);
}

/// Nothing is left at a uid that some app gave up and none has.
pub proof fn a_uid_given_up_has_no_entry<V>(m: Map<u32, V>, moves: Seq<(u32, u32)>, i: int)
    requires
        0 <= i < moves.len(),
        forall|j: int| 0 <= j < moves.len() ==> (#[trigger] moves[j]).1 != moves[i].0,
    ensures
        !relocated(m, moves).contains_key(moves[i].0),
{
    let had = moves[i].0;
    assert(moves[i].1 != had);
    assert(traded(moves, had));
    lemma_nothing_arrives(staying(m, moves), m, moves, had);
}

/// A counter holds what was put into it, and nothing where nothing was.
pub proof fn a_counter_holds_what_was_put_in(m: Map<u32, u64>, k: u32, v: u64, other: u32)
    ensures
        count_of(m.insert(k, v), k) == v,
        count_of(m.remove(k), k) == 0,
        count_of(Map::empty(), k) == 0,
        other != k ==> count_of(m.insert(k, v), other) == count_of(m, other),
        m.contains_key(k) ==> count_of(m, k) == m[k],
{
}

proof fn lemma_source<V>(base: Map<u32, V>, m: Map<u32, V>, moves: Seq<(u32, u32)>, uid: u32)
    requires
        arrived(base, m, moves).contains_key(uid),
    ensures
        handed_over(base, uid, arrived(base, m, moves), uid) || exists|i: int|
            0 <= i < moves.len() && (#[trigger] moves[i]).1 == uid && moves[i].0 != uid
                && m.contains_key(moves[i].0) && arrived(base, m, moves)[uid] == m[moves[i].0],
    decreases moves.len(),
{
    if moves.len() > 0 {
        let rest = moves.drop_last();
        let last = moves[moves.len() - 1];
        assert(last == moves.last());
        if !(last.0 != last.1 && m.contains_key(last.0) && last.1 == uid) {
            lemma_source(base, m, rest, uid);
            if !handed_over(base, uid, arrived(base, m, rest), uid) {
                let i = choose|i: int|
                    0 <= i < rest.len() && (#[trigger] rest[i]).1 == uid && rest[i].0 != uid
                        && m.contains_key(rest[i].0) && arrived(base, m, rest)[uid] == m[rest[i].0];
                assert(moves[i] == rest[i]);
            }
        }
    }
}

/// Nothing comes out of nowhere: what a uid holds afterwards was held by it before,
/// or by a uid that one of its apps had.
pub proof fn every_entry_was_held_before<V>(m: Map<u32, V>, moves: Seq<(u32, u32)>, uid: u32)
    requires
        relocated(m, moves).contains_key(uid),
    ensures
        m.contains_key(uid) && relocated(m, moves)[uid] == m[uid] || exists|i: int|
            0 <= i < moves.len() && (#[trigger] moves[i]).1 == uid && m.contains_key(moves[i].0)
                && relocated(m, moves)[uid] == m[moves[i].0],
{
    lemma_source(staying(m, moves), m, moves, uid);
}

/// An app that changes its uid finds an entry wherever it had one, even where it
/// comes to share the uid with others.
pub proof fn no_entry_is_lost<V>(m: Map<u32, V>, moves: Seq<(u32, u32)>, i: int)
    requires
        0 <= i < moves.len(),
        m.contains_key(moves[i].0),
    ensures
        relocated(m, moves).contains_key(moves[i].1),
{
    if moves[i].0 == moves[i].1 {
        assert(stays(moves, moves[i].0));
    }
    lemma_arrives(staying(m, moves), m, moves, i);
}

proof fn lemma_arrives<V>(base: Map<u32, V>, m: Map<u32, V>, moves: Seq<(u32, u32)>, i: int)
    requires
        0 <= i < moves.len(),
        m.contains_key(moves[i].0),
        moves[i].0 == moves[i].1 ==> base.contains_key(moves[i].1),
    ensures
        arrived(base, m, moves).contains_key(moves[i].1),
    decreases moves.len(),
{
    let rest = moves.drop_last();
    if i < rest.len() {
        assert(rest[i] == moves[i]);
        lemma_arrives(base, m, rest, i);
    } else if moves[i].0 == moves[i].1 {
        lemma_base_stays(base, m, rest, moves[i].1);
    }
}

proof fn lemma_base_stays<V>(base: Map<u32, V>, m: Map<u32, V>, moves: Seq<(u32, u32)>, uid: u32)
    requires
        base.contains_key(uid),
    ensures
        arrived(base, m, moves).contains_key(uid),
    decreases moves.len(),
{
    if moves.len() > 0 {
        lemma_base_stays(base, m, moves.drop_last(), uid);
    }
}

} // verus!
