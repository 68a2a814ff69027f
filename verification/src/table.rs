//! Sets and maps over strings, kept in ascending order of their keys.

use vstd::prelude::*;

use crate::text::{chars_of, str_eq, views};

verus! {

// ---------------------------------------------------------------------------
// The order of strings
// ---------------------------------------------------------------------------

/// The dictionary order of strings, by code point: a proper prefix comes first.
pub open spec fn precedes(a: Seq<char>, b: Seq<char>) -> bool
    decreases a.len(),
{
    if b.len() == 0 {
        false
    } else if a.len() == 0 {
        true
    } else if a[0] != b[0] {
        a[0] < b[0]
    } else {
        precedes(a.drop_first(), b.drop_first())
    }
}

/// No string precedes itself.
pub proof fn precedes_irreflexive(a: Seq<char>)
    ensures
        !precedes(a, a),
    decreases a.len(),
{
    if a.len() > 0 {
        precedes_irreflexive(a.drop_first());
    }
}

/// The order is transitive.
pub proof fn precedes_transitive(a: Seq<char>, b: Seq<char>, c: Seq<char>)
    requires
        precedes(a, b),
        precedes(b, c),
    ensures
        precedes(a, c),
    decreases a.len(),
{
    if a.len() > 0 && a[0] == b[0] && b[0] == c[0] {
        precedes_transitive(a.drop_first(), b.drop_first(), c.drop_first());
    }
}

/// Of two different strings one precedes the other.
pub proof fn precedes_total(a: Seq<char>, b: Seq<char>)
    ensures
        a == b || precedes(a, b) || precedes(b, a),
    decreases a.len(),
{
    if a.len() > 0 && b.len() > 0 && a[0] == b[0] {
        precedes_total(a.drop_first(), b.drop_first());
        if a.drop_first() == b.drop_first() {
            assert(a =~= seq![a[0]] + a.drop_first());
            assert(b =~= seq![b[0]] + b.drop_first());
        }
    } else if a.len() == 0 && b.len() == 0 {
        assert(a =~= b);
    }
}

/// Strings that agree up to position `n` are ordered as their rests are.
proof fn lemma_precedes_skip(a: Seq<char>, b: Seq<char>, n: int)
    requires
        0 <= n <= a.len(),
        n <= b.len(),
        forall|i: int| 0 <= i < n ==> a[i] == b[i],
    ensures
        precedes(a, b) == precedes(a.skip(n), b.skip(n)),
    decreases n,
{
    if n > 0 {
        assert(a[0] == b[0]);
        assert forall|i: int| 0 <= i < n - 1 implies a.drop_first()[i] == b.drop_first()[i] by {
            assert(a[i + 1] == b[i + 1]);
        }
        lemma_precedes_skip(a.drop_first(), b.drop_first(), n - 1);
        assert(a.drop_first().skip(n - 1) =~= a.skip(n));
        assert(b.drop_first().skip(n - 1) =~= b.skip(n));
    } else {
        assert(a.skip(0) =~= a);
        assert(b.skip(0) =~= b);
    }
}

/// Whether `a` precedes `b`.
pub fn str_less(a: &str, b: &str) -> (r: bool)
    ensures
        r == precedes(a@, b@),
{
    let ca = chars_of(a);
    let cb = chars_of(b);
    let mut i: usize = 0;
    while i < ca.len() && i < cb.len() && ca[i] == cb[i]
        invariant
            i <= ca@.len(),
            i <= cb@.len(),
            forall|k: int| 0 <= k < i ==> ca@[k] == cb@[k],
        decreases ca@.len() - i,
    {
        i = i + 1;
    }
    proof {
        lemma_precedes_skip(ca@, cb@, i as int);
    }
    if i == cb.len() {
        false
    } else if i == ca.len() {
        true
    } else {
        ca[i] < cb[i]
    }
}

/// Whether the strings of `s` stand in strictly ascending order.
pub open spec fn ascending(s: Seq<Seq<char>>) -> bool {
    forall|i: int, j: int| 0 <= i < j < s.len() ==> precedes(#[trigger] s[i], #[trigger] s[j])
}

/// Strings in strictly ascending order are different.
pub proof fn ascending_distinct(s: Seq<Seq<char>>)
    requires
        ascending(s),
    ensures
        s.no_duplicates(),
{
    assert forall|i: int, j: int| 0 <= i < s.len() && 0 <= j < s.len() && i != j implies s[i]
        != s[j] by {
        precedes_irreflexive(s[i]);
        if i < j {
            assert(precedes(s[i], s[j]));
        } else {
            assert(precedes(s[j], s[i]));
        }
    }
}

/// Where `k` stands in the ascending `keys`, or where it would have to be put.
fn search(keys: &Vec<String>, k: &str) -> (r: (usize, bool))
    requires
        ascending(views(keys@)),
    ensures
        r.0 <= keys@.len(),
        r.1 == views(keys@).contains(k@),
        r.1 ==> r.0 < keys@.len() && keys@[r.0 as int]@ == k@,
        !r.1 ==> forall|i: int| 0 <= i < r.0 ==> precedes(#[trigger] keys@[i]@, k@),
        !r.1 ==> forall|i: int|
            r.0 <= i < keys@.len() ==> precedes(k@, #[trigger] keys@[i]@),
{
    let mut i: usize = 0;
    while i < keys.len() && str_less(keys[i].as_str(), k)
        invariant
            i <= keys@.len(),
            forall|j: int| 0 <= j < i ==> precedes(#[trigger] keys@[j]@, k@),
        decreases keys@.len() - i,
    {
        i = i + 1;
    }
    let ghost ks = views(keys@);
    if i < keys.len() && str_eq(keys[i].as_str(), k) {
        assert(ks[i as int] == k@);
        (i, true)
    } else {
        proof {
            if i < keys@.len() {
                precedes_total(keys@[i as int]@, k@);
            }
            assert forall|j: int| i <= j < keys@.len() implies precedes(
                k@,
                #[trigger] keys@[j]@,
            ) by {
                if j > i {
                    assert(precedes(ks[i as int], ks[j]));
                    precedes_transitive(k@, keys@[i as int]@, keys@[j]@);
                }
            }
            if ks.contains(k@) {
                let j = ks.index_of(k@);
                assert(keys@[j]@ == k@);
                precedes_irreflexive(k@);
                if j < i {
                    assert(precedes(keys@[j]@, k@));
                } else {
                    assert(precedes(k@, keys@[j]@));
                }
            }
        }
        (i, false)
    }
}

/// Putting a new string at its place keeps the order.
proof fn lemma_insert_ascending(s: Seq<Seq<char>>, k: Seq<char>, n: int)
    requires
        ascending(s),
        0 <= n <= s.len(),
        forall|i: int| 0 <= i < n ==> precedes(#[trigger] s[i], k),
        forall|i: int| n <= i < s.len() ==> precedes(k, #[trigger] s[i]),
    ensures
        ascending(s.insert(n, k)),
{
    let t = s.insert(n, k);
    assert forall|i: int, j: int| 0 <= i < j < t.len() implies precedes(
        #[trigger] t[i],
        #[trigger] t[j],
    ) by {
        let a = if i < n { i } else { i - 1 };
        let b = if j < n { j } else { j - 1 };
        if i != n && j != n {
            assert(t[i] == s[a] && t[j] == s[b]);
        } else if i == n {
            assert(t[j] == s[b]);
        } else {
            assert(t[i] == s[a]);
        }
    }
}

// ---------------------------------------------------------------------------
// Sets of strings
// ---------------------------------------------------------------------------

/// A set of strings, walked in ascending order.
#[derive(Debug, Clone)]
pub struct StrSet {
    items: Vec<String>,
}

impl View for StrSet {
    type V = Set<Seq<char>>;

    open spec fn view(&self) -> Set<Seq<char>> {
        self.seq().to_set()
    }
}

impl StrSet {
    /// The strings of the set, in the order in which they are walked.
    pub closed spec fn seq(&self) -> Seq<Seq<char>> {
        views(self.items@)
    }

    /// The strings stand in strictly ascending order.
    pub open spec fn wf(&self) -> bool {
        ascending(self.seq())
    }

    /// The empty set.
    pub fn new() -> (r: Self)
        ensures
            r.wf(),
            r.seq() == Seq::<Seq<char>>::empty(),
            r@ == Set::<Seq<char>>::empty(),
    {
        let r = StrSet { items: Vec::new() };
        assert(r.seq() =~= Seq::<Seq<char>>::empty());
        assert(r@ =~= Set::<Seq<char>>::empty());
        r
    }

    /// How many strings the set holds.
    pub fn len(&self) -> (r: usize)
        ensures
            r == self.seq().len(),
    {
        self.items.len()
    }

    /// The string at position `i`.
    pub fn at(&self, i: usize) -> (r: &String)
        requires
            i < self.seq().len(),
        ensures
            r@ == self.seq()[i as int],
            self@.contains(r@),
    {
        assert(self.seq()[i as int] == self.items@[i as int]@);
        &self.items[i]
    }

    /// The strings of the set, in ascending order.
    pub fn to_vec(&self) -> (r: Vec<String>)
        ensures
            views(r@) == self.seq(),
    {
        let mut r: Vec<String> = Vec::new();
        let mut i: usize = 0;
        while i < self.items.len()
            invariant
                i <= self.items@.len(),
                r@.len() == i,
                forall|j: int| 0 <= j < i ==> (#[trigger] r@[j])@ == self.items@[j]@,
            decreases self.items@.len() - i,
        {
            r.push(self.items[i].clone());
            i = i + 1;
        }
        assert(views(r@) =~= self.seq());
        r
    }

    /// Whether the set holds `k`.
    pub fn contains(&self, k: &str) -> (r: bool)
        ensures
            r == self@.contains(k@),
    {
        let mut i: usize = 0;
        while i < self.items.len()
            invariant
                i <= self.items@.len(),
                forall|j: int| 0 <= j < i ==> self.items@[j]@ != k@,
            decreases self.items@.len() - i,
        {
            if str_eq(self.items[i].as_str(), k) {
                assert(self.seq()[i as int] == k@);
                return true;
            }
            i = i + 1;
        }
        assert forall|j: int| 0 <= j < self.seq().len() implies self.seq()[j] != k@ by {
            assert(self.seq()[j] == self.items@[j]@);
        }
        false
    }

    /// Adds `k`; whether it was not there before.
    pub fn insert(&mut self, k: String) -> (r: bool)
        requires
            old(self).wf(),
        ensures
            final(self).wf(),
            final(self)@ == old(self)@.insert(k@),
            r == !old(self)@.contains(k@),
    {
        let (n, found): (usize, bool) = search(&self.items, k.as_str());
        if found {
            assert(self@ =~= old(self)@.insert(k@));
            return false;
        }
        let ghost ks = self.seq();
        let ghost kv = k@;
        self.items.insert(n, k);
        proof {
            assert(self.seq() =~= ks.insert(n as int, kv));
            assert forall|i: int| 0 <= i < n implies precedes(#[trigger] ks[i], kv) by {
                assert(ks[i] == old(self).items@[i]@);
            }
            assert forall|i: int| n <= i < ks.len() implies precedes(kv, #[trigger] ks[i]) by {
                assert(ks[i] == old(self).items@[i]@);
            }
            lemma_insert_ascending(ks, kv, n as int);
            lemma_insert_to_set(ks, kv, n as int);
        }
        true
    }
}

/// Inserting into a sequence adds one member.
proof fn lemma_insert_to_set<A>(s: Seq<A>, a: A, n: int)
    requires
        0 <= n <= s.len(),
    ensures
        s.insert(n, a).to_set() == s.to_set().insert(a),
{
    let t = s.insert(n, a);
    assert forall|x: A| #[trigger] t.to_set().contains(x) == s.to_set().insert(a).contains(x) by {
        if t.contains(x) {
            let i = t.index_of(x);
            if i < n {
                assert(s[i] == x);
            } else if i > n {
                assert(s[i - 1] == x);
            }
        }
        if s.contains(x) {
            let i = s.index_of(x);
            if i < n {
                assert(t[i] == x);
            } else {
                assert(t[i + 1] == x);
            }
        }
        if x == a {
            assert(t[n] == x);
        }
    }
    assert(t.to_set() =~= s.to_set().insert(a));
}

// ---------------------------------------------------------------------------
// Maps from strings
// ---------------------------------------------------------------------------

/// A map from strings, walked in ascending order of its keys.
#[derive(Debug, Clone)]
pub struct StrMap<V> {
    keys: Vec<String>,
    vals: Vec<V>,
}

impl<V> View for StrMap<V> {
    type V = Map<Seq<char>, V>;

    closed spec fn view(&self) -> Map<Seq<char>, V> {
        Map::new(
            |k: Seq<char>| self.keys().contains(k),
            |k: Seq<char>| self.vals()[self.keys().index_of(k)],
        )
    }
}

impl<V> StrMap<V> {
    /// The keys, in the order in which they are walked.
    pub closed spec fn keys(&self) -> Seq<Seq<char>> {
        views(self.keys@)
    }

    /// The values, in the order of their keys.
    pub closed spec fn vals(&self) -> Seq<V> {
        self.vals@
    }

    /// One value for each key, and the keys in strictly ascending order.
    pub open spec fn wf(&self) -> bool {
        &&& self.keys().len() == self.vals().len()
        &&& ascending(self.keys())
    }

    /// Each key is mapped to the value at its position.
    pub proof fn lemma_entry(&self, i: int)
        requires
            self.wf(),
            0 <= i < self.keys().len(),
        ensures
            self@.contains_key(self.keys()[i]),
            self@[self.keys()[i]] == self.vals()[i],
    {
        ascending_distinct(self.keys());
        assert(self.keys().contains(self.keys()[i]));
    }

    /// A key of the map stands at some position.
    pub proof fn lemma_key(&self, k: Seq<char>)
        ensures
            self@.contains_key(k) == self.keys().contains(k),
            self@.contains_key(k) ==> 0 <= self.keys().index_of(k) < self.keys().len()
                && self.keys()[self.keys().index_of(k)] == k && self@[k]
                == self.vals()[self.keys().index_of(k)],
    {
    }

    /// The empty map.
    pub fn new() -> (r: Self)
        ensures
            r.wf(),
            r.keys() == Seq::<Seq<char>>::empty(),
            r@ == Map::<Seq<char>, V>::empty(),
    {
        let r = StrMap { keys: Vec::new(), vals: Vec::new() };
        assert(r.keys() =~= Seq::<Seq<char>>::empty());
        assert(r@ =~= Map::<Seq<char>, V>::empty());
        r
    }

    /// How many entries the map holds.
    pub fn len(&self) -> (r: usize)
        ensures
            r == self.keys().len(),
    {
        self.keys.len()
    }

    /// The key at position `i`.
    pub fn key_at(&self, i: usize) -> (r: &String)
        requires
            i < self.keys().len(),
        ensures
            r@ == self.keys()[i as int],
    {
        assert(self.keys()[i as int] == self.keys@[i as int]@);
        &self.keys[i]
    }

    /// The value at position `i`.
    pub fn val_at(&self, i: usize) -> (r: &V)
        requires
            self.wf(),
            i < self.keys().len(),
        ensures
            *r == self.vals()[i as int],
    {
        &self.vals[i]
    }

    /// The value at position `i`, to be changed in place.
    pub fn val_mut(&mut self, i: usize) -> (r: &mut V)
        requires
            old(self).wf(),
            i < old(self).keys().len(),
        ensures
            *r == old(self).vals()[i as int],
            final(self).keys() == old(self).keys(),
            final(self).vals() == old(self).vals().update(i as int, *final(r)),
            final(self).wf(),
    {
        &mut self.vals[i]
    }

    /// The value of `k`, where it has one.
    pub fn get(&self, k: &str) -> (r: Option<&V>)
        requires
            self.wf(),
        ensures
            match r {
                Some(v) => self@.contains_key(k@) && *v == self@[k@],
                None => !self@.contains_key(k@),
            },
    {
        let (n, found): (usize, bool) = search(&self.keys, k);
        if found {
            proof {
                self.lemma_entry(n as int);
            }
            Some(&self.vals[n])
        } else {
            None
        }
    }

    /// Whether `k` has a value.
    pub fn contains_key(&self, k: &str) -> (r: bool)
        requires
            self.wf(),
        ensures
            r == self@.contains_key(k@),
    {
        search(&self.keys, k).1
    }

    /// Gives `k` the value `v`.
    pub fn insert(&mut self, k: String, v: V)
        requires
            old(self).wf(),
        ensures
            final(self).wf(),
            final(self)@ == old(self)@.insert(k@, v),
    {
        let (n, found): (usize, bool) = search(&self.keys, k.as_str());
        let ghost ks = self.keys();
        let ghost vs = self.vals();
        let ghost kv = k@;
        proof {
            ascending_distinct(ks);
        }
        if found {
            self.vals.set(n, v);
            proof {
                assert(ks[n as int] == kv);
                assert forall|j: int| 0 <= j < ks.len() && j != n implies ks[j] != kv by {}
                assert forall|x: Seq<char>| #[trigger]
                    self@.contains_key(x) implies self@[x] == old(self)@.insert(kv, v)[x] by {
                    let j = ks.index_of(x);
                    assert(ks[j] == x);
                }
                assert(self@ =~= old(self)@.insert(kv, v));
            }
        } else {
            self.keys.insert(n, k);
            self.vals.insert(n, v);
            proof {
                assert(self.keys() =~= ks.insert(n as int, kv));
                assert(self.vals() == vs.insert(n as int, v));
                assert forall|i: int| 0 <= i < n implies precedes(#[trigger] ks[i], kv) by {
                    assert(ks[i] == old(self).keys@[i]@);
                }
                assert forall|i: int| n <= i < ks.len() implies precedes(kv, #[trigger] ks[i]) by {
                    assert(ks[i] == old(self).keys@[i]@);
                }
                lemma_insert_ascending(ks, kv, n as int);
                ascending_distinct(self.keys());
                lemma_insert_to_set(ks, kv, n as int);
                assert forall|x: Seq<char>|
                    #![trigger self@.contains_key(x)]
                    self@.contains_key(x) == old(self)@.insert(kv, v).contains_key(x) by {
                    assert(self.keys().to_set().contains(x) == ks.to_set().insert(kv).contains(x));
                }
                assert forall|x: Seq<char>| #[trigger]
                    self@.contains_key(x) implies self@[x] == old(self)@.insert(kv, v)[x] by {
                    let j = self.keys().index_of(x);
                    assert(self.keys()[j] == x);
                    if x == kv {
                        assert(self.keys()[n as int] == kv);
                    } else {
                        let i = ks.index_of(x);
                        assert(ks.contains(x));
                        assert(ks[i] == x);
                        let i2 = if i < n { i } else { i + 1 };
                        assert(self.keys()[i2] == x);
                        assert(j == i2);
                    }
                }
                assert(self@ =~= old(self)@.insert(kv, v));
            }
        }
    }

    /// Takes the entry of `k` out, where there is one.
    pub fn remove(&mut self, k: &str)
        requires
            old(self).wf(),
        ensures
            final(self).wf(),
            final(self)@ == old(self)@.remove(k@),
    {
        let (n, found): (usize, bool) = search(&self.keys, k);
        let ghost ks = self.keys();
        let ghost vs = self.vals();
        let ghost kv = k@;
        proof {
            ascending_distinct(ks);
        }
        if found {
            let _ = self.keys.remove(n);
            let _ = self.vals.remove(n);
            proof {
                assert(ks[n as int] == kv);
                let ks2 = self.keys();
                assert(ks2 =~= ks.remove(n as int));
                assert forall|i: int, j: int| 0 <= i < j < ks2.len() implies precedes(
                    #[trigger] ks2[i],
                    #[trigger] ks2[j],
                ) by {
                    let a = if i < n { i } else { i + 1 };
                    let b = if j < n { j } else { j + 1 };
                    assert(ks2[i] == ks[a] && ks2[j] == ks[b]);
                }
                ascending_distinct(ks2);
                assert forall|x: Seq<char>|
                    #![trigger self@.contains_key(x)]
                    self@.contains_key(x) == old(self)@.remove(kv).contains_key(x) by {
                    if ks2.contains(x) {
                        let i = ks2.index_of(x);
                        let a = if i < n { i } else { i + 1 };
                        assert(ks[a] == x);
                        assert(ks[a] != ks[n as int]);
                    }
                    if ks.contains(x) && x != kv {
                        let i = ks.index_of(x);
                        let a = if i < n { i } else { i - 1 };
                        assert(ks2[a] == x);
                    }
                }
                assert forall|x: Seq<char>| #[trigger]
                    self@.contains_key(x) implies self@[x] == old(self)@.remove(kv)[x] by {
                    let i = ks2.index_of(x);
                    let a = if i < n { i } else { i + 1 };
                    assert(ks2[i] == x);
                    assert(ks[a] == x);
                    assert(ks.index_of(x) == a);
                    assert(x != kv);
                }
                assert(self@ =~= old(self)@.remove(kv));
            }
        } else {
            assert(self@ =~= old(self)@.remove(kv));
        }
    }

    /// A copy of the map.
    pub fn copied(&self) -> (r: Self) where V: Copy
        requires
            self.wf(),
        ensures
            r.wf(),
            r.keys() == self.keys(),
            r.vals() == self.vals(),
            r@ == self@,
    {
        let mut keys: Vec<String> = Vec::new();
        let mut vals: Vec<V> = Vec::new();
        let mut i: usize = 0;
        while i < self.keys.len()
            invariant
                self.wf(),
                i <= self.keys@.len(),
                keys@.len() == i,
                vals@ =~= self.vals@.take(i as int),
                forall|j: int| 0 <= j < i ==> (#[trigger] keys@[j])@ == self.keys()[j],
            decreases self.keys@.len() - i,
        {
            assert(self.keys()[i as int] == self.keys@[i as int]@);
            keys.push(self.keys[i].clone());
            vals.push(self.vals[i]);
            i = i + 1;
        }
        let r = StrMap { keys, vals };
        assert(r.keys() =~= self.keys());
        assert(r.vals() =~= self.vals());
        assert(r@ =~= self@);
        r
    }

    /// Takes every entry out.
    pub fn clear(&mut self)
        ensures
            final(self).wf(),
            final(self).keys() == Seq::<Seq<char>>::empty(),
            final(self)@ == Map::<Seq<char>, V>::empty(),
    {
        self.keys.clear();
        self.vals.clear();
        assert(self.keys() =~= Seq::<Seq<char>>::empty());
        assert(self@ =~= Map::<Seq<char>, V>::empty());
    }
}

// ---------------------------------------------------------------------------
// Laws
// ---------------------------------------------------------------------------

/// Strings are ordered by their first different character, and a string comes
/// before what it begins.
pub proof fn strings_are_ordered_by_their_first_difference(
    p: Seq<char>,
    a: char,
    x: Seq<char>,
    b: char,
    y: Seq<char>,
)
    requires
        a < b,
    ensures
        precedes(p + seq![a] + x, p + seq![b] + y),
        !precedes(p + seq![b] + y, p + seq![a] + x),
        precedes(p, p + seq![a] + x),
        !precedes(p + seq![a] + x, p),
{
    let n = p.len() as int;
    let (s, t) = (p + seq![a] + x, p + seq![b] + y);
    assert(s.skip(n)[0] == a && t.skip(n)[0] == b);
    lemma_precedes_skip(s, t, n);
    lemma_precedes_skip(t, s, n);
    lemma_precedes_skip(p, s, n);
    lemma_precedes_skip(s, p, n);
    assert(p.skip(n).len() == 0);
}

} // verus!
