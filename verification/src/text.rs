//! Character-level helpers: comparing, searching, trimming, splitting and
//! decimal numbers, each described over the characters of its strings.

use vstd::prelude::*;
use vstd::string::*;

verus! {

/// The characters of each string of a sequence.
pub open spec fn views(v: Seq<String>) -> Seq<Seq<char>> {
    v.map_values(|s: String| s@)
}

/// The characters of `s`, in order.
pub fn chars_of(s: &str) -> (r: Vec<char>)
    ensures
        r@ == s@,
{
    let mut r: Vec<char> = Vec::new();
    for c in it: s.chars()
        invariant
            it.seq() == s@,
            r@ == it.seq().take(it.index()),
    {
        r.push(c);
    }
    r
}

/// Whether two strings hold the same characters.
pub fn str_eq(a: &str, b: &str) -> (r: bool)
    ensures
        r == (a@ == b@),
{
    a.to_owned() == b.to_owned()
}

/// The part of `s` from character `from` up to character `to`.
pub fn slice(s: &str, from: usize, to: usize) -> (r: String)
    requires
        from <= to <= s@.len(),
    ensures
        r@ == s@.subrange(from as int, to as int),
{
    s.substring_char(from, to).to_owned()
}

// ---------------------------------------------------------------------------
// Searching
// ---------------------------------------------------------------------------

/// Position of the first `c` in `s`, or the length of `s` when it has none.
pub open spec fn first_of(s: Seq<char>, c: char) -> int
    decreases s.len(),
{
    if s.len() == 0 || s[0] == c {
        0
    } else {
        1 + first_of(s.drop_first(), c)
    }
}

/// `first_of` is the one position with no `c` before it and a `c`, or the end, at it.
pub proof fn lemma_first_of(s: Seq<char>, c: char, n: int)
    requires
        0 <= n <= s.len(),
        forall|i: int| 0 <= i < n ==> s[i] != c,
        n < s.len() ==> s[n] == c,
    ensures
        first_of(s, c) == n,
    decreases n,
{
    if n > 0 {
        assert(s[0] != c);
        assert forall|i: int| 0 <= i < n - 1 implies s.drop_first()[i] != c by {
            assert(s.drop_first()[i] == s[i + 1]);
        }
        lemma_first_of(s.drop_first(), c, n - 1);
    }
}

/// What `first_of` promises of every string.
pub proof fn lemma_first_of_props(s: Seq<char>, c: char)
    ensures
        0 <= first_of(s, c) <= s.len(),
        forall|i: int| 0 <= i < first_of(s, c) ==> s[i] != c,
        first_of(s, c) < s.len() ==> s[first_of(s, c)] == c,
    decreases s.len(),
{
    if s.len() != 0 && s[0] != c {
        lemma_first_of_props(s.drop_first(), c);
        assert forall|i: int| 0 <= i < first_of(s, c) implies s[i] != c by {
            if i > 0 {
                assert(s[i] == s.drop_first()[i - 1]);
            }
        }
    }
}

/// Position of the first `c` in `s`, or the number of characters when it has none.
pub fn find_char(s: &Vec<char>, c: char) -> (r: usize)
    ensures
        r == first_of(s@, c),
        r <= s@.len(),
{
    let mut i: usize = 0;
    while i < s.len() && s[i] != c
        invariant
            i <= s@.len(),
            forall|k: int| 0 <= k < i ==> s@[k] != c,
        decreases s@.len() - i,
    {
        i = i + 1;
    }
    proof {
        lemma_first_of(s@, c, i as int);
    }
    i
}

/// `s` around its first `c`: what stands before it and what stands after it.
pub open spec fn split_at_first(s: Seq<char>, c: char) -> Option<(Seq<char>, Seq<char>)> {
    let n = first_of(s, c);
    if n < s.len() {
        Some((s.take(n), s.skip(n + 1)))
    } else {
        None
    }
}

/// `s` around its first `c`, or nothing when `c` does not occur.
pub fn split_once(s: &str, c: char) -> (r: Option<(String, String)>)
    ensures
        match r {
            Some(p) => split_at_first(s@, c) == Some((p.0@, p.1@)),
            None => split_at_first(s@, c) is None,
        },
{
    let cs = chars_of(s);
    let n: usize = find_char(&cs, c);
    if n < cs.len() {
        let head = slice(s, 0, n);
        let tail = slice(s, n + 1, cs.len());
        assert(head@ == s@.take(n as int));
        assert(tail@ == s@.skip(n + 1));
        Some((head, tail))
    } else {
        None
    }
}

/// What stands before the first `c` of `s`: all of `s` when it has none.
pub open spec fn before_first(s: Seq<char>, c: char) -> Seq<char> {
    s.take(first_of(s, c))
}

/// What stands before the first `c` of `s`: all of `s` when it has none.
pub fn head_before(s: &str, c: char) -> (r: String)
    ensures
        r@ == before_first(s@, c),
{
    let cs = chars_of(s);
    let n: usize = find_char(&cs, c);
    slice(s, 0, n)
}

/// Whether `p` stands somewhere in `s`.
pub open spec fn has_part(s: Seq<char>, p: Seq<char>) -> bool {
    exists|i: int| 0 <= i <= s.len() - p.len() && #[trigger] s.subrange(i, i + p.len()) == p
}

/// Whether the characters of `p` stand in `s` from position `at` on.
fn part_at(s: &Vec<char>, p: &Vec<char>, at: usize) -> (r: bool)
    requires
        at + p@.len() <= s@.len(),
    ensures
        r == (s@.subrange(at as int, at + p@.len()) == p@),
{
    let n: usize = s.len();
    let mut k: usize = 0;
    while k < p.len()
        invariant
            k <= p@.len(),
            n == s@.len(),
            at + p@.len() <= n,
            forall|j: int| 0 <= j < k ==> s@[at + j] == p@[j],
        decreases p@.len() - k,
    {
        if s[at + k] != p[k] {
            assert(s@.subrange(at as int, at + p@.len())[k as int] != p@[k as int]);
            return false;
        }
        k = k + 1;
    }
    assert(s@.subrange(at as int, at + p@.len()) =~= p@);
    true
}

/// Whether `p` stands somewhere in `s`.
pub fn contains_part(s: &str, p: &str) -> (r: bool)
    ensures
        r == has_part(s@, p@),
{
    let cs = chars_of(s);
    let ps = chars_of(p);
    if ps.len() > cs.len() {
        return false;
    }
    let last: usize = cs.len() - ps.len();
    let mut i: usize = 0;
    loop
        invariant
            cs@ == s@,
            ps@ == p@,
            last == cs@.len() - ps@.len(),
            i <= last,
            forall|j: int| 0 <= j < i ==> #[trigger] s@.subrange(j, j + p@.len()) != p@,
        decreases last - i,
    {
        if part_at(&cs, &ps, i) {
            return true;
        }
        if i == last {
            return false;
        }
        i = i + 1;
    }
}

/// `s` without a leading `p`, where it has one.
pub open spec fn without_prefix(s: Seq<char>, p: Seq<char>) -> Option<Seq<char>> {
    if p.len() <= s.len() && s.take(p.len() as int) == p {
        Some(s.skip(p.len() as int))
    } else {
        None
    }
}

/// `s` without a leading `p`, or nothing when it does not start so.
pub fn strip_prefix(s: &str, p: &str) -> (r: Option<String>)
    ensures
        match r {
            Some(t) => without_prefix(s@, p@) == Some(t@),
            None => without_prefix(s@, p@) is None,
        },
{
    let cs = chars_of(s);
    let ps = chars_of(p);
    if ps.len() <= cs.len() && part_at(&cs, &ps, 0) {
        assert(s@.subrange(0, p@.len() as int) == s@.take(p@.len() as int));
        let t = slice(s, ps.len(), cs.len());
        assert(t@ == s@.skip(p@.len() as int));
        Some(t)
    } else {
        assert(p@.len() <= s@.len() ==> s@.subrange(0, p@.len() as int) == s@.take(
            p@.len() as int,
        ));
        None
    }
}

// ---------------------------------------------------------------------------
// White space
// ---------------------------------------------------------------------------

/// The characters with the Unicode property White_Space.
pub open spec fn is_space(c: char) -> bool {
    ||| 0x09 <= c as u32 <= 0x0d
    ||| c as u32 == 0x20
    ||| c as u32 == 0x85
    ||| c as u32 == 0xa0
    ||| c as u32 == 0x1680
    ||| 0x2000 <= c as u32 <= 0x200a
    ||| c as u32 == 0x2028
    ||| c as u32 == 0x2029
    ||| c as u32 == 0x202f
    ||| c as u32 == 0x205f
    ||| c as u32 == 0x3000
}

/// Whether `c` is white space.
pub fn char_is_space(c: char) -> (r: bool)
    ensures
        r == is_space(c),
{
    let n: u32 = c as u32;
    (0x09 <= n && n <= 0x0d) || n == 0x20 || n == 0x85 || n == 0xa0 || n == 0x1680 || (0x2000 <= n
        && n <= 0x200a) || n == 0x2028 || n == 0x2029 || n == 0x202f || n == 0x205f || n == 0x3000
}

/// `s` without its leading white space.
pub open spec fn trim_start(s: Seq<char>) -> Seq<char>
    decreases s.len(),
{
    if s.len() > 0 && is_space(s[0]) {
        trim_start(s.drop_first())
    } else {
        s
    }
}

/// `s` without its trailing white space.
pub open spec fn trim_end(s: Seq<char>) -> Seq<char>
    decreases s.len(),
{
    if s.len() > 0 && is_space(s.last()) {
        trim_end(s.drop_last())
    } else {
        s
    }
}

/// `s` without white space at either end.
pub open spec fn trimmed(s: Seq<char>) -> Seq<char> {
    trim_end(trim_start(s))
}

/// Dropping leading white space stops at the first other character.
proof fn lemma_trim_start(s: Seq<char>, n: int)
    requires
        0 <= n <= s.len(),
        forall|i: int| 0 <= i < n ==> is_space(s[i]),
        n < s.len() ==> !is_space(s[n]),
    ensures
        trim_start(s) == s.skip(n),
    decreases n,
{
    if n > 0 {
        assert(is_space(s[0]));
        assert forall|i: int| 0 <= i < n - 1 implies is_space(s.drop_first()[i]) by {
            assert(s.drop_first()[i] == s[i + 1]);
        }
        lemma_trim_start(s.drop_first(), n - 1);
        assert(s.drop_first().skip(n - 1) =~= s.skip(n));
    } else {
        assert(s.skip(0) =~= s);
    }
}

/// Dropping trailing white space stops at the last other character.
proof fn lemma_trim_end(s: Seq<char>, n: int)
    requires
        0 <= n <= s.len(),
        forall|i: int| n <= i < s.len() ==> is_space(s[i]),
        n > 0 ==> !is_space(s[n - 1]),
    ensures
        trim_end(s) == s.take(n),
    decreases s.len() - n,
{
    if n < s.len() {
        lemma_trim_end(s.drop_last(), n);
        assert(s.drop_last().take(n) =~= s.take(n));
    } else {
        assert(s.take(n) =~= s);
    }
}

/// The number of characters before the first that is not white space, counted from `from`.
fn skip_spaces(s: &Vec<char>, from: usize) -> (r: usize)
    requires
        from <= s@.len(),
    ensures
        from <= r <= s@.len(),
        s@.skip(r as int) == trim_start(s@.skip(from as int)),
        forall|i: int| from <= i < r ==> is_space(s@[i]),
        r < s@.len() ==> !is_space(s@[r as int]),
{
    let mut i: usize = from;
    while i < s.len() && char_is_space(s[i])
        invariant
            from <= i <= s@.len(),
            forall|k: int| from <= k < i ==> is_space(s@[k]),
        decreases s@.len() - i,
    {
        i = i + 1;
    }
    proof {
        let t = s@.skip(from as int);
        assert forall|k: int| 0 <= k < i - from implies is_space(t[k]) by {
            assert(t[k] == s@[k + from]);
        }
        lemma_trim_start(t, i - from);
        assert(t.skip(i - from) =~= s@.skip(i as int));
    }
    i
}

/// `s` without white space at either end.
pub fn trim(s: &str) -> (r: String)
    ensures
        r@ == trimmed(s@),
{
    let cs = chars_of(s);
    let a: usize = skip_spaces(&cs, 0);
    let mut b: usize = cs.len();
    while b > a && char_is_space(cs[b - 1])
        invariant
            a <= b <= cs@.len(),
            forall|k: int| b <= k < cs@.len() ==> is_space(cs@[k]),
        decreases b - a,
    {
        b = b - 1;
    }
    proof {
        assert(cs@.skip(0) =~= cs@);
        let t = cs@.skip(a as int);
        assert forall|k: int| b - a <= k < t.len() implies is_space(t[k]) by {
            assert(t[k] == cs@[k + a]);
        }
        lemma_trim_end(t, b - a);
        assert(t.take(b - a) =~= cs@.subrange(a as int, b as int));
    }
    slice(s, a, b)
}

/// Position of the first white space in `s`, or the length of `s` when it has none.
pub open spec fn first_space(s: Seq<char>) -> int
    decreases s.len(),
{
    if s.len() == 0 || is_space(s[0]) {
        0
    } else {
        1 + first_space(s.drop_first())
    }
}

proof fn lemma_first_space(s: Seq<char>, n: int)
    requires
        0 <= n <= s.len(),
        forall|i: int| 0 <= i < n ==> !is_space(s[i]),
        n < s.len() ==> is_space(s[n]),
    ensures
        first_space(s) == n,
    decreases n,
{
    if n > 0 {
        assert(!is_space(s[0]));
        assert forall|i: int| 0 <= i < n - 1 implies !is_space(s.drop_first()[i]) by {
            assert(s.drop_first()[i] == s[i + 1]);
        }
        lemma_first_space(s.drop_first(), n - 1);
    }
}

proof fn lemma_first_space_range(s: Seq<char>)
    ensures
        0 <= first_space(s) <= s.len(),
        s.len() > 0 && !is_space(s[0]) ==> first_space(s) > 0,
    decreases s.len(),
{
    if s.len() != 0 && !is_space(s[0]) {
        lemma_first_space_range(s.drop_first());
    }
}

proof fn lemma_trim_start_len(s: Seq<char>)
    ensures
        trim_start(s).len() <= s.len(),
        trim_start(s).len() > 0 ==> !is_space(trim_start(s)[0]),
    decreases s.len(),
{
    if s.len() > 0 && is_space(s[0]) {
        lemma_trim_start_len(s.drop_first());
    }
}

/// The words of `s`: its longest runs of characters other than white space, in order.
pub open spec fn words(s: Seq<char>) -> Seq<Seq<char>>
    decreases s.len(),
    via words_decreases
{
    let t = trim_start(s);
    if t.len() == 0 {
        Seq::empty()
    } else {
        let n = first_space(t);
        seq![t.take(n)] + words(t.skip(n))
    }
}

#[via_fn]
proof fn words_decreases(s: Seq<char>) {
    lemma_trim_start_len(s);
    lemma_first_space_range(trim_start(s));
}

/// The words of `s`, in order.
pub fn split_words(s: &str) -> (r: Vec<String>)
    ensures
        views(r@) == words(s@),
{
    let cs = chars_of(s);
    let mut r: Vec<String> = Vec::new();
    let mut at: usize = 0;
    assert(s@.skip(0) =~= s@);
    assert(views(r@) + words(s@) =~= words(s@));
    loop
        invariant
            cs@ == s@,
            at <= cs@.len(),
            views(r@) + words(s@.skip(at as int)) == words(s@),
        decreases cs@.len() - at,
    {
        let a: usize = skip_spaces(&cs, at);
        if a == cs.len() {
            assert(s@.skip(a as int).len() == 0);
            assert(words(s@.skip(at as int)) =~= Seq::empty());
            assert(views(r@) =~= words(s@));
            return r;
        }
        let mut b: usize = a;
        while b < cs.len() && !char_is_space(cs[b])
            invariant
                a <= b <= cs@.len(),
                forall|k: int| a <= k < b ==> !is_space(cs@[k]),
            decreases cs@.len() - b,
        {
            b = b + 1;
        }
        let w = slice(s, a, b);
        let ghost before = r@;
        proof {
            let t = s@.skip(a as int);
            assert forall|k: int| 0 <= k < b - a implies !is_space(t[k]) by {
                assert(t[k] == s@[k + a]);
            }
            assert(b < cs@.len() ==> t[b - a] == s@[b as int]);
            lemma_first_space(t, b - a);
            assert(t.take(b - a) =~= w@);
            assert(t.skip(b - a) =~= s@.skip(b as int));
        }
        r.push(w);
        proof {
            assert(views(r@) =~= views(before) + seq![w@]);
            assert(views(r@) + words(s@.skip(b as int)) =~= views(before) + (seq![w@] + words(
                s@.skip(b as int),
            )));
        }
        at = b;
    }
}

/// The lines of `s`: its parts between line feeds, in order.
pub open spec fn lines(s: Seq<char>) -> Seq<Seq<char>>
    decreases s.len(),
    via lines_decreases
{
    let n = first_of(s, '\n');
    if n < s.len() {
        seq![s.take(n)] + lines(s.skip(n + 1))
    } else {
        seq![s]
    }
}

#[via_fn]
proof fn lines_decreases(s: Seq<char>) {
    lemma_first_of_props(s, '\n');
}

/// The lines of `s`, in order.
pub fn split_lines(s: &str) -> (r: Vec<String>)
    ensures
        views(r@) == lines(s@),
{
    let cs = chars_of(s);
    let mut r: Vec<String> = Vec::new();
    let mut at: usize = 0;
    assert(s@.skip(0) =~= s@);
    assert(views(r@) + lines(s@) =~= lines(s@));
    loop
        invariant
            cs@ == s@,
            at <= cs@.len(),
            views(r@) + lines(s@.skip(at as int)) == lines(s@),
        decreases cs@.len() - at,
    {
        let mut b: usize = at;
        while b < cs.len() && cs[b] != '\n'
            invariant
                at <= b <= cs@.len(),
                forall|k: int| at <= k < b ==> cs@[k] != '\n',
            decreases cs@.len() - b,
        {
            b = b + 1;
        }
        let w = slice(s, at, b);
        let ghost before = r@;
        proof {
            let t = s@.skip(at as int);
            assert forall|k: int| 0 <= k < b - at implies t[k] != '\n' by {
                assert(t[k] == s@[k + at]);
            }
            assert(b < cs@.len() ==> t[b - at] == s@[b as int]);
            lemma_first_of(t, '\n', b - at);
            assert(t.take(b - at) =~= w@);
            if b < cs@.len() {
                assert(t.skip(b - at + 1) =~= s@.skip(b + 1));
            } else {
                assert(t =~= w@);
            }
        }
        r.push(w);
        assert(views(r@) =~= views(before) + seq![w@]);
        if b == cs.len() {
            return r;
        }
        assert(views(r@) + lines(s@.skip(b + 1)) =~= views(before) + (seq![w@] + lines(
            s@.skip(b + 1),
        )));
        at = b + 1;
    }
}

// ---------------------------------------------------------------------------
// Laws
// ---------------------------------------------------------------------------

/// Text is split around its first separator: what was joined comes apart again.
pub proof fn a_join_is_split_again(head: Seq<char>, c: char, tail: Seq<char>)
    requires
        !head.contains(c),
    ensures
        split_at_first(head + seq![c] + tail, c) == Some((head, tail)),
        before_first(head + seq![c] + tail, c) == head,
{
    let s = head + seq![c] + tail;
    let n = head.len() as int;
    assert forall|i: int| 0 <= i < n implies s[i] != c by {
        assert(s[i] == head[i]);
        assert(head.contains(head[i]));
    }
    assert(s[n] == c);
    lemma_first_of(s, c, n);
    assert(s.take(n) =~= head);
    assert(s.skip(n + 1) =~= tail);
}

/// Text without the separator is not split.
pub proof fn nothing_to_split(s: Seq<char>, c: char)
    requires
        !s.contains(c),
    ensures
        split_at_first(s, c) is None,
        before_first(s, c) == s,
{
    assert forall|i: int| 0 <= i < s.len() implies s[i] != c by {
        assert(s.contains(s[i]));
    }
    lemma_first_of(s, c, s.len() as int);
    assert(s.take(s.len() as int) =~= s);
}

/// A prefix is taken off exactly where the text starts with it.
pub proof fn a_prefix_comes_off(p: Seq<char>, rest: Seq<char>, s: Seq<char>)
    ensures
        without_prefix(p + rest, p) == Some(rest),
        without_prefix(s, p) matches Some(t) ==> s == p + t,
{
    assert((p + rest).take(p.len() as int) =~= p);
    assert((p + rest).skip(p.len() as int) =~= rest);
    if let Some(t) = without_prefix(s, p) {
        assert(s =~= p + t);
    }
}

/// Text has a part exactly when it is that part with something around it.
pub proof fn a_part_stands_inside(a: Seq<char>, p: Seq<char>, b: Seq<char>, s: Seq<char>)
    ensures
        has_part(a + p + b, p),
        has_part(s, p) ==> exists|x: Seq<char>, y: Seq<char>| s == #[trigger] (x + p + y),
{
    let t = a + p + b;
    let n = a.len() as int;
    assert(t.subrange(n, n + p.len()) =~= p);
    if has_part(s, p) {
        let i = choose|i: int| 0 <= i <= s.len() - p.len() && #[trigger] s.subrange(i, i + p.len()) == p;
        let (x, y) = (s.take(i), s.skip(i + p.len()));
        assert(s =~= x + p + y);
    }
}

/// Whether `s` is white space only.
pub open spec fn is_blank(s: Seq<char>) -> bool {
    forall|i: int| 0 <= i < s.len() ==> is_space(#[trigger] s[i])
}

/// Whether `s` is something, and starts and ends with something other than white
/// space.
pub open spec fn is_tight(s: Seq<char>) -> bool {
    s.len() > 0 && !is_space(s[0]) && !is_space(s.last())
}

/// Trimming takes off the white space around a text, and nothing of the text.
pub proof fn trimming_takes_off_white_space(a: Seq<char>, s: Seq<char>, b: Seq<char>)
    requires
        is_blank(a),
        is_blank(b),
        is_tight(s) || s.len() == 0,
    ensures
        trimmed(a + s + b) == s,
{
    let t = a + s + b;
    if s.len() > 0 {
        let n = a.len() as int;
        assert forall|i: int| 0 <= i < n implies is_space(t[i]) by {
            assert(t[i] == a[i]);
        }
        assert(t[n] == s[0]);
        lemma_trim_start(t, n);
        let u = t.skip(n);
        let k = s.len() as int;
        assert forall|i: int| k <= i < u.len() implies is_space(u[i]) by {
            assert(u[i] == b[i - k]);
        }
        assert(u[k - 1] == s.last());
        lemma_trim_end(u, k);
        assert(u.take(k) =~= s);
    } else {
        assert forall|i: int| 0 <= i < t.len() implies is_space(t[i]) by {
            if i < a.len() {
                assert(t[i] == a[i]);
            } else {
                assert(t[i] == b[i - a.len()]);
            }
        }
        lemma_trim_start(t, t.len() as int);
        assert(trim_start(t) =~= Seq::<char>::empty());
        assert(trimmed(t) =~= s);
    }
}

/// White space alone has no words.
pub proof fn blank_text_has_no_words(s: Seq<char>)
    requires
        is_blank(s),
    ensures
        words(s) == Seq::<Seq<char>>::empty(),
{
    lemma_trim_start(s, s.len() as int);
    assert(trim_start(s).len() == 0);
}

/// The first word of a text is what stands, behind any white space, before the
/// next; the others are those of the rest.
pub proof fn a_word_ends_at_white_space(a: Seq<char>, w: Seq<char>, rest: Seq<char>)
    requires
        is_blank(a),
        w.len() > 0,
        forall|i: int| 0 <= i < w.len() ==> !is_space(#[trigger] w[i]),
        rest.len() > 0 ==> is_space(rest[0]),
    ensures
        words(a + w + rest) == seq![w] + words(rest),
{
    let s = a + w + rest;
    let n = a.len() as int;
    assert forall|i: int| 0 <= i < n implies is_space(s[i]) by {
        assert(s[i] == a[i]);
    }
    assert(s[n] == w[0]);
    lemma_trim_start(s, n);
    let t = trim_start(s);
    assert(t =~= w + rest);
    assert forall|i: int| 0 <= i < w.len() implies !is_space(t[i]) by {
        assert(t[i] == w[i]);
    }
    if rest.len() > 0 {
        assert(t[w.len() as int] == rest[0]);
    }
    lemma_first_space(t, w.len() as int);
    assert(t.take(w.len() as int) =~= w);
    assert(t.skip(w.len() as int) =~= rest);
}

/// The lines of a text are its parts between line feeds.
pub proof fn a_line_ends_at_a_line_feed(line: Seq<char>, rest: Seq<char>)
    requires
        !line.contains('\n'),
    ensures
        lines(line) == seq![line],
        lines(line + seq!['\n'] + rest) == seq![line] + lines(rest),
{
    let n = line.len() as int;
    let s = line + seq!['\n'] + rest;
    assert forall|i: int| 0 <= i < n implies line[i] != '\n' && s[i] != '\n' by {
        assert(line.contains(line[i]));
        assert(s[i] == line[i]);
    }
    lemma_first_of(line, '\n', n);
    assert(s[n] == '\n');
    lemma_first_of(s, '\n', n);
    assert(s.take(n) =~= line);
    assert(s.skip(n + 1) =~= rest);
}

} // verus!
