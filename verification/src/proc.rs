//! Who a process is.

use std::collections::HashMap;

use vstd::prelude::*;
use vstd::slice::slice_subrange;
use vstd::utf8::{decode_utf8, pop_first_scalar, valid_utf8, valid_utf8_concat};

use crate::number::{decimal, i32_of, parse_i32, signs_are_read};
use crate::text::{
    before_first, first_of, head_before, is_blank, is_space, is_tight, lemma_first_of,
    lemma_first_of_props, nothing_to_split, split_words, trim, trimmed, trimming_takes_off_white_space,
    views, words,
};

verus! {

broadcast use vstd::std_specs::hash::group_hash_axioms;

/// Is this uid blocked, according to a mirror of the kernel's block map?
pub fn uid_in(set: &HashMap<u32, u8>, uid: u32) -> (r: bool)
    ensures
        r == set@.contains_key(uid),
{
    set.contains_key(&uid)
}

/// The text that bytes stand for, with each part that is not UTF-8 replaced.
pub uninterp spec fn lossy_text(bytes: Seq<u8>) -> Seq<char>;

/// Calls `String::from_utf8_lossy`: the result depends on the bytes alone, and
/// bytes that are UTF-8 are decoded as they are. Which replacement characters
/// stand for other bytes is left unsaid.
#[verifier::external_body]
pub(crate) fn utf8_lossy(bytes: &[u8]) -> (r: String)
    ensures
        r@ == lossy_text(bytes@),
        valid_utf8(bytes@) ==> r@ == decode_utf8(bytes@),
{
    String::from_utf8_lossy(bytes).into_owned()
}

/// Position of the first zero byte, or the length when there is none.
pub open spec fn first_zero(raw: Seq<u8>) -> int
    decreases raw.len(),
{
    if raw.len() == 0 || raw[0] == 0 {
        0
    } else {
        1 + first_zero(raw.drop_first())
    }
}

/// `first_zero` is the one position with no zero before it and a zero, or the end, at it.
pub proof fn lemma_first_zero(raw: Seq<u8>, n: int)
    requires
        0 <= n <= raw.len(),
        forall|i: int| 0 <= i < n ==> raw[i] != 0,
        n < raw.len() ==> raw[n] == 0,
    ensures
        first_zero(raw) == n,
    decreases n,
{
    if n > 0 {
        assert(raw[0] != 0);
        assert forall|i: int| 0 <= i < n - 1 implies raw.drop_first()[i] != 0 by {
            assert(raw.drop_first()[i] == raw[i + 1]);
        }
        lemma_first_zero(raw.drop_first(), n - 1);
    }
}

/// The first argument of a command line: its bytes up to the first zero byte.
pub open spec fn argv0(raw: Seq<u8>) -> Seq<u8> {
    raw.take(first_zero(raw))
}

/// Position of the first zero byte from `from` up to `to`, or `to` when there is none.
pub fn find_zero(raw: &[u8], from: usize, to: usize) -> (r: usize)
    requires
        from <= to <= raw@.len(),
    ensures
        from <= r <= to,
        r - from == first_zero(raw@.subrange(from as int, to as int)),
{
    let mut i: usize = from;
    while i < to && raw[i] != 0
        invariant
            from <= i <= to <= raw@.len(),
            forall|k: int| from <= k < i ==> raw@[k] != 0,
        decreases to - i,
    {
        i = i + 1;
    }
    proof {
        let t = raw@.subrange(from as int, to as int);
        assert forall|k: int| 0 <= k < i - from implies t[k] != 0 by {
            assert(t[k] == raw@[k + from]);
        }
        assert(i < to ==> t[i - from] == raw@[i as int]);
        lemma_first_zero(t, i - from);
    }
    i
}

/// The package that a process name stands for: a secondary process is
/// "com.foo:remote", and white space around the name does not count.
pub open spec fn name_package(name: Seq<char>) -> Option<Seq<char>> {
    let pkg = trimmed(before_first(name, ':'));
    if pkg.len() == 0 {
        None
    } else {
        Some(pkg)
    }
}

/// The package that a process name stands for.
pub fn pkg_from_name(name: &str) -> (r: Option<String>)
    ensures
        match r {
            Some(p) => name_package(name@) == Some(p@),
            None => name_package(name@) is None,
        },
{
    // "com.foo:remote" -> "com.foo"; drop the helper suffix only.
    let head = head_before(name, ':');
    let pkg = trim(head.as_str());
    if pkg.as_str().is_empty() {
        None
    } else {
        Some(pkg)
    }
}

/// The package that a command line stands for: that of its first argument, if
/// there is one.
pub open spec fn cmdline_package(raw: Seq<u8>) -> Option<Seq<char>> {
    if argv0(raw).len() == 0 {
        None
    } else {
        name_package(lossy_text(argv0(raw)))
    }
}

/// Package name carried by a process's own cmdline.
///
/// Android sets an app process's argv[0] to its package name (a secondary
/// process is "com.foo:remote"), so the process itself answers "who am I" without
/// consulting any system file. That is what makes the block decision independent
/// of the package list, its format, its appId column and how uids are
/// allocated - and it is what stops a freshly installed app that inherited a
/// recycled uid from being killed.
pub fn pkg_from_cmdline(raw: &[u8]) -> (r: Option<String>)
    ensures
        match r {
            Some(p) => cmdline_package(raw@) == Some(p@),
            None => cmdline_package(raw@) is None,
        },
        valid_utf8(argv0(raw@)) && argv0(raw@).len() > 0 ==> match r {
            Some(p) => name_package(decode_utf8(argv0(raw@))) == Some(p@),
            None => name_package(decode_utf8(argv0(raw@))) is None,
        },
{
    let end: usize = find_zero(raw, 0, raw.len());
    assert(raw@.subrange(0, raw@.len() as int) =~= raw@);
    assert(raw@.subrange(0, end as int) =~= argv0(raw@));
    if end == 0 {
        return None;
    }
    let name = utf8_lossy(slice_subrange(raw, 0, end));
    pkg_from_name(name.as_str())
}

/// A helper suffix never matters: a secondary process stands for the package that
/// the name before the ':' stands for.
pub proof fn a_helper_suffix_never_matters(name: Seq<char>, suffix: Seq<char>)
    ensures
        name_package(name + seq![':'] + suffix) == name_package(name),
{
    let n = first_of(name, ':');
    let full = name + seq![':'] + suffix;
    lemma_first_of_props(name, ':');
    assert forall|i: int| 0 <= i < n implies full[i] != ':' by {
        assert(full[i] == name[i]);
    }
    if n < name.len() {
        assert(full[n] == name[n]);
    }
    lemma_first_of(full, ':', n);
    assert(before_first(full, ':') =~= before_first(name, ':'));
}

/// Bytes that are UTF-8 are decoded one part after the other.
proof fn lemma_decode_parts(a: Seq<u8>, b: Seq<u8>)
    requires
        valid_utf8(a),
        valid_utf8(b),
    ensures
        valid_utf8(a + b),
        decode_utf8(a + b) == decode_utf8(a) + decode_utf8(b),
    decreases a.len(),
{
    valid_utf8_concat(a, b);
    if a.len() == 0 {
        assert(a + b =~= b);
        assert(decode_utf8(a) + decode_utf8(b) =~= decode_utf8(b));
    } else {
        lemma_decode_parts(pop_first_scalar(a), b);
        assert(pop_first_scalar(a + b) =~= pop_first_scalar(a) + b);
        assert(decode_utf8(a + b) =~= decode_utf8(a) + decode_utf8(b));
    }
}

/// The byte of a ':' is the text of one.
proof fn lemma_colon()
    ensures
        valid_utf8(seq![0x3au8]),
        decode_utf8(seq![0x3au8]) == seq![':'],
{
    let b = seq![0x3au8];
    assert(0x3au8 & 0x80u8 == 0 && 0x3au8 & 0x7fu8 == 0x3au8) by (bit_vector);
    reveal_with_fuel(valid_utf8, 2);
    reveal_with_fuel(decode_utf8, 2);
    assert(pop_first_scalar(b) =~= Seq::<u8>::empty());
    assert(decode_utf8(b) =~= seq![':']);
}

/// Neither does it in a command line that is UTF-8: a process that calls itself
/// `name`, a ':' and any suffix stands for the package that `name` stands for.
pub proof fn a_helper_process_stands_for_its_app(name: Seq<u8>, suffix: Seq<u8>)
    requires
        valid_utf8(name),
        valid_utf8(suffix),
    ensures
        valid_utf8(name + seq![0x3au8] + suffix),
        name_package(decode_utf8(name + seq![0x3au8] + suffix)) == name_package(decode_utf8(name)),
{
    lemma_colon();
    lemma_decode_parts(name, seq![0x3au8]);
    lemma_decode_parts(name + seq![0x3au8], suffix);
    a_helper_suffix_never_matters(decode_utf8(name), decode_utf8(suffix));
}

// ---------------------------------------------------------------------------
// Pids
// ---------------------------------------------------------------------------

/// The pid that `s` writes. Pids up to 1 are never anyone's to look at.
pub open spec fn pid_of(s: Seq<char>) -> Option<i32> {
    match i32_of(s) {
        Some(pid) => if pid > 1 {
            Some(pid)
        } else {
            None
        },
        None => None,
    }
}

/// The pid that `s` writes, such as the name of an entry of /proc.
pub fn parse_pid(s: &str) -> (r: Option<i32>)
    ensures
        r == pid_of(s@),
{
    match parse_i32(s) {
        Some(pid) => if pid > 1 {
            Some(pid)
        } else {
            None
        },
        None => None,
    }
}

/// The pids that `tokens` write, in order; what is no pid is left out.
pub open spec fn pids_in(tokens: Seq<Seq<char>>) -> Seq<i32>
    decreases tokens.len(),
{
    if tokens.len() == 0 {
        Seq::empty()
    } else {
        let before = pids_in(tokens.drop_last());
        match pid_of(tokens.last()) {
            Some(pid) => before.push(pid),
            None => before,
        }
    }
}

/// The pids that the words of `content` write, in order.
pub fn parse_pids(content: &str) -> (r: Vec<i32>)
    ensures
        r@ == pids_in(words(content@)),
{
    let tokens = split_words(content);
    let ghost ts = views(tokens@);
    let mut r: Vec<i32> = Vec::new();
    let mut i: usize = 0;
    assert(ts.take(0) =~= Seq::empty());
    while i < tokens.len()
        invariant
            ts == views(tokens@),
            i <= tokens@.len(),
            r@ == pids_in(ts.take(i as int)),
        decreases tokens@.len() - i,
    {
        assert(ts.take(i + 1).drop_last() =~= ts.take(i as int));
        assert(ts.take(i + 1).last() == tokens@[i as int]@);
        if let Some(pid) = parse_pid(tokens[i].as_str()) {
            r.push(pid);
        }
        i = i + 1;
    }
    assert(ts.take(i as int) =~= ts);
    r
}

/// A pid is in the list exactly when one of the tokens writes it; 0, 1 and
/// negative numbers never are.
pub proof fn only_real_pids_are_listed(tokens: Seq<Seq<char>>, pid: i32)
    ensures
        pids_in(tokens).contains(pid) <==> exists|i: int|
            0 <= i < tokens.len() && pid_of(#[trigger] tokens[i]) == Some(pid),
        pids_in(tokens).contains(pid) ==> pid > 1,
    decreases tokens.len(),
{
    if tokens.len() > 0 {
        let before = tokens.drop_last();
        only_real_pids_are_listed(before, pid);
        let b = pids_in(before);
        let a = pids_in(tokens);
        if a.contains(pid) {
            let i = a.index_of(pid);
            if i < b.len() {
                assert(b[i] == pid);
                let k = choose|k: int|
                    0 <= k < before.len() && pid_of(#[trigger] before[k]) == Some(pid);
                assert(tokens[k] == before[k]);
            } else {
                assert(pid_of(tokens[tokens.len() - 1]) == Some(pid));
            }
        }
        if exists|i: int| 0 <= i < tokens.len() && pid_of(#[trigger] tokens[i]) == Some(pid) {
            let i = choose|i: int|
                0 <= i < tokens.len() && pid_of(#[trigger] tokens[i]) == Some(pid);
            if i < before.len() {
                assert(before[i] == tokens[i]);
                assert(b.contains(pid));
                assert(a[b.index_of(pid)] == pid);
            } else {
                assert(a[a.len() - 1] == pid);
            }
        }
    }
}

/// A running process and its uid.
#[derive(Debug, Clone, Copy, PartialEq, Eq, Structural)]
pub struct Process {
    pub pid: i32,
    pub uid: u32,
}

/// Whether a process that was listed under `uid` a moment ago, and whose pid is
/// now owned by `owner` (None when it is gone), is still the one to signal.
pub fn kill_pid_if_uid(owner: Option<u32>, uid: u32) -> (r: bool)
    ensures
        r == (owner == Some(uid)),
{
    match owner {
        Some(u) => u == uid,
        None => false,
    }
}

// ---------------------------------------------------------------------------
// Laws
// ---------------------------------------------------------------------------

/// A pid is what its decimal digits write; 0 and 1 are nobody's.
pub proof fn a_pid_is_its_digits(n: u32)
    ensures
        1 < n <= i32::MAX ==> pid_of(decimal(n as nat)) == Some(n as i32),
        n <= 1 || n > i32::MAX ==> pid_of(decimal(n as nat)) is None,
        n <= i32::MAX ==> pid_of(seq!['-'] + decimal(n as nat)) is None,
{
    signs_are_read(n);
}

/// The first argument of a command line ends at its first zero byte.
pub proof fn the_first_argument_ends_at_a_zero(name: Seq<u8>, rest: Seq<u8>)
    requires
        !name.contains(0),
    ensures
        argv0(name) == name,
        argv0(name + seq![0u8] + rest) == name,
{
    let n = name.len() as int;
    let raw = name + seq![0u8] + rest;
    assert forall|i: int| 0 <= i < n implies name[i] != 0 && raw[i] != 0 by {
        assert(name.contains(name[i]));
        assert(raw[i] == name[i]);
    }
    lemma_first_zero(name, n);
    assert(raw[n] == 0);
    lemma_first_zero(raw, n);
    assert(name.take(n) =~= name);
    assert(raw.take(n) =~= name);
}

/// A process that is named after its package stands for that package, whatever
/// white space stands around the name; a blank name stands for none.
pub proof fn a_process_stands_for_the_package_it_is_named_after(
    a: Seq<char>,
    pkg: Seq<char>,
    b: Seq<char>,
)
    requires
        is_blank(a),
        is_blank(b),
        is_tight(pkg) || pkg.len() == 0,
        !pkg.contains(':'),
    ensures
        pkg.len() > 0 ==> name_package(a + pkg + b) == Some(pkg),
        pkg.len() == 0 ==> name_package(a + pkg + b) is None,
{
    let s = a + pkg + b;
    assert(!is_space(':'));
    assert(!s.contains(':')) by {
        if s.contains(':') {
            let i = s.index_of(':');
            if i < a.len() {
                assert(is_space(a[i]));
            } else if i < a.len() + pkg.len() {
                assert(pkg[i - a.len()] == ':');
            } else {
                assert(is_space(b[i - a.len() - pkg.len()]));
            }
        }
    }
    nothing_to_split(s, ':');
    trimming_takes_off_white_space(a, pkg, b);
}

/// What a command line holds behind its first argument does not matter, and one that
/// starts with a zero, or holds nothing, stands for no package.
pub proof fn a_command_line_stands_for_its_first_argument(name: Seq<u8>, rest: Seq<u8>)
    requires
        !name.contains(0u8),
    ensures
        cmdline_package(name + seq![0u8] + rest) == cmdline_package(name),
        name.len() == 0 ==> cmdline_package(name) is None,
        name.len() > 0 ==> cmdline_package(name) == name_package(lossy_text(name)),
{
    the_first_argument_ends_at_a_zero(name, rest);
}

} // verus!
