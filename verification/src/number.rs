//! Decimal numbers in text: reading and writing machine integers.

use vstd::prelude::*;
use vstd::string::*;

use crate::text::chars_of;

verus! {

/// Whether `c` is one of the ten ASCII digits.
pub open spec fn is_digit(c: char) -> bool {
    '0' <= c && c <= '9'
}

/// Whether `s` holds digits only.
pub open spec fn all_digits(s: Seq<char>) -> bool {
    forall|i: int| 0 <= i < s.len() ==> is_digit(#[trigger] s[i])
}

/// The number that the digits of `s` write, most significant first.
pub open spec fn digits_value(s: Seq<char>) -> nat
    decreases s.len(),
{
    if s.len() == 0 {
        0
    } else {
        digits_value(s.drop_last()) * 10 + (s.last() as nat - '0' as nat) as nat
    }
}

/// The sign of a number in text: its digits, and whether a minus stands before them.
pub open spec fn signed_digits(s: Seq<char>) -> (bool, Seq<char>) {
    if s.len() > 0 && s[0] == '-' {
        (true, s.drop_first())
    } else if s.len() > 0 && s[0] == '+' {
        (false, s.drop_first())
    } else {
        (false, s)
    }
}

/// The `u32` that `s` writes: an optional plus, then digits, within range.
pub open spec fn u32_of(s: Seq<char>) -> Option<u32> {
    let (minus, d) = signed_digits(s);
    if !minus && d.len() > 0 && all_digits(d) && digits_value(d) <= u32::MAX {
        Some(digits_value(d) as u32)
    } else {
        None
    }
}

/// The `i32` that `s` writes: an optional sign, then digits, within range.
pub open spec fn i32_of(s: Seq<char>) -> Option<i32> {
    let (minus, d) = signed_digits(s);
    if d.len() > 0 && all_digits(d) {
        let v: int = if minus {
            -(digits_value(d) as int)
        } else {
            digits_value(d) as int
        };
        if i32::MIN <= v <= i32::MAX {
            Some(v as i32)
        } else {
            None
        }
    } else {
        None
    }
}

/// More digits never write a smaller number.
proof fn lemma_digits_grow(s: Seq<char>, n: int)
    requires
        0 <= n <= s.len(),
    ensures
        digits_value(s.take(n)) <= digits_value(s),
    decreases s.len() - n,
{
    if n < s.len() {
        lemma_digits_grow(s.drop_last(), n);
        assert(s.drop_last().take(n) =~= s.take(n));
    } else {
        assert(s.take(n) =~= s);
    }
}

/// The number that the digits of `s` write from position `from` on, when there
/// is a digit and nothing else, and the number is at most `max`.
fn read_digits(s: &Vec<char>, from: usize, max: u64) -> (r: Option<u64>)
    requires
        from <= s@.len(),
        max <= 0x1_0000_0000,
    ensures
        ({
            let d = s@.skip(from as int);
            match r {
                Some(v) => d.len() > 0 && all_digits(d) && digits_value(d) == v && v <= max,
                None => !(d.len() > 0 && all_digits(d) && digits_value(d) <= max),
            }
        }),
{
    let ghost d = s@.skip(from as int);
    if from == s.len() {
        return None;
    }
    let mut v: u64 = 0;
    let mut i: usize = from;
    assert(d.take(0) =~= Seq::empty());
    while i < s.len()
        invariant
            from <= i <= s@.len(),
            d == s@.skip(from as int),
            max <= 0x1_0000_0000,
            forall|k: int| 0 <= k < i - from ==> is_digit(d[k]),
            digits_value(d.take(i - from)) == v,
            v <= max,
        decreases s@.len() - i,
    {
        let c: char = s[i];
        assert(c == d[i - from]);
        if c < '0' || c > '9' {
            assert(!is_digit(d[i - from]));
            return None;
        }
        let n: u64 = (c as u64) - ('0' as u64);
        proof {
            assert(d.take(i - from + 1).drop_last() =~= d.take(i - from));
            assert(d.take(i - from + 1).last() == c);
        }
        v = v * 10 + n;
        if v > max {
            proof {
                lemma_digits_grow(d, i - from + 1);
            }
            return None;
        }
        i = i + 1;
    }
    assert(d.take(i - from) =~= d);
    Some(v)
}

/// The `u32` that `s` writes.
pub fn parse_u32(s: &str) -> (r: Option<u32>)
    ensures
        r == u32_of(s@),
{
    let cs = chars_of(s);
    let from: usize = if cs.len() > 0 && cs[0] == '+' {
        1
    } else {
        0
    };
    proof {
        assert(cs@.skip(0) =~= cs@);
        if cs@.len() > 0 {
            assert(cs@.skip(1) =~= cs@.drop_first());
            if cs@[0] == '-' {
                assert(!is_digit(cs@[0]));
            }
        }
    }
    match read_digits(&cs, from, u32::MAX as u64) {
        Some(v) => Some(v as u32),
        None => None,
    }
}

/// The `i32` that `s` writes.
pub fn parse_i32(s: &str) -> (r: Option<i32>)
    ensures
        r == i32_of(s@),
{
    let cs = chars_of(s);
    let minus = cs.len() > 0 && cs[0] == '-';
    let from: usize = if cs.len() > 0 && (cs[0] == '-' || cs[0] == '+') {
        1
    } else {
        0
    };
    proof {
        assert(cs@.skip(0) =~= cs@);
        if cs@.len() > 0 {
            assert(cs@.skip(1) =~= cs@.drop_first());
        }
    }
    let max: u64 = if minus {
        0x8000_0000
    } else {
        0x7fff_ffff
    };
    match read_digits(&cs, from, max) {
        Some(v) => {
            if minus {
                Some((0 - (v as i64)) as i32)
            } else {
                Some(v as i32)
            }
        },
        None => None,
    }
}

/// The digit that writes `n`.
pub open spec fn digit_char(n: nat) -> char {
    ('0' as u32 + n as u32) as char
}

/// The decimal digits of `n`, without leading zeros.
pub open spec fn decimal(n: nat) -> Seq<char>
    decreases n,
{
    if n < 10 {
        seq![digit_char(n)]
    } else {
        decimal(n / 10).push(digit_char(n % 10))
    }
}

/// The digit of a number below ten, as text.
fn digit_text(n: u32) -> (r: &'static str)
    requires
        n < 10,
    ensures
        r@ == seq![digit_char(n as nat)],
{
    proof {
        reveal_strlit("0");
        reveal_strlit("1");
        reveal_strlit("2");
        reveal_strlit("3");
        reveal_strlit("4");
        reveal_strlit("5");
        reveal_strlit("6");
        reveal_strlit("7");
        reveal_strlit("8");
        reveal_strlit("9");
    }
    let r = match n {
        0 => "0",
        1 => "1",
        2 => "2",
        3 => "3",
        4 => "4",
        5 => "5",
        6 => "6",
        7 => "7",
        8 => "8",
        _ => "9",
    };
    assert(r@ =~= seq![digit_char(n as nat)]);
    r
}

/// `n` in decimal.
pub fn u32_text(n: u32) -> (r: String)
    ensures
        r@ == decimal(n as nat),
    decreases n,
{
    if n < 10 {
        digit_text(n).to_owned()
    } else {
        let mut s = u32_text(n / 10);
        s.append(digit_text(n % 10));
        assert(s@ =~= decimal(n as nat));
        s
    }
}

/// What `decimal` writes is digits only, and reads back as the same number.
pub proof fn decimal_reads_back(n: u32)
    ensures
        all_digits(decimal(n as nat)),
        decimal(n as nat).len() > 0,
        digits_value(decimal(n as nat)) == n,
        u32_of(decimal(n as nat)) == Some(n),
    decreases n,
{
    let d = decimal(n as nat);
    if n >= 10 {
        decimal_reads_back((n / 10) as u32);
        assert(d.drop_last() =~= decimal((n / 10) as nat));
        assert forall|i: int| 0 <= i < d.len() implies is_digit(#[trigger] d[i]) by {
            if i < d.len() - 1 {
                assert(d[i] == d.drop_last()[i]);
            }
        }
    } else {
        assert(digits_value(d.drop_last()) == 0);
        assert(d.last() as nat == '0' as nat + n);
    }
    assert(is_digit(d[0]));
}

// ---------------------------------------------------------------------------
// Laws
// ---------------------------------------------------------------------------

/// Each further digit makes a number ten times as large, and adds itself.
pub proof fn a_digit_more_is_ten_times_as_much(s: Seq<char>, n: u32)
    requires
        n < 10,
    ensures
        digits_value(s + decimal(n as nat)) == digits_value(s) * 10 + n,
{
    let t = s + decimal(n as nat);
    assert(t.drop_last() =~= s);
    assert(t.last() == digit_char(n as nat));
}

/// Leading zeros do not count.
pub proof fn leading_zeros_do_not_count(s: Seq<char>)
    ensures
        digits_value(seq!['0'] + s) == digits_value(s),
        all_digits(s) && s.len() > 0 ==> u32_of(seq!['0'] + s) == u32_of(s),
    decreases s.len(),
{
    let t = seq!['0'] + s;
    if s.len() > 0 {
        leading_zeros_do_not_count(s.drop_last());
        assert(t.drop_last() =~= seq!['0'] + s.drop_last());
        assert(t.last() == s.last());
    } else {
        assert(t.drop_last() =~= Seq::<char>::empty());
        assert(digits_value(t.drop_last()) == 0);
        assert(t.last() == '0');
    }
    if all_digits(s) && s.len() > 0 {
        assert forall|i: int| 0 <= i < t.len() implies is_digit(#[trigger] t[i]) by {
            if i > 0 {
                assert(t[i] == s[i - 1]);
            }
        }
        assert(is_digit(s[0]));
    }
}

/// A number is read with its sign: a plus changes nothing, a minus negates, and
/// an unsigned number has no minus.
pub proof fn signs_are_read(n: u32)
    ensures
        u32_of(seq!['+'] + decimal(n as nat)) == Some(n),
        u32_of(seq!['-'] + decimal(n as nat)) is None,
        n <= i32::MAX ==> i32_of(decimal(n as nat)) == Some(n as i32),
        n <= i32::MAX ==> i32_of(seq!['+'] + decimal(n as nat)) == Some(n as i32),
        n <= 0x8000_0000 ==> i32_of(seq!['-'] + decimal(n as nat)) == Some((-(n as int)) as i32),
        n > i32::MAX ==> i32_of(decimal(n as nat)) is None,
        n > 0x8000_0000 ==> i32_of(seq!['-'] + decimal(n as nat)) is None,
{
    let d = decimal(n as nat);
    decimal_reads_back(n);
    assert((seq!['+'] + d).drop_first() =~= d);
    assert((seq!['-'] + d).drop_first() =~= d);
    assert(is_digit(d[0]));
}

/// Text that is no number is read as none: nothing at all, or anything but a digit
/// behind the sign.
pub proof fn only_digits_are_a_number(s: Seq<char>, i: int)
    requires
        s.len() == 0 || 0 < i < s.len() && !is_digit(s[i]) || i == 0 && s.len() > 0 && !is_digit(s[0])
            && s[0] != '+' && s[0] != '-',
    ensures
        u32_of(s) is None,
        i32_of(s) is None,
{
    let d = signed_digits(s).1;
    if s.len() > 0 {
        if d.len() < s.len() {
            assert(d[i - 1] == s[i]);
        } else {
            assert(d[i] == s[i]);
        }
    }
}

} // verus!
