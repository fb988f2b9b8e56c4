//! Verified text helpers: substring search, decimal rendering and parsing.

use vstd::prelude::*;
use vstd::string::StrSliceExecFns;
use vstd::string::StringExecFns;

verus! {

/// `sub` occurs in `s` starting at position `i`.
pub open spec fn occurs_at(s: Seq<char>, sub: Seq<char>, i: int) -> bool {
    0 <= i && i + sub.len() <= s.len() && s.subrange(i, i + sub.len() as int) == sub
}

/// `sub` occurs somewhere in `s` (the empty sequence occurs in anything).
pub open spec fn contains_seq(s: Seq<char>, sub: Seq<char>) -> bool {
    exists|i: int| occurs_at(s, sub, i)
}

/// Whether `sub` occurs in `s` at position `i`, checked character by character.
fn occurs_at_exec(s: &str, sub: &str, i: usize, n: usize, m: usize) -> (r: bool)
    requires
        n == s@.len(),
        m == sub@.len(),
        i + m <= n,
    ensures
        r == occurs_at(s@, sub@, i as int),
{
    let mut j: usize = 0;
    while j < m
        invariant
            n == s@.len(),
            m == sub@.len(),
            i + m <= n,
            0 <= j <= m,
            forall|k: int| 0 <= k < j ==> s@[i + k] == sub@[k],
        decreases m - j,
    {
        if s.get_char(i + j) != sub.get_char(j) {
            assert(s@.subrange(i as int, i + m as int)[j as int] != sub@[j as int]);
            return false;
        }
        j += 1;
    }
    assert(s@.subrange(i as int, i + m as int) =~= sub@);
    true
}

/// Case-sensitive substring search over characters.
pub fn str_contains(s: &str, sub: &str) -> (r: bool)
    ensures
        r == contains_seq(s@, sub@),
{
    let n = s.unicode_len();
    let m = sub.unicode_len();
    if m > n {
        assert(forall|i: int| !occurs_at(s@, sub@, i));
        return false;
    }
    if m == 0 {
        assert(s@.subrange(0, 0) =~= sub@);
        assert(occurs_at(s@, sub@, 0));
        return true;
    }
    let mut i: usize = 0;
    loop
        invariant
            n == s@.len(),
            m == sub@.len(),
            1 <= m <= n,
            0 <= i <= n - m + 1,
            forall|k: int| 0 <= k < i ==> !occurs_at(s@, sub@, k),
        decreases n - m + 1 - i,
    {
        if i > n - m {
            assert(forall|k: int| !occurs_at(s@, sub@, k));
            return false;
        }
        if occurs_at_exec(s, sub, i, n, m) {
            return true;
        }
        i += 1;
    }
}

/// The character for a single decimal digit.
pub open spec fn spec_digit(d: nat) -> char {
    if d == 0 {
        '0'
    } else if d == 1 {
        '1'
    } else if d == 2 {
        '2'
    } else if d == 3 {
        '3'
    } else if d == 4 {
        '4'
    } else if d == 5 {
        '5'
    } else if d == 6 {
        '6'
    } else if d == 7 {
        '7'
    } else if d == 8 {
        '8'
    } else {
        '9'
    }
}

/// The decimal rendering of `n`, with no leading zeros (except for 0 itself).
pub open spec fn spec_dec(n: nat) -> Seq<char>
    decreases n,
{
    if n < 10 {
        seq![spec_digit(n)]
    } else {
        spec_dec(n / 10).push(spec_digit(n % 10))
    }
}

/// A one-character string for the digit `d`.
fn digit_str(d: u64) -> (r: &'static str)
    requires
        d < 10,
    ensures
        r@ =~= seq![spec_digit(d as nat)],
{
    proof {
        reveal_strlit("0");
        reveal_strlit("1");
        reveal_strlit("2");
        reveal_strlit("3");
        reveal_strlit("4");
        reveal_strlit("5");
        reveal_strlit("6");
        reveal_strlit("7");
        reveal_strlit("8");
        reveal_strlit("9");
    }
    if d == 0 {
        "0"
    } else if d == 1 {
        "1"
    } else if d == 2 {
        "2"
    } else if d == 3 {
        "3"
    } else if d == 4 {
        "4"
    } else if d == 5 {
        "5"
    } else if d == 6 {
        "6"
    } else if d == 7 {
        "7"
    } else if d == 8 {
        "8"
    } else {
        "9"
    }
}

/// Renders `n` in decimal.
pub fn u64_to_string(n: u64) -> (r: String)
    ensures
        r@ == spec_dec(n as nat),
    decreases n,
{
    if n < 10 {
        let r = String::from_str(digit_str(n));
        assert(r@ =~= spec_dec(n as nat));
        r
    } else {
        let mut r = u64_to_string(n / 10);
        r.append(digit_str(n % 10));
        assert(r@ =~= spec_dec(n as nat));
        r
    }
}

/// `c` is a decimal digit.
pub open spec fn is_dec_digit(c: char) -> bool {
    48 <= c as u32 <= 57
}

/// The numeric value of a digit character.
pub open spec fn digit_val(c: char) -> nat {
    (c as u32 - 48) as nat
}

/// Every character of `s` is a decimal digit.
pub open spec fn all_digits(s: Seq<char>) -> bool {
    forall|i: int| 0 <= i < s.len() ==> is_dec_digit(s[i])
}

/// The value of a digit string, most significant first.
pub open spec fn digits_val(s: Seq<char>) -> nat
    decreases s.len(),
{
    if s.len() == 0 {
        0
    } else {
        digits_val(s.drop_last()) * 10 + digit_val(s.last())
    }
}

/// `s` is a well-formed unsigned decimal numeral: one or more digits,
/// optionally preceded by `+`.
pub open spec fn numeral_ok(s: Seq<char>) -> bool {
    if s.len() > 0 && s[0] == '+' {
        s.len() > 1 && all_digits(s.skip(1))
    } else {
        s.len() > 0 && all_digits(s)
    }
}

/// The value of a well-formed numeral.
pub open spec fn numeral_val(s: Seq<char>) -> nat {
    if s.len() > 0 && s[0] == '+' {
        digits_val(s.skip(1))
    } else {
        digits_val(s)
    }
}

/// Extending a digit string never decreases its value.
proof fn lemma_digits_val_prefix(s: Seq<char>, i: int)
    requires
        0 <= i <= s.len(),
    ensures
        digits_val(s.take(i)) <= digits_val(s),
    decreases s.len() - i,
{
    if i == s.len() {
        assert(s.take(i) =~= s);
    } else {
        lemma_digits_val_prefix(s, i + 1);
        assert(s.take(i + 1).drop_last() =~= s.take(i));
        assert(digits_val(s.take(i + 1)) == digits_val(s.take(i)) * 10 + digit_val(
            s.take(i + 1).last(),
        ));
    }
}

/// Parses the digits of `s` from position `start`, accepting values up to `bound`.
fn parse_digits(s: &str, start: usize, n: usize, bound: u64) -> (r: Option<u64>)
    requires
        n == s@.len(),
        start < n,
        bound <= 0xFFFF_FFFF,
    ensures
        match r {
            Some(v) => all_digits(s@.skip(start as int)) && v as nat == digits_val(
                s@.skip(start as int),
            ) && v <= bound,
            None => !all_digits(s@.skip(start as int)) || digits_val(s@.skip(start as int))
                > bound,
        },
{
    let ghost digits = s@.skip(start as int);
    let mut acc: u64 = 0;
    let mut i: usize = start;
    while i < n
        invariant
            n == s@.len(),
            start <= i <= n,
            digits == s@.skip(start as int),
            bound <= 0xFFFF_FFFF,
            all_digits(digits.take(i - start)),
            acc as nat == digits_val(digits.take(i - start)),
            acc <= bound,
        decreases n - i,
    {
        let c = s.get_char(i);
        let u = c as u32;
        proof {
            assert(digits[i - start] == s@[i as int]);
            assert(digits.take(i + 1 - start).drop_last() =~= digits.take(i - start));
        }
        if u < 48 || u > 57 {
            assert(!all_digits(digits)) by {
                assert(!is_dec_digit(digits[i - start]));
            }
            return None;
        }
        let d = (u - 48) as u64;
        let next = acc * 10 + d;
        if next > bound {
            proof {
                assert(digits_val(digits.take(i + 1 - start)) == acc as nat * 10 + d as nat);
                lemma_digits_val_prefix(digits, i + 1 - start);
            }
            return None;
        }
        acc = next;
        i += 1;
    }
    proof {
        assert(digits.take(n - start) =~= digits);
    }
    Some(acc)
}

/// Parses an unsigned decimal numeral (optionally `+`-prefixed) no larger
/// than `bound`.
pub fn parse_bounded(s: &str, bound: u64) -> (r: Option<u64>)
    requires
        bound <= 0xFFFF_FFFF,
    ensures
        match r {
            Some(v) => numeral_ok(s@) && v as nat == numeral_val(s@) && v <= bound,
            None => !numeral_ok(s@) || numeral_val(s@) > bound,
        },
{
    let n = s.unicode_len();
    if n == 0 {
        return None;
    }
    let first = s.get_char(0);
    if first == '+' {
        if n == 1 {
            return None;
        }
        parse_digits(s, 1, n, bound)
    } else {
        assert(s@.skip(0) =~= s@);
        parse_digits(s, 0, n, bound)
    }
}

/// Parses a `u32`, as for a process id.
pub fn parse_u32(s: &str) -> (r: Option<u32>)
    ensures
        match r {
            Some(v) => numeral_ok(s@) && v as nat == numeral_val(s@),
            None => !numeral_ok(s@) || numeral_val(s@) > u32::MAX,
        },
{
    match parse_bounded(s, 0xFFFF_FFFF) {
        Some(v) => Some(v as u32),
        None => None,
    }
}

/// Parses a `u16`, as for a port number.
pub fn parse_u16(s: &str) -> (r: Option<u16>)
    ensures
        match r {
            Some(v) => numeral_ok(s@) && v as nat == numeral_val(s@),
            None => !numeral_ok(s@) || numeral_val(s@) > u16::MAX,
        },
{
    match parse_bounded(s, 0xFFFF) {
        Some(v) => Some(v as u16),
        None => None,
    }
}


/// Relies on String::push: appends exactly the one character.
#[verifier::external_body]
pub fn push_char(s: &mut String, c: char)
    ensures
        final(s)@ == old(s)@.push(c),
{
    s.push(c);
}

/// Relies on String::pop: removes the last character, if any.
#[verifier::external_body]
pub fn pop_char(s: &mut String)
    ensures
        old(s)@.len() > 0 ==> final(s)@ == old(s)@.drop_last(),
        old(s)@.len() == 0 ==> final(s)@ == old(s)@,
{
    s.pop();
}

} // verus!
