//! Command-line options: the value after the first `--key` in an argument
//! list, read as text or as an unsigned decimal number the way std's
//! `str::parse` reads one (an optional `+`, then at least one ASCII digit,
//! within the type's range).

use vstd::prelude::*;
use crate::text::{chars_of, views};

verus! {

/// The index of the first argument equal to `key`.
pub open spec fn first_index(args: Seq<Seq<char>>, key: Seq<char>) -> Option<int>
    decreases args.len(),
{
    if args.len() == 0 {
        None
    } else {
        match first_index(args.drop_last(), key) {
            Some(i) => Some(i),
            None => if args.last() == key {
                Some(args.len() - 1)
            } else {
                None
            },
        }
    }
}

/// The argument right after the first occurrence of `key`, if there are both.
pub open spec fn arg_after(args: Seq<Seq<char>>, key: Seq<char>) -> Option<Seq<char>> {
    match first_index(args, key) {
        Some(i) => if i + 1 < args.len() {
            Some(args[i + 1])
        } else {
            None
        },
        None => None,
    }
}

/// An optional string by its chars.
pub open spec fn opt_chars(o: Option<String>) -> Option<Seq<char>> {
    match o {
        Some(s) => Some(s@),
        None => None,
    }
}

/// An ASCII decimal digit.
pub open spec fn is_digit(c: char) -> bool {
    '0' <= c <= '9'
}

/// The value of a string of decimal digits.
pub open spec fn digits_value(d: Seq<char>) -> nat
    decreases d.len(),
{
    if d.len() == 0 {
        0
    } else {
        digits_value(d.drop_last()) * 10 + ((d.last() as int) - ('0' as int)) as nat
    }
}

/// The digits of an unsigned number: the text without one leading `+`.
pub open spec fn unsigned_digits(s: Seq<char>) -> Seq<char> {
    if s.len() > 0 && s[0] == '+' {
        s.skip(1)
    } else {
        s
    }
}

/// The unsigned number `s` denotes in a type whose largest value is `max`:
/// there is at least one digit, every char is a decimal digit, and the value
/// is at most `max`; otherwise nothing.
pub open spec fn parse_unsigned(s: Seq<char>, max: nat) -> Option<nat> {
    let d = unsigned_digits(s);
    if d.len() > 0 && (forall|i: int| 0 <= i < d.len() ==> is_digit(#[trigger] d[i])) && digits_value(d) <= max {
        Some(digits_value(d))
    } else {
        None
    }
}

/// The value named by `key`, parsed, or `default` when the key, its value
/// or a valid number is missing.
pub open spec fn number_or(args: Seq<Seq<char>>, key: Seq<char>, max: nat, default: nat) -> nat {
    match arg_after(args, key) {
        Some(s) => match parse_unsigned(s, max) {
            Some(v) => v,
            None => default,
        },
        None => default,
    }
}

proof fn lemma_digits_prefix_le(d: Seq<char>, k: int)
    requires
        0 <= k <= d.len(),
        forall|i: int| 0 <= i < d.len() ==> is_digit(#[trigger] d[i]),
    ensures
        digits_value(d.take(k)) <= digits_value(d),
    decreases d.len() - k,
{
    if k < d.len() {
        lemma_digits_prefix_le(d, k + 1);
        assert(d.take(k + 1).drop_last() =~= d.take(k));
        assert(is_digit(d[k]));
    } else {
        assert(d.take(k) =~= d);
    }
}

/// Reads `s` as an unsigned decimal at most `max`, as std's `from_str` for
/// an unsigned integer type with that maximum does.
pub fn parse_bounded(s: &str, max: u64) -> (r: Option<u64>)
    ensures
        match r {
            Some(v) => parse_unsigned(s@, max as nat) == Some(v as nat),
            None => parse_unsigned(s@, max as nat) is None,
        },
{
    let cs = chars_of(s);
    let n = cs.len();
    let start: usize = if n > 0 && cs[0] == '+' { 1 } else { 0 };
    let ghost d = unsigned_digits(s@);
    proof {
        if start == 1 {
            assert(d =~= cs@.skip(1));
        } else {
            assert(d =~= cs@);
        }
    }
    if start == n {
        return None;
    }
    let mut value: u64 = 0;
    let mut i = start;
    proof {
        assert(d.take(0) =~= Seq::<char>::empty());
    }
    while i < n
        invariant
            start <= i <= n,
            start <= 1,
            n == cs@.len(),
            d == cs@.skip(start as int),
            d == unsigned_digits(s@),
            d.len() == n - start,
            forall|k: int| 0 <= k < i - start ==> is_digit(#[trigger] d[k]),
            value == digits_value(d.take(i - start)),
            value <= max,
        decreases n - i,
    {
        let c = cs[i];
        if !('0' <= c && c <= '9') {
            proof {
                assert(d[i - start] == c);
                assert(!is_digit(d[i - start]));
            }
            return None;
        }
        let digit: u32 = (c as u32) - ('0' as u32);
        let next: u128 = (value as u128) * 10 + (digit as u128);
        let ghost k = i - start;
        proof {
            assert(d[k] == c);
            assert(d.take(k + 1).drop_last() =~= d.take(k));
            assert(d.take(k + 1).last() == c);
            assert(digits_value(d.take(k + 1)) == next);
        }
        if next > max as u128 {
            proof {
                if forall|j: int| 0 <= j < d.len() ==> is_digit(#[trigger] d[j]) {
                    lemma_digits_prefix_le(d, k + 1);
                    assert(digits_value(d) > max);
                }
            }
            return None;
        }
        value = next as u64;
        i += 1;
    }
    proof {
        assert(d.take(n - start) =~= d);
    }
    Some(value)
}

/// The first argument equal to `key` and the one after it, if any.
pub fn arg_str(args: &[String], key: &str) -> (r: Option<String>)
    ensures
        opt_chars(r) == arg_after(views(args@), key@),
{
    let ghost ss = views(args@);
    let key_s = key.to_owned();
    let n = args.len();
    let mut i: usize = 0;
    proof {
        assert(ss.take(0) =~= Seq::<Seq<char>>::empty());
    }
    while i < n
        invariant
            n == args@.len(),
            ss == views(args@),
            key_s@ == key@,
            i <= n,
            first_index(ss.take(i as int), key@) is None,
        decreases n - i,
    {
        proof {
            assert(ss.take(i + 1).drop_last() =~= ss.take(i as int));
            assert(ss.take(i + 1).last() == args@[i as int]@);
        }
        if args[i] == key_s {
            proof {
                lemma_first_index_extend(ss, i as int + 1, key@);
            }
            if i + 1 < n {
                return Some(args[i + 1].clone());
            } else {
                return None;
            }
        }
        i += 1;
    }
    proof {
        assert(ss.take(n as int) =~= ss);
    }
    None
}

/// An index found in a prefix is the index in the whole list.
proof fn lemma_first_index_extend(ss: Seq<Seq<char>>, k: int, key: Seq<char>)
    requires
        0 <= k <= ss.len(),
        first_index(ss.take(k), key) is Some,
    ensures
        first_index(ss, key) == first_index(ss.take(k), key),
    decreases ss.len() - k,
{
    if k < ss.len() {
        assert(ss.take(k + 1).drop_last() =~= ss.take(k));
        lemma_first_index_extend(ss, k + 1, key);
    } else {
        assert(ss.take(k) =~= ss);
    }
}

/// The `usize` after `key`, or `default`.
pub fn arg_usize(args: &[String], key: &str, default: usize) -> (r: usize)
    ensures
        r == number_or(views(args@), key@, usize::MAX as nat, default as nat),
{
    match arg_str(args, key) {
        Some(s) => match parse_bounded(s.as_str(), usize::MAX as u64) {
            Some(v) => v as usize,
            None => default,
        },
        None => default,
    }
}

/// The `u64` after `key`, or `default`.
pub fn arg_u64(args: &[String], key: &str, default: u64) -> (r: u64)
    ensures
        r == number_or(views(args@), key@, u64::MAX as nat, default as nat),
{
    match arg_str(args, key) {
        Some(s) => match parse_bounded(s.as_str(), u64::MAX) {
            Some(v) => v,
            None => default,
        },
        None => default,
    }
}

/// The `usize` after `key`, if there is a valid one.
pub fn arg_opt_usize(args: &[String], key: &str) -> (r: Option<usize>)
    ensures
        match r {
            Some(v) => arg_after(views(args@), key@) matches Some(s) && parse_unsigned(s, usize::MAX as nat)
                == Some(v as nat),
            None => arg_after(views(args@), key@) matches Some(s) ==> parse_unsigned(s, usize::MAX as nat) is None,
        },
{
    match arg_str(args, key) {
        Some(s) => match parse_bounded(s.as_str(), usize::MAX as u64) {
            Some(v) => Some(v as usize),
            None => None,
        },
        None => None,
    }
}

} // verus!
