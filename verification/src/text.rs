//! Character-level helpers shared by the trainers: strings as sequences of
//! `char`, their lexicographic order, and building strings char by char.

use vstd::prelude::*;
use crate::pairs::total_len;

verus! {

/// The views of a sequence of strings.
pub open spec fn views(v: Seq<String>) -> Seq<Seq<char>> {
    v.map_values(|s: String| s@)
}

/// Lexicographic order on char sequences, chars compared by code point.
/// This is the order of `str::cmp`: UTF-8 keeps the code point order.
pub open spec fn seq_lt(a: Seq<char>, b: Seq<char>) -> bool
    decreases a.len(),
{
    if a.len() == 0 {
        b.len() > 0
    } else if b.len() == 0 {
        false
    } else if a[0] != b[0] {
        (a[0] as int) < (b[0] as int)
    } else {
        seq_lt(a.drop_first(), b.drop_first())
    }
}

/// `seq_lt` is irreflexive.
pub proof fn lemma_seq_lt_irreflexive(a: Seq<char>)
    ensures
        !seq_lt(a, a),
    decreases a.len(),
{
    if a.len() > 0 {
        lemma_seq_lt_irreflexive(a.drop_first());
    }
}

/// `seq_lt` is a strict total order: trichotomy.
pub proof fn lemma_seq_lt_total(a: Seq<char>, b: Seq<char>)
    ensures
        a != b ==> (seq_lt(a, b) || seq_lt(b, a)),
        !(seq_lt(a, b) && seq_lt(b, a)),
    decreases a.len(),
{
    if a.len() > 0 && b.len() > 0 && a[0] == b[0] {
        lemma_seq_lt_total(a.drop_first(), b.drop_first());
        if a != b {
            assert(a =~= seq![a[0]] + a.drop_first());
            assert(b =~= seq![b[0]] + b.drop_first());
        }
    } else if a.len() > 0 && b.len() > 0 {
        assert((a[0] as int) != (b[0] as int));
    } else if a.len() == 0 && b.len() == 0 {
        assert(a =~= b);
    }
}

/// `seq_lt` is transitive.
pub proof fn lemma_seq_lt_transitive(a: Seq<char>, b: Seq<char>, c: Seq<char>)
    requires
        seq_lt(a, b),
        seq_lt(b, c),
    ensures
        seq_lt(a, c),
    decreases a.len(),
{
    if a.len() > 0 && b.len() > 0 && c.len() > 0 && a[0] == b[0] && b[0] == c[0] {
        lemma_seq_lt_transitive(a.drop_first(), b.drop_first(), c.drop_first());
    }
}

/// Appends one char to a string: std's `String::push`.
#[verifier::external_body]
pub(crate) fn push_char(s: &mut String, c: char)
    ensures
        final(s)@ == old(s)@.push(c),
{
    s.push(c)
}

/// The chars of a string, in order.
pub fn chars_of(s: &str) -> (v: Vec<char>)
    ensures
        v@ == s@,
{
    let mut v: Vec<char> = Vec::new();
    for c in iter: s.chars()
        invariant
            v@ == iter.seq().take(iter.index() as int),
            iter.seq() == s@,
    {
        v.push(c);
    }
    v
}

/// A string holding the given chars.
pub fn string_of(cs: &[char]) -> (s: String)
    ensures
        s@ == cs@,
{
    let mut s = String::new();
    let n = cs.len();
    for i in 0..n
        invariant
            n == cs@.len(),
            s@ == cs@.take(i as int),
    {
        push_char(&mut s, cs[i]);
        assert(cs@.take(i + 1) =~= cs@.take(i as int).push(cs@[i as int]));
    }
    assert(cs@.take(n as int) =~= cs@);
    s
}

/// The one-char string of `c`.
pub fn char_string(c: char) -> (s: String)
    ensures
        s@ == seq![c],
{
    let mut s = String::new();
    push_char(&mut s, c);
    s
}

/// Lexicographic comparison of two char sequences.
pub fn chars_lt(a: &[char], b: &[char]) -> (r: bool)
    ensures
        r == seq_lt(a@, b@),
{
    let mut i: usize = 0;
    proof {
        assert(a@.skip(0) =~= a@);
        assert(b@.skip(0) =~= b@);
    }
    while i < a.len() && i < b.len()
        invariant
            i <= a@.len(),
            i <= b@.len(),
            a@.take(i as int) == b@.take(i as int),
            seq_lt(a@, b@) == seq_lt(a@.skip(i as int), b@.skip(i as int)),
        decreases a@.len() - i,
    {
        if a[i] != b[i] {
            proof {
                assert(a@.skip(i as int)[0] == a@[i as int]);
                assert(b@.skip(i as int)[0] == b@[i as int]);
            }
            return a[i] < b[i];
        }
        proof {
            assert(a@.skip(i as int).drop_first() =~= a@.skip(i + 1));
            assert(b@.skip(i as int).drop_first() =~= b@.skip(i + 1));
            assert(a@.take(i + 1) =~= a@.take(i as int).push(a@[i as int]));
            assert(b@.take(i + 1) =~= b@.take(i as int).push(b@[i as int]));
        }
        i += 1;
    }
    i < b.len()
}

/// Number of chars over all rows, or `None` when it exceeds `u64::MAX`.
pub fn rows_total(rows: &Vec<Vec<char>>) -> (t: Option<u64>)
    ensures
        match t {
            Some(v) => v == total_len(rows@.map_values(|r: Vec<char>| r@)),
            None => total_len(rows@.map_values(|r: Vec<char>| r@)) > u64::MAX,
        },
{
    let ghost ns = rows@.map_values(|r: Vec<char>| r@);
    let mut t: u64 = 0;
    let n = rows.len();
    proof {
        assert(ns.take(0) =~= Seq::<Seq<char>>::empty());
    }
    for i in 0..n
        invariant
            n == rows@.len(),
            ns == rows@.map_values(|r: Vec<char>| r@),
            t == total_len(ns.take(i as int)),
    {
        proof {
            assert(ns.take(i + 1).drop_last() =~= ns.take(i as int));
            assert(ns.take(i + 1).last() == rows@[i as int]@);
        }
        let len = rows[i].len() as u64;
        match t.checked_add(len) {
            Some(v) => {
                t = v;
            },
            None => {
                proof {
                    assert(ns =~= ns.take(i + 1) + ns.skip(i + 1));
                    crate::pairs::lemma_total_len_add(ns.take(i + 1), ns.skip(i + 1));
                }
                return None;
            },
        }
    }
    proof {
        assert(ns.take(n as int) =~= ns);
    }
    Some(t)
}

/// Number of chars over all strings, or `None` when it exceeds `u64::MAX`.
pub fn char_total(strings: &[String]) -> (t: Option<u64>)
    ensures
        match t {
            Some(v) => v == total_len(views(strings@)),
            None => total_len(views(strings@)) > u64::MAX,
        },
{
    let mut rows: Vec<Vec<char>> = Vec::new();
    let n = strings.len();
    for i in 0..n
        invariant
            n == strings@.len(),
            rows@.map_values(|r: Vec<char>| r@) == views(strings@).take(i as int),
    {
        let ghost old_rows = rows@;
        rows.push(chars_of(strings[i].as_str()));
        proof {
            assert(rows@.map_values(|r: Vec<char>| r@) =~= old_rows.map_values(|r: Vec<char>| r@).push(strings@[i as int]@));
            assert(views(strings@).take(i + 1) =~= views(strings@).take(i as int).push(strings@[i as int]@));
        }
    }
    proof {
        assert(views(strings@).take(n as int) =~= views(strings@));
    }
    rows_total(&rows)
}

} // verus!
