//! Sorting with std's stable `sort_by`, under verified comparators, and the
//! uniqueness of strictly sorted lists.

use vstd::prelude::*;
use std::cmp::Ordering;
use crate::sentencepiece_bpe::trainer::entry_before;
use crate::text::{chars_lt, lemma_seq_lt_total};
use crate::unigram::em::key_index_before;
use crate::unigram::pretokenize::{count_before, entry_view};

verus! {

/// Compares two (char, count) entries: higher count first, then smaller char.
pub(crate) fn cmp_char_entries(a: &(char, u64), b: &(char, u64)) -> (o: Ordering)
    ensures
        (o == Ordering::Less) == entry_before(*a, *b),
        (o == Ordering::Greater) == entry_before(*b, *a),
{
    if a.1 > b.1 {
        Ordering::Less
    } else if a.1 < b.1 {
        Ordering::Greater
    } else if a.0 < b.0 {
        Ordering::Less
    } else if a.0 > b.0 {
        Ordering::Greater
    } else {
        Ordering::Equal
    }
}

/// Sorts by [`cmp_char_entries`] with std's `slice::sort_by`: the result is
/// a permutation of the input in which no entry comes before an earlier one.
#[verifier::external_body]
pub(crate) fn sort_char_entries(v: &mut Vec<(char, u64)>)
    ensures
        final(v)@.to_multiset() == old(v)@.to_multiset(),
        forall|i: int, j: int| 0 <= i < j < final(v)@.len() ==> !entry_before(final(v)@[j], final(v)@[i]),
{
    v.sort_by(|a, b| cmp_char_entries(a, b))
}

/// Compares two (chars, count) entries: higher count first, then the
/// lexicographically smaller chars.
pub(crate) fn cmp_count_entries(a: &(Vec<char>, u64), b: &(Vec<char>, u64)) -> (o: Ordering)
    ensures
        (o == Ordering::Less) == count_before(entry_view(*a), entry_view(*b)),
        (o == Ordering::Greater) == count_before(entry_view(*b), entry_view(*a)),
{
    proof {
        lemma_seq_lt_total(a.0@, b.0@);
    }
    if a.1 > b.1 {
        Ordering::Less
    } else if a.1 < b.1 {
        Ordering::Greater
    } else if chars_lt(a.0.as_slice(), b.0.as_slice()) {
        Ordering::Less
    } else if chars_lt(b.0.as_slice(), a.0.as_slice()) {
        Ordering::Greater
    } else {
        Ordering::Equal
    }
}

/// Sorts by [`cmp_count_entries`] with std's `slice::sort_by`: the entries,
/// read as (chars, count), are a permutation of the input's, and no entry
/// comes before an earlier one.
#[verifier::external_body]
pub(crate) fn sort_count_entries(v: &mut Vec<(Vec<char>, u64)>)
    ensures
        final(v)@.map_values(|e: (Vec<char>, u64)| entry_view(e)).to_multiset() == old(v)@.map_values(
            |e: (Vec<char>, u64)| entry_view(e),
        ).to_multiset(),
        forall|i: int, j: int|
            0 <= i < j < final(v)@.len() ==> !count_before(entry_view(final(v)@[j]), entry_view(final(v)@[i])),
{
    v.sort_by(|a, b| cmp_count_entries(a, b))
}

/// Compares two (key, index) entries: smaller key first, then smaller index.
pub(crate) fn cmp_key_index(a: &(u64, usize), b: &(u64, usize)) -> (o: Ordering)
    ensures
        (o == Ordering::Less) == key_index_before(*a, *b),
        (o == Ordering::Greater) == key_index_before(*b, *a),
{
    if a.0 < b.0 {
        Ordering::Less
    } else if a.0 > b.0 {
        Ordering::Greater
    } else if a.1 < b.1 {
        Ordering::Less
    } else if a.1 > b.1 {
        Ordering::Greater
    } else {
        Ordering::Equal
    }
}

/// Sorts by [`cmp_key_index`] with std's `slice::sort_by`: the result is a
/// permutation of the input in which no entry comes before an earlier one.
#[verifier::external_body]
pub(crate) fn sort_key_index(v: &mut Vec<(u64, usize)>)
    ensures
        final(v)@.to_multiset() == old(v)@.to_multiset(),
        forall|i: int, j: int| 0 <= i < j < final(v)@.len() ==> !key_index_before(final(v)@[j], final(v)@[i]),
{
    v.sort_by(|a, b| cmp_key_index(a, b))
}

/// Two lists, each strictly sorted by the same asymmetric relation, with
/// the same items, are equal.
pub proof fn lemma_sorted_unique<T>(l1: Seq<T>, l2: Seq<T>, before: spec_fn(T, T) -> bool)
    requires
        forall|x: T, y: T| #[trigger] before(x, y) ==> !before(y, x),
        forall|i: int, j: int| 0 <= i < j < l1.len() ==> before(#[trigger] l1[i], #[trigger] l1[j]),
        forall|i: int, j: int| 0 <= i < j < l2.len() ==> before(#[trigger] l2[i], #[trigger] l2[j]),
        forall|x: T| l1.contains(x) <==> l2.contains(x),
    ensures
        l1 == l2,
    decreases l1.len(),
{
    if l1.len() == 0 {
        if l2.len() > 0 {
            assert(l2.contains(l2[0]));
        }
        assert(l1 =~= l2);
    } else {
        assert(l1.contains(l1[0]));
        assert(l2.len() > 0);
        assert(l2.contains(l2[0]));
        let x1 = l1[0];
        let x2 = l2[0];
        if x1 != x2 {
            let i2 = choose|i: int| 0 <= i < l1.len() && l1[i] == x2;
            let i1 = choose|i: int| 0 <= i < l2.len() && l2[i] == x1;
            assert(before(l1[0], l1[i2]));
            assert(before(l2[0], l2[i1]));
            assert(false);
        }
        let t1 = l1.drop_first();
        let t2 = l2.drop_first();
        assert forall|x: T| t1.contains(x) <==> t2.contains(x) by {
            if t1.contains(x) {
                let k = choose|k: int| 0 <= k < t1.len() && t1[k] == x;
                assert(l1[k + 1] == x);
                assert(before(l1[0], l1[k + 1]));
                assert(x != x1);
                assert(l2.contains(x));
                let k2 = choose|k2: int| 0 <= k2 < l2.len() && l2[k2] == x;
                assert(k2 != 0);
                assert(t2[k2 - 1] == x);
            }
            if t2.contains(x) {
                let k = choose|k: int| 0 <= k < t2.len() && t2[k] == x;
                assert(l2[k + 1] == x);
                assert(before(l2[0], l2[k + 1]));
                assert(x != x2);
                assert(l1.contains(x));
                let k1 = choose|k1: int| 0 <= k1 < l1.len() && l1[k1] == x;
                assert(k1 != 0);
                assert(t1[k1 - 1] == x);
            }
        }
        assert forall|i: int, j: int| 0 <= i < j < t1.len() implies before(#[trigger] t1[i], #[trigger] t1[j]) by {
            assert(before(l1[i + 1], l1[j + 1]));
        }
        assert forall|i: int, j: int| 0 <= i < j < t2.len() implies before(#[trigger] t2[i], #[trigger] t2[j]) by {
            assert(before(l2[i + 1], l2[j + 1]));
        }
        lemma_sorted_unique(t1, t2, before);
        assert(l1 =~= seq![x1] + t1);
        assert(l2 =~= seq![x2] + t2);
    }
}

} // verus!
