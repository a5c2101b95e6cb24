//! Counting adjacent pairs over a corpus of token sequences, and the choice
//! of the pair to merge next: the most frequent, ties going to the pair
//! whose left (then right) token comes first lexicographically.

use vstd::prelude::*;
use crate::merging::{merge_seq, occ_pairs};
use crate::text::{lemma_seq_lt_irreflexive, lemma_seq_lt_total, seq_lt};

verus! {

/// Occurrences of the adjacent pair `(a, b)` over all sequences.
pub open spec fn corpus_pairs<T>(ws: Seq<Seq<T>>, a: T, b: T) -> nat
    decreases ws.len(),
{
    if ws.len() == 0 {
        0
    } else {
        corpus_pairs(ws.drop_last(), a, b) + occ_pairs(ws.last(), a, b)
    }
}

/// Total number of tokens over all sequences.
pub open spec fn total_len<T>(ws: Seq<Seq<T>>) -> nat
    decreases ws.len(),
{
    if ws.len() == 0 {
        0
    } else {
        total_len(ws.drop_last()) + ws.last().len()
    }
}

/// Every sequence merged with the same rule.
pub open spec fn merge_all<T>(ws: Seq<Seq<T>>, a: T, b: T, m: T) -> Seq<Seq<T>> {
    ws.map_values(|w: Seq<T>| merge_seq(w, a, b, m))
}

/// A pair may be merged when it occurs at least once and at least `min` times.
pub open spec fn is_candidate(ws: Seq<Seq<Seq<char>>>, min: u64, a: Seq<char>, b: Seq<char>) -> bool {
    corpus_pairs(ws, a, b) > 0 && corpus_pairs(ws, a, b) >= min
}

/// `(a, b)` goes before `(c, d)`: more frequent, or as frequent and
/// lexicographically smaller by the left token, then by the right one.
pub open spec fn pair_before(
    ws: Seq<Seq<Seq<char>>>,
    a: Seq<char>,
    b: Seq<char>,
    c: Seq<char>,
    d: Seq<char>,
) -> bool {
    let x = corpus_pairs(ws, a, b);
    let y = corpus_pairs(ws, c, d);
    x > y || (x == y && (seq_lt(a, c) || (a == c && seq_lt(b, d))))
}

/// `(a, b)` is the candidate that goes before every other candidate.
pub open spec fn is_best_pair(ws: Seq<Seq<Seq<char>>>, min: u64, a: Seq<char>, b: Seq<char>) -> bool {
    &&& is_candidate(ws, min, a, b)
    &&& forall|c: Seq<char>, d: Seq<char>|
        #![trigger is_candidate(ws, min, c, d)]
        is_candidate(ws, min, c, d) && (c, d) != (a, b) ==> pair_before(ws, a, b, c, d)
}

/// The pair to merge next, if any pair is a candidate.
pub open spec fn best_pair(ws: Seq<Seq<Seq<char>>>, min: u64) -> Option<(Seq<char>, Seq<char>)> {
    if exists|a: Seq<char>, b: Seq<char>| is_best_pair(ws, min, a, b) {
        Some(choose|a: Seq<char>, b: Seq<char>| is_best_pair(ws, min, a, b))
    } else {
        None
    }
}

/// There is at most one best pair.
pub proof fn lemma_best_pair_unique(
    ws: Seq<Seq<Seq<char>>>,
    min: u64,
    a: Seq<char>,
    b: Seq<char>,
    c: Seq<char>,
    d: Seq<char>,
)
    requires
        is_best_pair(ws, min, a, b),
        is_best_pair(ws, min, c, d),
    ensures
        a == c && b == d,
{
    if (a, b) != (c, d) {
        assert(is_candidate(ws, min, c, d));
        assert(is_candidate(ws, min, a, b));
        assert(pair_before(ws, a, b, c, d));
        assert(pair_before(ws, c, d, a, b));
        lemma_seq_lt_total(a, c);
        lemma_seq_lt_total(b, d);
        lemma_seq_lt_irreflexive(a);
    }
}

/// A best pair is the one `best_pair` names.
pub proof fn lemma_best_pair_is(ws: Seq<Seq<Seq<char>>>, min: u64, a: Seq<char>, b: Seq<char>)
    requires
        is_best_pair(ws, min, a, b),
    ensures
        best_pair(ws, min) == Some((a, b)),
{
    let (x, y) = choose|x: Seq<char>, y: Seq<char>| is_best_pair(ws, min, x, y);
    lemma_best_pair_unique(ws, min, a, b, x, y);
}

/// With no candidate there is no pair to merge.
pub proof fn lemma_best_pair_none(ws: Seq<Seq<Seq<char>>>, min: u64)
    requires
        forall|a: Seq<char>, b: Seq<char>| !#[trigger] is_candidate(ws, min, a, b),
    ensures
        best_pair(ws, min) is None,
{
}

/// A sequence never holds more pairs than items.
pub proof fn lemma_occ_le_len<T>(w: Seq<T>, a: T, b: T)
    ensures
        occ_pairs(w, a, b) <= w.len(),
    decreases w.len(),
{
    if w.len() >= 2 {
        lemma_occ_le_len(w.drop_last(), a, b);
    }
}

/// A corpus never holds more pairs than tokens.
pub proof fn lemma_corpus_pairs_le_total<T>(ws: Seq<Seq<T>>, a: T, b: T)
    ensures
        corpus_pairs(ws, a, b) <= total_len(ws),
    decreases ws.len(),
{
    if ws.len() > 0 {
        lemma_corpus_pairs_le_total(ws.drop_last(), a, b);
        lemma_occ_le_len(ws.last(), a, b);
    }
}

/// Pair counts of a concatenated corpus add up.
pub proof fn lemma_corpus_pairs_add<T>(ws: Seq<Seq<T>>, vs: Seq<Seq<T>>, a: T, b: T)
    ensures
        corpus_pairs(ws + vs, a, b) == corpus_pairs(ws, a, b) + corpus_pairs(vs, a, b),
    decreases vs.len(),
{
    if vs.len() == 0 {
        assert(ws + vs =~= ws);
    } else {
        lemma_corpus_pairs_add(ws, vs.drop_last(), a, b);
        assert((ws + vs).drop_last() =~= ws + vs.drop_last());
        assert((ws + vs).last() == vs.last());
    }
}

/// Token totals of a concatenated corpus add up.
pub proof fn lemma_total_len_add<T>(ws: Seq<Seq<T>>, vs: Seq<Seq<T>>)
    ensures
        total_len(ws + vs) == total_len(ws) + total_len(vs),
    decreases vs.len(),
{
    if vs.len() == 0 {
        assert(ws + vs =~= ws);
    } else {
        lemma_total_len_add(ws, vs.drop_last());
        assert((ws + vs).drop_last() =~= ws + vs.drop_last());
        assert((ws + vs).last() == vs.last());
    }
}

/// Counting the pairs of a prefix one window further.
pub proof fn lemma_occ_take_step<T>(w: Seq<T>, j: int, a: T, b: T)
    requires
        0 <= j,
        j + 2 <= w.len(),
    ensures
        occ_pairs(w.take(j + 2), a, b) == occ_pairs(w.take(j + 1), a, b) + (if w[j] == a && w[j + 1]
            == b {
            1nat
        } else {
            0nat
        }),
{
    assert(w.take(j + 2).drop_last() =~= w.take(j + 1));
}

/// Counting over the whole of a sequence from its prefixes.
pub proof fn lemma_occ_take_all<T>(w: Seq<T>, a: T, b: T)
    ensures
        occ_pairs(w.take(w.len() as int), a, b) == occ_pairs(w, a, b),
        w.len() >= 1 ==> occ_pairs(w.take(1), a, b) == 0,
{
    assert(w.take(w.len() as int) =~= w);
}

/// Mapping the items by a function that is injective on them keeps the pair counts.
pub proof fn lemma_occ_map<T, U>(w: Seq<T>, a: T, b: T, f: spec_fn(T) -> U, dom: spec_fn(T) -> bool)
    requires
        forall|i: int| 0 <= i < w.len() ==> dom(#[trigger] w[i]),
        dom(a),
        dom(b),
        forall|x: T, y: T| #![trigger f(x), f(y)] dom(x) && dom(y) && f(x) == f(y) ==> x == y,
    ensures
        occ_pairs(w.map_values(f), f(a), f(b)) == occ_pairs(w, a, b),
    decreases w.len(),
{
    if w.len() >= 2 {
        let fw = w.map_values(f);
        assert(fw.drop_last() =~= w.drop_last().map_values(f));
        lemma_occ_map(w.drop_last(), a, b, f, dom);
        let x = w[w.len() - 2];
        let y = w[w.len() - 1];
        assert(dom(x) && dom(y));
        assert(fw[fw.len() - 2] == f(x));
        assert(fw[fw.len() - 1] == f(y));
    }
}

/// A pair that occurs in the mapped sequence comes from a pair of items.
pub proof fn lemma_occ_map_source<T, U>(w: Seq<T>, c: U, d: U, f: spec_fn(T) -> U)
    requires
        occ_pairs(w.map_values(f), c, d) > 0,
    ensures
        exists|k: int| 0 <= k && k + 1 < w.len() && f(#[trigger] w[k]) == c && f(w[k + 1]) == d,
    decreases w.len(),
{
    let fw = w.map_values(f);
    assert(w.len() >= 2);
    if fw[fw.len() - 2] == c && fw[fw.len() - 1] == d {
        assert(f(w[w.len() - 2]) == c && f(w[w.len() - 1]) == d);
    } else {
        assert(fw.drop_last() =~= w.drop_last().map_values(f));
        lemma_occ_map_source(w.drop_last(), c, d, f);
        let k = choose|k: int| 0 <= k && k + 1 < w.drop_last().len() && f(#[trigger] w.drop_last()[k]) == c
            && f(w.drop_last()[k + 1]) == d;
        assert(w.drop_last()[k] == w[k]);
        assert(w.drop_last()[k + 1] == w[k + 1]);
    }
}

/// The pair that [`best_pair`] names occurs.
pub proof fn lemma_best_pair_occurs(ws: Seq<Seq<Seq<char>>>, min: u64)
    ensures
        best_pair(ws, min) matches Some((a, b)) ==> corpus_pairs(ws, a, b) > 0,
{
    if exists|a: Seq<char>, b: Seq<char>| is_best_pair(ws, min, a, b) {
        let (a, b) = choose|a: Seq<char>, b: Seq<char>| is_best_pair(ws, min, a, b);
        assert(is_best_pair(ws, min, a, b));
    }
}

/// A prefix of a corpus has no more tokens than the corpus.
pub proof fn lemma_total_len_take_le<T>(ws: Seq<Seq<T>>, k: int)
    requires
        0 <= k <= ws.len(),
    ensures
        total_len(ws.take(k)) <= total_len(ws),
    decreases ws.len() - k,
{
    if k < ws.len() {
        lemma_total_len_take_le(ws, k + 1);
        assert(ws.take(k + 1).drop_last() =~= ws.take(k));
    } else {
        assert(ws.take(k) =~= ws);
    }
}

} // verus!
