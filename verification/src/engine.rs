//! The merge loop shared by the trainers, on token ids: the corpus as id
//! sequences, its meaning as token strings, the choice of the most frequent
//! pair, and merging that pair everywhere.

use vstd::prelude::*;
use crate::merging::{lemma_merge_len, lemma_merge_map, merge_seq, merge_word, occ_pairs};
use crate::pairs::{
    best_pair, corpus_pairs, is_best_pair, is_candidate, lemma_best_pair_is, lemma_best_pair_none,
    lemma_occ_map, lemma_occ_map_source, merge_all, pair_before, total_len,
};
use crate::sentencepiece_bpe::pair_stats::{
    counts_exact, key_count, lemma_pack_unpack, lemma_unpack_pack, spec_pack_pair, spec_unpack_pair, unpack_pair, word_seqs,
    PairStats,
};
use crate::fxmap::pair_table_entries;
use crate::text::{chars_lt, lemma_seq_lt_total, lemma_seq_lt_transitive, seq_lt};
use crate::vocab::Vocab;

verus! {

/// A word of ids read as token strings.
pub open spec fn id_word(w: Seq<u32>, toks: Seq<Seq<char>>) -> Seq<Seq<char>> {
    w.map_values(|i: u32| toks[i as int])
}

/// A corpus of id words read as token strings.
pub open spec fn id_corpus(ws: Seq<Seq<u32>>, toks: Seq<Seq<char>>) -> Seq<Seq<Seq<char>>> {
    ws.map_values(|w: Seq<u32>| id_word(w, toks))
}

/// Every id of the corpus is below `n`.
pub open spec fn ids_below(ws: Seq<Seq<u32>>, n: nat) -> bool {
    forall|i: int, j: int| 0 <= i < ws.len() && 0 <= j < ws[i].len() ==> #[trigger] ws[i][j] < n
}

/// The order in which candidates are chosen, on explicit counts.
pub open spec fn key_before(x: nat, a: Seq<char>, b: Seq<char>, y: nat, c: Seq<char>, d: Seq<char>) -> bool {
    x > y || (x == y && (seq_lt(a, c) || (a == c && seq_lt(b, d))))
}

proof fn lemma_key_before_transitive(
    x: nat, a: Seq<char>, b: Seq<char>,
    y: nat, c: Seq<char>, d: Seq<char>,
    z: nat, e: Seq<char>, f: Seq<char>,
)
    requires
        key_before(x, a, b, y, c, d),
        key_before(y, c, d, z, e, f),
    ensures
        key_before(x, a, b, z, e, f),
{
    if x == y && y == z {
        if seq_lt(a, c) && seq_lt(c, e) {
            lemma_seq_lt_transitive(a, c, e);
        } else if seq_lt(b, d) && seq_lt(d, f) {
            lemma_seq_lt_transitive(b, d, f);
        }
    }
}

proof fn lemma_key_before_total(x: nat, a: Seq<char>, b: Seq<char>, y: nat, c: Seq<char>, d: Seq<char>)
    requires
        (a, b) != (c, d),
    ensures
        key_before(x, a, b, y, c, d) || key_before(y, c, d, x, a, b),
{
    lemma_seq_lt_total(a, c);
    lemma_seq_lt_total(b, d);
}

/// Reading ids as distinct strings keeps the pair counts.
pub proof fn lemma_corpus_pairs_ids(ws: Seq<Seq<u32>>, toks: Seq<Seq<char>>, a: u32, b: u32)
    requires
        ids_below(ws, toks.len()),
        toks.no_duplicates(),
        a < toks.len(),
        b < toks.len(),
    ensures
        corpus_pairs(id_corpus(ws, toks), toks[a as int], toks[b as int]) == corpus_pairs(ws, a, b),
    decreases ws.len(),
{
    if ws.len() > 0 {
        let f = |i: u32| toks[i as int];
        let dom = |i: u32| (i as int) < toks.len();
        assert(id_corpus(ws, toks).drop_last() =~= id_corpus(ws.drop_last(), toks));
        assert forall|i: int, j: int| 0 <= i < ws.drop_last().len() && 0 <= j < ws.drop_last()[i].len()
            implies #[trigger] ws.drop_last()[i][j] < toks.len() by {
            assert(ws.drop_last()[i] == ws[i]);
        }
        lemma_corpus_pairs_ids(ws.drop_last(), toks, a, b);
        let w = ws.last();
        assert forall|i: int| 0 <= i < w.len() implies dom(#[trigger] w[i]) by {
            assert(ws[ws.len() - 1][i] < toks.len());
        }
        assert forall|x: u32, y: u32| #![trigger f(x), f(y)] dom(x) && dom(y) && f(x) == f(y) implies x == y by {
            if x != y {
                assert(toks[x as int] != toks[y as int]);
            }
        }
        lemma_occ_map(w, a, b, f, dom);
        assert(id_corpus(ws, toks).last() =~= w.map_values(f));
    }
}

/// A pair of strings that occurs in the read corpus is a pair of vocabulary tokens.
pub proof fn lemma_corpus_pairs_source(ws: Seq<Seq<u32>>, toks: Seq<Seq<char>>, c: Seq<char>, d: Seq<char>)
    requires
        ids_below(ws, toks.len()),
        corpus_pairs(id_corpus(ws, toks), c, d) > 0,
    ensures
        exists|a: u32, b: u32| a < toks.len() && b < toks.len() && #[trigger] toks[a as int] == c && #[trigger] toks[b as int] == d,
    decreases ws.len(),
{
    assert(ws.len() > 0);
    assert(id_corpus(ws, toks).drop_last() =~= id_corpus(ws.drop_last(), toks));
    let w = ws.last();
    let f = |i: u32| toks[i as int];
    assert(id_corpus(ws, toks).last() =~= w.map_values(f));
    if occ_pairs(w.map_values(f), c, d) > 0 {
        lemma_occ_map_source(w, c, d, f);
        let k = choose|k: int| 0 <= k && k + 1 < w.len() && f(#[trigger] w[k]) == c && f(w[k + 1]) == d;
        assert(ws[ws.len() - 1][k] < toks.len());
        assert(ws[ws.len() - 1][k + 1] < toks.len());
        assert(toks[w[k] as int] == c && toks[w[k + 1] as int] == d);
    } else {
        assert forall|i: int, j: int| 0 <= i < ws.drop_last().len() && 0 <= j < ws.drop_last()[i].len()
            implies #[trigger] ws.drop_last()[i][j] < toks.len() by {
            assert(ws.drop_last()[i] == ws[i]);
        }
        lemma_corpus_pairs_source(ws.drop_last(), toks, c, d);
    }
}

/// A pair of ids that occurs has ids in range.
pub proof fn lemma_corpus_pairs_in_range(ws: Seq<Seq<u32>>, n: nat, a: u32, b: u32)
    requires
        ids_below(ws, n),
        corpus_pairs(ws, a, b) > 0,
    ensures
        a < n,
        b < n,
    decreases ws.len(),
{
    let w = ws.last();
    let f = |i: u32| i;
    assert(w.map_values(f) =~= w);
    if occ_pairs(w, a, b) > 0 {
        lemma_occ_map_source(w, a, b, f);
        let k = choose|k: int| 0 <= k && k + 1 < w.len() && f(#[trigger] w[k]) == a && f(w[k + 1]) == b;
        assert(ws[ws.len() - 1][k] < n);
        assert(ws[ws.len() - 1][k + 1] < n);
    } else {
        assert forall|i: int, j: int| 0 <= i < ws.drop_last().len() && 0 <= j < ws.drop_last()[i].len()
            implies #[trigger] ws.drop_last()[i][j] < n by {
            assert(ws.drop_last()[i] == ws[i]);
        }
        lemma_corpus_pairs_in_range(ws.drop_last(), n, a, b);
    }
}

/// Adding tokens to the vocabulary does not change how the corpus reads.
pub proof fn lemma_id_corpus_extend(ws: Seq<Seq<u32>>, toks: Seq<Seq<char>>, more: Seq<Seq<char>>)
    requires
        ids_below(ws, toks.len()),
        more.len() >= toks.len(),
        more.take(toks.len() as int) == toks,
    ensures
        id_corpus(ws, more) == id_corpus(ws, toks),
{
    assert forall|i: int| 0 <= i < ws.len() implies #[trigger] id_corpus(ws, more)[i] == id_corpus(ws, toks)[i] by {
        assert forall|j: int| 0 <= j < ws[i].len() implies #[trigger] id_word(ws[i], more)[j] == id_word(
            ws[i],
            toks,
        )[j] by {
            assert(ws[i][j] < toks.len());
            assert(more.take(toks.len() as int)[ws[i][j] as int] == more[ws[i][j] as int]);
        }
        assert(id_word(ws[i], more) =~= id_word(ws[i], toks));
    }
    assert(id_corpus(ws, more) =~= id_corpus(ws, toks));
}

/// Merging ids is merging the tokens they stand for.
pub proof fn lemma_merge_all_ids(ws: Seq<Seq<u32>>, toks: Seq<Seq<char>>, a: u32, b: u32, m: u32)
    requires
        ids_below(ws, toks.len()),
        toks.no_duplicates(),
        a < toks.len(),
        b < toks.len(),
        m < toks.len(),
    ensures
        id_corpus(merge_all(ws, a, b, m), toks) == merge_all(
            id_corpus(ws, toks),
            toks[a as int],
            toks[b as int],
            toks[m as int],
        ),
        ids_below(merge_all(ws, a, b, m), toks.len()),
{
    let f = |i: u32| toks[i as int];
    let dom = |i: u32| (i as int) < toks.len();
    assert forall|x: u32, y: u32| #![trigger f(x), f(y)] dom(x) && dom(y) && f(x) == f(y) implies x == y by {
        if x != y {
            assert(toks[x as int] != toks[y as int]);
        }
    }
    assert forall|i: int| 0 <= i < ws.len() implies #[trigger] id_corpus(merge_all(ws, a, b, m), toks)[i]
        == merge_all(id_corpus(ws, toks), toks[a as int], toks[b as int], toks[m as int])[i] by {
        let w = ws[i];
        assert forall|j: int| 0 <= j < w.len() implies dom(#[trigger] w[j]) by {
            assert(ws[i][j] < toks.len());
        }
        lemma_merge_map(w, a, b, m, f, dom);
    }
    assert(id_corpus(merge_all(ws, a, b, m), toks) =~= merge_all(
        id_corpus(ws, toks),
        toks[a as int],
        toks[b as int],
        toks[m as int],
    ));
    assert forall|i: int, j: int| 0 <= i < merge_all(ws, a, b, m).len() && 0 <= j < merge_all(ws, a, b, m)[i].len()
        implies #[trigger] merge_all(ws, a, b, m)[i][j] < toks.len() by {
        lemma_merge_ids_below(ws[i], a, b, m, toks.len());
        assert(ids_word_below(ws[i], toks.len())) by {
            assert forall|k: int| 0 <= k < ws[i].len() implies #[trigger] ws[i][k] < toks.len() by {
                assert(ws[i][k] < toks.len());
            }
        }
    }
}

/// Every id of one word is below `n`.
pub open spec fn ids_word_below(w: Seq<u32>, n: nat) -> bool {
    forall|k: int| 0 <= k < w.len() ==> #[trigger] w[k] < n
}

proof fn lemma_merge_ids_below(w: Seq<u32>, a: u32, b: u32, m: u32, n: nat)
    requires
        ids_word_below(w, n),
        m < n,
    ensures
        ids_word_below(merge_seq(w, a, b, m), n),
    decreases w.len(),
{
    if w.len() >= 2 {
        assert(ids_word_below(w.skip(2), n)) by {
            assert forall|k: int| 0 <= k < w.skip(2).len() implies #[trigger] w.skip(2)[k] < n by {
                assert(w.skip(2)[k] == w[k + 2]);
            }
        }
        assert(ids_word_below(w.skip(1), n)) by {
            assert forall|k: int| 0 <= k < w.skip(1).len() implies #[trigger] w.skip(1)[k] < n by {
                assert(w.skip(1)[k] == w[k + 1]);
            }
        }
        lemma_merge_ids_below(w.skip(2), a, b, m, n);
        lemma_merge_ids_below(w.skip(1), a, b, m, n);
        let r = merge_seq(w, a, b, m);
        assert forall|k: int| 0 <= k < r.len() implies #[trigger] r[k] < n by {
            if k > 0 {
                if w[0] == a && w[1] == b {
                    assert(r[k] == merge_seq(w.skip(2), a, b, m)[k - 1]);
                } else {
                    assert(r[k] == merge_seq(w.skip(1), a, b, m)[k - 1]);
                }
            }
        }
    }
}

/// Merging never adds tokens to the corpus.
pub proof fn lemma_merge_all_total<T>(ws: Seq<Seq<T>>, a: T, b: T, m: T)
    ensures
        total_len(merge_all(ws, a, b, m)) <= total_len(ws),
        corpus_pairs(ws, a, b) > 0 ==> total_len(merge_all(ws, a, b, m)) < total_len(ws),
    decreases ws.len(),
{
    if ws.len() > 0 {
        lemma_merge_all_total(ws.drop_last(), a, b, m);
        assert(merge_all(ws, a, b, m).drop_last() =~= merge_all(ws.drop_last(), a, b, m));
        lemma_merge_len(ws.last(), a, b, m);
    }
}

/// Reading ids as strings keeps token totals.
pub proof fn lemma_id_corpus_total(ws: Seq<Seq<u32>>, toks: Seq<Seq<char>>)
    ensures
        total_len(id_corpus(ws, toks)) == total_len(ws),
    decreases ws.len(),
{
    if ws.len() > 0 {
        assert(id_corpus(ws, toks).drop_last() =~= id_corpus(ws.drop_last(), toks));
        lemma_id_corpus_total(ws.drop_last(), toks);
    }
}

/// The pair to merge next: the candidate that occurs most often, ties going to
/// the lexicographically smaller left token, then right token.
pub(crate) fn best_pair_by_freq(
    stats: &PairStats,
    vocab: &Vocab,
    min_pair_count: u64,
    Ghost(ws): Ghost<Seq<Seq<u32>>>,
) -> (r: Option<(u32, u32)>)
    requires
        vocab.wf(),
        counts_exact(stats.counts(), ws),
        ids_below(ws, vocab.toks().len()),
    ensures
        match r {
            Some((a, b)) => a < vocab.toks().len() && b < vocab.toks().len() && best_pair(
                id_corpus(ws, vocab.toks()),
                min_pair_count,
            ) == Some((vocab.toks()[a as int], vocab.toks()[b as int])),
            None => best_pair(id_corpus(ws, vocab.toks()), min_pair_count) is None,
        },
{
    let ghost toks = vocab.toks();
    let ghost m = stats.counts();
    let entries = pair_table_entries(&stats.pair_counts);
    let ne = entries.len();
    let mut best: Option<(u32, u32, u64)> = None;
    for i in 0..ne
        invariant
            ne == entries@.len(),
            vocab.wf(),
            toks == vocab.toks(),
            m == stats.counts(),
            counts_exact(m, ws),
            ids_below(ws, toks.len()),
            forall|j: int| 0 <= j < entries@.len() ==> m.contains_key(#[trigger] entries@[j].0),
            forall|j: int| 0 <= j < entries@.len() ==> m[#[trigger] entries@[j].0] == entries@[j].1,
            match best {
                Some((a, b, c)) => {
                    &&& a < toks.len()
                    &&& b < toks.len()
                    &&& c == corpus_pairs(ws, a, b)
                    &&& c >= min_pair_count
                    &&& c > 0
                    &&& forall|j: int| 0 <= j < i && #[trigger] entries@[j].1 >= min_pair_count ==> {
                        let (x, y) = spec_unpack_pair(entries@[j].0);
                        (x, y) == (a, b) || key_before(
                            c as nat,
                            toks[a as int],
                            toks[b as int],
                            entries@[j].1 as nat,
                            toks[x as int],
                            toks[y as int],
                        )
                    }
                },
                None => forall|j: int| 0 <= j < i ==> #[trigger] entries@[j].1 < min_pair_count,
            },
    {
        let (key, count) = entries[i];
        if count >= min_pair_count {
            let (x, y) = unpack_pair(key);
            proof {
                assert(m.contains_key(key));
                assert(key_count(m, spec_pack_pair(x, y)) == corpus_pairs(ws, x, y));
                assert(m[key] > 0);
                lemma_corpus_pairs_in_range(ws, toks.len(), x, y);
            }
            let better = match best {
                None => true,
                Some((a, b, c)) => {
                    count > c || (count == c && (chars_lt(&vocab.chars[x as usize], &vocab.chars[a as usize])
                        || (x == a && chars_lt(&vocab.chars[y as usize], &vocab.chars[b as usize]))))
                },
            };
            proof {
                if let Some((a, b, c)) = best {
                    assert(vocab.chars@[x as int]@ == toks[x as int]);
                    assert(vocab.chars@[a as int]@ == toks[a as int]);
                    assert(vocab.chars@[y as int]@ == toks[y as int]);
                    assert(vocab.chars@[b as int]@ == toks[b as int]);
                    assert((x == a) == (toks[x as int] == toks[a as int]));
                    assert(better == key_before(count as nat, toks[x as int], toks[y as int], c as nat, toks[a as int], toks[b as int]));
                }
            }
            if better {
                proof {
                    if let Some((a, b, c)) = best {
                        assert forall|j: int| 0 <= j < i && #[trigger] entries@[j].1 >= min_pair_count implies {
                            let (xx, yy) = spec_unpack_pair(entries@[j].0);
                            (xx, yy) == (x, y) || key_before(
                                count as nat,
                                toks[x as int],
                                toks[y as int],
                                entries@[j].1 as nat,
                                toks[xx as int],
                                toks[yy as int],
                            )
                        } by {
                            let (xx, yy) = spec_unpack_pair(entries@[j].0);
                            lemma_pack_unpack(entries@[j].0);
                            assert(m.contains_key(entries@[j].0));
                            assert(key_count(m, spec_pack_pair(xx, yy)) == corpus_pairs(ws, xx, yy));
                            if (xx, yy) != (a, b) {
                                lemma_key_before_transitive(
                                    count as nat, toks[x as int], toks[y as int],
                                    c as nat, toks[a as int], toks[b as int],
                                    entries@[j].1 as nat, toks[xx as int], toks[yy as int],
                                );
                            }
                        }
                    }
                }
                best = Some((x, y, count));
            } else {
                proof {
                    let (a, b, c) = best->0;
                    if (x, y) != (a, b) {
                        assert(toks[x as int] != toks[a as int] || toks[y as int] != toks[b as int]);
                        lemma_key_before_total(count as nat, toks[x as int], toks[y as int], c as nat, toks[a as int], toks[b as int]);
                    }
                    lemma_pack_unpack(key);
                }
            }
        }
    }
    match best {
        None => {
            proof {
                assert forall|c: Seq<char>, d: Seq<char>| !#[trigger] is_candidate(id_corpus(ws, toks), min_pair_count, c, d) by {
                    if is_candidate(id_corpus(ws, toks), min_pair_count, c, d) {
                        lemma_corpus_pairs_source(ws, toks, c, d);
                        let (a, b) = choose|a: u32, b: u32| a < toks.len() && b < toks.len() && #[trigger] toks[a as int] == c && #[trigger] toks[b as int] == d;
                        lemma_corpus_pairs_ids(ws, toks, a, b);
                        let k = spec_pack_pair(a, b);
                        assert(key_count(m, k) == corpus_pairs(ws, a, b));
                        assert(m.contains_key(k));
                        let j = choose|j: int| 0 <= j < entries@.len() && entries@[j].0 == k;
                        assert(entries@[j].1 < min_pair_count);
                    }
                }
                lemma_best_pair_none(id_corpus(ws, toks), min_pair_count);
            }
            None
        },
        Some((a, b, c)) => {
            proof {
                let cw = id_corpus(ws, toks);
                lemma_corpus_pairs_ids(ws, toks, a, b);
                assert forall|cc: Seq<char>, dd: Seq<char>|
                    #[trigger] is_candidate(cw, min_pair_count, cc, dd) && (cc, dd) != (toks[a as int], toks[b as int])
                    implies pair_before(cw, toks[a as int], toks[b as int], cc, dd) by {
                    lemma_corpus_pairs_source(ws, toks, cc, dd);
                    let (x, y) = choose|x: u32, y: u32| x < toks.len() && y < toks.len() && #[trigger] toks[x as int] == cc && #[trigger] toks[y as int] == dd;
                    lemma_corpus_pairs_ids(ws, toks, x, y);
                    let k = spec_pack_pair(x, y);
                    assert(key_count(m, k) == corpus_pairs(ws, x, y));
                    assert(m.contains_key(k));
                    let j = choose|j: int| 0 <= j < entries@.len() && entries@[j].0 == k;
                    assert(entries@[j].1 >= min_pair_count);
                    lemma_unpack_pack(x, y);
                }
                assert(is_best_pair(cw, min_pair_count, toks[a as int], toks[b as int]));
                lemma_best_pair_is(cw, min_pair_count, toks[a as int], toks[b as int]);
            }
            Some((a, b))
        },
    }
}

/// Merges the pair in every word.
pub(crate) fn apply_merge(words: &mut Vec<Vec<u32>>, left: u32, right: u32, merged: u32)
    ensures
        word_seqs(final(words)@) == merge_all(word_seqs(old(words)@), left, right, merged),
{
    let n = words.len();
    for i in 0..n
        invariant
            n == words@.len(),
            n == old(words)@.len(),
            forall|j: int| 0 <= j < i ==> (#[trigger] words@[j])@ == merge_seq(old(words)@[j]@, left, right, merged),
            forall|j: int| i <= j < n ==> #[trigger] words@[j] == old(words)@[j],
    {
        let mut w: Vec<u32> = Vec::new();
        std::mem::swap(&mut w, &mut words[i]);
        merge_word(&mut w, left, right, merged);
        words.set(i, w);
    }
    proof {
        assert(word_seqs(words@) =~= merge_all(word_seqs(old(words)@), left, right, merged));
    }
}

} // verus!
