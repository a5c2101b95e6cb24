//! Pair and token statistics for WordPiece: its score needs the count of
//! the pair and the counts of both tokens.

use vstd::prelude::*;
use rayon::iter::ParallelIterator;
use rayon::slice::ParallelSlice;
use rustc_hash::FxHashMap;
use crate::fxmap::{id_table, id_table_entries, id_table_get, id_table_insert, id_table_new};
use crate::pairs::{lemma_total_len_add, total_len};
use crate::sentencepiece_bpe::pair_stats as bpe_pairs;
use crate::sentencepiece_bpe::pair_stats::{chunk_at, chunk_count, chunk_end, counts_exact, word_seqs};

pub use crate::sentencepiece_bpe::pair_stats::{pack_pair, unpack_pair};

verus! {

/// Adjacent-pair counts and token counts of a corpus of token ids.
pub struct PairStats {
    /// Packed pair to the number of its occurrences.
    pub pair_counts: FxHashMap<u64, u64>,
    /// Token id to the number of its occurrences.
    pub token_counts: FxHashMap<u32, u64>,
}

/// Occurrences of `t` in one sequence.
pub open spec fn item_count<T>(w: Seq<T>, t: T) -> nat
    decreases w.len(),
{
    if w.len() == 0 {
        0
    } else {
        item_count(w.drop_last(), t) + (if w.last() == t { 1nat } else { 0nat })
    }
}

/// Occurrences of `t` over all sequences.
pub open spec fn corpus_items<T>(ws: Seq<Seq<T>>, t: T) -> nat
    decreases ws.len(),
{
    if ws.len() == 0 {
        0
    } else {
        corpus_items(ws.drop_last(), t) + item_count(ws.last(), t)
    }
}

/// The count a table holds for an id, zero when absent.
pub open spec fn id_count(m: Map<u32, u64>, t: u32) -> nat {
    if m.contains_key(t) {
        m[t] as nat
    } else {
        0
    }
}

/// The table holds exactly the tokens of the corpus with their counts.
pub open spec fn items_exact(m: Map<u32, u64>, ws: Seq<Seq<u32>>) -> bool {
    &&& forall|t: u32| #[trigger] id_count(m, t) == corpus_items(ws, t)
    &&& forall|t: u32| #[trigger] m.contains_key(t) ==> m[t] > 0
}

impl PairStats {
    /// Counts pairs and tokens of all words, chunks of words counted in parallel.
    pub fn from_words(words: &[Vec<u32>]) -> (s: Self)
        requires
            total_len(word_seqs(words@)) <= u64::MAX,
        ensures
            counts_exact(crate::fxmap::pair_table(s.pair_counts), word_seqs(words@)),
            items_exact(id_table(s.token_counts), word_seqs(words@)),
    {
        let pairs = bpe_pairs::PairStats::from_words(words);
        let parts = par_count_items(words);
        let mut acc = id_table_new();
        let ghost ws = word_seqs(words@);
        let np = parts.len();
        proof {
            assert(ws.take(0) =~= Seq::<Seq<u32>>::empty());
        }
        for i in 0..np
            invariant
                np == parts@.len(),
                np == chunk_count(words@.len()),
                ws == word_seqs(words@),
                total_len(ws) <= u64::MAX,
                forall|j: int| 0 <= j < np ==> items_exact(
                    #[trigger] id_table(parts@[j]),
                    word_seqs(chunk_at(words@, j)),
                ),
                items_exact(id_table(acc), ws.take(chunk_end(words@.len(), i as int))),
        {
            let ghost before = ws.take(chunk_end(words@.len(), i as int));
            let ghost after = ws.take(chunk_end(words@.len(), i + 1));
            let ghost part = word_seqs(chunk_at(words@, i as int));
            proof {
                bpe_pairs::lemma_chunk_split(words@, i as int);
                assert(after =~= before + part);
                assert forall|t: u32| #[trigger] corpus_items(before, t) + corpus_items(part, t) <= u64::MAX by {
                    lemma_corpus_items_add(before, part, t);
                    lemma_corpus_items_le_total(after, t);
                    crate::pairs::lemma_total_len_take_le(ws, chunk_end(words@.len(), i + 1));
                }
            }
            add_items(&mut acc, &parts[i], Ghost(before), Ghost(part));
            proof {
                assert forall|t: u32| #[trigger] id_count(id_table(acc), t) == corpus_items(after, t) by {
                    lemma_corpus_items_add(before, part, t);
                }
            }
        }
        proof {
            bpe_pairs::lemma_chunk_end_last(words@.len());
            assert(ws.take(words@.len() as int) =~= ws);
        }
        PairStats { pair_counts: pairs.pair_counts, token_counts: acc }
    }
}

proof fn lemma_item_count_le<T>(w: Seq<T>, t: T)
    ensures
        item_count(w, t) <= w.len(),
    decreases w.len(),
{
    if w.len() > 0 {
        lemma_item_count_le(w.drop_last(), t);
    }
}

proof fn lemma_corpus_items_le_total<T>(ws: Seq<Seq<T>>, t: T)
    ensures
        corpus_items(ws, t) <= total_len(ws),
    decreases ws.len(),
{
    if ws.len() > 0 {
        lemma_corpus_items_le_total(ws.drop_last(), t);
        lemma_item_count_le(ws.last(), t);
    }
}

proof fn lemma_corpus_items_add<T>(ws: Seq<Seq<T>>, vs: Seq<Seq<T>>, t: T)
    ensures
        corpus_items(ws + vs, t) == corpus_items(ws, t) + corpus_items(vs, t),
    decreases vs.len(),
{
    if vs.len() == 0 {
        assert(ws + vs =~= ws);
    } else {
        lemma_corpus_items_add(ws, vs.drop_last(), t);
        assert((ws + vs).drop_last() =~= ws + vs.drop_last());
        assert((ws + vs).last() == vs.last());
    }
}

/// Counts tokens in parallel, one task per chunk of words: rayon's
/// `par_chunks`, `map` and an order-keeping `collect`.  Each part is what
/// `count_items` returns for its chunk.
#[verifier::external_body]
fn par_count_items(words: &[Vec<u32>]) -> (parts: Vec<FxHashMap<u32, u64>>)
    requires
        total_len(word_seqs(words@)) <= u64::MAX,
    ensures
        parts@.len() == chunk_count(words@.len()),
        forall|j: int| 0 <= j < parts@.len() ==> items_exact(
            #[trigger] id_table(parts@[j]),
            word_seqs(chunk_at(words@, j)),
        ),
{
    words.par_chunks(bpe_pairs::CHUNK_SIZE).map(|c| count_items(c)).collect()
}

/// Counts the tokens of a chunk of words.
fn count_items(chunk: &[Vec<u32>]) -> (m: FxHashMap<u32, u64>)
    requires
        total_len(word_seqs(chunk@)) <= u64::MAX,
    ensures
        items_exact(id_table(m), word_seqs(chunk@)),
{
    let ghost ws = word_seqs(chunk@);
    let mut m = id_table_new();
    let nw = chunk.len();
    proof {
        assert(ws.take(0) =~= Seq::<Seq<u32>>::empty());
    }
    for i in 0..nw
        invariant
            nw == chunk@.len(),
            ws == word_seqs(chunk@),
            total_len(ws) <= u64::MAX,
            items_exact(id_table(m), ws.take(i as int)),
    {
        let w = &chunk[i];
        let len = w.len();
        let ghost done = ws.take(i as int);
        proof {
            assert(ws.take(i + 1) =~= done.push(w@));
            assert(ws.take(i + 1).drop_last() =~= done);
            crate::pairs::lemma_total_len_take_le(ws, i + 1);
            assert(w@.take(0) =~= Seq::<u32>::empty());
        }
        for j in 0..len
            invariant
                len == w@.len(),
                ws.len() == nw,
                i < nw,
                ws == word_seqs(chunk@),
                w@ == ws[i as int],
                done == ws.take(i as int),
                total_len(ws.take(i + 1)) <= u64::MAX,
                ws.take(i + 1).drop_last() == done,
                ws.take(i + 1).last() == w@,
                forall|t: u32| #[trigger] id_table(m).contains_key(t) ==> id_table(m)[t] > 0,
                forall|t: u32| #[trigger] id_count(id_table(m), t) == corpus_items(done, t) + item_count(
                    w@.take(j as int),
                    t,
                ),
        {
            let x = w[j];
            let c = match id_table_get(&m, x) {
                Some(c) => c,
                None => 0,
            };
            let ghost mold = id_table(m);
            proof {
                assert(w@.take(j + 1).drop_last() =~= w@.take(j as int));
                lemma_item_prefix_le(w@, j + 1, x);
                lemma_corpus_items_le_total(ws.take(i + 1), x);
                assert(corpus_items(ws.take(i + 1), x) == corpus_items(done, x) + item_count(w@, x));
                assert(id_count(mold, x) == c);
            }
            id_table_insert(&mut m, x, c + 1);
            proof {
                assert forall|t: u32| #[trigger] id_count(id_table(m), t) == corpus_items(done, t) + item_count(
                    w@.take(j + 1),
                    t,
                ) by {
                    assert(id_count(mold, t) == corpus_items(done, t) + item_count(w@.take(j as int), t));
                }
            }
        }
        proof {
            assert(w@.take(len as int) =~= w@);
        }
    }
    proof {
        assert(ws.take(nw as int) =~= ws);
    }
    m
}

proof fn lemma_item_prefix_le(w: Seq<u32>, k: int, t: u32)
    requires
        0 <= k <= w.len(),
    ensures
        item_count(w.take(k), t) <= item_count(w, t),
    decreases w.len() - k,
{
    if k < w.len() {
        lemma_item_prefix_le(w, k + 1, t);
        assert(w.take(k + 1).drop_last() =~= w.take(k));
    } else {
        assert(w.take(k) =~= w);
    }
}

/// Adds the counts of `from` into `into`, entry by entry.
fn add_items(
    into: &mut FxHashMap<u32, u64>,
    from: &FxHashMap<u32, u64>,
    Ghost(left): Ghost<Seq<Seq<u32>>>,
    Ghost(right): Ghost<Seq<Seq<u32>>>,
)
    requires
        items_exact(id_table(*old(into)), left),
        items_exact(id_table(*from), right),
        forall|t: u32| #[trigger] corpus_items(left, t) + corpus_items(right, t) <= u64::MAX,
    ensures
        forall|t: u32| #[trigger] id_table(*final(into)).contains_key(t) ==> id_table(*final(into))[t] > 0,
        forall|t: u32| #[trigger] id_count(id_table(*final(into)), t) == corpus_items(left, t) + corpus_items(right, t),
{
    let ghost m0 = id_table(*into);
    let ghost mf = id_table(*from);
    let entries = id_table_entries(from);
    let ne = entries.len();
    let ghost mut done = Map::<u32, u64>::empty();
    for i in 0..ne
        invariant
            ne == entries@.len(),
            mf == id_table(*from),
            forall|j: int| 0 <= j < entries@.len() ==> mf.contains_key(#[trigger] entries@[j].0),
            forall|j: int| 0 <= j < entries@.len() ==> mf[#[trigger] entries@[j].0] == entries@[j].1,
            forall|j: int, l: int| 0 <= j < l < entries@.len() ==> entries@[j].0 != entries@[l].0,
            forall|k: u32| #[trigger] done.contains_key(k) ==> exists|j: int| 0 <= j < i && entries@[j].0 == k,
            forall|j: int| 0 <= j < i ==> #[trigger] done.contains_key(entries@[j].0),
            forall|k: u32| #[trigger] done.contains_key(k) ==> mf.contains_key(k) && done[k] == mf[k],
            forall|k: u32| #[trigger] id_table(*into).contains_key(k) ==> id_table(*into)[k] > 0,
            forall|k: u32| #[trigger] m0.contains_key(k) ==> m0[k] > 0,
            forall|k: u32| #[trigger] mf.contains_key(k) ==> mf[k] > 0,
            forall|k: u32| #[trigger] id_count(m0, k) + id_count(mf, k) <= u64::MAX,
            forall|k: u32| #[trigger] id_count(id_table(*into), k) == id_count(m0, k) + id_count(done, k),
    {
        let k = entries[i].0;
        let v = entries[i].1;
        let c = match id_table_get(into, k) {
            Some(c) => c,
            None => 0,
        };
        let ghost before = id_table(*into);
        proof {
            assert(!done.contains_key(k));
            assert(id_count(before, k) == id_count(m0, k) + id_count(done, k));
            assert(id_count(mf, k) == v);
        }
        id_table_insert(into, k, c + v);
        proof {
            let old_done = done;
            done = done.insert(k, v);
            assert forall|kk: u32| #[trigger] id_count(id_table(*into), kk) == id_count(m0, kk) + id_count(done, kk) by {
                assert(id_count(before, kk) == id_count(m0, kk) + id_count(old_done, kk));
            }
            assert forall|kk: u32| #[trigger] done.contains_key(kk) implies exists|j: int| 0 <= j < i + 1 && entries@[j].0 == kk by {
                if kk != k {
                    assert(old_done.contains_key(kk));
                }
            }
        }
    }
    proof {
        assert forall|k: u32| #[trigger] id_count(done, k) == id_count(mf, k) by {
            if mf.contains_key(k) {
                let j = choose|j: int| 0 <= j < entries@.len() && entries@[j].0 == k;
                assert(done.contains_key(entries@[j].0));
            }
        }
    }
}

} // verus!
