//! Pair packing and pair statistics.

use vstd::prelude::*;
use rayon::iter::ParallelIterator;
use rayon::slice::ParallelSlice;
use rustc_hash::FxHashMap;
use crate::fxmap::{pair_table, pair_table_entries, pair_table_get, pair_table_insert, pair_table_new};
use crate::pairs::{corpus_pairs, lemma_corpus_pairs_add, lemma_corpus_pairs_le_total, lemma_occ_take_all,
    lemma_occ_take_step, lemma_total_len_add, total_len};

verus! {

/// How many words one parallel counting task takes.
pub const CHUNK_SIZE: usize = 2048;

/// Adjacent-pair counts of a corpus of token ids.
pub struct PairStats {
    /// Packed pair to the number of its occurrences.
    pub pair_counts: FxHashMap<u64, u64>,
}

/// The id sequences of a list of words.
pub open spec fn word_seqs(words: Seq<Vec<u32>>) -> Seq<Seq<u32>> {
    words.map_values(|w: Vec<u32>| w@)
}

/// The count a table holds for a key, zero when absent.
pub open spec fn key_count(m: Map<u64, u64>, k: u64) -> nat {
    if m.contains_key(k) {
        m[k] as nat
    } else {
        0
    }
}

/// The table holds exactly the pairs of the corpus with their counts.
pub open spec fn counts_exact(m: Map<u64, u64>, ws: Seq<Seq<u32>>) -> bool {
    &&& forall|a: u32, b: u32| #[trigger] key_count(m, spec_pack_pair(a, b)) == corpus_pairs(ws, a, b)
    &&& forall|k: u64| #[trigger] m.contains_key(k) ==> m[k] > 0
}

/// The `i`-th chunk of [`CHUNK_SIZE`] words (the last one may be shorter).
pub open spec fn chunk_at<T>(ws: Seq<T>, i: int) -> Seq<T> {
    let end = if (i + 1) * 2048 <= ws.len() { (i + 1) * 2048 } else { ws.len() as int };
    ws.subrange(i * 2048, end)
}

/// Number of chunks of [`CHUNK_SIZE`] words.
pub open spec fn chunk_count(n: nat) -> nat {
    ((n + 2047) / 2048) as nat
}

/// The packed key of a pair of token ids: `a` in the high half, `b` in the low half.
pub open spec fn spec_pack_pair(a: u32, b: u32) -> u64 {
    ((a as u64) << 32u64) | (b as u64)
}

/// The pair of ids a packed key stands for.
pub open spec fn spec_unpack_pair(p: u64) -> (u32, u32) {
    ((p >> 32u64) as u32, (p & 0xFFFF_FFFFu64) as u32)
}

/// Packs a pair of ids into one `u64` key.
pub fn pack_pair(a: u32, b: u32) -> (p: u64)
    ensures
        p == spec_pack_pair(a, b),
        spec_unpack_pair(p) == (a, b),
{
    proof { lemma_unpack_pack(a, b); }
    ((a as u64) << 32) | (b as u64)
}

/// Unpacks a key made by [`pack_pair`].
pub fn unpack_pair(p: u64) -> (r: (u32, u32))
    ensures
        r == spec_unpack_pair(p),
        spec_pack_pair(r.0, r.1) == p,
{
    proof { lemma_pack_unpack(p); }
    ((p >> 32) as u32, (p & 0xFFFF_FFFF) as u32)
}

impl PairStats {
    /// The counts the table holds.
    pub open spec fn counts(&self) -> Map<u64, u64> {
        pair_table(self.pair_counts)
    }

    /// Counts the adjacent pairs of all words, chunks of words counted in parallel.
    pub fn from_words(words: &[Vec<u32>]) -> (s: Self)
        requires
            total_len(word_seqs(words@)) <= u64::MAX,
        ensures
            counts_exact(s.counts(), word_seqs(words@)),
    {
        let parts = par_count_chunks(words);
        let mut acc = pair_table_new();
        let ghost ws = word_seqs(words@);
        let np = parts.len();
        proof {
            assert(ws.take(0) =~= Seq::<Seq<u32>>::empty());
        }
        for i in 0..np
            invariant
                np == parts@.len(),
                np == chunk_count(words@.len()),
                ws == word_seqs(words@),
                total_len(ws) <= u64::MAX,
                forall|j: int| 0 <= j < np ==> counts_exact(
                    #[trigger] pair_table(parts@[j]),
                    word_seqs(chunk_at(words@, j)),
                ),
                counts_exact(pair_table(acc), ws.take(chunk_end(words@.len(), i as int))),
        {
            let ghost before = ws.take(chunk_end(words@.len(), i as int));
            let ghost after = ws.take(chunk_end(words@.len(), i + 1));
            let ghost part = word_seqs(chunk_at(words@, i as int));
            proof {
                lemma_chunk_split(words@, i as int);
                assert(after =~= before + part);
                assert forall|a: u32, b: u32| #[trigger] corpus_pairs(before, a, b) + corpus_pairs(part, a, b)
                    <= u64::MAX by {
                    lemma_corpus_pairs_add(before, part, a, b);
                    lemma_corpus_pairs_le_total(after, a, b);
                    crate::pairs::lemma_total_len_take_le(ws, chunk_end(words@.len(), i + 1));
                }
            }
            add_counts(&mut acc, &parts[i], Ghost(before), Ghost(part));
            proof {
                assert forall|a: u32, b: u32| #[trigger] key_count(pair_table(acc), spec_pack_pair(a, b))
                    == corpus_pairs(after, a, b) by {
                    lemma_corpus_pairs_add(before, part, a, b);
                }
            }
        }
        proof {
            lemma_chunk_end_last(words@.len());
            assert(ws.take(words@.len() as int) =~= ws);
        }
        PairStats { pair_counts: acc }
    }
}

/// Where the first `i` chunks end.
pub open spec fn chunk_end(n: nat, i: int) -> int {
    if i * 2048 <= n { i * 2048 } else { n as int }
}

pub proof fn lemma_chunk_split<T>(ws: Seq<Vec<T>>, i: int)
    requires
        0 <= i < chunk_count(ws.len()),
    ensures
        ws.map_values(|w: Vec<T>| w@).take(chunk_end(ws.len(), i + 1)) =~= ws.map_values(|w: Vec<T>| w@).take(
            chunk_end(ws.len(), i),
        ) + chunk_at(ws, i).map_values(|w: Vec<T>| w@),
        chunk_end(ws.len(), i) == i * 2048,
{
    assert(i * 2048 < ws.len()) by (nonlinear_arith)
        requires
            0 <= i < (ws.len() + 2047) / 2048,
    ;
}

pub proof fn lemma_chunk_end_last(n: nat)
    ensures
        chunk_end(n, chunk_count(n) as int) == n,
{
    assert(chunk_count(n) * 2048 >= n) by (nonlinear_arith)
        requires
            chunk_count(n) == (n + 2047) / 2048,
    ;
}

/// Counts in parallel, one task per chunk of [`CHUNK_SIZE`] words: rayon's
/// `par_chunks`, `map` and an order-keeping `collect`.  Each part is what
/// `count_chunk` returns for its chunk.
#[verifier::external_body]
fn par_count_chunks(words: &[Vec<u32>]) -> (parts: Vec<FxHashMap<u64, u64>>)
    requires
        total_len(word_seqs(words@)) <= u64::MAX,
    ensures
        parts@.len() == chunk_count(words@.len()),
        forall|j: int| 0 <= j < parts@.len() ==> counts_exact(
            #[trigger] pair_table(parts@[j]),
            word_seqs(chunk_at(words@, j)),
        ),
{
    words.par_chunks(CHUNK_SIZE).map(|c| count_chunk(c)).collect()
}

/// Counts the adjacent pairs of a chunk of words, one window at a time.
fn count_chunk(chunk: &[Vec<u32>]) -> (m: FxHashMap<u64, u64>)
    requires
        total_len(word_seqs(chunk@)) <= u64::MAX,
    ensures
        counts_exact(pair_table(m), word_seqs(chunk@)),
{
    let ghost ws = word_seqs(chunk@);
    let mut m = pair_table_new();
    let nw = chunk.len();
    proof {
        assert(ws.take(0) =~= Seq::<Seq<u32>>::empty());
    }
    for i in 0..nw
        invariant
            nw == chunk@.len(),
            ws == word_seqs(chunk@),
            total_len(ws) <= u64::MAX,
            counts_exact(pair_table(m), ws.take(i as int)),
    {
        let w = &chunk[i];
        let len = w.len();
        let ghost done = ws.take(i as int);
        proof {
            assert(ws.take(i + 1) =~= done.push(w@));
            assert(ws.take(i + 1).drop_last() =~= done);
            crate::pairs::lemma_total_len_take_le(ws, i + 1);
        }
        if len >= 2 {
            proof {
                lemma_occ_take_all(w@, 0, 0);
                assert forall|a: u32, b: u32| #[trigger] key_count(pair_table(m), spec_pack_pair(a, b))
                    == corpus_pairs(done, a, b) + crate::merging::occ_pairs(w@.take(1), a, b) by {
                    lemma_occ_take_all(w@, a, b);
                }
            }
            for j in 0..len - 1
                invariant
                    len == w@.len(),
                    len >= 2,
                    ws.len() == nw,
                    i < nw,
                    ws == word_seqs(chunk@),
                    w@ == ws[i as int],
                    done == ws.take(i as int),
                    total_len(ws.take(i + 1)) <= u64::MAX,
                    ws.take(i + 1).drop_last() == done,
                    ws.take(i + 1).last() == w@,
                    forall|k: u64| #[trigger] pair_table(m).contains_key(k) ==> pair_table(m)[k] > 0,
                    forall|a: u32, b: u32| #[trigger] key_count(pair_table(m), spec_pack_pair(a, b))
                        == corpus_pairs(done, a, b) + crate::merging::occ_pairs(w@.take(j + 1), a, b),
            {
                let x = w[j];
                let y = w[j + 1];
                let key = pack_pair(x, y);
                let c = match pair_table_get(&m, key) {
                    Some(c) => c,
                    None => 0,
                };
                proof {
                    lemma_occ_take_step(w@, j as int, x, y);
                    lemma_corpus_pairs_le_total(ws.take(i + 1), x, y);
                    assert(w@.take(j + 2) =~= w@.take(len as int).take(j + 2));
                    crate::pairs::lemma_occ_le_len(w@.take(j + 2), x, y);
                    lemma_occ_prefix_le(w@, j + 2, x, y);
                    assert(key_count(pair_table(m), key) == c);
                    assert(corpus_pairs(ws.take(i + 1), x, y) == corpus_pairs(done, x, y)
                        + crate::merging::occ_pairs(w@, x, y));
                }
                let ghost mold = pair_table(m);
                pair_table_insert(&mut m, key, c + 1);
                proof {
                    assert forall|a: u32, b: u32| #[trigger] key_count(pair_table(m), spec_pack_pair(a, b))
                        == corpus_pairs(done, a, b) + crate::merging::occ_pairs(w@.take(j + 2), a, b) by {
                        assert(key_count(mold, spec_pack_pair(a, b)) == corpus_pairs(done, a, b)
                            + crate::merging::occ_pairs(w@.take(j + 1), a, b));
                        lemma_occ_take_step(w@, j as int, a, b);
                        lemma_unpack_pack(a, b);
                        lemma_unpack_pack(x, y);
                    }
                }
            }
            proof {
                assert(w@.take(len as int) =~= w@);
            }
        } else {
            proof {
                assert(crate::merging::occ_pairs(w@, 0, 0) == 0);
            }
        }
    }
    proof {
        assert(ws.take(nw as int) =~= ws);
    }
    m
}

/// The pairs of a prefix never outnumber those of the whole.
proof fn lemma_occ_prefix_le(w: Seq<u32>, k: int, a: u32, b: u32)
    requires
        0 <= k <= w.len(),
    ensures
        crate::merging::occ_pairs(w.take(k), a, b) <= crate::merging::occ_pairs(w, a, b),
    decreases w.len() - k,
{
    if k < w.len() {
        lemma_occ_prefix_le(w, k + 1, a, b);
        if k >= 1 {
            assert(w.take(k + 1).drop_last() =~= w.take(k));
        } else {
            assert(w.take(0).len() == 0);
        }
    } else {
        assert(w.take(k) =~= w);
    }
}

/// Adds the counts of `from` into `into`, entry by entry.
fn add_counts(
    into: &mut FxHashMap<u64, u64>,
    from: &FxHashMap<u64, u64>,
    Ghost(left): Ghost<Seq<Seq<u32>>>,
    Ghost(right): Ghost<Seq<Seq<u32>>>,
)
    requires
        counts_exact(pair_table(*old(into)), left),
        counts_exact(pair_table(*from), right),
        forall|a: u32, b: u32| #[trigger] corpus_pairs(left, a, b) + corpus_pairs(right, a, b) <= u64::MAX,
    ensures
        forall|k: u64| #[trigger] pair_table(*final(into)).contains_key(k) ==> pair_table(*final(into))[k] > 0,
        forall|a: u32, b: u32| #[trigger] key_count(pair_table(*final(into)), spec_pack_pair(a, b))
            == corpus_pairs(left, a, b) + corpus_pairs(right, a, b),
{
    let ghost m0 = pair_table(*into);
    let ghost mf = pair_table(*from);
    let entries = pair_table_entries(from);
    let ne = entries.len();
    proof {
        assert forall|k: u64| #[trigger] key_count(m0, k) + key_count(mf, k) <= u64::MAX by {
            lemma_pack_unpack(k);
            let (a, b) = spec_unpack_pair(k);
            assert(key_count(m0, spec_pack_pair(a, b)) == corpus_pairs(left, a, b));
        }
        if ne > 0 {
            assert(pair_table(*from).contains_key(entries@[0].0));
        }
    }
    let ghost mut done = Map::<u64, u64>::empty();
    for i in 0..ne
        invariant
            ne == entries@.len(),
            mf == pair_table(*from),
            forall|j: int| 0 <= j < entries@.len() ==> mf.contains_key(#[trigger] entries@[j].0),
            forall|j: int| 0 <= j < entries@.len() ==> mf[#[trigger] entries@[j].0] == entries@[j].1,
            forall|j: int, l: int| 0 <= j < l < entries@.len() ==> entries@[j].0 != entries@[l].0,
            forall|k: u64| #[trigger] done.contains_key(k) ==> exists|j: int|
                0 <= j < i && entries@[j].0 == k,
            forall|j: int| 0 <= j < i ==> #[trigger] done.contains_key(entries@[j].0),
            forall|k: u64| #[trigger] done.contains_key(k) ==> mf.contains_key(k) && done[k] == mf[k],
            forall|k: u64| #[trigger] pair_table(*into).contains_key(k) ==> pair_table(*into)[k] > 0,
            forall|k: u64| #[trigger] m0.contains_key(k) ==> m0[k] > 0,
            forall|k: u64| #[trigger] mf.contains_key(k) ==> mf[k] > 0,
            forall|k: u64| #[trigger] key_count(m0, k) + key_count(mf, k) <= u64::MAX,
            forall|k: u64| #[trigger] key_count(pair_table(*into), k) == key_count(m0, k) + key_count(done, k),
    {
        let k = entries[i].0;
        let v = entries[i].1;
        assert(pair_table(*from).contains_key(k));
        let c = match pair_table_get(into, k) {
            Some(c) => c,
            None => 0,
        };
        let ghost before = pair_table(*into);
        proof {
            assert(!done.contains_key(k));
            assert(key_count(done, k) == 0);
            assert(key_count(before, k) == key_count(m0, k) + key_count(done, k));
            assert(key_count(mf, k) == v);
            assert(key_count(m0, k) + key_count(mf, k) <= u64::MAX);
        }
        pair_table_insert(into, k, c + v);
        proof {
            let old_done = done;
            done = done.insert(k, v);
            assert forall|kk: u64| #[trigger] key_count(pair_table(*into), kk) == key_count(m0, kk)
                + key_count(done, kk) by {
                assert(key_count(before, kk) == key_count(m0, kk) + key_count(old_done, kk));
            }
            assert forall|kk: u64| #[trigger] done.contains_key(kk) implies exists|j: int|
                0 <= j < i + 1 && entries@[j].0 == kk by {
                if kk != k {
                    assert(old_done.contains_key(kk));
                }
            }
        }
    }
    proof {
        assert forall|k: u64| #[trigger] key_count(done, k) == key_count(mf, k) by {
            if mf.contains_key(k) {
                let j = choose|j: int| 0 <= j < entries@.len() && entries@[j].0 == k;
                assert(done.contains_key(entries@[j].0));
            }
        }
        assert forall|a: u32, b: u32| #[trigger] key_count(pair_table(*into), spec_pack_pair(a, b))
            == corpus_pairs(left, a, b) + corpus_pairs(right, a, b) by {
            assert(key_count(m0, spec_pack_pair(a, b)) == corpus_pairs(left, a, b));
            assert(key_count(mf, spec_pack_pair(a, b)) == corpus_pairs(right, a, b));
        }
    }
}

/// Unpacking a packed pair gives the pair back.
pub proof fn lemma_unpack_pack(a: u32, b: u32)
    ensures
        spec_unpack_pair(spec_pack_pair(a, b)) == (a, b),
{
    let p = spec_pack_pair(a, b);
    assert((((a as u64) << 32u64) | (b as u64)) >> 32u64 == a as u64) by (bit_vector);
    assert((((a as u64) << 32u64) | (b as u64)) & 0xFFFF_FFFFu64 == b as u64) by (bit_vector);
}

/// Packing an unpacked key gives the key back.
pub proof fn lemma_pack_unpack(p: u64)
    ensures
        spec_pack_pair(spec_unpack_pair(p).0, spec_unpack_pair(p).1) == p,
{
    assert(((((p >> 32u64) as u32) as u64) << 32u64) | (((p & 0xFFFF_FFFFu64) as u32) as u64) == p) by (bit_vector);
}

} // verus!
