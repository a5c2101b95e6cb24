//! WordPiece training, one merge at a time.  WordPiece ranks pairs by
//! `freq(ab) / (freq(a) * freq(b))`, a floating-point score; the trainer
//! offers the candidates with their exact counts, takes each candidate's
//! score as an order-preserving integer key, picks the best candidate
//! (ties going to the smaller left token, then right token) and merges it.

use vstd::prelude::*;
use rustc_hash::FxHashMap;
use crate::bpe::trainer::{rule_views, MergeRule};
use crate::engine::{
    apply_merge, id_corpus, id_word, ids_below, lemma_corpus_pairs_ids, lemma_corpus_pairs_in_range,
    lemma_corpus_pairs_source, lemma_id_corpus_extend, lemma_id_corpus_total, lemma_merge_all_ids,
    lemma_merge_all_total,
};
use crate::frequency::{add_tokens, count_tok, count_tok_all, freq_exact, new_freq};
use crate::fxmap::{id_table, id_table_get, pair_table, pair_table_entries, token_counts, token_ids};
use crate::merging::merge_seq;
use crate::pairs::{corpus_pairs, is_candidate, lemma_total_len_take_le, merge_all, total_len};
use crate::sentencepiece_bpe::pair_stats::{key_count, spec_pack_pair, spec_unpack_pair, unpack_pair, word_seqs};
use crate::text::{chars_lt, lemma_seq_lt_irreflexive, lemma_seq_lt_total, lemma_seq_lt_transitive, seq_lt, views};
use crate::vocab::{flat_tokens, index_map_of, intern_all, intern_spec, lemma_unit_tokens_bound, unit_shaped, Vocab};
use crate::wordpiece::pair_stats::{corpus_items, id_count, item_count, PairStats};
use crate::wordpiece::trainer::{
    continued, greedy_pieces, has_hashes, law_known_pieces_never_unknown, lemma_longest_piece_end_range,
    longest_piece_end, merge_wp_tokens, spec_tokenize_word, strip_hashes, tail_spell, tokenize_word,
    wordpiece_pretokenize, wp_join, wp_spell, wp_units, WordPieceModel,
};

verus! {

/// Training settings.
pub struct TrainConfig {
    /// Target vocabulary size: merging stops once the vocabulary reaches it.
    pub vocab_size: usize,
    /// A pair is merged only if it occurs at least this often.
    pub min_pair_count: u64,
}

impl Default for TrainConfig {
    fn default() -> (c: Self)
        ensures
            c.vocab_size == 1000,
            c.min_pair_count == 2,
    {
        TrainConfig { vocab_size: 1000, min_pair_count: 2 }
    }
}

/// A pair that may be merged, with the three counts WordPiece scores it by.
pub struct PairCandidate {
    /// Id of the left token.
    pub left: u32,
    /// Id of the right token.
    pub right: u32,
    /// Occurrences of the pair.
    pub pair_count: u64,
    /// Occurrences of the left token.
    pub left_count: u64,
    /// Occurrences of the right token.
    pub right_count: u64,
}

/// The non-empty words of a corpus.
pub open spec fn nonempty(ws: Seq<Seq<char>>) -> Seq<Seq<char>>
    decreases ws.len(),
{
    if ws.len() == 0 {
        seq![]
    } else if ws.last().len() == 0 {
        nonempty(ws.drop_last())
    } else {
        nonempty(ws.drop_last()).push(ws.last())
    }
}

/// Merges `left` and `right` into the token [`wp_join`](crate::wordpiece::trainer::wp_join) makes.
pub open spec fn wp_merge_all(
    ws: Seq<Seq<Seq<char>>>,
    left: Seq<char>,
    right: Seq<char>,
) -> Seq<Seq<Seq<char>>> {
    crate::pairs::merge_all(ws, left, right, crate::wordpiece::trainer::wp_join(left, right))
}

/// Candidate `(k1, a1, b1)` ranks before `(k2, a2, b2)`: a higher score
/// key, or the same key and a smaller left token, or the same left token
/// and a smaller right token.
pub open spec fn ranks_before(k1: u64, a1: Seq<char>, b1: Seq<char>, k2: u64, a2: Seq<char>, b2: Seq<char>) -> bool {
    k1 > k2 || (k1 == k2 && (seq_lt(a1, a2) || (a1 == a2 && seq_lt(b1, b2))))
}

proof fn lemma_ranks_before_transitive(
    k1: u64, a1: Seq<char>, b1: Seq<char>,
    k2: u64, a2: Seq<char>, b2: Seq<char>,
    k3: u64, a3: Seq<char>, b3: Seq<char>,
)
    requires
        ranks_before(k1, a1, b1, k2, a2, b2),
        ranks_before(k2, a2, b2, k3, a3, b3),
    ensures
        ranks_before(k1, a1, b1, k3, a3, b3),
{
    if seq_lt(a1, a2) && seq_lt(a2, a3) {
        lemma_seq_lt_transitive(a1, a2, a3);
    }
    if seq_lt(b1, b2) && seq_lt(b2, b3) {
        lemma_seq_lt_transitive(b1, b2, b3);
    }
}

proof fn lemma_ranks_before_total(k1: u64, a1: Seq<char>, b1: Seq<char>, k2: u64, a2: Seq<char>, b2: Seq<char>)
    requires
        (k1, a1, b1) != (k2, a2, b2),
    ensures
        ranks_before(k1, a1, b1, k2, a2, b2) || ranks_before(k2, a2, b2, k1, a1, b1),
{
    lemma_seq_lt_total(a1, a2);
    lemma_seq_lt_total(b1, b2);
}

/// The rule `(left, right)` is made of vocabulary tokens: both parts and
/// the token they join into are in `toks`, and the right part starts with `##`.
pub open spec fn rule_in(toks: Seq<Seq<char>>, r: (Seq<char>, Seq<char>)) -> bool {
    &&& toks.contains(r.0)
    &&& toks.contains(r.1)
    &&& toks.contains(wp_join(r.0, r.1))
    &&& has_hashes(r.1)
}

/// The state of WordPiece training: the vocabulary, the words as token ids,
/// the rules learned so far, the target vocabulary size, and the words
/// training started from.
pub struct WordPieceTrainer {
    vocab: Vocab,
    words: Vec<Vec<u32>>,
    rules: Vec<MergeRule>,
    target: usize,
    origin: Ghost<Seq<Seq<char>>>,
}

impl WordPieceTrainer {
    /// The vocabulary, by id.
    pub closed spec fn toks(&self) -> Seq<Seq<char>> {
        self.vocab.toks()
    }

    /// The words as token strings.
    pub closed spec fn corpus(&self) -> Seq<Seq<Seq<char>>> {
        id_corpus(word_seqs(self.words@), self.vocab.toks())
    }

    /// The rules learned so far, in order.
    pub closed spec fn rules(&self) -> Seq<(Seq<char>, Seq<char>)> {
        rule_views(self.rules@)
    }

    /// The non-empty words training started from.
    pub closed spec fn origin(&self) -> Seq<Seq<char>> {
        self.origin@
    }

    /// The target vocabulary size.
    pub closed spec fn limit(&self) -> nat {
        self.target as nat
    }

    /// The invariant of training: the vocabulary is well formed and holds
    /// every id of the words; each word still spells the word it came from,
    /// its tokens after the first starting with `##`; and every initial
    /// piece of every word is still a vocabulary token; every rule is made of
    /// vocabulary tokens; and once a rule is learned the vocabulary is no
    /// larger than the target.
    pub closed spec fn wf(&self) -> bool {
        &&& self.vocab.wf()
        &&& (self.rules@.len() == 0 || self.vocab.toks().len() <= self.target)
        &&& forall|k: int| 0 <= k < self.rules().len() ==> rule_in(self.vocab.toks(), #[trigger] self.rules()[k])
        &&& ids_below(word_seqs(self.words@), self.vocab.toks().len())
        &&& total_len(word_seqs(self.words@)) <= u64::MAX
        &&& self.corpus().len() == self.origin@.len()
        &&& forall|i: int| 0 <= i < self.origin@.len() ==> #[trigger] self.origin@[i].len() > 0
        &&& forall|i: int|
            0 <= i < self.origin@.len() ==> wp_spell(#[trigger] self.corpus()[i]) == self.origin@[i]
                && continued(self.corpus()[i])
        &&& forall|i: int, j: int|
            0 <= i < self.origin@.len() && 0 <= j < self.origin@[i].len() ==> self.vocab.toks().contains(
                #[trigger] wp_units(self.origin@[i])[j],
            )
    }
}

/// The initial pieces spell the word and are continuation tokens after the first.
proof fn lemma_units_spell(cs: Seq<char>)
    requires
        cs.len() > 0,
    ensures
        wp_spell(wp_units(cs)) == cs,
        continued(wp_units(cs)),
{
    lemma_units_tail_spell(cs, 1);
    assert(wp_units(cs)[0] =~= seq![cs[0]]);
    assert(seq![cs[0]] + cs.skip(1) =~= cs);
}

proof fn lemma_units_tail_spell(cs: Seq<char>, k: int)
    requires
        1 <= k <= cs.len(),
    ensures
        tail_spell(wp_units(cs).skip(k)) == cs.skip(k),
    decreases cs.len() - k,
{
    let u = wp_units(cs).skip(k);
    if k < cs.len() {
        lemma_units_tail_spell(cs, k + 1);
        assert(u.skip(1) =~= wp_units(cs).skip(k + 1));
        assert(u[0] == crate::wordpiece::trainer::hashes() + seq![cs[k]]);
        assert(strip_hashes(u[0]) =~= seq![cs[k]]);
        assert(seq![cs[k]] + cs.skip(k + 1) =~= cs.skip(k));
    } else {
        assert(u =~= Seq::<Seq<char>>::empty());
        assert(cs.skip(k) =~= Seq::<char>::empty());
    }
}

/// All the corpus's tokens, before any merge, number as many as its chars.
proof fn lemma_units_total(ws: Seq<Seq<char>>)
    ensures
        total_len(nonempty(ws).map_values(|w: Seq<char>| wp_units(w))) == total_len(ws),
    decreases ws.len(),
{
    if ws.len() > 0 {
        lemma_units_total(ws.drop_last());
        let f = |w: Seq<char>| wp_units(w);
        if ws.last().len() > 0 {
            assert(nonempty(ws).map_values(f) =~= nonempty(ws.drop_last()).map_values(f).push(f(ws.last())));
            assert(nonempty(ws).map_values(f).drop_last() =~= nonempty(ws.drop_last()).map_values(f));
        }
    }
}

impl WordPieceTrainer {
    /// Starts training: every non-empty word becomes its first char and its
    /// `##`-prefixed further chars, each piece interned in order of first
    /// appearance.
    pub fn new(corpus_words: &[String], cfg: &TrainConfig) -> (t: Self)
        requires
            total_len(views(corpus_words@)) <= u64::MAX,
        ensures
            t.wf(),
            t.limit() == cfg.vocab_size,
            t.origin() == nonempty(views(corpus_words@)),
            t.corpus() == t.origin().map_values(|w: Seq<char>| wp_units(w)),
            t.toks() == intern_all(seq![], flat_tokens(t.corpus())),
            t.rules() == Seq::<(Seq<char>, Seq<char>)>::empty(),
    {
        let ghost ss = views(corpus_words@);
        let ghost f = |w: Seq<char>| wp_units(w);
        let mut vocab = Vocab::new();
        let mut words: Vec<Vec<u32>> = Vec::new();
        let n = corpus_words.len();
        let ghost mut org: Seq<Seq<char>> = seq![];
        proof {
            assert(ss.take(0) =~= Seq::<Seq<char>>::empty());
            assert(word_seqs(words@) =~= Seq::<Seq<u32>>::empty());
            assert(id_corpus(word_seqs(words@), vocab.toks()) =~= Seq::<Seq<Seq<char>>>::empty());
            assert(nonempty(ss.take(0)).map_values(f) =~= Seq::<Seq<Seq<char>>>::empty());
        }
        for i in 0..n
            invariant
                n == corpus_words@.len(),
                ss == views(corpus_words@),
                f == (|w: Seq<char>| wp_units(w)),
                total_len(ss) <= u64::MAX,
                vocab.wf(),
                vocab.toks() == intern_all(seq![], flat_tokens(nonempty(ss.take(i as int)).map_values(f))),
                forall|q: int| 0 <= q < vocab.toks().len() ==> unit_shaped(#[trigger] vocab.toks()[q]),
                ids_below(word_seqs(words@), vocab.toks().len()),
                id_corpus(word_seqs(words@), vocab.toks()) == nonempty(ss.take(i as int)).map_values(f),
                org == nonempty(ss.take(i as int)),
                forall|a: int, b: int|
                    0 <= a < org.len() && 0 <= b < org[a].len() ==> vocab.toks().contains(
                        #[trigger] wp_units(org[a])[b],
                    ),
        {
            let ghost prefix = ss.take(i as int);
            let ghost next = ss.take(i + 1);
            let ghost w = ss[i as int];
            proof {
                assert(next.drop_last() =~= prefix);
                assert(next.last() == w);
                lemma_total_len_take_le(ss, i + 1);
                assert(total_len(next) == total_len(prefix) + w.len());
            }
            let units = wordpiece_pretokenize(corpus_words[i].as_str());
            let nu = units.len();
            proof {
                assert(corpus_words@[i as int]@ == w);
                assert(views(units@).len() == nu);
                assert(wp_units(w).len() == w.len());
            }
            if nu > 0 {
                let ghost toks0 = vocab.toks();
                let ghost ws0 = word_seqs(words@);

                let ghost flat0 = flat_tokens(nonempty(prefix).map_values(f));
                let ghost uv = views(units@);
                let mut ids: Vec<u32> = Vec::new();
                proof {
                    assert(uv == wp_units(w));
                    assert(nu == w.len());
                    assert(uv.take(0) =~= Seq::<Seq<char>>::empty());
                    assert(flat0 + uv.take(0) =~= flat0);
                    assert(id_word(ids@, toks0) =~= uv.take(0));
                }
                for j in 0..nu
                    invariant
                        nu == units@.len(),
                        uv == views(units@),
                        uv == wp_units(w),
                        total_len(next) == total_len(prefix) + nu,
                        total_len(next) <= u64::MAX,
                        vocab.wf(),
                        vocab.toks().len() >= toks0.len(),
                        vocab.toks().take(toks0.len() as int) == toks0,
                        vocab.toks() == intern_all(seq![], flat0 + uv.take(j as int)),
                        forall|q: int| 0 <= q < vocab.toks().len() ==> unit_shaped(#[trigger] vocab.toks()[q]),
                        ids@.len() == j,
                        forall|k: int| 0 <= k < j ==> #[trigger] ids@[k] < vocab.toks().len(),
                        id_word(ids@, vocab.toks()) == uv.take(j as int),
                {
                    let ghost before = vocab.toks();
                    let ghost old_ids = ids@;
                    proof {
                        assert((flat0 + uv.take(j + 1)).drop_last() =~= flat0 + uv.take(j as int));
                        assert((flat0 + uv.take(j + 1)).last() == uv[j as int]);
                        lemma_unit_tokens_bound(before);
                        assert(uv.len() == nu);
                        assert(uv[j as int] == wp_units(w)[j as int]);
                        if j == 0 {
                            assert(uv[0] =~= seq![w[0]]);
                        } else {
                            assert(uv[j as int] =~= crate::wordpiece::trainer::hashes() + seq![w[j as int]]);
                        }
                        assert(unit_shaped(uv[j as int]));
                    }
                    let id = vocab.intern(units[j].clone());
                    ids.push(id);
                    proof {
                        let after = vocab.toks();
                        assert(after.take(before.len() as int) =~= before);
                        assert(after.take(toks0.len() as int) =~= toks0);
                        assert forall|k: int| 0 <= k < j implies #[trigger] after[old_ids[k] as int]
                            == before[old_ids[k] as int] by {
                            assert(after.take(before.len() as int)[old_ids[k] as int] == after[old_ids[k] as int]);
                        }
                        assert(id_word(old_ids, after) =~= id_word(old_ids, before));
                        assert(id_word(ids@, after) =~= id_word(old_ids, after).push(after[id as int]));
                        assert(uv.take(j + 1) =~= uv.take(j as int).push(uv[j as int]));
                    }
                }
                proof {
                    lemma_id_corpus_extend(ws0, toks0, vocab.toks());
                    assert(uv.take(nu as int) =~= uv);
                }
                words.push(ids);
                proof {
                    let wsn = word_seqs(words@);
                    let toks = vocab.toks();
                    assert(wsn.drop_last() =~= ws0);
                    assert(nonempty(next) == nonempty(prefix).push(w));
                    let mc = nonempty(next).map_values(f);
                    assert(mc =~= nonempty(prefix).map_values(f).push(uv));
                    assert(mc.drop_last() =~= nonempty(prefix).map_values(f));
                    assert(flat_tokens(mc) == flat0 + uv);
                    assert(id_corpus(wsn, toks) =~= id_corpus(ws0, toks).push(id_word(ids@, toks)));
                    assert forall|a: int, b: int| 0 <= a < wsn.len() && 0 <= b < wsn[a].len()
                        implies #[trigger] wsn[a][b] < toks.len() by {
                        if a < wsn.len() - 1 {
                            assert(wsn[a] == ws0[a]);
                            assert(ws0[a][b] < toks0.len());
                        } else {
                            assert(wsn[a] == ids@);
                        }
                    }
                    let np = nonempty(next);
                    assert forall|a: int, b: int| 0 <= a < np.len() && 0 <= b < np[a].len()
                        implies toks.contains(#[trigger] wp_units(np[a])[b]) by {
                        if a < np.len() - 1 {
                            assert(np[a] == org[a]);
                            let x = wp_units(np[a])[b];
                            assert(toks0.contains(wp_units(org[a])[b]));
                            assert(toks0.contains(x));
                            let k = toks0.index_of(x);
                            assert(toks.take(toks0.len() as int)[k] == toks[k]);
                        } else {
                            assert(np[a] == w);
                            assert(wp_units(np[a])[b] == uv[b]);
                            assert(id_word(ids@, toks) == uv);
                            assert(id_word(ids@, toks)[b] == toks[ids@[b] as int]);
                            assert(ids@[b] < toks.len());
                            assert(toks[ids@[b] as int] == uv[b]);
                        }
                    }
                    org = np;
                }
            } else {
                proof {
                    assert(w.len() == 0);
                    assert(nonempty(next) == nonempty(prefix));
                    org = nonempty(next);
                }
            }
        }
        proof {
            assert(ss.take(n as int) =~= ss);
            lemma_units_total(ss);
            lemma_id_corpus_total(word_seqs(words@), vocab.toks());
        }
        let t = WordPieceTrainer { vocab, words, rules: Vec::new(), target: cfg.vocab_size, origin: Ghost(nonempty(ss)) };
        proof {
            assert(t.rules() =~= Seq::<(Seq<char>, Seq<char>)>::empty());
            assert forall|i: int| 0 <= i < t.origin@.len() implies #[trigger] t.origin@[i].len() > 0 by {
                lemma_nonempty_nonempty(ss, i);
            }
            assert forall|i: int| 0 <= i < t.origin@.len() implies wp_spell(#[trigger] t.corpus()[i]) == t.origin@[i]
                && continued(t.corpus()[i]) by {
                lemma_nonempty_nonempty(ss, i);
                lemma_units_spell(t.origin@[i]);
            }
        }
        t
    }

    /// `x` is an offered candidate: its ids are vocabulary ids, its pair
    /// may be merged, and its counts are the exact counts over the words.
    pub open spec fn offers(&self, min_pair_count: u64, x: PairCandidate) -> bool {
        let a = self.toks()[x.left as int];
        let b = self.toks()[x.right as int];
        &&& x.left < self.toks().len()
        &&& x.right < self.toks().len()
        &&& is_candidate(self.corpus(), min_pair_count, a, b)
        &&& has_hashes(b)
        &&& x.pair_count == corpus_pairs(self.corpus(), a, b)
        &&& x.left_count == count_tok_all(self.corpus(), a)
        &&& x.right_count == count_tok_all(self.corpus(), b)
    }

    /// Every pair that may be merged, once each, with its counts: the
    /// pairs occurring at least `min_pair_count` times (and at least once).
    pub fn candidates(&self, min_pair_count: u64) -> (c: Vec<PairCandidate>)
        requires
            self.wf(),
        ensures
            forall|i: int| 0 <= i < c@.len() ==> self.offers(min_pair_count, #[trigger] c@[i]),
            forall|a: Seq<char>, b: Seq<char>|
                #[trigger] is_candidate(self.corpus(), min_pair_count, a, b) ==> exists|i: int|
                    0 <= i < c@.len() && self.toks()[c@[i].left as int] == a && self.toks()[c@[i].right as int] == b,
            forall|i: int, j: int|
                0 <= i < j < c@.len() ==> (c@[i].left, c@[i].right) != (c@[j].left, c@[j].right),
    {
        let ghost ws = word_seqs(self.words@);
        let ghost toks = self.vocab.toks();
        let stats = PairStats::from_words(&self.words);
        let ghost m = pair_table(stats.pair_counts);
        let ghost tc = id_table(stats.token_counts);
        let entries = pair_table_entries(&stats.pair_counts);
        let ne = entries.len();
        let mut out: Vec<PairCandidate> = Vec::new();
        let ghost mut idx: Seq<int> = seq![];
        for i in 0..ne
            invariant
                ne == entries@.len(),
                self.wf(),
                ws == word_seqs(self.words@),
                toks == self.vocab.toks(),
                m == pair_table(stats.pair_counts),
                tc == id_table(stats.token_counts),
                crate::sentencepiece_bpe::pair_stats::counts_exact(m, ws),
                crate::wordpiece::pair_stats::items_exact(tc, ws),
                forall|j: int| 0 <= j < entries@.len() ==> m.contains_key(#[trigger] entries@[j].0),
                forall|j: int| 0 <= j < entries@.len() ==> m[#[trigger] entries@[j].0] == entries@[j].1,
                forall|j: int, l: int| 0 <= j < l < entries@.len() ==> entries@[j].0 != entries@[l].0,
                idx.len() == out@.len(),
                forall|k: int| 0 <= k < out@.len() ==> self.offers(min_pair_count, #[trigger] out@[k]),
                forall|k: int| 0 <= k < out@.len() ==> 0 <= #[trigger] idx[k] < i,
                forall|k: int, l: int| 0 <= k < l < out@.len() ==> idx[k] < idx[l],
                forall|k: int| 0 <= k < out@.len() ==> spec_unpack_pair(entries@[#[trigger] idx[k]].0) == (
                    out@[k].left,
                    out@[k].right,
                ),
                forall|j: int| 0 <= j < i && entries@[j].1 >= min_pair_count ==> exists|k: int|
                    0 <= k < out@.len() && #[trigger] idx[k] == j,
        {
            let (key, count) = entries[i];
            if count >= min_pair_count {
                let (a, b) = unpack_pair(key);
                proof {
                    assert(m.contains_key(key));
                    assert(key_count(m, spec_pack_pair(a, b)) == corpus_pairs(ws, a, b));
                    lemma_corpus_pairs_in_range(ws, toks.len(), a, b);
                    lemma_corpus_pairs_ids(ws, toks, a, b);
                    lemma_corpus_items_ids(ws, toks, a);
                    lemma_corpus_items_ids(ws, toks, b);
                    lemma_pair_right_continued(id_corpus(ws, toks), toks[a as int], toks[b as int]);
                }
                let ca = match id_table_get(&stats.token_counts, a) {
                    Some(v) => v,
                    None => 0,
                };
                let cb = match id_table_get(&stats.token_counts, b) {
                    Some(v) => v,
                    None => 0,
                };
                proof {
                    assert(id_count(tc, a) == corpus_items(ws, a));
                    assert(id_count(tc, b) == corpus_items(ws, b));
                }
                let ghost old_out = out@;
                out.push(PairCandidate { left: a, right: b, pair_count: count, left_count: ca, right_count: cb });
                proof {
                    let old_idx = idx;
                    idx = idx.push(i as int);
                    assert forall|k: int| 0 <= k < out@.len() implies self.offers(min_pair_count, #[trigger] out@[k]) by {
                        if k < old_out.len() {
                            assert(out@[k] == old_out[k]);
                        }
                    }
                    assert forall|j: int| 0 <= j < i + 1 && entries@[j].1 >= min_pair_count implies exists|k: int|
                        0 <= k < out@.len() && #[trigger] idx[k] == j by {
                        if j < i {
                            let k = choose|k: int| 0 <= k < old_out.len() && #[trigger] old_idx[k] == j;
                            assert(idx[k] == j);
                        } else {
                            assert(idx[old_out.len() as int] == j);
                        }
                    }
                }
            }
        }
        proof {
            let cw = id_corpus(ws, toks);
            assert forall|x: Seq<char>, y: Seq<char>| #[trigger] is_candidate(cw, min_pair_count, x, y) implies exists|k: int|
                0 <= k < out@.len() && toks[out@[k].left as int] == x && toks[out@[k].right as int] == y by {
                lemma_corpus_pairs_source(ws, toks, x, y);
                let (a, b) = choose|a: u32, b: u32| a < toks.len() && b < toks.len() && #[trigger] toks[a as int] == x && #[trigger] toks[b as int] == y;
                lemma_corpus_pairs_ids(ws, toks, a, b);
                let key = spec_pack_pair(a, b);
                assert(key_count(m, key) == corpus_pairs(ws, a, b));
                assert(m.contains_key(key));
                let j = choose|j: int| 0 <= j < entries@.len() && entries@[j].0 == key;
                assert(entries@[j].1 >= min_pair_count);
                let k = choose|k: int| 0 <= k < out@.len() && #[trigger] idx[k] == j;
                crate::sentencepiece_bpe::pair_stats::lemma_unpack_pack(a, b);
            }
            assert forall|k: int, l: int| 0 <= k < l < out@.len() implies (out@[k].left, out@[k].right) != (
                out@[l].left,
                out@[l].right,
            ) by {
                crate::sentencepiece_bpe::pair_stats::lemma_pack_unpack(entries@[idx[k]].0);
                crate::sentencepiece_bpe::pair_stats::lemma_pack_unpack(entries@[idx[l]].0);
            }
        }
        out
    }

    /// The index of the candidate to merge: the highest score key, ties
    /// going to the smaller left token, then the smaller right token; among
    /// equal entries the first.  `None` when there is no candidate.
    pub fn best_candidate(&self, cands: &Vec<PairCandidate>, keys: &Vec<u64>) -> (r: Option<usize>)
        requires
            self.wf(),
            keys@.len() == cands@.len(),
            forall|i: int|
                0 <= i < cands@.len() ==> (#[trigger] cands@[i]).left < self.toks().len() && cands@[i].right
                    < self.toks().len(),
        ensures
            r is None <==> cands@.len() == 0,
            r matches Some(i) ==> {
                &&& i < cands@.len()
                &&& forall|j: int|
                    #![trigger cands@[j]]
                    0 <= j < cands@.len() ==> !ranks_before(
                        keys@[j],
                        self.toks()[cands@[j].left as int],
                        self.toks()[cands@[j].right as int],
                        keys@[i as int],
                        self.toks()[cands@[i as int].left as int],
                        self.toks()[cands@[i as int].right as int],
                    )
                &&& forall|j: int|
                    #![trigger cands@[j]]
                    0 <= j < i ==> ranks_before(
                        keys@[i as int],
                        self.toks()[cands@[i as int].left as int],
                        self.toks()[cands@[i as int].right as int],
                        keys@[j],
                        self.toks()[cands@[j].left as int],
                        self.toks()[cands@[j].right as int],
                    )
            },
    {
        let ghost toks = self.vocab.toks();
        let n = cands.len();
        if n == 0 {
            return None;
        }
        let mut best: usize = 0;
        proof {
            lemma_seq_lt_irreflexive(toks[cands@[0].left as int]);
            lemma_seq_lt_irreflexive(toks[cands@[0].right as int]);
        }
        for i in 1..n
            invariant
                n == cands@.len(),
                n == keys@.len(),
                n > 0,
                self.wf(),
                toks == self.vocab.toks(),
                forall|k: int|
                    0 <= k < cands@.len() ==> (#[trigger] cands@[k]).left < toks.len() && cands@[k].right < toks.len(),
                best < i,
                forall|j: int|
                    #![trigger cands@[j]]
                    0 <= j < i ==> !ranks_before(
                        keys@[j],
                        toks[cands@[j].left as int],
                        toks[cands@[j].right as int],
                        keys@[best as int],
                        toks[cands@[best as int].left as int],
                        toks[cands@[best as int].right as int],
                    ),
                forall|j: int|
                    #![trigger cands@[j]]
                    0 <= j < best ==> ranks_before(
                        keys@[best as int],
                        toks[cands@[best as int].left as int],
                        toks[cands@[best as int].right as int],
                        keys@[j],
                        toks[cands@[j].left as int],
                        toks[cands@[j].right as int],
                    ),
        {
            let c = &cands[i];
            let b = &cands[best];
            let ki = keys[i];
            let kb = keys[best];
            let better = ki > kb || (ki == kb && (chars_lt(&self.vocab.chars[c.left as usize], &self.vocab.chars[b.left as usize])
                || (c.left == b.left && chars_lt(&self.vocab.chars[c.right as usize], &self.vocab.chars[b.right as usize]))));
            let ghost (ai, bi) = (toks[c.left as int], toks[c.right as int]);
            let ghost (ab, bb) = (toks[b.left as int], toks[b.right as int]);
            proof {
                assert(self.vocab.chars@[c.left as int]@ == ai);
                assert(self.vocab.chars@[b.left as int]@ == ab);
                assert(self.vocab.chars@[c.right as int]@ == bi);
                assert(self.vocab.chars@[b.right as int]@ == bb);
                assert((c.left == b.left) == (ai == ab));
                assert(better == ranks_before(ki, ai, bi, kb, ab, bb));
            }
            if better {
                proof {
                    assert forall|j: int| #![trigger cands@[j]] 0 <= j < i + 1 implies !ranks_before(
                        keys@[j],
                        toks[cands@[j].left as int],
                        toks[cands@[j].right as int],
                        ki,
                        ai,
                        bi,
                    ) by {
                        if j < i {
                            let (kj, aj, bj) = (keys@[j], toks[cands@[j].left as int], toks[cands@[j].right as int]);
                            if ranks_before(kj, aj, bj, ki, ai, bi) {
                                lemma_ranks_before_transitive(kj, aj, bj, ki, ai, bi, kb, ab, bb);
                            }
                        } else {
                            lemma_seq_lt_irreflexive(ai);
                            lemma_seq_lt_irreflexive(bi);
                        }
                    }
                    assert forall|j: int| #![trigger cands@[j]] 0 <= j < i implies ranks_before(
                        ki,
                        ai,
                        bi,
                        keys@[j],
                        toks[cands@[j].left as int],
                        toks[cands@[j].right as int],
                    ) by {
                        let (kj, aj, bj) = (keys@[j], toks[cands@[j].left as int], toks[cands@[j].right as int]);
                        if j < best {
                            lemma_ranks_before_transitive(ki, ai, bi, kb, ab, bb, kj, aj, bj);
                        } else if j > best && (kj, aj, bj) != (kb, ab, bb) {
                            lemma_ranks_before_total(kb, ab, bb, kj, aj, bj);
                            lemma_ranks_before_transitive(ki, ai, bi, kb, ab, bb, kj, aj, bj);
                        }
                    }
                }
                best = i;
            }
        }
        Some(best)
    }

    /// Learns the rule `(left, right)`: the joined token (the right one
    /// without its `##`) is interned and every left-to-right occurrence of
    /// the pair in every word becomes it.
    pub fn merge(&mut self, left: u32, right: u32)
        requires
            old(self).wf(),
            left < old(self).toks().len(),
            right < old(self).toks().len(),
            has_hashes(old(self).toks()[right as int]),
            old(self).toks().len() < old(self).limit(),
            old(self).toks().len() < u32::MAX,
        ensures
            final(self).wf(),
            final(self).origin() == old(self).origin(),
            final(self).limit() == old(self).limit(),
            final(self).toks() == intern_spec(
                old(self).toks(),
                wp_join(old(self).toks()[left as int], old(self).toks()[right as int]),
            ),
            final(self).corpus() == wp_merge_all(
                old(self).corpus(),
                old(self).toks()[left as int],
                old(self).toks()[right as int],
            ),
            final(self).rules() == old(self).rules().push(
                (old(self).toks()[left as int], old(self).toks()[right as int]),
            ),
    {
        let ghost toks = self.vocab.toks();
        let ghost ws = word_seqs(self.words@);
        let ghost (a, b) = (toks[left as int], toks[right as int]);
        let left_s = self.vocab.strs[left as usize].clone();
        let right_s = self.vocab.strs[right as usize].clone();
        let merged = merge_wp_tokens(left_s.as_str(), right_s.as_str());
        let merged_id = self.vocab.intern(merged);
        apply_merge(&mut self.words, left, right, merged_id);
        self.rules.push((left_s, right_s));
        proof {
            let toks2 = self.vocab.toks();
            assert(toks2.take(toks.len() as int) =~= toks);
            assert(toks2[left as int] == a);
            assert(toks2[right as int] == b);
            assert(ids_below(ws, toks2.len()));
            lemma_id_corpus_extend(ws, toks, toks2);
            lemma_merge_all_ids(ws, toks2, left, right, merged_id);
            lemma_merge_all_total(ws, left, right, merged_id);
            assert(self.rules() =~= old(self).rules().push((a, b)));
            let c0 = id_corpus(ws, toks);
            let c1 = self.corpus();
            assert(c1 == merge_all(c0, a, b, wp_join(a, b)));
            assert forall|i: int| 0 <= i < self.origin@.len() implies wp_spell(#[trigger] c1[i]) == self.origin@[i]
                && continued(c1[i]) by {
                assert(c1[i] == merge_seq(c0[i], a, b, wp_join(a, b)));
                lemma_spell_merge(c0[i], a, b);
            }
            assert forall|i: int, j: int| 0 <= i < self.origin@.len() && 0 <= j < self.origin@[i].len()
                implies toks2.contains(#[trigger] wp_units(self.origin@[i])[j]) by {
                let x = wp_units(self.origin@[i])[j];
                assert(toks.contains(x));
                let k = toks.index_of(x);
                assert(toks2.take(toks.len() as int)[k] == toks2[k]);
            }
            let j = wp_join(a, b);
            assert(toks2.contains(j)) by {
                if toks.contains(j) {
                    let k = toks.index_of(j);
                    assert(toks2.take(toks.len() as int)[k] == toks2[k]);
                } else {
                    assert(toks2[toks.len() as int] == j);
                }
            }
            assert(toks2.contains(a) && toks2.contains(b)) by {
                assert(toks2[left as int] == a);
                assert(toks2[right as int] == b);
            }
            let r0 = old(self).rules();
            assert forall|k: int| 0 <= k < self.rules().len() implies rule_in(toks2, #[trigger] self.rules()[k]) by {
                if k < r0.len() {
                    assert(self.rules()[k] == r0[k]);
                    assert(rule_in(toks, r0[k]));
                    let (x, y) = r0[k];
                    let kx = toks.index_of(x);
                    let ky = toks.index_of(y);
                    let kj = toks.index_of(wp_join(x, y));
                    assert(toks2.take(toks.len() as int)[kx] == toks2[kx]);
                    assert(toks2.take(toks.len() as int)[ky] == toks2[ky]);
                    assert(toks2.take(toks.len() as int)[kj] == toks2[kj]);
                } else {
                    assert(self.rules()[k] == (a, b));
                }
            }
        }
    }

    /// Whether training goes on: the vocabulary is below the target size.
    pub fn below_target(&self) -> (b: bool)
        requires
            self.wf(),
        ensures
            b == (self.toks().len() < self.limit()),
    {
        self.vocab.strs.len() < self.target
    }

    /// Whether the token `id` is a continuation token, one that starts with `##`.
    pub fn is_continuation(&self, id: u32) -> (b: bool)
        requires
            self.wf(),
            id < self.toks().len(),
        ensures
            b == has_hashes(self.toks()[id as int]),
    {
        let cs = &self.vocab.chars[id as usize];
        cs.len() >= 2 && cs[0] == '#' && cs[1] == '#'
    }

    /// The number of vocabulary tokens.
    pub fn vocab_len(&self) -> (n: usize)
        requires
            self.wf(),
        ensures
            n == self.toks().len(),
    {
        self.vocab.strs.len()
    }

    /// The trained model: the vocabulary, its index and the rules.
    pub fn into_model(self) -> (m: WordPieceModel)
        requires
            self.wf(),
        ensures
            views(m.vocab@) == self.toks(),
            rule_views(m.merge_rules@) == self.rules(),
            index_map_of(views(m.vocab@), crate::fxmap::token_ids(m.vocab_set)),
            crate::fxmap::token_ids(m.vocab_set).dom() == self.toks().to_set(),
    {
        let m = WordPieceModel { vocab: self.vocab.strs, vocab_set: self.vocab.by_str, merge_rules: self.rules };
        proof {
            let d = crate::fxmap::token_ids(m.vocab_set).dom();
            assert forall|x: Seq<char>| d.contains(x) <==> self.toks().to_set().contains(x) by {
                assert(crate::fxmap::token_ids(m.vocab_set).contains_key(x) <==> self.toks().contains(x));
            }
            assert(d =~= self.toks().to_set());
        }
        m
    }
}

/// Merging continuation tokens keeps what they spell and keeps them continuation tokens.
proof fn lemma_tail_merge(w: Seq<Seq<char>>, a: Seq<char>, b: Seq<char>)
    requires
        forall|i: int| 0 <= i < w.len() ==> has_hashes(#[trigger] w[i]),
    ensures
        tail_spell(merge_seq(w, a, b, wp_join(a, b))) == tail_spell(w),
        forall|i: int|
            0 <= i < merge_seq(w, a, b, wp_join(a, b)).len() ==> has_hashes(
                #[trigger] merge_seq(w, a, b, wp_join(a, b))[i],
            ),
    decreases w.len(),
{
    let j = wp_join(a, b);
    let mw = merge_seq(w, a, b, j);
    if w.len() >= 2 {
        if w[0] == a && w[1] == b {
            let rest = w.skip(2);
            assert forall|i: int| 0 <= i < rest.len() implies has_hashes(#[trigger] rest[i]) by {
                assert(rest[i] == w[i + 2]);
            }
            lemma_tail_merge(rest, a, b);
            assert(mw == seq![j] + merge_seq(rest, a, b, j));
            assert(mw.skip(1) =~= merge_seq(rest, a, b, j));
            assert(has_hashes(w[0]));
            assert(strip_hashes(j) =~= strip_hashes(a) + strip_hashes(b));
            assert(w.skip(1).skip(1) =~= rest);
            assert(w.skip(1)[0] == b);
            assert(tail_spell(w.skip(1)) == strip_hashes(b) + tail_spell(rest));
            assert(tail_spell(w) == strip_hashes(a) + tail_spell(w.skip(1)));
            assert(tail_spell(mw) == strip_hashes(j) + tail_spell(mw.skip(1)));
            assert(strip_hashes(a) + (strip_hashes(b) + tail_spell(rest)) =~= strip_hashes(j) + tail_spell(rest));
            assert forall|i: int| 0 <= i < mw.len() implies has_hashes(#[trigger] mw[i]) by {
                if i > 0 {
                    assert(mw[i] == merge_seq(rest, a, b, j)[i - 1]);
                }
            }
        } else {
            let rest = w.skip(1);
            assert forall|i: int| 0 <= i < rest.len() implies has_hashes(#[trigger] rest[i]) by {
                assert(rest[i] == w[i + 1]);
            }
            lemma_tail_merge(rest, a, b);
            assert(mw == seq![w[0]] + merge_seq(rest, a, b, j));
            assert(mw.skip(1) =~= merge_seq(rest, a, b, j));
            assert forall|i: int| 0 <= i < mw.len() implies has_hashes(#[trigger] mw[i]) by {
                if i > 0 {
                    assert(mw[i] == merge_seq(rest, a, b, j)[i - 1]);
                } else {
                    assert(has_hashes(w[0]));
                }
            }
        }
    }
}

/// A merge keeps what a word spells and keeps its later tokens continuation tokens.
proof fn lemma_spell_merge(w: Seq<Seq<char>>, a: Seq<char>, b: Seq<char>)
    requires
        continued(w),
    ensures
        wp_spell(merge_seq(w, a, b, wp_join(a, b))) == wp_spell(w),
        continued(merge_seq(w, a, b, wp_join(a, b))),
{
    let j = wp_join(a, b);
    let mw = merge_seq(w, a, b, j);
    if w.len() >= 2 {
        if w[0] == a && w[1] == b {
            let rest = w.skip(2);
            assert forall|i: int| 0 <= i < rest.len() implies has_hashes(#[trigger] rest[i]) by {
                assert(rest[i] == w[i + 2]);
            }
            lemma_tail_merge(rest, a, b);
            assert(mw == seq![j] + merge_seq(rest, a, b, j));
            assert(mw.skip(1) =~= merge_seq(rest, a, b, j));
            assert(w.skip(1).skip(1) =~= rest);
            assert(w.skip(1)[0] == b);
            assert(tail_spell(w.skip(1)) == strip_hashes(b) + tail_spell(rest));
            assert(a + (strip_hashes(b) + tail_spell(rest)) =~= j + tail_spell(rest));
            assert forall|i: int| 1 <= i < mw.len() implies has_hashes(#[trigger] mw[i]) by {
                assert(mw[i] == merge_seq(rest, a, b, j)[i - 1]);
            }
        } else {
            let rest = w.skip(1);
            assert forall|i: int| 0 <= i < rest.len() implies has_hashes(#[trigger] rest[i]) by {
                assert(rest[i] == w[i + 1]);
            }
            lemma_tail_merge(rest, a, b);
            assert(mw == seq![w[0]] + merge_seq(rest, a, b, j));
            assert(mw.skip(1) =~= merge_seq(rest, a, b, j));
            assert forall|i: int| 1 <= i < mw.len() implies has_hashes(#[trigger] mw[i]) by {
                assert(mw[i] == merge_seq(rest, a, b, j)[i - 1]);
            }
        }
    }
}

/// Reading ids as distinct strings keeps the token counts.
proof fn lemma_item_count_ids(w: Seq<u32>, toks: Seq<Seq<char>>, x: u32)
    requires
        forall|k: int| 0 <= k < w.len() ==> #[trigger] w[k] < toks.len(),
        toks.no_duplicates(),
        x < toks.len(),
    ensures
        count_tok(id_word(w, toks), toks[x as int]) == item_count(w, x),
    decreases w.len(),
{
    if w.len() > 0 {
        assert(id_word(w, toks).drop_last() =~= id_word(w.drop_last(), toks));
        lemma_item_count_ids(w.drop_last(), toks, x);
        assert(w[w.len() - 1] < toks.len());
        if w.last() != x {
            assert(toks[w.last() as int] != toks[x as int]);
        }
    }
}

proof fn lemma_corpus_items_ids(ws: Seq<Seq<u32>>, toks: Seq<Seq<char>>, x: u32)
    requires
        ids_below(ws, toks.len()),
        toks.no_duplicates(),
        x < toks.len(),
    ensures
        count_tok_all(id_corpus(ws, toks), toks[x as int]) == corpus_items(ws, x),
    decreases ws.len(),
{
    if ws.len() > 0 {
        assert(id_corpus(ws, toks).drop_last() =~= id_corpus(ws.drop_last(), toks));
        assert forall|i: int, j: int| 0 <= i < ws.drop_last().len() && 0 <= j < ws.drop_last()[i].len()
            implies #[trigger] ws.drop_last()[i][j] < toks.len() by {
            assert(ws.drop_last()[i] == ws[i]);
        }
        lemma_corpus_items_ids(ws.drop_last(), toks, x);
        assert forall|k: int| 0 <= k < ws.last().len() implies #[trigger] ws.last()[k] < toks.len() by {
            assert(ws[ws.len() - 1][k] < toks.len());
        }
        lemma_item_count_ids(ws.last(), toks, x);
    }
}

proof fn lemma_nonempty_nonempty(ws: Seq<Seq<char>>, i: int)
    requires
        0 <= i < nonempty(ws).len(),
    ensures
        nonempty(ws)[i].len() > 0,
    decreases ws.len(),
{
    if ws.len() > 0 {
        if ws.last().len() == 0 {
            lemma_nonempty_nonempty(ws.drop_last(), i);
        } else if i < nonempty(ws.drop_last()).len() {
            lemma_nonempty_nonempty(ws.drop_last(), i);
        }
    }
}

/// The right token of a pair that occurs in words whose later tokens start
/// with `##` starts with `##`.
proof fn lemma_pair_right_continued(ws: Seq<Seq<Seq<char>>>, a: Seq<char>, b: Seq<char>)
    requires
        forall|i: int| 0 <= i < ws.len() ==> continued(#[trigger] ws[i]),
        corpus_pairs(ws, a, b) > 0,
    ensures
        has_hashes(b),
    decreases ws.len(),
{
    let w = ws.last();
    let id = |x: Seq<char>| x;
    if crate::merging::occ_pairs(w, a, b) > 0 {
        assert(w.map_values(id) =~= w);
        crate::pairs::lemma_occ_map_source(w, a, b, id);
        let k = choose|k: int| 0 <= k && k + 1 < w.len() && id(#[trigger] w[k]) == a && id(w[k + 1]) == b;
        assert(continued(ws[ws.len() - 1]));
        assert(has_hashes(w[k + 1]));
    } else {
        assert forall|i: int| 0 <= i < ws.drop_last().len() implies continued(#[trigger] ws.drop_last()[i]) by {
            assert(ws.drop_last()[i] == ws[i]);
        }
        lemma_pair_right_continued(ws.drop_last(), a, b);
    }
}

/// Every rule training learns is made of vocabulary tokens: both its parts
/// and the token they join into are in the vocabulary, and its right part
/// starts with `##`.  The vocabulary never holds a token twice, and once a
/// rule is learned it is no larger than the target size.
pub proof fn law_trained_rules_are_vocabulary_tokens(t: WordPieceTrainer)
    requires
        t.wf(),
    ensures
        t.toks().no_duplicates(),
        t.rules().len() == 0 || t.toks().len() <= t.limit(),
        forall|k: int| 0 <= k < t.rules().len() ==> rule_in(t.toks(), #[trigger] t.rules()[k]),
{
}

/// Training never changes what a word spells: at every step each word's
/// tokens spell the word it came from, and its tokens after the first start
/// with `##`.
pub proof fn law_training_keeps_spelling(t: WordPieceTrainer)
    requires
        t.wf(),
    ensures
        t.corpus().len() == t.origin().len(),
        forall|i: int|
            0 <= i < t.origin().len() ==> wp_spell(#[trigger] t.corpus()[i]) == t.origin()[i] && continued(
                t.corpus()[i],
            ),
{
}

/// Every word training started from tokenizes without `[UNK]` at every
/// step: its initial pieces stay vocabulary tokens, so greedy matching
/// finds pieces for it.
pub proof fn law_training_words_never_unknown(t: WordPieceTrainer, cs: Seq<char>)
    requires
        t.wf(),
        t.origin().contains(cs),
    ensures
        greedy_pieces(cs, 0, t.toks().to_set()) is Some,
        spec_tokenize_word(cs, t.toks().to_set()) == greedy_pieces(cs, 0, t.toks().to_set())->0,
{
    let i = t.origin().index_of(cs);
    assert forall|j: int| 0 <= j < cs.len() implies t.toks().to_set().contains(#[trigger] wp_units(cs)[j]) by {
        assert(t.toks().contains(wp_units(t.origin@[i])[j]));
    }
    assert(cs.len() > 0);
    law_known_pieces_never_unknown(cs, t.toks().to_set());
}

/// The tokens of each non-empty word (empty words are skipped).
pub open spec fn wp_token_seqs(ws: Seq<Seq<char>>, vocab: Set<Seq<char>>) -> Seq<Seq<Seq<char>>>
    decreases ws.len(),
{
    if ws.len() == 0 {
        seq![]
    } else if ws.last().len() == 0 {
        wp_token_seqs(ws.drop_last(), vocab)
    } else {
        wp_token_seqs(ws.drop_last(), vocab).push(spec_tokenize_word(ws.last(), vocab))
    }
}

proof fn lemma_greedy_len(cs: Seq<char>, start: int, vocab: Set<Seq<char>>)
    requires
        0 <= start <= cs.len(),
        greedy_pieces(cs, start, vocab) is Some,
    ensures
        (greedy_pieces(cs, start, vocab)->0).len() <= cs.len() - start,
    decreases cs.len() - start,
{
    if start < cs.len() {
        lemma_longest_piece_end_range(cs, start, cs.len() as int, vocab);
        let e = longest_piece_end(cs, start, cs.len() as int, vocab)->0;
        lemma_greedy_len(cs, e, vocab);
    }
}

proof fn lemma_tokenize_len(cs: Seq<char>, vocab: Set<Seq<char>>)
    ensures
        spec_tokenize_word(cs, vocab).len() <= cs.len(),
{
    if cs.len() > 0 && greedy_pieces(cs, 0, vocab) is Some {
        lemma_greedy_len(cs, 0, vocab);
    }
}

/// How often each token occurs when every non-empty word is tokenized.
pub fn token_frequencies(corpus_words: &[String], model: &WordPieceModel) -> (m: FxHashMap<String, u64>)
    requires
        total_len(views(corpus_words@)) <= u64::MAX,
    ensures
        freq_exact(token_counts(m), wp_token_seqs(views(corpus_words@), token_ids(model.vocab_set).dom())),
{
    let ghost ss = views(corpus_words@);
    let ghost vocab = token_ids(model.vocab_set).dom();
    let mut m = new_freq();
    let n = corpus_words.len();
    proof {
        assert(ss.take(0) =~= Seq::<Seq<char>>::empty());
    }
    for i in 0..n
        invariant
            n == corpus_words@.len(),
            ss == views(corpus_words@),
            vocab == token_ids(model.vocab_set).dom(),
            total_len(ss) <= u64::MAX,
            freq_exact(token_counts(m), wp_token_seqs(ss.take(i as int), vocab)),
            total_len(wp_token_seqs(ss.take(i as int), vocab)) <= total_len(ss.take(i as int)),
    {
        let ghost next = ss.take(i + 1);
        let ghost prev = wp_token_seqs(ss.take(i as int), vocab);
        proof {
            assert(next.drop_last() =~= ss.take(i as int));
            assert(next.last() == corpus_words@[i as int]@);
            lemma_total_len_take_le(ss, i + 1);
        }
        let toks = tokenize_word(corpus_words[i].as_str(), model);
        if toks.len() > 0 {
            proof {
                lemma_tokenize_len(next.last(), vocab);
                assert(next.last().len() > 0);
                assert(wp_token_seqs(next, vocab) =~= prev.push(views(toks@)));
                assert(wp_token_seqs(next, vocab).drop_last() =~= prev);
            }
            add_tokens(&mut m, &toks, Ghost(prev));
        } else {
            proof {
                if next.last().len() > 0 {
                    assert(greedy_pieces(next.last(), 0, vocab) is Some);
                    lemma_longest_piece_end_range(next.last(), 0, next.last().len() as int, vocab);
                }
                assert(wp_token_seqs(next, vocab) =~= prev);
            }
        }
    }
    proof {
        assert(ss.take(n as int) =~= ss);
    }
    m
}

} // verus!
