//! Training and applying classic BPE merge rules.

use vstd::prelude::*;
use crate::merging::{lemma_merge_flatten, lemma_merge_len, merge_seq, merge_tokens};
use crate::text::{chars_of, char_string, views};
use crate::engine::{
    apply_merge, best_pair_by_freq, id_corpus, id_word, ids_below, lemma_id_corpus_extend, lemma_merge_all_ids, lemma_merge_all_total,
};
use crate::pairs::{best_pair, lemma_total_len_take_le, merge_all, total_len};
use crate::sentencepiece_bpe::pair_stats::{word_seqs, PairStats};
use crate::vocab::{lemma_unit_tokens_bound, unit_shaped, Vocab};
use crate::frequency::{add_tokens, freq_exact, new_freq};
use crate::fxmap::token_counts;
use rustc_hash::FxHashMap;

verus! {

/// Training settings.
pub struct TrainConfig {
    /// At most this many merges are learned.
    pub num_merges: usize,
    /// A pair is merged only if it occurs at least this often.
    pub min_pair_count: u64,
}

impl Default for TrainConfig {
    fn default() -> (c: Self)
        ensures
            c.num_merges == 25,
            c.min_pair_count == 2,
    {
        TrainConfig { num_merges: 25, min_pair_count: 2 }
    }
}

/// The non-empty words of a corpus, each as single-char tokens.
pub open spec fn initial_units(corpus: Seq<Seq<char>>) -> Seq<Seq<Seq<char>>>
    decreases corpus.len(),
{
    if corpus.len() == 0 {
        seq![]
    } else if corpus.last().len() == 0 {
        initial_units(corpus.drop_last())
    } else {
        initial_units(corpus.drop_last()).push(char_units(corpus.last()))
    }
}

/// The rules BPE learns from a corpus of token sequences: at most `n`
/// times, merge the best pair (see [`best_pair`]) everywhere; stop early
/// when no pair is a candidate.
pub open spec fn bpe_rules(ws: Seq<Seq<Seq<char>>>, min: u64, n: nat) -> Seq<(Seq<char>, Seq<char>)>
    decreases n,
{
    if n == 0 {
        seq![]
    } else {
        match best_pair(ws, min) {
            None => seq![],
            Some((a, b)) => seq![(a, b)] + bpe_rules(merge_all(ws, a, b, a + b), min, (n - 1) as nat),
        }
    }
}

/// Learns merge rules by classic BPE: each step merges the most frequent
/// adjacent pair (ties to the lexicographically smaller pair) that occurs at
/// least `min_pair_count` times; at most `num_merges` steps.
pub fn train_bpe(corpus_words: &[String], cfg: &TrainConfig) -> (rules: Vec<MergeRule>)
    requires
        total_len(views(corpus_words@)) <= u64::MAX,
        cfg.num_merges + 0x220000 < u32::MAX,
    ensures
        rule_views(rules@) == bpe_rules(
            initial_units(views(corpus_words@)),
            cfg.min_pair_count,
            cfg.num_merges as nat,
        ),
{
    let ghost corpus = views(corpus_words@);
    let mut vocab = Vocab::new();
    let mut words: Vec<Vec<u32>> = Vec::new();
    let nw = corpus_words.len();
    proof {
        assert(corpus.take(0) =~= Seq::<Seq<char>>::empty());
        assert(word_seqs(words@) =~= Seq::<Seq<u32>>::empty());
        assert(id_corpus(word_seqs(words@), vocab.toks()) =~= Seq::<Seq<Seq<char>>>::empty());
    }
    for i in 0..nw
        invariant
            nw == corpus_words@.len(),
            corpus == views(corpus_words@),
            total_len(corpus) <= u64::MAX,
            cfg.num_merges + 0x220000 < u32::MAX,
            vocab.wf(),
            ids_below(word_seqs(words@), vocab.toks().len()),
            id_corpus(word_seqs(words@), vocab.toks()) == initial_units(corpus.take(i as int)),
            forall|q: int| 0 <= q < vocab.toks().len() ==> unit_shaped(#[trigger] vocab.toks()[q]),
            total_len(word_seqs(words@)) <= total_len(corpus.take(i as int)),
    {
        let ghost prefix = corpus.take(i as int);
        let ghost next = corpus.take(i + 1);
        proof {
            assert(next.drop_last() =~= prefix);
            assert(next.last() == corpus_words@[i as int]@);
            lemma_total_len_take_le(corpus, i + 1);
        }
        let cs = chars_of(corpus_words[i].as_str());
        if cs.len() > 0 {
            let ghost toks0 = vocab.toks();
            let ghost ws0 = word_seqs(words@);
            let mut ids: Vec<u32> = Vec::new();
            let nc = cs.len();
            for j in 0..nc
                invariant
                    nc == cs@.len(),
                    corpus.len() == nw,
                    i < nw,
                    cs@ == corpus[i as int],
                    total_len(next) <= total_len(corpus),
                    total_len(corpus) <= u64::MAX,
                    total_len(next) == total_len(prefix) + nc,
                    vocab.wf(),
                    vocab.toks().len() >= toks0.len(),
                    vocab.toks().take(toks0.len() as int) == toks0,
                    forall|q: int| 0 <= q < vocab.toks().len() ==> unit_shaped(#[trigger] vocab.toks()[q]),
                    ids@.len() == j,
                    forall|k: int| 0 <= k < j ==> #[trigger] ids@[k] < vocab.toks().len(),
                    id_word(ids@, vocab.toks()) == char_units(cs@.take(j as int)),
            {
                let ghost before = vocab.toks();
                let ghost old_ids = ids@;
                proof {
                    lemma_unit_tokens_bound(before);
                }
                let id = vocab.intern(char_string(cs[j]));
                ids.push(id);
                proof {
                    let after = vocab.toks();
                    assert(after.take(before.len() as int) =~= before);
                    assert(after.take(toks0.len() as int) =~= toks0);
                    assert forall|k: int| 0 <= k < j implies #[trigger] after[old_ids[k] as int] == before[old_ids[k] as int] by {
                        assert(after.take(before.len() as int)[old_ids[k] as int] == after[old_ids[k] as int]);
                    }
                    assert(id_word(old_ids, after) =~= id_word(old_ids, before));
                    assert(ids@ == old_ids.push(id));
                    assert(id_word(ids@, after) =~= id_word(old_ids, after).push(after[id as int]));
                    assert(char_units(cs@.take(j + 1)) =~= char_units(cs@.take(j as int)).push(seq![cs@[j as int]]));
                }
            }
            proof {
                lemma_id_corpus_extend(word_seqs(words@), toks0, vocab.toks());
                assert(cs@.take(nc as int) =~= cs@);
            }
            words.push(ids);
            proof {
                let ws = word_seqs(words@);
                assert(ws.drop_last() =~= ws0);
                assert(ws.last() == ids@);
                assert(id_corpus(ws, vocab.toks()) =~= id_corpus(ws.drop_last(), vocab.toks()).push(
                    id_word(ws.last(), vocab.toks()),
                ));
                assert(ws.last() == ids@);
                assert(total_len(ws) == total_len(ws.drop_last()) + nc);
                assert forall|a: int, b: int| 0 <= a < ws.len() && 0 <= b < ws[a].len()
                    implies #[trigger] ws[a][b] < vocab.toks().len() by {
                    if a < ws.len() - 1 {
                        assert(ws[a] == ws0[a]);
                        assert(ws0[a][b] < toks0.len());
                    } else {
                        assert(ws[a] == ids@);
                        assert(ids@[b] < vocab.toks().len());
                    }
                }
                assert(total_len(ws) <= total_len(next));
            }
        } else {
            proof {
                assert(next.last().len() == 0);
                assert(total_len(next) == total_len(prefix));
            }
        }
    }
    proof {
        assert(corpus.take(nw as int) =~= corpus);
    }
    let ghost init = initial_units(corpus);
    let ghost total0 = total_len(corpus);
    proof {
        lemma_unit_tokens_bound(vocab.toks());
    }
    let mut rules: Vec<MergeRule> = Vec::new();
    let mut k: usize = 0;
    let mut done = false;
    proof {
        assert(rule_views(rules@) =~= Seq::<(Seq<char>, Seq<char>)>::empty());
    }
    while k < cfg.num_merges && !done
        invariant
            total0 == total_len(corpus),
            total0 <= u64::MAX,
            cfg.num_merges + 0x220000 < u32::MAX,
            k <= cfg.num_merges,
            vocab.wf(),
            vocab.toks().len() <= 0x220000 + k,
            ids_below(word_seqs(words@), vocab.toks().len()),
            total_len(word_seqs(words@)) <= total0,
            done ==> bpe_rules(id_corpus(word_seqs(words@), vocab.toks()), cfg.min_pair_count, (cfg.num_merges - k) as nat)
                == Seq::<(Seq<char>, Seq<char>)>::empty(),
            rule_views(rules@) + bpe_rules(
                id_corpus(word_seqs(words@), vocab.toks()),
                cfg.min_pair_count,
                (cfg.num_merges - k) as nat,
            ) == bpe_rules(init, cfg.min_pair_count, cfg.num_merges as nat),
        decreases cfg.num_merges - k + (if done { 0int } else { 1int }),
    {
        let ghost ws = word_seqs(words@);
        let ghost toks = vocab.toks();
        let stats = PairStats::from_words(&words);
        match best_pair_by_freq(&stats, &vocab, cfg.min_pair_count, Ghost(ws)) {
            None => {
                done = true;
            },
            Some((l, r)) => {
                let left = vocab.strs[l as usize].clone();
                let right = vocab.strs[r as usize].clone();
                let mut merged = left.clone();
                merged.append(right.as_str());
                let merged_id = vocab.intern(merged);
                apply_merge(&mut words, l, r, merged_id);
                proof {
                    let toks2 = vocab.toks();
                    assert(toks2.take(toks.len() as int) =~= toks);
                    assert(toks2[l as int] == toks[l as int]);
                    assert(toks2[r as int] == toks[r as int]);
                    lemma_id_corpus_extend(ws, toks, toks2);
                    lemma_merge_all_ids(ws, toks2, l, r, merged_id);
                    lemma_merge_all_total(ws, l, r, merged_id);
                    let cur = id_corpus(ws, toks);
                    let (a, b) = (toks[l as int], toks[r as int]);
                    assert(best_pair(cur, cfg.min_pair_count) == Some((a, b)));
                    assert(bpe_rules(cur, cfg.min_pair_count, (cfg.num_merges - k) as nat) == seq![(a, b)]
                        + bpe_rules(merge_all(cur, a, b, a + b), cfg.min_pair_count, (cfg.num_merges - k - 1) as nat));
                }
                rules.push((left, right));
                proof {
                    assert(rule_views(rules@) =~= rule_views(old_rules_of(rules@)).push((toks[l as int], toks[r as int])));
                }
                k += 1;
            },
        }
    }
    proof {
        if !done {
            assert(k == cfg.num_merges);
        }
        assert(rule_views(rules@) + Seq::<(Seq<char>, Seq<char>)>::empty() =~= rule_views(rules@));
    }
    rules
}

spec fn old_rules_of(rs: Seq<MergeRule>) -> Seq<MergeRule> {
    rs.drop_last()
}

/// A learned merge: the left and the right token, merged into their concatenation.
pub type MergeRule = (String, String);

/// The views of a list of merge rules.
pub open spec fn rule_views(rules: Seq<MergeRule>) -> Seq<(Seq<char>, Seq<char>)> {
    rules.map_values(|r: MergeRule| (r.0@, r.1@))
}

/// Each char of a word as a token of its own.
pub open spec fn char_units(s: Seq<char>) -> Seq<Seq<char>> {
    s.map_values(|c: char| seq![c])
}

/// The tokens after applying the rules in order, each rule merging its pair
/// into the concatenation of the two tokens.
pub open spec fn apply_rules(toks: Seq<Seq<char>>, rules: Seq<(Seq<char>, Seq<char>)>) -> Seq<Seq<char>>
    decreases rules.len(),
{
    if rules.len() == 0 {
        toks
    } else {
        let r = rules.last();
        merge_seq(apply_rules(toks, rules.drop_last()), r.0, r.1, r.0 + r.1)
    }
}

/// Applying `rules` then `more` is applying their concatenation.
pub proof fn lemma_apply_rules_append(
    toks: Seq<Seq<char>>,
    rules: Seq<(Seq<char>, Seq<char>)>,
    more: Seq<(Seq<char>, Seq<char>)>,
)
    ensures
        apply_rules(toks, rules + more) == apply_rules(apply_rules(toks, rules), more),
    decreases more.len(),
{
    if more.len() == 0 {
        assert(rules + more =~= rules);
    } else {
        lemma_apply_rules_append(toks, rules, more.drop_last());
        assert((rules + more).drop_last() =~= rules + more.drop_last());
        assert((rules + more).last() == more.last());
    }
}

/// Applying rules never makes the token sequence longer.
pub proof fn lemma_apply_rules_len(toks: Seq<Seq<char>>, rules: Seq<(Seq<char>, Seq<char>)>)
    ensures
        apply_rules(toks, rules).len() <= toks.len(),
    decreases rules.len(),
{
    if rules.len() > 0 {
        lemma_apply_rules_len(toks, rules.drop_last());
        let r = rules.last();
        lemma_merge_len(apply_rules(toks, rules.drop_last()), r.0, r.1, r.0 + r.1);
    }
}

/// Applying rules never changes the text that the tokens spell.
pub proof fn lemma_apply_rules_flatten(toks: Seq<Seq<char>>, rules: Seq<(Seq<char>, Seq<char>)>)
    ensures
        apply_rules(toks, rules).flatten() == toks.flatten(),
    decreases rules.len(),
{
    if rules.len() > 0 {
        lemma_apply_rules_flatten(toks, rules.drop_last());
        let r = rules.last();
        lemma_merge_flatten(apply_rules(toks, rules.drop_last()), r.0, r.1);
    }
}

/// The single-char tokens of a word spell the word.
pub proof fn lemma_char_units_flatten(s: Seq<char>)
    ensures
        char_units(s).flatten() == s,
    decreases s.len(),
{
    if s.len() > 0 {
        lemma_char_units_flatten(s.drop_first());
        assert(char_units(s).drop_first() =~= char_units(s.drop_first()));
        assert(seq![s[0]] + s.drop_first() =~= s);
    }
}

/// The tokens that the merge rules make of a word spell the word.
pub proof fn law_tokens_spell_the_word(word: Seq<char>, rules: Seq<(Seq<char>, Seq<char>)>)
    ensures
        apply_rules(char_units(word), rules).flatten() == word,
{
    lemma_apply_rules_flatten(char_units(word), rules);
    lemma_char_units_flatten(word);
}

/// A word never has more tokens than chars, whatever the rules.
pub proof fn law_no_more_tokens_than_chars(word: Seq<char>, rules: Seq<(Seq<char>, Seq<char>)>)
    ensures
        apply_rules(char_units(word), rules).len() <= word.len(),
{
    lemma_apply_rules_len(char_units(word), rules);
}

/// Adding merge rules at the end never gives a word more tokens.
pub proof fn law_more_rules_never_more_tokens(
    word: Seq<char>,
    rules: Seq<(Seq<char>, Seq<char>)>,
    more: Seq<(Seq<char>, Seq<char>)>,
)
    ensures
        apply_rules(char_units(word), rules + more).len() <= apply_rules(char_units(word), rules).len(),
{
    lemma_apply_rules_append(char_units(word), rules, more);
    lemma_apply_rules_len(apply_rules(char_units(word), rules), more);
}

/// Applies the merge rules, in order, to a token sequence.
pub(crate) fn apply_rules_in_place(seq: &mut Vec<String>, merges: &[MergeRule])
    ensures
        views(final(seq)@) == apply_rules(views(old(seq)@), rule_views(merges@)),
{
    let ghost start = views(seq@);
    proof {
        assert(rule_views(merges@).take(0) =~= Seq::<(Seq<char>, Seq<char>)>::empty());
    }
    let n = merges.len();
    for k in 0..n
        invariant
            n == merges@.len(),
            views(seq@) == apply_rules(start, rule_views(merges@).take(k as int)),
    {
        let left = &merges[k].0;
        let right = &merges[k].1;
        let mut merged = left.clone();
        merged.append(right.as_str());
        merge_tokens(seq, left, right, &merged);
        proof {
            let rv = rule_views(merges@);
            assert(rv.take(k + 1).drop_last() =~= rv.take(k as int));
            assert(rv.take(k + 1).last() == rv[k as int]);
        }
    }
    proof {
        assert(rule_views(merges@).take(n as int) =~= rule_views(merges@));
    }
}

/// Applies the merge rules, in order, to a word that starts as single chars.
pub fn apply_merges_to_word(word: &str, merges: &[MergeRule]) -> (toks: Vec<String>)
    ensures
        views(toks@) == apply_rules(char_units(word@), rule_views(merges@)),
{
    let cs = chars_of(word);
    let mut seq: Vec<String> = Vec::new();
    for i in 0..cs.len()
        invariant
            views(seq@) == char_units(cs@.take(i as int)),
    {
        seq.push(char_string(cs[i]));
        proof {
            assert(char_units(cs@.take(i + 1)) =~= char_units(cs@.take(i as int)).push(seq![cs@[i as int]]));
            assert(views(seq@) =~= views(seq@.drop_last()).push(seq@.last()@));
        }
    }
    proof {
        assert(cs@.take(cs@.len() as int) =~= cs@);
    }
    apply_rules_in_place(&mut seq, merges);
    seq
}

/// The tokens of each non-empty word of a corpus after the rules.
pub open spec fn bpe_token_seqs(corpus: Seq<Seq<char>>, rules: Seq<(Seq<char>, Seq<char>)>) -> Seq<Seq<Seq<char>>> {
    initial_units(corpus).map_values(|u: Seq<Seq<char>>| apply_rules(u, rules))
}

proof fn lemma_initial_units_total(c: Seq<Seq<char>>)
    ensures
        total_len(initial_units(c)) == total_len(c),
    decreases c.len(),
{
    if c.len() > 0 {
        lemma_initial_units_total(c.drop_last());
        if c.last().len() > 0 {
            let r = initial_units(c.drop_last()).push(char_units(c.last()));
            assert(r.drop_last() =~= initial_units(c.drop_last()));
        }
    }
}

proof fn lemma_token_seqs_total(us: Seq<Seq<Seq<char>>>, rules: Seq<(Seq<char>, Seq<char>)>)
    ensures
        total_len(us.map_values(|u: Seq<Seq<char>>| apply_rules(u, rules))) <= total_len(us),
    decreases us.len(),
{
    if us.len() > 0 {
        let f = |u: Seq<Seq<char>>| apply_rules(u, rules);
        assert(us.map_values(f).drop_last() =~= us.drop_last().map_values(f));
        lemma_token_seqs_total(us.drop_last(), rules);
        lemma_apply_rules_len(us.last(), rules);
    }
}

/// How often each token occurs when every non-empty word of the corpus is
/// tokenized with the rules.
pub fn token_frequencies(corpus_words: &[String], merges: &[MergeRule]) -> (m: FxHashMap<String, u64>)
    requires
        total_len(views(corpus_words@)) <= u64::MAX,
    ensures
        freq_exact(token_counts(m), bpe_token_seqs(views(corpus_words@), rule_views(merges@))),
{
    let ghost corpus = views(corpus_words@);
    let ghost rv = rule_views(merges@);
    let mut m = new_freq();
    let n = corpus_words.len();
    proof {
        assert(corpus.take(0) =~= Seq::<Seq<char>>::empty());
        assert(bpe_token_seqs(corpus.take(0), rv) =~= Seq::<Seq<Seq<char>>>::empty());
    }
    for i in 0..n
        invariant
            n == corpus_words@.len(),
            corpus == views(corpus_words@),
            rv == rule_views(merges@),
            total_len(corpus) <= u64::MAX,
            freq_exact(token_counts(m), bpe_token_seqs(corpus.take(i as int), rv)),
    {
        let ghost next = corpus.take(i + 1);
        proof {
            assert(next.drop_last() =~= corpus.take(i as int));
            assert(next.last() == corpus_words@[i as int]@);
            lemma_total_len_take_le(corpus, i + 1);
            lemma_initial_units_total(next);
            lemma_token_seqs_total(initial_units(next), rv);
        }
        let word = corpus_words[i].as_str();
        let cs = chars_of(word);
        if cs.len() > 0 {
            let toks = apply_merges_to_word(word, merges);
            proof {
                let f = |u: Seq<Seq<char>>| apply_rules(u, rv);
                assert(bpe_token_seqs(next, rv) =~= bpe_token_seqs(corpus.take(i as int), rv).push(views(toks@)));
            }
            add_tokens(&mut m, &toks, Ghost(bpe_token_seqs(corpus.take(i as int), rv)));
        } else {
            proof {
                assert(bpe_token_seqs(next, rv) =~= bpe_token_seqs(corpus.take(i as int), rv));
            }
        }
    }
    proof {
        assert(corpus.take(n as int) =~= corpus);
    }
    m
}

/// BPE never learns more rules than it is allowed merges.
pub proof fn law_rules_at_most_merges(ws: Seq<Seq<Seq<char>>>, min: u64, n: nat)
    ensures
        bpe_rules(ws, min, n).len() <= n,
    decreases n,
{
    if n > 0 {
        if let Some((a, b)) = best_pair(ws, min) {
            law_rules_at_most_merges(merge_all(ws, a, b, a + b), min, (n - 1) as nat);
        }
    }
}

/// Training with fewer merges learns a prefix of the rules that training
/// with more merges learns: exactly its first `min(n1, |longer run|)` rules.
pub proof fn law_fewer_merges_learn_a_prefix(ws: Seq<Seq<Seq<char>>>, min: u64, n1: nat, n2: nat)
    requires
        n1 <= n2,
    ensures
        bpe_rules(ws, min, n1).len() <= bpe_rules(ws, min, n2).len(),
        bpe_rules(ws, min, n1).len() == (if n1 < bpe_rules(ws, min, n2).len() {
            n1
        } else {
            bpe_rules(ws, min, n2).len()
        }),
        bpe_rules(ws, min, n2).take(bpe_rules(ws, min, n1).len() as int) == bpe_rules(ws, min, n1),
    decreases n1,
{
    if n1 == 0 {
        assert(bpe_rules(ws, min, n2).take(0) =~= bpe_rules(ws, min, n1));
    } else {
        match best_pair(ws, min) {
            None => {
                assert(bpe_rules(ws, min, n2).take(0) =~= bpe_rules(ws, min, n1));
            },
            Some((a, b)) => {
                let next = merge_all(ws, a, b, a + b);
                law_fewer_merges_learn_a_prefix(next, min, (n1 - 1) as nat, (n2 - 1) as nat);
                let r1 = bpe_rules(next, min, (n1 - 1) as nat);
                let r2 = bpe_rules(next, min, (n2 - 1) as nat);
                assert((seq![(a, b)] + r2).take(r1.len() + 1int) =~= seq![(a, b)] + r2.take(r1.len() as int));
            },
        }
    }
}

/// Training with more merges never gives a word more tokens.
pub proof fn law_more_merges_never_more_tokens(
    corpus: Seq<Seq<char>>,
    min: u64,
    n1: nat,
    n2: nat,
    word: Seq<char>,
)
    requires
        n1 <= n2,
    ensures
        apply_rules(char_units(word), bpe_rules(initial_units(corpus), min, n2)).len() <= apply_rules(
            char_units(word),
            bpe_rules(initial_units(corpus), min, n1),
        ).len(),
{
    let ws = initial_units(corpus);
    law_fewer_merges_learn_a_prefix(ws, min, n1, n2);
    let r1 = bpe_rules(ws, min, n1);
    let r2 = bpe_rules(ws, min, n2);
    assert(r2 =~= r1 + r2.skip(r1.len() as int));
    law_more_rules_never_more_tokens(word, r1, r2.skip(r1.len() as int));
}

} // verus!
