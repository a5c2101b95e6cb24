//! SentencePiece-BPE training and tokenization.

use vstd::prelude::*;
use rustc_hash::FxHashMap;
use crate::bpe::trainer::{apply_rules, apply_rules_in_place, lemma_apply_rules_flatten, rule_views};
use crate::frequency::{add_tokens, freq_exact, new_freq};
use crate::fxmap::{token_counts, token_ids_get};
use crate::merging::merge_seq;
use crate::engine::{
    apply_merge, best_pair_by_freq, id_corpus, id_word, ids_below, lemma_corpus_pairs_ids, lemma_id_corpus_extend,
    lemma_id_corpus_total, lemma_merge_all_ids, lemma_merge_all_total,
};
use crate::fxmap::{char_table, char_table_entries, char_table_get, char_table_insert, char_table_new, token_ids};
use crate::pairs::{best_pair, lemma_best_pair_occurs, lemma_total_len_add, merge_all, total_len};
use crate::sentencepiece_bpe::pair_stats::{word_seqs, PairStats};
use crate::sentencepiece_bpe::pretokenize::{count_char, lemma_count_char_add, normalize_sentence, spec_normalize};
use crate::sorting::{lemma_sorted_unique, sort_char_entries};
use crate::text::{chars_of, char_string, push_char, views};
use crate::vocab::{flat_tokens, index_map_of, intern_all, intern_spec, lemma_unit_tokens_bound, unit_shaped, Vocab};

verus! {

/// A learned merge: the left and the right token, merged into their concatenation.
pub type MergeRule = (String, String);

/// Training settings.  The character coverage is given as the number of
/// character occurrences to cover: for a coverage `c` of a corpus with `n`
/// character occurrences, `floor(n * c)`.
pub struct TrainConfig {
    /// Training stops once the vocabulary has this many tokens.
    pub vocab_size: usize,
    /// Chars are taken most frequent first until this many occurrences are covered;
    /// the rest become `<unk>`.
    pub coverage_target: u64,
    /// A pair is merged only if it occurs at least this often.
    pub min_pair_count: u64,
}

/// A trained SentencePiece-BPE model.
pub struct SentencePieceModel {
    /// The vocabulary in id order; `<unk>` has id 0.
    pub vocab: Vec<String>,
    /// Each vocabulary token to its id.
    pub vocab_set: FxHashMap<String, u32>,
    /// The merges, in the order they were learned.
    pub merge_rules: Vec<MergeRule>,
}

/// The token `<unk>`.
pub open spec fn unk() -> Seq<char> {
    seq!['<', 'u', 'n', 'k', '>']
}

/// The normalized sentences.
pub open spec fn normalized(sentences: Seq<String>) -> Seq<Seq<char>> {
    sentences.map_values(|s: String| spec_normalize(s@))
}

/// Occurrences of `c` over all sentences.
pub open spec fn corpus_char_count(ns: Seq<Seq<char>>, c: char) -> nat
    decreases ns.len(),
{
    if ns.len() == 0 {
        0
    } else {
        corpus_char_count(ns.drop_last(), c) + count_char(ns.last(), c)
    }
}

/// Entry `x` comes before `y`: it is more frequent, or as frequent with a smaller char.
pub open spec fn entry_before(x: (char, u64), y: (char, u64)) -> bool {
    x.1 > y.1 || (x.1 == y.1 && x.0 < y.0)
}

/// `l` lists every char of the corpus once with its count, in [`entry_before`] order.
pub open spec fn is_char_list(l: Seq<(char, u64)>, ns: Seq<Seq<char>>) -> bool {
    &&& forall|i: int, j: int| 0 <= i < j < l.len() ==> entry_before(#[trigger] l[i], #[trigger] l[j])
    &&& forall|i: int| 0 <= i < l.len() ==> (#[trigger] l[i]).1 == corpus_char_count(ns, l[i].0) && l[i].1 > 0
    &&& forall|c: char| #[trigger] corpus_char_count(ns, c) > 0 ==> exists|i: int| 0 <= i < l.len() && l[i].0 == c
}

/// The chars of the corpus, most frequent first, ties by smaller char.
pub open spec fn char_list(ns: Seq<Seq<char>>) -> Seq<(char, u64)> {
    choose|l: Seq<(char, u64)>| is_char_list(l, ns)
}

/// How many entries of the list are taken: entries are taken in order while
/// the occurrences covered so far are below the target.
pub open spec fn included_count(l: Seq<(char, u64)>, target: u64, k: nat, covered: nat) -> nat
    decreases l.len() - k,
{
    if k >= l.len() || covered >= target {
        k
    } else {
        included_count(l, target, k + 1, covered + l[k as int].1 as nat)
    }
}

/// The char is covered: it is among the entries taken.
pub open spec fn sp_included(ns: Seq<Seq<char>>, target: u64, c: char) -> bool {
    let l = char_list(ns);
    exists|i: int| 0 <= i < included_count(l, target, 0, 0) && l[i].0 == c
}

/// The initial token of a char: itself when covered, else `<unk>`.
pub open spec fn sp_unit(ns: Seq<Seq<char>>, target: u64, c: char) -> Seq<char> {
    if sp_included(ns, target, c) {
        seq![c]
    } else {
        unk()
    }
}

/// The initial tokens of a sentence.
pub open spec fn sp_units(ns: Seq<Seq<char>>, target: u64, s: Seq<char>) -> Seq<Seq<char>> {
    s.map_values(|c: char| sp_unit(ns, target, c))
}

/// The non-empty normalized sentences of the prefix `ss`, as initial tokens.
pub open spec fn sp_initial(ns: Seq<Seq<char>>, target: u64, ss: Seq<Seq<char>>) -> Seq<Seq<Seq<char>>>
    decreases ss.len(),
{
    if ss.len() == 0 {
        seq![]
    } else if ss.last().len() == 0 {
        sp_initial(ns, target, ss.drop_last())
    } else {
        sp_initial(ns, target, ss.drop_last()).push(sp_units(ns, target, ss.last()))
    }
}

/// The merge loop: while the vocabulary is below `vocab_size` and some pair
/// is a candidate, merge the best pair (see [`best_pair`]) everywhere and
/// intern the merged token.  Gives the final vocabulary and the rules.
pub open spec fn sp_train(
    ws: Seq<Seq<Seq<char>>>,
    vocab: Seq<Seq<char>>,
    vocab_size: nat,
    min: u64,
) -> (Seq<Seq<char>>, Seq<(Seq<char>, Seq<char>)>)
    decreases total_len(ws),
{
    if vocab.len() >= vocab_size {
        (vocab, seq![])
    } else {
        match best_pair(ws, min) {
            None => (vocab, seq![]),
            Some((a, b)) => {
                proof {
                    lemma_best_pair_occurs(ws, min);
                    lemma_merge_all_total(ws, a, b, a + b);
                }
                let r = sp_train(merge_all(ws, a, b, a + b), intern_spec(vocab, a + b), vocab_size, min);
                (r.0, seq![(a, b)] + r.1)
            },
        }
    }
}

/// What training gives for these sentences and settings: the vocabulary and the rules.
pub open spec fn sp_model_spec(
    sentences: Seq<String>,
    vocab_size: nat,
    target: u64,
    min: u64,
) -> (Seq<Seq<char>>, Seq<(Seq<char>, Seq<char>)>) {
    let ns = normalized(sentences);
    let init = sp_initial(ns, target, ns);
    sp_train(init, intern_all(seq![unk()], flat_tokens(init)), vocab_size, min)
}

/// The count a table holds for a char, zero when absent.
pub open spec fn ch_count(m: Map<char, u64>, c: char) -> nat {
    if m.contains_key(c) {
        m[c] as nat
    } else {
        0
    }
}

/// The views of a list of char vectors.
pub open spec fn char_rows(rows: Seq<Vec<char>>) -> Seq<Seq<char>> {
    rows.map_values(|r: Vec<char>| r@)
}

proof fn lemma_count_char_le(s: Seq<char>, c: char)
    ensures
        count_char(s, c) <= s.len(),
    decreases s.len(),
{
    if s.len() > 0 {
        lemma_count_char_le(s.drop_first(), c);
    }
}

proof fn lemma_corpus_char_count_le(ns: Seq<Seq<char>>, c: char)
    ensures
        corpus_char_count(ns, c) <= total_len(ns),
    decreases ns.len(),
{
    if ns.len() > 0 {
        lemma_corpus_char_count_le(ns.drop_last(), c);
        lemma_count_char_le(ns.last(), c);
    }
}

proof fn lemma_count_char_push(s: Seq<char>, x: char, c: char)
    ensures
        count_char(s.push(x), c) == count_char(s, c) + (if x == c { 1nat } else { 0nat }),
{
    lemma_count_char_add(s, seq![x], c);
    assert(s + seq![x] =~= s.push(x));
    assert(seq![x].drop_first() =~= Seq::<char>::empty());
    assert(count_char(Seq::<char>::empty(), c) == 0);
    assert(count_char(seq![x], c) == (if x == c { 1nat } else { 0nat }) + count_char(seq![x].drop_first(), c));
}

/// Counts every char of every row.
fn count_chars(rows: &Vec<Vec<char>>) -> (m: FxHashMap<char, u64>)
    requires
        total_len(char_rows(rows@)) <= u64::MAX,
    ensures
        forall|c: char| #[trigger] ch_count(char_table(m), c) == corpus_char_count(char_rows(rows@), c),
        forall|c: char| #[trigger] char_table(m).contains_key(c) ==> char_table(m)[c] > 0,
{
    let ghost ns = char_rows(rows@);
    let mut m = char_table_new();
    let n = rows.len();
    proof {
        assert(ns.take(0) =~= Seq::<Seq<char>>::empty());
    }
    for i in 0..n
        invariant
            n == rows@.len(),
            ns == char_rows(rows@),
            total_len(ns) <= u64::MAX,
            forall|c: char| #[trigger] ch_count(char_table(m), c) == corpus_char_count(ns.take(i as int), c),
            forall|c: char| #[trigger] char_table(m).contains_key(c) ==> char_table(m)[c] > 0,
    {
        let row = &rows[i];
        let len = row.len();
        let ghost done = ns.take(i as int);
        proof {
            assert(ns.take(i + 1).drop_last() =~= done);
            assert(ns.take(i + 1).last() == row@);
            crate::pairs::lemma_total_len_take_le(ns, i + 1);
            assert(row@.take(0) =~= Seq::<char>::empty());
        }
        for j in 0..len
            invariant
                len == row@.len(),
                ns == char_rows(rows@),
                i < n,
                n == rows@.len(),
                row@ == ns[i as int],
                done == ns.take(i as int),
                total_len(ns.take(i + 1)) <= u64::MAX,
                ns.take(i + 1).drop_last() == done,
                ns.take(i + 1).last() == row@,
                forall|c: char| #[trigger] char_table(m).contains_key(c) ==> char_table(m)[c] > 0,
                forall|c: char| #[trigger] ch_count(char_table(m), c) == corpus_char_count(done, c) + count_char(
                    row@.take(j as int),
                    c,
                ),
        {
            let x = row[j];
            let c = match char_table_get(&m, x) {
                Some(c) => c,
                None => 0,
            };
            let ghost mold = char_table(m);
            proof {
                assert(row@.take(j + 1) =~= row@.take(j as int).push(x));
                lemma_count_char_push(row@.take(j as int), x, x);
                assert(row@ =~= row@.take(j + 1) + row@.skip(j + 1));
                lemma_count_char_add(row@.take(j + 1), row@.skip(j + 1), x);
                lemma_corpus_char_count_le(ns.take(i + 1), x);
                assert(ch_count(mold, x) == c);
            }
            char_table_insert(&mut m, x, c + 1);
            proof {
                assert forall|cc: char| #[trigger] ch_count(char_table(m), cc) == corpus_char_count(done, cc)
                    + count_char(row@.take(j + 1), cc) by {
                    assert(ch_count(mold, cc) == corpus_char_count(done, cc) + count_char(row@.take(j as int), cc));
                    lemma_count_char_push(row@.take(j as int), x, cc);
                }
            }
        }
        proof {
            assert(row@.take(len as int) =~= row@);
        }
    }
    proof {
        assert(ns.take(n as int) =~= ns);
    }
    m
}

/// The chars of the corpus with their counts, most frequent first.
fn sorted_char_list(m: &FxHashMap<char, u64>, Ghost(ns): Ghost<Seq<Seq<char>>>) -> (l: Vec<(char, u64)>)
    requires
        forall|c: char| #[trigger] ch_count(char_table(*m), c) == corpus_char_count(ns, c),
        forall|c: char| #[trigger] char_table(*m).contains_key(c) ==> char_table(*m)[c] > 0,
    ensures
        l@ == char_list(ns),
{
    let mut v = char_table_entries(m);
    let ghost v0 = v@;
    proof {
        assert(v0.no_duplicates()) by {
            assert forall|i: int, j: int| 0 <= i < v0.len() && 0 <= j < v0.len() && i != j implies v0[i] != v0[j] by {
                if i < j {
                    assert(v0[i].0 != v0[j].0);
                } else {
                    assert(v0[j].0 != v0[i].0);
                }
            }
        }
        v0.lemma_multiset_has_no_duplicates();
    }
    sort_char_entries(&mut v);
    proof {
        let l = v@;
        broadcast use vstd::seq_lib::group_to_multiset_ensures;
        assert forall|x: (char, u64)| l.to_multiset().contains(x) implies l.to_multiset().count(x) == 1 by {
            assert(v0.to_multiset().contains(x));
        }
        l.lemma_multiset_has_no_duplicates_conv();
        assert forall|x: (char, u64)| #[trigger] l.contains(x) <==> v0.contains(x) by {
            assert(l.contains(x) <==> l.to_multiset().count(x) > 0);
            assert(v0.contains(x) <==> v0.to_multiset().count(x) > 0);
        }
        assert forall|i: int| 0 <= i < l.len() implies (#[trigger] l[i]).1 == corpus_char_count(ns, l[i].0) && l[i].1 > 0 by {
            assert(l.contains(l[i]));
            assert(v0.contains(l[i]));
            let k = choose|k: int| 0 <= k < v0.len() && v0[k] == l[i];
            assert(char_table(*m).contains_key(v0[k].0));
            assert(ch_count(char_table(*m), v0[k].0) == corpus_char_count(ns, v0[k].0));
        }
        assert forall|i: int, j: int| 0 <= i < j < l.len() implies entry_before(#[trigger] l[i], #[trigger] l[j]) by {
            assert(!entry_before(l[j], l[i]));
            assert(l[i] != l[j]);
            if l[i].1 == l[j].1 && l[i].0 == l[j].0 {
                assert(l[i] =~= l[j]);
            }
        }
        assert forall|c: char| #[trigger] corpus_char_count(ns, c) > 0 implies exists|i: int| 0 <= i < l.len() && l[i].0 == c by {
            assert(ch_count(char_table(*m), c) > 0);
            assert(char_table(*m).contains_key(c));
            let k = choose|k: int| 0 <= k < v0.len() && v0[k].0 == c;
            assert(v0.contains(v0[k]));
            assert(l.contains(v0[k]));
        }
        assert(is_char_list(l, ns));
        lemma_char_list_unique(l, ns);
    }
    v
}

/// A list of the corpus's chars in the right order is the one [`char_list`] names.
proof fn lemma_char_list_unique(l: Seq<(char, u64)>, ns: Seq<Seq<char>>)
    requires
        is_char_list(l, ns),
    ensures
        char_list(ns) == l,
{
    let lc = char_list(ns);
    assert(is_char_list(lc, ns));
    assert forall|x: (char, u64)| l.contains(x) <==> lc.contains(x) by {
        if l.contains(x) {
            let i = choose|i: int| 0 <= i < l.len() && l[i] == x;
            assert(corpus_char_count(ns, x.0) > 0);
            let k = choose|k: int| 0 <= k < lc.len() && lc[k].0 == x.0;
            assert(lc[k] == x);
        }
        if lc.contains(x) {
            let i = choose|i: int| 0 <= i < lc.len() && lc[i] == x;
            assert(corpus_char_count(ns, x.0) > 0);
            let k = choose|k: int| 0 <= k < l.len() && l[k].0 == x.0;
            assert(l[k] == x);
        }
    }
    let before = |x: (char, u64), y: (char, u64)| entry_before(x, y);
    assert forall|i: int, j: int| 0 <= i < j < l.len() implies before(#[trigger] l[i], #[trigger] l[j]) by {}
    assert forall|i: int, j: int| 0 <= i < j < lc.len() implies before(#[trigger] lc[i], #[trigger] lc[j]) by {}
    lemma_sorted_unique(l, lc, before);
}

/// Occurrences covered by the entries of `l`: the sum of their counts.
pub open spec fn count_sum(l: Seq<(char, u64)>) -> nat
    decreases l.len(),
{
    if l.len() == 0 {
        0
    } else {
        count_sum(l.drop_last()) + l.last().1 as nat
    }
}

proof fn lemma_count_sum_monotone(l: Seq<(char, u64)>, i: int, j: int)
    requires
        0 <= i <= j <= l.len(),
    ensures
        count_sum(l.take(i)) <= count_sum(l.take(j)),
    decreases j - i,
{
    if i < j {
        lemma_count_sum_monotone(l, i, j - 1);
        assert(l.take(j).drop_last() =~= l.take(j - 1));
    }
}

/// From entry `k` on, entries are taken while the occurrences covered stay
/// below the target.
proof fn lemma_included_count_from(l: Seq<(char, u64)>, target: u64, k: nat, covered: nat)
    requires
        k <= l.len(),
        covered == count_sum(l.take(k as int)),
    ensures
        k <= included_count(l, target, k, covered) <= l.len(),
        forall|j: int|
            k <= j < included_count(l, target, k, covered) ==> #[trigger] count_sum(l.take(j)) < target,
        included_count(l, target, k, covered) < l.len() ==> count_sum(
            l.take(included_count(l, target, k, covered) as int),
        ) >= target,
    decreases l.len() - k,
{
    if k < l.len() && covered < target {
        assert(l.take(k as int + 1).drop_last() =~= l.take(k as int));
        lemma_included_count_from(l, target, k + 1, covered + l[k as int].1 as nat);
    }
}

/// The chars the coverage step keeps are exactly the shortest prefix of the
/// char list whose counts reach the target, or the
/// whole list: the char at position `k` is covered if and only if the chars
/// before it cover fewer occurrences than the target.  So with a positive
/// target the most frequent char is always covered, and only chars of the
/// corpus are covered.  Here `l` lists every char of the corpus once with its
/// count, most frequent first, ties going to the smaller char.
pub proof fn law_coverage_is_shortest_prefix(ns: Seq<Seq<char>>, target: u64, l: Seq<(char, u64)>)
    requires
        forall|i: int, j: int|
            0 <= i < j < l.len() ==> (#[trigger] l[i]).1 > (#[trigger] l[j]).1 || (l[i].1 == l[j].1 && l[i].0 < l[j].0),
        forall|i: int| 0 <= i < l.len() ==> (#[trigger] l[i]).1 == corpus_char_count(ns, l[i].0) && l[i].1 > 0,
        forall|c: char| #[trigger] corpus_char_count(ns, c) > 0 ==> exists|i: int| 0 <= i < l.len() && l[i].0 == c,
    ensures
        forall|k: int|
            0 <= k < l.len() ==> (sp_included(ns, target, #[trigger] l[k].0) <==> count_sum(l.take(k)) < target),
        target > 0 && l.len() > 0 ==> sp_included(ns, target, l[0].0),
        forall|c: char| #[trigger] sp_included(ns, target, c) ==> corpus_char_count(ns, c) > 0,
{
    assert(is_char_list(l, ns));
    lemma_char_list_unique(l, ns);
    assert(l.take(0) =~= Seq::<(char, u64)>::empty());
    lemma_included_count_from(l, target, 0, 0);
    let n = included_count(l, target, 0, 0);
    assert forall|k: int| 0 <= k < l.len() implies (sp_included(ns, target, #[trigger] l[k].0) <==> count_sum(
        l.take(k),
    ) < target) by {
        if k < n {
            assert(l[k].0 == l[k].0);
        } else {
            lemma_count_sum_monotone(l, n as int, k);
            if sp_included(ns, target, l[k].0) {
                let i = choose|i: int| 0 <= i < n && l[i].0 == l[k].0;
                assert(entry_before(l[i], l[k]));
                assert(l[i].1 == corpus_char_count(ns, l[i].0));
                assert(l[k].1 == corpus_char_count(ns, l[k].0));
            }
        }
    }
    if target > 0 && l.len() > 0 {
        assert(count_sum(l.take(0)) == 0);
        assert(sp_included(ns, target, l[0].0));
    }
    assert forall|c: char| #[trigger] sp_included(ns, target, c) implies corpus_char_count(ns, c) > 0 by {
        let i = choose|i: int| 0 <= i < n && l[i].0 == c;
        assert(l[i].1 == corpus_char_count(ns, l[i].0));
    }
}

/// The `<unk>` token.
fn unk_string() -> (s: String)
    ensures
        s@ == unk(),
{
    let mut s = String::new();
    push_char(&mut s, '<');
    push_char(&mut s, 'u');
    push_char(&mut s, 'n');
    push_char(&mut s, 'k');
    push_char(&mut s, '>');
    proof {
        assert(s@ =~= unk());
    }
    s
}

/// The normalized sentences as rows of chars.
pub(crate) fn normalized_rows(sentences: &[String]) -> (rows: Vec<Vec<char>>)
    ensures
        char_rows(rows@) == normalized(sentences@),
{
    let mut rows: Vec<Vec<char>> = Vec::new();
    let n = sentences.len();
    for i in 0..n
        invariant
            n == sentences@.len(),
            char_rows(rows@) == normalized(sentences@).take(i as int),
    {
        let norm = normalize_sentence(sentences[i].as_str());
        let ghost old_rows = rows@;
        let cs = chars_of(norm.as_str());
        rows.push(cs);
        proof {
            assert(rows@ == old_rows.push(cs));
            assert(char_rows(rows@) =~= char_rows(old_rows).push(cs@));
            assert(normalized(sentences@).take(i + 1) =~= normalized(sentences@).take(i as int).push(
                spec_normalize(sentences@[i as int]@),
            ));
        }
    }
    proof {
        assert(normalized(sentences@).take(n as int) =~= normalized(sentences@));
    }
    rows
}

/// Number of char occurrences over the normalized sentences, or `None`
/// when it exceeds `u64::MAX`.
pub fn normalized_char_total(sentences: &[String]) -> (t: Option<u64>)
    ensures
        match t {
            Some(v) => v == total_len(normalized(sentences@)),
            None => total_len(normalized(sentences@)) > u64::MAX,
        },
{
    let rows = normalized_rows(sentences);
    crate::text::rows_total(&rows)
}

/// A vocabulary of `<unk>` and distinct single chars fits in 32-bit ids.
proof fn lemma_sp_vocab_bound(toks: Seq<Seq<char>>)
    requires
        toks.no_duplicates(),
        toks.len() >= 1,
        forall|q: int| 1 <= q < toks.len() ==> unit_shaped(#[trigger] toks[q]),
    ensures
        toks.len() <= 0x220001,
{
    let t = toks.skip(1);
    assert forall|i: int, j: int| 0 <= i < t.len() && 0 <= j < t.len() && i != j implies t[i] != t[j] by {
        assert(t[i] == toks[i + 1] && t[j] == toks[j + 1]);
    }
    assert forall|i: int| 0 <= i < t.len() implies unit_shaped(#[trigger] t[i]) by {
        assert(t[i] == toks[i + 1]);
    }
    lemma_unit_tokens_bound(t);
}

/// Trains SentencePiece-BPE: sentences are normalized, chars are covered
/// most frequent first up to the coverage target (the others become
/// `<unk>`, id 0), then BPE merges run over whole sentences until the
/// vocabulary reaches `vocab_size` or no pair is a candidate.
pub fn train_sp_bpe(sentences: &[String], cfg: &TrainConfig) -> (model: SentencePieceModel)
    requires
        total_len(normalized(sentences@)) <= u64::MAX,
        cfg.vocab_size <= u32::MAX || total_len(normalized(sentences@)) + 0x220001 < u32::MAX,
    ensures
        views(model.vocab@) == sp_model_spec(sentences@, cfg.vocab_size as nat, cfg.coverage_target, cfg.min_pair_count).0,
        rule_views(model.merge_rules@) == sp_model_spec(
            sentences@,
            cfg.vocab_size as nat,
            cfg.coverage_target,
            cfg.min_pair_count,
        ).1,
        index_map_of(views(model.vocab@), token_ids(model.vocab_set)),
        token_ids(model.vocab_set).dom() == views(model.vocab@).to_set(),
{
    let rows = normalized_rows(sentences);
    let ghost ns = char_rows(rows@);
    let ghost target = cfg.coverage_target;
    let ghost total0 = total_len(ns);
    let freqs = count_chars(&rows);
    let list = sorted_char_list(&freqs, Ghost(ns));

    // Coverage: take chars most frequent first until the target is covered.
    let mut included = char_table_new();
    let mut covered: u128 = 0;
    let mut k: usize = 0;
    let nl = list.len();
    while k < nl && covered < cfg.coverage_target as u128
        invariant
            list@ == char_list(ns),
            nl == list@.len(),
            k <= nl,
            covered < 0x2_0000_0000_0000_0000u128,
            included_count(list@, target, 0, 0) == included_count(list@, target, k as nat, covered as nat),
            target == cfg.coverage_target,
            forall|c: char| #[trigger] char_table(included).contains_key(c) <==> exists|i: int|
                0 <= i < k && list@[i].0 == c,
        decreases nl - k,
    {
        let (c, f) = list[k];
        char_table_insert(&mut included, c, f);
        covered = covered + f as u128;
        proof {
            assert forall|cc: char| #[trigger] char_table(included).contains_key(cc) <==> exists|i: int|
                0 <= i < k + 1 && list@[i].0 == cc by {
                if cc == c {
                    assert(list@[k as int].0 == cc);
                }
            }
        }
        k += 1;
    }
    proof {
        assert(included_count(list@, target, k as nat, covered as nat) == k);
        assert forall|c: char| #[trigger] char_table(included).contains_key(c) == sp_included(ns, target, c) by {}
    }

    // Initial vocabulary and words.
    let mut vocab = Vocab::new();
    vocab.intern(unk_string());
    let mut words: Vec<Vec<u32>> = Vec::new();
    let n = rows.len();
    proof {
        assert(vocab.toks() =~= seq![unk()]);
        assert(ns.take(0) =~= Seq::<Seq<char>>::empty());
        assert(flat_tokens(sp_initial(ns, target, ns.take(0))) =~= Seq::<Seq<char>>::empty());
        assert(intern_all(seq![unk()], Seq::<Seq<char>>::empty()) == seq![unk()]);
        assert(id_corpus(word_seqs(words@), vocab.toks()) =~= Seq::<Seq<Seq<char>>>::empty());
        assert(word_seqs(words@) =~= Seq::<Seq<u32>>::empty());
    }
    for i in 0..n
        invariant
            n == rows@.len(),
            ns == char_rows(rows@),
            total0 == total_len(ns),
            total0 <= u64::MAX,
            target == cfg.coverage_target,
            forall|c: char| #[trigger] char_table(included).contains_key(c) == sp_included(ns, target, c),
            vocab.wf(),
            vocab.toks().len() >= 1,
            vocab.toks()[0] == unk(),
            vocab.toks() == intern_all(seq![unk()], flat_tokens(sp_initial(ns, target, ns.take(i as int)))),
            ids_below(word_seqs(words@), vocab.toks().len()),
            id_corpus(word_seqs(words@), vocab.toks()) == sp_initial(ns, target, ns.take(i as int)),
            forall|q: int| 1 <= q < vocab.toks().len() ==> unit_shaped(#[trigger] vocab.toks()[q]),
            total_len(word_seqs(words@)) <= total_len(ns.take(i as int)),
    {
        let row = &rows[i];
        let ghost prefix = ns.take(i as int);
        let ghost next = ns.take(i + 1);
        proof {
            assert(next.drop_last() =~= prefix);
            assert(next.last() == row@);
            crate::pairs::lemma_total_len_take_le(ns, i + 1);
        }
        let nc = row.len();
        if nc > 0 {
            let ghost toks0 = vocab.toks();
            let ghost ws0 = word_seqs(words@);
            let ghost units = sp_units(ns, target, row@);
            let ghost flat0 = flat_tokens(sp_initial(ns, target, prefix));
            let mut ids: Vec<u32> = Vec::new();
            proof {
                assert(units.take(0) =~= Seq::<Seq<char>>::empty());
                assert(flat0 + units.take(0) =~= flat0);
                assert(id_word(ids@, toks0) =~= units.take(0));
            }
            for j in 0..nc
                invariant
                    nc == row@.len(),
                    row@ == ns[i as int],
                    i < n,
                    ns.len() == n,
                    units == sp_units(ns, target, row@),
                    total_len(next) == total_len(prefix) + nc,
                    total_len(next) <= total0,
                    total0 <= u64::MAX,
                    forall|c: char| #[trigger] char_table(included).contains_key(c) == sp_included(ns, target, c),
                    vocab.wf(),
                    vocab.toks().len() >= toks0.len(),
                    toks0.len() >= 1,
                    vocab.toks().take(toks0.len() as int) == toks0,
                    vocab.toks()[0] == unk(),
                    vocab.toks() == intern_all(seq![unk()], flat0 + units.take(j as int)),
                    forall|q: int| 1 <= q < vocab.toks().len() ==> unit_shaped(#[trigger] vocab.toks()[q]),
                    ids@.len() == j,
                    forall|kk: int| 0 <= kk < j ==> #[trigger] ids@[kk] < vocab.toks().len(),
                    id_word(ids@, vocab.toks()) == units.take(j as int),
            {
                let c = row[j];
                let ghost before = vocab.toks();
                let ghost old_ids = ids@;
                proof {
                    assert((flat0 + units.take(j + 1)).drop_last() =~= flat0 + units.take(j as int));
                    assert((flat0 + units.take(j + 1)).last() == units[j as int]);
                    assert(units[j as int] == sp_unit(ns, target, c));
                    lemma_sp_vocab_bound(before);
                }
                let id = if char_table_get(&included, c).is_some() {
                    vocab.intern(char_string(c))
                } else {
                    proof {
                        assert(before.contains(unk()));
                    }
                    0
                };
                ids.push(id);
                proof {
                    let after = vocab.toks();
                    assert(after.take(before.len() as int) =~= before);
                    assert(after.take(toks0.len() as int) =~= toks0);
                    assert(after[0] == unk());
                    assert forall|kk: int| 0 <= kk < j implies #[trigger] after[old_ids[kk] as int] == before[old_ids[kk] as int] by {
                        assert(after.take(before.len() as int)[old_ids[kk] as int] == after[old_ids[kk] as int]);
                    }
                    assert(id_word(old_ids, after) =~= id_word(old_ids, before));
                    assert(ids@ == old_ids.push(id));
                    assert(id_word(ids@, after) =~= id_word(old_ids, after).push(after[id as int]));
                    assert(units.take(j + 1) =~= units.take(j as int).push(units[j as int]));
                }
            }
            proof {
                lemma_id_corpus_extend(ws0, toks0, vocab.toks());
                assert(units.take(nc as int) =~= units);
            }
            words.push(ids);
            proof {
                let ws = word_seqs(words@);
                assert(ws.drop_last() =~= ws0);
                assert(ws.last() == ids@);
                assert(sp_initial(ns, target, next) == sp_initial(ns, target, prefix).push(units));
                let si = sp_initial(ns, target, prefix).push(units);
                assert(si.drop_last() =~= sp_initial(ns, target, prefix));
                assert(flat_tokens(si) == flat0 + units);
                assert(id_corpus(ws, vocab.toks()) =~= id_corpus(ws.drop_last(), vocab.toks()).push(
                    id_word(ws.last(), vocab.toks()),
                ));
                assert(total_len(ws) == total_len(ws.drop_last()) + nc);
                assert forall|a: int, b: int| 0 <= a < ws.len() && 0 <= b < ws[a].len()
                    implies #[trigger] ws[a][b] < vocab.toks().len() by {
                    if a < ws.len() - 1 {
                        assert(ws[a] == ws0[a]);
                        assert(ws0[a][b] < toks0.len());
                    } else {
                        assert(ws[a] == ids@);
                        assert(ids@[b] < vocab.toks().len());
                    }
                }
            }
        } else {
            proof {
                assert(total_len(next) == total_len(prefix));
            }
        }
    }
    proof {
        assert(ns.take(n as int) =~= ns);
        lemma_id_corpus_total(word_seqs(words@), vocab.toks());
        lemma_sp_vocab_bound(vocab.toks());
    }

    // Merges.
    let ghost init = sp_initial(ns, target, ns);
    let ghost fin = sp_train(init, vocab.toks(), cfg.vocab_size as nat, cfg.min_pair_count);
    let mut rules: Vec<MergeRule> = Vec::new();
    let mut done = false;
    proof {
        assert(rule_views(rules@) + fin.1 =~= fin.1);
    }
    while !done && vocab.strs.len() < cfg.vocab_size
        invariant
            total0 == total_len(ns),
            total0 <= u64::MAX,
            cfg.vocab_size <= u32::MAX || total0 + 0x220001 < u32::MAX,
            vocab.toks().len() + total_len(word_seqs(words@)) <= total0 + 0x220001,
            vocab.wf(),
            ids_below(word_seqs(words@), vocab.toks().len()),
            total_len(word_seqs(words@)) <= total0,
            fin == sp_train(init, intern_all(seq![unk()], flat_tokens(init)), cfg.vocab_size as nat, cfg.min_pair_count),
            done ==> sp_train(id_corpus(word_seqs(words@), vocab.toks()), vocab.toks(), cfg.vocab_size as nat, cfg.min_pair_count)
                == (vocab.toks(), Seq::<(Seq<char>, Seq<char>)>::empty()),
            sp_train(id_corpus(word_seqs(words@), vocab.toks()), vocab.toks(), cfg.vocab_size as nat, cfg.min_pair_count).0
                == fin.0,
            rule_views(rules@) + sp_train(
                id_corpus(word_seqs(words@), vocab.toks()),
                vocab.toks(),
                cfg.vocab_size as nat,
                cfg.min_pair_count,
            ).1 == fin.1,
        decreases total_len(word_seqs(words@)) + (if done { 0int } else { 1int }),
    {
        let ghost ws = word_seqs(words@);
        let ghost toks = vocab.toks();
        let stats = PairStats::from_words(&words);
        match best_pair_by_freq(&stats, &vocab, cfg.min_pair_count, Ghost(ws)) {
            None => {
                done = true;
            },
            Some((l, r)) => {
                let ghost cur = id_corpus(ws, toks);
                proof {
                    lemma_best_pair_occurs(cur, cfg.min_pair_count);
                    lemma_corpus_pairs_ids(ws, toks, l, r);
                    lemma_merge_all_total(ws, l, r, 0u32);
                    crate::pairs::lemma_corpus_pairs_le_total(ws, l, r);
                }
                let left = vocab.strs[l as usize].clone();
                let right = vocab.strs[r as usize].clone();
                let mut merged = left.clone();
                merged.append(right.as_str());
                let merged_id = vocab.intern(merged);
                apply_merge(&mut words, l, r, merged_id);
                proof {
                    let toks2 = vocab.toks();
                    assert(toks2.take(toks.len() as int) =~= toks);
                    assert(toks2[l as int] == toks[l as int]);
                    assert(toks2[r as int] == toks[r as int]);
                    lemma_id_corpus_extend(ws, toks, toks2);
                    lemma_merge_all_ids(ws, toks2, l, r, merged_id);
                    lemma_merge_all_total(ws, l, r, merged_id);
                    let (a, b) = (toks[l as int], toks[r as int]);
                    assert(toks2 == intern_spec(toks, a + b));
                }
                rules.push((left, right));
                proof {
                    assert(rule_views(rules@) =~= rule_views(rules@.drop_last()).push((toks[l as int], toks[r as int])));
                    let rest = sp_train(
                        id_corpus(word_seqs(words@), vocab.toks()),
                        vocab.toks(),
                        cfg.vocab_size as nat,
                        cfg.min_pair_count,
                    ).1;
                    assert(rule_views(rules@) + rest =~= rule_views(rules@.drop_last()) + (seq![(toks[l as int], toks[r as int])] + rest));
                }
            },
        }
    }
    proof {
        assert(rule_views(rules@) + Seq::<(Seq<char>, Seq<char>)>::empty() =~= rule_views(rules@));
    }
    let model = SentencePieceModel { vocab: vocab.strs, vocab_set: vocab.by_str, merge_rules: rules };
    proof {
        let d = token_ids(model.vocab_set).dom();
        assert forall|x: Seq<char>| d.contains(x) <==> views(model.vocab@).to_set().contains(x) by {
            assert(token_ids(model.vocab_set).contains_key(x) <==> views(model.vocab@).contains(x));
        }
        assert(d =~= views(model.vocab@).to_set());
    }
    model
}

/// The initial token of a char at inference: itself if it is a vocabulary token, else `<unk>`.
pub open spec fn known_unit(vocab: Set<Seq<char>>, c: char) -> Seq<char> {
    if vocab.contains(seq![c]) {
        seq![c]
    } else {
        unk()
    }
}

/// SentencePiece-BPE inference: normalize, map chars to known units, apply the rules.
pub open spec fn sp_tokenize(
    s: Seq<char>,
    vocab: Set<Seq<char>>,
    rules: Seq<(Seq<char>, Seq<char>)>,
) -> Seq<Seq<char>> {
    apply_rules(spec_normalize(s).map_values(|c: char| known_unit(vocab, c)), rules)
}

/// Tokenizes a sentence: it is normalized, each char not in the vocabulary
/// becomes `<unk>`, then the rules are applied in order.
pub fn tokenize_sentence(sentence: &str, model: &SentencePieceModel) -> (toks: Vec<String>)
    ensures
        views(toks@) == sp_tokenize(sentence@, token_ids(model.vocab_set).dom(), rule_views(model.merge_rules@)),
{
    let ghost vocab = token_ids(model.vocab_set).dom();
    let normalized = normalize_sentence(sentence);
    let cs = chars_of(normalized.as_str());
    let ghost units = cs@.map_values(|c: char| known_unit(vocab, c));
    if cs.len() == 0 {
        proof {
            assert(units =~= Seq::<Seq<char>>::empty());
            lemma_apply_rules_empty(rule_views(model.merge_rules@));
        }
        return Vec::new();
    }
    let mut seq: Vec<String> = Vec::new();
    for i in 0..cs.len()
        invariant
            vocab == token_ids(model.vocab_set).dom(),
            units == cs@.map_values(|c: char| known_unit(vocab, c)),
            views(seq@) == units.take(i as int),
    {
        let s = char_string(cs[i]);
        let t = if token_ids_get(&model.vocab_set, s.as_str()).is_some() {
            s
        } else {
            unk_string()
        };
        proof {
            assert(t@ == known_unit(vocab, cs@[i as int]));
            assert(units[i as int] == known_unit(vocab, cs@[i as int]));
        }
        let ghost old_seq = seq@;
        seq.push(t);
        proof {
            assert(views(seq@) =~= views(old_seq).push(t@));
            assert(units.take(i + 1) =~= units.take(i as int).push(units[i as int]));
        }
    }
    proof {
        assert(units.take(cs@.len() as int) =~= units);
    }
    apply_rules_in_place(&mut seq, &model.merge_rules);
    seq
}

/// No rule gives tokens to an empty sequence.
pub proof fn lemma_apply_rules_empty(rules: Seq<(Seq<char>, Seq<char>)>)
    ensures
        apply_rules(Seq::<Seq<char>>::empty(), rules) == Seq::<Seq<char>>::empty(),
    decreases rules.len(),
{
    if rules.len() > 0 {
        lemma_apply_rules_empty(rules.drop_last());
    }
}

/// The tokens of each non-empty sentence (empty strings are skipped).
pub open spec fn sp_token_seqs(
    ss: Seq<Seq<char>>,
    vocab: Set<Seq<char>>,
    rules: Seq<(Seq<char>, Seq<char>)>,
) -> Seq<Seq<Seq<char>>>
    decreases ss.len(),
{
    if ss.len() == 0 {
        seq![]
    } else if ss.last().len() == 0 {
        sp_token_seqs(ss.drop_last(), vocab, rules)
    } else {
        sp_token_seqs(ss.drop_last(), vocab, rules).push(sp_tokenize(ss.last(), vocab, rules))
    }
}

/// How often each token occurs when every non-empty sentence is tokenized.
pub fn token_frequencies(sentences: &[String], model: &SentencePieceModel) -> (m: FxHashMap<String, u64>)
    requires
        total_len(normalized(sentences@)) <= u64::MAX,
    ensures
        freq_exact(
            token_counts(m),
            sp_token_seqs(views(sentences@), token_ids(model.vocab_set).dom(), rule_views(model.merge_rules@)),
        ),
{
    let ghost ss = views(sentences@);
    let ghost vocab = token_ids(model.vocab_set).dom();
    let ghost rv = rule_views(model.merge_rules@);
    let mut m = new_freq();
    let n = sentences.len();
    proof {
        assert(ss.take(0) =~= Seq::<Seq<char>>::empty());
        assert(normalized(sentences@).take(0) =~= Seq::<Seq<char>>::empty());
    }
    for i in 0..n
        invariant
            n == sentences@.len(),
            ss == views(sentences@),
            vocab == token_ids(model.vocab_set).dom(),
            rv == rule_views(model.merge_rules@),
            total_len(normalized(sentences@)) <= u64::MAX,
            freq_exact(token_counts(m), sp_token_seqs(ss.take(i as int), vocab, rv)),
            total_len(sp_token_seqs(ss.take(i as int), vocab, rv)) <= total_len(normalized(sentences@).take(i as int)),
    {
        let ghost next = ss.take(i + 1);
        let ghost nn = normalized(sentences@);
        proof {
            assert(next.drop_last() =~= ss.take(i as int));
            assert(next.last() == sentences@[i as int]@);
            assert(nn.take(i + 1).drop_last() =~= nn.take(i as int));
            assert(nn.take(i + 1).last() == spec_normalize(sentences@[i as int]@));
            crate::pairs::lemma_total_len_take_le(nn, i + 1);
        }
        let cs = chars_of(sentences[i].as_str());
        if cs.len() > 0 {
            let toks = tokenize_sentence(sentences[i].as_str(), model);
            proof {
                let t = sp_tokenize(next.last(), vocab, rv);
                lemma_sp_tokenize_len(next.last(), vocab, rv);
                assert(sp_token_seqs(next, vocab, rv) =~= sp_token_seqs(ss.take(i as int), vocab, rv).push(views(toks@)));
                assert(sp_token_seqs(next, vocab, rv).drop_last() =~= sp_token_seqs(ss.take(i as int), vocab, rv));
            }
            add_tokens(&mut m, &toks, Ghost(sp_token_seqs(ss.take(i as int), vocab, rv)));
        } else {
            proof {
                assert(sp_token_seqs(next, vocab, rv) =~= sp_token_seqs(ss.take(i as int), vocab, rv));
            }
        }
    }
    proof {
        assert(ss.take(n as int) =~= ss);
    }
    m
}

proof fn lemma_sp_tokenize_len(s: Seq<char>, vocab: Set<Seq<char>>, rules: Seq<(Seq<char>, Seq<char>)>)
    ensures
        sp_tokenize(s, vocab, rules).len() <= spec_normalize(s).len(),
{
    crate::bpe::trainer::lemma_apply_rules_len(spec_normalize(s).map_values(|c: char| known_unit(vocab, c)), rules);
}

/// The tokens of a sentence spell its normalized form, each char that is
/// not in the vocabulary spelled as `<unk>`.
pub proof fn law_tokens_spell_the_normalized_sentence(
    s: Seq<char>,
    vocab: Set<Seq<char>>,
    rules: Seq<(Seq<char>, Seq<char>)>,
)
    ensures
        sp_tokenize(s, vocab, rules).flatten() == spec_normalize(s).map_values(|c: char| known_unit(vocab, c)).flatten(),
{
    lemma_apply_rules_flatten(spec_normalize(s).map_values(|c: char| known_unit(vocab, c)), rules);
}

/// Merging keeps the first char of the first token.
proof fn lemma_merge_first_char(w: Seq<Seq<char>>, a: Seq<char>, b: Seq<char>)
    requires
        w.len() > 0,
        w[0].len() > 0,
    ensures
        merge_seq(w, a, b, a + b).len() > 0,
        merge_seq(w, a, b, a + b)[0].len() > 0,
        merge_seq(w, a, b, a + b)[0][0] == w[0][0],
{
    if w.len() >= 2 && w[0] == a && w[1] == b {
        assert((a + b)[0] == a[0]);
    }
}

proof fn lemma_apply_rules_first_char(w: Seq<Seq<char>>, rules: Seq<(Seq<char>, Seq<char>)>)
    requires
        w.len() > 0,
        w[0].len() > 0,
    ensures
        apply_rules(w, rules).len() > 0,
        apply_rules(w, rules)[0].len() > 0,
        apply_rules(w, rules)[0][0] == w[0][0],
    decreases rules.len(),
{
    if rules.len() > 0 {
        lemma_apply_rules_first_char(w, rules.drop_last());
        let r = rules.last();
        lemma_merge_first_char(apply_rules(w, rules.drop_last()), r.0, r.1);
    }
}

/// When the marker is a vocabulary token, the first token of every sentence
/// that has a word starts with the marker.
pub proof fn law_first_token_starts_with_marker(
    s: Seq<char>,
    vocab: Set<Seq<char>>,
    rules: Seq<(Seq<char>, Seq<char>)>,
)
    requires
        spec_normalize(s).len() > 0,
        vocab.contains(seq![crate::sentencepiece_bpe::pretokenize::marker()]),
    ensures
        sp_tokenize(s, vocab, rules).len() > 0,
        sp_tokenize(s, vocab, rules)[0].len() > 0,
        sp_tokenize(s, vocab, rules)[0][0] == crate::sentencepiece_bpe::pretokenize::marker(),
{
    crate::sentencepiece_bpe::pretokenize::law_normalized_starts_with_marker(s);
    let units = spec_normalize(s).map_values(|c: char| known_unit(vocab, c));
    assert(units[0] == seq![crate::sentencepiece_bpe::pretokenize::marker()]);
    lemma_apply_rules_first_char(units, rules);
}

/// Training keeps the starting vocabulary as the first ids and stops growing
/// at the target size: the result has at most `max(|vocab|, vocab_size)` tokens.
proof fn lemma_sp_train_vocab(ws: Seq<Seq<Seq<char>>>, vocab: Seq<Seq<char>>, vocab_size: nat, min: u64)
    ensures
        sp_train(ws, vocab, vocab_size, min).0.len() >= vocab.len(),
        sp_train(ws, vocab, vocab_size, min).0.take(vocab.len() as int) == vocab,
        sp_train(ws, vocab, vocab_size, min).0.len() <= (if vocab.len() > vocab_size { vocab.len() } else { vocab_size }),
    decreases total_len(ws),
{
    if vocab.len() >= vocab_size {
        assert(vocab.take(vocab.len() as int) =~= vocab);
    } else {
        match best_pair(ws, min) {
            None => {
                assert(vocab.take(vocab.len() as int) =~= vocab);
            },
            Some((a, b)) => {
                lemma_best_pair_occurs(ws, min);
                lemma_merge_all_total(ws, a, b, a + b);
                let v2 = intern_spec(vocab, a + b);
                crate::vocab::law_interning_keeps_ids(vocab, a + b);
                lemma_sp_train_vocab(merge_all(ws, a, b, a + b), v2, vocab_size, min);
                let r = sp_train(merge_all(ws, a, b, a + b), v2, vocab_size, min).0;
                assert(r.take(vocab.len() as int) =~= r.take(v2.len() as int).take(vocab.len() as int));
            },
        }
    }
}

proof fn lemma_intern_all_prefix(toks: Seq<Seq<char>>, ss: Seq<Seq<char>>)
    ensures
        intern_all(toks, ss).len() >= toks.len(),
        intern_all(toks, ss).take(toks.len() as int) == toks,
    decreases ss.len(),
{
    if ss.len() == 0 {
        assert(toks.take(toks.len() as int) =~= toks);
    } else {
        lemma_intern_all_prefix(toks, ss.drop_last());
        let p = intern_all(toks, ss.drop_last());
        crate::vocab::law_interning_keeps_ids(p, ss.last());
        let q = intern_spec(p, ss.last());
        assert(q.take(toks.len() as int) =~= q.take(p.len() as int).take(toks.len() as int));
    }
}

/// `<unk>` always has id 0, and training stops growing the vocabulary at
/// `vocab_size` tokens (more only when the initial chars alone exceed it).
pub proof fn law_unk_first_and_vocab_bounded(sentences: Seq<String>, vocab_size: nat, target: u64, min: u64)
    ensures
        sp_model_spec(sentences, vocab_size, target, min).0.len() > 0,
        sp_model_spec(sentences, vocab_size, target, min).0[0] == unk(),
        sp_model_spec(sentences, vocab_size, target, min).0.len() <= vocab_size || sp_model_spec(
            sentences,
            vocab_size,
            target,
            min,
        ).0 == intern_all(seq![unk()], flat_tokens(sp_initial(normalized(sentences), target, normalized(sentences)))),
{
    let ns = normalized(sentences);
    let init = sp_initial(ns, target, ns);
    let v0 = intern_all(seq![unk()], flat_tokens(init));
    lemma_intern_all_prefix(seq![unk()], flat_tokens(init));
    lemma_sp_train_vocab(init, v0, vocab_size, min);
    let r = sp_train(init, v0, vocab_size, min).0;
    assert(r.take(v0.len() as int)[0] == r[0]);
    assert(v0.take(1)[0] == v0[0]);
    if v0.len() >= vocab_size {
        assert(r == v0);
    }
}

/// Every token of every sequence is one of `vocab`.
pub open spec fn tokens_in(ws: Seq<Seq<Seq<char>>>, vocab: Set<Seq<char>>) -> bool {
    forall|i: int, k: int| 0 <= i < ws.len() && 0 <= k < ws[i].len() ==> vocab.contains(#[trigger] ws[i][k])
}

/// Both tokens of a pair that occurs are tokens of the corpus.
proof fn lemma_pair_tokens_in(ws: Seq<Seq<Seq<char>>>, vocab: Set<Seq<char>>, a: Seq<char>, b: Seq<char>)
    requires
        tokens_in(ws, vocab),
        crate::pairs::corpus_pairs(ws, a, b) > 0,
    ensures
        vocab.contains(a),
        vocab.contains(b),
    decreases ws.len(),
{
    let w = ws.last();
    let id = |x: Seq<char>| x;
    if crate::merging::occ_pairs(w, a, b) > 0 {
        assert(w.map_values(id) =~= w);
        crate::pairs::lemma_occ_map_source(w, a, b, id);
        let k = choose|k: int| 0 <= k && k + 1 < w.len() && id(#[trigger] w[k]) == a && id(w[k + 1]) == b;
        assert(vocab.contains(ws[ws.len() - 1][k]));
        assert(vocab.contains(ws[ws.len() - 1][k + 1]));
    } else {
        assert forall|i: int, k: int| 0 <= i < ws.drop_last().len() && 0 <= k < ws.drop_last()[i].len()
            implies vocab.contains(#[trigger] ws.drop_last()[i][k]) by {
            assert(ws.drop_last()[i] == ws[i]);
        }
        lemma_pair_tokens_in(ws.drop_last(), vocab, a, b);
    }
}

/// Merging into a vocabulary token keeps every token a vocabulary token.
proof fn lemma_merge_tokens_in(w: Seq<Seq<char>>, a: Seq<char>, b: Seq<char>, vocab: Set<Seq<char>>)
    requires
        forall|k: int| 0 <= k < w.len() ==> vocab.contains(#[trigger] w[k]),
        vocab.contains(a + b),
    ensures
        forall|k: int| 0 <= k < merge_seq(w, a, b, a + b).len() ==> vocab.contains(#[trigger] merge_seq(w, a, b, a + b)[k]),
    decreases w.len(),
{
    let m = merge_seq(w, a, b, a + b);
    if w.len() >= 2 {
        let (head, rest) = if w[0] == a && w[1] == b { (a + b, w.skip(2)) } else { (w[0], w.skip(1)) };
        assert forall|k: int| 0 <= k < rest.len() implies vocab.contains(#[trigger] rest[k]) by {
            if w[0] == a && w[1] == b {
                assert(rest[k] == w[k + 2]);
            } else {
                assert(rest[k] == w[k + 1]);
            }
        }
        lemma_merge_tokens_in(rest, a, b, vocab);
        assert(m == seq![head] + merge_seq(rest, a, b, a + b));
        assert forall|k: int| 0 <= k < m.len() implies vocab.contains(#[trigger] m[k]) by {
            if k > 0 {
                assert(m[k] == merge_seq(rest, a, b, a + b)[k - 1]);
            }
        }
    }
}

/// Applying rules whose merged tokens are vocabulary tokens keeps every
/// token a vocabulary token.
proof fn lemma_apply_rules_tokens_in(w: Seq<Seq<char>>, rules: Seq<(Seq<char>, Seq<char>)>, vocab: Set<Seq<char>>)
    requires
        forall|k: int| 0 <= k < w.len() ==> vocab.contains(#[trigger] w[k]),
        forall|j: int| 0 <= j < rules.len() ==> vocab.contains(#[trigger] rules[j].0 + rules[j].1),
    ensures
        forall|k: int| 0 <= k < apply_rules(w, rules).len() ==> vocab.contains(#[trigger] apply_rules(w, rules)[k]),
    decreases rules.len(),
{
    if rules.len() > 0 {
        assert forall|j: int| 0 <= j < rules.drop_last().len() implies vocab.contains(
            #[trigger] rules.drop_last()[j].0 + rules.drop_last()[j].1,
        ) by {
            assert(rules.drop_last()[j] == rules[j]);
        }
        lemma_apply_rules_tokens_in(w, rules.drop_last(), vocab);
        let r = rules.last();
        assert(vocab.contains(rules[rules.len() - 1].0 + rules[rules.len() - 1].1));
        lemma_merge_tokens_in(apply_rules(w, rules.drop_last()), r.0, r.1, vocab);
    }
}

/// A token of the starting vocabulary is a token of the trained one.
proof fn lemma_prefix_contains(v: Seq<Seq<char>>, r: Seq<Seq<char>>, x: Seq<char>)
    requires
        r.len() >= v.len(),
        r.take(v.len() as int) == v,
        v.contains(x),
    ensures
        r.contains(x),
{
    let k = choose|k: int| 0 <= k < v.len() && v[k] == x;
    assert(r.take(v.len() as int)[k] == r[k]);
}

/// Training learns rules over vocabulary tokens and keeps the vocabulary
/// free of duplicates.
proof fn lemma_sp_train_rules(ws: Seq<Seq<Seq<char>>>, vocab: Seq<Seq<char>>, vocab_size: nat, min: u64)
    requires
        tokens_in(ws, vocab.to_set()),
        vocab.no_duplicates(),
    ensures
        sp_train(ws, vocab, vocab_size, min).0.no_duplicates(),
        forall|j: int|
            0 <= j < sp_train(ws, vocab, vocab_size, min).1.len() ==> {
                let v = sp_train(ws, vocab, vocab_size, min).0;
                let r = #[trigger] sp_train(ws, vocab, vocab_size, min).1[j];
                v.contains(r.0) && v.contains(r.1) && v.contains(r.0 + r.1)
            },
    decreases total_len(ws),
{
    if vocab.len() < vocab_size {
        match best_pair(ws, min) {
            None => {},
            Some((a, b)) => {
                lemma_best_pair_occurs(ws, min);
                lemma_merge_all_total(ws, a, b, a + b);
                lemma_pair_tokens_in(ws, vocab.to_set(), a, b);
                let v2 = intern_spec(vocab, a + b);
                crate::vocab::law_interning_keeps_ids(vocab, a + b);
                let ws2 = merge_all(ws, a, b, a + b);
                assert forall|i: int, k: int| 0 <= i < ws2.len() && 0 <= k < ws2[i].len()
                    implies v2.to_set().contains(#[trigger] ws2[i][k]) by {
                    assert forall|q: int| 0 <= q < ws[i].len() implies v2.to_set().contains(#[trigger] ws[i][q]) by {
                        assert(vocab.contains(ws[i][q]));
                        lemma_prefix_contains(vocab, v2, ws[i][q]);
                    }
                    lemma_merge_tokens_in(ws[i], a, b, v2.to_set());
                }
                if !vocab.contains(a + b) {
                    assert forall|x: int, y: int| 0 <= x < v2.len() && 0 <= y < v2.len() && x != y implies v2[x]
                        != v2[y] by {
                        if x == vocab.len() {
                            assert(vocab.contains(v2[y]));
                        } else if y == vocab.len() {
                            assert(vocab.contains(v2[x]));
                        }
                    }
                }
                lemma_sp_train_rules(ws2, v2, vocab_size, min);
                lemma_sp_train_vocab(ws2, v2, vocab_size, min);
                let res = sp_train(ws2, v2, vocab_size, min);
                lemma_prefix_contains(vocab, v2, a);
                lemma_prefix_contains(vocab, v2, b);
                lemma_prefix_contains(v2, res.0, a);
                lemma_prefix_contains(v2, res.0, b);
                lemma_prefix_contains(v2, res.0, a + b);
                let rules = seq![(a, b)] + res.1;
                assert(sp_train(ws, vocab, vocab_size, min).1 == rules);
                assert forall|j: int| 0 <= j < rules.len() implies {
                    let r = #[trigger] rules[j];
                    res.0.contains(r.0) && res.0.contains(r.1) && res.0.contains(r.0 + r.1)
                } by {
                    if j > 0 {
                        assert(rules[j] == res.1[j - 1]);
                    }
                }
            },
        }
    }
}

proof fn lemma_flat_tokens_in(ws: Seq<Seq<Seq<char>>>)
    ensures
        tokens_in(ws, flat_tokens(ws).to_set()),
    decreases ws.len(),
{
    if ws.len() > 0 {
        lemma_flat_tokens_in(ws.drop_last());
        let f = flat_tokens(ws);
        let p = flat_tokens(ws.drop_last());
        assert(f == p + ws.last());
        assert forall|i: int, k: int| 0 <= i < ws.len() && 0 <= k < ws[i].len() implies f.to_set().contains(
            #[trigger] ws[i][k],
        ) by {
            if i < ws.len() - 1 {
                assert(ws.drop_last()[i] == ws[i]);
                assert(p.contains(ws[i][k]));
                let q = choose|q: int| 0 <= q < p.len() && p[q] == ws[i][k];
                assert(f[q] == p[q]);
            } else {
                assert(f[p.len() + k] == ws.last()[k]);
            }
        }
    }
}

proof fn lemma_intern_all_contains(toks: Seq<Seq<char>>, ss: Seq<Seq<char>>)
    requires
        toks.no_duplicates(),
    ensures
        intern_all(toks, ss).no_duplicates(),
        forall|x: Seq<char>| toks.contains(x) || ss.contains(x) ==> #[trigger] intern_all(toks, ss).contains(x),
    decreases ss.len(),
{
    if ss.len() > 0 {
        lemma_intern_all_contains(toks, ss.drop_last());
        let p = intern_all(toks, ss.drop_last());
        let x0 = ss.last();
        crate::vocab::law_interning_keeps_ids(p, x0);
        let q = intern_spec(p, x0);
        assert forall|x: Seq<char>| toks.contains(x) || ss.contains(x) implies #[trigger] q.contains(x) by {
            if x != x0 {
                if ss.contains(x) {
                    let k = choose|k: int| 0 <= k < ss.len() && ss[k] == x;
                    assert(ss.drop_last()[k] == x);
                }
                assert(p.contains(x));
                lemma_prefix_contains(p, q, x);
            }
        }
        if !p.contains(x0) {
            assert forall|x: int, y: int| 0 <= x < q.len() && 0 <= y < q.len() && x != y implies q[x] != q[y] by {
                if x == p.len() {
                    assert(p.contains(q[y]));
                } else if y == p.len() {
                    assert(p.contains(q[x]));
                }
            }
        }
    }
}

/// The trained vocabulary has no duplicates, and every learned rule joins
/// two vocabulary tokens into a vocabulary token.
pub proof fn law_rules_join_vocabulary_tokens(sentences: Seq<String>, vocab_size: nat, target: u64, min: u64)
    ensures
        sp_model_spec(sentences, vocab_size, target, min).0.no_duplicates(),
        forall|j: int|
            0 <= j < sp_model_spec(sentences, vocab_size, target, min).1.len() ==> {
                let v = sp_model_spec(sentences, vocab_size, target, min).0;
                let r = #[trigger] sp_model_spec(sentences, vocab_size, target, min).1[j];
                v.contains(r.0) && v.contains(r.1) && v.contains(r.0 + r.1)
            },
{
    let ns = normalized(sentences);
    let init = sp_initial(ns, target, ns);
    let v0 = intern_all(seq![unk()], flat_tokens(init));
    lemma_intern_all_contains(seq![unk()], flat_tokens(init));
    lemma_flat_tokens_in(init);
    assert forall|i: int, k: int| 0 <= i < init.len() && 0 <= k < init[i].len() implies v0.to_set().contains(
        #[trigger] init[i][k],
    ) by {
        assert(flat_tokens(init).to_set().contains(init[i][k]));
    }
    lemma_sp_train_rules(init, v0, vocab_size, min);
}

/// Every token a trained model gives back is a vocabulary token: chars not
/// in the vocabulary become `<unk>`, itself a vocabulary token, and every
/// rule joins into a vocabulary token.
pub proof fn law_trained_tokens_are_vocabulary_tokens(
    sentences: Seq<String>,
    vocab_size: nat,
    target: u64,
    min: u64,
    s: Seq<char>,
)
    ensures
        forall|k: int|
            0 <= k < sp_tokenize(
                s,
                sp_model_spec(sentences, vocab_size, target, min).0.to_set(),
                sp_model_spec(sentences, vocab_size, target, min).1,
            ).len() ==> sp_model_spec(sentences, vocab_size, target, min).0.contains(
                #[trigger] sp_tokenize(
                    s,
                    sp_model_spec(sentences, vocab_size, target, min).0.to_set(),
                    sp_model_spec(sentences, vocab_size, target, min).1,
                )[k],
            ),
{
    let (v, r) = sp_model_spec(sentences, vocab_size, target, min);
    let vs = v.to_set();
    law_unk_first_and_vocab_bounded(sentences, vocab_size, target, min);
    law_rules_join_vocabulary_tokens(sentences, vocab_size, target, min);
    assert(v.contains(v[0]));
    let units = spec_normalize(s).map_values(|c: char| known_unit(vs, c));
    assert forall|k: int| 0 <= k < units.len() implies vs.contains(#[trigger] units[k]) by {}
    assert forall|j: int| 0 <= j < r.len() implies vs.contains(#[trigger] r[j].0 + r[j].1) by {}
    lemma_apply_rules_tokens_in(units, r, vs);
}

/// The one-char token of `c`.
pub open spec fn char_token(c: char) -> Seq<char> {
    seq![c]
}

/// The tokens with at least one char.
spec fn nonempty_tokens() -> Set<Seq<char>> {
    Set::new(|t: Seq<char>| t.len() > 0)
}

proof fn lemma_count_char_contains(s: Seq<char>, c: char)
    ensures
        count_char(s, c) > 0 <==> s.contains(c),
    decreases s.len(),
{
    if s.len() > 0 {
        let t = s.drop_first();
        lemma_count_char_contains(t, c);
        if s[0] == c {
            assert(s.contains(c));
        } else {
            if s.contains(c) {
                let p = choose|p: int| 0 <= p < s.len() && s[p] == c;
                assert(t[p - 1] == c);
            }
            if t.contains(c) {
                let p = choose|p: int| 0 <= p < t.len() && t[p] == c;
                assert(s[p + 1] == c);
            }
        }
    }
}

/// A token interned into a list was in it or was interned.
proof fn lemma_intern_all_source(toks: Seq<Seq<char>>, ss: Seq<Seq<char>>, x: Seq<char>)
    requires
        intern_all(toks, ss).contains(x),
    ensures
        toks.contains(x) || ss.contains(x),
    decreases ss.len(),
{
    if ss.len() > 0 {
        let p = intern_all(toks, ss.drop_last());
        if x != ss.last() {
            if !p.contains(ss.last()) {
                let k = choose|k: int| 0 <= k < p.push(ss.last()).len() && p.push(ss.last())[k] == x;
                assert(k < p.len());
                assert(p[k] == x);
            }
            assert(p.contains(x));
            lemma_intern_all_source(toks, ss.drop_last(), x);
            if ss.drop_last().contains(x) {
                let k = choose|k: int| 0 <= k < ss.drop_last().len() && ss.drop_last()[k] == x;
                assert(ss[k] == x);
            }
        } else {
            assert(ss[ss.len() - 1] == x);
        }
    }
}

/// The initial tokens of the sentences `ss` are non-empty, and the one-char
/// token of `c` is among them exactly when `c` occurs in `ss` and is covered.
proof fn lemma_initial_char_tokens(ns: Seq<Seq<char>>, target: u64, ss: Seq<Seq<char>>)
    ensures
        forall|x: Seq<char>| #[trigger] flat_tokens(sp_initial(ns, target, ss)).contains(x) ==> x.len() > 0,
        forall|c: char|
            #[trigger] flat_tokens(sp_initial(ns, target, ss)).contains(char_token(c)) <==> (sp_included(
                ns,
                target,
                c,
            ) && corpus_char_count(ss, c) > 0),
    decreases ss.len(),
{
    if ss.len() > 0 {
        let sp = ss.drop_last();
        let w = ss.last();
        lemma_initial_char_tokens(ns, target, sp);
        let f0 = flat_tokens(sp_initial(ns, target, sp));
        let f = flat_tokens(sp_initial(ns, target, ss));
        if w.len() == 0 {
            assert forall|c: char| count_char(w, c) == 0 by {
                lemma_count_char_contains(w, c);
            }
        } else {
            let u = sp_units(ns, target, w);
            assert(sp_initial(ns, target, ss).drop_last() =~= sp_initial(ns, target, sp));
            assert(f == f0 + u);
            assert forall|x: Seq<char>| #[trigger] f.contains(x) implies x.len() > 0 by {
                let k = choose|k: int| 0 <= k < f.len() && f[k] == x;
                if k < f0.len() {
                    assert(f0[k] == x);
                    assert(f0.contains(x));
                } else {
                    let q = k - f0.len();
                    assert(u[q] == sp_unit(ns, target, w[q]));
                    assert(unk().len() == 5);
                    assert(seq![w[q]].len() == 1);
                }
            }
            assert forall|c: char| #[trigger] f.contains(char_token(c)) <==> (sp_included(ns, target, c)
                && corpus_char_count(ss, c) > 0) by {
                lemma_count_char_contains(w, c);
                let t = char_token(c);
                assert(corpus_char_count(ss, c) == corpus_char_count(sp, c) + count_char(w, c));
                if f.contains(t) {
                    let k = choose|k: int| 0 <= k < f.len() && f[k] == t;
                    if k < f0.len() {
                        assert(f0[k] == t);
                        assert(f0.contains(char_token(c)));
                    } else {
                        let q = k - f0.len();
                        assert(u[q] == sp_unit(ns, target, w[q]));
                        if !sp_included(ns, target, w[q]) {
                            assert(unk().len() == 5);
                            assert(false);
                        }
                        assert(u[q] == seq![w[q]]);
                        assert(seq![w[q]][0] == w[q]);
                        assert(t[0] == c);
                        assert(w[q] == c);
                        assert(w.contains(c));
                    }
                }
                if sp_included(ns, target, c) && corpus_char_count(ss, c) > 0 {
                    if corpus_char_count(sp, c) > 0 {
                        assert(f0.contains(char_token(c)));
                        let k = choose|k: int| 0 <= k < f0.len() && f0[k] == t;
                        assert(f[k] == t);
                    } else {
                        let q = choose|q: int| 0 <= q < w.len() && w[q] == c;
                        assert(u[q] == sp_unit(ns, target, w[q]));
                        assert(u[q] =~= t);
                        assert(f[f0.len() + q] == t);
                    }
                }
            }
        }
    }
}

/// Training adds only tokens of two or more chars: a token of at most one
/// char is in the trained vocabulary exactly when it was in the starting one.
proof fn lemma_sp_train_short_tokens(ws: Seq<Seq<Seq<char>>>, vocab: Seq<Seq<char>>, vocab_size: nat, min: u64, x: Seq<char>)
    requires
        tokens_in(ws, nonempty_tokens()),
        x.len() <= 1,
    ensures
        sp_train(ws, vocab, vocab_size, min).0.contains(x) <==> vocab.contains(x),
    decreases total_len(ws),
{
    if vocab.len() < vocab_size {
        match best_pair(ws, min) {
            None => {},
            Some((a, b)) => {
                lemma_best_pair_occurs(ws, min);
                lemma_merge_all_total(ws, a, b, a + b);
                lemma_pair_tokens_in(ws, nonempty_tokens(), a, b);
                assert(nonempty_tokens().contains(a + b));
                let v2 = intern_spec(vocab, a + b);
                let ws2 = merge_all(ws, a, b, a + b);
                assert forall|i: int, k: int| 0 <= i < ws2.len() && 0 <= k < ws2[i].len()
                    implies nonempty_tokens().contains(#[trigger] ws2[i][k]) by {
                    assert forall|q: int| 0 <= q < ws[i].len() implies nonempty_tokens().contains(#[trigger] ws[i][q]) by {}
                    lemma_merge_tokens_in(ws[i], a, b, nonempty_tokens());
                }
                lemma_sp_train_short_tokens(ws2, v2, vocab_size, min, x);
                if !vocab.contains(a + b) {
                    if v2.contains(x) {
                        let k = choose|k: int| 0 <= k < v2.len() && v2[k] == x;
                        assert(k < vocab.len());
                        assert(vocab[k] == x);
                    }
                    if vocab.contains(x) {
                        let k = choose|k: int| 0 <= k < vocab.len() && vocab[k] == x;
                        assert(v2[k] == x);
                    }
                }
            },
        }
    }
}

/// The one-char tokens of the trained vocabulary are exactly the covered
/// chars: for the corpus's chars listed most frequent first, the char at
/// position `k` has a token of its own if and only if the chars before it
/// cover fewer occurrences than the target; no char outside the corpus has
/// one.  With a positive target the most frequent char always has one.
/// Here `l` lists every char of the normalized sentences once with its
/// count, most frequent first, ties going to the smaller char.
pub proof fn law_trained_chars_are_the_covered_prefix(
    sentences: Seq<String>,
    vocab_size: nat,
    target: u64,
    min: u64,
    l: Seq<(char, u64)>,
)
    requires
        forall|i: int, j: int|
            0 <= i < j < l.len() ==> (#[trigger] l[i]).1 > (#[trigger] l[j]).1 || (l[i].1 == l[j].1 && l[i].0 < l[j].0),
        forall|i: int|
            0 <= i < l.len() ==> (#[trigger] l[i]).1 == corpus_char_count(normalized(sentences), l[i].0) && l[i].1 > 0,
        forall|c: char|
            #[trigger] corpus_char_count(normalized(sentences), c) > 0 ==> exists|i: int| 0 <= i < l.len() && l[i].0 == c,
    ensures
        forall|k: int|
            0 <= k < l.len() ==> (sp_model_spec(sentences, vocab_size, target, min).0.contains(
                char_token(#[trigger] l[k].0),
            ) <==> count_sum(l.take(k)) < target),
        forall|c: char|
            #[trigger] sp_model_spec(sentences, vocab_size, target, min).0.contains(char_token(c))
                ==> corpus_char_count(normalized(sentences), c) > 0,
        target > 0 && l.len() > 0 ==> sp_model_spec(sentences, vocab_size, target, min).0.contains(
            char_token(l[0].0),
        ),
{
    let ns = normalized(sentences);
    let init = sp_initial(ns, target, ns);
    let fl = flat_tokens(init);
    let v0 = intern_all(seq![unk()], fl);
    let r = sp_model_spec(sentences, vocab_size, target, min).0;
    law_coverage_is_shortest_prefix(ns, target, l);
    lemma_initial_char_tokens(ns, target, ns);
    lemma_intern_all_contains(seq![unk()], fl);
    lemma_flat_tokens_in(init);
    assert forall|i: int, k: int| 0 <= i < init.len() && 0 <= k < init[i].len() implies nonempty_tokens().contains(
        #[trigger] init[i][k],
    ) by {
        assert(fl.to_set().contains(init[i][k]));
        assert(fl.contains(init[i][k]));
    }
    assert forall|c: char| #[trigger] r.contains(char_token(c)) <==> (sp_included(ns, target, c)
        && corpus_char_count(ns, c) > 0) by {
        let t = char_token(c);
        lemma_sp_train_short_tokens(init, v0, vocab_size, min, t);
        if v0.contains(t) {
            lemma_intern_all_source(seq![unk()], fl, t);
            if seq![unk()].contains(t) {
                assert(seq![unk()][0] == t);
                assert(unk().len() == 5);
            }
        }
        if fl.contains(t) {
            assert(v0.contains(t));
        }
    }
    assert forall|k: int| 0 <= k < l.len() implies (r.contains(char_token(#[trigger] l[k].0)) <==> count_sum(
        l.take(k),
    ) < target) by {
        assert(l[k].1 == corpus_char_count(ns, l[k].0) && l[k].1 > 0);
    }
    if target > 0 && l.len() > 0 {
        assert(l[0].1 == corpus_char_count(ns, l[0].0) && l[0].1 > 0);
        assert(r.contains(char_token(l[0].0)));
    }
}

} // verus!
