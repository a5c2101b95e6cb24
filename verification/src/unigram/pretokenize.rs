//! Normalization (the same as SentencePiece's) and the tokens of the
//! initial vocabulary: every char of the normalized corpus, then the most
//! frequent substrings of 2 to 16 chars.

use vstd::prelude::*;
use crate::frequency::{add_tokens, count_tok_all, freq_exact, new_freq, tok_count};
use crate::fxmap::{token_counts, token_counts_entries};
use crate::pairs::{lemma_total_len_add, total_len};
use crate::sentencepiece_bpe::trainer::{char_rows, normalized, normalized_rows};
use crate::sorting::{lemma_sorted_unique, sort_count_entries};
use crate::text::{chars_of, lemma_seq_lt_total, push_char, seq_lt, string_of, views};

pub use crate::sentencepiece_bpe::pretokenize::normalize_sentence;

verus! {

/// The longest substring counted, in chars.
pub const MAX_PIECE_LEN: usize = 16;

/// The substrings counted at position `p` of `s`: those starting there, of
/// 1 to 16 chars, shortest first.
pub open spec fn subs_at(s: Seq<char>, p: int) -> Seq<Seq<char>> {
    let k = if s.len() - p < 16 { s.len() - p } else { 16 };
    Seq::new(k as nat, |l: int| s.subrange(p, p + l + 1))
}

/// The substrings counted at the positions before `p`, position by position.
pub open spec fn subs_upto(s: Seq<char>, p: int) -> Seq<Seq<char>>
    decreases p,
{
    if p <= 0 {
        seq![]
    } else {
        subs_upto(s, p - 1) + subs_at(s, p - 1)
    }
}

/// Every counted substring of `s`: at each position, those of 1 to 16 chars.
pub open spec fn substrings(s: Seq<char>) -> Seq<Seq<char>> {
    subs_upto(s, s.len() as int)
}

/// The counted substrings of each normalized sentence.
pub open spec fn corpus_substrings(sentences: Seq<String>) -> Seq<Seq<Seq<char>>> {
    normalized(sentences).map_values(|s: Seq<char>| substrings(s))
}

/// How often `t` occurs among the counted substrings of the corpus.
pub open spec fn sub_count(sentences: Seq<String>, t: Seq<char>) -> nat {
    count_tok_all(corpus_substrings(sentences), t)
}

/// A (substring, count) entry by its chars.
pub open spec fn entry_view(e: (Vec<char>, u64)) -> (Seq<char>, u64) {
    (e.0@, e.1)
}

/// Entry `x` ranks before `y`: it is more frequent, or as frequent and
/// lexicographically smaller.
pub open spec fn count_before(x: (Seq<char>, u64), y: (Seq<char>, u64)) -> bool {
    x.1 > y.1 || (x.1 == y.1 && seq_lt(x.0, y.0))
}

/// `l` lists every counted substring of 2 or more chars once, with its
/// count, in [`count_before`] order.
pub open spec fn is_extra_list(l: Seq<(Seq<char>, u64)>, sentences: Seq<String>) -> bool {
    &&& forall|i: int, j: int| 0 <= i < j < l.len() ==> count_before(#[trigger] l[i], #[trigger] l[j])
    &&& forall|i: int|
        0 <= i < l.len() ==> (#[trigger] l[i]).0.len() >= 2 && l[i].1 == sub_count(sentences, l[i].0) && l[i].1 > 0
    &&& forall|t: Seq<char>|
        t.len() >= 2 && #[trigger] sub_count(sentences, t) > 0 ==> exists|i: int| 0 <= i < l.len() && l[i].0 == t
}

/// The counted substrings of 2 or more chars, most frequent first, ties by
/// the smaller string.
pub open spec fn extra_list(sentences: Seq<String>) -> Seq<(Seq<char>, u64)> {
    choose|l: Seq<(Seq<char>, u64)>| is_extra_list(l, sentences)
}

/// `cs` holds each char of the normalized corpus once, as a one-char token.
pub open spec fn is_char_tokens(cs: Seq<Seq<char>>, sentences: Seq<String>) -> bool {
    &&& cs.no_duplicates()
    &&& forall|i: int| 0 <= i < cs.len() ==> (#[trigger] cs[i]).len() == 1 && sub_count(sentences, cs[i]) > 0
    &&& forall|t: Seq<char>| t.len() == 1 && #[trigger] sub_count(sentences, t) > 0 ==> cs.contains(t)
}

/// How many extra substrings join the `n_chars` chars under `max_vocab`.
pub open spec fn extra_room(max_vocab: nat, n_chars: nat, available: nat) -> nat {
    let room: nat = if max_vocab > n_chars { (max_vocab - n_chars) as nat } else { 0 };
    if room < available { room } else { available }
}

/// The initial vocabulary tokens: `chars` (every char of the normalized
/// corpus, in some order) followed by the first extra substrings, as many
/// as fit under `max_vocab`.
pub open spec fn is_initial_vocab(toks: Seq<Seq<char>>, sentences: Seq<String>, max_vocab: nat) -> bool {
    exists|n: int| #![trigger toks.take(n)]
        0 <= n <= toks.len() && is_char_tokens(toks.take(n), sentences) && toks.skip(n) == extra_list(sentences).map_values(
            |e: (Seq<char>, u64)| e.0,
        ).take(extra_room(max_vocab, n as nat, extra_list(sentences).len()) as int)
}

proof fn lemma_subs_upto_len(s: Seq<char>, p: int)
    requires
        0 <= p <= s.len(),
    ensures
        subs_upto(s, p).len() <= 16 * p,
    decreases p,
{
    if p > 0 {
        lemma_subs_upto_len(s, p - 1);
    }
}

/// The counted substrings of a row: at each start, the substrings of 1 to
/// 16 chars, shortest first.
fn row_substrings(row: &Vec<char>) -> (subs: Vec<String>)
    ensures
        views(subs@) == substrings(row@),
{
    let n = row.len();
    let mut subs: Vec<String> = Vec::new();
    for p in 0..n
        invariant
            n == row@.len(),
            views(subs@) == subs_upto(row@, p as int),
    {
        let end = if n - p < MAX_PIECE_LEN { n } else { p + MAX_PIECE_LEN };
        let ghost base = views(subs@);
        let ghost at = subs_at(row@, p as int);
        let mut piece = String::new();
        proof {
            assert(at.take(0) =~= Seq::<Seq<char>>::empty());
            assert(base + at.take(0) =~= base);
        }
        for q in p..end
            invariant
                n == row@.len(),
                p < n,
                end == (if n - p < 16 { n as int } else { p + 16 }),
                at == subs_at(row@, p as int),
                piece@ == row@.subrange(p as int, q as int),
                views(subs@) == base + at.take(q - p),
        {
            push_char(&mut piece, row[q]);
            let ghost old_subs = views(subs@);
            proof {
                assert(piece@ =~= row@.subrange(p as int, q + 1));
                assert(at[q - p] == row@.subrange(p as int, q + 1));
            }
            subs.push(piece.clone());
            proof {
                assert(views(subs@) =~= old_subs.push(piece@));
                assert(at.take(q + 1 - p) =~= at.take(q - p).push(at[q - p]));
            }
        }
        proof {
            assert(at.take(end - p) =~= at);
        }
    }
    subs
}

/// Counts the counted substrings of every normalized sentence.
fn count_substrings(sentences: &[String]) -> (m: rustc_hash::FxHashMap<String, u64>)
    requires
        16 * total_len(normalized(sentences@)) <= u64::MAX,
    ensures
        freq_exact(token_counts(m), corpus_substrings(sentences@)),
{
    let rows = normalized_rows(sentences);
    let ghost ns = char_rows(rows@);
    let ghost cs = corpus_substrings(sentences@);
    let mut m = new_freq();
    let n = rows.len();
    proof {
        assert(cs.take(0) =~= Seq::<Seq<Seq<char>>>::empty());
        lemma_substrings_total(ns);
    }
    for i in 0..n
        invariant
            n == rows@.len(),
            ns == char_rows(rows@),
            ns == normalized(sentences@),
            cs == corpus_substrings(sentences@),
            cs.len() == n,
            total_len(cs) <= u64::MAX,
            freq_exact(token_counts(m), cs.take(i as int)),
    {
        let subs = row_substrings(&rows[i]);
        proof {
            assert(cs[i as int] == substrings(rows@[i as int]@));
            assert(cs.take(i + 1) =~= cs.take(i as int).push(views(subs@)));
            assert(cs =~= cs.take(i + 1) + cs.skip(i + 1));
            lemma_total_len_add(cs.take(i + 1), cs.skip(i + 1));
        }
        add_tokens(&mut m, &subs, Ghost(cs.take(i as int)));
    }
    proof {
        assert(cs.take(n as int) =~= cs);
    }
    m
}

proof fn lemma_substrings_total(ns: Seq<Seq<char>>)
    ensures
        total_len(ns.map_values(|s: Seq<char>| substrings(s))) <= 16 * total_len(ns),
    decreases ns.len(),
{
    if ns.len() > 0 {
        lemma_substrings_total(ns.drop_last());
        let f = |s: Seq<char>| substrings(s);
        assert(ns.map_values(f).drop_last() =~= ns.drop_last().map_values(f));
        lemma_subs_upto_len(ns.last(), ns.last().len() as int);
    }
}

/// The tokens of the initial vocabulary: every char of the normalized
/// corpus, then substrings of 2 to 16 chars, most frequent first (ties by
/// the smaller string), as many as fit under `max_vocab`.
pub fn initial_vocab_tokens(sentences: &[String], max_vocab: usize) -> (toks: Vec<String>)
    requires
        16 * total_len(normalized(sentences@)) <= u64::MAX,
    ensures
        is_initial_vocab(views(toks@), sentences@, max_vocab as nat),
{
    let ghost ss = sentences@;
    let m = count_substrings(sentences);
    let ghost tm = token_counts(m);
    let entries = token_counts_entries(&m);
    let ne = entries.len();
    let mut chars: Vec<String> = Vec::new();
    let mut extras: Vec<(Vec<char>, u64)> = Vec::new();
    let ghost mut ci: Seq<int> = seq![];
    let ghost mut ei: Seq<int> = seq![];
    for i in 0..ne
        invariant
            ne == entries@.len(),
            tm == token_counts(m),
            freq_exact(tm, corpus_substrings(ss)),
            forall|j: int| 0 <= j < entries@.len() ==> tm.contains_key(#[trigger] entries@[j].0@),
            forall|j: int| 0 <= j < entries@.len() ==> tm[#[trigger] entries@[j].0@] == entries@[j].1,
            forall|k: Seq<char>| #[trigger] tm.contains_key(k) ==> exists|j: int|
                0 <= j < entries@.len() && entries@[j].0@ == k,
            forall|j: int, l: int| 0 <= j < l < entries@.len() ==> entries@[j].0@ != entries@[l].0@,
            ci.len() == chars@.len(),
            forall|k: int| 0 <= k < chars@.len() ==> 0 <= #[trigger] ci[k] < i && chars@[k]@ == entries@[ci[k]].0@,
            forall|k: int, l: int| 0 <= k < l < chars@.len() ==> ci[k] < ci[l],
            forall|j: int| 0 <= j < i && entries@[j].0@.len() == 1 ==> exists|k: int|
                0 <= k < chars@.len() && #[trigger] ci[k] == j,
            forall|k: int| 0 <= k < chars@.len() ==> (#[trigger] chars@[k])@.len() == 1,
            ei.len() == extras@.len(),
            forall|k: int| 0 <= k < extras@.len() ==> 0 <= #[trigger] ei[k] < i && entry_view(extras@[k]) == (
                entries@[ei[k]].0@,
                entries@[ei[k]].1,
            ),
            forall|k: int, l: int| 0 <= k < l < extras@.len() ==> ei[k] < ei[l],
            forall|j: int| 0 <= j < i && entries@[j].0@.len() != 1 ==> exists|k: int|
                0 <= k < extras@.len() && #[trigger] ei[k] == j,
            forall|k: int| 0 <= k < extras@.len() ==> (#[trigger] extras@[k]).0@.len() != 1,
    {
        let cs = chars_of(entries[i].0.as_str());
        if cs.len() == 1 {
            let ghost old_ci = ci;
            chars.push(entries[i].0.clone());
            proof {
                ci = ci.push(i as int);
                assert forall|j: int| 0 <= j < i + 1 && entries@[j].0@.len() == 1 implies exists|k: int|
                    0 <= k < chars@.len() && #[trigger] ci[k] == j by {
                    if j < i {
                        let k = choose|k: int| 0 <= k < old_ci.len() && #[trigger] old_ci[k] == j;
                        assert(ci[k] == j);
                    } else {
                        assert(ci[old_ci.len() as int] == j);
                    }
                }
            }
        } else {
            let ghost old_ei = ei;
            extras.push((cs, entries[i].1));
            proof {
                ei = ei.push(i as int);
                assert forall|j: int| 0 <= j < i + 1 && entries@[j].0@.len() != 1 implies exists|k: int|
                    0 <= k < extras@.len() && #[trigger] ei[k] == j by {
                    if j < i {
                        let k = choose|k: int| 0 <= k < old_ei.len() && #[trigger] old_ei[k] == j;
                        assert(ei[k] == j);
                    } else {
                        assert(ei[old_ei.len() as int] == j);
                    }
                }
            }
        }
    }
    let ghost ex0 = extras@.map_values(|e: (Vec<char>, u64)| entry_view(e));
    proof {
        // the extras are distinct, so their multiset counts each once
        assert(ex0.no_duplicates()) by {
            assert forall|k: int, l: int| 0 <= k < ex0.len() && 0 <= l < ex0.len() && k != l implies ex0[k] != ex0[l] by {
                if k < l {
                    assert(ei[k] < ei[l]);
                } else {
                    assert(ei[l] < ei[k]);
                }
            }
        }
        ex0.lemma_multiset_has_no_duplicates();
        assert forall|x: (Seq<char>, u64)| #[trigger] ex0.contains(x) implies x.0.len() >= 2 && x.1 == sub_count(ss, x.0)
            && x.1 > 0 by {
            let k = choose|k: int| 0 <= k < ex0.len() && ex0[k] == x;
            let j = ei[k];
            assert(tm.contains_key(entries@[j].0@));
            assert(tok_count(tm, entries@[j].0@) == count_tok_all(corpus_substrings(ss), entries@[j].0@));
            lemma_sub_count_bound(ss, x.0);
        }
        assert forall|t: Seq<char>| t.len() >= 2 && #[trigger] sub_count(ss, t) > 0 implies exists|k: int|
            0 <= k < ex0.len() && ex0[k].0 == t by {
            assert(tok_count(tm, t) == count_tok_all(corpus_substrings(ss), t));
            assert(tm.contains_key(t));
            let j = choose|j: int| 0 <= j < entries@.len() && entries@[j].0@ == t;
            let k = choose|k: int| 0 <= k < extras@.len() && #[trigger] ei[k] == j;
            assert(ex0[k].0 == t);
        }
    }
    sort_count_entries(&mut extras);
    let ghost l = extras@.map_values(|e: (Vec<char>, u64)| entry_view(e));
    proof {
        broadcast use vstd::seq_lib::group_to_multiset_ensures;
        assert forall|x: (Seq<char>, u64)| l.to_multiset().contains(x) implies l.to_multiset().count(x) == 1 by {
            assert(ex0.to_multiset().contains(x));
        }
        l.lemma_multiset_has_no_duplicates_conv();
        assert forall|x: (Seq<char>, u64)| #[trigger] l.contains(x) <==> ex0.contains(x) by {
            assert(l.contains(x) <==> l.to_multiset().count(x) > 0);
            assert(ex0.contains(x) <==> ex0.to_multiset().count(x) > 0);
        }
        lemma_extras_are_extra_list(l, ex0, ss);
    }
    let nc = chars.len();
    let room = if max_vocab > nc { max_vocab - nc } else { 0 };
    let take = if room < extras.len() { room } else { extras.len() };
    let mut toks = chars;
    let ghost head = views(toks@);
    let ghost lt = l.map_values(|e: (Seq<char>, u64)| e.0);
    for j in 0..take
        invariant
            take <= extras@.len(),
            l == extras@.map_values(|e: (Vec<char>, u64)| entry_view(e)),
            lt == l.map_values(|e: (Seq<char>, u64)| e.0),
            views(toks@) == head + lt.take(j as int),
    {
        let s = string_of(extras[j].0.as_slice());
        let ghost old_t = views(toks@);
        toks.push(s);
        proof {
            assert(views(toks@) =~= old_t.push(lt[j as int]));
            assert(lt.take(j + 1) =~= lt.take(j as int).push(lt[j as int]));
        }
    }
    proof {
        let all = views(toks@);
        let n = nc as int;
        assert(all.take(n) =~= head);
        assert(all.skip(n) =~= lt.take(take as int));
        // the chars part
        assert(head.no_duplicates()) by {
            assert forall|k: int, q: int| 0 <= k < head.len() && 0 <= q < head.len() && k != q implies head[k] != head[q] by {
                if k < q {
                    assert(ci[k] < ci[q]);
                } else {
                    assert(ci[q] < ci[k]);
                }
            }
        }
        assert forall|k: int| 0 <= k < head.len() implies (#[trigger] head[k]).len() == 1 && sub_count(ss, head[k]) > 0 by {
            let j = ci[k];
            assert(tm.contains_key(entries@[j].0@));
            assert(tok_count(tm, entries@[j].0@) == count_tok_all(corpus_substrings(ss), entries@[j].0@));
        }
        assert forall|t: Seq<char>| t.len() == 1 && #[trigger] sub_count(ss, t) > 0 implies head.contains(t) by {
            assert(tok_count(tm, t) == count_tok_all(corpus_substrings(ss), t));
            assert(tm.contains_key(t));
            let j = choose|j: int| 0 <= j < entries@.len() && entries@[j].0@ == t;
            let k = choose|k: int| 0 <= k < chars@.len() && #[trigger] ci[k] == j;
            assert(head[k] == t);
        }
        assert(is_char_tokens(all.take(n), ss));
        assert(all.skip(n) == extra_list(ss).map_values(|e: (Seq<char>, u64)| e.0).take(
            extra_room(max_vocab as nat, n as nat, extra_list(ss).len()) as int,
        ));
    }
    toks
}

/// A sorted list of the extra entries is the extra list.
proof fn lemma_extras_are_extra_list(l: Seq<(Seq<char>, u64)>, ex0: Seq<(Seq<char>, u64)>, ss: Seq<String>)
    requires
        l.no_duplicates(),
        forall|x: (Seq<char>, u64)| #[trigger] l.contains(x) <==> ex0.contains(x),
        forall|i: int, j: int| 0 <= i < j < l.len() ==> !count_before(l[j], l[i]),
        forall|x: (Seq<char>, u64)|
            #[trigger] ex0.contains(x) ==> x.0.len() >= 2 && x.1 == sub_count(ss, x.0) && x.1 > 0,
        forall|t: Seq<char>|
            t.len() >= 2 && #[trigger] sub_count(ss, t) > 0 ==> exists|k: int| 0 <= k < ex0.len() && ex0[k].0 == t,
    ensures
        l == extra_list(ss),
{
    let before = |x: (Seq<char>, u64), y: (Seq<char>, u64)| count_before(x, y);
    assert forall|x: (Seq<char>, u64), y: (Seq<char>, u64)| #[trigger] before(x, y) implies !before(y, x) by {
        lemma_seq_lt_total(x.0, y.0);
    }
    assert forall|i: int, j: int| 0 <= i < j < l.len() implies count_before(#[trigger] l[i], #[trigger] l[j]) by {
        assert(!count_before(l[j], l[i]));
        assert(l[i] != l[j]);
        lemma_seq_lt_total(l[i].0, l[j].0);
        if l[i].1 == l[j].1 && l[i].0 == l[j].0 {
            assert(l[i] == l[j]);
        }
    }
    assert forall|i: int| 0 <= i < l.len() implies (#[trigger] l[i]).0.len() >= 2 && l[i].1 == sub_count(ss, l[i].0)
        && l[i].1 > 0 by {
        assert(l.contains(l[i]));
    }
    assert forall|t: Seq<char>| t.len() >= 2 && #[trigger] sub_count(ss, t) > 0 implies exists|i: int|
        0 <= i < l.len() && l[i].0 == t by {
        let k = choose|k: int| 0 <= k < ex0.len() && ex0[k].0 == t;
        assert(ex0.contains(ex0[k]));
        assert(l.contains(ex0[k]));
    }
    assert(is_extra_list(l, ss));
    let le = extra_list(ss);
    assert(is_extra_list(le, ss));
    assert forall|x: (Seq<char>, u64)| l.contains(x) <==> le.contains(x) by {
        if l.contains(x) {
            assert(ex0.contains(x));
            let k = choose|k: int| 0 <= k < le.len() && le[k].0 == x.0;
            assert(le[k] == x);
        }
        if le.contains(x) {
            let i = choose|i: int| 0 <= i < le.len() && le[i] == x;
            let k = choose|k: int| 0 <= k < ex0.len() && ex0[k].0 == x.0;
            assert(ex0.contains(ex0[k]));
            assert(ex0[k] == x);
        }
    }
    assert forall|i: int, j: int| 0 <= i < j < l.len() implies before(#[trigger] l[i], #[trigger] l[j]) by {}
    assert forall|i: int, j: int| 0 <= i < j < le.len() implies before(#[trigger] le[i], #[trigger] le[j]) by {}
    lemma_sorted_unique(l, le, before);
}

proof fn lemma_count_tok_contains(w: Seq<Seq<char>>, t: Seq<char>)
    requires
        crate::frequency::count_tok(w, t) > 0,
    ensures
        w.contains(t),
    decreases w.len(),
{
    if w.last() != t {
        lemma_count_tok_contains(w.drop_last(), t);
        let k = choose|k: int| 0 <= k < w.drop_last().len() && w.drop_last()[k] == t;
        assert(w[k] == t);
    } else {
        assert(w[w.len() - 1] == t);
    }
}

proof fn lemma_subs_upto_lens(s: Seq<char>, p: int)
    requires
        0 <= p <= s.len(),
    ensures
        forall|i: int| 0 <= i < subs_upto(s, p).len() ==> 1 <= (#[trigger] subs_upto(s, p)[i]).len() <= 16,
    decreases p,
{
    if p > 0 {
        lemma_subs_upto_lens(s, p - 1);
        let a = subs_upto(s, p - 1);
        let b = subs_at(s, p - 1);
        assert forall|i: int| 0 <= i < (a + b).len() implies 1 <= (#[trigger] (a + b)[i]).len() <= 16 by {
            if i >= a.len() {
                assert((a + b)[i] == b[i - a.len()]);
            }
        }
    }
}

/// Counted substrings have 1 to 16 chars, and their counts fit a `u64`.
proof fn lemma_sub_count_bound(ss: Seq<String>, t: Seq<char>)
    requires
        sub_count(ss, t) > 0,
    ensures
        1 <= t.len() <= 16,
{
    lemma_sub_count_bound_rec(corpus_substrings(ss), normalized(ss), t);
}

proof fn lemma_sub_count_bound_rec(cs: Seq<Seq<Seq<char>>>, ns: Seq<Seq<char>>, t: Seq<char>)
    requires
        cs == ns.map_values(|s: Seq<char>| substrings(s)),
        count_tok_all(cs, t) > 0,
    ensures
        1 <= t.len() <= 16,
    decreases cs.len(),
{
    if crate::frequency::count_tok(cs.last(), t) > 0 {
        lemma_count_tok_contains(cs.last(), t);
        let w = ns.last();
        assert(cs.last() == substrings(w));
        lemma_subs_upto_lens(w, w.len() as int);
        let k = choose|k: int| 0 <= k < cs.last().len() && cs.last()[k] == t;
    } else {
        assert(cs.drop_last() =~= ns.drop_last().map_values(|s: Seq<char>| substrings(s)));
        lemma_sub_count_bound_rec(cs.drop_last(), ns.drop_last(), t);
    }
}

} // verus!
