//! Token frequency tables: how often each token occurs over a list of
//! token sequences.

use vstd::prelude::*;
use rustc_hash::FxHashMap;
use crate::fxmap::{token_counts, token_counts_get, token_counts_insert, token_counts_new};
use crate::pairs::total_len;
use crate::text::views;

verus! {

/// Occurrences of `t` in one token sequence.
pub open spec fn count_tok(w: Seq<Seq<char>>, t: Seq<char>) -> nat
    decreases w.len(),
{
    if w.len() == 0 {
        0
    } else {
        count_tok(w.drop_last(), t) + (if w.last() == t { 1nat } else { 0nat })
    }
}

/// Occurrences of `t` over all token sequences.
pub open spec fn count_tok_all(ws: Seq<Seq<Seq<char>>>, t: Seq<char>) -> nat
    decreases ws.len(),
{
    if ws.len() == 0 {
        0
    } else {
        count_tok_all(ws.drop_last(), t) + count_tok(ws.last(), t)
    }
}

/// The count a table holds for a token, zero when absent.
pub open spec fn tok_count(m: Map<Seq<char>, u64>, t: Seq<char>) -> nat {
    if m.contains_key(t) {
        m[t] as nat
    } else {
        0
    }
}

/// The table holds exactly the tokens of the sequences with their counts.
pub open spec fn freq_exact(m: Map<Seq<char>, u64>, ws: Seq<Seq<Seq<char>>>) -> bool {
    &&& forall|t: Seq<char>| #[trigger] tok_count(m, t) == count_tok_all(ws, t)
    &&& forall|t: Seq<char>| #[trigger] m.contains_key(t) ==> m[t] > 0
}

pub proof fn lemma_count_tok_le(w: Seq<Seq<char>>, t: Seq<char>)
    ensures
        count_tok(w, t) <= w.len(),
    decreases w.len(),
{
    if w.len() > 0 {
        lemma_count_tok_le(w.drop_last(), t);
    }
}

pub proof fn lemma_count_tok_all_le(ws: Seq<Seq<Seq<char>>>, t: Seq<char>)
    ensures
        count_tok_all(ws, t) <= total_len(ws),
    decreases ws.len(),
{
    if ws.len() > 0 {
        lemma_count_tok_all_le(ws.drop_last(), t);
        lemma_count_tok_le(ws.last(), t);
    }
}

/// An empty table: no sequences counted yet.
pub(crate) fn new_freq() -> (m: FxHashMap<String, u64>)
    ensures
        freq_exact(token_counts(m), Seq::<Seq<Seq<char>>>::empty()),
{
    token_counts_new()
}

/// Counts one more token sequence into the table.
pub(crate) fn add_tokens(m: &mut FxHashMap<String, u64>, toks: &Vec<String>, Ghost(ws): Ghost<Seq<Seq<Seq<char>>>>)
    requires
        freq_exact(token_counts(*old(m)), ws),
        total_len(ws.push(views(toks@))) <= u64::MAX,
    ensures
        freq_exact(token_counts(*final(m)), ws.push(views(toks@))),
{
    let ghost w = views(toks@);
    let n = toks.len();
    proof {
        assert(w.take(0) =~= Seq::<Seq<char>>::empty());
        assert(ws.push(w).drop_last() =~= ws);
    }
    for i in 0..n
        invariant
            n == toks@.len(),
            w == views(toks@),
            total_len(ws.push(w)) <= u64::MAX,
            ws.push(w).drop_last() == ws,
            ws.push(w).last() == w,
            forall|t: Seq<char>| #[trigger] tok_count(token_counts(*m), t) == count_tok_all(ws, t) + count_tok(
                w.take(i as int),
                t,
            ),
            forall|t: Seq<char>| #[trigger] token_counts(*m).contains_key(t) ==> token_counts(*m)[t] > 0,
    {
        let tok = &toks[i];
        let c = match token_counts_get(m, tok.as_str()) {
            Some(c) => c,
            None => 0,
        };
        let ghost before = token_counts(*m);
        proof {
            let t = tok@;
            assert(w.take(i + 1).drop_last() =~= w.take(i as int));
            assert(w.take(i + 1).last() == t);
            assert(tok_count(before, t) == c);
            lemma_count_tok_all_le(ws.push(w), t);
            assert(count_tok_all(ws.push(w), t) == count_tok_all(ws, t) + count_tok(w, t));
            lemma_count_tok_prefix_le(w, i + 1, t);
        }
        token_counts_insert(m, tok.clone(), c + 1);
        proof {
            assert forall|t: Seq<char>| #[trigger] tok_count(token_counts(*m), t) == count_tok_all(ws, t)
                + count_tok(w.take(i + 1), t) by {
                assert(tok_count(before, t) == count_tok_all(ws, t) + count_tok(w.take(i as int), t));
                assert(w.take(i + 1).drop_last() =~= w.take(i as int));
            }
        }
    }
    proof {
        assert(w.take(n as int) =~= w);
    }
}

/// Token sequences by their chars.
pub open spec fn seq_views(seqs: Seq<Vec<String>>) -> Seq<Seq<Seq<char>>> {
    seqs.map_values(|v: Vec<String>| views(v@))
}

/// How often each token occurs over the given token sequences.
pub fn count_tokens(seqs: &[Vec<String>]) -> (m: FxHashMap<String, u64>)
    requires
        total_len(seq_views(seqs@)) <= u64::MAX,
    ensures
        freq_exact(token_counts(m), seq_views(seqs@)),
{
    let ghost ws = seq_views(seqs@);
    let mut m = new_freq();
    let n = seqs.len();
    proof {
        assert(ws.take(0) =~= Seq::<Seq<Seq<char>>>::empty());
    }
    for i in 0..n
        invariant
            n == seqs@.len(),
            ws == seq_views(seqs@),
            total_len(ws) <= u64::MAX,
            freq_exact(token_counts(m), ws.take(i as int)),
    {
        proof {
            assert(ws.take(i + 1) =~= ws.take(i as int).push(views(seqs@[i as int]@)));
            assert(ws =~= ws.take(i + 1) + ws.skip(i + 1));
            crate::pairs::lemma_total_len_add(ws.take(i + 1), ws.skip(i + 1));
        }
        add_tokens(&mut m, &seqs[i], Ghost(ws.take(i as int)));
    }
    proof {
        assert(ws.take(n as int) =~= ws);
    }
    m
}

proof fn lemma_count_tok_prefix_le(w: Seq<Seq<char>>, k: int, t: Seq<char>)
    requires
        0 <= k <= w.len(),
    ensures
        count_tok(w.take(k), t) <= count_tok(w, t),
    decreases w.len() - k,
{
    if k < w.len() {
        lemma_count_tok_prefix_le(w, k + 1, t);
        assert(w.take(k + 1).drop_last() =~= w.take(k));
    } else {
        assert(w.take(k) =~= w);
    }
}

} // verus!
