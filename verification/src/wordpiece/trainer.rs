//! WordPiece pre-tokenization, pair joining and greedy inference.

use vstd::prelude::*;
use rustc_hash::FxHashMap;
use crate::fxmap::{token_ids, token_ids_get};
use crate::text::{chars_of, push_char, views};

verus! {

/// A learned merge: the left and the right token.
pub type MergeRule = (String, String);

/// A trained WordPiece model.
pub struct WordPieceModel {
    /// The vocabulary, in the order the tokens got their ids.
    pub vocab: Vec<String>,
    /// Each vocabulary token to its id.
    pub vocab_set: FxHashMap<String, u32>,
    /// The merges, in the order they were learned.
    pub merge_rules: Vec<MergeRule>,
}

/// The two-char continuation prefix `##`.
pub open spec fn hashes() -> Seq<char> {
    seq!['#', '#']
}

/// The token `[UNK]`.
pub open spec fn unk() -> Seq<char> {
    seq!['[', 'U', 'N', 'K', ']']
}

/// The pre-tokens of a word: its first char, then each further char behind `##`.
pub open spec fn wp_units(cs: Seq<char>) -> Seq<Seq<char>> {
    Seq::new(cs.len(), |i: int| if i == 0 { seq![cs[0]] } else { hashes() + seq![cs[i]] })
}

/// A token without its leading `##`, if it has one.
pub open spec fn strip_hashes(t: Seq<char>) -> Seq<char> {
    if t.len() >= 2 && t[0] == '#' && t[1] == '#' {
        t.skip(2)
    } else {
        t
    }
}

/// The token starts with `##`.
pub open spec fn has_hashes(t: Seq<char>) -> bool {
    t.len() >= 2 && t[0] == '#' && t[1] == '#'
}

/// What continuation tokens spell: each without its `##`, one after the other.
pub open spec fn tail_spell(w: Seq<Seq<char>>) -> Seq<char>
    decreases w.len(),
{
    if w.len() == 0 {
        seq![]
    } else {
        strip_hashes(w[0]) + tail_spell(w.skip(1))
    }
}

/// What a WordPiece token sequence spells: the first token as it is, then
/// each further token without its `##`.
pub open spec fn wp_spell(w: Seq<Seq<char>>) -> Seq<char> {
    if w.len() == 0 {
        seq![]
    } else {
        w[0] + tail_spell(w.skip(1))
    }
}

/// Every token after the first starts with `##`.
pub open spec fn continued(w: Seq<Seq<char>>) -> bool {
    forall|i: int| 1 <= i < w.len() ==> has_hashes(#[trigger] w[i])
}

/// The token that merging `left` and `right` makes.
pub open spec fn wp_join(left: Seq<char>, right: Seq<char>) -> Seq<char> {
    left + strip_hashes(right)
}

/// Splits a word into its first char and `##`-prefixed further chars.
/// `"playing"` becomes `["p", "##l", "##a", "##y", "##i", "##n", "##g"]`.
pub fn wordpiece_pretokenize(word: &str) -> (r: Vec<String>)
    ensures
        views(r@) == wp_units(word@),
{
    let cs = chars_of(word);
    let mut result: Vec<String> = Vec::new();
    for i in 0..cs.len()
        invariant
            views(result@) == wp_units(cs@).take(i as int),
            cs@ == word@,
    {
        let mut t = String::new();
        if i > 0 {
            push_char(&mut t, '#');
            push_char(&mut t, '#');
        }
        push_char(&mut t, cs[i]);
        proof {
            if i == 0 {
                assert(t@ =~= seq![cs@[0]]);
            } else {
                assert(t@ =~= hashes() + seq![cs@[i as int]]);
            }
            assert(t@ == wp_units(cs@)[i as int]);
        }
        result.push(t);
        proof {
            assert(views(result@) =~= views(result@.drop_last()).push(result@.last()@));
            assert(wp_units(cs@).take(i + 1) =~= wp_units(cs@).take(i as int).push(wp_units(cs@)[i as int]));
        }
    }
    proof {
        assert(wp_units(cs@).take(cs@.len() as int) =~= wp_units(cs@));
    }
    result
}

/// Joins two WordPiece tokens, dropping the `##` of the right one:
/// `"p"` and `"##l"` make `"pl"`, `"##a"` and `"##y"` make `"##ay"`.
pub fn merge_wp_tokens(left: &str, right: &str) -> (r: String)
    ensures
        r@ == wp_join(left@, right@),
{
    let rc = chars_of(right);
    let mut out = String::from_str(left);
    let start: usize = if rc.len() >= 2 && rc[0] == '#' && rc[1] == '#' { 2 } else { 0 };
    let ghost base = out@;
    for i in start..rc.len()
        invariant
            start <= rc@.len() || rc@.len() == 0,
            out@ == base + rc@.subrange(start as int, i as int),
            base == left@,
    {
        push_char(&mut out, rc[i]);
        proof {
            assert(rc@.subrange(start as int, i + 1) =~= rc@.subrange(start as int, i as int).push(rc@[i as int]));
        }
    }
    proof {
        if start == 2 {
            assert(rc@.subrange(2, rc@.len() as int) =~= rc@.skip(2));
        } else {
            assert(rc@.subrange(0, rc@.len() as int) =~= rc@);
        }
    }
    out
}

/// The piece of the word from `start` to `end`, behind `##` unless it starts the word.
pub open spec fn wp_piece(cs: Seq<char>, start: int, end: int) -> Seq<char> {
    if start == 0 {
        cs.subrange(0, end)
    } else {
        hashes() + cs.subrange(start, end)
    }
}

/// The largest `e` with `start < e <= end` whose piece is in the vocabulary.
pub open spec fn longest_piece_end(cs: Seq<char>, start: int, end: int, vocab: Set<Seq<char>>) -> Option<int>
    decreases end - start,
{
    if end <= start {
        None
    } else if vocab.contains(wp_piece(cs, start, end)) {
        Some(end)
    } else {
        longest_piece_end(cs, start, end - 1, vocab)
    }
}

/// A longest match ends after its start and within the word.
pub proof fn lemma_longest_piece_end_range(cs: Seq<char>, start: int, end: int, vocab: Set<Seq<char>>)
    ensures
        longest_piece_end(cs, start, end, vocab) matches Some(e) ==> start < e <= end && vocab.contains(
            wp_piece(cs, start, e),
        ),
    decreases end - start,
{
    if end > start && !vocab.contains(wp_piece(cs, start, end)) {
        lemma_longest_piece_end_range(cs, start, end - 1, vocab);
    }
}

/// Greedy longest-match segmentation of the word from `start` on, or
/// `None` when some position has no vocabulary piece.
pub open spec fn greedy_pieces(cs: Seq<char>, start: int, vocab: Set<Seq<char>>) -> Option<Seq<Seq<char>>>
    decreases cs.len() - start,
{
    if start >= cs.len() {
        Some(seq![])
    } else {
        match longest_piece_end(cs, start, cs.len() as int, vocab) {
            None => None,
            Some(e) => {
                proof {
                    lemma_longest_piece_end_range(cs, start, cs.len() as int, vocab);
                }
                match greedy_pieces(cs, e, vocab) {
                    None => None,
                    Some(rest) => Some(seq![wp_piece(cs, start, e)] + rest),
                }
            },
        }
    }
}

/// WordPiece inference on a word: nothing for the empty word, the greedy
/// longest-match pieces when every position has one, else `[UNK]` alone.
pub open spec fn spec_tokenize_word(cs: Seq<char>, vocab: Set<Seq<char>>) -> Seq<Seq<char>> {
    if cs.len() == 0 {
        seq![]
    } else {
        match greedy_pieces(cs, 0, vocab) {
            Some(t) => t,
            None => seq![unk()],
        }
    }
}

/// Greedy tokenization continued from a prefix already produced.
pub open spec fn prefixed(p: Seq<Seq<char>>, r: Option<Seq<Seq<char>>>) -> Option<Seq<Seq<char>>> {
    match r {
        None => None,
        Some(t) => Some(p + t),
    }
}

/// The piece string of `cs[start..end]`, behind `##` unless `start` is 0.
fn piece_string(cs: &Vec<char>, start: usize, end: usize) -> (s: String)
    requires
        start < end <= cs@.len(),
    ensures
        s@ == wp_piece(cs@, start as int, end as int),
{
    let mut s = String::new();
    if start > 0 {
        push_char(&mut s, '#');
        push_char(&mut s, '#');
    }
    let ghost base = s@;
    for i in start..end
        invariant
            start < end <= cs@.len(),
            s@ == base + cs@.subrange(start as int, i as int),
            base == (if start == 0 { Seq::<char>::empty() } else { hashes() }),
    {
        push_char(&mut s, cs[i]);
        proof {
            assert(cs@.subrange(start as int, i + 1) =~= cs@.subrange(start as int, i as int).push(cs@[i as int]));
        }
    }
    proof {
        if start == 0 {
            assert(base + cs@.subrange(0, end as int) =~= cs@.subrange(0, end as int));
        }
    }
    s
}

/// The `[UNK]` token.
fn unk_string() -> (s: String)
    ensures
        s@ == unk(),
{
    let mut s = String::new();
    push_char(&mut s, '[');
    push_char(&mut s, 'U');
    push_char(&mut s, 'N');
    push_char(&mut s, 'K');
    push_char(&mut s, ']');
    proof {
        assert(s@ =~= unk());
    }
    s
}

/// Greedy longest-match inference: from each position take the longest
/// vocabulary piece; `["[UNK]"]` when some position has none.
pub fn tokenize_word(word: &str, model: &WordPieceModel) -> (toks: Vec<String>)
    ensures
        views(toks@) == spec_tokenize_word(word@, token_ids(model.vocab_set).dom()),
{
    let ghost vocab = token_ids(model.vocab_set).dom();
    let chars = chars_of(word);
    let n = chars.len();
    if n == 0 {
        return Vec::new();
    }
    let mut result: Vec<String> = Vec::new();
    let mut start: usize = 0;
    while start < n
        invariant
            n == chars@.len(),
            chars@ == word@,
            start <= n,
            vocab == token_ids(model.vocab_set).dom(),
            greedy_pieces(chars@, 0, vocab) == prefixed(views(result@), greedy_pieces(chars@, start as int, vocab)),
        decreases n - start,
    {
        let mut end = n;
        let mut found = false;
        while !found && end > start
            invariant
                start < n,
                n == chars@.len(),
                start <= end <= n,
                vocab == token_ids(model.vocab_set).dom(),
                !found ==> longest_piece_end(chars@, start as int, n as int, vocab) == longest_piece_end(
                    chars@,
                    start as int,
                    end as int,
                    vocab,
                ),
                found ==> end > start && longest_piece_end(chars@, start as int, n as int, vocab) == Some(
                    end as int,
                ),
            decreases end - start + (if found { 0int } else { 1int }),
        {
            let token = piece_string(&chars, start, end);
            if token_ids_get(&model.vocab_set, token.as_str()).is_some() {
                found = true;
            } else {
                end -= 1;
            }
        }
        if !found {
            proof {
                assert(greedy_pieces(chars@, start as int, vocab) is None);
            }
            let mut unk_only: Vec<String> = Vec::new();
            unk_only.push(unk_string());
            proof {
                assert(views(unk_only@) =~= seq![unk()]);
            }
            return unk_only;
        }
        let token = piece_string(&chars, start, end);
        proof {
            lemma_longest_piece_end_range(chars@, start as int, n as int, vocab);
            let rest = greedy_pieces(chars@, end as int, vocab);
            assert(views(result@.push(token)) =~= views(result@).push(token@));
            match rest {
                Some(r) => {
                    assert(views(result@) + (seq![token@] + r) =~= views(result@).push(token@) + r);
                },
                None => {},
            }
        }
        result.push(token);
        start = end;
    }
    proof {
        assert(views(result@) + Seq::<Seq<char>>::empty() =~= views(result@));
    }
    result
}

/// The pieces found from a later position are continuation tokens that
/// spell the rest of the word.
proof fn lemma_greedy_tail(cs: Seq<char>, start: int, vocab: Set<Seq<char>>)
    requires
        0 < start <= cs.len(),
        greedy_pieces(cs, start, vocab) is Some,
    ensures
        tail_spell(greedy_pieces(cs, start, vocab)->0) == cs.subrange(start, cs.len() as int),
        forall|i: int|
            0 <= i < (greedy_pieces(cs, start, vocab)->0).len() ==> has_hashes(
                #[trigger] (greedy_pieces(cs, start, vocab)->0)[i],
            ),
        forall|i: int|
            0 <= i < (greedy_pieces(cs, start, vocab)->0).len() ==> vocab.contains(
                #[trigger] (greedy_pieces(cs, start, vocab)->0)[i],
            ),
    decreases cs.len() - start,
{
    let t = greedy_pieces(cs, start, vocab)->0;
    if start >= cs.len() {
        assert(t =~= Seq::<Seq<char>>::empty());
        assert(cs.subrange(start, cs.len() as int) =~= Seq::<char>::empty());
    } else {
        lemma_longest_piece_end_range(cs, start, cs.len() as int, vocab);
        let e = longest_piece_end(cs, start, cs.len() as int, vocab)->0;
        lemma_greedy_tail(cs, e, vocab);
        let rest = greedy_pieces(cs, e, vocab)->0;
        let p = wp_piece(cs, start, e);
        assert(t == seq![p] + rest);
        assert(t.skip(1) =~= rest);
        assert(strip_hashes(p) =~= cs.subrange(start, e));
        assert(cs.subrange(start, e) + cs.subrange(e, cs.len() as int) =~= cs.subrange(start, cs.len() as int));
        assert forall|i: int| 0 <= i < t.len() implies has_hashes(#[trigger] t[i]) && vocab.contains(t[i]) by {
            if i > 0 {
                assert(t[i] == rest[i - 1]);
            }
        }
    }
}

/// Greedy pieces spell the word: the first piece as it is, each further
/// piece without its `##`; every piece after the first starts with `##`,
/// and every piece is a vocabulary token.
pub proof fn law_pieces_spell_the_word(cs: Seq<char>, vocab: Set<Seq<char>>)
    requires
        cs.len() > 0,
        greedy_pieces(cs, 0, vocab) is Some,
    ensures
        wp_spell(greedy_pieces(cs, 0, vocab)->0) == cs,
        continued(greedy_pieces(cs, 0, vocab)->0),
        forall|i: int|
            0 <= i < (greedy_pieces(cs, 0, vocab)->0).len() ==> vocab.contains(
                #[trigger] (greedy_pieces(cs, 0, vocab)->0)[i],
            ),
{
    let t = greedy_pieces(cs, 0, vocab)->0;
    lemma_longest_piece_end_range(cs, 0, cs.len() as int, vocab);
    let e = longest_piece_end(cs, 0, cs.len() as int, vocab)->0;
    lemma_greedy_tail(cs, e, vocab);
    let rest = greedy_pieces(cs, e, vocab)->0;
    assert(t == seq![wp_piece(cs, 0, e)] + rest);
    assert(t.skip(1) =~= rest);
    assert(cs.subrange(0, e) + cs.subrange(e, cs.len() as int) =~= cs);
    assert forall|i: int| 0 <= i < t.len() implies vocab.contains(#[trigger] t[i]) && (i >= 1 ==> has_hashes(t[i])) by {
        if i > 0 {
            assert(t[i] == rest[i - 1]);
        }
    }
}

/// A longest match exists once some match does.
proof fn lemma_longest_piece_end_some(cs: Seq<char>, start: int, end: int, e0: int, vocab: Set<Seq<char>>)
    requires
        start < e0 <= end,
        vocab.contains(wp_piece(cs, start, e0)),
    ensures
        longest_piece_end(cs, start, end, vocab) is Some,
    decreases end - start,
{
    if end > e0 && !vocab.contains(wp_piece(cs, start, end)) {
        lemma_longest_piece_end_some(cs, start, end - 1, e0, vocab);
    }
}

proof fn lemma_units_give_pieces(cs: Seq<char>, start: int, vocab: Set<Seq<char>>)
    requires
        0 <= start <= cs.len(),
        forall|j: int| 0 <= j < cs.len() ==> vocab.contains(#[trigger] wp_units(cs)[j]),
    ensures
        greedy_pieces(cs, start, vocab) is Some,
    decreases cs.len() - start,
{
    if start < cs.len() {
        assert(vocab.contains(wp_units(cs)[start]));
        if start == 0 {
            assert(wp_piece(cs, 0, 1) =~= wp_units(cs)[0]);
        } else {
            assert(wp_piece(cs, start, start + 1) =~= wp_units(cs)[start]);
        }
        lemma_longest_piece_end_some(cs, start, cs.len() as int, start + 1, vocab);
        lemma_longest_piece_end_range(cs, start, cs.len() as int, vocab);
        let e = longest_piece_end(cs, start, cs.len() as int, vocab)->0;
        lemma_units_give_pieces(cs, e, vocab);
    }
}

/// A word whose initial pieces (its first char, and `##` with each further
/// char) are all vocabulary tokens is never `[UNK]`: greedy matching always
/// finds pieces for it.
pub proof fn law_known_pieces_never_unknown(cs: Seq<char>, vocab: Set<Seq<char>>)
    requires
        forall|j: int| 0 <= j < cs.len() ==> vocab.contains(#[trigger] wp_units(cs)[j]),
    ensures
        greedy_pieces(cs, 0, vocab) is Some,
        cs.len() > 0 ==> spec_tokenize_word(cs, vocab) == greedy_pieces(cs, 0, vocab)->0,
{
    lemma_units_give_pieces(cs, 0, vocab);
}

} // verus!
