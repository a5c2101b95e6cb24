//! Sentence normalization: runs of blanks become one `▁` marker in front
//! of each word.

use vstd::prelude::*;
use crate::text::{chars_of, push_char};

verus! {

/// The word-start marker U+2581.
pub open spec fn marker() -> char {
    '\u{2581}'
}

/// Space and tab separate words.
pub open spec fn is_blank(c: char) -> bool {
    c == ' ' || c == '\t'
}

/// Normalizes the rest of a sentence; `prev_blank` tells whether the char
/// before it was a blank (or the sentence starts here).
pub open spec fn normalize_from(s: Seq<char>, prev_blank: bool) -> Seq<char>
    decreases s.len(),
{
    if s.len() == 0 {
        seq![]
    } else if is_blank(s[0]) {
        normalize_from(s.drop_first(), true)
    } else if prev_blank {
        seq![marker(), s[0]] + normalize_from(s.drop_first(), false)
    } else {
        seq![s[0]] + normalize_from(s.drop_first(), false)
    }
}

/// The normalized sentence: blanks removed, `▁` in front of every word.
pub open spec fn spec_normalize(s: Seq<char>) -> Seq<char> {
    normalize_from(s, true)
}

/// Occurrences of `c` in `s`.
pub open spec fn count_char(s: Seq<char>, c: char) -> nat
    decreases s.len(),
{
    if s.len() == 0 {
        0
    } else {
        (if s[0] == c { 1nat } else { 0nat }) + count_char(s.drop_first(), c)
    }
}

/// Number of words (maximal runs of non-blank chars) in the rest of a
/// sentence, `prev_blank` as in [`normalize_from`].
pub open spec fn word_count_from(s: Seq<char>, prev_blank: bool) -> nat
    decreases s.len(),
{
    if s.len() == 0 {
        0
    } else if is_blank(s[0]) {
        word_count_from(s.drop_first(), true)
    } else {
        (if prev_blank { 1nat } else { 0nat }) + word_count_from(s.drop_first(), false)
    }
}

/// Number of blank-separated words of a sentence.
pub open spec fn word_count(s: Seq<char>) -> nat {
    word_count_from(s, true)
}

/// Occurrences in a concatenation add up.
pub proof fn lemma_count_char_add(a: Seq<char>, b: Seq<char>, c: char)
    ensures
        count_char(a + b, c) == count_char(a, c) + count_char(b, c),
    decreases a.len(),
{
    if a.len() > 0 {
        lemma_count_char_add(a.drop_first(), b, c);
        assert((a + b).drop_first() =~= a.drop_first() + b);
    } else {
        assert(a + b =~= b);
    }
}

proof fn lemma_normalize_from_props(s: Seq<char>, prev: bool)
    ensures
        forall|i: int| 0 <= i < normalize_from(s, prev).len() ==> !is_blank(#[trigger] normalize_from(s, prev)[i]),
        prev && normalize_from(s, prev).len() > 0 ==> normalize_from(s, prev)[0] == marker(),
        count_char(normalize_from(s, prev), marker()) == word_count_from(s, prev) + count_char(s, marker()),
        normalize_from(s, prev).len() == 0 <==> (forall|i: int| 0 <= i < s.len() ==> is_blank(#[trigger] s[i])),
    decreases s.len(),
{
    if s.len() > 0 {
        let t = s.drop_first();
        lemma_normalize_from_props(t, true);
        lemma_normalize_from_props(t, false);
        if !is_blank(s[0]) {
            let head = if prev { seq![marker(), s[0]] } else { seq![s[0]] };
            lemma_count_char_add(head, normalize_from(t, false), marker());
            assert(count_char(seq![s[0]], marker()) == (if s[0] == marker() { 1nat } else { 0nat })) by {
                assert(seq![s[0]].drop_first() =~= Seq::<char>::empty());
                assert(count_char(Seq::<char>::empty(), marker()) == 0);
            }
            if prev {
                assert(seq![marker(), s[0]].drop_first() =~= seq![s[0]]);
            }
            assert forall|i: int| 0 <= i < normalize_from(s, prev).len() implies !is_blank(
                #[trigger] normalize_from(s, prev)[i],
            ) by {
                if i >= head.len() {
                    assert(normalize_from(s, prev)[i] == normalize_from(t, false)[i - head.len()]);
                }
            }
        } else {
            assert forall|i: int| 0 <= i < t.len() && (forall|j: int| 0 <= j < s.len() ==> is_blank(#[trigger] s[j]))
                implies is_blank(#[trigger] t[i]) by {
                assert(t[i] == s[i + 1]);
            }
            assert forall|j: int| 0 <= j < s.len() && (forall|i: int| 0 <= i < t.len() ==> is_blank(#[trigger] t[i]))
                implies is_blank(#[trigger] s[j]) by {
                if j > 0 {
                    assert(s[j] == t[j - 1]);
                }
            }
        }
    }
}

/// A normalized sentence holds no space and no tab.
pub proof fn law_normalized_has_no_blanks(s: Seq<char>)
    ensures
        forall|i: int| 0 <= i < spec_normalize(s).len() ==> !is_blank(#[trigger] spec_normalize(s)[i]),
{
    lemma_normalize_from_props(s, true);
}

/// A normalized sentence that is not empty starts with the marker.
pub proof fn law_normalized_starts_with_marker(s: Seq<char>)
    ensures
        spec_normalize(s).len() > 0 ==> spec_normalize(s)[0] == marker(),
{
    lemma_normalize_from_props(s, true);
}

/// Normalization adds exactly one marker per word.
pub proof fn law_one_marker_per_word(s: Seq<char>)
    ensures
        count_char(spec_normalize(s), marker()) == word_count(s) + count_char(s, marker()),
{
    lemma_normalize_from_props(s, true);
}

/// A sentence normalizes to nothing exactly when it is all blanks.
pub proof fn law_normalized_empty_iff_blank(s: Seq<char>)
    ensures
        spec_normalize(s).len() == 0 <==> (forall|i: int| 0 <= i < s.len() ==> is_blank(#[trigger] s[i])),
{
    lemma_normalize_from_props(s, true);
}

/// Normalizes a sentence: spaces and tabs are dropped and each word gets
/// one `▁` in front of it.
/// `"  hello  world  "` becomes `"▁hello▁world"`.
pub fn normalize_sentence(sentence: &str) -> (r: String)
    ensures
        r@ == spec_normalize(sentence@),
{
    let cs = chars_of(sentence);
    let mut result = String::new();
    let mut prev_was_space = true;
    let n = cs.len();
    proof {
        assert(cs@.skip(0) =~= cs@);
    }
    for i in 0..n
        invariant
            n == cs@.len(),
            cs@ == sentence@,
            result@ + normalize_from(cs@.skip(i as int), prev_was_space) == spec_normalize(sentence@),
    {
        let c = cs[i];
        let ghost rest = cs@.skip(i as int);
        proof {
            assert(rest[0] == c);
            assert(rest.drop_first() =~= cs@.skip(i + 1));
        }
        if c == ' ' || c == '\t' {
            prev_was_space = true;
        } else {
            let ghost before = result@;
            let ghost prev0 = prev_was_space;
            if prev_was_space {
                push_char(&mut result, '\u{2581}');
                prev_was_space = false;
            }
            push_char(&mut result, c);
            proof {
                assert(result@ + normalize_from(cs@.skip(i + 1), false) =~= before
                    + normalize_from(rest, prev0));
            }
        }
    }
    proof {
        assert(cs@.skip(n as int) =~= Seq::<char>::empty());
        assert(result@ + Seq::<char>::empty() =~= result@);
    }
    result
}

} // verus!
