//! Reading a training corpus from text: one entry per line, each line
//! trimmed of white space, empty lines and lines starting with `#` skipped,
//! optionally only the first entries kept.  A word list keeps the first
//! white-space-separated word of each line.

use vstd::prelude::*;
use crate::text::{chars_of, string_of, views};

verus! {

/// The Unicode `White_Space` property, as `char::is_whitespace` documents it.
pub open spec fn white_space(c: char) -> bool {
    ||| '\t' <= c <= '\r'
    ||| c == ' '
    ||| c == '\u{85}'
    ||| c == '\u{a0}'
    ||| c == '\u{1680}'
    ||| '\u{2000}' <= c <= '\u{200a}'
    ||| c == '\u{2028}'
    ||| c == '\u{2029}'
    ||| c == '\u{202f}'
    ||| c == '\u{205f}'
    ||| c == '\u{3000}'
}

/// The text without its leading white space.
pub open spec fn trim_start(s: Seq<char>) -> Seq<char>
    decreases s.len(),
{
    if s.len() > 0 && white_space(s[0]) {
        trim_start(s.skip(1))
    } else {
        s
    }
}

/// The text without its trailing white space.
pub open spec fn trim_end(s: Seq<char>) -> Seq<char>
    decreases s.len(),
{
    if s.len() > 0 && white_space(s.last()) {
        trim_end(s.drop_last())
    } else {
        s
    }
}

/// The text without leading and trailing white space.
pub open spec fn trim(s: Seq<char>) -> Seq<char> {
    trim_end(trim_start(s))
}

/// The text cut at each `\n`: the pieces between newlines, the last one
/// after the last newline (possibly empty).
pub open spec fn split_lines(s: Seq<char>) -> Seq<Seq<char>>
    decreases s.len(),
{
    if s.len() == 0 {
        seq![seq![]]
    } else {
        let p = split_lines(s.drop_last());
        if s.last() == '\n' {
            p.push(seq![])
        } else {
            p.update(p.len() - 1, p.last().push(s.last()))
        }
    }
}

/// A trimmed line is kept: it is not empty and does not start with `#`.
pub open spec fn kept(l: Seq<char>) -> bool {
    l.len() > 0 && l[0] != '#'
}

/// The kept lines, trimmed.
pub open spec fn useful(ls: Seq<Seq<char>>) -> Seq<Seq<char>>
    decreases ls.len(),
{
    if ls.len() == 0 {
        seq![]
    } else if kept(trim(ls.last())) {
        useful(ls.drop_last()).push(trim(ls.last()))
    } else {
        useful(ls.drop_last())
    }
}

/// The chars before the first white space.
pub open spec fn first_word(l: Seq<char>) -> Seq<char>
    decreases l.len(),
{
    if l.len() == 0 || white_space(l[0]) {
        seq![]
    } else {
        seq![l[0]] + first_word(l.skip(1))
    }
}

/// At most `max` entries, when a maximum is given.
pub open spec fn at_most(s: Seq<Seq<char>>, max: Option<usize>) -> Seq<Seq<char>> {
    match max {
        Some(m) => if m < s.len() {
            s.take(m as int)
        } else {
            s
        },
        None => s,
    }
}

/// The sentences of a corpus text: its kept lines, trimmed.
pub open spec fn text_sentences(text: Seq<char>, max: Option<usize>) -> Seq<Seq<char>> {
    at_most(useful(split_lines(text)), max)
}

/// The words of a word-list text: the first word of each kept line.
pub open spec fn text_words(text: Seq<char>, max: Option<usize>) -> Seq<Seq<char>> {
    at_most(useful(split_lines(text)).map_values(|l: Seq<char>| first_word(l)), max)
}

/// Whether `c` is white space, as `char::is_whitespace` answers.
pub fn is_white_space(c: char) -> (b: bool)
    ensures
        b == white_space(c),
{
    ('\t' <= c && c <= '\r') || c == ' ' || c == '\u{85}' || c == '\u{a0}' || c == '\u{1680}' || ('\u{2000}' <= c
        && c <= '\u{200a}') || c == '\u{2028}' || c == '\u{2029}' || c == '\u{202f}' || c == '\u{205f}' || c
        == '\u{3000}'
}

proof fn lemma_trim_start(s: Seq<char>, k: int)
    requires
        0 <= k <= s.len(),
        forall|j: int| 0 <= j < k ==> white_space(#[trigger] s[j]),
        k == s.len() || !white_space(s[k]),
    ensures
        trim_start(s) == s.skip(k),
    decreases k,
{
    if k == 0 {
        assert(s.skip(0) =~= s);
    } else {
        let t = s.skip(1);
        assert forall|j: int| 0 <= j < k - 1 implies white_space(#[trigger] t[j]) by {
            assert(t[j] == s[j + 1]);
        }
        lemma_trim_start(t, k - 1);
        assert(t.skip(k - 1) =~= s.skip(k));
    }
}

proof fn lemma_trim_end(s: Seq<char>, k: int)
    requires
        0 <= k <= s.len(),
        forall|j: int| k <= j < s.len() ==> white_space(#[trigger] s[j]),
        k == 0 || !white_space(s[k - 1]),
    ensures
        trim_end(s) == s.take(k),
    decreases s.len() - k,
{
    if k == s.len() {
        assert(s.take(k) =~= s);
    } else {
        let t = s.drop_last();
        assert forall|j: int| k <= j < t.len() implies white_space(#[trigger] t[j]) by {
            assert(t[j] == s[j]);
        }
        lemma_trim_end(t, k);
        assert(t.take(k) =~= s.take(k));
    }
}

/// The line without leading and trailing white space.
fn trimmed(line: &Vec<char>) -> (r: Vec<char>)
    ensures
        r@ == trim(line@),
{
    let n = line.len();
    let mut lo: usize = 0;
    while lo < n && is_white_space(line[lo])
        invariant
            lo <= n,
            n == line@.len(),
            forall|j: int| 0 <= j < lo ==> white_space(#[trigger] line@[j]),
        decreases n - lo,
    {
        lo += 1;
    }
    let mut hi: usize = n;
    while hi > lo && is_white_space(line[hi - 1])
        invariant
            lo <= hi <= n,
            n == line@.len(),
            forall|j: int| hi <= j < n ==> white_space(#[trigger] line@[j]),
        decreases hi - lo,
    {
        hi -= 1;
    }
    let mut r: Vec<char> = Vec::new();
    let mut i = lo;
    while i < hi
        invariant
            lo <= i <= hi <= n,
            n == line@.len(),
            r@ == line@.subrange(lo as int, i as int),
        decreases hi - i,
    {
        r.push(line[i]);
        i += 1;
        proof {
            assert(r@ =~= line@.subrange(lo as int, i as int));
        }
    }
    proof {
        lemma_trim_start(line@, lo as int);
        let t = line@.skip(lo as int);
        let k = hi - lo;
        assert forall|j: int| k <= j < t.len() implies white_space(#[trigger] t[j]) by {
            assert(t[j] == line@[j + lo]);
        }
        if k > 0 {
            assert(t[k - 1] == line@[hi - 1]);
        }
        lemma_trim_end(t, k as int);
        assert(t.take(k as int) =~= line@.subrange(lo as int, hi as int));
    }
    r
}

proof fn lemma_first_word(s: Seq<char>, k: int)
    requires
        0 <= k <= s.len(),
        forall|j: int| 0 <= j < k ==> !white_space(#[trigger] s[j]),
        k == s.len() || white_space(s[k]),
    ensures
        first_word(s) == s.take(k),
    decreases k,
{
    if k == 0 {
        assert(s.take(0) =~= Seq::<char>::empty());
    } else {
        let t = s.skip(1);
        assert forall|j: int| 0 <= j < k - 1 implies !white_space(#[trigger] t[j]) by {
            assert(t[j] == s[j + 1]);
        }
        lemma_first_word(t, k - 1);
        assert(seq![s[0]] + t.take(k - 1) =~= s.take(k));
    }
}

/// The chars of the line before its first white space.
fn first_word_of(line: &Vec<char>) -> (r: Vec<char>)
    ensures
        r@ == first_word(line@),
{
    let n = line.len();
    let mut r: Vec<char> = Vec::new();
    let mut i: usize = 0;
    while i < n && !is_white_space(line[i])
        invariant
            i <= n,
            n == line@.len(),
            r@ == line@.take(i as int),
            forall|j: int| 0 <= j < i ==> !white_space(#[trigger] line@[j]),
        decreases n - i,
    {
        r.push(line[i]);
        i += 1;
        proof {
            assert(r@ =~= line@.take(i as int));
        }
    }
    proof {
        lemma_first_word(line@, i as int);
    }
    r
}

proof fn lemma_split_lines_nonempty(s: Seq<char>)
    ensures
        split_lines(s).len() >= 1,
    decreases s.len(),
{
    if s.len() > 0 {
        lemma_split_lines_nonempty(s.drop_last());
    }
}

/// The kept lines of the text, trimmed, as rows of chars.
fn useful_rows(text: &str) -> (rows: Vec<Vec<char>>)
    ensures
        rows@.map_values(|r: Vec<char>| r@) == useful(split_lines(text@)),
{
    let cs = chars_of(text);
    let n = cs.len();
    let mut rows: Vec<Vec<char>> = Vec::new();
    let mut cur: Vec<char> = Vec::new();
    proof {
        assert(cs@.take(0) =~= Seq::<char>::empty());
        assert(rows@.map_values(|r: Vec<char>| r@) =~= Seq::<Seq<char>>::empty());
    }
    for i in 0..n
        invariant
            n == cs@.len(),
            cs@ == text@,
            split_lines(cs@.take(i as int)).len() >= 1,
            cur@ == split_lines(cs@.take(i as int)).last(),
            rows@.map_values(|r: Vec<char>| r@) == useful(split_lines(cs@.take(i as int)).drop_last()),
    {
        let ghost p = split_lines(cs@.take(i as int));
        let c = cs[i];
        proof {
            assert(cs@.take(i + 1).drop_last() =~= cs@.take(i as int));
            assert(cs@.take(i + 1).last() == c);
        }
        if c == '\n' {
            let t = trimmed(&cur);
            let ghost old_rows = rows@.map_values(|r: Vec<char>| r@);
            proof {
                let q = split_lines(cs@.take(i + 1));
                assert(q == p.push(seq![]));
                assert(q.drop_last() =~= p);
                assert(p.drop_last().push(p.last()) =~= p);
                assert(p.drop_last() =~= p.drop_last());
            }
            if t.len() > 0 && t[0] != '#' {
                rows.push(t);
                proof {
                    assert(rows@.map_values(|r: Vec<char>| r@) =~= old_rows.push(trim(p.last())));
                    assert(p.drop_last() =~= p.drop_last());
                    assert(useful(p) == useful(p.drop_last()).push(trim(p.last())));
                }
            } else {
                proof {
                    assert(useful(p) == useful(p.drop_last()));
                }
            }
            cur = Vec::new();
            proof {
                let q = split_lines(cs@.take(i + 1));
                assert(cur@ =~= q.last());
            }
        } else {
            cur.push(c);
            proof {
                let q = split_lines(cs@.take(i + 1));
                assert(q == p.update(p.len() - 1, p.last().push(c)));
                assert(q.drop_last() =~= p.drop_last());
                assert(cur@ == q.last());
            }
        }
    }
    proof {
        assert(cs@.take(n as int) =~= cs@);
    }
    let t = trimmed(&cur);
    let ghost p = split_lines(cs@);
    let ghost old_rows = rows@.map_values(|r: Vec<char>| r@);
    if t.len() > 0 && t[0] != '#' {
        rows.push(t);
        proof {
            assert(rows@.map_values(|r: Vec<char>| r@) =~= old_rows.push(trim(p.last())));
        }
    }
    rows
}

/// The rows to keep under an optional maximum.
fn kept_count(n: usize, max: Option<usize>) -> (k: usize)
    ensures
        k == (match max {
            Some(m) => if m < n { m } else { n },
            None => n,
        }),
{
    match max {
        Some(m) => if m < n { m } else { n },
        None => n,
    }
}

/// The sentences of a corpus text: each line trimmed of white space, empty
/// lines and lines starting with `#` skipped, at most `max_lines` of them.
pub fn corpus_sentences(text: &str, max_lines: Option<usize>) -> (r: Vec<String>)
    ensures
        views(r@) == text_sentences(text@, max_lines),
{
    let rows = useful_rows(text);
    let ghost u = useful(split_lines(text@));
    let k = kept_count(rows.len(), max_lines);
    let mut out: Vec<String> = Vec::new();
    for i in 0..k
        invariant
            k <= rows@.len(),
            rows@.map_values(|r: Vec<char>| r@) == u,
            views(out@) == u.take(i as int),
    {
        let s = string_of(rows[i].as_slice());
        let ghost old_out = out@;
        proof {
            assert(u[i as int] == rows@[i as int]@);
            assert(s@ == u[i as int]);
        }
        out.push(s);
        proof {
            assert(views(out@) =~= views(old_out).push(u[i as int]));
            assert(u.take(i + 1) =~= u.take(i as int).push(u[i as int]));
        }
    }
    proof {
        assert(u.len() == rows@.len());
        if k == u.len() {
            assert(u.take(k as int) =~= u);
        }
    }
    out
}

/// The words of a word-list text: the first word of each line that is kept
/// (not empty once trimmed, not starting with `#`), at most `max_words`.
pub fn corpus_words(text: &str, max_words: Option<usize>) -> (r: Vec<String>)
    ensures
        views(r@) == text_words(text@, max_words),
{
    let rows = useful_rows(text);
    let ghost u = useful(split_lines(text@)).map_values(|l: Seq<char>| first_word(l));
    let k = kept_count(rows.len(), max_words);
    let mut out: Vec<String> = Vec::new();
    for i in 0..k
        invariant
            k <= rows@.len(),
            rows@.map_values(|r: Vec<char>| r@) == useful(split_lines(text@)),
            u == useful(split_lines(text@)).map_values(|l: Seq<char>| first_word(l)),
            views(out@) == u.take(i as int),
    {
        let w = first_word_of(&rows[i]);
        let s = string_of(w.as_slice());
        let ghost old_out = out@;
        proof {
            assert(useful(split_lines(text@))[i as int] == rows@[i as int]@);
            assert(s@ == u[i as int]);
        }
        out.push(s);
        proof {
            assert(views(out@) =~= views(old_out).push(u[i as int]));
            assert(u.take(i + 1) =~= u.take(i as int).push(u[i as int]));
        }
    }
    proof {
        assert(u.len() == rows@.len());
        if k == u.len() {
            assert(u.take(k as int) =~= u);
        }
    }
    out
}

proof fn lemma_trim_ends(s: Seq<char>)
    ensures
        trim(s).len() > 0 ==> !white_space(trim(s)[0]) && !white_space(trim(s).last()),
    decreases s.len(),
{
    lemma_trim_start_first(s);
    lemma_trim_end_last(trim_start(s));
    lemma_trim_end_prefix(trim_start(s));
}

proof fn lemma_trim_start_first(s: Seq<char>)
    ensures
        trim_start(s).len() > 0 ==> !white_space(trim_start(s)[0]),
    decreases s.len(),
{
    if s.len() > 0 && white_space(s[0]) {
        lemma_trim_start_first(s.skip(1));
    }
}

proof fn lemma_trim_end_last(s: Seq<char>)
    ensures
        trim_end(s).len() > 0 ==> !white_space(trim_end(s).last()),
    decreases s.len(),
{
    if s.len() > 0 && white_space(s.last()) {
        lemma_trim_end_last(s.drop_last());
    }
}

/// Trimming the end keeps a prefix of the text.
proof fn lemma_trim_end_prefix(s: Seq<char>)
    ensures
        trim_end(s).len() <= s.len(),
        trim_end(s) == s.take(trim_end(s).len() as int),
    decreases s.len(),
{
    if s.len() > 0 && white_space(s.last()) {
        lemma_trim_end_prefix(s.drop_last());
        assert(s.drop_last().take(trim_end(s).len() as int) =~= s.take(trim_end(s).len() as int));
    } else {
        assert(s.take(s.len() as int) =~= s);
    }
}

proof fn lemma_useful_kept(ls: Seq<Seq<char>>)
    ensures
        forall|i: int|
            0 <= i < useful(ls).len() ==> kept(#[trigger] useful(ls)[i]) && !white_space(useful(ls)[i][0])
                && !white_space(useful(ls)[i].last()),
    decreases ls.len(),
{
    if ls.len() > 0 {
        lemma_useful_kept(ls.drop_last());
        lemma_trim_ends(ls.last());
        let u = useful(ls);
        let p = useful(ls.drop_last());
        assert forall|i: int| 0 <= i < u.len() implies kept(#[trigger] u[i]) && !white_space(u[i][0])
            && !white_space(u[i].last()) by {
            if i < p.len() {
                assert(u[i] == p[i]);
            }
        }
    }
}

/// Every sentence read from a corpus text is non-empty, does not start with
/// `#`, and has no white space at either end.
pub proof fn law_sentences_are_trimmed_kept_lines(text: Seq<char>, max: Option<usize>)
    ensures
        forall|i: int|
            0 <= i < text_sentences(text, max).len() ==> {
                let s = #[trigger] text_sentences(text, max)[i];
                &&& s.len() > 0
                &&& s[0] != '#'
                &&& !white_space(s[0])
                &&& !white_space(s.last())
            },
{
    let u = useful(split_lines(text));
    lemma_useful_kept(split_lines(text));
    assert forall|i: int| 0 <= i < text_sentences(text, max).len() implies {
        let s = #[trigger] text_sentences(text, max)[i];
        &&& s.len() > 0
        &&& s[0] != '#'
        &&& !white_space(s[0])
        &&& !white_space(s.last())
    } by {
        assert(text_sentences(text, max)[i] == u[i]);
    }
}

proof fn lemma_first_word_props(l: Seq<char>)
    ensures
        forall|k: int| 0 <= k < first_word(l).len() ==> !white_space(#[trigger] first_word(l)[k]),
        first_word(l).len() <= l.len(),
        first_word(l) == l.take(first_word(l).len() as int),
        l.len() > 0 && !white_space(l[0]) ==> first_word(l).len() > 0,
    decreases l.len(),
{
    if l.len() > 0 && !white_space(l[0]) {
        lemma_first_word_props(l.skip(1));
        let r = first_word(l.skip(1));
        assert(first_word(l) == seq![l[0]] + r);
        assert forall|k: int| 0 <= k < first_word(l).len() implies !white_space(#[trigger] first_word(l)[k]) by {
            if k > 0 {
                assert(first_word(l)[k] == r[k - 1]);
            }
        }
        assert(seq![l[0]] + l.skip(1).take(r.len() as int) =~= l.take(r.len() as int + 1));
    } else {
        assert(l.take(0) =~= Seq::<char>::empty());
    }
}

/// Every word read from a word-list text is a non-empty run of non-white
/// chars that begins a kept line, so it does not start with `#`.
pub proof fn law_words_are_first_words_of_kept_lines(text: Seq<char>, max: Option<usize>)
    ensures
        forall|i: int|
            0 <= i < text_words(text, max).len() ==> {
                let w = #[trigger] text_words(text, max)[i];
                &&& w.len() > 0
                &&& w[0] != '#'
                &&& forall|k: int| 0 <= k < w.len() ==> !white_space(#[trigger] w[k])
            },
{
    let u = useful(split_lines(text));
    lemma_useful_kept(split_lines(text));
    assert forall|i: int| 0 <= i < text_words(text, max).len() implies {
        let w = #[trigger] text_words(text, max)[i];
        &&& w.len() > 0
        &&& w[0] != '#'
        &&& forall|k: int| 0 <= k < w.len() ==> !white_space(#[trigger] w[k])
    } by {
        let l = u[i];
        assert(text_words(text, max)[i] == first_word(l));
        lemma_first_word_props(l);
        assert(kept(l));
        assert(first_word(l)[0] == l[0]);
    }
}

} // verus!
