//! Applying a merge rule: every left-to-right, non-overlapping occurrence
//! of the adjacent pair `(a, b)` in a token sequence becomes one token.

use vstd::prelude::*;
use crate::text::{views};

verus! {

/// One merge pass over a token sequence, scanning left to right: an
/// occurrence of `a` followed by `b` becomes `m`, and scanning resumes after it.
pub open spec fn merge_seq<T>(w: Seq<T>, a: T, b: T, m: T) -> Seq<T>
    decreases w.len(),
{
    if w.len() < 2 {
        w
    } else if w[0] == a && w[1] == b {
        seq![m] + merge_seq(w.skip(2), a, b, m)
    } else {
        seq![w[0]] + merge_seq(w.skip(1), a, b, m)
    }
}

/// Number of positions `i` with `w[i] == a` and `w[i + 1] == b`.
pub open spec fn occ_pairs<T>(w: Seq<T>, a: T, b: T) -> nat
    decreases w.len(),
{
    if w.len() < 2 {
        0
    } else {
        occ_pairs(w.drop_last(), a, b) + (if w[w.len() - 2] == a && w[w.len() - 1] == b {
            1nat
        } else {
            0nat
        })
    }
}

/// A merge pass never makes a sequence longer, and makes it shorter as soon
/// as the pair occurs.
pub proof fn lemma_merge_len<T>(w: Seq<T>, a: T, b: T, m: T)
    ensures
        merge_seq(w, a, b, m).len() <= w.len(),
        occ_pairs(w, a, b) > 0 ==> merge_seq(w, a, b, m).len() < w.len(),
    decreases w.len(),
{
    if w.len() >= 2 {
        lemma_merge_len(w.skip(2), a, b, m);
        lemma_merge_len(w.skip(1), a, b, m);
        if occ_pairs(w, a, b) > 0 && !(w[0] == a && w[1] == b) {
            lemma_occ_first(w, a, b);
        }
    }
}

/// Counting pairs from the front: the first window plus the rest.
pub proof fn lemma_occ_first<T>(w: Seq<T>, a: T, b: T)
    requires
        w.len() >= 2,
    ensures
        occ_pairs(w, a, b) == occ_pairs(w.skip(1), a, b) + (if w[0] == a && w[1] == b {
            1nat
        } else {
            0nat
        }),
    decreases w.len(),
{
    if w.len() == 2 {
        assert(w.drop_last().len() == 1);
        assert(w.skip(1).len() == 1);
        assert(occ_pairs(w.skip(1), a, b) == 0);
        assert(occ_pairs(w.drop_last(), a, b) == 0);
    } else {
        lemma_occ_first(w.drop_last(), a, b);
        let t = w.skip(1);
        assert(w.drop_last().skip(1) =~= t.drop_last());
        assert(t[t.len() - 2] == w[w.len() - 2]);
        assert(t[t.len() - 1] == w[w.len() - 1]);
        assert(w.drop_last()[0] == w[0]);
        assert(w.drop_last()[1] == w[1]);
    }
}

/// Applying a map that is injective on the items involved commutes with merging.
pub proof fn lemma_merge_map<T, U>(w: Seq<T>, a: T, b: T, m: T, f: spec_fn(T) -> U, dom: spec_fn(T) -> bool)
    requires
        forall|i: int| 0 <= i < w.len() ==> dom(#[trigger] w[i]),
        dom(a),
        dom(b),
        forall|x: T, y: T| #![trigger f(x), f(y)] dom(x) && dom(y) && f(x) == f(y) ==> x == y,
    ensures
        merge_seq(w, a, b, m).map_values(f) == merge_seq(w.map_values(f), f(a), f(b), f(m)),
    decreases w.len(),
{
    let fw = w.map_values(f);
    if w.len() >= 2 {
        assert(fw.skip(2) =~= w.skip(2).map_values(f));
        assert(fw.skip(1) =~= w.skip(1).map_values(f));
        assert(dom(w[0]) && dom(w[1]));
        lemma_merge_map(w.skip(2), a, b, m, f, dom);
        lemma_merge_map(w.skip(1), a, b, m, f, dom);
        assert(fw[0] == f(w[0]));
        assert(fw[1] == f(w[1]));
        if w[0] == a && w[1] == b {
            assert((seq![m] + merge_seq(w.skip(2), a, b, m)).map_values(f) =~= seq![f(m)]
                + merge_seq(w.skip(2), a, b, m).map_values(f));
        } else {
            assert((seq![w[0]] + merge_seq(w.skip(1), a, b, m)).map_values(f) =~= seq![f(w[0])]
                + merge_seq(w.skip(1), a, b, m).map_values(f));
        }
    } else {
        assert(merge_seq(w, a, b, m).map_values(f) =~= fw);
    }
}

/// Merging `a` and `b` into their concatenation keeps the concatenation of
/// all tokens unchanged.
pub proof fn lemma_merge_flatten(w: Seq<Seq<char>>, a: Seq<char>, b: Seq<char>)
    ensures
        merge_seq(w, a, b, a + b).flatten() == w.flatten(),
    decreases w.len(),
{
    if w.len() >= 2 {
        lemma_merge_flatten(w.skip(2), a, b);
        lemma_merge_flatten(w.skip(1), a, b);
        lemma_flatten_cons(w[0], w.skip(1));
        assert(w =~= seq![w[0]] + w.skip(1));
        lemma_flatten_cons(w[1], w.skip(2));
        assert(w.skip(1) =~= seq![w[1]] + w.skip(2));
        if w[0] == a && w[1] == b {
            lemma_flatten_cons(a + b, merge_seq(w.skip(2), a, b, a + b));
            assert(a + b + w.skip(2).flatten() =~= a + (b + w.skip(2).flatten()));
        } else {
            lemma_flatten_cons(w[0], merge_seq(w.skip(1), a, b, a + b));
        }
    }
}

/// Flattening a sequence with one more item in front.
pub proof fn lemma_flatten_cons(x: Seq<char>, s: Seq<Seq<char>>)
    ensures
        (seq![x] + s).flatten() == x + s.flatten(),
{
    let t = seq![x] + s;
    assert(t.first() == x);
    assert(t.drop_first() =~= s);
}

/// Merges one word of token ids in place, two pointers over the same vector.
pub(crate) fn merge_word(w: &mut Vec<u32>, left: u32, right: u32, merged: u32)
    ensures
        final(w)@ == merge_seq(old(w)@, left, right, merged),
{
    let ghost orig = w@;
    let n = w.len();
    if n < 2 {
        return;
    }
    let mut write: usize = 0;
    let mut read: usize = 0;
    proof {
        assert(orig.skip(0) =~= orig);
        assert(w@.take(0) =~= Seq::<u32>::empty());
    }
    while read < n
        invariant
            n == orig.len(),
            w@.len() == n,
            write <= read <= n,
            forall|k: int| read <= k < n ==> w@[k] == orig[k],
            w@.take(write as int) + merge_seq(orig.skip(read as int), left, right, merged)
                == merge_seq(orig, left, right, merged),
        decreases n - read,
    {
        let ghost rest = orig.skip(read as int);
        if read + 1 < n && w[read] == left && w[read + 1] == right {
            proof {
                assert(rest[0] == orig[read as int]);
                assert(rest[1] == orig[read + 1]);
                assert(rest.skip(2) =~= orig.skip(read + 2));
            }
            w.set(write, merged);
            proof {
                assert(w@.take(write + 1) =~= old_take_push(w@, write as int));
            }
            write += 1;
            read += 2;
        } else {
            let x = w[read];
            proof {
                assert(rest[0] == x);
                assert(rest.skip(1) =~= orig.skip(read + 1));
                if rest.len() < 2 {
                    assert(rest =~= seq![x]);
                    assert(orig.skip(read + 1).len() == 0);
                }
            }
            w.set(write, x);
            write += 1;
            read += 1;
        }
        proof {
            assert(w@.take(write as int) =~= w@.take(write - 1).push(w@[write - 1]));
        }
    }
    proof {
        assert(orig.skip(n as int).len() == 0);
    }
    w.truncate(write);
}

/// Merges one word of string tokens in place: every left-to-right
/// occurrence of `left` followed by `right` becomes `merged`.
pub(crate) fn merge_tokens(seq: &mut Vec<String>, left: &String, right: &String, merged: &String)
    ensures
        views(final(seq)@) == merge_seq(views(old(seq)@), left@, right@, merged@),
{
    let ghost orig = views(seq@);
    let n = seq.len();
    let mut write: usize = 0;
    let mut read: usize = 0;
    proof {
        assert(orig.skip(0) =~= orig);
        assert(views(seq@).take(0) =~= Seq::<Seq<char>>::empty());
    }
    while read < n
        invariant
            n == orig.len(),
            seq@.len() == n,
            write <= read <= n,
            forall|k: int| read <= k < n ==> seq@[k]@ == orig[k],
            views(seq@).take(write as int) + merge_seq(orig.skip(read as int), left@, right@, merged@)
                == merge_seq(orig, left@, right@, merged@),
        decreases n - read,
    {
        let ghost rest = orig.skip(read as int);
        if read + 1 < n && seq[read] == *left && seq[read + 1] == *right {
            proof {
                assert(rest[0] == orig[read as int]);
                assert(rest[1] == orig[read + 1]);
                assert(rest.skip(2) =~= orig.skip(read + 2));
            }
            seq.set(write, merged.clone());
            write += 1;
            read += 2;
        } else {
            let x = seq[read].clone();
            proof {
                assert(rest[0] == x@);
                assert(rest.skip(1) =~= orig.skip(read + 1));
                if rest.len() < 2 {
                    assert(rest =~= seq![x@]);
                    assert(orig.skip(read + 1).len() == 0);
                }
            }
            seq.set(write, x);
            write += 1;
            read += 1;
        }
        proof {
            assert(views(seq@).take(write as int) =~= views(seq@).take(write - 1).push(seq@[write - 1]@));
        }
    }
    proof {
        assert(orig.skip(n as int).len() == 0);
    }
    seq.truncate(write);
}

/// The prefix of `s` of length `k + 1`.
spec fn old_take_push(s: Seq<u32>, k: int) -> Seq<u32> {
    s.take(k).push(s[k])
}

} // verus!
