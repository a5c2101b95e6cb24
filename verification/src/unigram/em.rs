//! The integer decisions of Unigram EM training: which tokens are protected
//! from pruning, and which tokens a pruning round removes.  Each token's
//! pruning score (`|count * log_prob|`, a non-negative float) arrives as an
//! order-preserving integer key.

use vstd::prelude::*;
use crate::sorting::sort_key_index;
use crate::text::chars_of;

verus! {

/// A protected token: a single char, or a special token starting with `<`.
pub open spec fn protected_token(t: Seq<char>) -> bool {
    t.len() == 1 || (t.len() > 0 && t[0] == '<')
}

/// Whether the token is protected from pruning.
pub fn is_protected(token: &str) -> (b: bool)
    ensures
        b == protected_token(token@),
{
    let cs = chars_of(token);
    cs.len() == 1 || (cs.len() > 0 && cs[0] == '<')
}

/// Entry `a` goes first: a smaller key, or the same key and a smaller index.
pub open spec fn key_index_before(a: (u64, usize), b: (u64, usize)) -> bool {
    a.0 < b.0 || (a.0 == b.0 && a.1 < b.1)
}

/// The number of marked tokens.
pub open spec fn count_marked(m: Seq<bool>) -> nat
    decreases m.len(),
{
    if m.len() == 0 {
        0
    } else {
        count_marked(m.drop_last()) + (if m.last() { 1nat } else { 0nat })
    }
}

/// `mask` marks the tokens a pruning round removes: the `n` unprotected
/// tokens with the smallest keys (ties by index), or every unprotected token
/// when there are fewer.
pub open spec fn is_prune_mask(mask: Seq<bool>, keys: Seq<u64>, protected: Seq<bool>, n: nat) -> bool {
    &&& mask.len() == keys.len()
    &&& forall|i: int| 0 <= i < mask.len() && #[trigger] mask[i] ==> !protected[i]
    &&& count_marked(mask) <= n
    &&& count_marked(mask) == n || forall|i: int| 0 <= i < mask.len() && !protected[i] ==> #[trigger] mask[i]
    &&& forall|i: int, j: int|
        0 <= i < mask.len() && 0 <= j < mask.len() && #[trigger] mask[i] && !protected[j] && !#[trigger] mask[j]
            ==> key_index_before((keys[i], i as usize), (keys[j], j as usize))
}

proof fn lemma_count_marked_set(m: Seq<bool>, i: int)
    requires
        0 <= i < m.len(),
        !m[i],
    ensures
        count_marked(m.update(i, true)) == count_marked(m) + 1,
    decreases m.len(),
{
    let u = m.update(i, true);
    if i < m.len() - 1 {
        assert(u.drop_last() =~= m.drop_last().update(i, true));
        lemma_count_marked_set(m.drop_last(), i);
    } else {
        assert(u.drop_last() =~= m.drop_last());
    }
}

proof fn lemma_count_marked_none(m: Seq<bool>)
    requires
        forall|i: int| 0 <= i < m.len() ==> !m[i],
    ensures
        count_marked(m) == 0,
    decreases m.len(),
{
    if m.len() > 0 {
        lemma_count_marked_none(m.drop_last());
    }
}

/// Chooses the tokens to prune: walking the tokens by increasing key (ties
/// by index), the first `n_to_remove` unprotected ones are marked.
pub fn prune_mask(keys: &Vec<u64>, protected: &Vec<bool>, n_to_remove: usize) -> (mask: Vec<bool>)
    requires
        keys@.len() == protected@.len(),
    ensures
        is_prune_mask(mask@, keys@, protected@, n_to_remove as nat),
{
    let n = keys.len();
    let mut order: Vec<(u64, usize)> = Vec::new();
    for i in 0..n
        invariant
            n == keys@.len(),
            order@.len() == i,
            forall|k: int| 0 <= k < i ==> #[trigger] order@[k] == (keys@[k], k as usize),
    {
        order.push((keys[i], i));
    }
    let ghost o0 = order@;
    proof {
        assert(o0.no_duplicates());
        o0.lemma_multiset_has_no_duplicates();
    }
    sort_key_index(&mut order);
    proof {
        broadcast use vstd::seq_lib::group_to_multiset_ensures;
        let o = order@;
        assert forall|x: (u64, usize)| o.to_multiset().contains(x) implies o.to_multiset().count(x) == 1 by {
            assert(o0.to_multiset().contains(x));
        }
        o.lemma_multiset_has_no_duplicates_conv();
        assert forall|x: (u64, usize)| #[trigger] o.contains(x) <==> o0.contains(x) by {
            assert(o.contains(x) <==> o.to_multiset().count(x) > 0);
            assert(o0.contains(x) <==> o0.to_multiset().count(x) > 0);
        }
        assert(o.to_multiset().len() == o.len());
        assert(o0.to_multiset().len() == o0.len());
        assert forall|q: int| 0 <= q < o.len() implies (#[trigger] o[q]).1 < n by {
            assert(o.contains(o[q]));
            let k = choose|k: int| 0 <= k < o0.len() && o0[k] == o[q];
            assert(o0[k] == (keys@[k], k as usize));
        }
    }
    let ghost o = order@;
    let mut mask: Vec<bool> = Vec::new();
    for i in 0..n
        invariant
            mask@.len() == i,
            forall|k: int| 0 <= k < i ==> !#[trigger] mask@[k],
    {
        mask.push(false);
    }
    proof {
        lemma_count_marked_none(mask@);
    }
    let mut removed: usize = 0;
    let mut p: usize = 0;
    while p < n && removed < n_to_remove
        invariant
            n == keys@.len(),
            n == protected@.len(),
            o == order@,
            o.len() == n,
            o.no_duplicates(),
            forall|x: (u64, usize)| #[trigger] o.contains(x) <==> o0.contains(x),
            forall|k: int| 0 <= k < n ==> #[trigger] o0[k] == (keys@[k], k as usize),
            o0.len() == n,
            forall|q: int| 0 <= q < n ==> (#[trigger] o[q]).1 < n,
            forall|a: int, b: int| 0 <= a < b < o.len() ==> !key_index_before(o[b], o[a]),
            p <= n,
            mask@.len() == n,
            removed <= n_to_remove,
            removed == count_marked(mask@),
            forall|k: int| 0 <= k < n && #[trigger] mask@[k] ==> !protected@[k] && exists|q: int|
                0 <= q < p && o[q].1 == k,
            forall|q: int| 0 <= q < p && !protected@[o[q].1 as int] ==> #[trigger] mask@[o[q].1 as int],
        decreases n - p,
    {
        let i = order[p].1;
        let ghost old_mask = mask@;
        proof {
            assert(o.contains(o[p as int]));
            let k0 = choose|k: int| 0 <= k < o0.len() && o0[k] == o[p as int];
            assert(o0[k0] == (keys@[k0], k0 as usize));
            assert(i < n);
        }
        if !protected[i] {
            proof {
                if mask@[i as int] {
                    let q = choose|q: int| 0 <= q < p && o[q].1 == i;
                    assert(o.contains(o[q]));
                    let kq = choose|k: int| 0 <= k < o0.len() && o0[k] == o[q];
                    assert(o0[kq] == (keys@[kq], kq as usize));
                    assert(o[q] == o[p as int]);
                }
                lemma_count_marked_set(mask@, i as int);
            }
            mask.set(i, true);
            removed += 1;
        }
        p += 1;
        proof {
            assert forall|q: int| 0 <= q < p && !protected@[o[q].1 as int] implies #[trigger] mask@[o[q].1 as int] by {
                if q < p - 1 {
                    assert(old_mask[o[q].1 as int]);
                }
            }
        }
    }
    proof {
        let m = mask@;
        // every index sits at some position of the sorted order
        assert forall|j: int| #![trigger keys@[j]] 0 <= j < n implies exists|q: int| 0 <= q < n && #[trigger] o[q] == (keys@[j], j as usize) by {
            assert(o0[j] == (keys@[j], j as usize));
            assert(o0.contains(o0[j]));
            assert(o.contains(o0[j]));
        }
        if removed < n_to_remove {
            assert forall|j: int| 0 <= j < n && !protected@[j] implies #[trigger] m[j] by {
                let q = choose|q: int| 0 <= q < n && #[trigger] o[q] == (keys@[j], j as usize);
                assert(o[q].1 == j);
            }
        }
        assert forall|i: int, j: int|
            0 <= i < n && 0 <= j < n && #[trigger] m[i] && !protected@[j] && !#[trigger] m[j] implies key_index_before(
                (keys@[i], i as usize),
                (keys@[j], j as usize),
            ) by {
            let qi = choose|q: int| 0 <= q < p && o[q].1 == i;
            let qj = choose|q: int| 0 <= q < n && #[trigger] o[q] == (keys@[j], j as usize);
            assert(o.contains(o[qi]));
            let ki = choose|k: int| 0 <= k < o0.len() && o0[k] == o[qi];
            assert(o0[ki] == (keys@[ki], ki as usize));
            assert(o[qi] == (keys@[i], i as usize));
            if qj < p {
                assert(o[qj].1 == j);
            }
            assert(qi < qj);
            assert(!key_index_before(o[qj], o[qi]));
            assert(o[qi] != o[qj]);
        }
    }
    mask
}

/// The entries whose mask is not set, in order.
pub open spec fn unmasked<T>(v: Seq<T>, mask: Seq<bool>) -> Seq<T>
    decreases v.len(),
{
    if v.len() == 0 {
        seq![]
    } else if mask[v.len() - 1] {
        unmasked(v.drop_last(), mask)
    } else {
        unmasked(v.drop_last(), mask).push(v.last())
    }
}

/// Keeps the entries whose mask is not set, in order.
pub fn keep_unmasked<T: Copy>(v: &Vec<T>, mask: &Vec<bool>) -> (r: Vec<T>)
    requires
        v@.len() == mask@.len(),
    ensures
        r@ == unmasked(v@, mask@),
{
    let mut r: Vec<T> = Vec::new();
    let n = v.len();
    for i in 0..n
        invariant
            n == v@.len(),
            n == mask@.len(),
            r@ == unmasked(v@.take(i as int), mask@),
    {
        proof {
            assert(v@.take(i + 1).drop_last() =~= v@.take(i as int));
            assert(v@.take(i + 1).last() == v@[i as int]);
        }
        if !mask[i] {
            r.push(v[i]);
        }
    }
    proof {
        assert(v@.take(n as int) =~= v@);
    }
    r
}

/// Keeps the tokens whose mask is not set, in order.
pub fn keep_unmasked_tokens(v: &Vec<String>, mask: &Vec<bool>) -> (r: Vec<String>)
    requires
        v@.len() == mask@.len(),
    ensures
        r@ == unmasked(v@, mask@),
{
    let mut r: Vec<String> = Vec::new();
    let n = v.len();
    for i in 0..n
        invariant
            n == v@.len(),
            n == mask@.len(),
            r@ == unmasked(v@.take(i as int), mask@),
    {
        proof {
            assert(v@.take(i + 1).drop_last() =~= v@.take(i as int));
            assert(v@.take(i + 1).last() == v@[i as int]);
        }
        if !mask[i] {
            r.push(v[i].clone());
        }
    }
    proof {
        assert(v@.take(n as int) =~= v@);
    }
    r
}

/// Pruning removes exactly the marked tokens: as many are kept as are not marked.
pub proof fn law_kept_count<T>(v: Seq<T>, mask: Seq<bool>)
    requires
        v.len() == mask.len(),
    ensures
        unmasked(v, mask).len() + count_marked(mask) == v.len(),
    decreases v.len(),
{
    if v.len() > 0 {
        law_kept_count(v.drop_last(), mask.drop_last());
        lemma_unmasked_prefix(v.drop_last(), mask);
    }
}

/// Only the mask's entries up to the length of the list matter.
proof fn lemma_unmasked_prefix<T>(v: Seq<T>, mask: Seq<bool>)
    requires
        v.len() < mask.len(),
    ensures
        unmasked(v, mask) == unmasked(v, mask.drop_last()),
    decreases v.len(),
{
    if v.len() > 0 {
        lemma_unmasked_prefix(v.drop_last(), mask);
    }
}

} // verus!
