//! Recovering a segmentation from a Viterbi lattice: `back[end]` holds the
//! start of the best piece ending at `end`, and the path is read back from
//! the end of the sentence.

use vstd::prelude::*;

verus! {

/// Every back pointer points strictly backwards.
pub open spec fn backwards(back: Seq<Option<usize>>) -> bool {
    forall|e: int| 0 <= e < back.len() ==> (#[trigger] back[e] matches Some(s) ==> s < e)
}

/// The pieces read back from `pos`: while the position has a back pointer,
/// the piece from its start to the position, preceded by the pieces read
/// back from that start.  Reading stops at position 0 or at a position with
/// no back pointer.
pub open spec fn back_chain(back: Seq<Option<usize>>, pos: int) -> Seq<(usize, usize)>
    decreases pos,
{
    if pos <= 0 || pos >= back.len() {
        seq![]
    } else {
        match back[pos] {
            Some(s) => if s < pos {
                back_chain(back, s as int).push((s, pos as usize))
            } else {
                seq![]
            },
            None => seq![],
        }
    }
}

/// The pieces of the path ending at `end`, in sentence order.
pub fn back_path(back: &Vec<Option<usize>>, end: usize) -> (path: Vec<(usize, usize)>)
    requires
        end < back@.len(),
        backwards(back@),
    ensures
        path@ == back_chain(back@, end as int),
{
    let mut rev: Vec<(usize, usize)> = Vec::new();
    let mut pos = end;
    let ghost mut suffix: Seq<(usize, usize)> = seq![];
    loop
        invariant
            pos <= end < back@.len(),
            backwards(back@),
            back_chain(back@, end as int) == back_chain(back@, pos as int) + suffix,
            rev@ == suffix.reverse(),
        ensures
            pos == 0 || back@[pos as int] is None,
        decreases pos,
    {
        if pos == 0 {
            break;
        }
        match back[pos] {
            Some(s) => {
                proof {
                    assert(back@[pos as int] matches Some(x) ==> x < pos);
                    let c = back_chain(back@, s as int);
                    assert(back_chain(back@, pos as int) == c.push((s, pos)));
                    assert(c.push((s, pos)) + suffix =~= c + (seq![(s, pos)] + suffix));
                    assert((seq![(s, pos)] + suffix).reverse() =~= suffix.reverse().push((s, pos)));
                    suffix = seq![(s, pos)] + suffix;
                }
                rev.push((s, pos));
                pos = s;
            },
            None => {
                break;
            },
        }
    }
    proof {
        assert(back_chain(back@, pos as int) =~= Seq::<(usize, usize)>::empty());
        assert(Seq::<(usize, usize)>::empty() + suffix =~= suffix);
    }
    let mut path: Vec<(usize, usize)> = Vec::new();
    let k = rev.len();
    for j in 0..k
        invariant
            k == rev@.len(),
            rev@ == suffix.reverse(),
            path@ == suffix.take(j as int),
    {
        path.push(rev[k - 1 - j]);
        proof {
            assert(suffix.take(j + 1) =~= suffix.take(j as int).push(suffix[j as int]));
            assert(rev@[k - 1 - j] == suffix[j as int]);
        }
    }
    proof {
        assert(suffix.take(k as int) =~= suffix);
    }
    path
}

/// The pieces read back tile a stretch of the sentence that ends at `pos`:
/// each piece is non-empty, each ends where the next begins, and the last
/// ends at `pos`; the first starts at 0 or at a position with no back pointer.
pub proof fn law_back_chain_tiles(back: Seq<Option<usize>>, pos: int)
    requires
        backwards(back),
        0 <= pos < back.len() <= usize::MAX,
    ensures
        forall|k: int| 0 <= k < back_chain(back, pos).len() ==> (#[trigger] back_chain(back, pos)[k]).0 < back_chain(back, pos)[k].1,
        forall|k: int|
            0 <= k < back_chain(back, pos).len() - 1 ==> (#[trigger] back_chain(back, pos)[k]).1 == back_chain(back, pos)[k + 1].0,
        back_chain(back, pos).len() > 0 ==> back_chain(back, pos).last().1 == pos,
        back_chain(back, pos).len() > 0 ==> {
            let s = back_chain(back, pos)[0].0;
            s == 0 || back[s as int] is None
        },
    decreases pos,
{
    if pos > 0 {
        if let Some(s) = back[pos] {
            assert(back[pos] matches Some(x) ==> x < pos);
            law_back_chain_tiles(back, s as int);
            let c = back_chain(back, s as int);
            let p = c.push((s, pos as usize));
            assert(back_chain(back, pos) == p);
            assert forall|k: int| 0 <= k < p.len() - 1 implies (#[trigger] p[k]).1 == p[k + 1].0 by {
                if k < c.len() - 1 {
                    assert(p[k] == c[k] && p[k + 1] == c[k + 1]);
                } else {
                    assert(p[k] == c.last());
                }
            }
            if c.len() == 0 {
                if s > 0 {
                    assert(back[s as int] is None || back_chain(back, s as int).len() > 0);
                }
            } else {
                assert(p[0] == c[0]);
            }
        }
    }
}

} // verus!
