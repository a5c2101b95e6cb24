//! The interning vocabulary of the trainers: token strings with ids given
//! in order of first appearance, and the map back from string to id.

use vstd::prelude::*;
use rustc_hash::FxHashMap;
use crate::fxmap::{token_ids, token_ids_get, token_ids_insert, token_ids_new};
use crate::text::{chars_of, views};

verus! {

/// Token strings by id, their chars, and each string's id.
pub struct Vocab {
    pub strs: Vec<String>,
    pub chars: Vec<Vec<char>>,
    pub by_str: FxHashMap<String, u32>,
}

/// The tokens after interning `s`: unchanged if `s` is there, else `s` appended.
pub open spec fn intern_spec(toks: Seq<Seq<char>>, s: Seq<char>) -> Seq<Seq<char>> {
    if toks.contains(s) {
        toks
    } else {
        toks.push(s)
    }
}

/// Interning every token of `ss`, in order.
pub open spec fn intern_all(toks: Seq<Seq<char>>, ss: Seq<Seq<char>>) -> Seq<Seq<char>>
    decreases ss.len(),
{
    if ss.len() == 0 {
        toks
    } else {
        intern_spec(intern_all(toks, ss.drop_last()), ss.last())
    }
}

/// All tokens of a corpus, sequence after sequence.
pub open spec fn flat_tokens(ws: Seq<Seq<Seq<char>>>) -> Seq<Seq<char>>
    decreases ws.len(),
{
    if ws.len() == 0 {
        seq![]
    } else {
        flat_tokens(ws.drop_last()) + ws.last()
    }
}

/// The map from each token to its index.
pub open spec fn index_map_of(toks: Seq<Seq<char>>, m: Map<Seq<char>, u32>) -> bool {
    &&& forall|s: Seq<char>| #[trigger] m.contains_key(s) <==> toks.contains(s)
    &&& forall|i: int| 0 <= i < toks.len() ==> m[#[trigger] toks[i]] == i
}

impl Vocab {
    /// The tokens, by id.
    pub open spec fn toks(&self) -> Seq<Seq<char>> {
        views(self.strs@)
    }

    /// Ids are indices, strings are distinct, the map and the chars agree.
    pub open spec fn wf(&self) -> bool {
        &&& self.chars@.len() == self.strs@.len()
        &&& forall|i: int| 0 <= i < self.strs@.len() ==> (#[trigger] self.chars@[i])@ == self.strs@[i]@
        &&& self.toks().no_duplicates()
        &&& index_map_of(self.toks(), token_ids(self.by_str))
        &&& self.strs@.len() <= u32::MAX
    }

    pub fn new() -> (v: Self)
        ensures
            v.wf(),
            v.toks() == Seq::<Seq<char>>::empty(),
    {
        let v = Vocab { strs: Vec::new(), chars: Vec::new(), by_str: token_ids_new() };
        proof {
            assert(v.toks() =~= Seq::<Seq<char>>::empty());
        }
        v
    }

    /// The id of `s`, added at the end when it is new.
    pub fn intern(&mut self, s: String) -> (id: u32)
        requires
            old(self).wf(),
            old(self).strs@.len() < u32::MAX,
        ensures
            final(self).wf(),
            final(self).toks() == intern_spec(old(self).toks(), s@),
            id < final(self).toks().len(),
            final(self).toks()[id as int] == s@,
    {
        match token_ids_get(&self.by_str, s.as_str()) {
            Some(id) => {
                proof {
                    let i = self.toks().index_of(s@);
                    assert(self.toks().contains(s@));
                    assert(token_ids(self.by_str)[self.toks()[i]] == i);
                }
                id
            },
            None => {
                let ghost old_toks = self.toks();
                let ghost old_map = token_ids(self.by_str);
                let id = self.strs.len() as u32;
                let cs = chars_of(s.as_str());
                token_ids_insert(&mut self.by_str, s.clone(), id);
                self.strs.push(s);
                self.chars.push(cs);
                proof {
                    assert(self.toks() =~= old_toks.push(s@));
                    assert(!old_toks.contains(s@));
                    assert forall|i: int| 0 <= i < self.strs@.len() implies (#[trigger] self.chars@[i])@
                        == self.strs@[i]@ by {
                        if i < old_toks.len() {
                            assert(self.chars@[i] == old(self).chars@[i]);
                        }
                    }
                    assert forall|x: Seq<char>| #[trigger] token_ids(self.by_str).contains_key(x)
                        <==> self.toks().contains(x) by {
                        assert(old_map.contains_key(x) == old_toks.contains(x));
                        assert(self.toks()[old_toks.len() as int] == s@);
                        if x != s@ && old_toks.contains(x) {
                            let j = old_toks.index_of(x);
                            assert(self.toks()[j] == x);
                        }
                        if self.toks().contains(x) && x != s@ {
                            let j = self.toks().index_of(x);
                            assert(j < old_toks.len());
                            assert(old_toks[j] == x);
                        }
                    }
                    assert forall|i: int| 0 <= i < self.toks().len() implies token_ids(
                        self.by_str,
                    )[#[trigger] self.toks()[i]] == i by {
                        if i < old_toks.len() {
                            assert(self.toks()[i] == old_toks[i]);
                            assert(old_toks[i] != s@);
                        }
                    }
                }
                id
            },
        }
    }
}

/// Interning never removes or renumbers a token: the old tokens keep their
/// ids, the interned token is present, and at most one token is added.
pub proof fn law_interning_keeps_ids(toks: Seq<Seq<char>>, s: Seq<char>)
    ensures
        intern_spec(toks, s).len() <= toks.len() + 1,
        intern_spec(toks, s).take(toks.len() as int) == toks,
        intern_spec(toks, s).contains(s),
{
    if !toks.contains(s) {
        assert(toks.push(s)[toks.len() as int] == s);
    }
    assert(intern_spec(toks, s).take(toks.len() as int) =~= toks);
}

/// A token of one char, or of `##` and one char: the shape of every token
/// before any merge.
pub open spec fn unit_shaped(t: Seq<char>) -> bool {
    t.len() == 1 || (t.len() == 3 && t[0] == '#' && t[1] == '#')
}

proof fn lemma_char_range(c: char)
    ensures
        0 <= (c as int) < 0x110000,
{
    assert((c as u32) <= 0x10FFFF);
}

spec fn unit_code(t: Seq<char>) -> int {
    if t.len() == 1 {
        t[0] as int
    } else {
        0x110000 + (t[2] as int)
    }
}

/// Distinct tokens of one char or of `##` and one char number at most
/// 0x220000: twice the number of chars.
pub proof fn lemma_unit_tokens_bound(toks: Seq<Seq<char>>)
    requires
        toks.no_duplicates(),
        forall|i: int| 0 <= i < toks.len() ==> unit_shaped(#[trigger] toks[i]),
    ensures
        toks.len() <= 0x220000,
{
    let s = toks.map_values(|t: Seq<char>| unit_code(t));
    assert forall|i: int| 0 <= i < s.len() implies 0 <= #[trigger] s[i] < 0x220000 by {
        let t = toks[i];
        assert(s[i] == unit_code(t));
        assert(unit_shaped(t));
        if t.len() == 1 {
            lemma_char_range(t[0]);
        } else {
            lemma_char_range(t[2]);
        }
    }
    assert forall|i: int, j: int| 0 <= i < s.len() && 0 <= j < s.len() && i != j implies s[i] != s[j] by {
        let (t, u) = (toks[i], toks[j]);
        assert(s[i] == unit_code(t) && s[j] == unit_code(u));
        assert(t != u);
        assert(unit_shaped(t) && unit_shaped(u));
        if t.len() == 1 && u.len() == 1 {
            if t[0] == u[0] {
                assert(t =~= u);
            }
        } else if t.len() == 3 && u.len() == 3 {
            if t[2] == u[2] {
                assert(t =~= u);
            }
        } else if t.len() == 1 {
            lemma_char_range(t[0]);
            lemma_char_range(u[2]);
        } else {
            lemma_char_range(u[0]);
            lemma_char_range(t[2]);
        }
    }
    s.unique_seq_to_set();
    vstd::set_lib::lemma_int_range(0, 0x220000);
    assert(s.to_set().subset_of(vstd::set_lib::set_int_range(0, 0x220000)));
    vstd::set_lib::lemma_len_subset(s.to_set(), vstd::set_lib::set_int_range(0, 0x220000));
}

} // verus!
