//! The `rustc_hash` hash map as the trainers use it: `FxHashMap` is std's
//! `HashMap` with the `FxBuildHasher` of `rustc_hash`.  Verus sees nothing
//! inside such a map, so each instantiation that the library uses gets a
//! name for its contents and small trusted wrappers around std's methods.
//! Their contracts state std's documented map behaviour: `insert` sets the
//! value of a key, `get` reads it, iteration visits every entry once.  Keys
//! are compared by `Eq`, which for `String` and `char` is equality of
//! contents, so string keys are stated by their views.

use vstd::prelude::*;
use rustc_hash::{FxBuildHasher, FxHashMap};

verus! {

#[verifier::external_type_specification]
#[verifier::external_body]
pub struct ExFxBuildHasher(FxBuildHasher);

// ---------------------------------------------------------------- pair -> count

/// Contents of a table from packed pairs to counts.
pub uninterp spec fn pair_table(m: FxHashMap<u64, u64>) -> Map<u64, u64>;

/// `FxHashMap::default()`: an empty table.
#[verifier::external_body]
pub(crate) fn pair_table_new() -> (m: FxHashMap<u64, u64>)
    ensures
        pair_table(m).dom().is_empty(),
{
    FxHashMap::default()
}

/// `HashMap::get` with the value copied out.
#[verifier::external_body]
pub(crate) fn pair_table_get(m: &FxHashMap<u64, u64>, k: u64) -> (r: Option<u64>)
    ensures
        r matches Some(v) ==> pair_table(*m).contains_key(k) && pair_table(*m)[k] == v,
        r is None ==> !pair_table(*m).contains_key(k),
{
    m.get(&k).copied()
}

/// `HashMap::insert`: the key now has the value.
#[verifier::external_body]
pub(crate) fn pair_table_insert(m: &mut FxHashMap<u64, u64>, k: u64, v: u64)
    ensures
        pair_table(*final(m)) == pair_table(*old(m)).insert(k, v),
{
    m.insert(k, v);
}

/// `HashMap::iter`, each entry copied out, in the map's own order.
#[verifier::external_body]
pub(crate) fn pair_table_entries(m: &FxHashMap<u64, u64>) -> (v: Vec<(u64, u64)>)
    ensures
        forall|i: int| 0 <= i < v@.len() ==> pair_table(*m).contains_key(#[trigger] v@[i].0),
        forall|i: int| 0 <= i < v@.len() ==> pair_table(*m)[#[trigger] v@[i].0] == v@[i].1,
        forall|k: u64| #[trigger] pair_table(*m).contains_key(k) ==> exists|i: int|
            0 <= i < v@.len() && v@[i].0 == k,
        forall|i: int, j: int| 0 <= i < j < v@.len() ==> v@[i].0 != v@[j].0,
{
    m.iter().map(|(k, c)| (*k, *c)).collect()
}

// ---------------------------------------------------------------- id -> count

/// Contents of a table from token ids to counts.
pub uninterp spec fn id_table(m: FxHashMap<u32, u64>) -> Map<u32, u64>;

/// `FxHashMap::default()`: an empty table.
#[verifier::external_body]
pub(crate) fn id_table_new() -> (m: FxHashMap<u32, u64>)
    ensures
        id_table(m).dom().is_empty(),
{
    FxHashMap::default()
}

/// `HashMap::get` with the value copied out.
#[verifier::external_body]
pub(crate) fn id_table_get(m: &FxHashMap<u32, u64>, k: u32) -> (r: Option<u64>)
    ensures
        r matches Some(v) ==> id_table(*m).contains_key(k) && id_table(*m)[k] == v,
        r is None ==> !id_table(*m).contains_key(k),
{
    m.get(&k).copied()
}

/// `HashMap::insert`: the key now has the value.
#[verifier::external_body]
pub(crate) fn id_table_insert(m: &mut FxHashMap<u32, u64>, k: u32, v: u64)
    ensures
        id_table(*final(m)) == id_table(*old(m)).insert(k, v),
{
    m.insert(k, v);
}

/// `HashMap::iter`, each entry copied out, in the map's own order.
#[verifier::external_body]
pub(crate) fn id_table_entries(m: &FxHashMap<u32, u64>) -> (v: Vec<(u32, u64)>)
    ensures
        forall|i: int| 0 <= i < v@.len() ==> id_table(*m).contains_key(#[trigger] v@[i].0),
        forall|i: int| 0 <= i < v@.len() ==> id_table(*m)[#[trigger] v@[i].0] == v@[i].1,
        forall|k: u32| #[trigger] id_table(*m).contains_key(k) ==> exists|i: int|
            0 <= i < v@.len() && v@[i].0 == k,
        forall|i: int, j: int| 0 <= i < j < v@.len() ==> v@[i].0 != v@[j].0,
{
    m.iter().map(|(k, c)| (*k, *c)).collect()
}

// ---------------------------------------------------------------- token -> id

/// Contents of a table from token strings (by their chars) to ids.
pub uninterp spec fn token_ids(m: FxHashMap<String, u32>) -> Map<Seq<char>, u32>;

/// `FxHashMap::default()`: an empty table.
#[verifier::external_body]
pub(crate) fn token_ids_new() -> (m: FxHashMap<String, u32>)
    ensures
        token_ids(m).dom().is_empty(),
{
    FxHashMap::default()
}

/// `HashMap::get` by string contents, with the id copied out.
#[verifier::external_body]
pub(crate) fn token_ids_get(m: &FxHashMap<String, u32>, k: &str) -> (r: Option<u32>)
    ensures
        r matches Some(v) ==> token_ids(*m).contains_key(k@) && token_ids(*m)[k@] == v,
        r is None ==> !token_ids(*m).contains_key(k@),
{
    m.get(k).copied()
}

/// `HashMap::insert`: the string's contents now map to the id.
#[verifier::external_body]
pub(crate) fn token_ids_insert(m: &mut FxHashMap<String, u32>, k: String, v: u32)
    ensures
        token_ids(*final(m)) == token_ids(*old(m)).insert(k@, v),
{
    m.insert(k, v);
}

// ---------------------------------------------------------------- token -> count

/// Contents of a table from token strings (by their chars) to counts.
pub uninterp spec fn token_counts(m: FxHashMap<String, u64>) -> Map<Seq<char>, u64>;

/// `FxHashMap::default()`: an empty table.
#[verifier::external_body]
pub(crate) fn token_counts_new() -> (m: FxHashMap<String, u64>)
    ensures
        token_counts(m).dom().is_empty(),
{
    FxHashMap::default()
}

/// `HashMap::get` by string contents, with the count copied out.
#[verifier::external_body]
pub(crate) fn token_counts_get(m: &FxHashMap<String, u64>, k: &str) -> (r: Option<u64>)
    ensures
        r matches Some(v) ==> token_counts(*m).contains_key(k@) && token_counts(*m)[k@] == v,
        r is None ==> !token_counts(*m).contains_key(k@),
{
    m.get(k).copied()
}

/// `HashMap::insert`: the string's contents now map to the count.
#[verifier::external_body]
pub(crate) fn token_counts_insert(m: &mut FxHashMap<String, u64>, k: String, v: u64)
    ensures
        token_counts(*final(m)) == token_counts(*old(m)).insert(k@, v),
{
    m.insert(k, v);
}

/// `HashMap::iter`, each entry copied out, in the map's own order.
#[verifier::external_body]
pub(crate) fn token_counts_entries(m: &FxHashMap<String, u64>) -> (v: Vec<(String, u64)>)
    ensures
        forall|i: int| 0 <= i < v@.len() ==> token_counts(*m).contains_key(#[trigger] v@[i].0@),
        forall|i: int| 0 <= i < v@.len() ==> token_counts(*m)[#[trigger] v@[i].0@] == v@[i].1,
        forall|k: Seq<char>| #[trigger] token_counts(*m).contains_key(k) ==> exists|i: int|
            0 <= i < v@.len() && v@[i].0@ == k,
        forall|i: int, j: int| 0 <= i < j < v@.len() ==> v@[i].0@ != v@[j].0@,
{
    m.iter().map(|(k, c)| (k.clone(), *c)).collect()
}

// ---------------------------------------------------------------- char -> count

/// Contents of a table from chars to counts.
pub uninterp spec fn char_table(m: FxHashMap<char, u64>) -> Map<char, u64>;

/// `FxHashMap::default()`: an empty table.
#[verifier::external_body]
pub(crate) fn char_table_new() -> (m: FxHashMap<char, u64>)
    ensures
        char_table(m).dom().is_empty(),
{
    FxHashMap::default()
}

/// `HashMap::get` with the value copied out.
#[verifier::external_body]
pub(crate) fn char_table_get(m: &FxHashMap<char, u64>, k: char) -> (r: Option<u64>)
    ensures
        r matches Some(v) ==> char_table(*m).contains_key(k) && char_table(*m)[k] == v,
        r is None ==> !char_table(*m).contains_key(k),
{
    m.get(&k).copied()
}

/// `HashMap::insert`: the key now has the value.
#[verifier::external_body]
pub(crate) fn char_table_insert(m: &mut FxHashMap<char, u64>, k: char, v: u64)
    ensures
        char_table(*final(m)) == char_table(*old(m)).insert(k, v),
{
    m.insert(k, v);
}

/// `HashMap::iter`, each entry copied out, in the map's own order.
#[verifier::external_body]
pub(crate) fn char_table_entries(m: &FxHashMap<char, u64>) -> (v: Vec<(char, u64)>)
    ensures
        forall|i: int| 0 <= i < v@.len() ==> char_table(*m).contains_key(#[trigger] v@[i].0),
        forall|i: int| 0 <= i < v@.len() ==> char_table(*m)[#[trigger] v@[i].0] == v@[i].1,
        forall|k: char| #[trigger] char_table(*m).contains_key(k) ==> exists|i: int|
            0 <= i < v@.len() && v@[i].0 == k,
        forall|i: int, j: int| 0 <= i < j < v@.len() ==> v@[i].0 != v@[j].0,
{
    m.iter().map(|(k, c)| (*k, *c)).collect()
}

} // verus!
