use crate::atom::Atom;
use ahash::HashMap;
use vstd::prelude::*;

verus! {

/// `ahash`'s hasher state, carried through as it is.
#[verifier::external_type_specification]
#[verifier::external_body]
pub struct ExAhashRandomState(ahash::RandomState);

/// The entries of an alias map. Keys are compared by the derived `Eq` and hashed by the
/// derived `Hash` of `Atom`, which compare and hash the tree structurally, so the map is a
/// finite map over atoms. The order in which it is walked is the map's own and is not stated.
pub uninterp spec fn table_view(t: HashMap<Atom, Atom>) -> Map<Atom, Atom>;

/// `HashMap::default`: the new map is empty.
#[verifier::external_body]
pub(crate) fn table_new() -> (r: HashMap<Atom, Atom>)
    ensures
        table_view(r) =~= Map::empty(),
{
    HashMap::default()
}

/// `HashMap::get`: the definition stored for `k`, if any.
#[verifier::external_body]
pub(crate) fn table_get<'a>(t: &'a HashMap<Atom, Atom>, k: &Atom) -> (r: Option<&'a Atom>)
    ensures
        match r {
            Some(v) => table_view(*t).dom().contains(*k) && *v == table_view(*t)[*k],
            None => !table_view(*t).dom().contains(*k),
        },
{
    t.get(k)
}

/// `HashMap::contains_key`.
#[verifier::external_body]
pub(crate) fn table_contains(t: &HashMap<Atom, Atom>, k: &Atom) -> (r: bool)
    ensures
        r == table_view(*t).dom().contains(*k),
{
    t.contains_key(k)
}

/// `HashMap::insert`: stores `v` under `k` and returns the definition it replaced.
#[verifier::external_body]
pub(crate) fn table_insert(t: &mut HashMap<Atom, Atom>, k: Atom, v: Atom) -> (r: Option<Atom>)
    ensures
        table_view(*final(t)) == table_view(*old(t)).insert(k, v),
        r == (if table_view(*old(t)).dom().contains(k) {
            Some(table_view(*old(t))[k])
        } else {
            None
        }),
{
    t.insert(k, v)
}

/// `HashMap::remove`: removes `k` and returns its definition.
#[verifier::external_body]
pub(crate) fn table_remove(t: &mut HashMap<Atom, Atom>, k: &Atom) -> (r: Option<Atom>)
    ensures
        table_view(*final(t)) == table_view(*old(t)).remove(*k),
        r == (if table_view(*old(t)).dom().contains(*k) {
            Some(table_view(*old(t))[*k])
        } else {
            None
        }),
{
    t.remove(k)
}

/// `HashMap::iter`, each entry copied: every entry once, in the map's own order.
#[verifier::external_body]
pub(crate) fn table_entries(t: &HashMap<Atom, Atom>) -> (r: Vec<(Atom, Atom)>)
    ensures
        r@.len() == table_view(*t).len(),
        forall|i: int|
            0 <= i < r@.len() ==> table_view(*t).dom().contains(#[trigger] r@[i].0) && table_view(
                *t,
            )[r@[i].0] == r@[i].1,
        forall|i: int, j: int| 0 <= i < j < r@.len() ==> r@[i].0 != r@[j].0,
        forall|k: Atom|
            table_view(*t).dom().contains(k) ==> exists|i: int| 0 <= i < r@.len() && #[trigger] r@[i].0 == k,
{
    let mut out = Vec::new();
    for (k, v) in t.iter() {
        out.push((k.clone(), v.clone()));
    }
    out
}

/// `HashMap::clone`: a map with the same entries.
#[verifier::external_body]
pub(crate) fn table_clone(t: &HashMap<Atom, Atom>) -> (r: HashMap<Atom, Atom>)
    ensures
        table_view(r) == table_view(*t),
{
    t.clone()
}

/// The entries of a map from aliases to positions (keys compared and hashed structurally, as
/// for the alias map).
pub uninterp spec fn index_view(t: HashMap<Atom, usize>) -> Map<Atom, usize>;

/// `HashMap::default`: the new map is empty.
#[verifier::external_body]
pub(crate) fn index_new() -> (r: HashMap<Atom, usize>)
    ensures
        index_view(r) =~= Map::empty(),
{
    HashMap::default()
}

/// `HashMap::insert`: records position `v` for `k`.
#[verifier::external_body]
pub(crate) fn index_insert(t: &mut HashMap<Atom, usize>, k: Atom, v: usize)
    ensures
        index_view(*final(t)) == index_view(*old(t)).insert(k, v),
{
    t.insert(k, v);
}

/// `HashMap::get`, the position copied out.
#[verifier::external_body]
pub(crate) fn index_get(t: &HashMap<Atom, usize>, k: &Atom) -> (r: Option<usize>)
    ensures
        match r {
            Some(v) => index_view(*t).dom().contains(*k) && v == index_view(*t)[*k],
            None => !index_view(*t).dom().contains(*k),
        },
{
    t.get(k).copied()
}

} // verus!
