//! The ahash collections that the library keeps its lookups in, as Verus
//! sees them: each map or set is opaque, and a name stands for what it holds.

use vstd::prelude::*;
use ahash::{AHashMap, AHashSet};
use crate::chemistry::ReactionResult;

verus! {

#[verifier::external_type_specification]
#[verifier::external_body]
pub struct ExRandomState(ahash::RandomState);

#[verifier::external_type_specification]
#[verifier::external_body]
#[verifier::reject_recursive_types(K)]
#[verifier::reject_recursive_types(V)]
#[verifier::reject_recursive_types(S)]
pub struct ExAHashMap<K, V, S>(ahash::AHashMap<K, V, S>);

#[verifier::external_type_specification]
#[verifier::external_body]
#[verifier::reject_recursive_types(T)]
#[verifier::reject_recursive_types(S)]
pub struct ExAHashSet<T, S>(ahash::AHashSet<T, S>);

/// The entries of a map from object ids to grid cells.
pub uninterp spec fn id_cells(m: AHashMap<u32, usize>) -> Map<u32, usize>;

/// Relies on `AHashMap::new`: a new map is empty.
#[verifier::external_body]
pub(crate) fn id_cells_new() -> (r: AHashMap<u32, usize>)
    ensures
        id_cells(r).dom().is_empty(),
{
    AHashMap::new()
}

/// Relies on `AHashMap::insert`: the key maps to the value afterwards, and
/// every other entry stays.
#[verifier::external_body]
pub(crate) fn id_cells_insert(m: &mut AHashMap<u32, usize>, k: u32, v: usize)
    ensures
        id_cells(*final(m)) == id_cells(*old(m)).insert(k, v),
{
    m.insert(k, v);
}

/// Relies on `AHashMap::remove`: the key is gone afterwards, and every other
/// entry stays.
#[verifier::external_body]
pub(crate) fn id_cells_remove(m: &mut AHashMap<u32, usize>, k: u32)
    ensures
        id_cells(*final(m)) == id_cells(*old(m)).remove(k),
{
    m.remove(&k);
}

/// Relies on `AHashMap::get`: the value stored under the key, if any.
#[verifier::external_body]
pub(crate) fn id_cells_get(m: &AHashMap<u32, usize>, k: u32) -> (r: Option<usize>)
    ensures
        r == (if id_cells(*m).contains_key(k) { Some(id_cells(*m)[k]) } else { None::<usize> }),
{
    m.get(&k).copied()
}

/// The entries of a map from object ids to accumulated corrections.
pub uninterp spec fn shifts(m: AHashMap<u32, (i128, i128)>) -> Map<u32, (i128, i128)>;

/// Relies on `AHashMap::new`: a new map is empty.
#[verifier::external_body]
pub(crate) fn shifts_new() -> (r: AHashMap<u32, (i128, i128)>)
    ensures
        shifts(r).dom().is_empty(),
{
    AHashMap::new()
}

/// Relies on `AHashMap::insert`: the key maps to the value afterwards, and
/// every other entry stays.
#[verifier::external_body]
pub(crate) fn shifts_insert(m: &mut AHashMap<u32, (i128, i128)>, k: u32, v: (i128, i128))
    ensures
        shifts(*final(m)) == shifts(*old(m)).insert(k, v),
{
    m.insert(k, v);
}

/// Relies on `AHashMap::get`: the value stored under the key, if any.
#[verifier::external_body]
pub(crate) fn shifts_get(m: &AHashMap<u32, (i128, i128)>, k: u32) -> (r: Option<(i128, i128)>)
    ensures
        r == (if shifts(*m).contains_key(k) { Some(shifts(*m)[k]) } else { None::<(i128, i128)> }),
{
    m.get(&k).copied()
}

/// The pairs of atom ids in a bond ledger.
pub uninterp spec fn bond_keys(s: AHashSet<(u32, u32)>) -> Set<(u32, u32)>;

/// Relies on `AHashSet::new`: a new set is empty.
#[verifier::external_body]
pub(crate) fn bond_keys_new() -> (r: AHashSet<(u32, u32)>)
    ensures
        bond_keys(r).is_empty(),
{
    AHashSet::new()
}

/// Relies on `HashSet::insert`, through `AHashSet`'s `DerefMut`: the pair is
/// in the set afterwards, with every other one.
#[verifier::external_body]
pub(crate) fn bond_keys_insert(s: &mut AHashSet<(u32, u32)>, k: (u32, u32))
    ensures
        bond_keys(*final(s)) == bond_keys(*old(s)).insert(k),
{
    s.insert(k);
}

/// Relies on `HashSet::remove`, through `AHashSet`'s `DerefMut`: the pair is
/// gone afterwards, and every other one stays.
#[verifier::external_body]
pub(crate) fn bond_keys_remove(s: &mut AHashSet<(u32, u32)>, k: (u32, u32))
    ensures
        bond_keys(*final(s)) == bond_keys(*old(s)).remove(k),
{
    s.remove(&k);
}

/// Relies on `HashSet::contains`, through `AHashSet`'s `Deref`: whether the
/// pair is in the set.
#[verifier::external_body]
pub(crate) fn bond_keys_contains(s: &AHashSet<(u32, u32)>, k: (u32, u32)) -> (r: bool)
    ensures
        r == bond_keys(*s).contains(k),
{
    s.contains(&k)
}

/// The entries of a reaction table, keyed by the two reactants'
/// `(species, state)` in the order the rule names them.
pub uninterp spec fn rule_entries(m: AHashMap<((u8, u8), (u8, u8)), ReactionResult>) -> Map<((u8, u8), (u8, u8)), ReactionResult>;

/// Relies on `AHashMap::new`: a new map is empty.
#[verifier::external_body]
pub(crate) fn rule_entries_new() -> (r: AHashMap<((u8, u8), (u8, u8)), ReactionResult>)
    ensures
        rule_entries(r).dom().is_empty(),
{
    AHashMap::new()
}

/// Relies on `AHashMap::insert`: the key maps to the value afterwards, and
/// every other entry stays.
#[verifier::external_body]
pub(crate) fn rule_entries_insert(
    m: &mut AHashMap<((u8, u8), (u8, u8)), ReactionResult>,
    k: ((u8, u8), (u8, u8)),
    v: ReactionResult,
)
    ensures
        rule_entries(*final(m)) == rule_entries(*old(m)).insert(k, v),
{
    m.insert(k, v);
}

/// Relies on `AHashMap::get`: the value stored under the key, if any.
#[verifier::external_body]
pub(crate) fn rule_entries_get(
    m: &AHashMap<((u8, u8), (u8, u8)), ReactionResult>,
    k: ((u8, u8), (u8, u8)),
) -> (r: Option<ReactionResult>)
    ensures
        r == (if rule_entries(*m).contains_key(k) { Some(rule_entries(*m)[k]) } else { None::<ReactionResult> }),
{
    m.get(&k).copied()
}

} // verus!
