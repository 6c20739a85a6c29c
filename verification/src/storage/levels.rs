//! The levels of the tables on disk.

use dashmap::DashMap;

use vstd::prelude::*;

verus! {

/// `dashmap::DashMap`, a map that may be shared.
#[verifier::external_type_specification]
#[verifier::external_body]
#[verifier::reject_recursive_types(K)]
#[verifier::reject_recursive_types(V)]
#[verifier::reject_recursive_types(S)]
pub struct ExDashMap<K, V, S>(dashmap::DashMap<K, V, S>);

/// What a map of levels holds: the tables of each level, newest first.
pub uninterp spec fn levels_of(m: DashMap<u32, Vec<u64>>) -> Map<u32, Seq<u64>>;

/// `DashMap::new`: a map that holds nothing.
#[verifier::external_body]
pub(crate) fn no_levels() -> (m: DashMap<u32, Vec<u64>>)
    ensures
        forall|level: u32| !levels_of(m).contains_key(level),
{
    DashMap::new()
}

/// `DashMap::insert`: the map then holds `tables` under `level`, in place of what
/// it held there, and what it held elsewhere.
#[verifier::external_body]
pub(crate) fn set_level(m: &mut DashMap<u32, Vec<u64>>, level: u32, tables: Vec<u64>)
    ensures
        levels_of(*final(m)) == levels_of(*old(m)).insert(level, tables@),
{
    m.insert(level, tables);
}

/// `DashMap::get`: what the map holds under `level`, if anything.
#[verifier::external_body]
pub(crate) fn get_level(m: &DashMap<u32, Vec<u64>>, level: u32) -> (r: Option<Vec<u64>>)
    ensures
        r is Some <==> levels_of(*m).contains_key(level),
        r matches Some(v) ==> v@ == levels_of(*m)[level],
{
    m.get(&level).map(|e| e.value().clone())
}

/// `DashMap::iter`: every level under which the map holds something, once, in an
/// order that is left open.
#[verifier::external_body]
pub(crate) fn level_numbers(m: &DashMap<u32, Vec<u64>>) -> (r: Vec<u64>)
    ensures
        r@.no_duplicates(),
        forall|level: u32|
            levels_of(*m).contains_key(level) <==> #[trigger] r@.contains(level as u64),
        forall|i: int| 0 <= i < r@.len() ==> #[trigger] r@[i] <= u32::MAX,
{
    m.iter().map(|e| *e.key() as u64).collect()
}

} // verus!
