//! The two lookup tables of the index, kept in `phf` perfect-hash maps.
//!
//! Nothing in this file is proved. Each item states what the `phf` and
//! `phf_generator` crates do, and the rest of the library is verified
//! against these statements.

use crate::data::{DirectionTable, HintName, HintNameView, TableView};
use vstd::prelude::*;

verus! {

/// `phf::Map`, the immutable map of the `phf` crate. Its contents are
/// spoken of through [`names_contents`] and [`hints_contents`] only.
#[verifier::external_type_specification]
#[verifier::external_body]
#[verifier::reject_recursive_types(K)]
#[verifier::reject_recursive_types(V)]
pub struct ExPerfectMap<K: 'static, V: 'static>(phf::Map<K, V>);

/// What a name table holds: for each hint identifier that `phf::Map::get`
/// finds in it, the name record it returns.
pub uninterp spec fn names_contents(map: phf::Map<u32, HintName>) -> Map<u32, HintNameView>;

/// What a hint table holds: for each key text that `phf::Map::get` finds in
/// it, the direction table it returns.
pub uninterp spec fn hints_contents(map: phf::Map<String, DirectionTable>) -> Map<
    Seq<char>,
    TableView,
>;

/// Calls `phf_generator::generate_hash` on the identifiers and lays
/// copies of the entries out as a `phf::Map`, in the order and with the
/// hash key and displacements that it returns. The generator does not come
/// back when two keys are equal, and it counts slots in 32 bits; both are
/// asked of the caller. The claim is that `phf::Map::get` then finds
/// exactly the entries given. The storage of the map is leaked: it lives
/// until the process ends.
#[verifier::external_body]
pub(crate) fn names_map_of(entries: &Vec<(u32, HintName)>) -> (map: phf::Map<u32, HintName>)
    requires
        entries.len() <= u32::MAX,
        forall|i: int, j: int| 0 <= i < j < entries.len() ==> entries[i].0 != entries[j].0,
    ensures
        forall|i: int|
            0 <= i < entries.len() ==> names_contents(map).contains_key(#[trigger] entries[i].0)
                && names_contents(map)[entries[i].0] == entries[i].1@,
        forall|id: u32| #[trigger]
            names_contents(map).contains_key(id) ==> exists|i: int|
                0 <= i < entries.len() && #[trigger] entries[i].0 == id,
{
    let keys: Vec<u32> = entries.iter().map(|entry| entry.0).collect();
    let state = phf_generator::generate_hash(&keys);
    let placed: Vec<(u32, HintName)> = state.map.iter().map(|&at| entries[at].clone()).collect();
    phf::Map { key: state.key, disps: state.disps.leak(), entries: placed.leak() }
}

/// Calls `phf_generator::generate_hash` on the key texts and lays copies
/// of the entries out as a `phf::Map`, as [`names_map_of`] does and under
/// the same two conditions. The claim is that `phf::Map::get` then finds
/// exactly the entries given.
#[verifier::external_body]
pub(crate) fn hints_map_of(entries: &Vec<(String, DirectionTable)>) -> (map: phf::Map<
    String,
    DirectionTable,
>)
    requires
        entries.len() <= u32::MAX,
        forall|i: int, j: int| 0 <= i < j < entries.len() ==> entries[i].0@ != entries[j].0@,
    ensures
        forall|i: int|
            0 <= i < entries.len() ==> hints_contents(map).contains_key(#[trigger] entries[i].0@)
                && hints_contents(map)[entries[i].0@] == crate::data::table_view(entries[i].1),
        forall|key: Seq<char>| #[trigger]
            hints_contents(map).contains_key(key) ==> exists|i: int|
                0 <= i < entries.len() && #[trigger] entries[i].0@ == key,
{
    let keys: Vec<&str> = entries.iter().map(|entry| entry.0.as_str()).collect();
    let state = phf_generator::generate_hash(&keys);
    let placed: Vec<(String, DirectionTable)> =
        state.map.iter().map(|&at| entries[at].clone()).collect();
    phf::Map { key: state.key, disps: state.disps.leak(), entries: placed.leak() }
}

/// Calls `phf::Map::get`. By the meaning of [`names_contents`], what it
/// finds under `id` is what the table holds there.
#[verifier::external_body]
pub(crate) fn names_map_get<'a>(map: &'a phf::Map<u32, HintName>, id: u32) -> (found: Option<
    &'a HintName,
>)
    ensures
        match found {
            Some(name) => names_contents(*map).contains_key(id) && name@ == names_contents(
                *map,
            )[id],
            None => !names_contents(*map).contains_key(id),
        },
{
    map.get(&id)
}

/// Calls `phf::Map::get`. By the meaning of [`hints_contents`], what it
/// finds under `key` is what the table holds there.
#[verifier::external_body]
pub(crate) fn hints_map_get<'a>(map: &'a phf::Map<String, DirectionTable>, key: &str) -> (found:
    Option<&'a DirectionTable>)
    ensures
        match found {
            Some(table) => hints_contents(*map).contains_key(key@) && crate::data::table_view(
                *table,
            ) == hints_contents(*map)[key@],
            None => !hints_contents(*map).contains_key(key@),
        },
{
    map.get(key)
}

} // verus!
