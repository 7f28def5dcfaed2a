//! The table of stations: an `FxHashMap` from a station's name to its
//! summary, seen through the map of plain values that it holds.
use vstd::prelude::*;

use fxhash::{FxHashMap, FxHasher};
use std::hash::BuildHasherDefault;

use super::{Name, Summary, Temperature};

verus! {

#[verifier::external_type_specification]
#[verifier::external_body]
#[verifier::reject_recursive_types(H)]
pub struct ExBuildHasherDefault<H>(BuildHasherDefault<H>);

#[verifier::external_type_specification]
#[verifier::external_body]
pub struct ExFxHasher(FxHasher);

/// What a table of stations holds: each name, by its bytes, with the
/// summary stored under it.
pub uninterp spec fn station_table(m: FxHashMap<Name, Temperature>) -> Map<Seq<u8>, Summary>;

/// The table with no station.
pub open spec fn empty_table() -> Map<Seq<u8>, Summary> {
    Map::empty()
}

/// An empty table, by `FxHashMap::with_capacity_and_hasher` with the
/// default `FxHasher` builder; the capacity is only room reserved.
#[verifier::external_body]
pub(crate) fn new_station_table(capacity: usize) -> (m: FxHashMap<Name, Temperature>)
    ensures
        station_table(m) == empty_table(),
{
    FxHashMap::with_capacity_and_hasher(capacity, Default::default())
}

/// The summary stored under `name`, by `HashMap::get_mut`, which looks the
/// name up with the `Eq` and `Hash` of `[u8]` (those of `Vec<u8>` agree).
///
/// The contract claims: the result is `Some` exactly when the table holds
/// the name, it then refers to the stored summary, and what is written
/// through it is what the table holds under that name afterwards; nothing
/// else in the table changes.
#[verifier::external_body]
pub(crate) fn station_get_mut<'a>(m: &'a mut FxHashMap<Name, Temperature>, name: &[u8]) -> (r:
    Option<&'a mut Temperature>)
    ensures
        match r {
            Some(t) => {
                &&& station_table(*old(m)).contains_key(name@)
                &&& (*t)@ == station_table(*old(m))[name@]
                &&& station_table(*final(m)) == station_table(*old(m)).insert(name@, (*final(t))@)
            },
            None => {
                &&& !station_table(*old(m)).contains_key(name@)
                &&& station_table(*final(m)) == station_table(*old(m))
            },
        },
{
    m.get_mut(name)
}

/// Stores `t` under `name`, by `HashMap::insert`, which replaces what was
/// stored under an equal name.
#[verifier::external_body]
pub(crate) fn station_insert(m: &mut FxHashMap<Name, Temperature>, name: Name, t: Temperature)
    ensures
        station_table(*final(m)) == station_table(*old(m)).insert(name@, t@),
{
    m.insert(name, t);
}

/// Every (name, summary) pair of the table, by `HashMap::into_iter`,
/// collected into a vector.
///
/// The contract claims: each name occurs once, with the summary stored
/// under it, and every name of the table occurs. The order is the map's
/// own and is left open.
#[verifier::external_body]
pub(crate) fn station_entries(m: FxHashMap<Name, Temperature>) -> (entries: Vec<(Name, Temperature)>)
    ensures
        forall|i: int, j: int|
            0 <= i < j < entries@.len() ==> (#[trigger] entries@[i]).0@ != (#[trigger] entries@[j]).0@,
        forall|i: int|
            0 <= i < entries@.len() ==> station_table(m).contains_key((#[trigger] entries@[i]).0@)
                && station_table(m)[entries@[i].0@] == entries@[i].1@,
        forall|k: Seq<u8>|
            #[trigger] station_table(m).contains_key(k) ==> exists|i: int|
                0 <= i < entries@.len() && (#[trigger] entries@[i]).0@ == k,
{
    m.into_iter().collect()
}

} // verus!
