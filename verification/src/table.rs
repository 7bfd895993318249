//! The hash table that holds a summary, and the hash set that holds station
//! names.
//!
//! Both are the standard library's collections with the hasher of `gxhash`.
//! What they hold is named by `table_entries` and `set_names`; the functions
//! here say what each operation does to those contents.

use crate::stats::{ProcessedStation, Summary};
use vstd::prelude::*;

verus! {

/// The hasher of `gxhash`, seeded anew for each table.
#[verifier::external_type_specification]
#[verifier::external_body]
pub struct ExGxBuildHasher(gxhash::GxBuildHasher);

/// Station names to their records.
pub type StationMap = gxhash::GxHashMap<Vec<u8>, ProcessedStation>;

/// A set of station names.
pub type NameSet = gxhash::GxHashSet<Vec<u8>>;

/// Station names to their records, as a table holds them.
pub type Entries = Map<Seq<u8>, ProcessedStation>;

/// The room that is set aside for stations before any is seen.
pub const SOURCE_BUFFER_SIZE: usize = 40_000;

/// What the table holds: each station name with its record.
pub uninterp spec fn table_entries(table: StationMap) -> Entries;

/// What the set holds.
pub uninterp spec fn set_names(names: NameSet) -> Set<Seq<u8>>;

/// The summary that the table holds.
pub open spec fn table_summary(table: StationMap) -> Summary {
    table_entries(table).map_values(|record: ProcessedStation| record@)
}

/// The entries are those of `contents`, each station once.
pub open spec fn is_listing(
    entries: Seq<(Vec<u8>, ProcessedStation)>,
    contents: Entries,
) -> bool {
    &&& forall|i: int|
        0 <= i < entries.len() ==> contents.contains_key((#[trigger] entries[i]).0@)
            && contents[entries[i].0@] == entries[i].1
    &&& forall|i: int, j: int|
        0 <= i < j < entries.len() ==> (#[trigger] entries[i]).0@ != (#[trigger] entries[j]).0@
    &&& forall|k: Seq<u8>|
        contents.contains_key(k) ==> exists|i: int|
            0 <= i < entries.len() && (#[trigger] entries[i]).0@ == k
}

/// The names are those of `contents`, each once.
pub open spec fn is_name_listing(names: Seq<Vec<u8>>, contents: Set<Seq<u8>>) -> bool {
    &&& forall|i: int| 0 <= i < names.len() ==> contents.contains((#[trigger] names[i])@)
    &&& forall|i: int, j: int|
        0 <= i < j < names.len() ==> (#[trigger] names[i])@ != (#[trigger] names[j])@
    &&& forall|k: Seq<u8>|
        contents.contains(k) ==> exists|i: int| 0 <= i < names.len() && (#[trigger] names[i])@ == k
}

/// A hasher with a seed of its own, by `GxBuildHasher::default`.
///
/// Trusted: nothing is promised of the hasher, whose seed is drawn at random.
#[verifier::external_body]
pub(crate) fn new_hasher() -> (hasher: gxhash::GxBuildHasher) {
    gxhash::GxBuildHasher::default()
}

/// An empty table with room for `capacity` stations, made by
/// `HashMap::with_capacity_and_hasher`.
///
/// Trusted: a new table holds nothing.
#[verifier::external_body]
pub(crate) fn new_station_map(
    capacity: usize,
    hasher: gxhash::GxBuildHasher,
) -> (table: StationMap)
    requires
        capacity <= SOURCE_BUFFER_SIZE,
    ensures
        table_entries(table) == Entries::empty(),
{
    gxhash::GxHashMap::with_capacity_and_hasher(capacity, hasher)
}

/// The record of the station `name`, open to change, by `HashMap::get_mut`.
///
/// Trusted: the record that the table holds under that name, or `None` where
/// it holds none. What is written to the record is what the table holds under
/// that name afterwards; no other entry changes.
#[verifier::external_body]
pub(crate) fn record_of<'a>(table: &'a mut StationMap, name: &[u8]) -> (slot: Option<
    &'a mut ProcessedStation,
>)
    ensures
        match slot {
            Some(record) => table_entries(*old(table)).contains_key(name@) && *record
                == table_entries(*old(table))[name@] && table_entries(*final(table))
                == table_entries(*old(table)).insert(name@, *final(record)),
            None => !table_entries(*old(table)).contains_key(name@) && table_entries(
                *final(table),
            ) == table_entries(*old(table)),
        },
{
    table.get_mut(name)
}

/// Enters the station `name` with `record`, by `HashMap::insert`.
///
/// Trusted: afterwards the table holds `record` under that name, whether or
/// not it held the name before, and no other entry changes.
#[verifier::external_body]
pub(crate) fn store(table: &mut StationMap, name: Vec<u8>, record: ProcessedStation)
    ensures
        table_entries(*final(table)) == table_entries(*old(table)).insert(name@, record),
{
    table.insert(name, record);
}

/// The entries of the table, as `HashMap::iter` hands them out.
///
/// Trusted: every entry comes once. Nothing is said of the order, which
/// changes with the hasher's seed.
#[verifier::external_body]
pub(crate) fn entries_of(table: &StationMap) -> (entries: Vec<(Vec<u8>, ProcessedStation)>)
    ensures
        is_listing(entries@, table_entries(*table)),
{
    table.iter().map(|(name, record)| (name.clone(), *record)).collect()
}

/// An empty set with room for `capacity` names, made by
/// `HashSet::with_capacity_and_hasher`.
///
/// Trusted: a new set holds nothing.
#[verifier::external_body]
pub(crate) fn new_name_set(capacity: usize, hasher: gxhash::GxBuildHasher) -> (names: NameSet)
    requires
        capacity <= SOURCE_BUFFER_SIZE,
    ensures
        set_names(names) == Set::<Seq<u8>>::empty(),
{
    gxhash::GxHashSet::with_capacity_and_hasher(capacity, hasher)
}

/// Enters `name`, by `HashSet::insert`.
///
/// Trusted: afterwards the set holds the name besides what it held before.
#[verifier::external_body]
pub(crate) fn add_name(names: &mut NameSet, name: Vec<u8>)
    ensures
        set_names(*final(names)) == set_names(*old(names)).insert(name@),
{
    names.insert(name);
}

/// Empties the set and hands out what it held, by `HashSet::drain`.
///
/// Trusted: every name comes once and the set is left empty. Nothing is said
/// of the order, which changes with the hasher's seed.
#[verifier::external_body]
pub(crate) fn drain_names(names: &mut NameSet) -> (listing: Vec<Vec<u8>>)
    ensures
        is_name_listing(listing@, set_names(*old(names))),
        set_names(*final(names)) == Set::<Seq<u8>>::empty(),
{
    names.drain().collect()
}

} // verus!
