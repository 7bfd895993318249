//! The merge of the shards' tables into one.

use crate::stats::{
    combine, counts_within, is_valid_record, lemma_combine_valid, lemma_merge_associative,
    lemma_merge_valid, lemma_reduce_concat, lemma_sum_bound, merge, reduce, stats_valid,
    summary_valid, ProcessedStation, Summary, MAX_ROWS,
};
use crate::table::{
    entries_of, is_listing, record_of, store, table_entries, table_summary, StationMap,
};
use vstd::prelude::*;
use vstd::slice::slice_to_vec;

verus! {

/// The summaries that a sequence of tables holds, in order.
pub open spec fn summaries(tables: Seq<StationMap>) -> Seq<Summary> {
    tables.map_values(|table: StationMap| table_summary(table))
}

/// The station names of the first `upto` entries.
pub open spec fn names_before(entries: Seq<(Vec<u8>, ProcessedStation)>, upto: int) -> Set<
    Seq<u8>,
> {
    Set::new(|k: Seq<u8>| exists|j: int| 0 <= j < upto && (#[trigger] entries[j]).0@ == k)
}

/// A summary that takes in more readings counts no fewer for any station: a
/// limit on the counts of a merge holds of its left part too.
pub proof fn lemma_counts_within_left(a: Summary, b: Summary, limit: int)
    requires
        counts_within(merge(a, b), limit),
    ensures
        counts_within(a, limit),
{
    assert forall|k: Seq<u8>| a.contains_key(k) implies (#[trigger] a[k]).count <= limit by {
        assert(merge(a, b)[k].count >= a[k].count);
    }
}

/// Whether every record of the table is valid and none counts more than
/// `limit` readings.
pub fn is_valid_table(stations: &StationMap, limit: u64) -> (ok: bool)
    ensures
        ok == (summary_valid(table_summary(*stations)) && counts_within(
            table_summary(*stations),
            limit as int,
        )),
{
    let ghost m = table_summary(*stations);
    let entries = entries_of(stations);
    let mut i: usize = 0;
    while i < entries.len()
        invariant
            i <= entries@.len(),
            m == table_summary(*stations),
            is_listing(entries@, table_entries(*stations)),
            forall|j: int|
                0 <= j < i ==> stats_valid((#[trigger] entries@[j]).1@) && entries@[j].1@.count
                    <= limit,
        decreases entries@.len() - i,
    {
        let record = entries[i].1;
        if !is_valid_record(record) || record.3 > limit {
            proof {
                let k = entries@[i as int].0@;
                assert(m.contains_key(k) && m[k] == record@);
            }
            return false;
        }
        i = i + 1;
    }
    true
}

/// The records of two stations made one: the lesser of the least readings, the
/// greater of the greatest, both sums and both counts added.
pub fn combine_records(a: ProcessedStation, b: ProcessedStation) -> (both: ProcessedStation)
    requires
        stats_valid(a@),
        stats_valid(b@),
        a@.count + b@.count <= MAX_ROWS,
    ensures
        both@ == combine(a@, b@),
        stats_valid(both@),
{
    proof {
        lemma_sum_bound(a@);
        lemma_sum_bound(b@);
        lemma_combine_valid(a@, b@);
    }
    let low: i16 = if b.0 < a.0 {
        b.0
    } else {
        a.0
    };
    let high: i16 = if b.1 > a.1 {
        b.1
    } else {
        a.1
    };
    ProcessedStation(low, high, a.2 + b.2, a.3 + b.3)
}

/// Merges the table `data` into `station_map`: a station of both gets the
/// combined record, a station of `data` alone is entered with its record.
pub fn merge_table(data: &StationMap, station_map: &mut StationMap)
    requires
        summary_valid(table_summary(*old(station_map))),
        summary_valid(table_summary(*data)),
        counts_within(
            merge(table_summary(*old(station_map)), table_summary(*data)),
            MAX_ROWS as int,
        ),
    ensures
        table_summary(*final(station_map)) == merge(
            table_summary(*old(station_map)),
            table_summary(*data),
        ),
        summary_valid(table_summary(*final(station_map))),
{
    let ghost before = table_summary(*station_map);
    let ghost added = table_summary(*data);
    let entries = entries_of(data);
    let mut i: usize = 0;
    while i < entries.len()
        invariant
            i <= entries@.len(),
            is_listing(entries@, table_entries(*data)),
            before == table_summary(*old(station_map)),
            added == table_summary(*data),
            summary_valid(before),
            summary_valid(added),
            counts_within(merge(before, added), MAX_ROWS as int),
            table_summary(*station_map) == merge(
                before,
                added.restrict(names_before(entries@, i as int)),
            ),
        decreases entries@.len() - i,
    {
        let ghost current = table_summary(*station_map);
        let ghost key = entries@[i as int].0@;
        let name = entries[i].0.as_slice();
        let station = entries[i].1;
        match record_of(station_map, name) {
            Some(s) => {
                proof {
                    assert(current.contains_key(key) && current[key] == s@);
                    assert(merge(before, added)[key] == combine(s@, station@));
                }
                *s = combine_records(*s, station);
            },
            None => {
                store(station_map, slice_to_vec(name), station);
            },
        }
        proof {
            let next = names_before(entries@, i + 1);
            assert(current.contains_key(key) <==> before.contains_key(key));
            let after = table_summary(*station_map);
            let goal = merge(before, added.restrict(next));
            assert forall|k: Seq<u8>| after.contains_key(k) <==> goal.contains_key(k) by {
                if k != key {
                    assert(after.contains_key(k) <==> current.contains_key(k));
                }
            }
            assert forall|k: Seq<u8>| after.contains_key(k) implies after[k] == goal[k] by {
                if k != key {
                    assert(after[k] == current[k]);
                }
            }
        }
        i = i + 1;
    }
    proof {
        lemma_merge_valid(before, added);
    }
}

/// Merges every table of `thread_data` into `station_map`.
///
/// The order of the tables and of the stations in each does not show in the
/// result: least, greatest, sum and count do not care for it.
pub fn merge_stations(thread_data: &Vec<StationMap>, station_map: &mut StationMap)
    requires
        summary_valid(table_summary(*old(station_map))),
        forall|i: int|
            0 <= i < thread_data@.len() ==> summary_valid(
                table_summary(#[trigger] thread_data@[i]),
            ),
        counts_within(
            merge(table_summary(*old(station_map)), reduce(summaries(thread_data@))),
            MAX_ROWS as int,
        ),
    ensures
        table_summary(*final(station_map)) == merge(
            table_summary(*old(station_map)),
            reduce(summaries(thread_data@)),
        ),
        summary_valid(table_summary(*final(station_map))),
{
    let ghost before = table_summary(*station_map);
    let ghost all = summaries(thread_data@);
    let mut i: usize = 0;
    while i < thread_data.len()
        invariant
            i <= thread_data@.len(),
            all == summaries(thread_data@),
            before == table_summary(*old(station_map)),
            summary_valid(table_summary(*station_map)),
            forall|j: int|
                0 <= j < thread_data@.len() ==> summary_valid(
                    table_summary(#[trigger] thread_data@[j]),
                ),
            counts_within(merge(before, reduce(all)), MAX_ROWS as int),
            table_summary(*station_map) == merge(before, reduce(all.take(i as int))),
        decreases thread_data@.len() - i,
    {
        let ghost added = table_summary(thread_data@[i as int]);
        proof {
            let done = all.take(i as int);
            let more = all.take(i + 1);
            let rest = all.skip(i + 1);
            assert(more.drop_last() =~= done);
            lemma_merge_associative(before, reduce(done), added);
            assert(all =~= more + rest);
            lemma_reduce_concat(more, rest);
            lemma_merge_associative(before, reduce(more), reduce(rest));
            lemma_counts_within_left(merge(before, reduce(more)), reduce(rest), MAX_ROWS as int);
        }
        merge_table(&thread_data[i], station_map);
        i = i + 1;
    }
    assert(all.take(thread_data@.len() as int) =~= all);
}

} // verus!
