//! The input cut into shards, one for each worker, and the whole run over
//! them.
//!
//! A cut is made only where a line starts, so that no line is shared between
//! two shards: whatever the number of shards, their tables merge to the table
//! of the whole input.

use crate::lines::{
    is_line_start, is_well_formed, lemma_lines_split, lemma_readings_in_range, line_end,
    nonempty_lines, readings, well_formed,
};
use crate::mapper::thread;
use crate::reducer::{merge_stations, summaries};
use crate::scan::{find_from, lemma_next_index, NEW_LINE_BYTE};
use crate::format::render_summary;
use crate::stats::{
    aggregate, counts_within, lemma_aggregate_concat, lemma_aggregate_permutation,
    lemma_aggregate_valid, lemma_mean_between, lemma_merge_counts, lemma_total_rows, mean_tenths,
    merge, reduce, summary_valid, total_rows, Stats, Summary, MAX_ROWS,
};
use crate::pool::worker_count;
use crate::table::{
    new_hasher, new_station_map, table_summary, StationMap, SOURCE_BUFFER_SIZE,
};
use vstd::prelude::*;

verus! {

/// Where cut number `i` of `workers` is aimed before it is moved to a line
/// start: that share of the length, rounded down.
pub open spec fn candidate(len: int, i: int, workers: int) -> int {
    len * i / workers
}

/// The first line start after the byte at `from`: one past the next new-line
/// byte, or the end of `s` when there is none.
pub open spec fn line_start_after(s: Seq<u8>, from: int) -> int {
    if line_end(s, from) < s.len() {
        line_end(s, from) + 1
    } else {
        s.len() as int
    }
}

/// The cut positions as plain numbers.
pub open spec fn cuts(split_points: Seq<usize>) -> Seq<int> {
    split_points.map_values(|p: usize| p as int)
}

/// Where shard `i` starts: at the cut before it, shard 0 at the start.
pub open spec fn shard_start(points: Seq<int>, i: int) -> int {
    if i == 0 {
        0
    } else {
        points[i - 1]
    }
}

/// Where shard `i` ends: at the cut after it, the last shard at `len`.
pub open spec fn shard_end(points: Seq<int>, len: int, i: int) -> int {
    if i == points.len() {
        len
    } else {
        points[i]
    }
}

/// The bytes of shard `i`.
pub open spec fn shard(s: Seq<u8>, points: Seq<int>, i: int) -> Seq<u8> {
    s.subrange(shard_start(points, i), shard_end(points, s.len() as int, i))
}

/// The cuts are in order and each is where a line starts.
pub open spec fn is_line_partition(s: Seq<u8>, points: Seq<int>) -> bool {
    &&& forall|i: int| 0 <= i < points.len() ==> is_line_start(s, #[trigger] points[i])
    &&& forall|i: int, j: int| 0 <= i <= j < points.len() ==> points[i] <= points[j]
}

/// The summary of each shard, in order.
pub open spec fn shard_summaries(s: Seq<u8>, points: Seq<int>) -> Seq<Summary> {
    Seq::new(points.len() + 1, |i: int| aggregate(readings(shard(s, points, i))))
}

/// The first line start after `from` is a line start, and a later `from`
/// gives no earlier one.
pub proof fn lemma_line_start_after(s: Seq<u8>, from: int, later: int)
    requires
        0 <= from <= later <= s.len(),
    ensures
        is_line_start(s, line_start_after(s, from)),
        from <= line_start_after(s, from) <= line_start_after(s, later),
{
    lemma_next_index(s, 10, from);
    lemma_next_index(s, 10, later);
}

/// Cut anywhere lines start, the shards' summaries merge to the summary of the
/// whole input, and each shard of a well-formed input is well formed.
pub proof fn lemma_sharding(s: Seq<u8>, points: Seq<int>)
    requires
        is_line_partition(s, points),
    ensures
        reduce(shard_summaries(s, points)) == aggregate(readings(s)),
        well_formed(s) ==> forall|i: int|
            0 <= i <= points.len() ==> well_formed(#[trigger] shard(s, points, i)),
    decreases points.len(),
{
    let tables = shard_summaries(s, points);
    if points.len() == 0 {
        assert(shard(s, points, 0) =~= s);
        assert(tables.drop_last() =~= Seq::<Summary>::empty());
        assert(reduce(Seq::<Summary>::empty()) == Map::<Seq<u8>, Stats>::empty());
    } else {
        let p = points.last();
        let head = s.take(p);
        let tail = s.skip(p);
        let fewer = points.drop_last();
        lemma_sharding(head, fewer);
        lemma_lines_split(s, p);
        assert forall|i: int| 0 <= i < points.len() implies shard(s, points, i) == shard(
            head,
            fewer,
            i,
        ) by {}
        assert(tables.drop_last() =~= shard_summaries(head, fewer));
        lemma_aggregate_concat(readings(head), readings(tail));
    }
}

/// The summary of a well-formed input is valid: for each station the mean
/// lies between the least and the greatest reading, and no record counts more
/// readings than the input has bytes.
pub proof fn lemma_summary_of_input(s: Seq<u8>)
    requires
        well_formed(s),
    ensures
        summary_valid(aggregate(readings(s))),
        counts_within(aggregate(readings(s)), s.len() as int),
        forall|k: Seq<u8>| #[trigger]
            aggregate(readings(s)).contains_key(k) ==> aggregate(readings(s))[k].min <= mean_tenths(
                aggregate(readings(s))[k].sum,
                aggregate(readings(s))[k].count,
            ) <= aggregate(readings(s))[k].max,
{
    lemma_readings_in_range(s);
    lemma_aggregate_valid(readings(s));
    let m = aggregate(readings(s));
    assert forall|k: Seq<u8>| #[trigger] m.contains_key(k) implies m[k].min <= mean_tenths(
        m[k].sum,
        m[k].count,
    ) <= m[k].max by {
        lemma_mean_between(m[k]);
    }
}

/// Two inputs with the same readings, each as often in one as in the other,
/// have the same summary and the same text: the order of the lines does not
/// show.
pub proof fn lemma_order_of_lines(a: Seq<u8>, b: Seq<u8>)
    requires
        readings(a).to_multiset() == readings(b).to_multiset(),
    ensures
        aggregate(readings(a)) == aggregate(readings(b)),
        render_summary(aggregate(readings(a))) == render_summary(aggregate(readings(b))),
{
    lemma_aggregate_permutation(readings(a), readings(b));
}

/// The counts of the summary of an input add up to the number of its lines
/// that are not empty.
pub proof fn lemma_counts_add_up(s: Seq<u8>)
    ensures
        total_rows(aggregate(readings(s))) == nonempty_lines(s).len(),
{
    lemma_total_rows(readings(s));
}

/// The cuts for `workers` workers: one before each worker but the first. Cut
/// `i` is aimed at the `i`-th of `workers` equal shares of the input and moved
/// to the first line start after that byte.
pub open spec fn cut_points(s: Seq<u8>, workers: int) -> Seq<int> {
    Seq::new(
        if workers <= 0 {
            0nat
        } else {
            (workers - 1) as nat
        },
        |i: int| line_start_after(s, candidate(s.len() as int, i + 1, workers)),
    )
}

/// The cuts for any number of workers are in order, and each is where a line
/// starts.
pub proof fn lemma_cut_points(s: Seq<u8>, workers: int)
    ensures
        is_line_partition(s, cut_points(s, workers)),
{
    let points = cut_points(s, workers);
    let len = s.len() as int;
    assert forall|i: int| 0 <= i < points.len() implies is_line_start(s, #[trigger] points[i]) by {
        lemma_candidate(len, i + 1, workers);
        lemma_line_start_after(s, candidate(len, i + 1, workers), candidate(len, i + 1, workers));
    }
    assert forall|i: int, j: int| 0 <= i <= j < points.len() implies points[i] <= points[j] by {
        lemma_candidate(len, j + 1, workers);
        lemma_candidate_order(len, i + 1, j + 1, workers);
        lemma_line_start_after(s, candidate(len, i + 1, workers), candidate(len, j + 1, workers));
    }
}

/// Whatever the number of workers, the tables of their shards merge to the
/// summary of the whole input.
pub proof fn lemma_any_number_of_workers(s: Seq<u8>, workers: int)
    ensures
        reduce(shard_summaries(s, cut_points(s, workers))) == aggregate(readings(s)),
{
    lemma_cut_points(s, workers);
    lemma_sharding(s, cut_points(s, workers));
}

/// The cuts for `num_threads` workers.
///
/// Each cut is aimed at its share of the input and moved past the next
/// new-line byte, or to the end of the input where none follows. Two cuts may
/// fall together: the shard between them is then empty.
pub fn split_file(num_threads: usize, data: &[u8]) -> (split_points: Vec<usize>)
    ensures
        cuts(split_points@) == cut_points(data@, num_threads as int),
{
    let len: usize = data.len();
    let ghost points = cut_points(data@, num_threads as int);
    let mut split_points: Vec<usize> = Vec::new();
    let mut i: usize = 1;
    while i < num_threads
        invariant
            1 <= i,
            i <= num_threads || i == 1,
            len == data@.len(),
            points == cut_points(data@, num_threads as int),
            split_points@.len() == i - 1,
            forall|j: int| 0 <= j < split_points@.len() ==> split_points@[j] == points[j],
        decreases num_threads - i,
    {
        assert(len * i <= 0xffff_ffff_ffff_ffff * 0xffff_ffff_ffff_ffff) by (nonlinear_arith)
            requires
                0 <= len <= 0xffff_ffff_ffff_ffff,
                0 <= i <= 0xffff_ffff_ffff_ffff,
        ;
        let share: u128 = (len as u128) * (i as u128) / (num_threads as u128);
        proof {
            lemma_candidate(len as int, i as int, num_threads as int);
        }
        let start: usize = share as usize;
        let nearest_new_line: usize = find_from(data, NEW_LINE_BYTE, start);
        let pos: usize = if nearest_new_line < len {
            nearest_new_line + 1
        } else {
            len
        };
        split_points.push(pos);
        i = i + 1;
    }
    split_points
}

/// A share of the length lies within the length.
pub proof fn lemma_candidate(len: int, i: int, workers: int)
    requires
        0 <= len,
        0 <= i <= workers,
        0 < workers,
    ensures
        0 <= candidate(len, i, workers) <= len,
{
    assert(0 <= len * i <= len * workers) by (nonlinear_arith)
        requires
            0 <= len,
            0 <= i <= workers,
    ;
    assert(0 <= (len * i) / workers <= len) by (nonlinear_arith)
        requires
            0 <= len * i <= len * workers,
            0 < workers,
    ;
}

/// A later share starts no earlier.
pub proof fn lemma_candidate_order(len: int, i: int, j: int, workers: int)
    requires
        0 <= len,
        0 <= i <= j,
        0 < workers,
    ensures
        candidate(len, i, workers) <= candidate(len, j, workers),
{
    assert(len * i <= len * j) by (nonlinear_arith)
        requires
            0 <= len,
            i <= j,
    ;
    assert((len * i) / workers <= (len * j) / workers) by (nonlinear_arith)
        requires
            len * i <= len * j,
            0 < workers,
    ;
}

/// Where shard `i` starts and where it ends.
pub fn shard_bounds(split_points: &Vec<usize>, len: usize, i: usize) -> (bounds: (usize, usize))
    requires
        i <= split_points@.len(),
    ensures
        bounds.0 == shard_start(cuts(split_points@), i as int),
        bounds.1 == shard_end(cuts(split_points@), len as int, i as int),
{
    let start: usize = if i == 0 {
        0
    } else {
        split_points[i - 1]
    };
    let end: usize = if i == split_points.len() {
        len
    } else {
        split_points[i]
    };
    (start, end)
}

/// Takes the whole of `data` into `station_map`: the input is cut into one
/// shard for each worker of the pool, each shard is summed up in a table of
/// its own, and the tables are merged into `station_map`.
///
/// The result does not depend on the number of workers.
pub fn solution(station_map: &mut StationMap, data: &[u8])
    requires
        well_formed(data@),
        data@.len() <= MAX_ROWS,
        summary_valid(table_summary(*old(station_map))),
        counts_within(table_summary(*old(station_map)), MAX_ROWS - data@.len()),
    ensures
        table_summary(*final(station_map)) == merge(
            table_summary(*old(station_map)),
            aggregate(readings(data@)),
        ),
        summary_valid(table_summary(*final(station_map))),
{
    let number_of_threads: usize = worker_count();
    let split_points = split_file(number_of_threads, data);
    let shards: usize = split_points.len();
    let ghost points = cuts(split_points@);
    let mut thread_data: Vec<StationMap> = Vec::new();
    let mut i: usize = 0;
    proof {
        lemma_cut_points(data@, number_of_threads as int);
        lemma_sharding(data@, points);
    }
    while i < shards
        invariant
            i <= shards == split_points@.len(),
            points == cuts(split_points@),
            is_line_partition(data@, points),
            data@.len() <= MAX_ROWS,
            forall|j: int|
                0 <= j <= points.len() ==> well_formed(#[trigger] shard(data@, points, j)),
            thread_data@.len() == i,
            forall|j: int|
                0 <= j < thread_data@.len() ==> table_summary(#[trigger] thread_data@[j])
                    == shard_summaries(data@, points)[j],
        decreases shards - i,
    {
        let (start, end) = shard_bounds(&split_points, data.len(), i);
        proof {
            assert(well_formed(shard(data@, points, i as int)));
        }
        let table = thread(data, start, end);
        thread_data.push(table);
        i = i + 1;
    }
    let (start, end) = shard_bounds(&split_points, data.len(), shards);
    let table = thread(data, start, end);
    thread_data.push(table);
    proof {
        let tables = summaries(thread_data@);
        assert(tables =~= shard_summaries(data@, points));
        lemma_summary_of_input(data@);
        lemma_merge_counts(
            table_summary(*station_map),
            aggregate(readings(data@)),
            MAX_ROWS - data@.len(),
            data@.len() as int,
        );
        assert forall|j: int| 0 <= j < thread_data@.len() implies summary_valid(
            table_summary(#[trigger] thread_data@[j]),
        ) by {
            lemma_summary_of_input(shard(data@, points, j));
        }
    }
    merge_stations(&thread_data, station_map);
}

/// The table of the whole of `data`, or `None` where a line of `data` is no
/// measurement or `data` is longer than a record can count.
pub fn summarize(data: &[u8]) -> (table: Option<StationMap>)
    ensures
        match table {
            Some(stations) => well_formed(data@) && data@.len() <= MAX_ROWS && table_summary(
                stations,
            ) == aggregate(readings(data@)) && summary_valid(table_summary(stations)),
            None => !well_formed(data@) || data@.len() > MAX_ROWS,
        },
{
    if data.len() as u64 > MAX_ROWS || !is_well_formed(data) {
        return None;
    }
    let mut stations = new_station_map(SOURCE_BUFFER_SIZE, new_hasher());
    solution(&mut stations, data);
    Some(stations)
}

} // verus!
