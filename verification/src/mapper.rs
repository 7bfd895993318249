//! The scan of one shard: every line is read and taken into a table of the
//! shard's own.

use crate::lines::{
    is_line_start, lemma_line_step, lemma_lines_split, lemma_measurement_semicolon,
    lemma_readings_in_range, name_len, readings, well_formed,
};
use crate::scan::{
    find_from, lemma_next_index, search_u8_sse2_reverse, NEW_LINE_BYTE, SEMICOLON_BYTE,
};
use crate::stats::{
    aggregate, counts_within, lemma_aggregate_valid, lemma_sum_bound, observe, summary_valid,
    ProcessedStation, Reading, MAX_ROWS,
};
use crate::pool::worker_count;
use crate::table::{
    new_hasher, new_station_map, record_of, store, table_summary, StationMap, SOURCE_BUFFER_SIZE,
};
use crate::temperature::parse_to_i16_simd;
use vstd::prelude::*;
use vstd::slice::{slice_subrange, slice_to_vec};

verus! {

/// Takes one reading into the table: the station's record is widened to hold
/// it, or the station is entered with a record of this reading alone.
pub fn record_reading(stations: &mut StationMap, name: &[u8], value: i16)
    requires
        summary_valid(table_summary(*old(stations))),
        counts_within(table_summary(*old(stations)), MAX_ROWS - 1),
        -999 <= value <= 999,
    ensures
        table_summary(*final(stations)) == observe(
            table_summary(*old(stations)),
            Reading { station: name@, tenths: value as int },
        ),
{
    let ghost before = table_summary(*stations);
    match record_of(stations, name) {
        Some(station) => {
            proof {
                assert(before[name@] == station@);
                lemma_sum_bound(station@);
            }
            if value < station.0 {
                station.0 = value;
            }
            if value > station.1 {
                station.1 = value;
            }
            station.2 = station.2 + value as i64;
            station.3 = station.3 + 1;
        },
        None => {
            store(stations, slice_to_vec(name), ProcessedStation(value, value, value as i64, 1));
        },
    }
}

/// The summary of the lines of `data` between `start_idx` and `end_idx`.
///
/// The range is walked line by line. Each line that is not empty is cut at its
/// semicolon, found from the line's end, and its temperature is taken into the
/// record of its station. A last line without a new-line byte counts like any
/// other.
pub fn thread(data: &[u8], start_idx: usize, end_idx: usize) -> (stations: StationMap)
    requires
        start_idx <= end_idx <= data@.len(),
        end_idx - start_idx <= MAX_ROWS,
        well_formed(data@.subrange(start_idx as int, end_idx as int)),
    ensures
        table_summary(stations) == aggregate(
            readings(data@.subrange(start_idx as int, end_idx as int)),
        ),
        summary_valid(table_summary(stations)),
        counts_within(table_summary(stations), end_idx - start_idx),
{
    let workers: usize = worker_count();
    let capacity: usize = if workers == 0 {
        SOURCE_BUFFER_SIZE
    } else {
        SOURCE_BUFFER_SIZE / workers
    };
    let hash_builder = new_hasher();
    let mut stations = new_station_map(capacity, hash_builder);
    let shard = slice_subrange(data, start_idx, end_idx);
    let len: usize = shard.len();
    let mut last_pos: usize = 0;
    while last_pos < len
        invariant
            last_pos <= len == shard@.len(),
            len <= MAX_ROWS,
            well_formed(shard@),
            is_line_start(shard@, last_pos as int),
            table_summary(stations) == aggregate(readings(shard@.take(last_pos as int))),
        decreases len - last_pos,
    {
        let next_pos: usize = find_from(shard, NEW_LINE_BYTE, last_pos);
        let following: usize = if next_pos < len {
            next_pos + 1
        } else {
            len
        };
        let line = slice_subrange(shard, last_pos, next_pos);
        proof {
            lemma_line_step(shard@, last_pos as int, following as int);
            lemma_lines_split(shard@, following as int);
            lemma_readings_in_range(shard@.take(last_pos as int));
            lemma_aggregate_valid(readings(shard@.take(last_pos as int)));
        }
        if next_pos > last_pos {
            let ghost done = readings(shard@.take(last_pos as int));
            proof {
                assert(line@[name_len(line@)] == 59) by {
                    lemma_next_index(line@, 59, 0);
                }
            }
            let semicolon = search_u8_sse2_reverse(line, SEMICOLON_BYTE);
            let semicolon_idx: usize = semicolon.unwrap();
            proof {
                lemma_measurement_semicolon(line@, semicolon_idx as int);
            }
            let name = slice_subrange(line, 0, semicolon_idx);
            let temp = slice_subrange(line, semicolon_idx + 1, line.len());
            let value: i16 = parse_to_i16_simd(temp);
            record_reading(&mut stations, name, value);
            proof {
                let more = readings(shard@.take(following as int));
                assert(more.drop_last() =~= done);
            }
        }
        last_pos = following;
    }
    proof {
        assert(shard@.take(len as int) =~= shard@);
        lemma_readings_in_range(shard@);
        lemma_aggregate_valid(readings(shard@));
    }
    stations
}

} // verus!
