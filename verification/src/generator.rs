//! The making of an input: station names are read from a dictionary, and rows
//! are written with a station and a temperature drawn at random.

use crate::lines::{
    is_line_start, is_measurement, lemma_line_step, lemma_lines_of_one, lemma_lines_split,
    line_end, name_len, nonempty_lines, reading_of, readings, well_formed,
};
use crate::scan::{find_from, lemma_next_index_unique, NEW_LINE_BYTE, SEMICOLON_BYTE};
use crate::stats::Reading;
use crate::table::{
    add_name, drain_names, new_hasher, new_name_set, set_names, NameSet, SOURCE_BUFFER_SIZE,
};
use crate::temperature::{push_tenths, render_tenths, COLDEST_TEMP, HOTTEST_TEMP};
use vstd::prelude::*;
use vstd::slice::{slice_subrange, slice_to_vec};

verus! {

/// The number of batches that the rows are made in.
pub const BATCHES: u64 = 1_000;

/// The byte that opens a comment line of the dictionary.
pub const COMMENT_BYTE: u8 = 35;

/// `line` is a comment of the dictionary.
pub open spec fn is_comment(line: Seq<u8>) -> bool {
    line.len() > 0 && line[0] == 35
}

/// The station of a dictionary line: what stands before its first semicolon,
/// or the whole line where it has none.
pub open spec fn station_field(line: Seq<u8>) -> Seq<u8> {
    line.take(name_len(line))
}

/// The stations of the lines that are no comments.
pub open spec fn names_of_lines(lines: Seq<Seq<u8>>) -> Set<Seq<u8>> {
    Set::new(
        |k: Seq<u8>|
            exists|i: int|
                0 <= i < lines.len() && !is_comment(#[trigger] lines[i]) && station_field(lines[i])
                    == k,
    )
}

/// The stations that a dictionary names: one for each line that is neither
/// empty nor a comment.
pub open spec fn dictionary_names(s: Seq<u8>) -> Set<Seq<u8>> {
    names_of_lines(nonempty_lines(s))
}

/// The names that a list holds.
pub open spec fn listed_names(names: Seq<Vec<u8>>) -> Set<Seq<u8>> {
    Set::new(|k: Seq<u8>| exists|i: int| 0 <= i < names.len() && (#[trigger] names[i])@ == k)
}

/// One row of the input: the station, a semicolon, the temperature and a
/// new-line byte.
pub open spec fn render_row(r: Reading) -> Seq<u8> {
    r.station + seq![59u8] + render_tenths(r.tenths) + seq![10u8]
}

/// The rows of the readings, one after the other.
pub open spec fn render_rows(rs: Seq<Reading>) -> Seq<u8>
    decreases rs.len(),
{
    if rs.len() == 0 {
        Seq::empty()
    } else {
        render_rows(rs.drop_last()) + render_row(rs.last())
    }
}

/// Each reading has a station of `stations` and a temperature within the
/// format's range.
pub open spec fn drawn_from(rs: Seq<Reading>, stations: Set<Seq<u8>>) -> bool {
    forall|i: int|
        0 <= i < rs.len() ==> stations.contains((#[trigger] rs[i]).station) && -999
            <= rs[i].tenths <= 999
}

/// `text` is `rows` rows, each with a station of `stations` and a temperature
/// within the format's range.
pub open spec fn is_rows_of(text: Seq<u8>, rows: int, stations: Set<Seq<u8>>) -> bool {
    exists|rs: Seq<Reading>|
        rs.len() == rows && drawn_from(rs, stations) && text == #[trigger] render_rows(rs)
}

/// `name` can stand in a measurement: 1 to 100 bytes, none of them a semicolon
/// or a new-line byte.
pub open spec fn is_station_name(name: Seq<u8>) -> bool {
    &&& 1 <= name.len() <= 100
    &&& forall|j: int| 0 <= j < name.len() ==> name[j] != 59 && name[j] != 10
}

/// The rows of batch `batch` when `num_rows` rows are dealt out evenly over
/// the batches, the first batches taking the remainder.
pub open spec fn batch_share(num_rows: int, batch: int) -> int {
    num_rows / 1000 + if batch < num_rows % 1000 {
        1int
    } else {
        0int
    }
}

/// The rows of the first `upto` batches together.
pub open spec fn rows_before(num_rows: int, upto: int) -> int {
    upto * (num_rows / 1000) + if upto < num_rows % 1000 {
        upto
    } else {
        num_rows % 1000
    }
}

/// The batches together hold every row, and each batch starts where the one
/// before it ends.
pub proof fn lemma_batches_cover(num_rows: int, batch: int)
    requires
        0 <= num_rows,
        0 <= batch < 1000,
    ensures
        rows_before(num_rows, 0) == 0,
        rows_before(num_rows, 1000) == num_rows,
        rows_before(num_rows, batch + 1) == rows_before(num_rows, batch) + batch_share(
            num_rows,
            batch,
        ),
        0 <= batch_share(num_rows, batch) <= num_rows,
        0 <= rows_before(num_rows, batch) <= num_rows,
{
    let q = num_rows / 1000;
    assert((batch + 1) * q == batch * q + q) by (nonlinear_arith);
    assert(0 <= batch * q <= 1000 * q) by (nonlinear_arith)
        requires
            0 <= batch <= 1000,
            0 <= q,
    ;
}

/// A row is one line, and that line reads back as the reading it was made of.
pub proof fn lemma_row_reads_back(r: Reading)
    requires
        is_station_name(r.station),
        -999 <= r.tenths <= 999,
    ensures
        nonempty_lines(render_row(r)) == seq![r.station + seq![59u8] + render_tenths(r.tenths)],
        is_measurement(r.station + seq![59u8] + render_tenths(r.tenths)),
        reading_of(r.station + seq![59u8] + render_tenths(r.tenths)) == r,
{
    let text = render_tenths(r.tenths);
    let line = r.station + seq![59u8] + text;
    let row = render_row(r);
    let n = r.station.len() as int;
    assert(line_end(row, 0) == line.len()) by {
        lemma_next_index_unique(row, 10, 0, line.len() as int);
    }
    lemma_lines_of_one(row);
    assert(row.take(line.len() as int) =~= line);
    assert(name_len(line) == n) by {
        lemma_next_index_unique(line, 59, 0, n);
    }
    assert(line.take(n) =~= r.station);
}

/// Rows made of station names read back as the readings they were made of,
/// one line each.
pub proof fn lemma_rows_read_back(rs: Seq<Reading>)
    requires
        forall|i: int| 0 <= i < rs.len() ==> is_station_name((#[trigger] rs[i]).station),
        forall|i: int| 0 <= i < rs.len() ==> -999 <= (#[trigger] rs[i]).tenths <= 999,
    ensures
        well_formed(render_rows(rs)),
        readings(render_rows(rs)) == rs,
        rs.len() > 0 ==> render_rows(rs).len() > 0 && render_rows(rs).last() == 10,
    decreases rs.len(),
{
    if rs.len() > 0 {
        let text = render_rows(rs);
        let head = render_rows(rs.drop_last());
        let row = render_row(rs.last());
        lemma_rows_read_back(rs.drop_last());
        lemma_row_reads_back(rs.last());
        let p = head.len() as int;
        assert(text.take(p) =~= head);
        assert(text.skip(p) =~= row);
        lemma_lines_split(text, p);
    }
}

/// A random index below `len`, drawn by `fastrand::usize` from `0..len`.
///
/// Trusted: the draw lies in the range. An empty range is left out, on which
/// that function panics.
#[verifier::external_body]
pub(crate) fn random_index(len: usize) -> (index: usize)
    requires
        len > 0,
    ensures
        index < len,
{
    fastrand::usize(0..len)
}

/// A random number from `low` to `high`, drawn by `fastrand::i16` from
/// `low..=high`.
///
/// Trusted: the draw lies in the range. An empty range is left out, on which
/// that function panics.
#[verifier::external_body]
pub(crate) fn random_between(low: i16, high: i16) -> (drawn: i16)
    requires
        low <= high,
    ensures
        low <= drawn <= high,
{
    fastrand::i16(low..=high)
}

/// One more line adds its station to the names, unless it is a comment.
pub proof fn lemma_names_of_lines_push(lines: Seq<Seq<u8>>, line: Seq<u8>)
    ensures
        names_of_lines(lines.push(line)) == if is_comment(line) {
            names_of_lines(lines)
        } else {
            names_of_lines(lines).insert(station_field(line))
        },
{
    let more = lines.push(line);
    let expected = if is_comment(line) {
        names_of_lines(lines)
    } else {
        names_of_lines(lines).insert(station_field(line))
    };
    assert forall|k: Seq<u8>| expected.contains(k) implies names_of_lines(more).contains(k) by {
        if names_of_lines(lines).contains(k) {
            let i = choose|i: int|
                0 <= i < lines.len() && !is_comment(#[trigger] lines[i]) && station_field(lines[i])
                    == k;
            assert(more[i] == lines[i]);
        } else {
            assert(more[lines.len() as int] == line);
        }
    }
}

/// Enters in `name_set` the station of every line of the dictionary `data`
/// that is neither empty nor a comment.
pub fn build_weather_station_name_list(name_set: &mut NameSet, data: &[u8])
    ensures
        set_names(*final(name_set)) == set_names(*old(name_set)).union(dictionary_names(data@)),
{
    let len: usize = data.len();
    let mut last_pos: usize = 0;
    let ghost before = set_names(*name_set);
    while last_pos < len
        invariant
            last_pos <= len == data@.len(),
            before == set_names(*old(name_set)),
            is_line_start(data@, last_pos as int),
            set_names(*name_set) == before.union(dictionary_names(data@.take(last_pos as int))),
        decreases len - last_pos,
    {
        let next_pos: usize = find_from(data, NEW_LINE_BYTE, last_pos);
        let following: usize = if next_pos < len {
            next_pos + 1
        } else {
            len
        };
        let line = slice_subrange(data, last_pos, next_pos);
        let ghost seen = nonempty_lines(data@.take(last_pos as int));
        proof {
            lemma_line_step(data@, last_pos as int, following as int);
            if next_pos > last_pos {
                assert(nonempty_lines(data@.take(following as int)) =~= seen.push(line@));
                lemma_names_of_lines_push(seen, line@);
            }
        }
        if next_pos > last_pos && line[0] != COMMENT_BYTE {
            let separator: usize = find_from(line, SEMICOLON_BYTE, 0);
            let name = slice_subrange(line, 0, separator);
            add_name(name_set, slice_to_vec(name));
        }
        last_pos = following;
    }
    assert(data@.take(len as int) =~= data@);
}

/// Appends one row to `buffer`: the station, a semicolon, the temperature and
/// a new-line byte.
pub fn push_measurement(buffer: &mut Vec<u8>, name: &[u8], tenths: i16)
    requires
        -999 <= tenths <= 999,
    ensures
        final(buffer)@ == old(buffer)@ + render_row(
            Reading { station: name@, tenths: tenths as int },
        ),
{
    buffer.extend_from_slice(name);
    buffer.push(SEMICOLON_BYTE);
    push_tenths(buffer, tenths);
    buffer.push(NEW_LINE_BYTE);
}

/// Appends `rows` rows to `buffer`, each with a station drawn from `names` and
/// a temperature drawn from the format's range.
pub fn fill_batch(names: &Vec<Vec<u8>>, rows: usize, buffer: &mut Vec<u8>)
    requires
        names@.len() > 0,
    ensures
        final(buffer)@.len() >= old(buffer)@.len(),
        final(buffer)@.take(old(buffer)@.len() as int) == old(buffer)@,
        is_rows_of(
            final(buffer)@.skip(old(buffer)@.len() as int),
            rows as int,
            listed_names(names@),
        ),
{
    let ghost start = buffer@;
    let ghost mut drawn: Seq<Reading> = Seq::empty();
    let mut made: usize = 0;
    while made < rows
        invariant
            made <= rows,
            names@.len() > 0,
            drawn.len() == made,
            drawn_from(drawn, listed_names(names@)),
            buffer@ == start + render_rows(drawn),
        decreases rows - made,
    {
        let station_index: usize = random_index(names.len());
        let temp: i16 = random_between(COLDEST_TEMP, HOTTEST_TEMP);
        let name = names[station_index].as_slice();
        push_measurement(buffer, name, temp);
        proof {
            let reading = Reading { station: name@, tenths: temp as int };
            let longer = drawn.push(reading);
            assert(longer.drop_last() =~= drawn);
            drawn = longer;
        }
        made = made + 1;
    }
    proof {
        assert(buffer@.skip(start.len() as int) =~= render_rows(drawn));
    }
}

/// The number of rows of batch `batch`.
pub fn batch_rows(num_rows: usize, batch: u64) -> (rows: usize)
    requires
        batch < BATCHES,
    ensures
        rows == batch_share(num_rows as int, batch as int),
{
    let base: usize = num_rows / 1000;
    let rest: usize = num_rows % 1000;
    if (batch as usize) < rest {
        base + 1
    } else {
        base
    }
}

/// An input of `num_rows_to_create` rows over the stations of `dictionary`,
/// or `None` where the dictionary names no station.
///
/// The stations are read from the dictionary; the rows are made batch by
/// batch, each with a station and a temperature drawn at random.
pub fn build_test_data(num_rows_to_create: usize, dictionary: &[u8]) -> (output: Option<Vec<u8>>)
    ensures
        match output {
            Some(text) => is_rows_of(
                text@,
                num_rows_to_create as int,
                dictionary_names(dictionary@),
            ) && exists|k: Seq<u8>| dictionary_names(dictionary@).contains(k),
            None => forall|k: Seq<u8>| !dictionary_names(dictionary@).contains(k),
        },
{
    let hasher = new_hasher();
    let mut name_set = new_name_set(SOURCE_BUFFER_SIZE, hasher);
    build_weather_station_name_list(&mut name_set, dictionary);
    let name_vec = drain_names(&mut name_set);
    let ghost stations = dictionary_names(dictionary@);
    proof {
        assert(Set::<Seq<u8>>::empty().union(stations) =~= stations);
    }
    if name_vec.len() == 0 {
        return None;
    }
    proof {
        assert(listed_names(name_vec@).contains(name_vec@[0]@));
    }
    let mut output: Vec<u8> = Vec::new();
    let ghost mut drawn: Seq<Reading> = Seq::empty();
    let mut batch: u64 = 0;
    while batch < BATCHES
        invariant
            batch <= BATCHES,
            name_vec@.len() > 0,
            listed_names(name_vec@) == stations,
            drawn.len() == rows_before(num_rows_to_create as int, batch as int),
            drawn_from(drawn, stations),
            output@ == render_rows(drawn),
        decreases BATCHES - batch,
    {
        let rows: usize = batch_rows(num_rows_to_create, batch);
        let ghost before = output@;
        fill_batch(&name_vec, rows, &mut output);
        proof {
            lemma_batches_cover(num_rows_to_create as int, batch as int);
            let tail = output@.skip(before.len() as int);
            let added = choose|rs: Seq<Reading>|
                rs.len() == rows && drawn_from(rs, stations) && tail == #[trigger] render_rows(rs);
            lemma_render_rows_concat(drawn, added);
            drawn = drawn + added;
        }
        batch = batch + 1;
    }
    Some(output)
}

/// The rows of two runs of readings, one after the other, are the rows of the
/// first and then the rows of the second.
pub proof fn lemma_render_rows_concat(a: Seq<Reading>, b: Seq<Reading>)
    ensures
        render_rows(a + b) == render_rows(a) + render_rows(b),
    decreases b.len(),
{
    if b.len() > 0 {
        assert((a + b).drop_last() =~= a + b.drop_last());
        lemma_render_rows_concat(a, b.drop_last());
    }
}

} // verus!
