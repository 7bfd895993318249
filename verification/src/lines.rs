//! The input as lines, and a line as a station and a temperature.
//!
//! A line ends with a new-line byte; the last line may do without. Empty lines
//! count for nothing. A line that is not empty holds a station name of 1 to 100
//! bytes, a semicolon and a temperature.

use crate::scan::{
    find_from, is_last_index, lemma_next_index, lemma_next_index_unique, next_index,
    search_u8_avx2, NEW_LINE_BYTE, SEMICOLON_BYTE,
};
use crate::stats::{readings_in_range, Reading};
use crate::temperature::{is_temperature, is_valid_temperature, temperature_tenths};
use vstd::prelude::*;
use vstd::slice::slice_subrange;

verus! {

/// The longest station name, in bytes.
pub const MAX_NAME_LEN: usize = 100;

/// Where the line that starts at `from` ends: at the next new-line byte, or at
/// the end of `s`.
pub open spec fn line_end(s: Seq<u8>, from: int) -> int {
    next_index(s, 10, from)
}

/// The lines of `s` from `from` on that are not empty, in order, each without
/// its new-line byte. `from` is where a line starts.
pub open spec fn lines_from(s: Seq<u8>, from: int) -> Seq<Seq<u8>>
    decreases s.len() + 1 - from,
    via lines_from_decreases
{
    if from < 0 || from >= s.len() {
        Seq::empty()
    } else {
        let end = line_end(s, from);
        let rest = lines_from(s, end + 1);
        if end == from {
            rest
        } else {
            seq![s.subrange(from, end)] + rest
        }
    }
}

/// The next line starts after the one before it.
#[via_fn]
proof fn lines_from_decreases(s: Seq<u8>, from: int) {
    if 0 <= from < s.len() {
        lemma_next_index(s, 10, from);
    }
}

/// The lines of `s` that are not empty, in order.
pub open spec fn nonempty_lines(s: Seq<u8>) -> Seq<Seq<u8>> {
    lines_from(s, 0)
}

/// `p` is where a line of `s` starts or where `s` ends.
pub open spec fn is_line_start(s: Seq<u8>, p: int) -> bool {
    0 <= p <= s.len() && (p == 0 || p == s.len() || s[p - 1] == 10)
}

/// The length of the station name of `line`: the bytes before its first
/// semicolon.
pub open spec fn name_len(line: Seq<u8>) -> int {
    next_index(line, 59, 0)
}

/// `line` holds a station name of 1 to 100 bytes, a semicolon and a
/// temperature, and no new-line byte.
pub open spec fn is_measurement(line: Seq<u8>) -> bool {
    &&& 1 <= name_len(line) <= 100
    &&& name_len(line) < line.len()
    &&& is_temperature(line.skip(name_len(line) + 1))
    &&& forall|j: int| 0 <= j < name_len(line) ==> line[j] != 10
}

/// The station and the temperature of a line.
pub open spec fn reading_of(line: Seq<u8>) -> Reading {
    Reading {
        station: line.take(name_len(line)),
        tenths: temperature_tenths(line.skip(name_len(line) + 1)),
    }
}

/// The readings of the lines of `s` that are not empty, in order.
pub open spec fn readings(s: Seq<u8>) -> Seq<Reading> {
    nonempty_lines(s).map_values(|line: Seq<u8>| reading_of(line))
}

/// Every line of `s` that is not empty is a measurement.
pub open spec fn well_formed(s: Seq<u8>) -> bool {
    forall|i: int|
        0 <= i < nonempty_lines(s).len() ==> is_measurement(#[trigger] nonempty_lines(s)[i])
}

/// The lines from `from` on are those of the rest of `s` from `from`.
pub proof fn lemma_lines_from_skip(s: Seq<u8>, p: int, from: int)
    requires
        0 <= p <= s.len(),
        0 <= from,
    ensures
        lines_from(s, p + from) == lines_from(s.skip(p), from),
    decreases s.len() + 1 - (p + from),
{
    let t = s.skip(p);
    if p + from < s.len() {
        lemma_next_index(s, 10, p + from);
        let end = line_end(s, p + from);
        assert(line_end(t, from) == end - p) by {
            lemma_next_index_unique(t, 10, from, end - p);
        }
        lemma_lines_from_skip(s, p, end + 1 - p);
        assert(s.subrange(p + from, end) =~= t.subrange(from, end - p));
    }
}

/// Where a line starts at `p`, the lines from an earlier start on are those
/// that end before `p` and then those from `p` on.
pub proof fn lemma_lines_from_split(s: Seq<u8>, from: int, p: int)
    requires
        0 <= from <= p <= s.len(),
        p == from || p == s.len() || s[p - 1] == 10,
    ensures
        lines_from(s, from) == lines_from(s.take(p), from) + lines_from(s, p),
    decreases p - from,
{
    let t = s.take(p);
    if from < p && p == s.len() {
        assert(t =~= s);
    } else if from < p {
        lemma_next_index(s, 10, from);
        let end = line_end(s, from);
        assert(line_end(t, from) == end) by {
            lemma_next_index_unique(t, 10, from, end);
        }
        lemma_lines_from_split(s, end + 1, p);
        assert(s.subrange(from, end) =~= t.subrange(from, end));
    }
}

/// Cut where a line starts, the input has the lines of the part before the cut
/// and then those of the part after it.
pub proof fn lemma_lines_split(s: Seq<u8>, p: int)
    requires
        is_line_start(s, p),
    ensures
        nonempty_lines(s) == nonempty_lines(s.take(p)) + nonempty_lines(s.skip(p)),
        readings(s) == readings(s.take(p)) + readings(s.skip(p)),
        well_formed(s) <==> well_formed(s.take(p)) && well_formed(s.skip(p)),
{
    lemma_lines_from_split(s, 0, p);
    lemma_lines_from_skip(s, p, 0);
    let a = nonempty_lines(s.take(p));
    let b = nonempty_lines(s.skip(p));
    if well_formed(s) {
        assert forall|i: int| 0 <= i < a.len() implies is_measurement(#[trigger] a[i]) by {
            assert(nonempty_lines(s)[i] == a[i]);
        }
        assert forall|i: int| 0 <= i < b.len() implies is_measurement(#[trigger] b[i]) by {
            assert(nonempty_lines(s)[a.len() + i] == b[i]);
        }
    }
}

/// An input of one line, with or without its new-line byte, has that line if
/// it is not empty, and no other.
pub proof fn lemma_lines_of_one(s: Seq<u8>)
    requires
        s.len() > 0,
        line_end(s, 0) >= s.len() - 1,
    ensures
        nonempty_lines(s) == if line_end(s, 0) == 0 {
            Seq::<Seq<u8>>::empty()
        } else {
            seq![s.take(line_end(s, 0))]
        },
{
    let end = line_end(s, 0);
    assert(lines_from(s, end + 1) =~= Seq::<Seq<u8>>::empty());
}

/// From any line start on, a new-line byte after a last line that has none
/// adds no line.
proof fn lemma_lines_from_push(s: Seq<u8>, from: int)
    requires
        s.len() > 0,
        s.last() != 10,
        0 <= from <= s.len(),
    ensures
        lines_from(s.push(10), from) == lines_from(s, from),
    decreases s.len() - from,
{
    let t = s.push(10);
    let len = s.len() as int;
    assert(lines_from(t, len + 1) =~= Seq::<Seq<u8>>::empty());
    assert(lines_from(s, len + 1) =~= Seq::<Seq<u8>>::empty());
    if from < len {
        lemma_next_index(s, 10, from);
        let end = line_end(s, from);
        assert(line_end(t, from) == end) by {
            lemma_next_index_unique(t, 10, from, end);
        }
        assert(t.subrange(from, end) =~= s.subrange(from, end));
        if end < len {
            lemma_lines_from_push(s, end + 1);
        }
    }
}

/// A new-line byte after a last line that has none adds no line: the input
/// has the same lines, and the same readings, with it as without.
pub proof fn lemma_trailing_new_line(s: Seq<u8>)
    requires
        s.len() > 0,
        s.last() != 10,
    ensures
        nonempty_lines(s.push(10)) == nonempty_lines(s),
        readings(s.push(10)) == readings(s),
        well_formed(s.push(10)) <==> well_formed(s),
{
    lemma_lines_from_push(s, 0);
}

/// An empty line put in where a line starts adds nothing: the input has the
/// same lines with it as without.
pub proof fn lemma_empty_line(s: Seq<u8>, p: int)
    requires
        0 <= p <= s.len(),
        p == 0 || s[p - 1] == 10,
    ensures
        nonempty_lines(s.take(p) + seq![10u8] + s.skip(p)) == nonempty_lines(s),
        readings(s.take(p) + seq![10u8] + s.skip(p)) == readings(s),
{
    let t = s.take(p) + seq![10u8] + s.skip(p);
    let tail = t.skip(p);
    assert(t.take(p) =~= s.take(p));
    lemma_lines_split(t, p);
    assert(tail.take(1) =~= seq![10u8]);
    assert(tail.skip(1) =~= s.skip(p));
    lemma_lines_split(tail, 1);
    lemma_lines_of_one(seq![10u8]);
    lemma_lines_split(s, p);
}

/// Each line has at least one byte and no new-line byte, and the lines
/// together are no longer than the input.
pub proof fn lemma_lines_shape(s: Seq<u8>, from: int)
    requires
        0 <= from <= s.len(),
    ensures
        lines_from(s, from).len() <= s.len() - from,
        forall|i: int|
            0 <= i < lines_from(s, from).len() ==> (#[trigger] lines_from(s, from)[i]).len() > 0,
        forall|i: int, j: int|
            0 <= i < lines_from(s, from).len() && 0 <= j < lines_from(s, from)[i].len()
                ==> #[trigger] lines_from(s, from)[i][j] != 10,
    decreases s.len() - from,
{
    if from < s.len() {
        lemma_next_index(s, 10, from);
        let end = line_end(s, from);
        if end + 1 <= s.len() {
            lemma_lines_shape(s, end + 1);
        }
    }
}

/// The readings of a well-formed input lie within the format's range, and
/// there are no more of them than bytes.
pub proof fn lemma_readings_in_range(s: Seq<u8>)
    requires
        well_formed(s),
    ensures
        readings_in_range(readings(s)),
        readings(s).len() == nonempty_lines(s).len(),
        readings(s).len() <= s.len(),
{
    lemma_lines_shape(s, 0);
}

/// In a measurement the semicolon after the name is the only one, so a search
/// from either end finds it.
pub proof fn lemma_measurement_semicolon(line: Seq<u8>, i: int)
    requires
        is_measurement(line),
        is_last_index(line, 59, i),
    ensures
        i == name_len(line),
{
    lemma_next_index(line, 59, 0);
}

/// Whether `line` is a measurement.
pub fn is_valid_line(line: &[u8]) -> (ok: bool)
    ensures
        ok == is_measurement(line@),
{
    let len: usize = line.len();
    let semicolon: usize = match search_u8_avx2(line, SEMICOLON_BYTE) {
        Some(i) => i,
        None => len,
    };
    proof {
        lemma_next_index_unique(line@, 59, 0, semicolon as int);
    }
    if semicolon < 1 || semicolon > MAX_NAME_LEN || semicolon >= len {
        return false;
    }
    let name = slice_subrange(line, 0, semicolon);
    let temp = slice_subrange(line, semicolon + 1, len);
    match search_u8_avx2(name, NEW_LINE_BYTE) {
        Some(_) => false,
        None => {
            assert forall|j: int| 0 <= j < semicolon implies line@[j] != 10 by {
                assert(name@[j] == line@[j]);
            }
            is_valid_temperature(temp)
        },
    }
}

/// `p` is where the first line of `s` starts that is neither empty nor a
/// measurement.
pub open spec fn is_first_malformed(s: Seq<u8>, p: int) -> bool {
    &&& is_line_start(s, p)
    &&& p < s.len()
    &&& well_formed(s.take(p))
    &&& line_end(s, p) > p
    &&& !is_measurement(s.subrange(p, line_end(s, p)))
}

/// Where the first line of `data` starts that is neither empty nor a
/// measurement, or `None` where every line is one or the other.
pub fn first_malformed_line(data: &[u8]) -> (found: Option<usize>)
    ensures
        match found {
            Some(p) => is_first_malformed(data@, p as int) && !well_formed(data@),
            None => well_formed(data@),
        },
{
    let len: usize = data.len();
    let mut cursor: usize = 0;
    while cursor < len
        invariant
            cursor <= len == data@.len(),
            is_line_start(data@, cursor as int),
            well_formed(data@.take(cursor as int)),
        decreases len - cursor,
    {
        let end: usize = find_from(data, NEW_LINE_BYTE, cursor);
        let next: usize = if end < len {
            end + 1
        } else {
            len
        };
        let line = slice_subrange(data, cursor, end);
        proof {
            lemma_line_step(data@, cursor as int, next as int);
        }
        if end > cursor && !is_valid_line(line) {
            proof {
                lemma_lines_split(data@, next as int);
            }
            return Some(cursor);
        }
        cursor = next;
    }
    assert(data@.take(len as int) =~= data@);
    None
}

/// Whether every line of `data` that is not empty is a measurement.
pub fn is_well_formed(data: &[u8]) -> (ok: bool)
    ensures
        ok == well_formed(data@),
{
    first_malformed_line(data).is_none()
}

/// One step along the lines of `s`: from the line start `cursor` to the next
/// line start `next`, the part of `s` before `next` gains the line between the
/// two, if it is not empty.
pub proof fn lemma_line_step(s: Seq<u8>, cursor: int, next: int)
    requires
        is_line_start(s, cursor),
        cursor < s.len(),
        next == if line_end(s, cursor) < s.len() {
            line_end(s, cursor) + 1
        } else {
            s.len() as int
        },
    ensures
        is_line_start(s, next),
        cursor < next <= s.len(),
        nonempty_lines(s.take(next)) == nonempty_lines(s.take(cursor)) + if line_end(s, cursor)
            == cursor {
            Seq::<Seq<u8>>::empty()
        } else {
            seq![s.subrange(cursor, line_end(s, cursor))]
        },
        well_formed(s.take(next)) <==> well_formed(s.take(cursor)) && (line_end(s, cursor)
            == cursor || is_measurement(s.subrange(cursor, line_end(s, cursor)))),
{
    lemma_next_index(s, 10, cursor);
    let end = line_end(s, cursor);
    let head = s.take(next);
    let one = head.skip(cursor);
    assert(head.take(cursor) =~= s.take(cursor));
    lemma_lines_split(head, cursor);
    assert(line_end(one, 0) == end - cursor) by {
        lemma_next_index_unique(one, 10, 0, end - cursor);
    }
    lemma_lines_of_one(one);
    assert(one.take(end - cursor) =~= s.subrange(cursor, end));
    if end != cursor {
        if well_formed(one) {
            assert(is_measurement(nonempty_lines(one)[0]));
        }
    }
}

} // verus!
