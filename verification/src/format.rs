//! The table as one line of text: `{name=min/mean/max, ...}`, the stations in
//! the order of their names' bytes.

use crate::stats::{
    lemma_mean_between, mean_tenths, stats_valid, summary_valid, ProcessedStation, Stats, Summary,
};
use crate::table::{entries_of, is_listing, table_entries, table_summary, StationMap};
use crate::temperature::{push_tenths, render_tenths};
use vstd::prelude::*;
use vstd::slice::slice_to_vec;

verus! {

/// ASCII `=`.
pub const EQUALS_BYTE: u8 = 61;

/// ASCII `/`.
pub const SLASH_BYTE: u8 = 47;

/// ASCII `,`.
pub const COMMA_BYTE: u8 = 44;

/// ASCII space.
pub const SPACE_BYTE: u8 = 32;

/// ASCII `{`.
pub const OPEN_BYTE: u8 = 123;

/// ASCII `}`.
pub const CLOSE_BYTE: u8 = 125;

/// `a` comes before `b` in the order of their bytes: at the first place where
/// they differ `a` has the lesser byte, or `a` ends there and `b` goes on.
pub open spec fn lex_less(a: Seq<u8>, b: Seq<u8>) -> bool
    decreases a.len(),
{
    if a.len() == 0 {
        b.len() > 0
    } else if b.len() == 0 {
        false
    } else if a[0] != b[0] {
        a[0] < b[0]
    } else {
        lex_less(a.drop_first(), b.drop_first())
    }
}

/// Each name comes before all that follow it.
pub open spec fn strictly_sorted(names: Seq<Seq<u8>>) -> bool {
    forall|i: int, j: int| 0 <= i < j < names.len() ==> lex_less(names[i], names[j])
}

/// `names` holds the members of `stations`, each once, in the order of their
/// bytes.
pub open spec fn is_sorted_listing(names: Seq<Seq<u8>>, stations: Set<Seq<u8>>) -> bool {
    &&& strictly_sorted(names)
    &&& forall|k: Seq<u8>| names.contains(k) <==> stations.contains(k)
}

/// The members of `stations` in the order of their bytes.
pub open spec fn sorted_names(stations: Set<Seq<u8>>) -> Seq<Seq<u8>> {
    choose|names: Seq<Seq<u8>>| is_sorted_listing(names, stations)
}

/// One record as text: the least reading, the mean and the greatest reading
/// with `/` between them. The text depends on the record's four numbers and on
/// nothing else.
pub open spec fn render_record(s: Stats) -> Seq<u8> {
    render_tenths(s.min) + seq![47u8] + render_tenths(mean_tenths(s.sum, s.count)) + seq![47u8]
        + render_tenths(s.max)
}

/// One station as text: its name, `=` and its record.
pub open spec fn render_station(name: Seq<u8>, s: Stats) -> Seq<u8> {
    name + seq![61u8] + render_record(s)
}

/// The stations of `names` as text, with `, ` between one and the next.
pub open spec fn render_stations(names: Seq<Seq<u8>>, m: Summary) -> Seq<u8>
    decreases names.len(),
{
    if names.len() == 0 {
        Seq::empty()
    } else if names.len() == 1 {
        render_station(names[0], m[names[0]])
    } else {
        render_stations(names.drop_last(), m) + seq![44u8, 32u8] + render_station(
            names.last(),
            m[names.last()],
        )
    }
}

/// The summary as text: its stations in the order of their names' bytes,
/// between braces.
pub open spec fn render_summary(m: Summary) -> Seq<u8> {
    seq![123u8] + render_stations(sorted_names(m.dom()), m) + seq![125u8]
}

/// No name comes before itself.
pub proof fn lemma_lex_irreflexive(a: Seq<u8>)
    ensures
        !lex_less(a, a),
    decreases a.len(),
{
    if a.len() > 0 {
        lemma_lex_irreflexive(a.drop_first());
    }
}

/// What comes before a name comes before all that the name comes before.
pub proof fn lemma_lex_transitive(a: Seq<u8>, b: Seq<u8>, c: Seq<u8>)
    requires
        lex_less(a, b),
        lex_less(b, c),
    ensures
        lex_less(a, c),
    decreases a.len(),
{
    if a.len() > 0 && b.len() > 0 && c.len() > 0 && a[0] == b[0] && b[0] == c[0] {
        lemma_lex_transitive(a.drop_first(), b.drop_first(), c.drop_first());
    }
}

/// Of two different names one comes before the other.
pub proof fn lemma_lex_total(a: Seq<u8>, b: Seq<u8>)
    requires
        a != b,
    ensures
        lex_less(a, b) || lex_less(b, a),
    decreases a.len(),
{
    if a.len() > 0 && b.len() > 0 && a[0] == b[0] {
        if a.drop_first() == b.drop_first() {
            assert(a =~= seq![a[0]] + a.drop_first());
            assert(b =~= seq![b[0]] + b.drop_first());
        } else {
            lemma_lex_total(a.drop_first(), b.drop_first());
        }
    } else if a.len() == 0 && b.len() == 0 {
        assert(a =~= b);
    }
}

/// A set of names has at most one sorted listing, so the text of a summary is
/// settled by the summary alone.
pub proof fn lemma_sorted_listing_unique(a: Seq<Seq<u8>>, b: Seq<Seq<u8>>)
    requires
        strictly_sorted(a),
        strictly_sorted(b),
        forall|k: Seq<u8>| a.contains(k) <==> b.contains(k),
    ensures
        a == b,
    decreases a.len(),
{
    if a.len() == 0 {
        if b.len() > 0 {
            assert(b.contains(b[0]));
        }
    } else {
        let x = a.last();
        assert(b.contains(x));
        let j = choose|j: int| 0 <= j < b.len() && b[j] == x;
        let y = b.last();
        assert(a.contains(y));
        let i = choose|i: int| 0 <= i < a.len() && a[i] == y;
        assert(x == y) by {
            if i < a.len() - 1 && j < b.len() - 1 {
                lemma_lex_transitive(y, x, y);
                lemma_lex_irreflexive(y);
            }
        }
        lemma_lex_irreflexive(x);
        let a0 = a.drop_last();
        let b0 = b.drop_last();
        assert forall|k: Seq<u8>| a0.contains(k) <==> b0.contains(k) by {
            if a0.contains(k) {
                assert(a.contains(k));
                let q = choose|q: int| 0 <= q < b.len() && b[q] == k;
                assert(b0[q] == k);
            }
            if b0.contains(k) {
                assert(b.contains(k));
                let p = choose|p: int| 0 <= p < a.len() && a[p] == k;
                assert(a0[p] == k);
            }
        }
        lemma_sorted_listing_unique(a0, b0);
        assert(b =~= b0.push(y));
    }
}

/// Where `k` goes among the sorted `names`: after all that come before it.
pub open spec fn insertion_point(names: Seq<Seq<u8>>, k: Seq<u8>) -> int
    decreases names.len(),
{
    if names.len() == 0 {
        0
    } else if lex_less(names.last(), k) {
        names.len() as int
    } else {
        insertion_point(names.drop_last(), k)
    }
}

/// The insertion point parts the names into those before `k` and those after.
proof fn lemma_insertion_point(names: Seq<Seq<u8>>, k: Seq<u8>)
    requires
        strictly_sorted(names),
        !names.contains(k),
    ensures
        0 <= insertion_point(names, k) <= names.len(),
        forall|i: int| 0 <= i < insertion_point(names, k) ==> lex_less(names[i], k),
        forall|i: int| insertion_point(names, k) <= i < names.len() ==> lex_less(k, names[i]),
    decreases names.len(),
{
    if names.len() > 0 {
        let last = names.last();
        if lex_less(last, k) {
            assert forall|i: int| 0 <= i < names.len() implies lex_less(names[i], k) by {
                if i < names.len() - 1 {
                    lemma_lex_transitive(names[i], last, k);
                }
            }
        } else {
            let fewer = names.drop_last();
            lemma_insertion_point(fewer, k);
            lemma_lex_total(k, last);
            assert forall|i: int| insertion_point(names, k) <= i < names.len() implies lex_less(
                k,
                names[i],
            ) by {
                if i < names.len() - 1 {
                    assert(fewer[i] == names[i]);
                }
            }
            assert forall|i: int| 0 <= i < insertion_point(names, k) implies lex_less(
                names[i],
                k,
            ) by {
                assert(fewer[i] == names[i]);
            }
        }
    }
}

/// Every finite set of names has a sorted listing, and `sorted_names` is it.
pub proof fn lemma_sorted_names_exist(stations: Set<Seq<u8>>)
    requires
        stations.finite(),
    ensures
        is_sorted_listing(sorted_names(stations), stations),
    decreases stations.len(),
{
    if stations.is_empty() {
        let none = Seq::<Seq<u8>>::empty();
        assert(is_sorted_listing(none, stations));
    } else {
        let k = stations.choose();
        let rest = stations.remove(k);
        lemma_sorted_names_exist(rest);
        let fewer = sorted_names(rest);
        lemma_insertion_point(fewer, k);
        let pos = insertion_point(fewer, k);
        let names = fewer.insert(pos, k);
        assert forall|i: int, j: int| 0 <= i < j < names.len() implies lex_less(
            names[i],
            names[j],
        ) by {}
        assert forall|x: Seq<u8>| names.contains(x) <==> stations.contains(x) by {
            if stations.contains(x) {
                if x == k {
                    assert(names[pos] == x);
                } else {
                    let i = choose|i: int| 0 <= i < fewer.len() && fewer[i] == x;
                    if i < pos {
                        assert(names[i] == x);
                    } else {
                        assert(names[i + 1] == x);
                    }
                }
            }
        }
        assert(is_sorted_listing(names, stations));
    }
}

/// A sorted listing of a set of names is the one that `sorted_names` picks.
pub proof fn lemma_sorted_names(names: Seq<Seq<u8>>, stations: Set<Seq<u8>>)
    requires
        is_sorted_listing(names, stations),
    ensures
        sorted_names(stations) == names,
{
    let picked = sorted_names(stations);
    lemma_sorted_listing_unique(picked, names);
}

/// Whether `a` comes before `b` in the order of their bytes.
pub fn name_less(a: &[u8], b: &[u8]) -> (less: bool)
    ensures
        less == lex_less(a@, b@),
{
    let mut i: usize = 0;
    assert(a@.skip(0) =~= a@ && b@.skip(0) =~= b@);
    while i < a.len() && i < b.len()
        invariant
            i <= a@.len(),
            i <= b@.len(),
            lex_less(a@, b@) == lex_less(a@.skip(i as int), b@.skip(i as int)),
        decreases a@.len() - i,
    {
        if a[i] != b[i] {
            return a[i] < b[i];
        }
        proof {
            assert(a@.skip(i as int).drop_first() =~= a@.skip(i + 1));
            assert(b@.skip(i as int).drop_first() =~= b@.skip(i + 1));
        }
        i = i + 1;
    }
    i < b.len()
}

/// The mean of a record in tenths, rounded to the nearest tenth, a half away
/// from zero.
pub fn mean_of(record: ProcessedStation) -> (mean: i16)
    requires
        stats_valid(record@),
    ensures
        mean == mean_tenths(record@.sum, record@.count),
        record@.min <= mean <= record@.max,
{
    proof {
        lemma_mean_between(record@);
    }
    let count: i128 = record.3 as i128;
    let sum: i128 = record.2 as i128;
    if sum >= 0 {
        ((2 * sum + count) / (2 * count)) as i16
    } else {
        let size: i128 = (2 * (-sum) + count) / (2 * count);
        -(size as i16)
    }
}

/// The text of one record: `min/mean/max`, each with one digit after the dot.
pub fn format_record(record: ProcessedStation) -> (text: Vec<u8>)
    requires
        stats_valid(record@),
    ensures
        text@ == render_record(record@),
{
    let mut text: Vec<u8> = Vec::new();
    push_tenths(&mut text, record.0);
    text.push(SLASH_BYTE);
    push_tenths(&mut text, mean_of(record));
    text.push(SLASH_BYTE);
    push_tenths(&mut text, record.1);
    text
}

/// Appends one station's text to `output`: `name=min/mean/max`.
pub fn push_station(output: &mut Vec<u8>, name: &[u8], record: ProcessedStation)
    requires
        stats_valid(record@),
    ensures
        final(output)@ == old(output)@ + render_station(name@, record@),
{
    let text = format_record(record);
    output.extend_from_slice(name);
    output.push(EQUALS_BYTE);
    output.extend_from_slice(text.as_slice());
}

/// The station names of the entries, in order.
pub open spec fn entry_names(entries: Seq<(Vec<u8>, ProcessedStation)>) -> Seq<Seq<u8>> {
    entries.map_values(|e: (Vec<u8>, ProcessedStation)| e.0@)
}

/// Two entries hold the same station name and the same record.
pub open spec fn same_entry(
    x: (Vec<u8>, ProcessedStation),
    y: (Vec<u8>, ProcessedStation),
) -> bool {
    x.0@ == y.0@ && x.1 == y.1
}

/// One of the first `upto` entries is the same as `e`.
pub open spec fn has_entry(
    entries: Seq<(Vec<u8>, ProcessedStation)>,
    upto: int,
    e: (Vec<u8>, ProcessedStation),
) -> bool {
    exists|j: int| 0 <= j < upto && same_entry(#[trigger] entries[j], e)
}

/// No two entries hold the same station name.
pub open spec fn distinct_names(entries: Seq<(Vec<u8>, ProcessedStation)>) -> bool {
    forall|i: int, j: int|
        0 <= i < j < entries.len() ==> (#[trigger] entries[i]).0@ != (#[trigger] entries[j]).0@
}

/// The entries in the order of their names' bytes.
pub fn sort_entries(entries: &Vec<(Vec<u8>, ProcessedStation)>) -> (sorted: Vec<
    (Vec<u8>, ProcessedStation),
>)
    requires
        distinct_names(entries@),
    ensures
        sorted@.len() == entries@.len(),
        strictly_sorted(entry_names(sorted@)),
        forall|a: int|
            0 <= a < sorted@.len() ==> has_entry(
                entries@,
                entries@.len() as int,
                #[trigger] sorted@[a],
            ),
        forall|j: int|
            0 <= j < entries@.len() ==> has_entry(
                sorted@,
                sorted@.len() as int,
                #[trigger] entries@[j],
            ),
{
    let mut sorted: Vec<(Vec<u8>, ProcessedStation)> = Vec::new();
    let mut i: usize = 0;
    while i < entries.len()
        invariant
            i <= entries@.len(),
            sorted@.len() == i,
            distinct_names(entries@),
            strictly_sorted(entry_names(sorted@)),
            forall|a: int|
                0 <= a < sorted@.len() ==> has_entry(entries@, i as int, #[trigger] sorted@[a]),
            forall|j: int|
                0 <= j < i ==> has_entry(sorted@, sorted@.len() as int, #[trigger] entries@[j]),
        decreases entries@.len() - i,
    {
        let name = entries[i].0.as_slice();
        let record = entries[i].1;
        let mut pos: usize = 0;
        while pos < sorted.len() && name_less(sorted[pos].0.as_slice(), name)
            invariant
                pos <= sorted@.len(),
                i < entries@.len(),
                name@ == entries@[i as int].0@,
                forall|a: int| 0 <= a < pos ==> lex_less((#[trigger] sorted@[a]).0@, name@),
            decreases sorted@.len() - pos,
        {
            pos = pos + 1;
        }
        let ghost before = sorted@;
        let entry = (slice_to_vec(name), record);
        sorted.insert(pos, entry);
        proof {
            let names = entry_names(sorted@);
            let old_names = entry_names(before);
            assert forall|a: int| pos <= a < before.len() implies lex_less(
                name@,
                #[trigger] old_names[a],
            ) by {
                lemma_lex_total(name@, old_names[pos as int]);
                if a > pos {
                    lemma_lex_transitive(name@, old_names[pos as int], old_names[a]);
                }
            }
            assert forall|a: int, b: int| 0 <= a < b < names.len() implies lex_less(
                names[a],
                names[b],
            ) by {
                if b < pos {
                    assert(lex_less(old_names[a], old_names[b]));
                } else if b == pos {
                    assert(lex_less(old_names[a], name@));
                } else if a < pos {
                    assert(lex_less(old_names[a], old_names[b - 1]));
                } else if a == pos {
                    assert(lex_less(name@, old_names[b - 1]));
                } else {
                    assert(lex_less(old_names[a - 1], old_names[b - 1]));
                }
            }
            assert forall|j: int| 0 <= j < i + 1 implies has_entry(
                sorted@,
                sorted@.len() as int,
                #[trigger] entries@[j],
            ) by {
                if j < i {
                    let a = choose|a: int|
                        0 <= a < before.len() && same_entry(#[trigger] before[a], entries@[j]);
                    let b = if a < pos {
                        a
                    } else {
                        a + 1
                    };
                    assert(sorted@[b] == before[a]);
                } else {
                    assert(same_entry(sorted@[pos as int], entries@[j]));
                }
            }
        }
        i = i + 1;
    }
    sorted
}

/// The table as text.
///
/// The stations come in the order of their names' bytes, so that the text is
/// settled by what the table holds, not by how it holds it. Each station is
/// written as `name=min/mean/max`, the three with one digit after the dot, the
/// mean rounded a half away from zero.
pub fn format_output(stations: &StationMap) -> (output: Vec<u8>)
    requires
        summary_valid(table_summary(*stations)),
    ensures
        output@ == render_summary(table_summary(*stations)),
{
    let ghost m = table_summary(*stations);
    let listing = entries_of(stations);
    let sorted = sort_entries(&listing);
    let ghost names = entry_names(sorted@);
    proof {
        assert forall|k: Seq<u8>| names.contains(k) <==> m.dom().contains(k) by {
            if m.dom().contains(k) {
                let j = choose|j: int| 0 <= j < listing@.len() && (#[trigger] listing@[j]).0@ == k;
                let a = choose|a: int|
                    0 <= a < sorted@.len() && same_entry(#[trigger] sorted@[a], listing@[j]);
                assert(names[a] == k);
            }
        }
        lemma_sorted_names(names, m.dom());
    }
    let mut output: Vec<u8> = Vec::new();
    output.push(OPEN_BYTE);
    let mut i: usize = 0;
    while i < sorted.len()
        invariant
            i <= sorted@.len(),
            names == entry_names(sorted@),
            m == table_summary(*stations),
            summary_valid(m),
            is_listing(listing@, table_entries(*stations)),
            forall|a: int|
                0 <= a < sorted@.len() ==> has_entry(
                    listing@,
                    listing@.len() as int,
                    #[trigger] sorted@[a],
                ),
            output@ == seq![123u8] + render_stations(names.take(i as int), m),
        decreases sorted@.len() - i,
    {
        if i > 0 {
            output.push(COMMA_BYTE);
            output.push(SPACE_BYTE);
        }
        let name = sorted[i].0.as_slice();
        let record = sorted[i].1;
        proof {
            assert(m.contains_key(name@) && m[name@] == record@);
        }
        push_station(&mut output, name, record);
        proof {
            let done = names.take(i as int);
            let more = names.take(i + 1);
            assert(more.drop_last() =~= done);
        }
        i = i + 1;
    }
    assert(names.take(sorted@.len() as int) =~= names);
    output.push(CLOSE_BYTE);
    output
}

} // verus!
