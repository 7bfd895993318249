//! What is kept for each station, and how two such records combine.
//!
//! A summary maps a station name to the least, the greatest, the sum and the
//! number of its readings, all in tenths of a degree. Summaries are built one
//! reading at a time and merged pointwise; since least, greatest and sum do not
//! care for order, neither does a summary.

use vstd::prelude::*;
use vstd::seq_lib::{commutative_foldl, lemma_fold_left_permutation};

verus! {

/// The largest number of readings that one station's record may count, chosen
/// so that a sum of that many readings of at most 999 tenths fits in `i64`.
pub const MAX_ROWS: u64 = 9_000_000_000_000_000;

/// One station's record: least reading, greatest reading, sum of the readings
/// and their number, the readings in tenths of a degree.
#[derive(Clone, Copy, Debug, PartialEq, Eq, Structural)]
pub struct ProcessedStation(pub i16, pub i16, pub i64, pub u64);

/// A station's record as plain numbers.
pub struct Stats {
    pub min: int,
    pub max: int,
    pub sum: int,
    pub count: nat,
}

impl View for ProcessedStation {
    type V = Stats;

    open spec fn view(&self) -> Stats {
        Stats { min: self.0 as int, max: self.1 as int, sum: self.2 as int, count: self.3 as nat }
    }
}

/// One line of the input: a station and its temperature in tenths.
pub struct Reading {
    pub station: Seq<u8>,
    pub tenths: int,
}

/// Station names to their records.
pub type Summary = Map<Seq<u8>, Stats>;

/// The record's numbers agree with each other: the least reading is not above
/// the greatest, both lie within the format's range, at least one reading was
/// counted, and the sum lies between that many least and that many greatest
/// readings.
pub open spec fn stats_valid(s: Stats) -> bool {
    &&& -999 <= s.min <= s.max <= 999
    &&& s.count >= 1
    &&& s.min * s.count <= s.sum <= s.max * s.count
}

/// Every record of the summary is valid.
pub open spec fn summary_valid(m: Summary) -> bool {
    forall|k: Seq<u8>| m.contains_key(k) ==> stats_valid(#[trigger] m[k])
}

/// No record of the summary counts more than `limit` readings.
pub open spec fn counts_within(m: Summary, limit: int) -> bool {
    forall|k: Seq<u8>| m.contains_key(k) ==> (#[trigger] m[k]).count <= limit
}

/// The record of a single reading.
pub open spec fn single(tenths: int) -> Stats {
    Stats { min: tenths, max: tenths, sum: tenths, count: 1 }
}

/// The record of the readings of two records together.
pub open spec fn combine(a: Stats, b: Stats) -> Stats {
    Stats {
        min: if a.min <= b.min {
            a.min
        } else {
            b.min
        },
        max: if a.max >= b.max {
            a.max
        } else {
            b.max
        },
        sum: a.sum + b.sum,
        count: a.count + b.count,
    }
}

/// The summary of the readings of two summaries together: a station of both
/// gets the combined record, a station of one keeps its record.
pub open spec fn merge(a: Summary, b: Summary) -> Summary {
    Map::new(
        |k: Seq<u8>| a.contains_key(k) || b.contains_key(k),
        |k: Seq<u8>|
            if a.contains_key(k) && b.contains_key(k) {
                combine(a[k], b[k])
            } else if a.contains_key(k) {
                a[k]
            } else {
                b[k]
            },
    )
}

/// The summary of one reading.
pub open spec fn summary_of(r: Reading) -> Summary {
    Map::<Seq<u8>, Stats>::empty().insert(r.station, single(r.tenths))
}

/// The summary `m` after one more reading: the station's record takes the
/// reading in, or a new record is made of it.
pub open spec fn observe(m: Summary, r: Reading) -> Summary {
    if m.contains_key(r.station) {
        m.insert(r.station, combine(m[r.station], single(r.tenths)))
    } else {
        m.insert(r.station, single(r.tenths))
    }
}

/// The summary of a sequence of readings.
pub open spec fn aggregate(rs: Seq<Reading>) -> Summary
    decreases rs.len(),
{
    if rs.len() == 0 {
        Map::empty()
    } else {
        observe(aggregate(rs.drop_last()), rs.last())
    }
}

/// The summaries of a sequence merged into one.
pub open spec fn reduce(tables: Seq<Summary>) -> Summary
    decreases tables.len(),
{
    if tables.len() == 0 {
        Map::empty()
    } else {
        merge(reduce(tables.drop_last()), tables.last())
    }
}

/// Every reading lies within the format's range.
pub open spec fn readings_in_range(rs: Seq<Reading>) -> bool {
    forall|i: int| 0 <= i < rs.len() ==> -999 <= (#[trigger] rs[i]).tenths <= 999
}

/// The mean of a record in tenths, rounded to the nearest tenth, a half away
/// from zero.
pub open spec fn mean_tenths(sum: int, count: nat) -> int {
    if sum >= 0 {
        (2 * sum + count) / (2 * count as int)
    } else {
        -((2 * (-sum) + count) / (2 * count as int))
    }
}

/// Whether the record's numbers agree with each other.
pub fn is_valid_record(record: ProcessedStation) -> (ok: bool)
    ensures
        ok == stats_valid(record@),
{
    let low: i128 = record.0 as i128;
    let high: i128 = record.1 as i128;
    let sum: i128 = record.2 as i128;
    let count: i128 = record.3 as i128;
    if low < -999 || low > high || high > 999 || count < 1 {
        return false;
    }
    assert(-999 * count <= low * count <= 999 * count && -999 * count <= high * count <= 999
        * count) by (nonlinear_arith)
        requires
            -999 <= low <= 999,
            -999 <= high <= 999,
            count >= 1,
    ;
    low * count <= sum && sum <= high * count
}

/// Combining two valid records gives a valid record.
pub proof fn lemma_combine_valid(a: Stats, b: Stats)
    requires
        stats_valid(a),
        stats_valid(b),
    ensures
        stats_valid(combine(a, b)),
{
    let c = combine(a, b);
    let n = a.count as int;
    let m = b.count as int;
    assert(c.min * (n + m) == c.min * n + c.min * m) by (nonlinear_arith);
    assert(c.max * (n + m) == c.max * n + c.max * m) by (nonlinear_arith);
    assert(c.min * n <= a.min * n) by (nonlinear_arith)
        requires
            c.min <= a.min,
            n >= 0,
    ;
    assert(c.min * m <= b.min * m) by (nonlinear_arith)
        requires
            c.min <= b.min,
            m >= 0,
    ;
    assert(a.max * n <= c.max * n) by (nonlinear_arith)
        requires
            a.max <= c.max,
            n >= 0,
    ;
    assert(b.max * m <= c.max * m) by (nonlinear_arith)
        requires
            b.max <= c.max,
            m >= 0,
    ;
}

/// The sum of a valid record is at most 999 tenths a reading from zero.
pub proof fn lemma_sum_bound(s: Stats)
    requires
        stats_valid(s),
    ensures
        -999 * s.count <= s.sum <= 999 * s.count,
{
    let n = s.count as int;
    assert(-999 * n <= s.min * n) by (nonlinear_arith)
        requires
            -999 <= s.min,
            n >= 0,
    ;
    assert(s.max * n <= 999 * n) by (nonlinear_arith)
        requires
            s.max <= 999,
            n >= 0,
    ;
}

/// The mean of a valid record lies between its least and its greatest reading.
pub proof fn lemma_mean_between(s: Stats)
    requires
        stats_valid(s),
    ensures
        s.min <= mean_tenths(s.sum, s.count) <= s.max,
{
    let n = s.count as int;
    if s.sum >= 0 {
        let q = (2 * s.sum + n) / (2 * n);
        assert(2 * n * q <= 2 * s.sum + n < 2 * n * q + 2 * n) by (nonlinear_arith)
            requires
                q == (2 * s.sum + n) / (2 * n),
                n >= 1,
        ;
        assert(q <= s.max) by (nonlinear_arith)
            requires
                2 * n * q <= 2 * s.sum + n,
                s.sum <= s.max * n,
                n >= 1,
        ;
        assert(q >= s.min) by (nonlinear_arith)
            requires
                2 * s.sum + n < 2 * n * q + 2 * n,
                s.min * n <= s.sum,
                n >= 1,
        ;
    } else {
        let q = (2 * (-s.sum) + n) / (2 * n);
        assert(2 * n * q <= 2 * (-s.sum) + n < 2 * n * q + 2 * n) by (nonlinear_arith)
            requires
                q == (2 * (-s.sum) + n) / (2 * n),
                n >= 1,
        ;
        assert(-q >= s.min) by (nonlinear_arith)
            requires
                2 * n * q <= 2 * (-s.sum) + n,
                s.min * n <= s.sum,
                n >= 1,
        ;
        assert(-q <= s.max) by (nonlinear_arith)
            requires
                2 * (-s.sum) + n < 2 * n * q + 2 * n,
                s.sum <= s.max * n,
                n >= 1,
        ;
    }
}

/// Merging with the empty summary changes nothing.
pub proof fn lemma_merge_empty(a: Summary)
    ensures
        merge(a, Map::empty()) == a,
        merge(Map::empty(), a) == a,
{
}

/// Merging does not care which summary comes first.
pub proof fn lemma_merge_commutative(a: Summary, b: Summary)
    ensures
        merge(a, b) == merge(b, a),
{
}

/// Merging three summaries does not care which two are merged first.
pub proof fn lemma_merge_associative(a: Summary, b: Summary, c: Summary)
    ensures
        merge(merge(a, b), c) == merge(a, merge(b, c)),
{
}

/// Merging valid summaries gives a valid summary.
pub proof fn lemma_merge_valid(a: Summary, b: Summary)
    requires
        summary_valid(a),
        summary_valid(b),
    ensures
        summary_valid(merge(a, b)),
{
    assert forall|k: Seq<u8>| merge(a, b).contains_key(k) implies stats_valid(
        #[trigger] merge(a, b)[k],
    ) by {
        if a.contains_key(k) && b.contains_key(k) {
            lemma_combine_valid(a[k], b[k]);
        }
    }
}

/// A merge counts for each station what its two parts count together: limits
/// on the counts of the parts add up to a limit on the counts of the merge.
pub proof fn lemma_merge_counts(a: Summary, b: Summary, limit_a: int, limit_b: int)
    requires
        counts_within(a, limit_a),
        counts_within(b, limit_b),
        0 <= limit_a,
        0 <= limit_b,
    ensures
        counts_within(merge(a, b), limit_a + limit_b),
{
}

/// Taking a reading in is merging with the summary of that reading.
pub proof fn lemma_observe_is_merge(m: Summary, r: Reading)
    ensures
        observe(m, r) == merge(m, summary_of(r)),
{
}

/// The summary of two runs of readings, one after the other, is the merge of
/// their summaries.
pub proof fn lemma_aggregate_concat(a: Seq<Reading>, b: Seq<Reading>)
    ensures
        aggregate(a + b) == merge(aggregate(a), aggregate(b)),
    decreases b.len(),
{
    if b.len() > 0 {
        let r = b.last();
        assert((a + b).drop_last() =~= a + b.drop_last());
        lemma_aggregate_concat(a, b.drop_last());
        lemma_observe_is_merge(aggregate(a + b.drop_last()), r);
        lemma_observe_is_merge(aggregate(b.drop_last()), r);
        lemma_merge_associative(aggregate(a), aggregate(b.drop_last()), summary_of(r));
    } else {
        lemma_merge_empty(aggregate(a));
    }
}

/// A summary of readings within range is valid, has finitely many stations,
/// and none of its records counts more readings than there are.
pub proof fn lemma_aggregate_valid(rs: Seq<Reading>)
    requires
        readings_in_range(rs),
    ensures
        summary_valid(aggregate(rs)),
        aggregate(rs).dom().finite(),
        counts_within(aggregate(rs), rs.len() as int),
    decreases rs.len(),
{
    if rs.len() > 0 {
        let before = aggregate(rs.drop_last());
        let r = rs.last();
        lemma_aggregate_valid(rs.drop_last());
        if before.contains_key(r.station) {
            lemma_combine_valid(before[r.station], single(r.tenths));
        }
    }
}

/// Readings taken in any order give the same summary: it depends only on
/// which readings there are and how often each occurs.
pub proof fn lemma_aggregate_permutation(a: Seq<Reading>, b: Seq<Reading>)
    requires
        a.to_multiset() == b.to_multiset(),
    ensures
        aggregate(a) == aggregate(b),
{
    let f = |m: Summary, r: Reading| observe(m, r);
    assert(commutative_foldl(f)) by {
        assert forall|x: Reading, y: Reading, v: Summary| #[trigger] f(f(v, x), y) == f(
            f(v, y),
            x,
        ) by {}
    }
    lemma_aggregate_is_fold(a);
    lemma_aggregate_is_fold(b);
    lemma_fold_left_permutation(a, b, f, Map::empty());
}

/// A summary is its readings folded from the left.
proof fn lemma_aggregate_is_fold(rs: Seq<Reading>)
    ensures
        aggregate(rs) == rs.fold_left(Map::empty(), |m: Summary, r: Reading| observe(m, r)),
    decreases rs.len(),
{
    if rs.len() > 0 {
        lemma_aggregate_is_fold(rs.drop_last());
    }
}

/// Summaries merged in any order give the same summary.
pub proof fn lemma_reduce_permutation(a: Seq<Summary>, b: Seq<Summary>)
    requires
        a.to_multiset() == b.to_multiset(),
    ensures
        reduce(a) == reduce(b),
{
    let f = |m: Summary, t: Summary| merge(m, t);
    assert(commutative_foldl(f)) by {
        assert forall|x: Summary, y: Summary, v: Summary| #[trigger] f(f(v, x), y) == f(
            f(v, y),
            x,
        ) by {}
    }
    lemma_reduce_is_fold(a);
    lemma_reduce_is_fold(b);
    lemma_fold_left_permutation(a, b, f, Map::empty());
}

/// A merge of summaries is the summaries folded from the left.
proof fn lemma_reduce_is_fold(tables: Seq<Summary>)
    ensures
        reduce(tables) == tables.fold_left(Map::empty(), |m: Summary, t: Summary| merge(m, t)),
    decreases tables.len(),
{
    if tables.len() > 0 {
        lemma_reduce_is_fold(tables.drop_last());
    }
}

/// Three summaries merge to the same summary whichever comes first.
pub proof fn lemma_reduce_rotation(a: Summary, b: Summary, c: Summary)
    ensures
        reduce(seq![a, b, c]) == reduce(seq![c, a, b]),
        reduce(seq![a, b, c]) == merge(merge(a, b), c),
{
    lemma_reduce_three(a, b, c);
    lemma_reduce_three(c, a, b);
}

/// Three summaries merge left to right.
proof fn lemma_reduce_three(a: Summary, b: Summary, c: Summary)
    ensures
        reduce(seq![a, b, c]) == merge(merge(a, b), c),
{
    let abc = seq![a, b, c];
    assert(abc.drop_last() =~= seq![a, b]);
    assert(seq![a, b].drop_last() =~= seq![a]);
    assert(seq![a].drop_last() =~= Seq::<Summary>::empty());
    assert(reduce(Seq::<Summary>::empty()) == Map::<Seq<u8>, Stats>::empty());
    assert(reduce(seq![a]) == merge(Map::empty(), a));
    assert(reduce(seq![a, b]) == merge(a, b));
}

/// Merging a run of summaries, one run after the other, is merging the merges
/// of the two runs.
pub proof fn lemma_reduce_concat(a: Seq<Summary>, b: Seq<Summary>)
    ensures
        reduce(a + b) == merge(reduce(a), reduce(b)),
    decreases b.len(),
{
    if b.len() > 0 {
        assert((a + b).drop_last() =~= a + b.drop_last());
        lemma_reduce_concat(a, b.drop_last());
        lemma_merge_associative(reduce(a), reduce(b.drop_last()), b.last());
    } else {
        lemma_merge_empty(reduce(a));
    }
}

/// The readings that the records of a summary count, all stations together.
pub open spec fn total_rows(m: Summary) -> nat
    decreases m.dom().len(),
    when m.dom().finite()
{
    if m.dom().is_empty() {
        0
    } else {
        let k = m.dom().choose();
        m[k].count + total_rows(m.remove(k))
    }
}

/// The total counts any one station's readings and then those of the rest.
pub proof fn lemma_total_rows_remove(m: Summary, k: Seq<u8>)
    requires
        m.dom().finite(),
        m.contains_key(k),
    ensures
        total_rows(m) == m[k].count + total_rows(m.remove(k)),
    decreases m.dom().len(),
{
    let c = m.dom().choose();
    if c != k {
        lemma_total_rows_remove(m.remove(c), k);
        lemma_total_rows_remove(m.remove(k), c);
        assert(m.remove(c).remove(k) =~= m.remove(k).remove(c));
    }
}

/// The counts of a summary add up to the number of readings it was made of.
pub proof fn lemma_total_rows(rs: Seq<Reading>)
    ensures
        aggregate(rs).dom().finite(),
        total_rows(aggregate(rs)) == rs.len(),
    decreases rs.len(),
{
    if rs.len() > 0 {
        let before = aggregate(rs.drop_last());
        let after = aggregate(rs);
        let k = rs.last().station;
        lemma_total_rows(rs.drop_last());
        lemma_total_rows_remove(after, k);
        if before.contains_key(k) {
            lemma_total_rows_remove(before, k);
            assert(after.remove(k) =~= before.remove(k));
        } else {
            assert(after.remove(k) =~= before);
        }
    }
}

} // verus!
