//! Event and interval construction, and the sort engine: every collection
//! is turned into columnar records and stably sorted by its composite key
//! before a sweep consumes it.
//!
//! The sorting itself is done by `radsort`, a stable radix sort on scalar
//! keys; sorting by the least significant key first and the most
//! significant last yields the composite lexicographic order.  Each trusted
//! wrapper below promises exactly that: the vector afterwards is a
//! permutation of the vector before, ordered by the stated key.

use vstd::prelude::*;
use crate::ruranges_structs::{Event, Interval, MinEvent, Nearest, SplicedSubsequenceInterval,
    SubsequenceInterval};
use crate::events::{coords_ok, count_eq, event_le, events_sorted, lemma_count_eq_index,
    lemma_count_eq_pos, lemma_count_eq_two, lemma_count_eq_unique, lemma_count_eq_zero,
    lemma_counts_transfer, paired_events, pos_bound, slack_ok, slot_index, two_coll_built,
    widen_start, widened_ends, widened_starts};

verus! {

/// Lexicographic order on `(chr, pos)` of reduced events.
pub open spec fn min_event_le(a: MinEvent, b: MinEvent) -> bool {
    a.chr < b.chr || (a.chr == b.chr && a.pos <= b.pos)
}

pub open spec fn min_events_sorted(s: Seq<MinEvent>) -> bool {
    forall|t1: int, t2: int|
        0 <= t1 < t2 < s.len() ==> min_event_le(#[trigger] s[t1], #[trigger] s[t2])
}

/// Lexicographic order on `(group, start, end)` of intervals.
pub open spec fn interval_le(a: Interval, b: Interval) -> bool {
    ||| a.group < b.group
    ||| (a.group == b.group && a.start < b.start)
    ||| (a.group == b.group && a.start == b.start && a.end <= b.end)
}

pub open spec fn intervals_sorted(s: Seq<Interval>) -> bool {
    forall|t1: int, t2: int|
        0 <= t1 < t2 < s.len() ==> interval_le(#[trigger] s[t1], #[trigger] s[t2])
}

/// Order on `(group, start)` only, used when the tertiary key is not needed.
pub open spec fn interval_le_gs(a: Interval, b: Interval) -> bool {
    a.group < b.group || (a.group == b.group && a.start <= b.start)
}

pub open spec fn intervals_sorted_gs(s: Seq<Interval>) -> bool {
    forall|t1: int, t2: int|
        0 <= t1 < t2 < s.len() ==> interval_le_gs(#[trigger] s[t1], #[trigger] s[t2])
}

/// Lexicographic order on `(idx, distance)` of nearest records.
pub open spec fn nearest_le(a: Nearest, b: Nearest) -> bool {
    a.idx < b.idx || (a.idx == b.idx && a.distance <= b.distance)
}

pub open spec fn nearest_sorted(s: Seq<Nearest>) -> bool {
    forall|t1: int, t2: int|
        0 <= t1 < t2 < s.len() ==> nearest_le(#[trigger] s[t1], #[trigger] s[t2])
}

/// Lexicographic order on `(chr, start, end)` of spliced-subsequence rows.
pub open spec fn spliced_le(a: SplicedSubsequenceInterval, b: SplicedSubsequenceInterval) -> bool {
    ||| a.chr < b.chr
    ||| (a.chr == b.chr && a.start < b.start)
    ||| (a.chr == b.chr && a.start == b.start && a.end <= b.end)
}

pub open spec fn spliced_sorted(s: Seq<SplicedSubsequenceInterval>) -> bool {
    forall|t1: int, t2: int|
        0 <= t1 < t2 < s.len() ==> spliced_le(#[trigger] s[t1], #[trigger] s[t2])
}

/// Lexicographic order on `(group_id, start, end)` of subsequence rows.
pub open spec fn sequence_le(a: SubsequenceInterval, b: SubsequenceInterval) -> bool {
    ||| a.group_id < b.group_id
    ||| (a.group_id == b.group_id && a.start < b.start)
    ||| (a.group_id == b.group_id && a.start == b.start && a.end <= b.end)
}

pub open spec fn sequence_sorted(s: Seq<SubsequenceInterval>) -> bool {
    forall|t1: int, t2: int|
        0 <= t1 < t2 < s.len() ==> sequence_le(#[trigger] s[t1], #[trigger] s[t2])
}

/// `post` rearranges `pre` along the index permutation `perm`.
pub open spec fn permuted<T>(pre: Seq<T>, post: Seq<T>, perm: Seq<int>) -> bool {
    &&& perm.len() == pre.len()
    &&& post.len() == pre.len()
    &&& forall|i: int| 0 <= i < perm.len() ==> 0 <= #[trigger] perm[i] < pre.len()
    &&& forall|i1: int, i2: int|
        0 <= i1 < i2 < perm.len() ==> (#[trigger] perm[i1]) != (#[trigger] perm[i2])
    &&& forall|i: int| 0 <= i < perm.len() ==> #[trigger] post[i] == pre[perm[i]]
}

/// The sort key that puts end events after start events at one position.
fn event_end_rank(e: &Event) -> (r: bool)
    ensures
        r == !e.is_start,
{
    !e.is_start
}

/// Relies on radsort::sort_by_key (a stable sort by scalar key): sorting by
/// the boundary rank, then the position, then the group leaves the events
/// in ascending `(chr, pos, starts-first)` order, as a permutation in
/// which events that tie on that whole key keep their input order.
#[verifier::external_body]
fn sort_events(events: &mut Vec<Event>)
    ensures
        events_sorted(final(events)@),
        final(events)@.to_multiset() == old(events)@.to_multiset(),
        exists|perm: Seq<int>|
            #[trigger] permuted(old(events)@, final(events)@, perm) && (forall|t1: int, t2: int|
                #![trigger perm[t1], perm[t2]]
                0 <= t1 < t2 < perm.len() && event_le(final(events)@[t1], final(events)@[t2])
                    && event_le(final(events)@[t2], final(events)@[t1]) ==> perm[t1] < perm[t2]),
{
    radsort::sort_by_key(events.as_mut_slice(), event_end_rank);
    radsort::sort_by_key(events.as_mut_slice(), |e: &Event| e.pos);
    radsort::sort_by_key(events.as_mut_slice(), |e: &Event| e.chr);
}

/// Relies on radsort::sort_by_key (stable): two passes leave the reduced
/// events in ascending `(chr, pos)` order, events that tie on that key
/// keeping their input order.
#[verifier::external_body]
pub(crate) fn sort_min_events(events: &mut Vec<MinEvent>)
    ensures
        min_events_sorted(final(events)@),
        final(events)@.to_multiset() == old(events)@.to_multiset(),
        exists|perm: Seq<int>|
            #[trigger] permuted(old(events)@, final(events)@, perm) && (forall|t1: int, t2: int|
                #![trigger perm[t1], perm[t2]]
                0 <= t1 < t2 < perm.len() && min_event_le(final(events)@[t1], final(events)@[t2])
                    && min_event_le(final(events)@[t2], final(events)@[t1]) ==> perm[t1] < perm[t2]),
{
    radsort::sort_by_key(events.as_mut_slice(), |e: &MinEvent| e.pos);
    radsort::sort_by_key(events.as_mut_slice(), |e: &MinEvent| e.chr);
}

/// Relies on radsort::sort_by_key (stable): three passes leave the
/// intervals in ascending `(group, start, end)` order, intervals that tie
/// on that whole key keeping their input order.
#[verifier::external_body]
fn sort_intervals_full(intervals: &mut Vec<Interval>)
    ensures
        intervals_sorted(final(intervals)@),
        final(intervals)@.to_multiset() == old(intervals)@.to_multiset(),
        exists|perm: Seq<int>|
            #[trigger] permuted(old(intervals)@, final(intervals)@, perm) && (forall|t1: int, t2: int|
                #![trigger perm[t1], perm[t2]]
                0 <= t1 < t2 < perm.len() && interval_le(final(intervals)@[t1], final(intervals)@[t2])
                    && interval_le(final(intervals)@[t2], final(intervals)@[t1]) ==> perm[t1] < perm[t2]),
{
    radsort::sort_by_key(intervals.as_mut_slice(), |i: &Interval| i.end);
    radsort::sort_by_key(intervals.as_mut_slice(), |i: &Interval| i.start);
    radsort::sort_by_key(intervals.as_mut_slice(), |i: &Interval| i.group);
}

/// Relies on radsort::sort_by_key (stable): two passes leave the intervals
/// in ascending `(group, start)` order, intervals that tie on that key
/// keeping their input order.
#[verifier::external_body]
fn sort_intervals_group_start(intervals: &mut Vec<Interval>)
    ensures
        intervals_sorted_gs(final(intervals)@),
        final(intervals)@.to_multiset() == old(intervals)@.to_multiset(),
        exists|perm: Seq<int>|
            #[trigger] permuted(old(intervals)@, final(intervals)@, perm) && (forall|t1: int, t2: int|
                #![trigger perm[t1], perm[t2]]
                0 <= t1 < t2 < perm.len() && interval_le_gs(final(intervals)@[t1], final(intervals)@[t2])
                    && interval_le_gs(final(intervals)@[t2], final(intervals)@[t1]) ==> perm[t1] < perm[t2]),
{
    radsort::sort_by_key(intervals.as_mut_slice(), |i: &Interval| i.start);
    radsort::sort_by_key(intervals.as_mut_slice(), |i: &Interval| i.group);
}

/// Relies on radsort::sort_by_key (stable): two passes leave the nearest
/// records in ascending `(idx, distance)` order, records that tie on that
/// key keeping their input order.
#[verifier::external_body]
pub(crate) fn sort_nearest_by_idx_dist(recs: &mut Vec<Nearest>)
    ensures
        nearest_sorted(final(recs)@),
        final(recs)@.to_multiset() == old(recs)@.to_multiset(),
        exists|perm: Seq<int>|
            #[trigger] permuted(old(recs)@, final(recs)@, perm) && (forall|t1: int, t2: int|
                #![trigger perm[t1], perm[t2]]
                0 <= t1 < t2 < perm.len() && nearest_le(final(recs)@[t1], final(recs)@[t2])
                    && nearest_le(final(recs)@[t2], final(recs)@[t1]) ==> perm[t1] < perm[t2]),
{
    radsort::sort_by_key(recs.as_mut_slice(), |r: &Nearest| r.distance);
    radsort::sort_by_key(recs.as_mut_slice(), |r: &Nearest| r.idx);
}

/// Relies on radsort::sort_by_key (stable): three passes leave the rows in
/// ascending `(chr, start, end)` order, rows that tie on that whole key
/// keeping their input order.
#[verifier::external_body]
fn sort_spliced(rows: &mut Vec<SplicedSubsequenceInterval>)
    ensures
        spliced_sorted(final(rows)@),
        final(rows)@.to_multiset() == old(rows)@.to_multiset(),
        exists|perm: Seq<int>|
            #[trigger] permuted(old(rows)@, final(rows)@, perm) && (forall|t1: int, t2: int|
                #![trigger perm[t1], perm[t2]]
                0 <= t1 < t2 < perm.len() && spliced_le(final(rows)@[t1], final(rows)@[t2])
                    && spliced_le(final(rows)@[t2], final(rows)@[t1]) ==> perm[t1] < perm[t2]),
{
    radsort::sort_by_key(rows.as_mut_slice(), |r: &SplicedSubsequenceInterval| r.end);
    radsort::sort_by_key(rows.as_mut_slice(), |r: &SplicedSubsequenceInterval| r.start);
    radsort::sort_by_key(rows.as_mut_slice(), |r: &SplicedSubsequenceInterval| r.chr);
}

/// Relies on radsort::sort_by_key (stable): three passes leave the rows in
/// ascending `(group_id, start, end)` order, rows that tie on that whole
/// key keeping their input order.
#[verifier::external_body]
fn sort_sequence(rows: &mut Vec<SubsequenceInterval>)
    ensures
        sequence_sorted(final(rows)@),
        final(rows)@.to_multiset() == old(rows)@.to_multiset(),
        exists|perm: Seq<int>|
            #[trigger] permuted(old(rows)@, final(rows)@, perm) && (forall|t1: int, t2: int|
                #![trigger perm[t1], perm[t2]]
                0 <= t1 < t2 < perm.len() && sequence_le(final(rows)@[t1], final(rows)@[t2])
                    && sequence_le(final(rows)@[t2], final(rows)@[t1]) ==> perm[t1] < perm[t2]),
{
    radsort::sort_by_key(rows.as_mut_slice(), |r: &SubsequenceInterval| r.end);
    radsort::sort_by_key(rows.as_mut_slice(), |r: &SubsequenceInterval| r.start);
    radsort::sort_by_key(rows.as_mut_slice(), |r: &SubsequenceInterval| r.group_id);
}

/// Lexicographic order on one pair of row indices.
pub open spec fn upair_le(a: (usize, usize), b: (usize, usize)) -> bool {
    a.0 < b.0 || (a.0 == b.0 && a.1 <= b.1)
}

/// Relies on radsort::sort_by_key (stable): two passes leave the index
/// pairs in ascending `(first, second)` order.
#[verifier::external_body]
pub(crate) fn sort_index_pairs(pairs: &mut Vec<(usize, usize)>)
    ensures
        forall|r1: int, r2: int|
            0 <= r1 < r2 < final(pairs)@.len() ==> upair_le(
                #[trigger] final(pairs)@[r1],
                #[trigger] final(pairs)@[r2],
            ),
        final(pairs)@.to_multiset() == old(pairs)@.to_multiset(),
{
    radsort::sort_by_key(pairs.as_mut_slice(), |p: &(usize, usize)| p.1);
    radsort::sort_by_key(pairs.as_mut_slice(), |p: &(usize, usize)| p.0);
}

/// The intervals of one collection, widened by `slack` on both sides, each
/// remembering its row.
pub open spec fn built_intervals(
    chrs: Seq<i64>,
    starts: Seq<i64>,
    ends: Seq<i64>,
    slack: int,
) -> Seq<Interval> {
    Seq::new(
        chrs.len(),
        |i: int|
            Interval {
                group: chrs[i],
                start: widen_start(starts[i] as int, slack) as i64,
                end: (ends[i] + slack) as i64,
                idx: i as i64,
            },
    )
}

/// One widened interval record per input row, in row order.
pub fn build_intervals(chrs: &[i64], starts: &[i64], ends: &[i64], slack: i64) -> (res: Vec<
    Interval,
>)
    requires
        coords_ok(chrs@, starts@, ends@),
        slack_ok(slack),
        chrs@.len() < pos_bound(),
    ensures
        res@ == built_intervals(chrs@, starts@, ends@, slack as int),
{
    let n = chrs.len();
    let mut res: Vec<Interval> = Vec::with_capacity(n);
    let mut i: usize = 0;
    while i < n
        invariant
            i <= n,
            n == chrs@.len(),
            coords_ok(chrs@, starts@, ends@),
            slack_ok(slack),
            n < pos_bound(),
            starts@.len() == n,
            ends@.len() == n,
            res@.len() == i as int,
            forall|t: int|
                0 <= t < i as int ==> res@[t] == built_intervals(
                    chrs@,
                    starts@,
                    ends@,
                    slack as int,
                )[t],
        decreases n - i,
    {
        let ws: i64 = if starts[i] > slack {
            starts[i] - slack
        } else {
            0
        };
        let we: i64 = ends[i] + slack;
        res.push(Interval { group: chrs[i], start: ws, end: we, idx: i as i64 });
        i += 1;
    }
    proof {
        assert(res@ =~= built_intervals(chrs@, starts@, ends@, slack as int));
    }
    res
}

/// Widened intervals sorted by `(group, start)`, and additionally by `end`
/// when `sort_on_ends_too` is set.
pub fn build_sorted_intervals(
    chrs: &[i64],
    starts: &[i64],
    ends: &[i64],
    slack: i64,
    sort_on_ends_too: bool,
) -> (res: Vec<Interval>)
    requires
        coords_ok(chrs@, starts@, ends@),
        slack_ok(slack),
        chrs@.len() < pos_bound(),
    ensures
        res@.to_multiset() == built_intervals(chrs@, starts@, ends@, slack as int).to_multiset(),
        intervals_sorted_gs(res@),
        sort_on_ends_too ==> intervals_sorted(res@),
        sort_on_ends_too ==> (forall|t1: int, t2: int|
            #![trigger res@[t1], res@[t2]]
            0 <= t1 < t2 < res@.len() && interval_le(res@[t1], res@[t2]) && interval_le(
                res@[t2],
                res@[t1],
            ) ==> res@[t1].idx < res@[t2].idx),
        !sort_on_ends_too ==> (forall|t1: int, t2: int|
            #![trigger res@[t1], res@[t2]]
            0 <= t1 < t2 < res@.len() && interval_le_gs(res@[t1], res@[t2]) && interval_le_gs(
                res@[t2],
                res@[t1],
            ) ==> res@[t1].idx < res@[t2].idx),
{
    let ghost pre = built_intervals(chrs@, starts@, ends@, slack as int);
    let mut intervals = build_intervals(chrs, starts, ends, slack);
    if sort_on_ends_too {
        sort_intervals_full(&mut intervals);
        proof {
            assert forall|t1: int, t2: int|
                0 <= t1 < t2 < intervals@.len() implies interval_le_gs(
                #[trigger] intervals@[t1],
                #[trigger] intervals@[t2],
            ) by {
                assert(interval_le(intervals@[t1], intervals@[t2]));
            }
            let perm = choose|perm: Seq<int>|
                #[trigger] permuted(pre, intervals@, perm) && (forall|t1: int, t2: int|
                    #![trigger perm[t1], perm[t2]]
                    0 <= t1 < t2 < perm.len() && interval_le(intervals@[t1], intervals@[t2])
                        && interval_le(intervals@[t2], intervals@[t1]) ==> perm[t1] < perm[t2]);
            assert forall|t1: int, t2: int|
                0 <= t1 < t2 < intervals@.len() && interval_le(
                    #[trigger] intervals@[t1],
                    #[trigger] intervals@[t2],
                ) && interval_le(intervals@[t2], intervals@[t1]) implies intervals@[t1].idx
                < intervals@[t2].idx by {
                assert(intervals@[t1] == pre[perm[t1]]);
                assert(intervals@[t2] == pre[perm[t2]]);
                assert(perm[t1] < perm[t2]);
                assert(pre[perm[t1]].idx == perm[t1] as i64);
                assert(pre[perm[t2]].idx == perm[t2] as i64);
            }
        }
    } else {
        sort_intervals_group_start(&mut intervals);
        proof {
            let perm = choose|perm: Seq<int>|
                #[trigger] permuted(pre, intervals@, perm) && (forall|t1: int, t2: int|
                    #![trigger perm[t1], perm[t2]]
                    0 <= t1 < t2 < perm.len() && interval_le_gs(intervals@[t1], intervals@[t2])
                        && interval_le_gs(intervals@[t2], intervals@[t1]) ==> perm[t1] < perm[t2]);
            assert forall|t1: int, t2: int|
                0 <= t1 < t2 < intervals@.len() && interval_le_gs(
                    #[trigger] intervals@[t1],
                    #[trigger] intervals@[t2],
                ) && interval_le_gs(intervals@[t2], intervals@[t1]) implies intervals@[t1].idx
                < intervals@[t2].idx by {
                assert(intervals@[t1] == pre[perm[t1]]);
                assert(intervals@[t2] == pre[perm[t2]]);
                assert(perm[t1] < perm[t2]);
                assert(pre[perm[t1]].idx == perm[t1] as i64);
                assert(pre[perm[t2]].idx == perm[t2] as i64);
            }
        }
    }
    intervals
}

/// Some entry of `s` carries row index `a`.
pub open spec fn has_row(s: Seq<Interval>, a: i64) -> bool {
    exists|r: int| 0 <= r < s.len() && (#[trigger] s[r]).idx == a
}

/// Some entry of `res` is the row index `a`.
pub open spec fn holds_row(res: Seq<i64>, a: i64) -> bool {
    exists|r: int| 0 <= r < res.len() && #[trigger] res[r] == a
}

/// Every sorted rearrangement of the built intervals carries each row
/// exactly once, and each of its entries is that row's widened record.
pub proof fn lemma_intervals_recovery(
    s: Seq<Interval>,
    chrs: Seq<i64>,
    starts: Seq<i64>,
    ends: Seq<i64>,
    slack: int,
)
    requires
        coords_ok(chrs, starts, ends),
        chrs.len() < pos_bound(),
        s.to_multiset() == built_intervals(chrs, starts, ends, slack).to_multiset(),
    ensures
        s.len() == chrs.len(),
        forall|r: int|
            0 <= r < s.len() ==> 0 <= (#[trigger] s[r]).idx < chrs.len() && s[r] == built_intervals(
                chrs,
                starts,
                ends,
                slack,
            )[s[r].idx as int],
        forall|r1: int, r2: int|
            0 <= r1 < r2 < s.len() ==> (#[trigger] s[r1]).idx != (#[trigger] s[r2]).idx,
        forall|a: i64| 0 <= a < chrs.len() ==> #[trigger] has_row(s, a),
{
    let built = built_intervals(chrs, starts, ends, slack);
    s.to_multiset_ensures();
    built.to_multiset_ensures();
    assert(s.len() == built.len());
    assert forall|r: int| 0 <= r < s.len() implies 0 <= (#[trigger] s[r]).idx < chrs.len() && s[r]
        == built[s[r].idx as int] by {
        lemma_count_eq_index(s, r);
        lemma_counts_transfer(s, built, s[r]);
        lemma_count_eq_pos(built, s[r]);
        let u = choose|u: int| 0 <= u < built.len() && built[u] == s[r];
        assert(built[u].idx == u as i64);
    }
    assert forall|r1: int, r2: int| 0 <= r1 < r2 < s.len() implies (#[trigger] s[r1]).idx
        != (#[trigger] s[r2]).idx by {
        if s[r1].idx == s[r2].idx {
            assert(s[r1] == s[r2]);
            lemma_count_eq_two(s, s[r1], r1, r2);
            lemma_counts_transfer(s, built, s[r1]);
            let a = s[r1].idx as int;
            assert forall|u2: int| 0 <= u2 < built.len() && built[u2] == s[r1] implies u2 == a by {
                assert(built[u2].idx == u2 as i64);
            }
            lemma_count_eq_unique(built, s[r1], a);
        }
    }
    assert forall|a: i64| 0 <= a < chrs.len() implies #[trigger] has_row(s, a) by {
        lemma_count_eq_index(built, a as int);
        lemma_counts_transfer(s, built, built[a as int]);
        lemma_count_eq_pos(s, built[a as int]);
        let r = choose|r: int| 0 <= r < s.len() && s[r] == built[a as int];
        assert(s[r].idx == a);
    }
}

/// Widening keeps positions inside the exactly-representable band and
/// keeps each start at or before its end.
pub proof fn lemma_paired_ok_widened(
    chrs: Seq<i64>,
    starts: Seq<i64>,
    ends: Seq<i64>,
    sslack: int,
    eslack: int,
)
    requires
        coords_ok(chrs, starts, ends),
        0 <= sslack <= pos_bound(),
        0 <= eslack <= pos_bound(),
        chrs.len() < pos_bound(),
    ensures
        crate::events::paired_ok(chrs, widened_starts(starts, sslack), widened_ends(ends, eslack)),
{
}

/// Appends the two boundary events of every row of one collection, starts
/// widened leftwards by `start_slack`, ends widened rightwards by
/// `end_slack`.
fn append_pair_events(
    events: &mut Vec<Event>,
    chrs: &[i64],
    starts: &[i64],
    ends: &[i64],
    start_slack: i64,
    end_slack: i64,
    first_set: bool,
)
    requires
        coords_ok(chrs@, starts@, ends@),
        slack_ok(start_slack),
        slack_ok(end_slack),
        chrs@.len() < pos_bound(),
    ensures
        final(events)@ == old(events)@ + paired_events(
            chrs@,
            widened_starts(starts@, start_slack as int),
            widened_ends(ends@, end_slack as int),
            first_set,
        ),
{
    let ghost base = events@;
    let ghost built = paired_events(
        chrs@,
        widened_starts(starts@, start_slack as int),
        widened_ends(ends@, end_slack as int),
        first_set,
    );
    let n = chrs.len();
    let mut i: usize = 0;
    while i < n
        invariant
            i <= n,
            n == chrs@.len(),
            coords_ok(chrs@, starts@, ends@),
            slack_ok(start_slack),
            slack_ok(end_slack),
            n < pos_bound(),
            starts@.len() == n,
            ends@.len() == n,
            built == paired_events(
                chrs@,
                widened_starts(starts@, start_slack as int),
                widened_ends(ends@, end_slack as int),
                first_set,
            ),
            built.len() == 2 * n,
            events@.len() == base.len() + 2 * i as int,
            forall|t: int| 0 <= t < base.len() ==> events@[t] == base[t],
            forall|t: int|
                0 <= t < 2 * i as int ==> events@[base.len() + t] == built[t],
        decreases n - i,
    {
        let ws: i64 = if starts[i] > start_slack {
            starts[i] - start_slack
        } else {
            0
        };
        let we: i64 = ends[i] + end_slack;
        events.push(Event { chr: chrs[i], pos: ws, is_start: true, first_set, idx: i as i64 });
        events.push(Event { chr: chrs[i], pos: we, is_start: false, first_set, idx: i as i64 });
        proof {
            crate::events::lemma_pair_div(i as int);
            assert(events@[base.len() + 2 * i as int] == built[2 * i as int]);
            assert(events@[base.len() + 2 * i as int + 1] == built[2 * i as int + 1]);
        }
        i += 1;
    }
    proof {
        assert(events@ =~= base + built);
    }
}

/// The interleaved boundary events of two collections, the first widened
/// by `slack` on both sides, sorted for the sweep.
pub fn build_sorted_events(
    chrs: &[i64],
    starts: &[i64],
    ends: &[i64],
    chrs2: &[i64],
    starts2: &[i64],
    ends2: &[i64],
    slack: i64,
) -> (res: Vec<Event>)
    requires
        coords_ok(chrs@, starts@, ends@),
        coords_ok(chrs2@, starts2@, ends2@),
        slack_ok(slack),
        chrs@.len() < pos_bound(),
        chrs2@.len() < pos_bound(),
    ensures
        events_sorted(res@),
        res@.to_multiset() == two_coll_built(
            chrs@,
            widened_starts(starts@, slack as int),
            widened_ends(ends@, slack as int),
            chrs2@,
            widened_starts(starts2@, 0),
            widened_ends(ends2@, 0),
        ).to_multiset(),
        // events that tie on the whole sort key keep construction order
        forall|t1: int, t2: int|
            #![trigger res@[t1], res@[t2]]
            0 <= t1 < t2 < res@.len() && event_le(res@[t1], res@[t2]) && event_le(
                res@[t2],
                res@[t1],
            ) ==> slot_index(
                chrs@.len() as int,
                res@[t1].first_set,
                res@[t1].is_start,
                res@[t1].idx as int,
            ) < slot_index(
                chrs@.len() as int,
                res@[t2].first_set,
                res@[t2].is_start,
                res@[t2].idx as int,
            ),
{
    let ghost pre = two_coll_built(
        chrs@,
        widened_starts(starts@, slack as int),
        widened_ends(ends@, slack as int),
        chrs2@,
        widened_starts(starts2@, 0),
        widened_ends(ends2@, 0),
    );
    let mut events: Vec<Event> = Vec::new();
    append_pair_events(&mut events, chrs, starts, ends, slack, slack, true);
    append_pair_events(&mut events, chrs2, starts2, ends2, 0, 0, false);
    proof {
        assert(events@ =~= pre);
    }
    sort_events(&mut events);
    proof {
        let n1 = chrs@.len() as int;
        assert forall|i: int| 0 <= i < pre.len() implies slot_index(
            n1,
            (#[trigger] pre[i]).first_set,
            pre[i].is_start,
            pre[i].idx as int,
        ) == i by {
            if i < 2 * n1 {
                assert(pre[i] == paired_events(
                    chrs@,
                    widened_starts(starts@, slack as int),
                    widened_ends(ends@, slack as int),
                    true,
                )[i]);
                assert(i % 2 == 0 || i % 2 == 1);
            } else {
                assert(pre[i] == paired_events(
                    chrs2@,
                    widened_starts(starts2@, 0),
                    widened_ends(ends2@, 0),
                    false,
                )[i - 2 * n1]);
                assert((i - 2 * n1) % 2 == 0 || (i - 2 * n1) % 2 == 1);
            }
        }
        let perm = choose|perm: Seq<int>|
            #[trigger] permuted(pre, events@, perm) && (forall|t1: int, t2: int|
                #![trigger perm[t1], perm[t2]]
                0 <= t1 < t2 < perm.len() && event_le(events@[t1], events@[t2]) && event_le(
                    events@[t2],
                    events@[t1],
                ) ==> perm[t1] < perm[t2]);
        assert forall|t1: int, t2: int|
            0 <= t1 < t2 < events@.len() && event_le(
                #[trigger] events@[t1],
                #[trigger] events@[t2],
            ) && event_le(events@[t2], events@[t1]) implies slot_index(
            n1,
            events@[t1].first_set,
            events@[t1].is_start,
            events@[t1].idx as int,
        ) < slot_index(
            n1,
            events@[t2].first_set,
            events@[t2].is_start,
            events@[t2].idx as int,
        ) by {
            assert(events@[t1] == pre[perm[t1]]);
            assert(events@[t2] == pre[perm[t2]]);
            assert(perm[t1] < perm[t2]);
            assert(slot_index(
                n1,
                pre[perm[t1]].first_set,
                pre[perm[t1]].is_start,
                pre[perm[t1]].idx as int,
            ) == perm[t1]);
            assert(slot_index(
                n1,
                pre[perm[t2]].first_set,
                pre[perm[t2]].is_start,
                pre[perm[t2]].idx as int,
            ) == perm[t2]);
        }
    }
    events
}

/// The boundary events of one collection, ends widened rightwards by
/// `slack`, sorted for a single-collection sweep.
pub fn build_sorted_events_single_collection(
    chrs: &[i64],
    starts: &[i64],
    ends: &[i64],
    slack: i64,
) -> (res: Vec<Event>)
    requires
        coords_ok(chrs@, starts@, ends@),
        slack_ok(slack),
        chrs@.len() < pos_bound(),
    ensures
        events_sorted(res@),
        res@.to_multiset() == two_coll_built(
            chrs@,
            widened_starts(starts@, 0),
            widened_ends(ends@, slack as int),
            Seq::<i64>::empty(),
            Seq::<int>::empty(),
            Seq::<int>::empty(),
        ).to_multiset(),
{
    let mut events: Vec<Event> = Vec::new();
    append_pair_events(&mut events, chrs, starts, ends, 0, slack, true);
    sort_events(&mut events);
    proof {
        assert(paired_events(Seq::<i64>::empty(), Seq::<int>::empty(), Seq::<int>::empty(), false)
            =~= Seq::<Event>::empty());
        assert(events@.to_multiset() == two_coll_built(
            chrs@,
            widened_starts(starts@, 0),
            widened_ends(ends@, slack as int),
            Seq::<i64>::empty(),
            Seq::<int>::empty(),
            Seq::<int>::empty(),
        ).to_multiset()) by {
            assert(two_coll_built(
                chrs@,
                widened_starts(starts@, 0),
                widened_ends(ends@, slack as int),
                Seq::<i64>::empty(),
                Seq::<int>::empty(),
                Seq::<int>::empty(),
            ) =~= paired_events(
                chrs@,
                widened_starts(starts@, 0),
                widened_ends(ends@, slack as int),
                true,
            ));
        }
    }
    events
}

/// One reduced event per row of one collection, positions as handed in.
pub open spec fn min_built(chrs: Seq<i64>, pos: Seq<int>) -> Seq<MinEvent> {
    Seq::new(
        chrs.len(),
        |i: int| MinEvent { chr: chrs[i], pos: pos[i] as i64, idx: i as i64 },
    )
}

/// Appends one reduced event per row, position widened by `slack` leftwards
/// when `widen_left` is set, rightwards otherwise.
fn build_min_events(chrs: &[i64], pos: &[i64], slack: i64, widen_left: bool) -> (res: Vec<
    MinEvent,
>)
    requires
        forall|i: int| 0 <= i < pos@.len() ==> 0 <= #[trigger] pos@[i] <= pos_bound(),
        pos@.len() == chrs@.len(),
        slack_ok(slack),
        chrs@.len() < pos_bound(),
    ensures
        min_events_sorted(res@),
        widen_left ==> res@.to_multiset() == min_built(
            chrs@,
            widened_starts(pos@, slack as int),
        ).to_multiset(),
        !widen_left ==> res@.to_multiset() == min_built(
            chrs@,
            widened_ends(pos@, slack as int),
        ).to_multiset(),
{
    let ghost target = if widen_left {
        min_built(chrs@, widened_starts(pos@, slack as int))
    } else {
        min_built(chrs@, widened_ends(pos@, slack as int))
    };
    let n = chrs.len();
    let mut res: Vec<MinEvent> = Vec::new();
    let mut i: usize = 0;
    while i < n
        invariant
            i <= n,
            n == chrs@.len(),
            pos@.len() == n,
            forall|t: int| 0 <= t < n ==> 0 <= #[trigger] pos@[t] <= pos_bound(),
            slack_ok(slack),
            n < pos_bound(),
            target == if widen_left {
                min_built(chrs@, widened_starts(pos@, slack as int))
            } else {
                min_built(chrs@, widened_ends(pos@, slack as int))
            },
            target.len() == n,
            res@.len() == i as int,
            forall|t: int| 0 <= t < i as int ==> res@[t] == target[t],
        decreases n - i,
    {
        let p: i64 = if widen_left {
            if pos[i] > slack {
                pos[i] - slack
            } else {
                0
            }
        } else {
            pos[i] + slack
        };
        res.push(MinEvent { chr: chrs[i], pos: p, idx: i as i64 });
        i += 1;
    }
    proof {
        assert(res@ =~= target);
    }
    sort_min_events(&mut res);
    res
}

/// The start and end streams of one collection, kept separate: the starts
/// widened leftwards by `slack`, the ends widened rightwards, each stream
/// sorted by `(chr, pos)`.
pub fn build_sorted_events_single_collection_separate_outputs(
    chrs: &[i64],
    starts: &[i64],
    ends: &[i64],
    slack: i64,
) -> (res: (Vec<MinEvent>, Vec<MinEvent>))
    requires
        coords_ok(chrs@, starts@, ends@),
        slack_ok(slack),
        chrs@.len() < pos_bound(),
    ensures
        min_events_sorted(res.0@),
        min_events_sorted(res.1@),
        res.0@.to_multiset() == min_built(chrs@, widened_starts(starts@, slack as int)).to_multiset(),
        res.1@.to_multiset() == min_built(chrs@, widened_ends(ends@, slack as int)).to_multiset(),
{
    proof {
        assert forall|i: int| 0 <= i < starts@.len() implies 0 <= #[trigger] starts@[i]
            <= pos_bound() by {
            assert(starts@[i] <= ends@[i] <= pos_bound());
        }
        assert forall|i: int| 0 <= i < ends@.len() implies 0 <= #[trigger] ends@[i]
            <= pos_bound() by {
            assert(0 <= starts@[i] <= ends@[i]);
        }
    }
    let sorted_starts = build_min_events(chrs, starts, slack, true);
    let sorted_ends = build_min_events(chrs, ends, slack, false);
    (sorted_starts, sorted_ends)
}

/// The spliced-subsequence rows of one collection: minus-strand rows have
/// their coordinates negated so that ascending order within the group
/// follows the transcript's direction.
pub open spec fn built_subsequence(
    chrs: Seq<i64>,
    starts: Seq<i64>,
    ends: Seq<i64>,
    strand_flags: Seq<bool>,
) -> Seq<SplicedSubsequenceInterval> {
    Seq::new(
        chrs.len(),
        |i: int|
            SplicedSubsequenceInterval {
                chr: chrs[i],
                start: if strand_flags[i] {
                    starts[i]
                } else {
                    (-starts[i]) as i64
                },
                end: if strand_flags[i] {
                    ends[i]
                } else {
                    (-ends[i]) as i64
                },
                idx: i as i64,
                forward_strand: strand_flags[i],
                temp_length: 0,
                temp_cumsum: 0,
            },
    )
}

/// One spliced-subsequence row per input row, in row order.
pub fn build_subsequence_intervals(
    chrs: &[i64],
    starts: &[i64],
    ends: &[i64],
    strand_flags: &[bool],
) -> (res: Vec<SplicedSubsequenceInterval>)
    requires
        coords_ok(chrs@, starts@, ends@),
        strand_flags@.len() == chrs@.len(),
        chrs@.len() < pos_bound(),
    ensures
        res@ == built_subsequence(chrs@, starts@, ends@, strand_flags@),
{
    let n = chrs.len();
    let mut res: Vec<SplicedSubsequenceInterval> = Vec::new();
    let mut i: usize = 0;
    while i < n
        invariant
            i <= n,
            n == chrs@.len(),
            coords_ok(chrs@, starts@, ends@),
            strand_flags@.len() == n,
            n < pos_bound(),
            res@.len() == i as int,
            forall|t: int|
                0 <= t < i as int ==> res@[t] == built_subsequence(
                    chrs@,
                    starts@,
                    ends@,
                    strand_flags@,
                )[t],
        decreases n - i,
    {
        let fwd = strand_flags[i];
        let s: i64 = if fwd {
            starts[i]
        } else {
            -starts[i]
        };
        let e: i64 = if fwd {
            ends[i]
        } else {
            -ends[i]
        };
        res.push(
            SplicedSubsequenceInterval {
                chr: chrs[i],
                start: s,
                end: e,
                idx: i as i64,
                forward_strand: fwd,
                temp_length: 0,
                temp_cumsum: 0,
            },
        );
        i += 1;
    }
    proof {
        assert(res@ =~= built_subsequence(chrs@, starts@, ends@, strand_flags@));
    }
    res
}

/// The spliced-subsequence rows sorted by `(chr, start, end)`.
pub fn build_sorted_subsequence_intervals(
    chrs: &[i64],
    starts: &[i64],
    ends: &[i64],
    strand_flags: &[bool],
) -> (res: Vec<SplicedSubsequenceInterval>)
    requires
        coords_ok(chrs@, starts@, ends@),
        strand_flags@.len() == chrs@.len(),
        chrs@.len() < pos_bound(),
    ensures
        spliced_sorted(res@),
        res@.to_multiset() == built_subsequence(
            chrs@,
            starts@,
            ends@,
            strand_flags@,
        ).to_multiset(),
{
    let mut rows = build_subsequence_intervals(chrs, starts, ends, strand_flags);
    sort_spliced(&mut rows);
    rows
}

/// The subsequence rows of one collection, with the caller's ids; minus
/// strands negated unless every row is forced to the plus strand.
pub open spec fn built_sequence(
    chrs: Seq<i64>,
    starts: Seq<i64>,
    ends: Seq<i64>,
    idxs: Seq<i64>,
    strand_flags: Seq<bool>,
    force_plus_strand: bool,
) -> Seq<SubsequenceInterval> {
    Seq::new(
        chrs.len(),
        |i: int|
            SubsequenceInterval {
                group_id: chrs[i],
                start: if force_plus_strand || strand_flags[i] {
                    starts[i]
                } else {
                    (-starts[i]) as i64
                },
                end: if force_plus_strand || strand_flags[i] {
                    ends[i]
                } else {
                    (-ends[i]) as i64
                },
                idx: idxs[i],
                forward_strand: strand_flags[i],
            },
    )
}

/// One subsequence row per input row, in row order.
pub fn build_sequence_intervals(
    chrs: &[i64],
    starts: &[i64],
    ends: &[i64],
    idxs: &[i64],
    strand_flags: &[bool],
    force_plus_strand: bool,
) -> (res: Vec<SubsequenceInterval>)
    requires
        coords_ok(chrs@, starts@, ends@),
        idxs@.len() == chrs@.len(),
        strand_flags@.len() == chrs@.len(),
        chrs@.len() < pos_bound(),
    ensures
        res@ == built_sequence(chrs@, starts@, ends@, idxs@, strand_flags@, force_plus_strand),
{
    let n = chrs.len();
    let mut res: Vec<SubsequenceInterval> = Vec::new();
    let mut i: usize = 0;
    while i < n
        invariant
            i <= n,
            n == chrs@.len(),
            coords_ok(chrs@, starts@, ends@),
            idxs@.len() == n,
            strand_flags@.len() == n,
            n < pos_bound(),
            res@.len() == i as int,
            forall|t: int|
                0 <= t < i as int ==> res@[t] == built_sequence(
                    chrs@,
                    starts@,
                    ends@,
                    idxs@,
                    strand_flags@,
                    force_plus_strand,
                )[t],
        decreases n - i,
    {
        let fwd = force_plus_strand || strand_flags[i];
        let s: i64 = if fwd {
            starts[i]
        } else {
            -starts[i]
        };
        let e: i64 = if fwd {
            ends[i]
        } else {
            -ends[i]
        };
        res.push(
            SubsequenceInterval {
                group_id: chrs[i],
                start: s,
                end: e,
                idx: idxs[i],
                forward_strand: strand_flags[i],
            },
        );
        i += 1;
    }
    proof {
        assert(res@ =~= built_sequence(
            chrs@,
            starts@,
            ends@,
            idxs@,
            strand_flags@,
            force_plus_strand,
        ));
    }
    res
}

/// The subsequence rows sorted by `(group_id, start, end)`.
pub fn build_sorted_sequence_intervals(
    chrs: &[i64],
    starts: &[i64],
    ends: &[i64],
    idxs: &[i64],
    strand_flags: &[bool],
    force_plus_strand: bool,
) -> (res: Vec<SubsequenceInterval>)
    requires
        coords_ok(chrs@, starts@, ends@),
        idxs@.len() == chrs@.len(),
        strand_flags@.len() == chrs@.len(),
        chrs@.len() < pos_bound(),
    ensures
        sequence_sorted(res@),
        res@.to_multiset() == built_sequence(
            chrs@,
            starts@,
            ends@,
            idxs@,
            strand_flags@,
            force_plus_strand,
        ).to_multiset(),
{
    let mut rows = build_sequence_intervals(chrs, starts, ends, idxs, strand_flags, force_plus_strand);
    sort_sequence(&mut rows);
    rows
}

/// One boundary event per row at the given positions, offset by `slack`
/// leftwards for starts and rightwards for ends, negated on request, and
/// sorted.
pub open spec fn single_pos_events(
    chrs: Seq<i64>,
    pos: Seq<i64>,
    start: bool,
    first_set: bool,
    negative_position: bool,
    slack: int,
) -> Seq<Event> {
    Seq::new(
        chrs.len(),
        |i: int|
            Event {
                chr: chrs[i],
                pos: ({
                    let p = if start {
                        pos[i] - slack
                    } else {
                        pos[i] + slack
                    };
                    (if negative_position {
                        -p
                    } else {
                        p
                    }) as i64
                }),
                is_start: start,
                first_set,
                idx: i as i64,
            },
    )
}

/// The events of one boundary column, sorted by `(chr, pos)` with starts
/// first at a tied position.
pub fn build_sorted_events_single_position(
    chrs: &[i64],
    pos: &[i64],
    start: bool,
    first_set: bool,
    negative_position: bool,
    slack: i64,
) -> (res: Vec<Event>)
    requires
        pos@.len() == chrs@.len(),
        forall|i: int| 0 <= i < pos@.len() ==> 0 <= #[trigger] pos@[i] <= pos_bound(),
        slack_ok(slack),
        chrs@.len() < pos_bound(),
    ensures
        events_sorted(res@),
        res@.to_multiset() == single_pos_events(
            chrs@,
            pos@,
            start,
            first_set,
            negative_position,
            slack as int,
        ).to_multiset(),
{
    let ghost target = single_pos_events(
        chrs@,
        pos@,
        start,
        first_set,
        negative_position,
        slack as int,
    );
    let n = chrs.len();
    let mut res: Vec<Event> = Vec::new();
    let mut i: usize = 0;
    while i < n
        invariant
            i <= n,
            n == chrs@.len(),
            pos@.len() == n,
            forall|t: int| 0 <= t < n ==> 0 <= #[trigger] pos@[t] <= pos_bound(),
            slack_ok(slack),
            n < pos_bound(),
            target == single_pos_events(
                chrs@,
                pos@,
                start,
                first_set,
                negative_position,
                slack as int,
            ),
            target.len() == n,
            res@.len() == i as int,
            forall|t: int| 0 <= t < i as int ==> res@[t] == target[t],
        decreases n - i,
    {
        let p0: i64 = if start {
            pos[i] - slack
        } else {
            pos[i] + slack
        };
        let p: i64 = if negative_position {
            -p0
        } else {
            p0
        };
        res.push(Event { chr: chrs[i], pos: p, is_start: start, first_set, idx: i as i64 });
        i += 1;
    }
    proof {
        assert(res@ =~= target);
    }
    sort_events(&mut res);
    res
}

/// Row `a` sorts at or before row `b` under the `(group, start, end)` key.
pub open spec fn row_le(
    chrs: Seq<i64>,
    starts: Seq<i64>,
    ends: Seq<i64>,
    a: int,
    b: int,
) -> bool {
    ||| chrs[a] < chrs[b]
    ||| (chrs[a] == chrs[b] && starts[a] < starts[b])
    ||| (chrs[a] == chrs[b] && starts[a] == starts[b] && ends[a] <= ends[b])
}

/// The permutation that sorts the rows by `(group, start, end)`: the result
/// holds every row index exactly once, in sorted key order.
pub fn sort_order_idx(chrs: &[i64], starts: &[i64], ends: &[i64]) -> (res: Vec<i64>)
    requires
        coords_ok(chrs@, starts@, ends@),
        chrs@.len() < pos_bound(),
    ensures
        res@.len() == chrs@.len(),
        forall|r: int| 0 <= r < res@.len() ==> 0 <= #[trigger] res@[r] < chrs@.len(),
        forall|r1: int, r2: int| 0 <= r1 < r2 < res@.len() ==> res@[r1] != res@[r2],
        forall|a: i64| 0 <= a < chrs@.len() ==> #[trigger] holds_row(res@, a),
        forall|r1: int, r2: int|
            0 <= r1 < r2 < res@.len() ==> row_le(
                chrs@,
                starts@,
                ends@,
                #[trigger] res@[r1] as int,
                #[trigger] res@[r2] as int,
            ),
        // rows that tie on the whole key keep their original order
        forall|r1: int, r2: int|
            #![trigger res@[r1], res@[r2]]
            0 <= r1 < r2 < res@.len() && row_le(chrs@, starts@, ends@, res@[r1] as int, res@[r2] as int)
                && row_le(chrs@, starts@, ends@, res@[r2] as int, res@[r1] as int) ==> res@[r1]
                < res@[r2],
{
    let sorted = build_sorted_intervals(chrs, starts, ends, 0, true);
    proof {
        lemma_intervals_recovery(sorted@, chrs@, starts@, ends@, 0);
    }
    let n = sorted.len();
    let mut res: Vec<i64> = Vec::with_capacity(n);
    let mut r: usize = 0;
    while r < n
        invariant
            r <= n,
            n == sorted@.len(),
            res@.len() == r as int,
            forall|t: int| 0 <= t < r as int ==> res@[t] == sorted@[t].idx,
        decreases n - r,
    {
        res.push(sorted[r].idx);
        r += 1;
    }
    proof {
        let built = built_intervals(chrs@, starts@, ends@, 0);
        assert forall|r1: int, r2: int| 0 <= r1 < r2 < res@.len() implies row_le(
            chrs@,
            starts@,
            ends@,
            #[trigger] res@[r1] as int,
            #[trigger] res@[r2] as int,
        ) by {
            let a = sorted@[r1].idx as int;
            let b = sorted@[r2].idx as int;
            assert(sorted@[r1] == built[a]);
            assert(sorted@[r2] == built[b]);
            assert(interval_le(sorted@[r1], sorted@[r2]));
            assert(widen_start(starts@[a] as int, 0) == starts@[a] as int);
            assert(widen_start(starts@[b] as int, 0) == starts@[b] as int);
        }
        assert forall|a: i64| 0 <= a < chrs@.len() implies #[trigger] holds_row(res@, a) by {
            assert(has_row(sorted@, a));
            let rr = choose|rr: int| 0 <= rr < sorted@.len() && (#[trigger] sorted@[rr]).idx == a;
            assert(res@[rr] == a);
        }
        assert forall|r1: int, r2: int|
            0 <= r1 < r2 < res@.len() && row_le(
                chrs@,
                starts@,
                ends@,
                (#[trigger] res@[r1]) as int,
                (#[trigger] res@[r2]) as int,
            ) && row_le(chrs@, starts@, ends@, res@[r2] as int, res@[r1] as int) implies res@[r1]
            < res@[r2] by {
            let a = sorted@[r1].idx as int;
            let b = sorted@[r2].idx as int;
            assert(sorted@[r1] == built[a]);
            assert(sorted@[r2] == built[b]);
            assert(widen_start(starts@[a] as int, 0) == starts@[a] as int);
            assert(widen_start(starts@[b] as int, 0) == starts@[b] as int);
            assert(interval_le(sorted@[r1], sorted@[r2]));
            assert(interval_le(sorted@[r2], sorted@[r1]));
            assert(sorted@[r1].idx < sorted@[r2].idx);
        }
    }
    res
}

} // verus!
