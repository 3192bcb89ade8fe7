//! The bounded top-k machinery: a distance between interval spans, a
//! bounded collector that keeps the `k` smallest distances seen, the
//! two-pointer k-distinct search over boundary events, and a sweep that
//! gathers up to `k` candidates per query interval.

use vstd::prelude::*;
use crate::events::{coords_ok, pos_bound, rows_bound, slack_ok, widen_start};
use crate::nearest::{min_events_ok, right_rows};
use crate::ruranges_structs::{HeapItem, Interval, MinEvent, Nearest};
use crate::sorts::{built_intervals, build_sorted_intervals, has_row, interval_le_gs,
    intervals_sorted_gs, lemma_intervals_recovery, min_events_sorted,
    sort_nearest_by_idx_dist};

verus! {

/// The distance between the spans `[s1, e1]` and `[s2, e2]`: zero when
/// their closed spans meet, else the positive gap between them.
pub fn interval_distance(s1: i64, e1: i64, s2: i64, e2: i64) -> (d: i64)
    requires
        -pos_bound() <= s1 <= e1 <= 2 * pos_bound(),
        -pos_bound() <= s2 <= e2 <= 2 * pos_bound(),
    ensures
        (s1 <= e2 && s2 <= e1) ==> d == 0,
        s2 > e1 ==> d == s2 - e1,
        !(s1 <= e2 && s2 <= e1) && s2 <= e1 ==> d == s1 - e2,
{
    if s1 <= e2 && s2 <= e1 {
        0
    } else if s2 > e1 {
        s2 - e1
    } else {
        s1 - e2
    }
}

/// The collector holds distances ascending (negated distances
/// descending), so the worst kept distance sits at the back.
pub open spec fn heap_sorted(h: Seq<HeapItem>) -> bool {
    forall|t1: int, t2: int|
        0 <= t1 < t2 < h.len() ==> (#[trigger] h[t1]).neg_dist >= (#[trigger] h[t2]).neg_dist
}

/// Pushes `(dist, idx2)` into a bounded collector of the `k` smallest
/// distances: grows while below `k`, else replaces the worst kept entry
/// when strictly better, tracking how many zero distances are held.
#[verifier::spinoff_prover]
pub fn push_distance(
    heap: &mut Vec<HeapItem>,
    dist: i64,
    idx2: i64,
    k: usize,
    zcount: &mut usize,
) -> (pushed: bool)
    requires
        heap_sorted(old(heap)@),
        old(heap)@.len() <= k,
        0 <= dist <= 4 * pos_bound(),
        *old(zcount) < 0x4000_0000,
    ensures
        heap_sorted(final(heap)@),
        final(heap)@.len() <= k,
        old(heap)@.len() < k ==> *final(zcount) as int == *old(zcount) + (if dist == 0 {
            1int
        } else {
            0int
        }),
        old(heap)@.len() == k && k > 0 && (-dist) as i64 > old(heap)@.last().neg_dist
            ==> *final(zcount) as int == *old(zcount) - (if old(heap)@.last().neg_dist == 0
            && *old(zcount) > 0 {
            1int
        } else {
            0int
        }) + (if dist == 0 {
            1int
        } else {
            0int
        }),
        old(heap)@.len() == k && (k == 0 || (-dist) as i64 <= old(heap)@.last().neg_dist)
            ==> *final(zcount) == *old(zcount),
        old(heap)@.len() < k ==> final(heap)@.len() == old(heap)@.len() + 1,
        old(heap)@.len() == k && k > 0 && (-dist) as i64 > old(heap)@.last().neg_dist
            ==> final(heap)@.len() == k,
        old(heap)@.len() == k && (k == 0 || (-dist) as i64 <= old(heap)@.last().neg_dist)
            ==> final(heap)@ == old(heap)@,
        old(heap)@.len() < k ==> exists|pos: int|
            #![trigger old(heap)@.insert(pos, (HeapItem { neg_dist: (-dist) as i64, idx2 }))]
            0 <= pos <= old(heap)@.len() && final(heap)@ == old(heap)@.insert(
                pos,
                (HeapItem { neg_dist: (-dist) as i64, idx2 }),
            ),
        old(heap)@.len() == k && k > 0 && (-dist) as i64 > old(heap)@.last().neg_dist ==> exists|
            pos: int,
        |
            #![trigger old(heap)@.drop_last().insert(pos, (HeapItem { neg_dist: (-dist) as i64, idx2 }))]
            0 <= pos <= old(heap)@.len() - 1 && final(heap)@ == old(heap)@.drop_last().insert(
                pos,
                (HeapItem { neg_dist: (-dist) as i64, idx2 }),
            ),
{
    let neg_dist: i64 = -dist;
    let item = HeapItem { neg_dist, idx2 };
    if heap.len() < k {
        let pos = heap_insert_pos(heap, neg_dist);
        let ghost pre = heap@;
        heap.insert(pos, item);
        if dist == 0 {
            *zcount = *zcount + 1;
        }
        proof {
            assert(heap@ =~= pre.insert(pos as int, item));
            assert forall|t1: int, t2: int| 0 <= t1 < t2 < heap@.len() implies (
            #[trigger] heap@[t1]).neg_dist >= (#[trigger] heap@[t2]).neg_dist by {
                if t1 < pos as int && t2 > pos as int {
                    assert(heap@[t1] == pre[t1] && heap@[t2] == pre[t2 - 1]);
                } else if t1 == pos as int {
                    assert(heap@[t2] == pre[t2 - 1]);
                } else if t2 == pos as int {
                    assert(heap@[t1] == pre[t1]);
                } else if t2 < pos as int {
                    assert(heap@[t1] == pre[t1] && heap@[t2] == pre[t2]);
                } else {
                    assert(heap@[t1] == pre[t1 - 1] && heap@[t2] == pre[t2 - 1]);
                }
            }
        }
        true
    } else if k > 0 && neg_dist > heap[k - 1].neg_dist {
        let ghost pre = heap@;
        let worst = heap.pop().unwrap();
        let ghost mid = heap@;
        proof {
            assert(mid =~= pre.drop_last());
        }
        if worst.neg_dist == 0 {
            if *zcount > 0 {
                *zcount = *zcount - 1;
            }
        }
        let pos = heap_insert_pos(heap, neg_dist);
        let ghost pre2 = heap@;
        heap.insert(pos, item);
        if dist == 0 {
            *zcount = *zcount + 1;
        }
        proof {
            assert(heap@ =~= pre2.insert(pos as int, item));
            assert(pre2 == mid);
            assert(worst == pre.last());
            assert(heap@ =~= pre.drop_last().insert(pos as int, item));
            assert forall|t1: int, t2: int| 0 <= t1 < t2 < heap@.len() implies (
            #[trigger] heap@[t1]).neg_dist >= (#[trigger] heap@[t2]).neg_dist by {
                if t1 < pos as int && t2 > pos as int {
                    assert(heap@[t1] == pre2[t1] && heap@[t2] == pre2[t2 - 1]);
                } else if t1 == pos as int {
                    assert(heap@[t2] == pre2[t2 - 1]);
                } else if t2 == pos as int {
                    assert(heap@[t1] == pre2[t1]);
                } else if t2 < pos as int {
                    assert(heap@[t1] == pre2[t1] && heap@[t2] == pre2[t2]);
                } else {
                    assert(heap@[t1] == pre2[t1 - 1] && heap@[t2] == pre2[t2 - 1]);
                }
            }
        }
        true
    } else {
        false
    }
}

/// Where to insert an entry to keep the negated distances descending.
fn heap_insert_pos(heap: &Vec<HeapItem>, neg_dist: i64) -> (pos: usize)
    requires
        heap_sorted(heap@),
    ensures
        pos <= heap@.len(),
        forall|t: int| 0 <= t < pos as int ==> (#[trigger] heap@[t]).neg_dist >= neg_dist,
        forall|t: int| pos as int <= t < heap@.len() ==> (#[trigger] heap@[t]).neg_dist <= neg_dist,
{
    let n = heap.len();
    let mut pos: usize = 0;
    while pos < n && heap[pos].neg_dist >= neg_dist
        invariant
            heap_sorted(heap@),
            n == heap@.len(),
            pos <= n,
            forall|t: int| 0 <= t < pos as int ==> (#[trigger] heap@[t]).neg_dist >= neg_dist,
        decreases n - pos,
    {
        pos += 1;
    }
    proof {
        assert forall|t: int| pos as int <= t < heap@.len() implies (#[trigger] heap@[t]).neg_dist
            <= neg_dist by {
            if t > pos as int {
                assert(heap@[pos as int].neg_dist >= heap@[t].neg_dist);
            }
        }
    }
    pos
}


/// Positions as handed to the search, negated on request.
pub open spec fn adj_pos(pos: Seq<i64>, invert: bool) -> Seq<int> {
    Seq::new(
        pos.len(),
        |i: int|
            if invert {
                -pos[i]
            } else {
                pos[i] as int
            },
    )
}

/// Nearest rows with the positional indices replaced by the callers' ids.
pub open spec fn map_ids(rows: Seq<Nearest>, idxs: Seq<i64>, idxs2: Seq<i64>) -> Seq<Nearest> {
    Seq::new(
        rows.len(),
        |t: int|
            Nearest {
                distance: rows[t].distance,
                idx: idxs[rows[t].idx as int],
                idx2: idxs2[rows[t].idx2 as int],
            },
    )
}

/// Nearest rows as `(idx, idx2, distance)` triples.
pub open spec fn to_triples(rows: Seq<Nearest>) -> Seq<(i64, i64, i64)> {
    Seq::new(rows.len(), |t: int| (rows[t].idx, rows[t].idx2, rows[t].distance))
}

/// What the k-distinct search returns: the forward-search rows of the two
/// (possibly negated) boundary streams, ids mapped, ordered by
/// `(idx, distance)`.
pub open spec fn k_nearest_out(
    chrs: Seq<i64>,
    pos: Seq<i64>,
    idxs: Seq<i64>,
    chrs2: Seq<i64>,
    pos2: Seq<i64>,
    idxs2: Seq<i64>,
    invert_pos: bool,
    k: int,
    o1: Seq<i64>,
    o2: Seq<i64>,
    od: Seq<i64>,
) -> bool {
    exists|es: Seq<MinEvent>, cs: Seq<MinEvent>|
        #![trigger min_events_sorted(es), min_events_sorted(cs)]
        {
            &&& min_events_sorted(es)
            &&& min_events_sorted(cs)
            &&& es.to_multiset() == crate::sorts::min_built(chrs, adj_pos(pos, invert_pos)).to_multiset()
            &&& cs.to_multiset() == crate::sorts::min_built(
                chrs2,
                adj_pos(pos2, invert_pos),
            ).to_multiset()
            &&& crate::nearest::zip3(o1, o2, od).to_multiset() == to_triples(
                map_ids(right_rows(es, cs, k), idxs, idxs2),
            ).to_multiset()
            &&& crate::nearest::sorted3(crate::nearest::zip3(o1, o2, od))
        }
}

/// The two-pointer k-distinct search over one boundary column per
/// collection: for every first-collection boundary, the candidates at or
/// past it on its group whose positions are among the `k` nearest
/// distinct ones.  Results are ordered by `(id, distance)`.
pub fn sweep_line_k_nearest(
    chrs: &[i64],
    pos: &[i64],
    idxs: &[i64],
    chrs2: &[i64],
    pos2: &[i64],
    idxs2: &[i64],
    invert_pos: bool,
    k: usize,
) -> (res: (Vec<i64>, Vec<i64>, Vec<i64>))
    requires
        pos@.len() == chrs@.len(),
        idxs@.len() == chrs@.len(),
        pos2@.len() == chrs2@.len(),
        idxs2@.len() == chrs2@.len(),
        forall|i: int| 0 <= i < pos@.len() ==> 0 <= #[trigger] pos@[i] <= pos_bound(),
        forall|i: int| 0 <= i < pos2@.len() ==> 0 <= #[trigger] pos2@[i] <= pos_bound(),
        forall|i: int|
            0 <= i < chrs@.len() ==> -pos_bound() <= #[trigger] chrs@[i] <= pos_bound(),
        forall|i: int|
            0 <= i < chrs2@.len() ==> -pos_bound() <= #[trigger] chrs2@[i] <= pos_bound(),
        chrs@.len() < rows_bound(),
        chrs2@.len() < rows_bound(),
        k < 0x4000_0000_0000_0000,
    ensures
        res.1@.len() == res.0@.len(),
        res.2@.len() == res.0@.len(),
        k_nearest_out(
            chrs@,
            pos@,
            idxs@,
            chrs2@,
            pos2@,
            idxs2@,
            invert_pos,
            k as int,
            res.0@,
            res.1@,
            res.2@,
        ),
{
    let es = build_adj_min_events(chrs, pos, invert_pos);
    let cs = build_adj_min_events(chrs2, pos2, invert_pos);
    let ghost es_v = es@;
    let ghost cs_v = cs@;
    let rows = crate::nearest::nearest_intervals_to_the_right(es, cs, k);
    let ghost raw_rows = rows@;
    // map the positional indices to the callers' ids
    let n = rows.len();
    let mut mapped: Vec<Nearest> = Vec::new();
    let mut t: usize = 0;
    proof {
        lemma_right_rows_bounds(es_v, cs_v, k as int, chrs@.len() as int, chrs2@.len() as int);
    }
    while t < n
        invariant
            n == raw_rows.len(),
            raw_rows == rows@,
            idxs@.len() == chrs@.len(),
            idxs2@.len() == chrs2@.len(),
            t <= n,
            forall|r: int|
                0 <= r < n ==> 0 <= (#[trigger] raw_rows[r]).idx < idxs@.len() && 0
                    <= raw_rows[r].idx2 < idxs2@.len(),
            mapped@.len() == t as int,
            forall|r: int|
                0 <= r < t as int ==> (#[trigger] mapped@[r]) == map_ids(
                    raw_rows,
                    idxs@,
                    idxs2@,
                )[r],
        decreases n - t,
    {
        let row = rows[t];
        mapped.push(
            Nearest {
                distance: row.distance,
                idx: idxs[row.idx as usize],
                idx2: idxs2[row.idx2 as usize],
            },
        );
        t += 1;
    }
    proof {
        assert(mapped@ =~= map_ids(raw_rows, idxs@, idxs2@));
    }
    sort_nearest_by_idx_dist(&mut mapped);
    let ghost sorted_rows = mapped@;
    let m = mapped.len();
    let mut o1: Vec<i64> = Vec::new();
    let mut o2: Vec<i64> = Vec::new();
    let mut od: Vec<i64> = Vec::new();
    let mut r: usize = 0;
    while r < m
        invariant
            m == sorted_rows.len(),
            sorted_rows == mapped@,
            r <= m,
            o1@.len() == r as int,
            o2@.len() == r as int,
            od@.len() == r as int,
            forall|r2: int|
                0 <= r2 < r as int ==> (#[trigger] o1@[r2]) == sorted_rows[r2].idx && o2@[r2]
                    == sorted_rows[r2].idx2 && od@[r2] == sorted_rows[r2].distance,
        decreases m - r,
    {
        let row = mapped[r];
        o1.push(row.idx);
        o2.push(row.idx2);
        od.push(row.distance);
        r += 1;
    }
    proof {
        assert(crate::nearest::zip3(o1@, o2@, od@) =~= to_triples(sorted_rows));
        lemma_to_triples_multiset(sorted_rows, map_ids(raw_rows, idxs@, idxs2@));
        assert forall|t1: int, t2: int|
            0 <= t1 < t2 < crate::nearest::zip3(o1@, o2@, od@).len() implies crate::nearest::le3(
            #[trigger] crate::nearest::zip3(o1@, o2@, od@)[t1],
            #[trigger] crate::nearest::zip3(o1@, o2@, od@)[t2],
        ) by {
            assert(crate::sorts::nearest_le(sorted_rows[t1], sorted_rows[t2]));
        }
    }
    (o1, o2, od)
}

/// Sequences with equal multisets have triple views with equal multisets.
pub(crate) proof fn lemma_to_triples_multiset(a: Seq<Nearest>, b: Seq<Nearest>)
    requires
        a.to_multiset() == b.to_multiset(),
    ensures
        to_triples(a).to_multiset() == to_triples(b).to_multiset(),
    decreases a.len(),
{
    assert forall|v: (i64, i64, i64)| true implies crate::events::count_eq(to_triples(a), v)
        == crate::events::count_eq(to_triples(b), v) by {
        let n = Nearest { distance: v.2, idx: v.0, idx2: v.1 };
        lemma_count_triples(a, v);
        lemma_count_triples(b, v);
        crate::events::lemma_counts_transfer(a, b, n);
    }
    assert forall|v: (i64, i64, i64)| true implies to_triples(a).to_multiset().count(v)
        == to_triples(b).to_multiset().count(v) by {
        crate::events::lemma_count_eq_to_multiset(to_triples(a), v);
        crate::events::lemma_count_eq_to_multiset(to_triples(b), v);
    }
    assert(to_triples(a).to_multiset() =~= to_triples(b).to_multiset());
}

/// Counting a triple equals counting its record form.
proof fn lemma_count_triples(a: Seq<Nearest>, v: (i64, i64, i64))
    ensures
        crate::events::count_eq(to_triples(a), v) == crate::events::count_eq(
            a,
            (Nearest { distance: v.2, idx: v.0, idx2: v.1 }),
        ),
    decreases a.len(),
{
    if a.len() > 0 {
        lemma_count_triples(a.drop_last(), v);
        assert(to_triples(a).drop_last() =~= to_triples(a.drop_last()));
        assert(to_triples(a).last() == (a.last().idx, a.last().idx2, a.last().distance));
    }
}


/// One reduced event per row at the given positions, negated on request,
/// sorted; every entry keeps a valid row index and bounded coordinates.
fn build_adj_min_events(chrs: &[i64], pos: &[i64], invert: bool) -> (res: Vec<MinEvent>)
    requires
        pos@.len() == chrs@.len(),
        forall|i: int| 0 <= i < pos@.len() ==> 0 <= #[trigger] pos@[i] <= pos_bound(),
        forall|i: int|
            0 <= i < chrs@.len() ==> -pos_bound() <= #[trigger] chrs@[i] <= pos_bound(),
        chrs@.len() < rows_bound(),
    ensures
        min_events_sorted(res@),
        crate::nearest::min_events_ok(res@),
        res@.to_multiset() == crate::sorts::min_built(chrs@, adj_pos(pos@, invert)).to_multiset(),
        forall|t: int| 0 <= t < res@.len() ==> 0 <= (#[trigger] res@[t]).idx < chrs@.len(),
{
    let ghost target = crate::sorts::min_built(chrs@, adj_pos(pos@, invert));
    let n = chrs.len();
    let mut res: Vec<MinEvent> = Vec::new();
    let mut i: usize = 0;
    while i < n
        invariant
            i <= n,
            n == chrs@.len(),
            pos@.len() == n,
            forall|t: int| 0 <= t < n ==> 0 <= #[trigger] pos@[t] <= pos_bound(),
            forall|t: int| 0 <= t < n ==> -pos_bound() <= #[trigger] chrs@[t] <= pos_bound(),
            n < rows_bound(),
            target == crate::sorts::min_built(chrs@, adj_pos(pos@, invert)),
            target.len() == n,
            res@.len() == i as int,
            forall|t: int| 0 <= t < i as int ==> res@[t] == target[t],
        decreases n - i,
    {
        let p: i64 = if invert {
            -pos[i]
        } else {
            pos[i]
        };
        res.push(MinEvent { chr: chrs[i], pos: p, idx: i as i64 });
        i += 1;
    }
    proof {
        assert(res@ =~= target);
    }
    crate::sorts::sort_min_events(&mut res);
    proof {
        assert forall|t: int| 0 <= t < res@.len() implies 0 <= (#[trigger] res@[t]).idx
            < chrs@.len() && -2 * pos_bound() <= res@[t].pos <= 2 * pos_bound() && -2
            * pos_bound() <= res@[t].chr <= 2 * pos_bound() by {
            crate::events::lemma_count_eq_index(res@, t);
            crate::events::lemma_counts_transfer(res@, target, res@[t]);
            crate::events::lemma_count_eq_pos(target, res@[t]);
            let u = choose|u: int| 0 <= u < target.len() && target[u] == res@[t];
            assert(target[u].idx == u as i64);
        }
    }
    res
}

/// Every reported row of one query carries that query's id and some
/// candidate's id.
proof fn lemma_rows_for_bounds(
    s2: Seq<MinEvent>,
    e: MinEvent,
    k: int,
    u: int,
    n1: int,
    n2: int,
)
    requires
        forall|t: int| 0 <= t < s2.len() ==> 0 <= (#[trigger] s2[t]).idx < n2,
        0 <= e.idx < n1,
        u < s2.len(),
    ensures
        forall|r: int|
            0 <= r < crate::nearest::rows_for(s2, e, k, u).len() ==> 0 <= (
            #[trigger] crate::nearest::rows_for(s2, e, k, u)[r]).idx < n1 && 0
                <= crate::nearest::rows_for(s2, e, k, u)[r].idx2 < n2,
    decreases u + 1,
{
    if u >= 0 {
        lemma_rows_for_bounds(s2, e, k, u - 1, n1, n2);
        let rows = crate::nearest::rows_for(s2, e, k, u);
        let pre = crate::nearest::rows_for(s2, e, k, u - 1);
        assert forall|r: int| 0 <= r < rows.len() implies 0 <= (#[trigger] rows[r]).idx < n1 && 0
            <= rows[r].idx2 < n2 by {
            if r < pre.len() {
                assert(rows[r] == pre[r]);
            } else {
                assert(crate::nearest::kept(s2, e, k, u));
                assert(rows[r].idx == e.idx && rows[r].idx2 == s2[u].idx);
            }
        }
    }
}

/// Every reported row of the forward search points at valid rows.
proof fn lemma_right_rows_bounds(es: Seq<MinEvent>, cs: Seq<MinEvent>, k: int, n1: int, n2: int)
    requires
        forall|t: int| 0 <= t < es.len() ==> 0 <= (#[trigger] es[t]).idx < n1,
        forall|t: int| 0 <= t < cs.len() ==> 0 <= (#[trigger] cs[t]).idx < n2,
    ensures
        forall|r: int|
            0 <= r < right_rows(es, cs, k).len() ==> 0 <= (#[trigger] right_rows(es, cs, k)[r]).idx
                < n1 && 0 <= right_rows(es, cs, k)[r].idx2 < n2,
    decreases es.len(),
{
    if es.len() > 0 {
        lemma_right_rows_bounds(es.drop_last(), cs, k, n1, n2);
        lemma_rows_for_bounds(cs, es.last(), k, cs.len() - 1, n1, n2);
        let rows = right_rows(es, cs, k);
        let pre = right_rows(es.drop_last(), cs, k);
        let blk = crate::nearest::rows_for(cs, es.last(), k, cs.len() - 1);
        assert forall|t2: int| 0 <= t2 < es.drop_last().len() implies 0 <= (#[trigger] es.drop_last(
        )[t2]).idx < n1 by {
            assert(es.drop_last()[t2] == es[t2]);
        }
        assert(0 <= es.last().idx < n1);
        assert forall|r: int| 0 <= r < rows.len() implies 0 <= (#[trigger] rows[r]).idx < n1 && 0
            <= rows[r].idx2 < n2 by {
            if r < pre.len() {
                assert(rows[r] == pre[r]);
            } else {
                assert(rows[r] == blk[r - pre.len()]);
            }
        }
    }
}


/// The distance between two spans, as the distance helper computes it.
pub open spec fn span_dist(s1: int, e1: int, s2: int, e2: int) -> int {
    if s1 <= e2 && s2 <= e1 {
        0
    } else if s2 > e1 {
        s2 - e1
    } else {
        s1 - e2
    }
}

/// Every collector entry's distance is at most `d`.
pub open spec fn all_within(h: Seq<HeapItem>, d: int) -> bool {
    forall|j: int| 0 <= j < h.len() ==> -((#[trigger] h[j]).neg_dist as int) <= d
}

/// The collector and its ghost source column agree entry by entry: each
/// entry reports the id of its source row, at exactly the span distance
/// between the query `q` and that row, and no source row appears twice.
pub open spec fn heap_src_ok(
    h: Seq<HeapItem>,
    srcs: Seq<int>,
    chrs2: Seq<i64>,
    starts2: Seq<i64>,
    ends2: Seq<i64>,
    idxs2: Seq<i64>,
    q: Interval,
) -> bool {
    &&& srcs.len() == h.len()
    &&& forall|j: int|
        0 <= j < h.len() ==> 0 <= (#[trigger] srcs[j]) < chrs2.len() && chrs2[srcs[j]] == q.group
            && h[j].idx2 == idxs2[srcs[j]] && -(h[j].neg_dist as int) == span_dist(
            q.start as int,
            q.end as int,
            starts2[srcs[j]] as int,
            ends2[srcs[j]] as int,
        ) && -4 * pos_bound() <= h[j].neg_dist <= 0
    &&& forall|j1: int, j2: int|
        0 <= j1 < j2 < srcs.len() ==> (#[trigger] srcs[j1]) != (#[trigger] srcs[j2])
}

/// A candidate row at distance `d` is accounted for by the collector: it
/// is one of the sources, or the collector is full of entries at least
/// as close.
pub open spec fn scan_block_hit(
    h: Seq<HeapItem>,
    srcs: Seq<int>,
    brow: int,
    d: int,
    k: int,
) -> bool {
    (exists|j: int| 0 <= j < srcs.len() && (#[trigger] srcs[j]) == brow) || (h.len() == k
        && all_within(h, d))
}

/// The source `s` is the row index of some scanned entry.
pub open spec fn src_scanned(sv2: Seq<Interval>, gb: int, w: int, s: int) -> bool {
    exists|u: int| gb <= u < w && (#[trigger] sv2[u]).idx as int == s
}

/// Some output row at query position `t2` reports source row `b`.
pub open spec fn mh_matched(qa: Seq<int>, ba: Seq<int>, t2: int, b: int) -> bool {
    exists|r: int| 0 <= r < qa.len() && (#[trigger] qa[r]) == t2 && ba[r] == b
}

/// Query position `t2` fills a whole block of `k` rows whose closing
/// (largest) distance is at most `d`.
pub open spec fn mh_shutout(qa: Seq<int>, od: Seq<i64>, k: int, t2: int, d: int) -> bool {
    exists|r: int|
        0 <= r < qa.len() && (#[trigger] qa[r]) == t2 && (r == qa.len() - 1 || qa[r + 1] != t2)
            && od[r] as int <= d && r - (k - 1) >= 0 && qa[r - (k - 1)] == t2
}

/// What the bounded-collector sweep returns, relative to some sorted
/// arrangement `sv1` of the widened first collection, an assignment `qa`
/// of each output row to its query's sorted position, and an assignment
/// `ba` of each output row to its second-collection source row: rows
/// come in consecutive per-query blocks of at most `k`, ascending in
/// distance within a block; every row reports a distinct same-group
/// source row at their exact span distance; and every same-group
/// candidate of a query is either reported or shut out by a full block
/// whose distances do not exceed its own, so each block holds `k`
/// smallest same-group distances.
pub open spec fn merged_heap_out(
    chrs: Seq<i64>,
    starts: Seq<i64>,
    ends: Seq<i64>,
    idxs: Seq<i64>,
    chrs2: Seq<i64>,
    starts2: Seq<i64>,
    ends2: Seq<i64>,
    idxs2: Seq<i64>,
    slack: int,
    k: int,
    o1: Seq<i64>,
    o2: Seq<i64>,
    od: Seq<i64>,
) -> bool {
    exists|sv1: Seq<Interval>, qa: Seq<int>, ba: Seq<int>|
        #![trigger intervals_sorted_gs(sv1), qa.len(), ba.len()]
        {
            &&& intervals_sorted_gs(sv1)
            &&& sv1.to_multiset() == built_intervals(chrs, starts, ends, slack).to_multiset()
            &&& qa.len() == o1.len()
            &&& ba.len() == o1.len()
            &&& forall|r: int| 0 <= r < qa.len() ==> 0 <= #[trigger] qa[r] < sv1.len()
            &&& forall|r: int| 0 <= r < qa.len() - 1 ==> #[trigger] qa[r] <= qa[r + 1]
            &&& forall|r: int|
                0 <= r < qa.len() ==> (#[trigger] o1[r]) == idxs[sv1[qa[r]].idx as int]
            &&& forall|r: int|
                0 <= r < qa.len() ==> 0 <= (#[trigger] ba[r]) < chrs2.len() && chrs2[ba[r]]
                    == sv1[qa[r]].group && o2[r] == idxs2[ba[r]] && od[r] as int == span_dist(
                    sv1[qa[r]].start as int,
                    sv1[qa[r]].end as int,
                    starts2[ba[r]] as int,
                    ends2[ba[r]] as int,
                )
            &&& forall|r1: int, r2: int|
                0 <= r1 < r2 < qa.len() && qa[r1] == qa[r2] ==> (#[trigger] ba[r1]) != (
                #[trigger] ba[r2])
            &&& forall|r1: int, r2: int|
                0 <= r1 <= r2 < qa.len() && (#[trigger] qa[r1]) == (#[trigger] qa[r2]) ==> r2 - r1
                    < k && od[r1] <= od[r2]
            &&& forall|t2: int, b: int|
                #![trigger sv1[t2], chrs2[b]]
                0 <= t2 < sv1.len() && 0 <= b < chrs2.len() && chrs2[b] == sv1[t2].group && k >= 1
                    ==> mh_matched(qa, ba, t2, b) || mh_shutout(
                    qa,
                    od,
                    k,
                    t2,
                    span_dist(
                        sv1[t2].start as int,
                        sv1[t2].end as int,
                        starts2[b] as int,
                        ends2[b] as int,
                    ),
                )
        }
}

/// An accounted-for candidate stays so when the collector grows by one
/// entry below its capacity.
proof fn lemma_hit_insert(
    pre_h: Seq<HeapItem>,
    post_h: Seq<HeapItem>,
    pre_s: Seq<int>,
    post_s: Seq<int>,
    pos: int,
    item: HeapItem,
    b0: int,
    brow: int,
    d: int,
    k: int,
)
    requires
        pre_h.len() < k,
        pre_s.len() == pre_h.len(),
        0 <= pos <= pre_h.len(),
        post_h == pre_h.insert(pos, item),
        post_s == pre_s.insert(pos, b0),
        scan_block_hit(pre_h, pre_s, brow, d, k),
    ensures
        scan_block_hit(post_h, post_s, brow, d, k),
{
    let j = choose|j: int| 0 <= j < pre_s.len() && (#[trigger] pre_s[j]) == brow;
    if j < pos {
        assert(post_s[j] == brow);
    } else {
        assert(post_s[j + 1] == brow);
    }
}

/// An accounted-for candidate stays so when the collector replaces its
/// worst entry with a strictly closer one.
proof fn lemma_hit_replace(
    pre_h: Seq<HeapItem>,
    post_h: Seq<HeapItem>,
    pre_s: Seq<int>,
    post_s: Seq<int>,
    pos: int,
    item: HeapItem,
    b0: int,
    brow: int,
    d: int,
    k: int,
)
    requires
        heap_sorted(pre_h),
        pre_h.len() == k,
        k > 0,
        pre_s.len() == k,
        0 <= pos <= k - 1,
        post_h == pre_h.drop_last().insert(pos, item),
        post_s == pre_s.drop_last().insert(pos, b0),
        item.neg_dist > pre_h.last().neg_dist,
        pre_s[k - 1] == brow ==> -(pre_h[k - 1].neg_dist as int) == d,
        scan_block_hit(pre_h, pre_s, brow, d, k),
    ensures
        scan_block_hit(post_h, post_s, brow, d, k),
        post_h.len() == k,
{
    let worst = pre_h.last();
    assert forall|j: int| 0 <= j < post_h.len() implies (#[trigger] post_h[j]).neg_dist
        >= worst.neg_dist by {
        if j < pos {
            assert(post_h[j] == pre_h[j]);
            if j < k - 1 {
                assert(pre_h[j].neg_dist >= pre_h[k - 1].neg_dist);
            }
        } else if j == pos {
        } else {
            assert(post_h[j] == pre_h[j - 1]);
            if j - 1 < k - 1 {
                assert(pre_h[j - 1].neg_dist >= pre_h[k - 1].neg_dist);
            }
        }
    }
    if exists|j: int| 0 <= j < pre_s.len() && (#[trigger] pre_s[j]) == brow {
        let j = choose|j: int| 0 <= j < pre_s.len() && (#[trigger] pre_s[j]) == brow;
        if j < k - 1 {
            if j < pos {
                assert(post_s[j] == brow);
            } else {
                assert(post_s[j + 1] == brow);
            }
        } else {
            assert(-(worst.neg_dist as int) == d);
            assert(all_within(post_h, d));
        }
    } else {
        assert(pre_h.len() == k && all_within(pre_h, d));
        assert(-((pre_h[k - 1]).neg_dist as int) <= d);
        assert(all_within(post_h, d));
    }
}

/// A reported-source witness survives appending rows.
proof fn lemma_mh_matched_extend(
    qa1: Seq<int>,
    ba1: Seq<int>,
    qa2: Seq<int>,
    ba2: Seq<int>,
    t2: int,
    b: int,
)
    requires
        mh_matched(qa1, ba1, t2, b),
        qa1.len() <= qa2.len(),
        forall|r: int|
            0 <= r < qa1.len() ==> (#[trigger] qa2[r]) == qa1[r] && ba2[r] == ba1[r],
    ensures
        mh_matched(qa2, ba2, t2, b),
{
    let r = choose|r: int| 0 <= r < qa1.len() && (#[trigger] qa1[r]) == t2 && ba1[r] == b;
    assert(qa2[r] == t2 && ba2[r] == b);
}

/// A full-block witness survives appending rows for another query
/// position.
proof fn lemma_mh_shutout_extend(
    qa1: Seq<int>,
    od1: Seq<i64>,
    qa2: Seq<int>,
    od2: Seq<i64>,
    k: int,
    t2: int,
    d: int,
    tnew: int,
)
    requires
        k >= 1,
        mh_shutout(qa1, od1, k, t2, d),
        qa1.len() <= qa2.len(),
        forall|r: int|
            0 <= r < qa1.len() ==> (#[trigger] qa2[r]) == qa1[r] && od2[r] == od1[r],
        forall|r: int| qa1.len() <= r < qa2.len() ==> (#[trigger] qa2[r]) == tnew,
        t2 != tnew,
    ensures
        mh_shutout(qa2, od2, k, t2, d),
{
    let r = choose|r: int|
        0 <= r < qa1.len() && (#[trigger] qa1[r]) == t2 && (r == qa1.len() - 1 || qa1[r + 1] != t2)
            && od1[r] as int <= d && r - (k - 1) >= 0 && qa1[r - (k - 1)] == t2;
    assert(qa2[r] == t2);
    if r < qa1.len() - 1 {
        assert(qa2[r + 1] == qa1[r + 1]);
    } else if r + 1 < qa2.len() {
        assert(qa2[r + 1] == tnew);
    }
    assert(qa2[r - (k - 1)] == qa1[r - (k - 1)]);
    assert(mh_shutout(qa2, od2, k, t2, d));
}

/// One growing step of the scan: the collector takes the current row at
/// position `pos`, and every accounting fact carries over.
proof fn lemma_scan_grow(
    sv2: Seq<Interval>,
    gb: int,
    w: int,
    pre_h: Seq<HeapItem>,
    post_h: Seq<HeapItem>,
    pre_s: Seq<int>,
    pos: int,
    item: HeapItem,
    b0: int,
    chrs2: Seq<i64>,
    starts2: Seq<i64>,
    ends2: Seq<i64>,
    idxs2: Seq<i64>,
    iv1: Interval,
    k: int,
) -> (post_s: Seq<int>)
    requires
        pre_h.len() < k,
        0 <= pos <= pre_h.len(),
        post_h == pre_h.insert(pos, item),
        heap_src_ok(pre_h, pre_s, chrs2, starts2, ends2, idxs2, iv1),
        forall|j: int| 0 <= j < pre_s.len() ==> src_scanned(sv2, gb, w, #[trigger] pre_s[j]),
        forall|j: int| 0 <= j < pre_s.len() ==> (#[trigger] pre_s[j]) != b0,
        gb <= w < sv2.len(),
        sv2[w].idx as int == b0,
        0 <= b0 < chrs2.len(),
        chrs2[b0] == iv1.group,
        item.idx2 == idxs2[b0],
        -(item.neg_dist as int) == span_dist(
            iv1.start as int,
            iv1.end as int,
            starts2[b0] as int,
            ends2[b0] as int,
        ),
        -4 * pos_bound() <= item.neg_dist <= 0,
        forall|u: int|
            gb <= u < w ==> scan_block_hit(
                pre_h,
                pre_s,
                (#[trigger] sv2[u]).idx as int,
                span_dist(
                    iv1.start as int,
                    iv1.end as int,
                    starts2[sv2[u].idx as int] as int,
                    ends2[sv2[u].idx as int] as int,
                ),
                k,
            ),
    ensures
        post_s == pre_s.insert(pos, b0),
        heap_src_ok(post_h, post_s, chrs2, starts2, ends2, idxs2, iv1),
        forall|j: int| 0 <= j < post_s.len() ==> src_scanned(sv2, gb, w + 1, #[trigger] post_s[j]),
        forall|u: int|
            gb <= u < w + 1 ==> scan_block_hit(
                post_h,
                post_s,
                (#[trigger] sv2[u]).idx as int,
                span_dist(
                    iv1.start as int,
                    iv1.end as int,
                    starts2[sv2[u].idx as int] as int,
                    ends2[sv2[u].idx as int] as int,
                ),
                k,
            ),
{
    let post_s = pre_s.insert(pos, b0);
    assert forall|j: int| 0 <= j < post_h.len() implies 0 <= (#[trigger] post_s[j]) < chrs2.len()
        && chrs2[post_s[j]] == iv1.group && post_h[j].idx2 == idxs2[post_s[j]] && -(
    post_h[j].neg_dist as int) == span_dist(
        iv1.start as int,
        iv1.end as int,
        starts2[post_s[j]] as int,
        ends2[post_s[j]] as int,
    ) && -4 * pos_bound() <= post_h[j].neg_dist <= 0 by {
        if j < pos {
            assert(post_h[j] == pre_h[j] && post_s[j] == pre_s[j]);
        } else if j == pos {
            assert(post_h[j] == item && post_s[j] == b0);
        } else {
            assert(post_h[j] == pre_h[j - 1] && post_s[j] == pre_s[j - 1]);
        }
    }
    assert forall|j1: int, j2: int| 0 <= j1 < j2 < post_s.len() implies (#[trigger] post_s[j1])
        != (#[trigger] post_s[j2]) by {
        let v1: int = if j1 < pos {
            pre_s[j1]
        } else if j1 == pos {
            b0
        } else {
            pre_s[j1 - 1]
        };
        let v2: int = if j2 < pos {
            pre_s[j2]
        } else if j2 == pos {
            b0
        } else {
            pre_s[j2 - 1]
        };
        assert(post_s[j1] == v1 && post_s[j2] == v2);
    }
    assert forall|j: int| 0 <= j < post_s.len() implies src_scanned(
        sv2,
        gb,
        w + 1,
        #[trigger] post_s[j],
    ) by {
        if j == pos {
            assert(sv2[w].idx as int == b0);
        } else {
            let jp: int = if j < pos {
                j
            } else {
                j - 1
            };
            assert(post_s[j] == pre_s[jp]);
            assert(src_scanned(sv2, gb, w, pre_s[jp]));
            let u = choose|u: int| gb <= u < w && (#[trigger] sv2[u]).idx as int == pre_s[jp];
            assert(gb <= u < w + 1);
        }
    }
    assert forall|u: int| gb <= u < w + 1 implies scan_block_hit(
        post_h,
        post_s,
        (#[trigger] sv2[u]).idx as int,
        span_dist(
            iv1.start as int,
            iv1.end as int,
            starts2[sv2[u].idx as int] as int,
            ends2[sv2[u].idx as int] as int,
        ),
        k,
    ) by {
        if u < w {
            lemma_hit_insert(
                pre_h,
                post_h,
                pre_s,
                post_s,
                pos,
                item,
                b0,
                sv2[u].idx as int,
                span_dist(
                    iv1.start as int,
                    iv1.end as int,
                    starts2[sv2[u].idx as int] as int,
                    ends2[sv2[u].idx as int] as int,
                ),
                k,
            );
        } else {
            assert(post_s[pos] == b0);
        }
    }
    post_s
}

/// One replacing step of the scan: the collector swaps its worst entry
/// for the closer current row, and every accounting fact carries over.
proof fn lemma_scan_replace(
    sv2: Seq<Interval>,
    gb: int,
    w: int,
    pre_h: Seq<HeapItem>,
    post_h: Seq<HeapItem>,
    pre_s: Seq<int>,
    pos: int,
    item: HeapItem,
    b0: int,
    chrs2: Seq<i64>,
    starts2: Seq<i64>,
    ends2: Seq<i64>,
    idxs2: Seq<i64>,
    iv1: Interval,
    k: int,
) -> (post_s: Seq<int>)
    requires
        heap_sorted(pre_h),
        pre_h.len() == k,
        k > 0,
        0 <= pos <= k - 1,
        post_h == pre_h.drop_last().insert(pos, item),
        item.neg_dist > pre_h.last().neg_dist,
        heap_src_ok(pre_h, pre_s, chrs2, starts2, ends2, idxs2, iv1),
        forall|j: int| 0 <= j < pre_s.len() ==> src_scanned(sv2, gb, w, #[trigger] pre_s[j]),
        forall|j: int| 0 <= j < pre_s.len() ==> (#[trigger] pre_s[j]) != b0,
        gb <= w < sv2.len(),
        sv2[w].idx as int == b0,
        0 <= b0 < chrs2.len(),
        chrs2[b0] == iv1.group,
        item.idx2 == idxs2[b0],
        -(item.neg_dist as int) == span_dist(
            iv1.start as int,
            iv1.end as int,
            starts2[b0] as int,
            ends2[b0] as int,
        ),
        -4 * pos_bound() <= item.neg_dist <= 0,
        forall|u: int|
            gb <= u < w ==> scan_block_hit(
                pre_h,
                pre_s,
                (#[trigger] sv2[u]).idx as int,
                span_dist(
                    iv1.start as int,
                    iv1.end as int,
                    starts2[sv2[u].idx as int] as int,
                    ends2[sv2[u].idx as int] as int,
                ),
                k,
            ),
    ensures
        post_s == pre_s.drop_last().insert(pos, b0),
        post_h.len() == k,
        heap_src_ok(post_h, post_s, chrs2, starts2, ends2, idxs2, iv1),
        forall|j: int| 0 <= j < post_s.len() ==> src_scanned(sv2, gb, w + 1, #[trigger] post_s[j]),
        forall|u: int|
            gb <= u < w + 1 ==> scan_block_hit(
                post_h,
                post_s,
                (#[trigger] sv2[u]).idx as int,
                span_dist(
                    iv1.start as int,
                    iv1.end as int,
                    starts2[sv2[u].idx as int] as int,
                    ends2[sv2[u].idx as int] as int,
                ),
                k,
            ),
{
    let post_s = pre_s.drop_last().insert(pos, b0);
    assert(post_h.len() == k);
    assert forall|j: int| 0 <= j < post_h.len() implies 0 <= (#[trigger] post_s[j]) < chrs2.len()
        && chrs2[post_s[j]] == iv1.group && post_h[j].idx2 == idxs2[post_s[j]] && -(
    post_h[j].neg_dist as int) == span_dist(
        iv1.start as int,
        iv1.end as int,
        starts2[post_s[j]] as int,
        ends2[post_s[j]] as int,
    ) && -4 * pos_bound() <= post_h[j].neg_dist <= 0 by {
        if j < pos {
            assert(post_h[j] == pre_h[j] && post_s[j] == pre_s[j]);
        } else if j == pos {
            assert(post_h[j] == item && post_s[j] == b0);
        } else {
            assert(post_h[j] == pre_h[j - 1] && post_s[j] == pre_s[j - 1]);
        }
    }
    assert forall|j1: int, j2: int| 0 <= j1 < j2 < post_s.len() implies (#[trigger] post_s[j1])
        != (#[trigger] post_s[j2]) by {
        let v1: int = if j1 < pos {
            pre_s[j1]
        } else if j1 == pos {
            b0
        } else {
            pre_s[j1 - 1]
        };
        let v2: int = if j2 < pos {
            pre_s[j2]
        } else if j2 == pos {
            b0
        } else {
            pre_s[j2 - 1]
        };
        assert(post_s[j1] == v1 && post_s[j2] == v2);
    }
    assert forall|j: int| 0 <= j < post_s.len() implies src_scanned(
        sv2,
        gb,
        w + 1,
        #[trigger] post_s[j],
    ) by {
        if j == pos {
            assert(sv2[w].idx as int == b0);
        } else {
            let jp: int = if j < pos {
                j
            } else {
                j - 1
            };
            assert(post_s[j] == pre_s[jp]);
            assert(src_scanned(sv2, gb, w, pre_s[jp]));
            let u = choose|u: int| gb <= u < w && (#[trigger] sv2[u]).idx as int == pre_s[jp];
            assert(gb <= u < w + 1);
        }
    }
    assert forall|u: int| gb <= u < w + 1 implies scan_block_hit(
        post_h,
        post_s,
        (#[trigger] sv2[u]).idx as int,
        span_dist(
            iv1.start as int,
            iv1.end as int,
            starts2[sv2[u].idx as int] as int,
            ends2[sv2[u].idx as int] as int,
        ),
        k,
    ) by {
        if u < w {
            let du = span_dist(
                iv1.start as int,
                iv1.end as int,
                starts2[sv2[u].idx as int] as int,
                ends2[sv2[u].idx as int] as int,
            );
            assert(pre_s[k - 1] == sv2[u].idx as int ==> -(pre_h[k - 1].neg_dist as int) == du);
            lemma_hit_replace(
                pre_h,
                post_h,
                pre_s,
                post_s,
                pos,
                item,
                b0,
                sv2[u].idx as int,
                du,
                k,
            );
        } else {
            assert(post_s[pos] == b0);
        }
    }
    post_s
}

/// Scans the run of sorted second-collection intervals of `iv1`'s group
/// that begins at `gb`, collecting up to `k` smallest span distances
/// together with the ghost column of their source rows.  Returns the
/// collector, the run's length, and the sources; every scanned candidate
/// is accounted for by the collector.
fn scan_group_block(
    set2: &Vec<Interval>,
    gb: usize,
    iv1: Interval,
    idxs2: &[i64],
    k: usize,
    Ghost(chrs2): Ghost<Seq<i64>>,
    Ghost(starts2): Ghost<Seq<i64>>,
    Ghost(ends2): Ghost<Seq<i64>>,
) -> (res: (Vec<HeapItem>, Ghost<int>, Ghost<Seq<int>>))
    requires
        intervals_sorted_gs(set2@),
        chrs2.len() == set2@.len(),
        coords_ok(chrs2, starts2, ends2),
        idxs2@.len() == chrs2.len(),
        set2@.len() < rows_bound(),
        forall|t2: int|
            0 <= t2 < set2@.len() ==> 0 <= (#[trigger] set2@[t2]).idx < set2@.len() && set2@[t2]
                == built_intervals(chrs2, starts2, ends2, 0)[set2@[t2].idx as int],
        forall|t1: int, t2: int|
            0 <= t1 < t2 < set2@.len() ==> (#[trigger] set2@[t1]).idx != (#[trigger] set2@[t2]).idx,
        gb <= set2@.len(),
        -pos_bound() <= iv1.start <= iv1.end <= 2 * pos_bound(),
        k < 0x4000_0000,
    ensures
        0 <= res.1@,
        gb + res.1@ <= set2@.len(),
        forall|u: int| gb <= u < gb + res.1@ ==> (#[trigger] set2@[u]).group == iv1.group,
        gb + res.1@ < set2@.len() ==> set2@[gb + res.1@].group != iv1.group,
        heap_sorted(res.0@),
        res.0@.len() <= k,
        heap_src_ok(res.0@, res.2@, chrs2, starts2, ends2, idxs2@, iv1),
        forall|u: int|
            gb <= u < gb + res.1@ ==> scan_block_hit(
                res.0@,
                res.2@,
                (#[trigger] set2@[u]).idx as int,
                span_dist(
                    iv1.start as int,
                    iv1.end as int,
                    starts2[set2@[u].idx as int] as int,
                    ends2[set2@[u].idx as int] as int,
                ),
                k as int,
            ),
{
    let n2 = set2.len();
    let mut heap: Vec<HeapItem> = Vec::new();
    let mut zcount: usize = 0;
    let ghost mut srcs: Seq<int> = Seq::empty();
    let mut w: usize = gb;
    while w < n2 && set2[w].group == iv1.group
        invariant
            n2 == set2@.len(),
            chrs2.len() == n2,
            coords_ok(chrs2, starts2, ends2),
            idxs2@.len() == n2,
            n2 < rows_bound(),
            intervals_sorted_gs(set2@),
            forall|t2: int|
                0 <= t2 < n2 ==> 0 <= (#[trigger] set2@[t2]).idx < n2 && set2@[t2]
                    == built_intervals(chrs2, starts2, ends2, 0)[set2@[t2].idx as int],
            forall|t1: int, t2: int|
                0 <= t1 < t2 < n2 ==> (#[trigger] set2@[t1]).idx != (#[trigger] set2@[t2]).idx,
            -pos_bound() <= iv1.start <= iv1.end <= 2 * pos_bound(),
            k < 0x4000_0000,
            gb <= w <= n2,
            forall|u: int| gb <= u < w ==> (#[trigger] set2@[u]).group == iv1.group,
            heap_sorted(heap@),
            heap@.len() <= k,
            zcount <= w - gb,
            heap_src_ok(heap@, srcs, chrs2, starts2, ends2, idxs2@, iv1),
            forall|j: int|
                0 <= j < srcs.len() ==> src_scanned(set2@, gb as int, w as int, #[trigger] srcs[j]),
            forall|u: int|
                gb <= u < w ==> scan_block_hit(
                    heap@,
                    srcs,
                    (#[trigger] set2@[u]).idx as int,
                    span_dist(
                        iv1.start as int,
                        iv1.end as int,
                        starts2[set2@[u].idx as int] as int,
                        ends2[set2@[u].idx as int] as int,
                    ),
                    k as int,
                ),
        decreases n2 - w,
    {
        let iv2 = set2[w];
        let ghost b0 = iv2.idx as int;
        proof {
            assert(set2@[w as int] == built_intervals(chrs2, starts2, ends2, 0)[b0]);
            assert(0 <= starts2[b0] && starts2[b0] <= ends2[b0] && ends2[b0] <= pos_bound());
            assert(iv2.start as int == widen_start(starts2[b0] as int, 0));
            assert(iv2.start as int == starts2[b0] as int);
            assert(iv2.end as int == ends2[b0] as int);
            assert(iv2.group == chrs2[b0]);
            // the current row was not scanned before
            assert forall|j: int| 0 <= j < srcs.len() implies (#[trigger] srcs[j]) != b0 by {
                assert(src_scanned(set2@, gb as int, w as int, srcs[j]));
                let u = choose|u: int|
                    gb as int <= u < w as int && (#[trigger] set2@[u]).idx as int == srcs[j];
                assert(set2@[u].idx != set2@[w as int].idx);
            }
        }
        let d = interval_distance(iv1.start, iv1.end, iv2.start, iv2.end);
        proof {
            assert(d as int == span_dist(
                iv1.start as int,
                iv1.end as int,
                iv2.start as int,
                iv2.end as int,
            ));
            assert(0 <= d <= 4 * pos_bound());
        }
        let i2v = idxs2[iv2.idx as usize];
        let ghost pre_h = heap@;
        let ghost pre_s = srcs;
        let ghost item = HeapItem { neg_dist: (-d) as i64, idx2: i2v };
        push_distance(&mut heap, d, i2v, k, &mut zcount);
        proof {
            if pre_h.len() < k {
                let pos = choose|pos: int|
                    0 <= pos <= pre_h.len() && heap@ == pre_h.insert(pos, item);
                srcs = lemma_scan_grow(
                    set2@,
                    gb as int,
                    w as int,
                    pre_h,
                    heap@,
                    pre_s,
                    pos,
                    item,
                    b0,
                    chrs2,
                    starts2,
                    ends2,
                    idxs2@,
                    iv1,
                    k as int,
                );
            } else if k > 0 && item.neg_dist > pre_h.last().neg_dist {
                let pos = choose|pos: int|
                    0 <= pos <= pre_h.len() - 1 && heap@ == pre_h.drop_last().insert(pos, item);
                srcs = lemma_scan_replace(
                    set2@,
                    gb as int,
                    w as int,
                    pre_h,
                    heap@,
                    pre_s,
                    pos,
                    item,
                    b0,
                    chrs2,
                    starts2,
                    ends2,
                    idxs2@,
                    iv1,
                    k as int,
                );
            } else {
                assert(pre_h.len() == k);
                assert(heap@ == pre_h);
                assert forall|u: int| gb <= u < w + 1 implies scan_block_hit(
                    heap@,
                    srcs,
                    (#[trigger] set2@[u]).idx as int,
                    span_dist(
                        iv1.start as int,
                        iv1.end as int,
                        starts2[set2@[u].idx as int] as int,
                        ends2[set2@[u].idx as int] as int,
                    ),
                    k as int,
                ) by {
                    if u == w as int {
                        if k == 0 {
                            assert(heap@.len() == k as int && all_within(heap@, d as int));
                        } else {
                            assert(item.neg_dist <= pre_h.last().neg_dist);
                            assert forall|j: int| 0 <= j < heap@.len() implies -((
                            #[trigger] heap@[j]).neg_dist as int) <= d as int by {
                                if j < heap@.len() - 1 {
                                    assert(heap@[j].neg_dist >= heap@[heap@.len() - 1].neg_dist);
                                }
                            }
                            assert(all_within(heap@, d as int));
                        }
                    }
                }
                assert forall|j: int| 0 <= j < srcs.len() implies src_scanned(
                    set2@,
                    gb as int,
                    w as int + 1,
                    #[trigger] srcs[j],
                ) by {
                    assert(src_scanned(set2@, gb as int, w as int, srcs[j]));
                    let u = choose|u: int|
                        gb as int <= u < w as int && (#[trigger] set2@[u]).idx as int == srcs[j];
                    assert(gb as int <= u < w as int + 1);
                }
            }
        }
        w += 1;
    }
    (heap, Ghost(w as int - gb as int), Ghost(srcs))
}

/// The bounded-collector sweep: walks both collections in sorted order
/// and keeps, for every first-collection interval, up to `k` of the
/// smallest span distances to the second-collection intervals of its
/// group, emitted in ascending distance order per interval.
pub fn sweep_line_overlaps_merged_heap(
    chrs: &[i64],
    starts: &[i64],
    ends: &[i64],
    idxs: &[i64],
    chrs2: &[i64],
    starts2: &[i64],
    ends2: &[i64],
    idxs2: &[i64],
    slack: i64,
    k: usize,
) -> (res: (Vec<i64>, Vec<i64>, Vec<i64>))
    requires
        coords_ok(chrs@, starts@, ends@),
        coords_ok(chrs2@, starts2@, ends2@),
        idxs@.len() == chrs@.len(),
        idxs2@.len() == chrs2@.len(),
        slack_ok(slack),
        chrs@.len() < rows_bound(),
        chrs2@.len() < rows_bound(),
        k < 0x4000_0000,
    ensures
        res.1@.len() == res.0@.len(),
        res.2@.len() == res.0@.len(),
        forall|r: int| 0 <= r < res.0@.len() ==> (#[trigger] res.2@[r]) >= 0,
        merged_heap_out(
            chrs@,
            starts@,
            ends@,
            idxs@,
            chrs2@,
            starts2@,
            ends2@,
            idxs2@,
            slack as int,
            k as int,
            res.0@,
            res.1@,
            res.2@,
        ),
{
    let set1 = build_sorted_intervals(chrs, starts, ends, slack, false);
    let set2 = build_sorted_intervals(chrs2, starts2, ends2, 0, false);
    proof {
        lemma_intervals_recovery(set1@, chrs@, starts@, ends@, slack as int);
        lemma_intervals_recovery(set2@, chrs2@, starts2@, ends2@, 0);
    }
    let ghost sv1 = set1@;
    let ghost sv2 = set2@;
    let n1 = set1.len();
    let n2 = set2.len();
    let mut o1: Vec<i64> = Vec::new();
    let mut o2: Vec<i64> = Vec::new();
    let mut od: Vec<i64> = Vec::new();
    let ghost mut qa: Seq<int> = Seq::empty();
    let ghost mut ba: Seq<int> = Seq::empty();
    let mut gb: usize = 0;
    let mut t: usize = 0;
    while t < n1
        invariant
            coords_ok(chrs@, starts@, ends@),
            coords_ok(chrs2@, starts2@, ends2@),
            idxs@.len() == chrs@.len(),
            idxs2@.len() == chrs2@.len(),
            slack_ok(slack),
            chrs@.len() < rows_bound(),
            chrs2@.len() < rows_bound(),
            k < 0x4000_0000,
            sv1 == set1@,
            sv2 == set2@,
            n1 == sv1.len(),
            n2 == sv2.len(),
            n1 == chrs@.len(),
            n2 == chrs2@.len(),
            intervals_sorted_gs(sv1),
            intervals_sorted_gs(sv2),
            forall|t2: int|
                0 <= t2 < n1 ==> 0 <= (#[trigger] sv1[t2]).idx < n1 && sv1[t2] == built_intervals(
                    chrs@,
                    starts@,
                    ends@,
                    slack as int,
                )[sv1[t2].idx as int],
            forall|t2: int|
                0 <= t2 < n2 ==> 0 <= (#[trigger] sv2[t2]).idx < n2 && sv2[t2] == built_intervals(
                    chrs2@,
                    starts2@,
                    ends2@,
                    0,
                )[sv2[t2].idx as int],
            forall|t1: int, t2: int|
                0 <= t1 < t2 < n2 ==> (#[trigger] sv2[t1]).idx != (#[trigger] sv2[t2]).idx,
            forall|b: i64| 0 <= b < n2 ==> #[trigger] has_row(sv2, b),
            t <= n1,
            gb <= n2,
            t > 0 ==> (forall|u: int|
                0 <= u < gb as int ==> (#[trigger] sv2[u]).group < sv1[t as int - 1].group),
            t == 0 ==> gb == 0,
            o2@.len() == o1@.len(),
            od@.len() == o1@.len(),
            qa.len() == o1@.len(),
            ba.len() == o1@.len(),
            forall|r: int| 0 <= r < qa.len() ==> 0 <= (#[trigger] qa[r]) < t as int,
            forall|r: int| 0 <= r < qa.len() - 1 ==> (#[trigger] qa[r]) <= qa[r + 1],
            forall|r: int|
                0 <= r < qa.len() ==> (#[trigger] o1@[r]) == idxs@[sv1[qa[r]].idx as int],
            forall|r: int|
                0 <= r < qa.len() ==> 0 <= (#[trigger] ba[r]) < n2 && chrs2@[ba[r]]
                    == sv1[qa[r]].group && o2@[r] == idxs2@[ba[r]] && od@[r] as int == span_dist(
                    sv1[qa[r]].start as int,
                    sv1[qa[r]].end as int,
                    starts2@[ba[r]] as int,
                    ends2@[ba[r]] as int,
                ),
            forall|r1: int, r2: int|
                0 <= r1 < r2 < qa.len() && qa[r1] == qa[r2] ==> (#[trigger] ba[r1]) != (
                #[trigger] ba[r2]),
            forall|r: int| 0 <= r < qa.len() ==> (#[trigger] od@[r]) >= 0,
            forall|r1: int, r2: int|
                0 <= r1 <= r2 < qa.len() && (#[trigger] qa[r1]) == (#[trigger] qa[r2]) ==> r2 - r1
                    < k as int && od@[r1] <= od@[r2],
            forall|t2: int, b: int|
                #![trigger sv1[t2], chrs2@[b]]
                0 <= t2 < t as int && 0 <= b < n2 && chrs2@[b] == sv1[t2].group && k >= 1
                    ==> mh_matched(qa, ba, t2, b) || mh_shutout(
                    qa,
                    od@,
                    k as int,
                    t2,
                    span_dist(
                        sv1[t2].start as int,
                        sv1[t2].end as int,
                        starts2@[b] as int,
                        ends2@[b] as int,
                    ),
                ),
        decreases n1 - t,
    {
        let iv1 = set1[t];
        proof {
            assert(sv1[t as int] == built_intervals(chrs@, starts@, ends@, slack as int)[iv1.idx
                as int]);
            assert(0 <= starts@[iv1.idx as int]);
            assert(starts@[iv1.idx as int] <= ends@[iv1.idx as int]);
            assert(ends@[iv1.idx as int] <= pos_bound());
            assert(iv1.start as int == widen_start(starts@[iv1.idx as int] as int, slack as int));
            assert(iv1.end as int == ends@[iv1.idx as int] + slack);
            assert(-pos_bound() <= iv1.start <= iv1.end <= 2 * pos_bound());
            if t > 0 {
                assert(interval_le_gs(sv1[t as int - 1], sv1[t as int]));
            }
        }
        while gb < n2 && set2[gb].group < iv1.group
            invariant
                sv2 == set2@,
                n2 == sv2.len(),
                gb <= n2,
                iv1 == sv1[t as int],
                forall|u: int| 0 <= u < gb as int ==> (#[trigger] sv2[u]).group < iv1.group,
            decreases n2 - gb,
        {
            gb += 1;
        }
        let row1 = idxs[iv1.idx as usize];
        let block = scan_group_block(
            &set2,
            gb,
            iv1,
            idxs2,
            k,
            Ghost(chrs2@),
            Ghost(starts2@),
            Ghost(ends2@),
        );
        let ghost w_end: int = gb as int + block.1@;
        let ghost srcs: Seq<int> = block.2@;
        let heap = block.0;
        let m = heap.len();
        let ghost qa_pre = qa;
        let ghost ba_pre = ba;
        let ghost o1_pre = o1@;
        let ghost o2_pre = o2@;
        let ghost od_pre = od@;
        proof {
            assert(forall|r: int|
                0 <= r < qa_pre.len() ==> 0 <= (#[trigger] ba_pre[r]) < n2 && chrs2@[ba_pre[r]]
                    == sv1[qa_pre[r]].group && o2_pre[r] == idxs2@[ba_pre[r]] && od_pre[r]
                    as int == span_dist(
                    sv1[qa_pre[r]].start as int,
                    sv1[qa_pre[r]].end as int,
                    starts2@[ba_pre[r]] as int,
                    ends2@[ba_pre[r]] as int,
                ));
            assert(forall|t2: int, b: int|
                #![trigger sv1[t2], chrs2@[b]]
                0 <= t2 < t as int && 0 <= b < n2 && chrs2@[b] == sv1[t2].group && k >= 1
                    ==> mh_matched(qa_pre, ba_pre, t2, b) || mh_shutout(
                    qa_pre,
                    od_pre,
                    k as int,
                    t2,
                    span_dist(
                        sv1[t2].start as int,
                        sv1[t2].end as int,
                        starts2@[b] as int,
                        ends2@[b] as int,
                    ),
                ));
        }
        let mut h: usize = 0;
        while h < m
            invariant
                m == heap@.len(),
                h <= m,
                n1 == sv1.len(),
                t < n1,
                iv1 == sv1[t as int],
                row1 == idxs@[iv1.idx as int],
                0 <= iv1.idx < idxs@.len(),
                n2 == chrs2@.len(),
                idxs2@.len() == n2,
                starts2@.len() == n2,
                ends2@.len() == n2,
                heap_sorted(heap@),
                heap_src_ok(heap@, srcs, chrs2@, starts2@, ends2@, idxs2@, iv1),
                o1@.len() == o1_pre.len() + h as int,
                o2@.len() == o1@.len(),
                od@.len() == o1@.len(),
                qa.len() == o1@.len(),
                ba.len() == o1@.len(),
                forall|r: int| 0 <= r < o1_pre.len() ==> (#[trigger] o1@[r]) == o1_pre[r],
                forall|r: int| 0 <= r < o1_pre.len() ==> (#[trigger] o2@[r]) == o2_pre[r],
                forall|r: int| 0 <= r < o1_pre.len() ==> (#[trigger] od@[r]) == od_pre[r],
                forall|r: int| 0 <= r < o1_pre.len() ==> (#[trigger] qa[r]) == qa_pre[r],
                forall|r: int| 0 <= r < o1_pre.len() ==> (#[trigger] ba[r]) == ba_pre[r],
                forall|r: int|
                    o1_pre.len() <= r < o1@.len() ==> (#[trigger] qa[r]) == t as int && ba[r]
                        == srcs[r - o1_pre.len()] && o1@[r] == row1 && o2@[r] == heap@[r
                        - o1_pre.len()].idx2 && od@[r] as int == -(heap@[r
                        - o1_pre.len()].neg_dist as int),
            decreases m - h,
        {
            let item = heap[h];
            proof {
                assert(0 <= srcs[h as int] < chrs2@.len());
                assert(-4 * pos_bound() <= heap@[h as int].neg_dist <= 0);
            }
            o1.push(row1);
            o2.push(item.idx2);
            od.push(-item.neg_dist);
            proof {
                qa = qa.push(t as int);
                ba = ba.push(srcs[h as int]);
                assert forall|r: int|
                    o1_pre.len() <= r < o1@.len() implies (#[trigger] qa[r]) == t as int && ba[r]
                        == srcs[r - o1_pre.len()] && o1@[r] == row1 && o2@[r] == heap@[r
                        - o1_pre.len()].idx2 && od@[r] as int == -(heap@[r
                        - o1_pre.len()].neg_dist as int) by {
                    if r == o1@.len() - 1 {
                        assert(r - o1_pre.len() == h as int);
                        assert(heap@[h as int] == item);
                    }
                }
            }
            h += 1;
        }
        proof {
            let tt = t as int;
            let p = o1_pre.len() as int;
            assert forall|r: int| p <= r < qa.len() implies (#[trigger] od@[r]) >= 0 && 0 <= ba[r]
                < n2 && chrs2@[ba[r]] == sv1[qa[r]].group && o2@[r] == idxs2@[ba[r]] && od@[r]
                as int == span_dist(
                sv1[qa[r]].start as int,
                sv1[qa[r]].end as int,
                starts2@[ba[r]] as int,
                ends2@[ba[r]] as int,
            ) && o1@[r] == idxs@[sv1[qa[r]].idx as int] by {
                let j = r - p;
                assert(qa[r] == t as int);
                assert(ba[r] == srcs[r - o1_pre.len()]);
                assert(r - o1_pre.len() == j);
                assert(ba[r] == srcs[j]);
                assert(sv1[qa[r]] == iv1);
                assert(0 <= srcs[j] < n2 && chrs2@[srcs[j]] == iv1.group);
            }
            assert forall|r1: int, r2: int|
                0 <= r1 < r2 < qa.len() && qa[r1] == qa[r2] implies (#[trigger] ba[r1]) != (
            #[trigger] ba[r2]) by {
                if r2 < p {
                    assert(qa[r1] == qa_pre[r1] && qa[r2] == qa_pre[r2]);
                    assert(ba[r1] == ba_pre[r1] && ba[r2] == ba_pre[r2]);
                } else if r1 >= p {
                    assert(ba[r1] == srcs[r1 - p] && ba[r2] == srcs[r2 - p]);
                    assert(srcs[r1 - p] != srcs[r2 - p]);
                } else {
                    assert(qa[r1] == qa_pre[r1] && qa_pre[r1] < tt);
                    assert(qa[r2] == tt);
                    assert(false);
                }
            }
            assert forall|r1: int, r2: int|
                0 <= r1 <= r2 < qa.len() && (#[trigger] qa[r1]) == (#[trigger] qa[r2]) implies r2
                - r1 < k as int && od@[r1] <= od@[r2] by {
                if r2 < p {
                    assert(qa[r1] == qa_pre[r1] && qa[r2] == qa_pre[r2]);
                    assert(od@[r1] == od_pre[r1] && od@[r2] == od_pre[r2]);
                } else if r1 >= p {
                    assert(qa[r1] == tt && qa[r2] == tt);
                    assert(r2 - p < m as int && m <= k);
                    if r1 < r2 {
                        assert(heap@[r1 - p].neg_dist >= heap@[r2 - p].neg_dist);
                    }
                } else {
                    assert(qa[r1] == qa_pre[r1] && qa_pre[r1] < tt);
                    assert(qa[r2] == tt);
                    assert(false);
                }
            }
            assert forall|t2: int, b: int|
                #![trigger sv1[t2], chrs2@[b]]
                0 <= t2 < tt + 1 && 0 <= b < n2 && chrs2@[b] == sv1[t2].group && k >= 1 implies
                mh_matched(qa, ba, t2, b) || mh_shutout(
                qa,
                od@,
                k as int,
                t2,
                span_dist(
                    sv1[t2].start as int,
                    sv1[t2].end as int,
                    starts2@[b] as int,
                    ends2@[b] as int,
                ),
            ) by {
                let d = span_dist(
                    sv1[t2].start as int,
                    sv1[t2].end as int,
                    starts2@[b] as int,
                    ends2@[b] as int,
                );
                if t2 < tt {
                    if mh_matched(qa_pre, ba_pre, t2, b) {
                        lemma_mh_matched_extend(qa_pre, ba_pre, qa, ba, t2, b);
                    } else {
                        lemma_mh_shutout_extend(qa_pre, od_pre, qa, od@, k as int, t2, d, tt);
                    }
                } else {
                    assert(has_row(sv2, b as i64));
                    let u = choose|u: int| 0 <= u < sv2.len() && (#[trigger] sv2[u]).idx == b as i64;
                    assert(sv2[u] == built_intervals(chrs2@, starts2@, ends2@, 0)[b]);
                    assert(sv2[u].group == chrs2@[b]);
                    assert(0 <= starts2@[b] && starts2@[b] <= ends2@[b]);
                    assert(sv2[u].start as int == widen_start(starts2@[b] as int, 0));
                    assert(sv2[u].start as int == starts2@[b] as int);
                    assert(sv2[u].end as int == ends2@[b] as int);
                    assert(sv2[u].idx as int == b);
                    assert(sv1[t2] == iv1);
                    if u < gb as int {
                        assert(sv2[u].group < iv1.group);
                        assert(false);
                    }
                    if u >= w_end {
                        assert(w_end < n2 as int);
                        assert(sv2[w_end].group != iv1.group);
                        if w_end == gb as int {
                            assert(gb < n2);
                            assert(sv2[gb as int].group >= iv1.group);
                        } else {
                            assert(sv2[w_end - 1].group == iv1.group);
                            assert(interval_le_gs(sv2[w_end - 1], sv2[w_end]));
                        }
                        assert(sv2[w_end].group > iv1.group);
                        if u > w_end {
                            assert(interval_le_gs(sv2[w_end], sv2[u]));
                        }
                        assert(sv2[u].group > iv1.group);
                        assert(false);
                    }
                    assert(scan_block_hit(heap@, srcs, b, d, k as int));
                    if exists|j: int| 0 <= j < srcs.len() && (#[trigger] srcs[j]) == b {
                        let j = choose|j: int| 0 <= j < srcs.len() && (#[trigger] srcs[j]) == b;
                        let r = p + j;
                        assert(p <= r < qa.len());
                        assert(qa[r] == tt);
                        assert(ba[r] == srcs[r - o1_pre.len()]);
                        assert(r - o1_pre.len() == j);
                        assert(ba[r] == b);
                        assert(mh_matched(qa, ba, tt, b));
                    } else {
                        assert(heap@.len() == k && all_within(heap@, d));
                        let r = qa.len() - 1;
                        assert(r == p + (m as int - 1));
                        assert(qa[r] == tt);
                        assert(od@[r] as int == -(heap@[m as int - 1].neg_dist as int));
                        assert(-(heap@[m as int - 1].neg_dist as int) <= d);
                        assert(r - (k as int - 1) == p);
                        assert(qa[p] == tt);
                        assert(mh_shutout(qa, od@, k as int, tt, d));
                    }
                }
            }
            assert forall|r: int| 0 <= r < qa.len() implies 0 <= (#[trigger] ba[r]) < n2
                && chrs2@[ba[r]] == sv1[qa[r]].group && o2@[r] == idxs2@[ba[r]] && od@[r]
                as int == span_dist(
                sv1[qa[r]].start as int,
                sv1[qa[r]].end as int,
                starts2@[ba[r]] as int,
                ends2@[ba[r]] as int,
            ) by {
                if r < p {
                    assert(qa[r] == qa_pre[r] && ba[r] == ba_pre[r]);
                    assert(o2@[r] == o2_pre[r] && od@[r] == od_pre[r]);
                    assert(0 <= ba_pre[r] < n2 && chrs2@[ba_pre[r]] == sv1[qa_pre[r]].group
                        && o2_pre[r] == idxs2@[ba_pre[r]] && od_pre[r] as int == span_dist(
                        sv1[qa_pre[r]].start as int,
                        sv1[qa_pre[r]].end as int,
                        starts2@[ba_pre[r]] as int,
                        ends2@[ba_pre[r]] as int,
                    ));
                } else {
                    assert(qa[r] == tt);
                }
            }
        }
        t += 1;
    }
    proof {
        assert(intervals_sorted_gs(sv1));
        assert(qa.len() == o1@.len());
        assert(ba.len() == o1@.len());
        assert(sv1.to_multiset() == built_intervals(
            chrs@,
            starts@,
            ends@,
            slack as int,
        ).to_multiset());
        assert(merged_heap_out(
            chrs@,
            starts@,
            ends@,
            idxs@,
            chrs2@,
            starts2@,
            ends2@,
            idxs2@,
            slack as int,
            k as int,
            o1@,
            o2@,
            od@,
        ));
    }
    (o1, o2, od)
}

} // verus!



