//! The two-pointer overlap enumerator: both collections sorted by
//! `(group, start)`, one forward pointer into the second collection that
//! never moves back, and a bounded forward scan per first-collection
//! interval.  It reports exactly the pairs the event sweep reports.

use vstd::prelude::*;
use crate::events::{coords_ok, pair_joins, rows_bound, slack_ok, widen_start};
use crate::overlaps::pair_in;
use crate::sorts::{build_sorted_intervals, built_intervals, has_row, interval_le_gs,
    intervals_sorted_gs, lemma_intervals_recovery};

verus! {

/// Output row `k` pairs the current interval with a scanned partner.
pub open spec fn scanned_partner(
    sv2: Seq<crate::ruranges_structs::Interval>,
    o2: Seq<i64>,
    j: int,
    w: int,
    k: int,
) -> bool {
    exists|u: int| j <= u < w && (#[trigger] sv2[u]).idx == o2[k]
}

/// Output row `k` belongs to the interval under scan.
pub open spec fn row_of_scan(
    sv2: Seq<crate::ruranges_structs::Interval>,
    o1: Seq<i64>,
    o2: Seq<i64>,
    a: i64,
    j: int,
    w: int,
    k: int,
) -> bool {
    o1[k] == a && scanned_partner(sv2, o2, j, w, k)
}

/// Enumerates every joining pair between the slack-widened first
/// collection and the second, as `(first idx, second idx)` columns.
pub fn two_pointer_overlaps(
    chrs: &[i64],
    starts: &[i64],
    ends: &[i64],
    chrs2: &[i64],
    starts2: &[i64],
    ends2: &[i64],
    slack: i64,
) -> (res: (Vec<i64>, Vec<i64>))
    requires
        coords_ok(chrs@, starts@, ends@),
        coords_ok(chrs2@, starts2@, ends2@),
        slack_ok(slack),
        chrs@.len() < rows_bound(),
        chrs2@.len() < rows_bound(),
    ensures
        res.0@.len() == res.1@.len(),
        forall|a: i64, b: i64|
            #[trigger] pair_in(res.0@, res.1@, a, b) <==> pair_joins(
                chrs@,
                starts@,
                ends@,
                slack as int,
                chrs2@,
                starts2@,
                ends2@,
                a as int,
                b as int,
            ) && a >= 0 && b >= 0,
        forall|k1: int, k2: int|
            0 <= k1 < k2 < res.0@.len() ==> !((#[trigger] res.0@[k1]) == (#[trigger] res.0@[k2])
                && res.1@[k1] == res.1@[k2]),
{
    let set1 = build_sorted_intervals(chrs, starts, ends, slack, false);
    let set2 = build_sorted_intervals(chrs2, starts2, ends2, 0, false);
    proof {
        lemma_intervals_recovery(set1@, chrs@, starts@, ends@, slack as int);
        lemma_intervals_recovery(set2@, chrs2@, starts2@, ends2@, 0);
    }
    let ghost sv1 = set1@;
    let ghost sv2 = set2@;
    let n1 = set1.len();
    let n2 = set2.len();
    let mut o1: Vec<i64> = Vec::new();
    let mut o2: Vec<i64> = Vec::new();
    let mut j: usize = 0;
    let mut t: usize = 0;
    while t < n1
        invariant
            coords_ok(chrs@, starts@, ends@),
            coords_ok(chrs2@, starts2@, ends2@),
            slack_ok(slack),
            sv1 == set1@,
            sv2 == set2@,
            n1 == sv1.len(),
            n2 == sv2.len(),
            n1 == chrs@.len(),
            n2 == chrs2@.len(),
            intervals_sorted_gs(sv1),
            intervals_sorted_gs(sv2),
            forall|t2: int|
                0 <= t2 < n1 ==> 0 <= (#[trigger] sv1[t2]).idx < n1 && sv1[t2] == built_intervals(
                    chrs@,
                    starts@,
                    ends@,
                    slack as int,
                )[sv1[t2].idx as int],
            forall|t2: int|
                0 <= t2 < n2 ==> 0 <= (#[trigger] sv2[t2]).idx < n2 && sv2[t2] == built_intervals(
                    chrs2@,
                    starts2@,
                    ends2@,
                    0,
                )[sv2[t2].idx as int],
            forall|t1: int, t2: int|
                0 <= t1 < t2 < n1 ==> (#[trigger] sv1[t1]).idx != (#[trigger] sv1[t2]).idx,
            forall|t1: int, t2: int|
                0 <= t1 < t2 < n2 ==> (#[trigger] sv2[t1]).idx != (#[trigger] sv2[t2]).idx,
            forall|a: i64| 0 <= a < n1 ==> #[trigger] has_row(sv1, a),
            forall|a: i64| 0 <= a < n2 ==> #[trigger] has_row(sv2, a),
            t <= n1,
            j <= n2,
            // skipped second-collection rows join nothing that remains
            forall|u: int, t2: int|
                0 <= u < j as int && t as int <= t2 < n1 ==> ((#[trigger] sv2[u]).group < (
                #[trigger] sv1[t2]).group || (sv2[u].group == sv1[t2].group && sv2[u].end
                    < sv1[t2].start)),
            o1@.len() == o2@.len(),
            // decided rows: pairs of processed first-collection rows
            forall|a: i64, b: i64|
                #[trigger] pair_in(o1@, o2@, a, b) ==> pair_joins(
                    chrs@,
                    starts@,
                    ends@,
                    slack as int,
                    chrs2@,
                    starts2@,
                    ends2@,
                    a as int,
                    b as int,
                ) && a >= 0 && b >= 0,
            forall|t2: int, b: i64|
                0 <= t2 < t as int && 0 <= b < n2 && #[trigger] pair_joins(
                    chrs@,
                    starts@,
                    ends@,
                    slack as int,
                    chrs2@,
                    starts2@,
                    ends2@,
                    sv1[t2].idx as int,
                    b as int,
                ) ==> pair_in(o1@, o2@, sv1[t2].idx, b),
            // no recorded row names a first-collection row still to come
            forall|k: int, t2: int|
                0 <= k < o1@.len() && t as int <= t2 < n1 ==> (#[trigger] o1@[k]) != (
                #[trigger] sv1[t2]).idx,
            forall|k1: int, k2: int|
                0 <= k1 < k2 < o1@.len() ==> !((#[trigger] o1@[k1]) == (#[trigger] o1@[k2])
                    && o2@[k1] == o2@[k2]),
        decreases n1 - t,
    {
        let iv1 = set1[t];
        let ghost a = iv1.idx;
        proof {
            assert(sv1[t as int] == built_intervals(chrs@, starts@, ends@, slack as int)[a as int]);
            assert(0 <= starts@[a as int]);
            assert(starts@[a as int] <= ends@[a as int]);
            assert(ends@[a as int] <= crate::events::pos_bound());
            assert(iv1.start as int == widen_start(starts@[a as int] as int, slack as int));
            assert(iv1.end as int == ends@[a as int] + slack);
            assert(iv1.group == chrs@[a as int]);
        }
        while j < n2 && (set2[j].group < iv1.group || (set2[j].group == iv1.group && set2[j].end
            < iv1.start))
            invariant
                sv1 == set1@,
                sv2 == set2@,
                n1 == sv1.len(),
                n2 == sv2.len(),
                j <= n2,
                t < n1,
                iv1 == sv1[t as int],
                intervals_sorted_gs(sv1),
                forall|u: int, t2: int|
                    0 <= u < j as int && t as int <= t2 < n1 ==> ((#[trigger] sv2[u]).group < (
                    #[trigger] sv1[t2]).group || (sv2[u].group == sv1[t2].group && sv2[u].end
                        < sv1[t2].start)),
            decreases n2 - j,
        {
            proof {
                let u = j as int;
                assert forall|t2: int| t as int <= t2 < n1 implies ((#[trigger] sv1[t2]).group
                    > sv2[u].group || (sv1[t2].group == sv2[u].group && sv2[u].end
                        < sv1[t2].start)) by {
                    if t2 > t as int {
                        assert(interval_le_gs(sv1[t as int], sv1[t2]));
                    }
                }
            }
            j += 1;
        }
        let ghost o1_pre = o1@;
        let ghost o2_pre = o2@;
        proof {
            assert forall|k: int| 0 <= k < o1@.len() implies (#[trigger] o1@[k]) != a by {
                assert(o1@[k] != sv1[t as int].idx);
            }
        }
        let mut w: usize = j;
        while w < n2 && set2[w].group == iv1.group && set2[w].start <= iv1.end
            invariant
                coords_ok(chrs2@, starts2@, ends2@),
                sv1 == set1@,
                sv2 == set2@,
                n1 == sv1.len(),
                n2 == sv2.len(),
                n2 == chrs2@.len(),
                j <= w <= n2,
                t < n1,
                iv1 == sv1[t as int],
                a == iv1.idx,
                0 <= a < n1,
                n1 == chrs@.len(),
                slack_ok(slack),
                iv1.start as int == widen_start(starts@[a as int] as int, slack as int),
                iv1.end as int == ends@[a as int] + slack,
                iv1.group == chrs@[a as int],
                intervals_sorted_gs(sv2),
                forall|t2: int|
                    0 <= t2 < n2 ==> 0 <= (#[trigger] sv2[t2]).idx < n2 && sv2[t2]
                        == built_intervals(chrs2@, starts2@, ends2@, 0)[sv2[t2].idx as int],
                forall|t1: int, t2: int|
                    0 <= t1 < t2 < n2 ==> (#[trigger] sv2[t1]).idx != (#[trigger] sv2[t2]).idx,
                forall|u: int|
                    0 <= u < j as int ==> ((#[trigger] sv2[u]).group < iv1.group || (sv2[u].group
                        == iv1.group && sv2[u].end < iv1.start)),
                o1@.len() == o2@.len(),
                o1_pre.len() <= o1@.len(),
                forall|k: int| 0 <= k < o1_pre.len() ==> (#[trigger] o1@[k]) == o1_pre[k],
                forall|k: int| 0 <= k < o1_pre.len() ==> (#[trigger] o2@[k]) == o2_pre[k],
                forall|k: int| 0 <= k < o1_pre.len() ==> (#[trigger] o1@[k]) != a,
                forall|k1: int, k2: int|
                    0 <= k1 < k2 < o1@.len() ==> !((#[trigger] o1@[k1]) == (#[trigger] o1@[k2])
                        && o2@[k1] == o2@[k2]),
                // the new rows pair this row with scanned partners
                forall|k: int|
                    o1_pre.len() <= k < o1@.len() ==> #[trigger] row_of_scan(
                        sv2,
                        o1@,
                        o2@,
                        a,
                        j as int,
                        w as int,
                        k,
                    ),
                forall|k: int|
                    o1_pre.len() <= k < o1@.len() ==> pair_joins(
                        chrs@,
                        starts@,
                        ends@,
                        slack as int,
                        chrs2@,
                        starts2@,
                        ends2@,
                        a as int,
                        (#[trigger] o2@[k]) as int,
                    ),
                // every scanned joining partner is recorded
                forall|u: int|
                    j as int <= u < w as int && pair_joins(
                        chrs@,
                        starts@,
                        ends@,
                        slack as int,
                        chrs2@,
                        starts2@,
                        ends2@,
                        a as int,
                        (#[trigger] sv2[u]).idx as int,
                    ) ==> pair_in(o1@, o2@, a, sv2[u].idx),
            decreases n2 - w,
        {
            let iv2 = set2[w];
            let ghost b = iv2.idx;
            proof {
                assert(sv2[w as int] == built_intervals(chrs2@, starts2@, ends2@, 0)[b as int]);
                assert(widen_start(starts2@[b as int] as int, 0) == starts2@[b as int]);
                assert(0 <= starts2@[b as int]);
                assert(starts2@[b as int] <= ends2@[b as int]);
                assert((ends2@[b as int] + 0) as i64 == ends2@[b as int]);
                assert(iv2.start == starts2@[b as int] && iv2.end == ends2@[b as int]);
            }
            let ghost o1_mid = o1@;
            let ghost o2_mid = o2@;
            if iv1.end >= iv2.start && iv2.end >= iv1.start {
                proof {
                    assert(pair_joins(
                        chrs@,
                        starts@,
                        ends@,
                        slack as int,
                        chrs2@,
                        starts2@,
                        ends2@,
                        a as int,
                        b as int,
                    ));
                }
                o1.push(iv1.idx);
                o2.push(iv2.idx);
            } else {
                proof {
                    assert(!pair_joins(
                        chrs@,
                        starts@,
                        ends@,
                        slack as int,
                        chrs2@,
                        starts2@,
                        ends2@,
                        a as int,
                        b as int,
                    ));
                }
            }
            proof {
                assert forall|u: int|
                    j as int <= u < w as int + 1 && pair_joins(
                        chrs@,
                        starts@,
                        ends@,
                        slack as int,
                        chrs2@,
                        starts2@,
                        ends2@,
                        a as int,
                        (#[trigger] sv2[u]).idx as int,
                    ) implies pair_in(o1@, o2@, a, sv2[u].idx) by {
                    if u < w as int {
                        assert(pair_in(o1_mid, o2_mid, a, sv2[u].idx));
                        let k = choose|k: int|
                            0 <= k < o1_mid.len() && (#[trigger] o1_mid[k]) == a && (
                            #[trigger] o2_mid[k]) == sv2[u].idx;
                        assert(o1@[k] == a && o2@[k] == sv2[u].idx);
                    } else {
                        assert(sv2[u].idx == b);
                        assert(o1@[o1@.len() - 1] == a && o2@[o2@.len() - 1] == b);
                    }
                }
                assert forall|k: int| o1_pre.len() <= k < o1@.len() implies #[trigger] row_of_scan(
                    sv2,
                    o1@,
                    o2@,
                    a,
                    j as int,
                    w as int + 1,
                    k,
                ) by {
                    if k < o1_mid.len() {
                        assert(row_of_scan(sv2, o1_mid, o2_mid, a, j as int, w as int, k));
                        assert(o1@[k] == o1_mid[k] && o2@[k] == o2_mid[k]);
                        let u = choose|u: int|
                            j as int <= u < w as int && (#[trigger] sv2[u]).idx == o2_mid[k];
                        assert(j as int <= u < w as int + 1 && sv2[u].idx == o2@[k]);
                        assert(scanned_partner(sv2, o2@, j as int, w as int + 1, k));
                    } else {
                        assert(o1@[k] == a && o2@[k] == b);
                        assert(sv2[w as int].idx == o2@[k]);
                        assert(scanned_partner(sv2, o2@, j as int, w as int + 1, k));
                    }
                }
                assert forall|k1: int, k2: int|
                    0 <= k1 < k2 < o1@.len() implies !((#[trigger] o1@[k1]) == (
                #[trigger] o1@[k2]) && o2@[k1] == o2@[k2]) by {
                    if k2 < o1_mid.len() {
                        assert(o1@[k1] == o1_mid[k1] && o1@[k2] == o1_mid[k2]);
                        assert(o2@[k1] == o2_mid[k1] && o2@[k2] == o2_mid[k2]);
                    } else {
                        assert(o1@[k2] == a && o2@[k2] == b);
                        if k1 < o1_pre.len() {
                            assert(o1@[k1] != a);
                        } else {
                            assert(row_of_scan(sv2, o1_mid, o2_mid, a, j as int, w as int, k1));
                            assert(scanned_partner(sv2, o2_mid, j as int, w as int, k1));
                            let u = choose|u: int|
                                j as int <= u < w as int && (#[trigger] sv2[u]).idx == o2_mid[k1];
                            assert(sv2[u].idx != sv2[w as int].idx);
                            assert(o2@[k1] == o2_mid[k1] && o2@[k1] != b);
                        }
                    }
                }
            }
            w += 1;
        }
        proof {
            assert forall|x: i64, y: i64| #[trigger] pair_in(o1@, o2@, x, y) implies pair_joins(
                chrs@,
                starts@,
                ends@,
                slack as int,
                chrs2@,
                starts2@,
                ends2@,
                x as int,
                y as int,
            ) && x >= 0 && y >= 0 by {
                let k = choose|k: int|
                    0 <= k < o1@.len() && (#[trigger] o1@[k]) == x && (#[trigger] o2@[k]) == y;
                if k < o1_pre.len() {
                    assert(o1@[k] == o1_pre[k] && o2@[k] == o2_pre[k]);
                    assert(pair_in(o1_pre, o2_pre, x, y));
                } else {
                    assert(row_of_scan(sv2, o1@, o2@, a, j as int, w as int, k));
                    assert(x == a);
                    assert(scanned_partner(sv2, o2@, j as int, w as int, k));
                    let u = choose|u: int|
                        j as int <= u < w as int && (#[trigger] sv2[u]).idx == o2@[k];
                    assert(0 <= sv2[u].idx);
                }
            }
            // partners beyond the scan or before the pointer join nothing
            assert forall|t2: int, b: i64|
                0 <= t2 < t as int + 1 && 0 <= b < n2 && #[trigger] pair_joins(
                    chrs@,
                    starts@,
                    ends@,
                    slack as int,
                    chrs2@,
                    starts2@,
                    ends2@,
                    sv1[t2].idx as int,
                    b as int,
                ) implies pair_in(o1@, o2@, sv1[t2].idx, b) by {
                if t2 < t as int {
                    assert(pair_in(o1_pre, o2_pre, sv1[t2].idx, b));
                    let k = choose|k: int|
                        0 <= k < o1_pre.len() && (#[trigger] o1_pre[k]) == sv1[t2].idx && (
                        #[trigger] o2_pre[k]) == b;
                    assert(o1@[k] == sv1[t2].idx && o2@[k] == b);
                } else {
                    assert(has_row(sv2, b));
                    let u = choose|u: int| 0 <= u < sv2.len() && (#[trigger] sv2[u]).idx == b;
                    assert(sv2[u] == built_intervals(chrs2@, starts2@, ends2@, 0)[b as int]);
                    assert(widen_start(starts2@[b as int] as int, 0) == starts2@[b as int]);
                    if u < j as int {
                        assert(false);
                    } else if u >= w as int {
                        if (w as int) < n2 {
                            if u > w as int {
                                assert(interval_le_gs(sv2[w as int], sv2[u]));
                            }
                            assert(sv2[u].group != iv1.group || sv2[u].start > iv1.end);
                        }
                        assert(false);
                    } else {
                        assert(pair_in(o1@, o2@, sv1[t2].idx, b));
                    }
                }
            }
            assert forall|k: int, t2: int|
                0 <= k < o1@.len() && t as int + 1 <= t2 < n1 implies (#[trigger] o1@[k]) != (
            #[trigger] sv1[t2]).idx by {
                if k < o1_pre.len() {
                    assert(o1@[k] == o1_pre[k]);
                    assert(o1_pre[k] != sv1[t2].idx);
                } else {
                    assert(row_of_scan(sv2, o1@, o2@, a, j as int, w as int, k));
                    assert(o1@[k] == a);
                    assert(sv1[t2].idx != sv1[t as int].idx);
                }
            }
        }
        t += 1;
    }
    proof {
        assert forall|a2: i64, b: i64|
            pair_joins(
                chrs@,
                starts@,
                ends@,
                slack as int,
                chrs2@,
                starts2@,
                ends2@,
                a2 as int,
                b as int,
            ) && a2 >= 0 && b >= 0 implies #[trigger] pair_in(o1@, o2@, a2, b) by {
            assert(has_row(sv1, a2));
            let t2 = choose|t2: int| 0 <= t2 < sv1.len() && (#[trigger] sv1[t2]).idx == a2;
            assert(pair_joins(
                chrs@,
                starts@,
                ends@,
                slack as int,
                chrs2@,
                starts2@,
                ends2@,
                sv1[t2].idx as int,
                b as int,
            ));
        }
    }
    (o1, o2)
}

} // verus!
