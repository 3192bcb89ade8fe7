//! Subtracting one collection from another: for every interval of the
//! first collection, the parts of its span that no interval of the second
//! collection covers, emitted in ascending coordinate order per row.

use vstd::prelude::*;
use crate::events::{coords_ok, rows_bound, widen_start};
use crate::merge::{covered, merge_runs_grouped, run_covers, runs_wf};
use crate::sorts::{build_sorted_intervals, built_intervals, has_row, interval_le_gs,
    intervals_sorted_gs, lemma_intervals_recovery};

verus! {

/// Position `p` lies in some emitted fragment of row `a`.
pub open spec fn frag_covers(
    oidx: Seq<i64>,
    ostart: Seq<i64>,
    oend: Seq<i64>,
    a: i64,
    p: int,
) -> bool {
    exists|k: int|
        0 <= k < oidx.len() && (#[trigger] oidx[k]) == a && ostart[k] <= p < oend[k]
}

/// Row `a` of the first collection keeps position `p`: its span holds `p`
/// and no second-collection row covers it.
pub open spec fn row_keep(
    chrs: Seq<i64>,
    starts: Seq<i64>,
    ends: Seq<i64>,
    chrs2: Seq<i64>,
    starts2: Seq<i64>,
    ends2: Seq<i64>,
    a: i64,
    p: int,
) -> bool {
    &&& 0 <= a < chrs.len()
    &&& starts[a as int] <= p < ends[a as int]
    &&& !covered(chrs2, starts2, ends2, 0, chrs[a as int], p)
}

/// The whole subtract contract: a position belongs to a fragment of row
/// `a` exactly when the row keeps it; fragments are nonempty and, per
/// row, strictly separated in ascending order, so each is maximal.
pub open spec fn subtract_out_spec(
    chrs: Seq<i64>,
    starts: Seq<i64>,
    ends: Seq<i64>,
    chrs2: Seq<i64>,
    starts2: Seq<i64>,
    ends2: Seq<i64>,
    oidx: Seq<i64>,
    ostart: Seq<i64>,
    oend: Seq<i64>,
) -> bool {
    &&& ostart.len() == oidx.len()
    &&& oend.len() == oidx.len()
    &&& forall|k: int|
        0 <= k < oidx.len() ==> 0 <= (#[trigger] oidx[k]) < chrs.len() && ostart[k] < oend[k]
    &&& forall|a: i64, p: int|
        #[trigger] frag_covers(oidx, ostart, oend, a, p) <==> row_keep(
            chrs,
            starts,
            ends,
            chrs2,
            starts2,
            ends2,
            a,
            p,
        )
    &&& forall|k1: int, k2: int|
        0 <= k1 < k2 < oidx.len() && oidx[k1] == oidx[k2] ==> (#[trigger] oend[k1]) < (
        #[trigger] ostart[k2])
}

/// For every row of the first collection, emits the ascending fragments
/// of its span not covered by the second collection.  Returns the
/// parallel columns `(idx, start, end)`.
pub fn sweep_line_subtract(
    chrs: &[i64],
    starts: &[i64],
    ends: &[i64],
    chrs2: &[i64],
    starts2: &[i64],
    ends2: &[i64],
) -> (res: (Vec<i64>, Vec<i64>, Vec<i64>))
    requires
        coords_ok(chrs@, starts@, ends@),
        coords_ok(chrs2@, starts2@, ends2@),
        chrs@.len() < rows_bound(),
        chrs2@.len() < rows_bound(),
    ensures
        subtract_out_spec(
            chrs@,
            starts@,
            ends@,
            chrs2@,
            starts2@,
            ends2@,
            res.0@,
            res.1@,
            res.2@,
        ),
{
    let (og, os, oe, _oc, oi) = merge_runs_grouped(chrs2, starts2, ends2, 0);
    let ghost ogv = og@;
    let ghost osv = os@;
    let ghost oev = oe@;
    let sorted = build_sorted_intervals(chrs, starts, ends, 0, false);
    proof {
        lemma_intervals_recovery(sorted@, chrs@, starts@, ends@, 0);
    }
    let ghost sv = sorted@;
    let n = sorted.len();
    let m = og.len();
    let mut oidx: Vec<i64> = Vec::new();
    let mut ostart: Vec<i64> = Vec::new();
    let mut oend: Vec<i64> = Vec::new();
    let mut rb: usize = 0;
    let mut t: usize = 0;
    while t < n
        invariant
            coords_ok(chrs@, starts@, ends@),
            coords_ok(chrs2@, starts2@, ends2@),
            chrs@.len() < rows_bound(),
            sv == sorted@,
            n == sv.len(),
            n == chrs@.len(),
            m == ogv.len(),
            osv.len() == m,
            oev.len() == m,
            ogv == og@,
            osv == os@,
            oev == oe@,
            runs_wf(ogv, osv, oev),
            crate::merge::runs_cover(chrs2@, starts2@, ends2@, 0, ogv, osv, oev),
            crate::merge::runs_witnessed(chrs2@, starts2@, ends2@, 0, ogv, osv, oev, oi@),
            coords_ok(chrs2@, starts2@, ends2@),
            intervals_sorted_gs(sv),
            forall|t2: int|
                0 <= t2 < n ==> 0 <= (#[trigger] sv[t2]).idx < n && sv[t2] == built_intervals(
                    chrs@,
                    starts@,
                    ends@,
                    0,
                )[sv[t2].idx as int],
            forall|t1: int, t2: int|
                0 <= t1 < t2 < n ==> (#[trigger] sv[t1]).idx != (#[trigger] sv[t2]).idx,
            t <= n,
            rb <= m,
            forall|rr: int, t2: int|
                0 <= rr < rb as int && t as int <= t2 < n ==> ((#[trigger] ogv[rr]) < (
                #[trigger] sv[t2]).group || (ogv[rr] == sv[t2].group && oev[rr] <= sv[t2].start)),
            ostart@.len() == oidx@.len(),
            oend@.len() == oidx@.len(),
            forall|k: int|
                0 <= k < oidx@.len() ==> 0 <= (#[trigger] oidx@[k]) < n && ostart@[k] < oend@[k],
            forall|a: i64, p: int|
                #[trigger] frag_covers(oidx@, ostart@, oend@, a, p) ==> row_keep(
                    chrs@,
                    starts@,
                    ends@,
                    chrs2@,
                    starts2@,
                    ends2@,
                    a,
                    p,
                ),
            forall|t2: int, p: int|
                0 <= t2 < t as int && #[trigger] row_keep(
                    chrs@,
                    starts@,
                    ends@,
                    chrs2@,
                    starts2@,
                    ends2@,
                    (#[trigger] sv[t2]).idx,
                    p,
                ) ==> frag_covers(oidx@, ostart@, oend@, sv[t2].idx, p),
            forall|k: int|
                #![trigger oidx@[k]]
                0 <= k < oidx@.len() ==> exists|t2: int|
                    0 <= t2 < t as int && (#[trigger] sv[t2]).idx == oidx@[k],
            forall|k1: int, k2: int|
                0 <= k1 < k2 < oidx@.len() && oidx@[k1] == oidx@[k2] ==> (#[trigger] oend@[k1])
                    < (#[trigger] ostart@[k2]),
        decreases n - t,
    {
        let iv = sorted[t];
        let ghost a = iv.idx;
        proof {
            assert(sv[t as int] == built_intervals(chrs@, starts@, ends@, 0)[a as int]);
            assert(widen_start(starts@[a as int] as int, 0) == starts@[a as int]);
            assert(0 <= starts@[a as int]);
            assert(starts@[a as int] <= ends@[a as int]);
            assert(ends@[a as int] <= crate::events::pos_bound());
        }
        while rb < m && (og[rb] < iv.group || (og[rb] == iv.group && oe[rb] <= iv.start))
            invariant
                m == ogv.len(),
                osv.len() == m,
                oev.len() == m,
                ogv == og@,
                osv == os@,
                oev == oe@,
                rb <= m,
                n == sv.len(),
                t < n,
                iv == sv[t as int],
                intervals_sorted_gs(sv),
                forall|rr: int, t2: int|
                    0 <= rr < rb as int && t as int <= t2 < n ==> ((#[trigger] ogv[rr]) < (
                    #[trigger] sv[t2]).group || (ogv[rr] == sv[t2].group && oev[rr]
                        <= sv[t2].start)),
            decreases m - rb,
        {
            proof {
                let rrx = rb as int;
                assert forall|t2: int| t as int <= t2 < n implies ((#[trigger] sv[t2]).group
                    > ogv[rrx] || (sv[t2].group == ogv[rrx] && oev[rrx] <= sv[t2].start)) by {
                    if t2 > t as int {
                        assert(interval_le_gs(sv[t as int], sv[t2]));
                    }
                }
            }
            rb += 1;
        }
        let ghost oidx_pre = oidx@;
        let ghost ostart_pre = ostart@;
        let ghost oend_pre = oend@;
        let mut cur: i64 = iv.start;
        let mut rr: usize = rb;
        while rr < m && og[rr] == iv.group && os[rr] < iv.end
            invariant
                coords_ok(chrs2@, starts2@, ends2@),
                m == ogv.len(),
                osv.len() == m,
                oev.len() == m,
                ogv == og@,
                osv == os@,
                oev == oe@,
                runs_wf(ogv, osv, oev),
                crate::merge::runs_cover(chrs2@, starts2@, ends2@, 0, ogv, osv, oev),
                crate::merge::runs_witnessed(chrs2@, starts2@, ends2@, 0, ogv, osv, oev, oi@),
                oi@.len() == m,
                rb <= rr <= m,
                forall|rr2: int|
                    0 <= rr2 < rb as int ==> ((#[trigger] ogv[rr2]) < iv.group || (ogv[rr2]
                        == iv.group && oev[rr2] <= iv.start)),
                (rb as int) < m ==> ogv[rb as int] > iv.group || (ogv[rb as int] == iv.group
                    && oev[rb as int] > iv.start),
                n == chrs@.len(),
                0 <= a < n,
                a == iv.idx,
                iv.group == chrs@[a as int],
                iv.start == starts@[a as int],
                iv.end == ends@[a as int],
                iv.start <= cur,
                cur as int <= 2 * crate::events::pos_bound(),
                // prefix untouched
                oidx_pre.len() <= oidx@.len(),
                ostart_pre.len() == oidx_pre.len(),
                oend_pre.len() == oidx_pre.len(),
                ostart@.len() == oidx@.len(),
                oend@.len() == oidx@.len(),
                forall|k: int|
                    0 <= k < oidx_pre.len() ==> 0 <= (#[trigger] oidx_pre[k]) < n && ostart_pre[k]
                        < oend_pre[k],
                forall|k: int| 0 <= k < oidx_pre.len() ==> (#[trigger] oidx@[k]) == oidx_pre[k],
                forall|k: int| 0 <= k < oidx_pre.len() ==> (#[trigger] ostart@[k]) == ostart_pre[k],
                forall|k: int| 0 <= k < oidx_pre.len() ==> (#[trigger] oend@[k]) == oend_pre[k],
                // new fragments: this row only, sound, ascending, below cur
                forall|k: int|
                    oidx_pre.len() <= k < oidx@.len() ==> (#[trigger] oidx@[k]) == a && ostart@[k]
                        < oend@[k] && iv.start <= ostart@[k] && oend@[k] < cur && oend@[k]
                        <= iv.end,
                forall|k: int, p: int|
                    #![trigger ostart@[k], covered(chrs2@, starts2@, ends2@, 0, iv.group, p)]
                    oidx_pre.len() <= k < oidx@.len() && ostart@[k] <= p < oend@[k] ==> !covered(
                        chrs2@,
                        starts2@,
                        ends2@,
                        0,
                        iv.group,
                        p,
                    ),
                forall|k1: int, k2: int|
                    oidx_pre.len() <= k1 < k2 < oidx@.len() ==> (#[trigger] oend@[k1]) < (
                    #[trigger] ostart@[k2]),
                // the row is decided up to cur
                forall|p: int|
                    iv.start <= p < cur as int && !(#[trigger] covered(
                        chrs2@,
                        starts2@,
                        ends2@,
                        0,
                        iv.group,
                        p,
                    )) ==> frag_covers(oidx@, ostart@, oend@, a, p),
                // processed runs are exhausted or empty
                forall|rr2: int|
                    rb as int <= rr2 < rr as int ==> (#[trigger] oev[rr2]) <= cur || osv[rr2]
                        == oev[rr2],
                forall|rr2: int|
                    rb as int <= rr2 < rr as int ==> (#[trigger] ogv[rr2]) == iv.group,
            decreases m - rr,
        {
            let run_s = os[rr];
            let run_e = oe[rr];
            proof {
                assert(osv[rr as int] <= oev[rr as int]);
                assert(osv[rr as int] < iv.end as int);
            }
            let ghost oidx_mid = oidx@;
            let ghost ostart_mid = ostart@;
            let ghost oend_mid = oend@;
            let ghost cur_pre = cur;
            // an empty run covers nothing and cuts nothing
            if run_e > run_s && run_s > cur {
                let frag_end: i64 = if run_s < iv.end {
                    run_s
                } else {
                    iv.end
                };
                proof {
                    // the stretch up to the run's start is uncovered
                    assert forall|p: int| cur as int <= p < frag_end as int implies !(
                    #[trigger] covered(chrs2@, starts2@, ends2@, 0, iv.group, p)) by {
                        if covered(chrs2@, starts2@, ends2@, 0, iv.group, p) {
                            assert(run_covers(ogv, osv, oev, iv.group, p));
                            let rc = choose|rc: int|
                                0 <= rc < ogv.len() && (#[trigger] ogv[rc]) == iv.group && osv[rc]
                                    <= p < oev[rc];
                            if rc < rb as int {
                                assert(oev[rc] <= iv.start);
                            } else if rc < rr as int {
                                assert(oev[rc] <= cur || osv[rc] == oev[rc]);
                            } else if rc == rr as int {
                                assert(osv[rc] == run_s > p);
                            } else {
                                assert(ogv[rr as int] < ogv[rc] || (ogv[rr as int] == ogv[rc]
                                    && oev[rr as int] < osv[rc]));
                                assert(osv[rc] > oev[rr as int] >= osv[rr as int]);
                                assert(osv[rc] > p);
                            }
                            assert(false);
                        }
                    }
                }
                oidx.push(iv.idx);
                ostart.push(cur);
                oend.push(frag_end);
            }
            proof {
                // positions inside the run are covered
                assert forall|p: int|
                    (if run_s > cur {
                        run_s as int
                    } else {
                        cur as int
                    }) <= p < run_e as int implies covered(
                    chrs2@,
                    starts2@,
                    ends2@,
                    0,
                    iv.group,
                    p,
                ) by {
                    assert(run_covers(ogv, osv, oev, iv.group, p)) by {
                        assert(ogv[rr as int] == iv.group && osv[rr as int] <= p < oev[rr as int]);
                    }
                }
            }
            if run_e > run_s && run_e > cur {
                proof {
                    assert(0 <= oi@[rr as int] < chrs2@.len());
                    let w = oi@[rr as int] as int;
                    assert(ends2@[w] + 0 == oev[rr as int]);
                    assert(0 <= starts2@[w]);
                    assert(starts2@[w] <= ends2@[w]);
                    assert(ends2@[w] <= crate::events::pos_bound());
                }
                cur = run_e;
            }
            proof {
                let kp = oidx_mid.len() as int;
                assert forall|k: int|
                    oidx_pre.len() <= k < oidx@.len() implies (#[trigger] oidx@[k]) == a
                        && ostart@[k] < oend@[k] && iv.start <= ostart@[k] && oend@[k] < cur
                        && oend@[k] <= iv.end by {
                    if k < kp {
                        assert(oidx@[k] == oidx_mid[k]);
                        assert(oidx_mid[k] == a);
                        assert(oend@[k] == oend_mid[k]);
                        assert(oend_mid[k] < cur_pre);
                        assert(cur_pre <= cur);
                    } else {
                        assert(oidx@[k] == iv.idx && ostart@[k] == cur_pre);
                        assert(oend@[k] <= run_s && oend@[k] <= iv.end);
                        assert(run_s < run_e);
                        assert(run_e <= cur);
                    }
                }
                assert(forall|k: int|
                    oidx_pre.len() <= k < oidx@.len() ==> (#[trigger] oidx@[k]) == a && ostart@[k]
                        < oend@[k] && iv.start <= ostart@[k] && oend@[k] < cur && oend@[k]
                        <= iv.end);
                assert forall|k1: int, k2: int|
                    oidx_pre.len() <= k1 < k2 < oidx@.len() implies (#[trigger] oend@[k1]) < (
                #[trigger] ostart@[k2]) by {
                    if k2 < kp {
                        assert(oend@[k1] < ostart@[k2]);
                    } else {
                        assert(ostart@[k2] == cur_pre);
                        assert(oend@[k1] == oend_mid[k1]);
                        assert(oidx_mid[k1] == a);
                        assert(oend_mid[k1] < cur_pre);
                    }
                }
            }
            proof {
                assert forall|p: int|
                    iv.start <= p < cur as int && !(#[trigger] covered(
                        chrs2@,
                        starts2@,
                        ends2@,
                        0,
                        iv.group,
                        p,
                    )) implies frag_covers(oidx@, ostart@, oend@, a, p) by {
                    if p < cur_pre as int {
                        assert(frag_covers(oidx_mid, ostart_mid, oend_mid, a, p));
                        let k = choose|k: int|
                            0 <= k < oidx_mid.len() && (#[trigger] oidx_mid[k]) == a
                                && ostart_mid[k] <= p < oend_mid[k];
                        assert(oidx@[k] == a && ostart@[k] <= p < oend@[k]);
                    } else if run_s > cur_pre && p < run_s as int {
                        let k = oidx_mid.len() as int;
                        assert(oidx@[k] == a && ostart@[k] <= p < oend@[k]);
                    } else {
                        assert(covered(chrs2@, starts2@, ends2@, 0, iv.group, p));
                        assert(false);
                    }
                }
                assert(forall|k: int|
                    oidx_pre.len() <= k < oidx@.len() ==> (#[trigger] oidx@[k]) == a && ostart@[k]
                        < oend@[k] && iv.start <= ostart@[k] && oend@[k] < cur && oend@[k]
                        <= iv.end);
            }
            rr += 1;
        }
        let ghost oidx_mid2 = oidx@;
        let ghost ostart_mid2 = ostart@;
        let ghost oend_mid2 = oend@;
        if cur < iv.end {
            proof {
                assert forall|p: int| cur as int <= p < iv.end as int implies !(#[trigger] covered(
                    chrs2@,
                    starts2@,
                    ends2@,
                    0,
                    iv.group,
                    p,
                )) by {
                    if covered(chrs2@, starts2@, ends2@, 0, iv.group, p) {
                        assert(run_covers(ogv, osv, oev, iv.group, p));
                        let rc = choose|rc: int|
                            0 <= rc < ogv.len() && (#[trigger] ogv[rc]) == iv.group && osv[rc]
                                <= p < oev[rc];
                        if rc < rb as int {
                            assert(oev[rc] <= iv.start);
                        } else if rc < rr as int {
                            assert(oev[rc] <= cur || osv[rc] == oev[rc]);
                        } else {
                            if (rr as int) < m {
                                if rc > rr as int {
                                    assert(ogv[rr as int] < ogv[rc] || (ogv[rr as int] == ogv[rc]
                                        && oev[rr as int] < osv[rc]));
                                    if ogv[rr as int] != iv.group {
                                        assert(rr as int > rb as int || ((rb as int) < m
                                            && ogv[rb as int] >= iv.group));
                                        assert(ogv[rr as int] >= iv.group);
                                        assert(ogv[rc] >= ogv[rr as int] > iv.group);
                                        assert(false);
                                    } else {
                                        assert(osv[rr as int] >= iv.end);
                                        assert(osv[rc] > oev[rr as int] >= osv[rr as int]);
                                        assert(osv[rc] > p);
                                    }
                                } else {
                                    if ogv[rr as int] != iv.group {
                                        assert(false);
                                    } else {
                                        assert(osv[rc] >= iv.end > p);
                                    }
                                }
                            }
                        }
                        assert(false);
                    }
                }
            }
            oidx.push(iv.idx);
            ostart.push(cur);
            oend.push(iv.end);
        }
        proof {
            // the whole row is now decided
            assert forall|p: int| iv.start <= p < iv.end as int && !(#[trigger] covered(
                chrs2@,
                starts2@,
                ends2@,
                0,
                iv.group,
                p,
            )) implies frag_covers(oidx@, ostart@, oend@, a, p) by {
                if p < cur as int {
                    assert(frag_covers(oidx_mid2, ostart_mid2, oend_mid2, a, p));
                    let k = choose|k: int|
                        0 <= k < oidx_mid2.len() && (#[trigger] oidx_mid2[k]) == a
                            && ostart_mid2[k] <= p < oend_mid2[k];
                    assert(oidx@[k] == a && ostart@[k] <= p < oend@[k]);
                } else {
                    assert(cur as int <= p < iv.end as int);
                    let k = oidx@.len() - 1;
                    assert(oidx@[k] == a && ostart@[k] <= p < oend@[k]);
                }
            }
            assert forall|k: int| 0 <= k < oidx@.len() implies 0 <= (#[trigger] oidx@[k]) < n
                && ostart@[k] < oend@[k] by {
                if k < oidx_pre.len() {
                    assert(oidx@[k] == oidx_pre[k]);
                    assert(ostart@[k] == ostart_pre[k] && oend@[k] == oend_pre[k]);
                } else if k < oidx_mid2.len() {
                    assert(oidx@[k] == oidx_mid2[k] && ostart@[k] == ostart_mid2[k] && oend@[k]
                        == oend_mid2[k]);
                    assert(oidx_mid2[k] == a);
                } else {
                    assert(oidx@[k] == a && ostart@[k] == cur && oend@[k] == iv.end);
                }
            }
            // earlier rows keep their fragments and facts
            assert forall|a2: i64, p: int| #[trigger] frag_covers(
                oidx@,
                ostart@,
                oend@,
                a2,
                p,
            ) implies row_keep(chrs@, starts@, ends@, chrs2@, starts2@, ends2@, a2, p) by {
                let k = choose|k: int|
                    0 <= k < oidx@.len() && (#[trigger] oidx@[k]) == a2 && ostart@[k] <= p
                        < oend@[k];
                if k < oidx_pre.len() {
                    assert(frag_covers(oidx_pre, ostart_pre, oend_pre, a2, p));
                } else if k < oidx_mid2.len() {
                    assert(oidx@[k] == oidx_mid2[k] && ostart@[k] == ostart_mid2[k] && oend@[k]
                        == oend_mid2[k]);
                    assert(oidx@[k] == a);
                    assert(iv.start <= ostart_mid2[k] && oend_mid2[k] <= iv.end);
                    assert(!covered(chrs2@, starts2@, ends2@, 0, iv.group, p));
                } else {
                    assert(oidx@[k] == a);
                    assert(ostart@[k] == cur && oend@[k] == iv.end);
                    assert(!covered(chrs2@, starts2@, ends2@, 0, iv.group, p));
                }
            }
            assert forall|t2: int, p: int|
                0 <= t2 < t as int + 1 && #[trigger] row_keep(
                    chrs@,
                    starts@,
                    ends@,
                    chrs2@,
                    starts2@,
                    ends2@,
                    (#[trigger] sv[t2]).idx,
                    p,
                ) implies frag_covers(oidx@, ostart@, oend@, sv[t2].idx, p) by {
                if t2 < t as int {
                    assert(frag_covers(oidx_pre, ostart_pre, oend_pre, sv[t2].idx, p));
                    let k = choose|k: int|
                        0 <= k < oidx_pre.len() && (#[trigger] oidx_pre[k]) == sv[t2].idx
                            && ostart_pre[k] <= p < oend_pre[k];
                    assert(oidx@[k] == sv[t2].idx && ostart@[k] <= p < oend@[k]);
                }
            }
            assert forall|k: int| #![trigger oidx@[k]] 0 <= k < oidx@.len() implies exists|t2: int|
                0 <= t2 < t as int + 1 && (#[trigger] sv[t2]).idx == oidx@[k] by {
                if k < oidx_pre.len() {
                    let t2 = choose|t2: int|
                        0 <= t2 < t as int && (#[trigger] sv[t2]).idx == oidx_pre[k];
                    assert(0 <= t2 < t as int + 1 && sv[t2].idx == oidx@[k]);
                } else {
                    assert(sv[t as int].idx == oidx@[k]);
                }
            }
            assert forall|k1: int, k2: int|
                0 <= k1 < k2 < oidx@.len() && oidx@[k1] == oidx@[k2] implies (
            #[trigger] oend@[k1]) < (#[trigger] ostart@[k2]) by {
                if k2 < oidx_pre.len() {
                    assert(oend_pre[k1] < ostart_pre[k2]);
                } else if k1 >= oidx_pre.len() {
                    if k2 < oidx_mid2.len() {
                    } else {
                        assert(oend@[k1] < cur && ostart@[k2] == cur);
                    }
                } else {
                    // an old fragment of the same row cannot exist
                    assert(oidx@[k2] == a);
                    let t2 = choose|t2: int|
                        0 <= t2 < t as int && (#[trigger] sv[t2]).idx == oidx_pre[k1];
                    assert(sv[t2].idx != sv[t as int].idx);
                    assert(false);
                }
            }
        }
        t += 1;
    }
    proof {
        assert forall|a2: i64, p: int|
            row_keep(chrs@, starts@, ends@, chrs2@, starts2@, ends2@, a2, p) implies
            #[trigger] frag_covers(oidx@, ostart@, oend@, a2, p) by {
            assert(has_row(sv, a2));
            let t2 = choose|t2: int| 0 <= t2 < sv.len() && (#[trigger] sv[t2]).idx == a2;
            assert(row_keep(chrs@, starts@, ends@, chrs2@, starts2@, ends2@, sv[t2].idx, p));
        }
    }
    (oidx, ostart, oend)
}

} // verus!
