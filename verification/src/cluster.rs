//! Clustering one collection: every row is labelled with the run of the
//! slack-widened merge decomposition that wholly contains it, so two rows
//! share a label exactly when they sit in the same maximal run of
//! touching or overlapping intervals.

use vstd::prelude::*;
use crate::events::{coords_ok, rows_bound, slack_ok, widen_start};
use crate::merge::{covered, merge_runs_grouped, merge_spec, row_in_run, run_covers};
use crate::sorts::{build_sorted_intervals, built_intervals, has_row, interval_le_gs,
    intervals_sorted_gs, lemma_intervals_recovery};

verus! {

/// What the cluster columns mean: behind them stand a merge decomposition
/// of the widened rows and a rearrangement `rows` of the row indices;
/// output position `p` labels row `rows[p]` with the run that contains
/// its widened span, and reports the caller's id of that row.
pub open spec fn cluster_rows_ok(
    chrs: Seq<i64>,
    starts: Seq<i64>,
    ends: Seq<i64>,
    idxs: Seq<i64>,
    slack: int,
    og: Seq<i64>,
    os: Seq<i64>,
    oe: Seq<i64>,
    ids: Seq<i64>,
    indices: Seq<i64>,
    rows: Seq<i64>,
) -> bool {
    &&& ids.len() == chrs.len()
    &&& indices.len() == chrs.len()
    &&& rows.len() == chrs.len()
    &&& forall|p: int| 0 <= p < rows.len() ==> 0 <= #[trigger] rows[p] < chrs.len()
    &&& forall|p1: int, p2: int|
        0 <= p1 < p2 < rows.len() ==> (#[trigger] rows[p1]) != (#[trigger] rows[p2])
    &&& forall|p: int| 0 <= p < rows.len() ==> (#[trigger] indices[p]) == idxs[rows[p] as int]
    &&& forall|p: int| 0 <= p < rows.len() ==> 0 <= #[trigger] ids[p] < og.len()
    &&& forall|p: int|
        0 <= p < rows.len() ==> (#[trigger] og[ids[p] as int]) == chrs[rows[p] as int] && os[ids[p]
            as int] <= starts[rows[p] as int] && ends[rows[p] as int] + slack <= oe[ids[p] as int]
}

pub open spec fn cluster_out_spec(
    chrs: Seq<i64>,
    starts: Seq<i64>,
    ends: Seq<i64>,
    idxs: Seq<i64>,
    slack: int,
    ids: Seq<i64>,
    indices: Seq<i64>,
) -> bool {
    exists|og: Seq<i64>, os: Seq<i64>, oe: Seq<i64>, oi: Seq<i64>|
        #[trigger] merge_spec(chrs, starts, ends, slack, og, os, oe, oi) && exists|rows: Seq<i64>|
            #[trigger] cluster_rows_ok(
                chrs,
                starts,
                ends,
                idxs,
                slack,
                og,
                os,
                oe,
                ids,
                indices,
                rows,
            )
}

/// Labels every row with the id of the maximal run of touching,
/// slack-widened intervals it belongs to.  Returns the parallel columns
/// `(cluster_ids, indices)`, one entry per input row in sweep order.
pub fn sweep_line_cluster(
    chrs: &[i64],
    starts: &[i64],
    ends: &[i64],
    idxs: &[i64],
    slack: i64,
) -> (res: (Vec<i64>, Vec<i64>))
    requires
        coords_ok(chrs@, starts@, ends@),
        idxs@.len() == chrs@.len(),
        slack_ok(slack),
        chrs@.len() < rows_bound(),
    ensures
        cluster_out_spec(chrs@, starts@, ends@, idxs@, slack as int, res.0@, res.1@),
        res.0@.len() == chrs@.len(),
        res.1@.len() == chrs@.len(),
{
    let (og, os, oe, _oc, _oi) = merge_runs_grouped(chrs, starts, ends, slack);
    proof {
        assert(og@.len() <= chrs@.len());
    }
    let ghost ogv = og@;
    let ghost osv = os@;
    let ghost oev = oe@;
    let sorted = build_sorted_intervals(chrs, starts, ends, 0, false);
    proof {
        lemma_intervals_recovery(sorted@, chrs@, starts@, ends@, 0);
    }
    let ghost sv = sorted@;
    let n = sorted.len();
    let m = og.len();
    let mut ids: Vec<i64> = Vec::new();
    let mut indices: Vec<i64> = Vec::new();
    let ghost mut rows: Seq<i64> = Seq::empty();
    let mut r: usize = 0;
    let mut t: usize = 0;
    while t < n
        invariant
            coords_ok(chrs@, starts@, ends@),
            idxs@.len() == chrs@.len(),
            slack_ok(slack),
            chrs@.len() < rows_bound(),
            sv == sorted@,
            n == sv.len(),
            n == chrs@.len(),
            m == ogv.len(),
            ogv == og@,
            osv == os@,
            oev == oe@,
            crate::merge::runs_wf(ogv, osv, oev),
            crate::merge::runs_contain(chrs@, starts@, ends@, slack as int, ogv, osv, oev),
            intervals_sorted_gs(sv),
            forall|t2: int|
                0 <= t2 < n ==> 0 <= (#[trigger] sv[t2]).idx < n && sv[t2] == built_intervals(
                    chrs@,
                    starts@,
                    ends@,
                    0,
                )[sv[t2].idx as int],
            forall|t1: int, t2: int|
                0 <= t1 < t2 < n ==> (#[trigger] sv[t1]).idx != (#[trigger] sv[t2]).idx,
            t <= n,
            m <= n,
            r <= m,
            t == 0 ==> r == 0,
            // the pointer is parked at the run containing the previous row
            t > 0 ==> r < m && ogv[r as int] == sv[t as int - 1].group && osv[r as int]
                <= sv[t as int - 1].start && sv[t as int - 1].end + slack <= oev[r as int],
            ids@.len() == t as int,
            indices@.len() == t as int,
            rows.len() == t as int,
            forall|p: int| 0 <= p < t as int ==> 0 <= #[trigger] rows[p] < n,
            forall|p: int| 0 <= p < t as int ==> #[trigger] rows[p] == sv[p].idx,
            forall|p: int|
                0 <= p < t as int ==> (#[trigger] indices@[p]) == idxs@[rows[p] as int],
            forall|p: int| 0 <= p < t as int ==> 0 <= #[trigger] ids@[p] < m,
            forall|p: int|
                0 <= p < t as int ==> (#[trigger] ogv[ids@[p] as int]) == chrs@[rows[p] as int]
                    && osv[ids@[p] as int] <= starts@[rows[p] as int] && ends@[rows[p] as int]
                    + slack <= oev[ids@[p] as int],
        decreases n - t,
    {
        let iv = sorted[t];
        let ghost a = iv.idx as int;
        proof {
            assert(sv[t as int] == built_intervals(chrs@, starts@, ends@, 0)[a]);
            assert(widen_start(starts@[a] as int, 0) == starts@[a]);
            assert(row_in_run(chrs@, starts@, ends@, slack as int, ogv, osv, oev, a));
            // the containing run is not behind the pointer
            let rc = choose|rc: int|
                0 <= rc < ogv.len() && (#[trigger] ogv[rc]) == chrs@[a] && osv[rc] <= starts@[a]
                    && ends@[a] + slack <= oev[rc];
            if rc < r as int {
                assert(t > 0);
                let tp = t as int - 1;
                assert(interval_le_gs(sv[tp], sv[t as int]));
                assert(ogv[rc] < ogv[r as int] || (ogv[rc] == ogv[r as int] && oev[rc]
                    < osv[r as int]));
                if ogv[rc] < ogv[r as int] {
                    assert(ogv[rc] == iv.group);
                    assert(sv[tp].group <= iv.group);
                    assert(ogv[r as int] == sv[tp].group);
                    assert(false);
                } else {
                    assert(iv.group == sv[tp].group);
                    assert(iv.start >= sv[tp].start);
                    assert(starts@[a] <= ends@[a] + slack <= oev[rc]);
                    assert(oev[rc] < osv[r as int] <= sv[tp].start <= iv.start);
                    assert(false);
                }
            }
        }
        proof {
            assert(0 <= starts@[a]);
            assert(starts@[a] <= ends@[a]);
            assert(ends@[a] <= crate::events::pos_bound());
            assert((ends@[a] + 0) as i64 == ends@[a]);
            assert(iv.end == ends@[a]);
        }
        let we: i64 = iv.end + slack;
        while r < m && !(og[r] == iv.group && os[r] <= iv.start && we <= oe[r])
            invariant
                m == ogv.len(),
                osv.len() == m,
                oev.len() == m,
                ogv == og@,
                osv == os@,
                oev == oe@,
                r <= m,
                we as int == ends@[a] + slack,
                iv.group == chrs@[a],
                iv.start == starts@[a],
                0 <= a < chrs@.len(),
                exists|rc: int|
                    r as int <= rc < ogv.len() && (#[trigger] ogv[rc]) == chrs@[a] && osv[rc]
                        <= starts@[a] && ends@[a] + slack <= oev[rc],
            decreases m - r,
        {
            proof {
                let rc = choose|rc: int|
                    r as int <= rc < ogv.len() && (#[trigger] ogv[rc]) == chrs@[a] && osv[rc]
                        <= starts@[a] && ends@[a] + slack <= oev[rc];
                assert(rc > r as int);
            }
            r += 1;
        }
        proof {
            assert(r < m);
            assert(ogv[r as int] == iv.group && osv[r as int] <= iv.start && we as int
                <= oev[r as int]);
        }
        ids.push(r as i64);
        indices.push(idxs[iv.idx as usize]);
        proof {
            rows = rows.push(iv.idx);
            assert((iv.idx as usize) as int == a);
            assert((r as i64) as int == r as int);
        }
        t += 1;
    }
    proof {
        assert forall|p1: int, p2: int| 0 <= p1 < p2 < rows.len() implies (#[trigger] rows[p1])
            != (#[trigger] rows[p2]) by {
            assert(rows[p1] == sv[p1].idx && rows[p2] == sv[p2].idx);
        }
        assert(cluster_out_spec(chrs@, starts@, ends@, idxs@, slack as int, ids@, indices@)) by {
            assert(merge_spec(chrs@, starts@, ends@, slack as int, ogv, osv, oev, _oi@));
            assert(cluster_rows_ok(
                chrs@,
                starts@,
                ends@,
                idxs@,
                slack as int,
                ogv,
                osv,
                oev,
                ids@,
                indices@,
                rows,
            ));
        }
    }
    (ids, indices)
}

/// Rows `a` and `b` touch or overlap within the slack: same group, and
/// each widened span reaches the other's start.
pub open spec fn touches(
    chrs: Seq<i64>,
    starts: Seq<i64>,
    ends: Seq<i64>,
    slack: int,
    a: int,
    b: int,
) -> bool {
    &&& 0 <= a < chrs.len()
    &&& 0 <= b < chrs.len()
    &&& chrs[a] == chrs[b]
    &&& starts[a] <= ends[b] + slack
    &&& starts[b] <= ends[a] + slack
}

/// A chain of pairwise touching rows from `a` to `b`.
pub open spec fn chain_connects(
    chrs: Seq<i64>,
    starts: Seq<i64>,
    ends: Seq<i64>,
    slack: int,
    ch: Seq<int>,
    a: int,
    b: int,
) -> bool {
    &&& ch.len() >= 1
    &&& ch[0] == a
    &&& ch.last() == b
    &&& forall|t: int|
        0 <= t < ch.len() - 1 ==> touches(chrs, starts, ends, slack, #[trigger] ch[t], ch[t + 1])
}

/// A row lies whole inside run `r`.
pub open spec fn in_run(
    chrs: Seq<i64>,
    starts: Seq<i64>,
    ends: Seq<i64>,
    slack: int,
    og: Seq<i64>,
    os: Seq<i64>,
    oe: Seq<i64>,
    a: int,
    r: int,
) -> bool {
    &&& 0 <= r < og.len()
    &&& 0 <= a < chrs.len()
    &&& og[r] == chrs[a]
    &&& os[r] <= starts[a]
    &&& ends[a] + slack <= oe[r]
}

/// A row lies in at most one run.
proof fn lemma_run_unique(
    chrs: Seq<i64>,
    starts: Seq<i64>,
    ends: Seq<i64>,
    slack: int,
    og: Seq<i64>,
    os: Seq<i64>,
    oe: Seq<i64>,
    a: int,
    r1: int,
    r2: int,
)
    requires
        crate::merge::runs_wf(og, os, oe),
        0 <= slack,
        coords_ok(chrs, starts, ends),
        in_run(chrs, starts, ends, slack, og, os, oe, a, r1),
        in_run(chrs, starts, ends, slack, og, os, oe, a, r2),
    ensures
        r1 == r2,
{
    if r1 < r2 {
        assert(og[r1] < og[r2] || (og[r1] == og[r2] && oe[r1] < os[r2]));
        assert(os[r2] <= starts[a] && starts[a] <= ends[a] + slack <= oe[r1]);
        assert(false);
    } else if r2 < r1 {
        assert(og[r2] < og[r1] || (og[r2] == og[r1] && oe[r2] < os[r1]));
        assert(os[r1] <= starts[a] && starts[a] <= ends[a] + slack <= oe[r2]);
        assert(false);
    }
}

/// Touching rows lie in the same run: the run decomposition never splits
/// a touching pair.
proof fn lemma_touching_same_run(
    chrs: Seq<i64>,
    starts: Seq<i64>,
    ends: Seq<i64>,
    slack: int,
    og: Seq<i64>,
    os: Seq<i64>,
    oe: Seq<i64>,
    a: int,
    b: int,
    ra: int,
    rb: int,
)
    requires
        crate::merge::runs_wf(og, os, oe),
        0 <= slack,
        coords_ok(chrs, starts, ends),
        touches(chrs, starts, ends, slack, a, b),
        in_run(chrs, starts, ends, slack, og, os, oe, a, ra),
        in_run(chrs, starts, ends, slack, og, os, oe, b, rb),
    ensures
        ra == rb,
{
    if ra < rb {
        assert(og[ra] < og[rb] || (og[ra] == og[rb] && oe[ra] < os[rb]));
        assert(os[rb] <= starts[b]);
        assert(starts[b] <= ends[a] + slack <= oe[ra]);
        assert(false);
    } else if rb < ra {
        assert(og[rb] < og[ra] || (og[rb] == og[ra] && oe[rb] < os[ra]));
        assert(os[ra] <= starts[a]);
        assert(starts[a] <= ends[b] + slack <= oe[rb]);
        assert(false);
    }
}

/// Rows connected by a chain of touching rows lie in the same run, and
/// therefore carry the same cluster id.
pub proof fn lemma_chain_same_run(
    chrs: Seq<i64>,
    starts: Seq<i64>,
    ends: Seq<i64>,
    slack: int,
    og: Seq<i64>,
    os: Seq<i64>,
    oe: Seq<i64>,
    ch: Seq<int>,
    a: int,
    b: int,
    ra: int,
    rb: int,
)
    requires
        crate::merge::runs_wf(og, os, oe),
        crate::merge::runs_contain(chrs, starts, ends, slack, og, os, oe),
        0 <= slack,
        coords_ok(chrs, starts, ends),
        chain_connects(chrs, starts, ends, slack, ch, a, b),
        0 <= a < chrs.len(),
        in_run(chrs, starts, ends, slack, og, os, oe, a, ra),
        in_run(chrs, starts, ends, slack, og, os, oe, b, rb),
    ensures
        ra == rb,
    decreases ch.len(),
{
    if ch.len() == 1 {
        assert(a == b);
        lemma_run_unique(chrs, starts, ends, slack, og, os, oe, a, ra, rb);
    } else {
        let c = ch[1];
        assert(touches(chrs, starts, ends, slack, ch[0], ch[1]));
        assert(crate::merge::row_in_run(chrs, starts, ends, slack, og, os, oe, c));
        let rc = choose|rc: int|
            0 <= rc < og.len() && (#[trigger] og[rc]) == chrs[c] && os[rc] <= starts[c] && ends[c]
                + slack <= oe[rc];
        lemma_touching_same_run(chrs, starts, ends, slack, og, os, oe, a, c, ra, rc);
        let ch2 = ch.drop_first();
        assert(ch2[0] == c && ch2.last() == b);
        assert forall|t: int| 0 <= t < ch2.len() - 1 implies touches(
            chrs,
            starts,
            ends,
            slack,
            #[trigger] ch2[t],
            ch2[t + 1],
        ) by {
            assert(ch2[t] == ch[t + 1] && ch2[t + 1] == ch[t + 2]);
            assert(touches(chrs, starts, ends, slack, ch[t + 1], ch[t + 2]));
        }
        lemma_chain_same_run(chrs, starts, ends, slack, og, os, oe, ch2, c, b, rc, rb);
    }
}

/// Two rows of one run are linked by a chain of pairwise touching rows,
/// every link lying in that run: a cluster id never lumps together rows
/// that no touching chain joins.
pub proof fn lemma_same_run_chain(
    chrs: Seq<i64>,
    starts: Seq<i64>,
    ends: Seq<i64>,
    slack: int,
    og: Seq<i64>,
    os: Seq<i64>,
    oe: Seq<i64>,
    a: int,
    b: int,
    r: int,
) -> (ch: Seq<int>)
    requires
        crate::merge::runs_wf(og, os, oe),
        crate::merge::runs_cover(chrs, starts, ends, slack, og, os, oe),
        crate::merge::runs_contain(chrs, starts, ends, slack, og, os, oe),
        0 <= slack,
        coords_ok(chrs, starts, ends),
        in_run(chrs, starts, ends, slack, og, os, oe, a, r),
        in_run(chrs, starts, ends, slack, og, os, oe, b, r),
    ensures
        chain_connects(chrs, starts, ends, slack, ch, a, b),
        forall|t: int|
            0 <= t < ch.len() ==> in_run(chrs, starts, ends, slack, og, os, oe, #[trigger] ch[t], r),
    decreases 2 * oe[r] - ends[a] - ends[b],
{
    let g = og[r];
    if starts[a] <= ends[b] + slack && starts[b] <= ends[a] + slack {
        let ch = seq![a, b];
        assert(touches(chrs, starts, ends, slack, a, b));
        assert forall|t: int| 0 <= t < ch.len() - 1 implies touches(
            chrs,
            starts,
            ends,
            slack,
            #[trigger] ch[t],
            ch[t + 1],
        ) by {
            assert(t == 0 && ch[0] == a && ch[1] == b);
        }
        assert forall|t: int| 0 <= t < ch.len() implies in_run(
            chrs,
            starts,
            ends,
            slack,
            og,
            os,
            oe,
            #[trigger] ch[t],
            r,
        ) by {
            assert(ch[0] == a && ch[1] == b);
        }
        ch
    } else if starts[b] > ends[a] + slack {
        let p = ends[a] + slack;
        assert(os[r] <= starts[a] <= p);
        assert(p < starts[b] <= ends[b] + slack <= oe[r]);
        assert(covered(chrs, starts, ends, slack, g, p)) by {
            assert(run_covers(og, os, oe, g, p));
        }
        let c = choose|c: int|
            0 <= c < chrs.len() && (#[trigger] chrs[c]) == g && starts[c] <= p < ends[c] + slack;
        assert(touches(chrs, starts, ends, slack, a, c)) by {
            assert(starts[c] <= ends[a] + slack);
            assert(starts[a] <= ends[a] <= p < ends[c] + slack);
        }
        assert(crate::merge::row_in_run(chrs, starts, ends, slack, og, os, oe, c));
        let rc = choose|rc: int|
            0 <= rc < og.len() && (#[trigger] og[rc]) == chrs[c] && os[rc] <= starts[c] && ends[c]
                + slack <= oe[rc];
        if rc != r {
            if rc < r {
                assert(og[rc] < og[r] || oe[rc] < os[r]);
                assert(os[rc] <= starts[c] <= p < ends[c] + slack <= oe[rc]);
                assert(false);
            } else {
                assert(og[r] < og[rc] || oe[r] < os[rc]);
                assert(false);
            }
        }
        assert(in_run(chrs, starts, ends, slack, og, os, oe, c, r));
        assert(ends[a] < ends[c]);
        let rest = lemma_same_run_chain(chrs, starts, ends, slack, og, os, oe, c, b, r);
        let ch = seq![a] + rest;
        assert(ch[0] == a && ch.last() == b);
        assert forall|t: int| 0 <= t < ch.len() - 1 implies touches(
            chrs,
            starts,
            ends,
            slack,
            #[trigger] ch[t],
            ch[t + 1],
        ) by {
            if t == 0 {
                assert(ch[0] == a && ch[1] == rest[0] && rest[0] == c);
            } else {
                assert(ch[t] == rest[t - 1] && ch[t + 1] == rest[t]);
                assert(touches(chrs, starts, ends, slack, rest[t - 1], rest[t]));
            }
        }
        assert forall|t: int| 0 <= t < ch.len() implies in_run(
            chrs,
            starts,
            ends,
            slack,
            og,
            os,
            oe,
            #[trigger] ch[t],
            r,
        ) by {
            if t > 0 {
                assert(ch[t] == rest[t - 1]);
                assert(in_run(chrs, starts, ends, slack, og, os, oe, rest[t - 1], r));
            }
        }
        ch
    } else {
        assert(starts[a] > ends[b] + slack);
        let p = ends[b] + slack;
        assert(os[r] <= starts[b] <= p);
        assert(p < starts[a] <= ends[a] + slack <= oe[r]);
        assert(covered(chrs, starts, ends, slack, g, p)) by {
            assert(run_covers(og, os, oe, g, p));
        }
        let c = choose|c: int|
            0 <= c < chrs.len() && (#[trigger] chrs[c]) == g && starts[c] <= p < ends[c] + slack;
        assert(touches(chrs, starts, ends, slack, c, b)) by {
            assert(starts[c] <= ends[b] + slack);
            assert(starts[b] <= ends[b] <= p < ends[c] + slack);
        }
        assert(crate::merge::row_in_run(chrs, starts, ends, slack, og, os, oe, c));
        let rc = choose|rc: int|
            0 <= rc < og.len() && (#[trigger] og[rc]) == chrs[c] && os[rc] <= starts[c] && ends[c]
                + slack <= oe[rc];
        if rc != r {
            if rc < r {
                assert(og[rc] < og[r] || oe[rc] < os[r]);
                assert(os[rc] <= starts[c] <= p < ends[c] + slack <= oe[rc]);
                assert(false);
            } else {
                assert(og[r] < og[rc] || oe[r] < os[rc]);
                assert(false);
            }
        }
        assert(in_run(chrs, starts, ends, slack, og, os, oe, c, r));
        assert(ends[b] < ends[c]);
        let rest = lemma_same_run_chain(chrs, starts, ends, slack, og, os, oe, a, c, r);
        let ch = rest + seq![b];
        assert(ch[0] == a && ch.last() == b);
        assert forall|t: int| 0 <= t < ch.len() - 1 implies touches(
            chrs,
            starts,
            ends,
            slack,
            #[trigger] ch[t],
            ch[t + 1],
        ) by {
            if t == ch.len() - 2 {
                assert(ch[t] == rest.last() && rest.last() == c && ch[t + 1] == b);
            } else {
                assert(ch[t] == rest[t] && ch[t + 1] == rest[t + 1]);
                assert(touches(chrs, starts, ends, slack, rest[t], rest[t + 1]));
            }
        }
        assert forall|t: int| 0 <= t < ch.len() implies in_run(
            chrs,
            starts,
            ends,
            slack,
            og,
            os,
            oe,
            #[trigger] ch[t],
            r,
        ) by {
            if t < ch.len() - 1 {
                assert(ch[t] == rest[t]);
                assert(in_run(chrs, starts, ends, slack, og, os, oe, rest[t], r));
            }
        }
        ch
    }
}

} // verus!
