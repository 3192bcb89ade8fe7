//! Merging one collection into its maximal runs: after widening every end
//! by `slack`, overlapping or touching intervals of one group collapse
//! into one output range.  Each run carries the member count and the row
//! whose widened end closes the run.
//!
//! The contract pins the runs down: they are ordered with a gap between
//! runs of one group, and a position is inside some run exactly when some
//! widened input row covers it.

use vstd::prelude::*;
use crate::ruranges_structs::Interval;
use crate::events::{coords_ok, rows_bound, slack_ok, widen_start};
use crate::sorts::{build_sorted_intervals, built_intervals, has_row, interval_le_gs,
    intervals_sorted_gs, lemma_intervals_recovery};

verus! {

/// Position `p` of group `g` lies inside some slack-widened input row.
pub open spec fn covered(
    chrs: Seq<i64>,
    starts: Seq<i64>,
    ends: Seq<i64>,
    slack: int,
    g: i64,
    p: int,
) -> bool {
    exists|a: int|
        0 <= a < chrs.len() && (#[trigger] chrs[a]) == g && starts[a] <= p < ends[a] + slack
}

/// Position `p` of group `g` lies inside some output run.
pub open spec fn run_covers(og: Seq<i64>, os: Seq<i64>, oe: Seq<i64>, g: i64, p: int) -> bool {
    exists|r: int| 0 <= r < og.len() && (#[trigger] og[r]) == g && os[r] <= p < oe[r]
}

/// The runs are well formed: parallel columns, each run a span, the runs
/// ordered by group and, within one group, strictly separated.
pub open spec fn runs_wf(og: Seq<i64>, os: Seq<i64>, oe: Seq<i64>) -> bool {
    &&& os.len() == og.len()
    &&& oe.len() == og.len()
    &&& forall|r: int| 0 <= r < og.len() ==> (#[trigger] os[r]) <= oe[r]
    &&& forall|r1: int, r2: int|
        0 <= r1 < r2 < og.len() ==> ((#[trigger] og[r1]) < (#[trigger] og[r2]) || (og[r1] == og[r2]
            && oe[r1] < os[r2]))
}

/// The runs cover exactly the positions the widened input covers.
pub open spec fn runs_cover(
    chrs: Seq<i64>,
    starts: Seq<i64>,
    ends: Seq<i64>,
    slack: int,
    og: Seq<i64>,
    os: Seq<i64>,
    oe: Seq<i64>,
) -> bool {
    forall|g: i64, p: int|
        #[trigger] covered(chrs, starts, ends, slack, g, p) <==> run_covers(og, os, oe, g, p)
}

/// Every widened input row lies whole inside one run.
pub open spec fn row_in_run(
    chrs: Seq<i64>,
    starts: Seq<i64>,
    ends: Seq<i64>,
    slack: int,
    og: Seq<i64>,
    os: Seq<i64>,
    oe: Seq<i64>,
    a: int,
) -> bool {
    exists|r: int|
        0 <= r < og.len() && (#[trigger] og[r]) == chrs[a] && os[r] <= starts[a] && ends[a] + slack
            <= oe[r]
}

pub open spec fn runs_contain(
    chrs: Seq<i64>,
    starts: Seq<i64>,
    ends: Seq<i64>,
    slack: int,
    og: Seq<i64>,
    os: Seq<i64>,
    oe: Seq<i64>,
) -> bool {
    forall|a: int|
        0 <= a < chrs.len() ==> #[trigger] row_in_run(chrs, starts, ends, slack, og, os, oe, a)
}

/// The rows whose widened span lies inside the given range of group `g`.
pub open spec fn run_members(
    chrs: Seq<i64>,
    starts: Seq<i64>,
    ends: Seq<i64>,
    slack: int,
    g: i64,
    rs: int,
    re: int,
) -> Set<i64> {
    Set::new(
        |x: i64|
            0 <= x < chrs.len() && chrs[x as int] == g && rs <= starts[x as int] && ends[x as int]
                + slack <= re,
    )
}

/// A row of group `g` whose start is exactly `rs`, inside the run.
pub open spec fn run_start_witness(
    chrs: Seq<i64>,
    starts: Seq<i64>,
    ends: Seq<i64>,
    slack: int,
    g: i64,
    rs: int,
    re: int,
) -> bool {
    exists|a: int|
        0 <= a < chrs.len() && (#[trigger] chrs[a]) == g && starts[a] == rs && ends[a] + slack
            <= re
}

/// Every run's bounds are witnessed: its start is a member's start, and
/// the recorded row's widened end is exactly the run's end.
pub open spec fn runs_witnessed(
    chrs: Seq<i64>,
    starts: Seq<i64>,
    ends: Seq<i64>,
    slack: int,
    og: Seq<i64>,
    os: Seq<i64>,
    oe: Seq<i64>,
    oi: Seq<i64>,
) -> bool {
    &&& oi.len() == og.len()
    &&& forall|r: int|
        0 <= r < og.len() ==> run_start_witness(
            chrs,
            starts,
            ends,
            slack,
            #[trigger] og[r],
            os[r] as int,
            oe[r] as int,
        )
    &&& forall|r: int|
        0 <= r < og.len() ==> 0 <= (#[trigger] oi[r]) < chrs.len() && chrs[oi[r] as int] == og[r]
            && ends[oi[r] as int] + slack == oe[r] && os[r] <= starts[oi[r] as int]
}

/// The whole merge contract: well-formed runs that cover exactly the
/// widened input, contain every row, and are witnessed by their members.
pub open spec fn merge_spec(
    chrs: Seq<i64>,
    starts: Seq<i64>,
    ends: Seq<i64>,
    slack: int,
    og: Seq<i64>,
    os: Seq<i64>,
    oe: Seq<i64>,
    oi: Seq<i64>,
) -> bool {
    &&& runs_wf(og, os, oe)
    &&& runs_cover(chrs, starts, ends, slack, og, os, oe)
    &&& runs_contain(chrs, starts, ends, slack, og, os, oe)
    &&& runs_witnessed(chrs, starts, ends, slack, og, os, oe, oi)
}

/// Positions covered by the first `k` sorted intervals, ends widened.
pub open spec fn covered_pref(sv: Seq<Interval>, slack: int, k: int, g: i64, p: int) -> bool {
    exists|t: int|
        0 <= t < k && (#[trigger] sv[t]).group == g && sv[t].start <= p < sv[t].end + slack
}

/// The state the merging loop maintains after consuming `i` sorted
/// intervals: the emitted runs are final, the current run absorbs the
/// recent ones, and together they cover exactly the consumed prefix.
pub open spec fn merge_loop_inv(
    chrs: Seq<i64>,
    starts: Seq<i64>,
    ends: Seq<i64>,
    slack: int,
    sv: Seq<Interval>,
    i: int,
    og: Seq<i64>,
    os: Seq<i64>,
    oe: Seq<i64>,
    oc: Seq<i64>,
    oi: Seq<i64>,
    cur_g: i64,
    cur_s: i64,
    cur_e: i64,
    cur_cnt: i64,
    cur_idx: i64,
    members: Set<i64>,
) -> bool {
    &&& coords_ok(chrs, starts, ends)
    &&& 0 <= slack <= crate::events::pos_bound()
    &&& sv.len() == chrs.len()
    &&& chrs.len() < rows_bound()
    &&& 1 <= i <= sv.len()
    &&& intervals_sorted_gs(sv)
    &&& forall|t: int|
        0 <= t < sv.len() ==> 0 <= (#[trigger] sv[t]).idx < sv.len() && sv[t] == built_intervals(
            chrs,
            starts,
            ends,
            0,
        )[sv[t].idx as int]
    &&& forall|t1: int, t2: int|
        0 <= t1 < t2 < sv.len() ==> (#[trigger] sv[t1]).idx != (#[trigger] sv[t2]).idx
    &&& forall|a: i64| 0 <= a < sv.len() ==> #[trigger] has_row(sv, a)
    &&& os.len() == og.len()
    &&& oe.len() == og.len()
    &&& oc.len() == og.len()
    &&& oi.len() == og.len()
    &&& og.len() < i
    &&& runs_wf(og, os, oe)
    &&& forall|r: int|
        0 <= r < og.len() ==> ((#[trigger] og[r]) < cur_g || (og[r] == cur_g && oe[r] < cur_s))
    &&& cur_s <= cur_e
    &&& forall|g: i64, p: int|
        #[trigger] covered_pref(sv, slack, i, g, p) <==> (run_covers(og, os, oe, g, p) || (cur_g
            == g && cur_s <= p < cur_e))
    &&& forall|t: int|
        0 <= t < i ==> ((exists|r: int|
            0 <= r < og.len() && (#[trigger] og[r]) == (#[trigger] sv[t]).group && os[r]
                <= sv[t].start && sv[t].end + slack <= oe[r]) || (sv[t].group == cur_g && cur_s
            <= sv[t].start && sv[t].end + slack <= cur_e))
    &&& 0 <= cur_idx < chrs.len()
    &&& chrs[cur_idx as int] == cur_g
    &&& ends[cur_idx as int] + slack == cur_e
    &&& starts[cur_idx as int] >= cur_s
    &&& exists|t: int|
        0 <= t < i && (#[trigger] sv[t]).group == cur_g && sv[t].start == cur_s
    &&& forall|x: i64|
        #[trigger] members.contains(x) <==> exists|t: int|
            0 <= t < i && (#[trigger] sv[t]).idx == x && sv[t].group == cur_g && sv[t].start
                >= cur_s
    &&& members.finite()
    &&& cur_cnt as int == members.len()
    &&& 1 <= cur_cnt
    &&& cur_cnt as int <= i
    &&& forall|r: int|
        0 <= r < og.len() ==> (#[trigger] oc[r]) as int == run_members(
            chrs,
            starts,
            ends,
            slack,
            og[r],
            os[r] as int,
            oe[r] as int,
        ).len()
    &&& forall|r: int|
        0 <= r < og.len() ==> run_start_witness(
            chrs,
            starts,
            ends,
            slack,
            #[trigger] og[r],
            os[r] as int,
            oe[r] as int,
        )
    &&& forall|r: int|
        0 <= r < og.len() ==> 0 <= (#[trigger] oi[r]) < chrs.len() && chrs[oi[r] as int] == og[r]
            && ends[oi[r] as int] + slack == oe[r] && os[r] <= starts[oi[r] as int]
}

/// Consuming an interval that joins the current run keeps the loop state.
proof fn lemma_merge_extend(
    chrs: Seq<i64>,
    starts: Seq<i64>,
    ends: Seq<i64>,
    slack: int,
    sv: Seq<Interval>,
    i: int,
    og: Seq<i64>,
    os: Seq<i64>,
    oe: Seq<i64>,
    oc: Seq<i64>,
    oi: Seq<i64>,
    cur_g: i64,
    cur_s: i64,
    cur_e: i64,
    cur_cnt: i64,
    cur_idx: i64,
    members: Set<i64>,
    cur_e2: i64,
    cur_idx2: i64,
)
    requires
        merge_loop_inv(
            chrs,
            starts,
            ends,
            slack,
            sv,
            i,
            og,
            os,
            oe,
            oc,
            oi,
            cur_g,
            cur_s,
            cur_e,
            cur_cnt,
            cur_idx,
            members,
        ),
        i < sv.len(),
        sv[i].group == cur_g,
        sv[i].start <= cur_e,
        sv[i].end + slack > cur_e ==> cur_e2 == sv[i].end + slack && cur_idx2 == sv[i].idx,
        sv[i].end + slack <= cur_e ==> cur_e2 == cur_e && cur_idx2 == cur_idx,
        cur_cnt < rows_bound(),
    ensures
        merge_loop_inv(
            chrs,
            starts,
            ends,
            slack,
            sv,
            i + 1,
            og,
            os,
            oe,
            oc,
            oi,
            cur_g,
            cur_s,
            cur_e2,
            (cur_cnt + 1) as i64,
            cur_idx2,
            members.insert(sv[i].idx),
        ),
{
    let iv = sv[i];
    let members2 = members.insert(iv.idx);
    let t0 = choose|t: int|
        0 <= t < i && (#[trigger] sv[t]).group == cur_g && sv[t].start == cur_s;
    assert(interval_le_gs(sv[t0], sv[i]));
    assert(iv.start >= cur_s);
    if members.contains(iv.idx) {
        let t = choose|t: int|
            0 <= t < i && (#[trigger] sv[t]).idx == iv.idx && sv[t].group == cur_g && sv[t].start
                >= cur_s;
        assert(sv[t].idx == sv[i].idx);
        assert(false);
    }
    assert(members2.len() == members.len() + 1);
    // membership characterization at i + 1
    assert forall|x: i64| #[trigger] members2.contains(x) implies exists|t: int|
        0 <= t < i + 1 && (#[trigger] sv[t]).idx == x && sv[t].group == cur_g && sv[t].start
            >= cur_s by {
        if x == iv.idx {
            assert(0 <= i < i + 1 && sv[i].idx == x && sv[i].group == cur_g && sv[i].start
                >= cur_s);
        } else {
            let t = choose|t: int|
                0 <= t < i && (#[trigger] sv[t]).idx == x && sv[t].group == cur_g && sv[t].start
                    >= cur_s;
            assert(0 <= t < i + 1 && sv[t].idx == x && sv[t].group == cur_g && sv[t].start
                >= cur_s);
        }
    }
    assert forall|x: i64|
        (exists|t: int|
            0 <= t < i + 1 && (#[trigger] sv[t]).idx == x && sv[t].group == cur_g && sv[t].start
                >= cur_s) implies #[trigger] members2.contains(x) by {
        let t = choose|t: int|
            0 <= t < i + 1 && (#[trigger] sv[t]).idx == x && sv[t].group == cur_g && sv[t].start
                >= cur_s;
        if t < i {
            assert(members.contains(x));
        }
    }
    // coverage at i + 1
    assert forall|g: i64, p: int| #[trigger] covered_pref(sv, slack, i + 1, g, p) implies (
    run_covers(og, os, oe, g, p) || (cur_g == g && cur_s <= p < cur_e2)) by {
        let t = choose|t: int|
            0 <= t < i + 1 && (#[trigger] sv[t]).group == g && sv[t].start <= p < sv[t].end
                + slack;
        if t < i {
            assert(covered_pref(sv, slack, i, g, p));
        } else {
            assert(cur_g == g && cur_s <= p < cur_e2);
        }
    }
    assert forall|g: i64, p: int|
        (run_covers(og, os, oe, g, p) || (cur_g == g && cur_s <= p < cur_e2)) implies
        #[trigger] covered_pref(sv, slack, i + 1, g, p) by {
        if run_covers(og, os, oe, g, p) {
            assert(covered_pref(sv, slack, i, g, p));
            let t = choose|t: int|
                0 <= t < i && (#[trigger] sv[t]).group == g && sv[t].start <= p < sv[t].end
                    + slack;
            assert(covered_pref(sv, slack, i + 1, g, p));
        } else {
            if p < cur_e {
                assert(covered_pref(sv, slack, i, g, p));
                let t = choose|t: int|
                    0 <= t < i && (#[trigger] sv[t]).group == g && sv[t].start <= p < sv[t].end
                        + slack;
                assert(covered_pref(sv, slack, i + 1, g, p));
            } else {
                assert(cur_e <= p < cur_e2);
                assert(iv.start <= cur_e <= p < iv.end + slack);
                assert(0 <= i < i + 1 && sv[i].group == g && sv[i].start <= p < sv[i].end
                    + slack);
            }
        }
    }
    // containment at i + 1
    assert forall|t: int| 0 <= t < i + 1 implies ((exists|r: int|
        0 <= r < og.len() && (#[trigger] og[r]) == (#[trigger] sv[t]).group && os[r]
            <= sv[t].start && sv[t].end + slack <= oe[r]) || (sv[t].group == cur_g && cur_s
        <= sv[t].start && sv[t].end + slack <= cur_e2)) by {
        if t < i {
            assert((exists|r: int|
                0 <= r < og.len() && (#[trigger] og[r]) == sv[t].group && os[r] <= sv[t].start
                    && sv[t].end + slack <= oe[r]) || (sv[t].group == cur_g && cur_s
                <= sv[t].start && sv[t].end + slack <= cur_e));
        }
    }
}

/// When the next interval does not join, the current run is emitted as a
/// finished run; the loop state then holds with the new singleton run, or
/// the emitted columns satisfy the final contract when the input is done.
proof fn lemma_merge_emit(
    chrs: Seq<i64>,
    starts: Seq<i64>,
    ends: Seq<i64>,
    slack: int,
    sv: Seq<Interval>,
    i: int,
    og: Seq<i64>,
    os: Seq<i64>,
    oe: Seq<i64>,
    oc: Seq<i64>,
    oi: Seq<i64>,
    cur_g: i64,
    cur_s: i64,
    cur_e: i64,
    cur_cnt: i64,
    cur_idx: i64,
    members: Set<i64>,
)
    requires
        merge_loop_inv(
            chrs,
            starts,
            ends,
            slack,
            sv,
            i,
            og,
            os,
            oe,
            oc,
            oi,
            cur_g,
            cur_s,
            cur_e,
            cur_cnt,
            cur_idx,
            members,
        ),
        i < sv.len() ==> !(sv[i].group == cur_g && sv[i].start <= cur_e),
    ensures
        members =~= run_members(chrs, starts, ends, slack, cur_g, cur_s as int, cur_e as int),
        runs_wf(og.push(cur_g), os.push(cur_s), oe.push(cur_e)),
        forall|g: i64, p: int|
            #[trigger] covered_pref(sv, slack, i, g, p) <==> run_covers(
                og.push(cur_g),
                os.push(cur_s),
                oe.push(cur_e),
                g,
                p,
            ),
        forall|t: int|
            0 <= t < i ==> exists|r: int|
                0 <= r < og.push(cur_g).len() && (#[trigger] og.push(cur_g)[r]) == (
                #[trigger] sv[t]).group && os.push(cur_s)[r] <= sv[t].start && sv[t].end + slack
                    <= oe.push(cur_e)[r],
        forall|r: int|
            0 <= r < og.push(cur_g).len() ==> (#[trigger] oc.push(cur_cnt)[r]) as int
                == run_members(
                chrs,
                starts,
                ends,
                slack,
                og.push(cur_g)[r],
                os.push(cur_s)[r] as int,
                oe.push(cur_e)[r] as int,
            ).len(),
        forall|r: int|
            0 <= r < og.push(cur_g).len() ==> run_start_witness(
                chrs,
                starts,
                ends,
                slack,
                #[trigger] og.push(cur_g)[r],
                os.push(cur_s)[r] as int,
                oe.push(cur_e)[r] as int,
            ),
        forall|r: int|
            0 <= r < og.push(cur_g).len() ==> 0 <= (#[trigger] oi.push(cur_idx)[r]) < chrs.len()
                && chrs[oi.push(cur_idx)[r] as int] == og.push(cur_g)[r] && ends[oi.push(
                cur_idx,
            )[r] as int] + slack == oe.push(cur_e)[r] && os.push(cur_s)[r] <= starts[oi.push(
                cur_idx,
            )[r] as int],
        forall|r: int|
            0 <= r < og.push(cur_g).len() ==> ((#[trigger] og.push(cur_g)[r]) < cur_g || (og.push(
                cur_g,
            )[r] == cur_g && oe.push(cur_e)[r] <= cur_e)),
{
    let og2 = og.push(cur_g);
    let os2 = os.push(cur_s);
    let oe2 = oe.push(cur_e);
    let m = og.len() as int;
    // the collected members are exactly the rows inside the run
    assert forall|x: i64| #[trigger] members.contains(x) implies run_members(
        chrs,
        starts,
        ends,
        slack,
        cur_g,
        cur_s as int,
        cur_e as int,
    ).contains(x) by {
        let t = choose|t: int|
            0 <= t < i && (#[trigger] sv[t]).idx == x && sv[t].group == cur_g && sv[t].start
                >= cur_s;
        assert(sv[t] == built_intervals(chrs, starts, ends, 0)[x as int]);
        assert(widen_start(starts[x as int] as int, 0) == starts[x as int]);
        // its span cannot sit in an earlier run, which ends before cur_s
        if exists|r: int|
            0 <= r < og.len() && (#[trigger] og[r]) == sv[t].group && os[r] <= sv[t].start
                && sv[t].end + slack <= oe[r] {
            let r = choose|r: int|
                0 <= r < og.len() && (#[trigger] og[r]) == sv[t].group && os[r] <= sv[t].start
                    && sv[t].end + slack <= oe[r];
            assert(oe[r] < cur_s);
            assert(sv[t].start <= sv[t].end + slack <= oe[r]);
            assert(false);
        }
        assert(sv[t].end + slack <= cur_e);
    }
    assert forall|x: i64| run_members(
        chrs,
        starts,
        ends,
        slack,
        cur_g,
        cur_s as int,
        cur_e as int,
    ).contains(x) implies #[trigger] members.contains(x) by {
        assert(has_row(sv, x));
        let t = choose|t: int| 0 <= t < sv.len() && (#[trigger] sv[t]).idx == x;
        assert(sv[t] == built_intervals(chrs, starts, ends, 0)[x as int]);
        assert(widen_start(starts[x as int] as int, 0) == starts[x as int]);
        if t >= i {
            assert(i < sv.len());
            assert(interval_le_gs(sv[i], sv[t]) || i == t);
            if sv[i].group == cur_g {
                assert(sv[i].start > cur_e);
                assert(sv[t].group >= sv[i].group);
                assert(sv[t].group == cur_g);
                assert(sv[t].start >= sv[i].start);
                assert(starts[x as int] > cur_e);
                assert(starts[x as int] <= ends[x as int] + slack <= cur_e);
                assert(false);
            } else {
                assert(sv[i].group > cur_g || sv[i].group < cur_g);
                let t0 = choose|t0: int|
                    0 <= t0 < i && (#[trigger] sv[t0]).group == cur_g && sv[t0].start == cur_s;
                assert(interval_le_gs(sv[t0], sv[i]));
                assert(sv[i].group > cur_g);
                assert(sv[t].group >= sv[i].group > cur_g);
                assert(false);
            }
        }
        assert(sv[t].group == cur_g && sv[t].start >= cur_s);
    }
    // ordering of the extended run columns
    assert forall|r1: int, r2: int| 0 <= r1 < r2 < og2.len() implies ((#[trigger] og2[r1]) < (
    #[trigger] og2[r2]) || (og2[r1] == og2[r2] && oe2[r1] < os2[r2])) by {
        if r2 == m {
            assert(og2[r1] == og[r1] && oe2[r1] == oe[r1]);
            assert(og[r1] < cur_g || (og[r1] == cur_g && oe[r1] < cur_s));
        } else {
            assert(og2[r1] == og[r1] && og2[r2] == og[r2]);
            assert(oe2[r1] == oe[r1] && os2[r2] == os[r2]);
        }
    }
    // coverage with the emitted run folded in
    assert forall|g: i64, p: int| #[trigger] covered_pref(sv, slack, i, g, p) implies run_covers(
        og2,
        os2,
        oe2,
        g,
        p,
    ) by {
        if run_covers(og, os, oe, g, p) {
            let r = choose|r: int| 0 <= r < og.len() && (#[trigger] og[r]) == g && os[r] <= p < oe[r];
            assert(og2[r] == g && os2[r] <= p < oe2[r]);
        } else {
            assert(cur_g == g && cur_s <= p < cur_e);
            assert(og2[m] == g && os2[m] <= p < oe2[m]);
        }
    }
    assert forall|g: i64, p: int| run_covers(og2, os2, oe2, g, p) implies
        #[trigger] covered_pref(sv, slack, i, g, p) by {
        let r = choose|r: int|
            0 <= r < og2.len() && (#[trigger] og2[r]) == g && os2[r] <= p < oe2[r];
        if r < m {
            assert(run_covers(og, os, oe, g, p));
        } else {
            assert(cur_g == g && cur_s <= p < cur_e);
        }
    }
    // containment with the emitted run folded in
    assert forall|t: int| 0 <= t < i implies exists|r: int|
        0 <= r < og2.len() && (#[trigger] og2[r]) == (#[trigger] sv[t]).group && os2[r]
            <= sv[t].start && sv[t].end + slack <= oe2[r] by {
        if exists|r: int|
            0 <= r < og.len() && (#[trigger] og[r]) == sv[t].group && os[r] <= sv[t].start
                && sv[t].end + slack <= oe[r] {
            let r = choose|r: int|
                0 <= r < og.len() && (#[trigger] og[r]) == sv[t].group && os[r] <= sv[t].start
                    && sv[t].end + slack <= oe[r];
            assert(og2[r] == sv[t].group && os2[r] <= sv[t].start && sv[t].end + slack <= oe2[r]);
        } else {
            assert(sv[t].group == cur_g && cur_s <= sv[t].start && sv[t].end + slack <= cur_e);
            assert(og2[m] == sv[t].group && os2[m] <= sv[t].start && sv[t].end + slack <= oe2[m]);
        }
    }
    assert(members =~= run_members(chrs, starts, ends, slack, cur_g, cur_s as int, cur_e as int));
    // the emitted run keeps its start witness and count
    let t0 = choose|t0: int|
        0 <= t0 < i && (#[trigger] sv[t0]).group == cur_g && sv[t0].start == cur_s;
    assert(sv[t0] == built_intervals(chrs, starts, ends, 0)[sv[t0].idx as int]);
    assert(widen_start(starts[sv[t0].idx as int] as int, 0) == starts[sv[t0].idx as int]);
    assert(sv[t0].end + slack <= cur_e) by {
        if exists|r: int|
            0 <= r < og.len() && (#[trigger] og[r]) == sv[t0].group && os[r] <= sv[t0].start
                && sv[t0].end + slack <= oe[r] {
            let r = choose|r: int|
                0 <= r < og.len() && (#[trigger] og[r]) == sv[t0].group && os[r] <= sv[t0].start
                    && sv[t0].end + slack <= oe[r];
            assert(oe[r] < cur_s);
            assert(false);
        }
    }
    assert(run_start_witness(chrs, starts, ends, slack, cur_g, cur_s as int, cur_e as int)) by {
        let a = sv[t0].idx as int;
        assert(chrs[a] == cur_g && starts[a] == cur_s && ends[a] + slack <= cur_e);
    }
    assert forall|r: int| 0 <= r < og2.len() implies run_start_witness(
        chrs,
        starts,
        ends,
        slack,
        #[trigger] og2[r],
        os2[r] as int,
        oe2[r] as int,
    ) by {
        if r < m {
            assert(run_start_witness(chrs, starts, ends, slack, og[r], os[r] as int, oe[r] as int));
        }
    }
    assert forall|r: int| 0 <= r < og2.len() implies (#[trigger] oc.push(cur_cnt)[r]) as int
        == run_members(chrs, starts, ends, slack, og2[r], os2[r] as int, oe2[r] as int).len() by {
        if r < m {
            assert(oc.push(cur_cnt)[r] == oc[r]);
            assert(og2[r] == og[r] && os2[r] == os[r] && oe2[r] == oe[r]);
        } else {
            assert(run_members(chrs, starts, ends, slack, cur_g, cur_s as int, cur_e as int)
                =~= members);
        }
    }
}

/// Opening a fresh run on the interval that did not join re-establishes
/// the loop state at `i + 1`.
proof fn lemma_merge_open(
    chrs: Seq<i64>,
    starts: Seq<i64>,
    ends: Seq<i64>,
    slack: int,
    sv: Seq<Interval>,
    i: int,
    og: Seq<i64>,
    os: Seq<i64>,
    oe: Seq<i64>,
    oc: Seq<i64>,
    oi: Seq<i64>,
    cur_g: i64,
    cur_s: i64,
    cur_e: i64,
    cur_cnt: i64,
    cur_idx: i64,
    members: Set<i64>,
)
    requires
        merge_loop_inv(
            chrs,
            starts,
            ends,
            slack,
            sv,
            i,
            og,
            os,
            oe,
            oc,
            oi,
            cur_g,
            cur_s,
            cur_e,
            cur_cnt,
            cur_idx,
            members,
        ),
        i < sv.len(),
        !(sv[i].group == cur_g && sv[i].start <= cur_e),
        forall|r: int|
            0 <= r < og.len() ==> ((#[trigger] og[r]) < cur_g || (og[r] == cur_g && oe[r] < cur_s)),
    ensures
        merge_loop_inv(
            chrs,
            starts,
            ends,
            slack,
            sv,
            i + 1,
            og.push(cur_g),
            os.push(cur_s),
            oe.push(cur_e),
            oc.push(cur_cnt),
            oi.push(cur_idx),
            sv[i].group,
            sv[i].start,
            (sv[i].end + slack) as i64,
            1,
            sv[i].idx,
            Set::<i64>::empty().insert(sv[i].idx),
        ),
{
    lemma_merge_emit(
        chrs,
        starts,
        ends,
        slack,
        sv,
        i,
        og,
        os,
        oe,
        oc,
        oi,
        cur_g,
        cur_s,
        cur_e,
        cur_cnt,
        cur_idx,
        members,
    );
    let iv = sv[i];
    let og2 = og.push(cur_g);
    let os2 = os.push(cur_s);
    let oe2 = oe.push(cur_e);
    let m = og.len() as int;
    let ng = iv.group;
    let ns = iv.start;
    let members2 = Set::<i64>::empty().insert(iv.idx);
    assert(sv[i] == built_intervals(chrs, starts, ends, 0)[iv.idx as int]);
    assert(widen_start(starts[iv.idx as int] as int, 0) == starts[iv.idx as int]);
    assert(0 <= starts[iv.idx as int]);
    assert(starts[iv.idx as int] <= ends[iv.idx as int]);
    assert(ends[iv.idx as int] <= crate::events::pos_bound());
    assert((ends[iv.idx as int] + 0) as i64 == ends[iv.idx as int]);
    assert(iv.end == ends[iv.idx as int]);
    let ne = (iv.end + slack) as i64;
    assert(ne as int == ends[iv.idx as int] + slack);
    assert(members2.len() == 1) by {
        assert(Set::<i64>::empty().len() == 0);
    }
    // the fresh run sits after every emitted run
    let t0 = choose|t0: int|
        0 <= t0 < i && (#[trigger] sv[t0]).group == cur_g && sv[t0].start == cur_s;
    assert(interval_le_gs(sv[t0], sv[i]));
    assert(ng > cur_g || (ng == cur_g && ns > cur_e));
    assert forall|r: int| 0 <= r < og2.len() implies ((#[trigger] og2[r]) < ng || (og2[r] == ng
        && oe2[r] < ns)) by {
        if r < m {
            assert(og[r] < cur_g || (og[r] == cur_g && oe[r] < cur_s));
            if og[r] == ng {
                assert(ng == cur_g);
                assert(oe[r] < cur_s <= cur_e < ns);
            }
        } else {
            assert(og2[r] == cur_g && oe2[r] == cur_e);
        }
    }
    // coverage at i + 1 around the fresh run
    assert forall|g: i64, p: int| #[trigger] covered_pref(sv, slack, i + 1, g, p) implies (
    run_covers(og2, os2, oe2, g, p) || (ng == g && ns <= p < ne)) by {
        let t = choose|t: int|
            0 <= t < i + 1 && (#[trigger] sv[t]).group == g && sv[t].start <= p < sv[t].end
                + slack;
        if t < i {
            assert(covered_pref(sv, slack, i, g, p));
        } else {
            assert(ng == g && ns <= p < ne);
        }
    }
    assert forall|g: i64, p: int|
        (run_covers(og2, os2, oe2, g, p) || (ng == g && ns <= p < ne)) implies
        #[trigger] covered_pref(sv, slack, i + 1, g, p) by {
        if run_covers(og2, os2, oe2, g, p) {
            assert(covered_pref(sv, slack, i, g, p));
            let t = choose|t: int|
                0 <= t < i && (#[trigger] sv[t]).group == g && sv[t].start <= p < sv[t].end
                    + slack;
            assert(covered_pref(sv, slack, i + 1, g, p));
        } else {
            assert(0 <= i < i + 1 && sv[i].group == g && sv[i].start <= p < sv[i].end + slack);
        }
    }
    // containment at i + 1
    assert forall|t: int| 0 <= t < i + 1 implies ((exists|r: int|
        0 <= r < og2.len() && (#[trigger] og2[r]) == (#[trigger] sv[t]).group && os2[r]
            <= sv[t].start && sv[t].end + slack <= oe2[r]) || (sv[t].group == ng && ns
        <= sv[t].start && sv[t].end + slack <= ne)) by {
        if t < i {
            assert((exists|r: int|
                0 <= r < og2.len() && (#[trigger] og2[r]) == sv[t].group && os2[r] <= sv[t].start
                    && sv[t].end + slack <= oe2[r]) || (sv[t].group == cur_g && cur_s
                <= sv[t].start && sv[t].end + slack <= cur_e));
            if sv[t].group == cur_g && cur_s <= sv[t].start && sv[t].end + slack <= cur_e {
                assert(og2[m] == sv[t].group && os2[m] <= sv[t].start && sv[t].end + slack
                    <= oe2[m]);
            }
        }
    }
    // fresh membership
    assert forall|x: i64| #[trigger] members2.contains(x) implies exists|t: int|
        0 <= t < i + 1 && (#[trigger] sv[t]).idx == x && sv[t].group == ng && sv[t].start
            >= ns by {
        assert(0 <= i < i + 1 && sv[i].idx == x && sv[i].group == ng && sv[i].start >= ns);
    }
    assert forall|x: i64|
        (exists|t: int|
            0 <= t < i + 1 && (#[trigger] sv[t]).idx == x && sv[t].group == ng && sv[t].start
                >= ns) implies #[trigger] members2.contains(x) by {
        let t = choose|t: int|
            0 <= t < i + 1 && (#[trigger] sv[t]).idx == x && sv[t].group == ng && sv[t].start
                >= ns;
        if t < i {
            assert((exists|r: int|
                0 <= r < og.len() && (#[trigger] og[r]) == sv[t].group && os[r] <= sv[t].start
                    && sv[t].end + slack <= oe[r]) || (sv[t].group == cur_g && cur_s
                <= sv[t].start && sv[t].end + slack <= cur_e));
            if sv[t].group == cur_g && cur_s <= sv[t].start && sv[t].end + slack <= cur_e {
                assert(ng == cur_g);
                assert(sv[t].start >= ns > cur_e);
                assert(sv[t].start <= sv[t].end + slack <= cur_e);
                assert(false);
            } else {
                let r = choose|r: int|
                    0 <= r < og.len() && (#[trigger] og[r]) == sv[t].group && os[r] <= sv[t].start
                        && sv[t].end + slack <= oe[r];
                assert(og[r] == ng);
                assert(og[r] < cur_g || (og[r] == cur_g && oe[r] < cur_s));
                let tw = choose|tw: int|
                    0 <= tw < i && (#[trigger] sv[tw]).group == cur_g && sv[tw].start == cur_s;
                assert(interval_le_gs(sv[tw], sv[i]));
                if og[r] < cur_g {
                    assert(ng >= cur_g);
                    assert(false);
                } else {
                    assert(ng == cur_g);
                    assert(sv[t].start >= ns > cur_e >= cur_s > oe[r] >= sv[t].end + slack
                        >= sv[t].start);
                    assert(false);
                }
            }
        }
    }
}

/// The sweep that folds one collection into its maximal runs.  Returns
/// parallel columns: group, run start, run end, member count, and the row
/// whose widened end closes the run.
pub fn merge_runs_grouped(chrs: &[i64], starts: &[i64], ends: &[i64], slack: i64) -> (res: (
    Vec<i64>,
    Vec<i64>,
    Vec<i64>,
    Vec<i64>,
    Vec<i64>,
))
    requires
        coords_ok(chrs@, starts@, ends@),
        slack_ok(slack),
        chrs@.len() < rows_bound(),
    ensures
        merge_spec(chrs@, starts@, ends@, slack as int, res.0@, res.1@, res.2@, res.4@),
        res.3@.len() == res.0@.len(),
        forall|r: int|
            0 <= r < res.0@.len() ==> (#[trigger] res.3@[r]) as int == run_members(
                chrs@,
                starts@,
                ends@,
                slack as int,
                res.0@[r],
                res.1@[r] as int,
                res.2@[r] as int,
            ).len(),
        res.0@.len() == 0 <==> chrs@.len() == 0,
        res.0@.len() <= chrs@.len(),
{
    let sorted = build_sorted_intervals(chrs, starts, ends, 0, false);
    proof {
        lemma_intervals_recovery(sorted@, chrs@, starts@, ends@, 0);
    }
    let ghost sv = sorted@;
    let n = sorted.len();
    let mut og: Vec<i64> = Vec::new();
    let mut os: Vec<i64> = Vec::new();
    let mut oe: Vec<i64> = Vec::new();
    let mut oc: Vec<i64> = Vec::new();
    let mut oi: Vec<i64> = Vec::new();
    if n == 0 {
        proof {
            assert forall|g: i64, p: int| !(#[trigger] covered(
                chrs@,
                starts@,
                ends@,
                slack as int,
                g,
                p,
            )) by {}
        }
        return (og, os, oe, oc, oi);
    }
    let first = sorted[0];
    let mut cur_g: i64 = first.group;
    let mut cur_s: i64 = first.start;
    let mut cur_e: i64 = first.end + slack;
    let mut cur_cnt: i64 = 1;
    let mut cur_idx: i64 = first.idx;
    let ghost mut members: Set<i64> = Set::<i64>::empty().insert(first.idx);
    proof {
        assert(sv[0] == built_intervals(chrs@, starts@, ends@, 0)[sv[0].idx as int]);
        assert(widen_start(starts@[sv[0].idx as int] as int, 0) == starts@[sv[0].idx as int]);
        assert(members.len() == 1) by {
            assert(Set::<i64>::empty().len() == 0);
        }
        assert forall|x: i64| #[trigger] members.contains(x) implies exists|t: int|
            0 <= t < 1 && (#[trigger] sv[t]).idx == x && sv[t].group == cur_g && sv[t].start
                >= cur_s by {
            assert(sv[0].idx == x && sv[0].group == cur_g && sv[0].start >= cur_s);
        }
        assert forall|g: i64, p: int| #[trigger] covered_pref(sv, slack as int, 1, g, p) implies (
        run_covers(og@, os@, oe@, g, p) || (cur_g == g && cur_s <= p < cur_e)) by {}
        assert(merge_loop_inv(
            chrs@,
            starts@,
            ends@,
            slack as int,
            sv,
            1,
            og@,
            os@,
            oe@,
            oc@,
            oi@,
            cur_g,
            cur_s,
            cur_e,
            cur_cnt,
            cur_idx,
            members,
        ));
    }
    let mut i: usize = 1;
    while i < n
        invariant
            slack_ok(slack),
            sv == sorted@,
            n == sv.len(),
            0 < n,
            i <= n,
            merge_loop_inv(
                chrs@,
                starts@,
                ends@,
                slack as int,
                sv,
                i as int,
                og@,
                os@,
                oe@,
                oc@,
                oi@,
                cur_g,
                cur_s,
                cur_e,
                cur_cnt,
                cur_idx,
                members,
            ),
        decreases n - i,
    {
        let iv = sorted[i];
        let we: i64 = iv.end + slack;
        proof {
            assert(sv[i as int] == built_intervals(chrs@, starts@, ends@, 0)[iv.idx as int]);
            assert(widen_start(starts@[iv.idx as int] as int, 0) == starts@[iv.idx as int]);
        }
        if iv.group == cur_g && iv.start <= cur_e {
            let ghost members_pre = members;
            let ghost ce_pre = cur_e;
            let ghost ci_pre = cur_idx;
            if we > cur_e {
                cur_e = we;
                cur_idx = iv.idx;
            }
            proof {
                members = members.insert(iv.idx);
                lemma_merge_extend(
                    chrs@,
                    starts@,
                    ends@,
                    slack as int,
                    sv,
                    i as int,
                    og@,
                    os@,
                    oe@,
                    oc@,
                    oi@,
                    cur_g,
                    cur_s,
                    ce_pre,
                    cur_cnt,
                    ci_pre,
                    members_pre,
                    cur_e,
                    cur_idx,
                );
            }
            cur_cnt = cur_cnt + 1;
        } else {
            proof {
                lemma_merge_open(
                    chrs@,
                    starts@,
                    ends@,
                    slack as int,
                    sv,
                    i as int,
                    og@,
                    os@,
                    oe@,
                    oc@,
                    oi@,
                    cur_g,
                    cur_s,
                    cur_e,
                    cur_cnt,
                    cur_idx,
                    members,
                );
                members = Set::<i64>::empty().insert(iv.idx);
            }
            og.push(cur_g);
            os.push(cur_s);
            oe.push(cur_e);
            oc.push(cur_cnt);
            oi.push(cur_idx);
            cur_g = iv.group;
            cur_s = iv.start;
            cur_e = we;
            cur_cnt = 1;
            cur_idx = iv.idx;
        }
        i += 1;
    }
    proof {
        lemma_merge_emit(
            chrs@,
            starts@,
            ends@,
            slack as int,
            sv,
            n as int,
            og@,
            os@,
            oe@,
            oc@,
            oi@,
            cur_g,
            cur_s,
            cur_e,
            cur_cnt,
            cur_idx,
            members,
        );
    }
    og.push(cur_g);
    os.push(cur_s);
    oe.push(cur_e);
    oc.push(cur_cnt);
    oi.push(cur_idx);
    proof {
        // fold the prefix facts into the row-level contract
        assert forall|g: i64, p: int| #[trigger] covered(
            chrs@,
            starts@,
            ends@,
            slack as int,
            g,
            p,
        ) implies run_covers(og@, os@, oe@, g, p) by {
            let a = choose|a: int|
                0 <= a < chrs@.len() && (#[trigger] chrs@[a]) == g && starts@[a] <= p < ends@[a]
                    + slack;
            assert(has_row(sv, a as i64));
            let t = choose|t: int| 0 <= t < sv.len() && (#[trigger] sv[t]).idx == a as i64;
            assert(sv[t] == built_intervals(chrs@, starts@, ends@, 0)[a]);
            assert(widen_start(starts@[a] as int, 0) == starts@[a]);
            assert(covered_pref(sv, slack as int, n as int, g, p));
        }
        assert forall|g: i64, p: int| run_covers(og@, os@, oe@, g, p) implies #[trigger] covered(
            chrs@,
            starts@,
            ends@,
            slack as int,
            g,
            p,
        ) by {
            assert(covered_pref(sv, slack as int, n as int, g, p));
            let t = choose|t: int|
                0 <= t < n && (#[trigger] sv[t]).group == g && sv[t].start <= p < sv[t].end
                    + slack;
            let a = sv[t].idx as int;
            assert(sv[t] == built_intervals(chrs@, starts@, ends@, 0)[a]);
            assert(widen_start(starts@[a] as int, 0) == starts@[a]);
            assert(chrs@[a] == g && starts@[a] <= p < ends@[a] + slack);
        }
        assert forall|a: int| 0 <= a < chrs@.len() implies #[trigger] row_in_run(
            chrs@,
            starts@,
            ends@,
            slack as int,
            og@,
            os@,
            oe@,
            a,
        ) by {
            assert(has_row(sv, a as i64));
            let t = choose|t: int| 0 <= t < sv.len() && (#[trigger] sv[t]).idx == a as i64;
            assert(sv[t] == built_intervals(chrs@, starts@, ends@, 0)[a]);
            assert(widen_start(starts@[a] as int, 0) == starts@[a]);
        }
    }
    (og, os, oe, oc, oi)
}

/// Two already-merged runs that both fit inside one run of a re-merge are
/// the same run: the strict gap between distinct runs would be a covered
/// position of the re-merge that nothing covers.
proof fn lemma_runs_in_run_collapse(
    og: Seq<i64>,
    os: Seq<i64>,
    oe: Seq<i64>,
    og2: Seq<i64>,
    os2: Seq<i64>,
    oe2: Seq<i64>,
    r2: int,
    a: int,
    b: int,
)
    requires
        runs_wf(og, os, oe),
        runs_cover(og, os, oe, 0, og2, os2, oe2),
        0 <= r2 < og2.len(),
        0 <= a < og.len(),
        0 <= b < og.len(),
        og[a] == og2[r2],
        og[b] == og2[r2],
        os2[r2] <= os[a] && oe[a] <= oe2[r2],
        os2[r2] <= os[b] && oe[b] <= oe2[r2],
    ensures
        a == b,
{
    if a != b {
        let lo = if a < b {
            a
        } else {
            b
        };
        let hi = if a < b {
            b
        } else {
            a
        };
        assert(og[lo] < og[hi] || (og[lo] == og[hi] && oe[lo] < os[hi]));
        let p = oe[lo] as int;
        assert(os2[r2] <= os[lo] <= oe[lo]);
        assert(p < os[hi] <= oe[hi] <= oe2[r2]);
        assert(run_covers(og2, os2, oe2, og2[r2], p)) by {
            assert(og2[r2] == og2[r2] && os2[r2] <= p < oe2[r2]);
        }
        assert(covered(og, os, oe, 0, og2[r2], p));
        let c = choose|c: int|
            0 <= c < og.len() && (#[trigger] og[c]) == og2[r2] && os[c] <= p < oe[c] + 0;
        if c < lo {
            assert(og[c] < og[lo] || (og[c] == og[lo] && oe[c] < os[lo]));
            assert(os[c] <= oe[c]);
            assert(false);
        } else if c == lo {
            assert(p < oe[lo]);
            assert(false);
        } else {
            assert(og[lo] < og[c] || (og[lo] == og[c] && oe[lo] < os[c]));
            assert(false);
        }
    }
}

/// The run columns hold the exact range `(g, s, e)`.
pub open spec fn holds_run(
    og: Seq<i64>,
    os: Seq<i64>,
    oe: Seq<i64>,
    g: i64,
    s: i64,
    e: i64,
) -> bool {
    exists|r: int| 0 <= r < og.len() && (#[trigger] og[r]) == g && os[r] == s && oe[r] == e
}

/// Two well-formed run columns that hold each other's runs are the same
/// columns: within one group runs are strictly separated, so the whole
/// decomposition is strictly ordered and determined by its set of runs.
proof fn lemma_runs_unique(
    og: Seq<i64>,
    os: Seq<i64>,
    oe: Seq<i64>,
    og2: Seq<i64>,
    os2: Seq<i64>,
    oe2: Seq<i64>,
)
    requires
        runs_wf(og, os, oe),
        runs_wf(og2, os2, oe2),
        forall|r2: int|
            0 <= r2 < og2.len() ==> #[trigger] holds_run(og, os, oe, og2[r2], os2[r2], oe2[r2]),
        forall|r: int|
            0 <= r < og.len() ==> #[trigger] holds_run(og2, os2, oe2, og[r], os[r], oe[r]),
    ensures
        og2 == og,
        os2 == os,
        oe2 == oe,
    decreases og.len(),
{
    if og.len() == 0 {
        if og2.len() > 0 {
            assert(holds_run(og, os, oe, og2[0], os2[0], oe2[0]));
            let r = choose|r: int|
                0 <= r < og.len() && (#[trigger] og[r]) == og2[0] && os[r] == os2[0] && oe[r]
                    == oe2[0];
            assert(false);
        }
        assert(og2 =~= og && os2 =~= os && oe2 =~= oe);
    } else {
        if og2.len() == 0 {
            assert(holds_run(og2, os2, oe2, og[0], os[0], oe[0]));
            let r = choose|r: int|
                0 <= r < og2.len() && (#[trigger] og2[r]) == og[0] && os2[r] == os[0] && oe2[r]
                    == oe[0];
            assert(false);
        }
        // the heads are equal: each head is somewhere in the other column,
        // and anywhere but the front would break the strict order
        assert(holds_run(og2, os2, oe2, og[0], os[0], oe[0]));
        let j = choose|j: int|
            0 <= j < og2.len() && (#[trigger] og2[j]) == og[0] && os2[j] == os[0] && oe2[j]
                == oe[0];
        assert(holds_run(og, os, oe, og2[0], os2[0], oe2[0]));
        let i = choose|i: int|
            0 <= i < og.len() && (#[trigger] og[i]) == og2[0] && os[i] == os2[0] && oe[i]
                == oe2[0];
        if j != 0 {
            assert(og2[0] < og2[j] || (og2[0] == og2[j] && oe2[0] < os2[j]));
            assert(os2[0] <= oe2[0]);
            if i != 0 {
                assert(og[0] < og[i] || (og[0] == og[i] && oe[0] < os[i]));
                assert(os[0] <= oe[0]);
                assert(false);
            } else {
                assert(false);
            }
        }
        assert(og2[0] == og[0] && os2[0] == os[0] && oe2[0] == oe[0]);
        let ogt = og.drop_first();
        let ost = os.drop_first();
        let oet = oe.drop_first();
        let ogt2 = og2.drop_first();
        let ost2 = os2.drop_first();
        let oet2 = oe2.drop_first();
        assert forall|r1: int, r2: int| 0 <= r1 < r2 < ogt.len() implies ((#[trigger] ogt[r1]) < (
        #[trigger] ogt[r2]) || (ogt[r1] == ogt[r2] && oet[r1] < ost[r2])) by {
            assert(ogt[r1] == og[r1 + 1] && ogt[r2] == og[r2 + 1]);
            assert(oet[r1] == oe[r1 + 1] && ost[r2] == os[r2 + 1]);
        }
        assert forall|r: int| 0 <= r < ogt.len() implies (#[trigger] ost[r]) <= oet[r] by {
            assert(ost[r] == os[r + 1] && oet[r] == oe[r + 1]);
        }
        assert forall|r1: int, r2: int| 0 <= r1 < r2 < ogt2.len() implies ((#[trigger] ogt2[r1])
            < (#[trigger] ogt2[r2]) || (ogt2[r1] == ogt2[r2] && oet2[r1] < ost2[r2])) by {
            assert(ogt2[r1] == og2[r1 + 1] && ogt2[r2] == og2[r2 + 1]);
            assert(oet2[r1] == oe2[r1 + 1] && ost2[r2] == os2[r2 + 1]);
        }
        assert forall|r: int| 0 <= r < ogt2.len() implies (#[trigger] ost2[r]) <= oet2[r] by {
            assert(ost2[r] == os2[r + 1] && oet2[r] == oe2[r + 1]);
        }
        assert forall|r2: int| 0 <= r2 < ogt2.len() implies #[trigger] holds_run(
            ogt,
            ost,
            oet,
            ogt2[r2],
            ost2[r2],
            oet2[r2],
        ) by {
            assert(ogt2[r2] == og2[r2 + 1] && ost2[r2] == os2[r2 + 1] && oet2[r2] == oe2[r2 + 1]);
            assert(holds_run(og, os, oe, og2[r2 + 1], os2[r2 + 1], oe2[r2 + 1]));
            let w = choose|w: int|
                0 <= w < og.len() && (#[trigger] og[w]) == og2[r2 + 1] && os[w] == os2[r2 + 1]
                    && oe[w] == oe2[r2 + 1];
            if w == 0 {
                assert(og2[0] < og2[r2 + 1] || (og2[0] == og2[r2 + 1] && oe2[0] < os2[r2 + 1]));
                assert(os2[0] <= oe2[0]);
                assert(false);
            }
            assert(ogt[w - 1] == og[w] && ost[w - 1] == os[w] && oet[w - 1] == oe[w]);
            assert(holds_run(ogt, ost, oet, ogt2[r2], ost2[r2], oet2[r2]));
        }
        assert forall|r: int| 0 <= r < ogt.len() implies #[trigger] holds_run(
            ogt2,
            ost2,
            oet2,
            ogt[r],
            ost[r],
            oet[r],
        ) by {
            assert(ogt[r] == og[r + 1] && ost[r] == os[r + 1] && oet[r] == oe[r + 1]);
            assert(holds_run(og2, os2, oe2, og[r + 1], os[r + 1], oe[r + 1]));
            let w = choose|w: int|
                0 <= w < og2.len() && (#[trigger] og2[w]) == og[r + 1] && os2[w] == os[r + 1]
                    && oe2[w] == oe[r + 1];
            if w == 0 {
                assert(og[0] < og[r + 1] || (og[0] == og[r + 1] && oe[0] < os[r + 1]));
                assert(os[0] <= oe[0]);
                assert(false);
            }
            assert(ogt2[w - 1] == og2[w] && ost2[w - 1] == os2[w] && oet2[w - 1] == oe2[w]);
            assert(holds_run(ogt2, ost2, oet2, ogt[r], ost[r], oet[r]));
        }
        lemma_runs_unique(ogt, ost, oet, ogt2, ost2, oet2);
        assert(og2 =~= og) by {
            assert forall|t: int| 0 <= t < og.len() implies og2[t] == og[t] by {
                if t > 0 {
                    assert(ogt2[t - 1] == ogt[t - 1]);
                }
            }
        }
        assert(os2 =~= os) by {
            assert forall|t: int| 0 <= t < os.len() implies os2[t] == os[t] by {
                if t > 0 {
                    assert(ost2[t - 1] == ost[t - 1]);
                }
            }
        }
        assert(oe2 =~= oe) by {
            assert forall|t: int| 0 <= t < oe.len() implies oe2[t] == oe[t] by {
                if t > 0 {
                    assert(oet2[t - 1] == oet[t - 1]);
                }
            }
        }
    }
}

/// Merging is idempotent: re-merging the merged runs (with no slack)
/// returns the very same columns — every run of the re-merge is a run of
/// the first merge and conversely, strict ordering makes the columns
/// equal, and each re-merge run absorbs exactly one row.
pub proof fn lemma_merge_idempotent(
    og: Seq<i64>,
    os: Seq<i64>,
    oe: Seq<i64>,
    og2: Seq<i64>,
    os2: Seq<i64>,
    oe2: Seq<i64>,
    oi2: Seq<i64>,
)
    requires
        runs_wf(og, os, oe),
        og.len() < 0x8000_0000_0000_0000,
        merge_spec(og, os, oe, 0, og2, os2, oe2, oi2),
    ensures
        forall|r2: int|
            0 <= r2 < og2.len() ==> #[trigger] holds_run(og, os, oe, og2[r2], os2[r2], oe2[r2]),
        forall|r: int|
            0 <= r < og.len() ==> #[trigger] holds_run(og2, os2, oe2, og[r], os[r], oe[r]),
        og2 == og,
        os2 == os,
        oe2 == oe,
        forall|r: int|
            0 <= r < og.len() ==> run_members(og, os, oe, 0, #[trigger] og[r], os[r] as int, oe[r] as int).len() == 1,
{
    assert forall|r2: int| 0 <= r2 < og2.len() implies #[trigger] holds_run(
        og,
        os,
        oe,
        og2[r2],
        os2[r2],
        oe2[r2],
    ) by {
        // the run's start witness and its closing row are the same first run
        assert(run_start_witness(og, os, oe, 0, og2[r2], os2[r2] as int, oe2[r2] as int));
        let a = choose|a: int|
            0 <= a < og.len() && (#[trigger] og[a]) == og2[r2] && os[a] == os2[r2] && oe[a] + 0
                <= oe2[r2];
        let b = oi2[r2] as int;
        assert(0 <= b < og.len() && og[b] == og2[r2] && oe[b] + 0 == oe2[r2] && os2[r2] <= os[b]);
        lemma_runs_in_run_collapse(og, os, oe, og2, os2, oe2, r2, a, b);
        assert(og[a] == og2[r2] && os[a] == os2[r2] && oe[a] == oe2[r2]);
    }
    assert forall|r: int| 0 <= r < og.len() implies #[trigger] holds_run(
        og2,
        os2,
        oe2,
        og[r],
        os[r],
        oe[r],
    ) by {
        assert(row_in_run(og, os, oe, 0, og2, os2, oe2, r));
        let r2 = choose|r2: int|
            0 <= r2 < og2.len() && (#[trigger] og2[r2]) == og[r] && os2[r2] <= os[r] && oe[r] + 0
                <= oe2[r2];
        assert(run_start_witness(og, os, oe, 0, og2[r2], os2[r2] as int, oe2[r2] as int));
        let a = choose|a: int|
            0 <= a < og.len() && (#[trigger] og[a]) == og2[r2] && os[a] == os2[r2] && oe[a] + 0
                <= oe2[r2];
        let b = oi2[r2] as int;
        assert(0 <= b < og.len() && og[b] == og2[r2] && oe[b] + 0 == oe2[r2] && os2[r2] <= os[b]);
        lemma_runs_in_run_collapse(og, os, oe, og2, os2, oe2, r2, a, b);
        lemma_runs_in_run_collapse(og, os, oe, og2, os2, oe2, r2, r, a);
        assert(og2[r2] == og[r] && os2[r2] == os[r] && oe2[r2] == oe[r]);
    }
    lemma_runs_unique(og, os, oe, og2, os2, oe2);
    assert forall|r: int| 0 <= r < og.len() implies run_members(
        og,
        os,
        oe,
        0,
        #[trigger] og[r],
        os[r] as int,
        oe[r] as int,
    ).len() == 1 by {
        let members = run_members(og, os, oe, 0, og[r], os[r] as int, oe[r] as int);
        assert(members.contains(r as i64));
        assert forall|x: i64| #[trigger] members.contains(x) implies x == r as i64 by {
            let xi = x as int;
            if xi < r {
                assert(og[xi] < og[r] || (og[xi] == og[r] && oe[xi] < os[r]));
                assert(os[xi] <= oe[xi]);
                assert(false);
            } else if xi > r {
                assert(og[r] < og[xi] || (og[r] == og[xi] && oe[r] < os[xi]));
                assert(os[xi] <= oe[xi]);
                assert(false);
            }
        }
        assert(members =~= Set::<i64>::empty().insert(r as i64));
        assert(Set::<i64>::empty().insert(r as i64).len() == 1);
    }
}

/// What the merged columns mean: some grouped run decomposition of the
/// widened input stands behind them, row ids mapped through the caller's
/// id column.
pub open spec fn merge_out_spec(
    chrs: Seq<i64>,
    starts: Seq<i64>,
    ends: Seq<i64>,
    idxs: Seq<i64>,
    slack: int,
    oidx: Seq<i64>,
    ostarts: Seq<i64>,
    oends: Seq<i64>,
    ocnts: Seq<i64>,
) -> bool {
    exists|og: Seq<i64>, oi: Seq<i64>|
        {
            &&& #[trigger] merge_spec(chrs, starts, ends, slack, og, ostarts, oends, oi)
            &&& oidx.len() == og.len()
            &&& ocnts.len() == og.len()
            &&& forall|r2: int| 0 <= r2 < og.len() ==> (#[trigger] oidx[r2]) == idxs[oi[r2] as int]
            &&& forall|r2: int|
                0 <= r2 < og.len() ==> (#[trigger] ocnts[r2]) as int == run_members(
                    chrs,
                    starts,
                    ends,
                    slack,
                    og[r2],
                    ostarts[r2] as int,
                    oends[r2] as int,
                ).len()
        }
}

/// The classic merge operation: collapse the slack-widened collection
/// into its maximal runs and report, per run, the caller's id of the row
/// that closes it, the run's bounds, and how many rows it absorbed.
pub fn sweep_line_merge(
    chrs: &[i64],
    starts: &[i64],
    ends: &[i64],
    idxs: &[i64],
    slack: i64,
) -> (res: (Vec<i64>, Vec<i64>, Vec<i64>, Vec<i64>))
    requires
        coords_ok(chrs@, starts@, ends@),
        idxs@.len() == chrs@.len(),
        slack_ok(slack),
        chrs@.len() < rows_bound(),
    ensures
        merge_out_spec(chrs@, starts@, ends@, idxs@, slack as int, res.0@, res.1@, res.2@, res.3@),
{
    let (og, os, oe, oc, oi) = merge_runs_grouped(chrs, starts, ends, slack);
    let ghost og_g = og@;
    let ghost oi_g = oi@;
    let m = oi.len();
    let mut oidx: Vec<i64> = Vec::new();
    let mut r: usize = 0;
    while r < m
        invariant
            m == oi@.len(),
            r <= m,
            idxs@.len() == chrs@.len(),
            forall|r2: int|
                0 <= r2 < m ==> 0 <= (#[trigger] oi@[r2]) < chrs@.len(),
            oidx@.len() == r as int,
            forall|r2: int| 0 <= r2 < r as int ==> (#[trigger] oidx@[r2]) == idxs@[oi@[r2] as int],
            chrs@.len() < rows_bound(),
        decreases m - r,
    {
        let row = oi[r];
        proof {
            assert(0 <= oi@[r as int] < chrs@.len());
            assert((row as usize) as int == row as int);
        }
        oidx.push(idxs[row as usize]);
        r += 1;
    }
    proof {
        assert(merge_spec(chrs@, starts@, ends@, slack as int, og_g, os@, oe@, oi_g));
        assert(oidx@.len() == og_g.len());
        assert(oc@.len() == og_g.len());
        assert forall|r2: int| 0 <= r2 < og_g.len() implies (#[trigger] oidx@[r2])
            == idxs@[oi_g[r2] as int] by {}
        assert forall|r2: int| 0 <= r2 < og_g.len() implies (#[trigger] oc@[r2]) as int
            == run_members(
            chrs@,
            starts@,
            ends@,
            slack as int,
            og_g[r2],
            os@[r2] as int,
            oe@[r2] as int,
        ).len() by {}
        assert(merge_out_spec(chrs@, starts@, ends@, idxs@, slack as int, oidx@, os@, oe@, oc@));
    }
    (oidx, os, oe, oc)
}

} // verus!
