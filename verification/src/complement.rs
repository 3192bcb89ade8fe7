//! The complement of one collection against a table of group lengths:
//! the regions of `[0, length)` that no slack-widened interval of the
//! group covers — before the first run (on request), between runs, and
//! after the last run.
//!
//! Inputs are validated first: the two table columns must align and every
//! group of the collection must be in the table, else nothing is emitted.

use vstd::prelude::*;
use crate::events::{coords_ok, rows_bound, slack_ok};
use crate::merge::{covered, merge_runs_grouped, merge_spec, row_in_run, run_covers,
    run_start_witness, runs_wf};
use crate::ruranges_structs::RangesError;

verus! {

/// The value the table assigns to `g`: the last entry wins.
pub open spec fn table_lookup(ids: Seq<i64>, vals: Seq<i64>, g: i64) -> i64
    decreases ids.len(),
{
    if ids.len() == 0 {
        0
    } else if ids.last() == g {
        vals.last()
    } else {
        table_lookup(ids.drop_last(), vals.drop_last(), g)
    }
}

pub open spec fn has_key(ids: Seq<i64>, g: i64) -> bool {
    exists|k: int| 0 <= k < ids.len() && (#[trigger] ids[k]) == g
}

/// Some row of the collection belongs to group `g`.
pub open spec fn group_present(chrs: Seq<i64>, g: i64) -> bool {
    exists|a: int| 0 <= a < chrs.len() && (#[trigger] chrs[a]) == g
}

/// The gap `(g, s, e)` stands in the output columns.
pub open spec fn gap_in(gc: Seq<i64>, gs: Seq<i64>, ge: Seq<i64>, g: i64, s: int, e: int) -> bool {
    exists|k: int|
        0 <= k < gc.len() && (#[trigger] gc[k]) == g && gs[k] == s && ge[k] == e
}

/// Position `p` of group `g` lies inside some emitted gap.
pub open spec fn gap_covers(gc: Seq<i64>, gs: Seq<i64>, ge: Seq<i64>, g: i64, p: int) -> bool {
    exists|k: int| 0 <= k < gc.len() && (#[trigger] gc[k]) == g && gs[k] <= p < ge[k]
}

/// Run `r` is the first of its group in the run columns.
pub open spec fn first_of_group(og: Seq<i64>, r: int) -> bool {
    r == 0 || og[r - 1] != og[r]
}

/// Run `r` is the last of its group in the run columns.
pub open spec fn last_of_group(og: Seq<i64>, r: int) -> bool {
    r == og.len() - 1 || og[r + 1] != og[r]
}

/// Every group of the collection has a key in the table.
pub open spec fn groups_in_table(chrs: Seq<i64>, ids: Seq<i64>) -> bool {
    forall|a: int| 0 <= a < chrs.len() ==> has_key(ids, #[trigger] chrs[a])
}

/// What the complement promises of its gaps, relative to a run
/// decomposition of the widened input.
pub open spec fn complement_gaps_spec(
    chrs: Seq<i64>,
    starts: Seq<i64>,
    ends: Seq<i64>,
    slack: int,
    len_ids: Seq<i64>,
    len_vals: Seq<i64>,
    include_first: bool,
    og: Seq<i64>,
    os: Seq<i64>,
    oe: Seq<i64>,
    gc: Seq<i64>,
    gs: Seq<i64>,
    ge: Seq<i64>,
) -> bool {
    &&& gs.len() == gc.len()
    &&& ge.len() == gc.len()
    // soundness: every gap is a nonempty uncovered stretch inside the
    // group's table length
    &&& forall|k: int|
        0 <= k < gc.len() ==> 0 <= (#[trigger] gs[k]) < ge[k] && ge[k] <= table_lookup(
            len_ids,
            len_vals,
            gc[k],
        ) && group_present(chrs, gc[k])
    &&& forall|k: int, p: int|
        0 <= k < gc.len() && gs[k] <= p < ge[k] ==> !(#[trigger] covered(
            chrs,
            starts,
            ends,
            slack,
            gc[k],
            p,
        ))
    // order: gaps follow the group order, disjoint within a group
    &&& forall|k1: int, k2: int|
        0 <= k1 < k2 < gc.len() ==> ((#[trigger] gc[k1]) < (#[trigger] gc[k2]) || (gc[k1] == gc[k2]
            && ge[k1] <= gs[k2]))
    // presence: each region the runs leave open inside the table length
    // has its gap
    &&& include_first ==> forall|r: int|
        0 <= r < og.len() && first_of_group(og, r) && 0 < os[r] && os[r] <= table_lookup(
            len_ids,
            len_vals,
            #[trigger] og[r],
        ) ==> gap_in(gc, gs, ge, og[r], 0, os[r] as int)
    &&& forall|r: int|
        0 <= r < og.len() - 1 && !last_of_group(og, r) && os[r + 1] <= table_lookup(
            len_ids,
            len_vals,
            #[trigger] og[r],
        ) ==> gap_in(gc, gs, ge, og[r], oe[r] as int, os[r + 1] as int)
    &&& forall|r: int|
        0 <= r < og.len() && last_of_group(og, r) && oe[r] < table_lookup(
            len_ids,
            len_vals,
            #[trigger] og[r],
        ) ==> gap_in(
            gc,
            gs,
            ge,
            og[r],
            oe[r] as int,
            table_lookup(len_ids, len_vals, og[r]) as int,
        )
}

/// The whole complement contract: some run decomposition stands behind
/// the gaps.
pub open spec fn complement_out_spec(
    chrs: Seq<i64>,
    starts: Seq<i64>,
    ends: Seq<i64>,
    slack: int,
    len_ids: Seq<i64>,
    len_vals: Seq<i64>,
    include_first: bool,
    gc: Seq<i64>,
    gs: Seq<i64>,
    ge: Seq<i64>,
) -> bool {
    exists|og: Seq<i64>, os: Seq<i64>, oe: Seq<i64>, oi: Seq<i64>|
        #[trigger] merge_spec(chrs, starts, ends, slack, og, os, oe, oi)
            && complement_gaps_spec(
            chrs,
            starts,
            ends,
            slack,
            len_ids,
            len_vals,
            include_first,
            og,
            os,
            oe,
            gc,
            gs,
            ge,
        )
}

/// Looks `g` up in the table; the last entry wins.
fn lookup_len(len_ids: &[i64], len_vals: &[i64], g: i64) -> (res: Option<i64>)
    requires
        len_ids@.len() == len_vals@.len(),
    ensures
        res is Some <==> has_key(len_ids@, g),
        res is Some ==> res->0 == table_lookup(len_ids@, len_vals@, g),
{
    let n = len_ids.len();
    let mut k: usize = n;
    proof {
        assert(len_ids@.take(n as int) =~= len_ids@);
        assert(len_vals@.take(n as int) =~= len_vals@);
    }
    while k > 0
        invariant
            n == len_ids@.len(),
            len_vals@.len() == n,
            k <= n,
            forall|k2: int| k as int <= k2 < n ==> (#[trigger] len_ids@[k2]) != g,
            table_lookup(len_ids@, len_vals@, g) == table_lookup(
                len_ids@.take(k as int),
                len_vals@.take(k as int),
                g,
            ),
            has_key(len_ids@, g) == has_key(len_ids@.take(k as int), g),
        decreases k,
    {
        proof {
            assert(len_ids@.take(k as int).last() == len_ids@[k as int - 1]);
            assert(len_ids@.take(k as int).drop_last() =~= len_ids@.take(k as int - 1));
            assert(len_vals@.take(k as int).drop_last() =~= len_vals@.take(k as int - 1));
        }
        if len_ids[k - 1] == g {
            proof {
                assert(len_ids@.take(k as int)[k as int - 1] == g);
                assert(has_key(len_ids@.take(k as int), g));
                assert(table_lookup(len_ids@.take(k as int), len_vals@.take(k as int), g)
                    == len_vals@[k as int - 1]);
            }
            return Some(len_vals[k - 1]);
        }
        proof {
            if has_key(len_ids@.take(k as int - 1), g) {
                let k2 = choose|k2: int|
                    0 <= k2 < k as int - 1 && (#[trigger] len_ids@.take(k as int - 1)[k2]) == g;
                assert(len_ids@.take(k as int)[k2] == g);
            }
            if has_key(len_ids@.take(k as int), g) {
                let k2 = choose|k2: int|
                    0 <= k2 < k as int && (#[trigger] len_ids@.take(k as int)[k2]) == g;
                assert(k2 < k as int - 1);
                assert(len_ids@.take(k as int - 1)[k2] == g);
            }
        }
        k -= 1;
    }
    proof {
        assert(len_ids@.take(0) =~= Seq::<i64>::empty());
        if has_key(len_ids@, g) {
            let k2 = choose|k2: int| 0 <= k2 < len_ids@.len() && (#[trigger] len_ids@[k2]) == g;
            assert(false);
        }
    }
    None
}


/// The gap columns collected so far are sound and ordered.
pub open spec fn gaps_sound(
    chrs: Seq<i64>,
    starts: Seq<i64>,
    ends: Seq<i64>,
    slack: int,
    lid: Seq<i64>,
    lval: Seq<i64>,
    gc: Seq<i64>,
    gs: Seq<i64>,
    ge: Seq<i64>,
) -> bool {
    &&& gs.len() == gc.len()
    &&& ge.len() == gc.len()
    &&& forall|k: int|
        0 <= k < gc.len() ==> 0 <= (#[trigger] gs[k]) < ge[k] && ge[k] <= table_lookup(
            lid,
            lval,
            gc[k],
        ) && group_present(chrs, gc[k])
    &&& forall|k: int, p: int|
        0 <= k < gc.len() && gs[k] <= p < ge[k] ==> !(#[trigger] covered(
            chrs,
            starts,
            ends,
            slack,
            gc[k],
            p,
        ))
    &&& forall|k1: int, k2: int|
        0 <= k1 < k2 < gc.len() ==> ((#[trigger] gc[k1]) < (#[trigger] gc[k2]) || (gc[k1] == gc[k2]
            && ge[k1] <= gs[k2]))
}

/// The gaps owed by the first `r` runs are present, and the collected
/// gaps stay behind the next run.
pub open spec fn gaps_progress(
    lid: Seq<i64>,
    lval: Seq<i64>,
    include_first: bool,
    ogv: Seq<i64>,
    osv: Seq<i64>,
    oev: Seq<i64>,
    gc: Seq<i64>,
    gs: Seq<i64>,
    ge: Seq<i64>,
    r: int,
) -> bool {
    &&& forall|k: int|
        #![trigger gc[k]]
        0 <= k < gc.len() ==> exists|rr: int| 0 <= rr < r && (#[trigger] ogv[rr]) == gc[k]
    &&& r < ogv.len() ==> forall|k: int|
        0 <= k < gc.len() ==> ((#[trigger] gc[k]) < ogv[r] || (gc[k] == ogv[r] && ge[k] <= osv[r]))
    &&& include_first ==> forall|rr: int|
        0 <= rr < r && first_of_group(ogv, rr) && 0 < osv[rr] && osv[rr] <= table_lookup(
            lid,
            lval,
            #[trigger] ogv[rr],
        ) ==> gap_in(gc, gs, ge, ogv[rr], 0, osv[rr] as int)
    &&& forall|rr: int|
        0 <= rr < r && rr < ogv.len() - 1 && !last_of_group(ogv, rr) && osv[rr + 1]
            <= table_lookup(lid, lval, #[trigger] ogv[rr]) ==> gap_in(
            gc,
            gs,
            ge,
            ogv[rr],
            oev[rr] as int,
            osv[rr + 1] as int,
        )
    &&& forall|rr: int|
        0 <= rr < r && last_of_group(ogv, rr) && oev[rr] < table_lookup(
            lid,
            lval,
            #[trigger] ogv[rr],
        ) ==> gap_in(
            gc,
            gs,
            ge,
            ogv[rr],
            oev[rr] as int,
            table_lookup(lid, lval, ogv[rr]) as int,
        )
}

/// Positions below the first run of a group are uncovered.
proof fn lemma_uncovered_leading(
    chrs: Seq<i64>,
    starts: Seq<i64>,
    ends: Seq<i64>,
    slack: int,
    og: Seq<i64>,
    os: Seq<i64>,
    oe: Seq<i64>,
    r: int,
)
    requires
        runs_wf(og, os, oe),
        crate::merge::runs_cover(chrs, starts, ends, slack, og, os, oe),
        0 <= r < og.len(),
        first_of_group(og, r),
    ensures
        forall|p: int| 0 <= p < os[r] ==> !covered(chrs, starts, ends, slack, og[r], p),
{
    assert forall|p: int| 0 <= p < os[r] implies !covered(chrs, starts, ends, slack, og[r], p) by {
        if covered(chrs, starts, ends, slack, og[r], p) {
            assert(run_covers(og, os, oe, og[r], p));
            let rc = choose|rc: int|
                0 <= rc < og.len() && (#[trigger] og[rc]) == og[r] && os[rc] <= p < oe[rc];
            if rc < r {
                assert(og[rc] < og[r] || (og[rc] == og[r] && oe[rc] < os[r]));
                if rc < r - 1 {
                    assert(og[rc] < og[r - 1] || og[rc] == og[r - 1]);
                    assert(og[r - 1] < og[r] || og[r - 1] == og[r]);
                }
                assert(og[r - 1] == og[r] || oe[rc] < os[r]);
                assert(oe[rc] < os[r]);
                assert(os[rc] <= oe[rc]);
                assert(p < oe[rc] <= os[r]);
                assert(os[rc] <= p);
                assert(false);
            } else if rc == r {
                assert(os[r] <= p);
                assert(false);
            } else {
                assert(og[r] < og[rc] || (og[r] == og[rc] && oe[r] < os[rc]));
                assert(os[r] <= oe[r] < os[rc] <= p);
                assert(false);
            }
        }
    }
}

/// Positions between a run's end and the next same-group run's start are
/// uncovered; so are positions past the last run of a group.
proof fn lemma_uncovered_after(
    chrs: Seq<i64>,
    starts: Seq<i64>,
    ends: Seq<i64>,
    slack: int,
    og: Seq<i64>,
    os: Seq<i64>,
    oe: Seq<i64>,
    r: int,
    hi: int,
)
    requires
        runs_wf(og, os, oe),
        crate::merge::runs_cover(chrs, starts, ends, slack, og, os, oe),
        0 <= r < og.len(),
        !last_of_group(og, r) ==> hi <= os[r + 1],
    ensures
        forall|p: int|
            oe[r] <= p < hi ==> !covered(chrs, starts, ends, slack, og[r], p),
{
    assert forall|p: int| oe[r] <= p < hi implies !covered(chrs, starts, ends, slack, og[r], p) by {
        if covered(chrs, starts, ends, slack, og[r], p) {
            assert(run_covers(og, os, oe, og[r], p));
            let rc = choose|rc: int|
                0 <= rc < og.len() && (#[trigger] og[rc]) == og[r] && os[rc] <= p < oe[rc];
            if rc < r {
                assert(oe[rc] < os[r] <= oe[r] <= p);
                assert(false);
            } else if rc == r {
                assert(p < oe[r]);
                assert(false);
            } else {
                if last_of_group(og, r) {
                    if r + 1 < og.len() {
                        assert(og[r] < og[r + 1] || (og[r] == og[r + 1] && oe[r] < os[r + 1]));
                        assert(og[r + 1] != og[r]);
                        assert(og[r] < og[r + 1]);
                        if rc > r + 1 {
                            assert(og[r + 1] < og[rc] || og[r + 1] == og[rc]);
                        }
                        assert(og[rc] >= og[r + 1] > og[r]);
                        assert(false);
                    } else {
                        assert(false);
                    }
                } else {
                    if rc > r + 1 {
                        assert(og[r + 1] < og[rc] || (og[r + 1] == og[rc] && oe[r + 1] < os[rc]));
                        assert(os[r + 1] <= oe[r + 1] < os[rc] || og[r + 1] < og[rc]);
                        if og[r + 1] < og[rc] {
                            assert(og[r + 1] != og[r]);
                            assert(og[r] < og[r + 1] || og[r] == og[r + 1]);
                            assert(false);
                        }
                        assert(os[r + 1] <= os[rc] || os[r + 1] <= oe[r + 1]);
                        assert(os[rc] > oe[r + 1] >= os[r + 1]);
                    }
                    assert(os[rc] >= os[r + 1] >= hi > p);
                    assert(false);
                }
            }
        }
    }
}

/// Appending sound, ordered gap rows keeps the gap columns sound.
proof fn lemma_gaps_sound_append(
    chrs: Seq<i64>,
    starts: Seq<i64>,
    ends: Seq<i64>,
    slack: int,
    lid: Seq<i64>,
    lval: Seq<i64>,
    gc_pre: Seq<i64>,
    gs_pre: Seq<i64>,
    ge_pre: Seq<i64>,
    gc: Seq<i64>,
    gs: Seq<i64>,
    ge: Seq<i64>,
)
    requires
        gaps_sound(chrs, starts, ends, slack, lid, lval, gc_pre, gs_pre, ge_pre),
        gs.len() == gc.len(),
        ge.len() == gc.len(),
        gc_pre.len() <= gc.len(),
        forall|k: int| 0 <= k < gc_pre.len() ==> (#[trigger] gc[k]) == gc_pre[k],
        forall|k: int| 0 <= k < gc_pre.len() ==> (#[trigger] gs[k]) == gs_pre[k],
        forall|k: int| 0 <= k < gc_pre.len() ==> (#[trigger] ge[k]) == ge_pre[k],
        forall|k: int|
            gc_pre.len() <= k < gc.len() ==> 0 <= (#[trigger] gs[k]) < ge[k] && ge[k]
                <= table_lookup(lid, lval, gc[k]) && group_present(chrs, gc[k]),
        forall|k: int, p: int|
            gc_pre.len() <= k < gc.len() && gs[k] <= p < ge[k] ==> !(#[trigger] covered(
                chrs,
                starts,
                ends,
                slack,
                gc[k],
                p,
            )),
        forall|k1: int, k2: int|
            0 <= k1 < gc_pre.len() <= k2 < gc.len() ==> ((#[trigger] gc[k1]) < (#[trigger] gc[k2])
                || (gc[k1] == gc[k2] && ge[k1] <= gs[k2])),
        forall|k1: int, k2: int|
            gc_pre.len() <= k1 < k2 < gc.len() ==> ((#[trigger] gc[k1]) < (#[trigger] gc[k2]) || (
            gc[k1] == gc[k2] && ge[k1] <= gs[k2])),
    ensures
        gaps_sound(chrs, starts, ends, slack, lid, lval, gc, gs, ge),
{
    assert forall|k1: int, k2: int| 0 <= k1 < k2 < gc.len() implies ((#[trigger] gc[k1]) < (
    #[trigger] gc[k2]) || (gc[k1] == gc[k2] && ge[k1] <= gs[k2])) by {
        if k2 < gc_pre.len() {
            assert(gc_pre[k1] < gc_pre[k2] || (gc_pre[k1] == gc_pre[k2] && ge_pre[k1]
                <= gs_pre[k2]));
        }
    }
}

/// Emits the gaps owed by run `r`: the leading gap when it opens a new
/// group, and the gap that follows it (to the next same-group run, or to
/// the group's table length).
#[verifier::rlimit(100)]
fn emit_gaps_for_run(
    gc: &mut Vec<i64>,
    gs: &mut Vec<i64>,
    ge: &mut Vec<i64>,
    gi: &mut Vec<i64>,
    og: &Vec<i64>,
    os: &Vec<i64>,
    oe: &Vec<i64>,
    r: usize,
    l: i64,
    include_first: bool,
    Ghost(chrs): Ghost<Seq<i64>>,
    Ghost(starts): Ghost<Seq<i64>>,
    Ghost(ends): Ghost<Seq<i64>>,
    Ghost(slack): Ghost<int>,
    Ghost(lid): Ghost<Seq<i64>>,
    Ghost(lval): Ghost<Seq<i64>>,
)
    requires
        runs_wf(og@, os@, oe@),
        crate::merge::runs_cover(chrs, starts, ends, slack, og@, os@, oe@),
        (r as int) < og@.len(),
        l == table_lookup(lid, lval, og@[r as int]),
        group_present(chrs, og@[r as int]),
        0 <= os@[r as int],
        gaps_sound(chrs, starts, ends, slack, lid, lval, old(gc)@, old(gs)@, old(ge)@),
        gaps_progress(lid, lval, include_first, og@, os@, oe@, old(gc)@, old(gs)@, old(ge)@, r as int),
        old(gi)@.len() == old(gc)@.len(),
        forall|k: int| 0 <= k < old(gi)@.len() ==> (#[trigger] old(gi)@[k]) == k as i64,
        old(gc)@.len() < 0x4000_0000_0000_0000,
    ensures
        gaps_sound(chrs, starts, ends, slack, lid, lval, final(gc)@, final(gs)@, final(ge)@),
        gaps_progress(
            lid,
            lval,
            include_first,
            og@,
            os@,
            oe@,
            final(gc)@,
            final(gs)@,
            final(ge)@,
            r as int + 1,
        ),
        final(gi)@.len() == final(gc)@.len(),
        forall|k: int| 0 <= k < final(gi)@.len() ==> (#[trigger] final(gi)@[k]) == k as i64,
        final(gc)@.len() <= old(gc)@.len() + 2,
{
    let ghost ogv = og@;
    let ghost osv = os@;
    let ghost oev = oe@;
    let m2 = og.len();
    let g = og[r];
    let ghost gc_pre = gc@;
    let ghost gs_pre = gs@;
    let ghost ge_pre = ge@;
    if include_first && (r == 0 || og[r - 1] != g) && 0 < os[r] && os[r] <= l {
        proof {
            lemma_uncovered_leading(chrs, starts, ends, slack, ogv, osv, oev, r as int);
            assert forall|k: int| 0 <= k < gc@.len() implies (#[trigger] gc@[k]) < g by {
                let rr = choose|rr: int| 0 <= rr < r as int && (#[trigger] ogv[rr]) == gc@[k];
                if gc@[k] == g {
                    if rr < r as int - 1 {
                        assert(ogv[rr] < ogv[r as int - 1] || ogv[rr] == ogv[r as int - 1]);
                    }
                    assert(ogv[r as int - 1] < ogv[r as int] || ogv[r as int - 1] == ogv[r as int]);
                    assert(false);
                }
            }
        }
        gc.push(g);
        gs.push(0);
        ge.push(os[r]);
        gi.push(gi.len() as i64);
    }
    let ghost gc_mid = gc@;
    let between = r + 1 < m2 && og[r + 1] == g;
    if between {
        if os[r + 1] <= l {
            proof {
                lemma_uncovered_after(
                    chrs,
                    starts,
                    ends,
                    slack,
                    ogv,
                    osv,
                    oev,
                    r as int,
                    osv[r as int + 1] as int,
                );
                assert(oev[r as int] < osv[r as int + 1]);
            }
            gc.push(g);
            gs.push(oe[r]);
            ge.push(os[r + 1]);
            gi.push(gi.len() as i64);
        }
    } else {
        if oe[r] < l {
            proof {
                lemma_uncovered_after(
                    chrs,
                    starts,
                    ends,
                    slack,
                    ogv,
                    osv,
                    oev,
                    r as int,
                    table_lookup(lid, lval, g) as int,
                );
            }
            gc.push(g);
            gs.push(oe[r]);
            ge.push(l);
            gi.push(gi.len() as i64);
        }
    }
    proof {
        assert forall|k1: int, k2: int|
            0 <= k1 < gc_pre.len() <= k2 < gc@.len() implies ((#[trigger] gc@[k1]) < (
        #[trigger] gc@[k2]) || (gc@[k1] == gc@[k2] && ge@[k1] <= gs@[k2])) by {
            assert(gc@[k2] == g);
            if gc_pre[k1] == g {
                assert(ge_pre[k1] <= osv[r as int]);
                assert(gs@[k2] == 0 ==> k2 == gc_pre.len() && gc_mid.len() == gc_pre.len() + 1);
                if k2 == gc_pre.len() as int && gc_mid.len() == gc_pre.len() + 1 {
                    assert(false);
                } else {
                    assert(gs@[k2] == oev[r as int]);
                    assert(osv[r as int] <= oev[r as int]);
                }
            }
        }
        lemma_gaps_sound_append(
            chrs,
            starts,
            ends,
            slack,
            lid,
            lval,
            gc_pre,
            gs_pre,
            ge_pre,
            gc@,
            gs@,
            ge@,
        );
        lemma_gaps_progress_step(
            chrs,
            starts,
            ends,
            slack,
            lid,
            lval,
            include_first,
            ogv,
            osv,
            oev,
            r as int,
            gc_pre,
            gs_pre,
            ge_pre,
            gc_mid,
            gc@,
            gs@,
            ge@,
        );
    }
}

/// After run `r`'s gaps were appended, the progress facts hold at `r + 1`.
proof fn lemma_gaps_progress_step(
    chrs: Seq<i64>,
    starts: Seq<i64>,
    ends: Seq<i64>,
    slack: int,
    lid: Seq<i64>,
    lval: Seq<i64>,
    include_first: bool,
    ogv: Seq<i64>,
    osv: Seq<i64>,
    oev: Seq<i64>,
    r: int,
    gc_pre: Seq<i64>,
    gs_pre: Seq<i64>,
    ge_pre: Seq<i64>,
    gc_mid: Seq<i64>,
    gc: Seq<i64>,
    gs: Seq<i64>,
    ge: Seq<i64>,
)
    requires
        runs_wf(ogv, osv, oev),
        0 <= r < ogv.len(),
        gaps_progress(lid, lval, include_first, ogv, osv, oev, gc_pre, gs_pre, ge_pre, r),
        gs.len() == gc.len(),
        ge.len() == gc.len(),
        gs_pre.len() == gc_pre.len(),
        ge_pre.len() == gc_pre.len(),
        // the prefix is unchanged
        gc_pre.len() <= gc.len(),
        forall|k: int| 0 <= k < gc_pre.len() ==> (#[trigger] gc[k]) == gc_pre[k],
        forall|k: int| 0 <= k < gc_pre.len() ==> (#[trigger] gs[k]) == gs_pre[k],
        forall|k: int| 0 <= k < gc_pre.len() ==> (#[trigger] ge[k]) == ge_pre[k],
        // what was pushed
        gc_pre.len() <= gc_mid.len() <= gc.len(),
        gc.len() <= gc_mid.len() + 1,
        gc_mid.len() <= gc_pre.len() + 1,
        // leading gap
        include_first && first_of_group(ogv, r) && 0 < osv[r] && osv[r] <= table_lookup(
            lid,
            lval,
            ogv[r],
        ) ==> gc_mid.len() == gc_pre.len() + 1 && gc[gc_pre.len() as int] == ogv[r]
            && gs[gc_pre.len() as int] == 0 && ge[gc_pre.len() as int] as int == osv[r] as int,
        // following gap
        !last_of_group(ogv, r) && osv[r + 1] <= table_lookup(lid, lval, ogv[r]) ==> gc.len()
            == gc_mid.len() + 1 && gc[gc_mid.len() as int] == ogv[r] && gs[gc_mid.len() as int]
            as int == oev[r] as int && ge[gc_mid.len() as int] as int == osv[r + 1] as int,
        last_of_group(ogv, r) && oev[r] < table_lookup(lid, lval, ogv[r]) ==> gc.len()
            == gc_mid.len() + 1 && gc[gc_mid.len() as int] == ogv[r] && gs[gc_mid.len() as int]
            as int == oev[r] as int && ge[gc_mid.len() as int] as int == table_lookup(
            lid,
            lval,
            ogv[r],
        ) as int,
        // all new entries carry the run's group and stay behind the run's end
        forall|k: int|
            gc_pre.len() <= k < gc.len() ==> (#[trigger] gc[k]) == ogv[r],
        forall|k: int|
            gc_pre.len() <= k < gc.len() ==> (#[trigger] ge[k]) as int <= oev[r] as int
                || !last_of_group(ogv, r) && ge[k] as int <= osv[r + 1] as int || last_of_group(
                ogv,
                r,
            ),
    ensures
        gaps_progress(lid, lval, include_first, ogv, osv, oev, gc, gs, ge, r + 1),
{
    assert forall|k: int| #![trigger gc[k]] 0 <= k < gc.len() implies exists|rr: int|
        0 <= rr < r + 1 && (#[trigger] ogv[rr]) == gc[k] by {
        if k < gc_pre.len() {
            let rr = choose|rr: int| 0 <= rr < r && (#[trigger] ogv[rr]) == gc_pre[k];
            assert(0 <= rr < r + 1 && ogv[rr] == gc[k]);
        } else {
            assert(ogv[r] == gc[k]);
        }
    }
    if r + 1 < ogv.len() {
        assert forall|k: int| 0 <= k < gc.len() implies ((#[trigger] gc[k]) < ogv[r + 1] || (gc[k]
            == ogv[r + 1] && ge[k] <= osv[r + 1])) by {
            assert(ogv[r] < ogv[r + 1] || (ogv[r] == ogv[r + 1] && oev[r] < osv[r + 1]));
            if k < gc_pre.len() {
                assert(gc[k] < ogv[r] || (gc[k] == ogv[r] && ge[k] <= osv[r]));
                assert(osv[r] <= oev[r]);
            } else {
                assert(gc[k] == ogv[r]);
                if ogv[r] == ogv[r + 1] {
                    assert(!last_of_group(ogv, r));
                    assert(ge[k] as int <= osv[r + 1] as int || ge[k] as int <= oev[r] as int);
                }
            }
        }
    }
    assert forall|rr: int|
        include_first && 0 <= rr < r + 1 && first_of_group(ogv, rr) && 0 < osv[rr] && osv[rr]
            <= table_lookup(lid, lval, #[trigger] ogv[rr]) implies gap_in(
        gc,
        gs,
        ge,
        ogv[rr],
        0,
        osv[rr] as int,
    ) by {
        if rr < r {
            let k = choose|k: int|
                0 <= k < gc_pre.len() && (#[trigger] gc_pre[k]) == ogv[rr] && gs_pre[k] == 0
                    && ge_pre[k] == osv[rr] as int;
            assert(gc[k] == ogv[rr] && gs[k] == 0 && ge[k] == osv[rr] as int);
        } else {
            let k = gc_pre.len() as int;
            assert(gc[k] == ogv[rr] && gs[k] == 0 && ge[k] == osv[rr] as int);
        }
    }
    assert forall|rr: int|
        0 <= rr < r + 1 && rr < ogv.len() - 1 && !last_of_group(ogv, rr) && osv[rr + 1]
            <= table_lookup(lid, lval, #[trigger] ogv[rr]) implies gap_in(
        gc,
        gs,
        ge,
        ogv[rr],
        oev[rr] as int,
        osv[rr + 1] as int,
    ) by {
        if rr < r {
            let k = choose|k: int|
                0 <= k < gc_pre.len() && (#[trigger] gc_pre[k]) == ogv[rr] && gs_pre[k]
                    == oev[rr] as int && ge_pre[k] == osv[rr + 1] as int;
            assert(gc[k] == ogv[rr] && gs[k] == oev[rr] as int && ge[k] == osv[rr + 1] as int);
        } else {
            let k = gc_mid.len() as int;
            assert(gc[k] == ogv[rr] && gs[k] == oev[rr] as int && ge[k] == osv[rr + 1] as int);
        }
    }
    assert forall|rr: int|
        0 <= rr < r + 1 && last_of_group(ogv, rr) && oev[rr] < table_lookup(
            lid,
            lval,
            #[trigger] ogv[rr],
        ) implies gap_in(
        gc,
        gs,
        ge,
        ogv[rr],
        oev[rr] as int,
        table_lookup(lid, lval, ogv[rr]) as int,
    ) by {
        if rr < r {
            let k = choose|k: int|
                0 <= k < gc_pre.len() && (#[trigger] gc_pre[k]) == ogv[rr] && gs_pre[k]
                    == oev[rr] as int && ge_pre[k] == table_lookup(lid, lval, ogv[rr]) as int;
            assert(gc[k] == ogv[rr] && gs[k] == oev[rr] as int && ge[k] == table_lookup(
                lid,
                lval,
                ogv[rr],
            ) as int);
        } else {
            let k = gc_mid.len() as int;
            assert(gc[k] == ogv[rr] && gs[k] == oev[rr] as int && ge[k] == table_lookup(
                lid,
                lval,
                ogv[rr],
            ) as int);
        }
    }
}

/// Some run of group `g` opens the group's block.
proof fn lemma_first_run(og: Seq<i64>, os: Seq<i64>, oe: Seq<i64>, g: i64, rc: int)
    requires
        runs_wf(og, os, oe),
        0 <= rc < og.len(),
        og[rc] == g,
    ensures
        exists|r0: int|
            0 <= r0 <= rc && (#[trigger] og[r0]) == g && first_of_group(og, r0) && os[r0]
                <= os[rc],
    decreases rc,
{
    if rc == 0 || og[rc - 1] != og[rc] {
        assert(0 <= rc <= rc && og[rc] == g && first_of_group(og, rc) && os[rc] <= os[rc]);
    } else {
        lemma_first_run(og, os, oe, g, rc - 1);
        let r0 = choose|r0: int|
            0 <= r0 <= rc - 1 && (#[trigger] og[r0]) == g && first_of_group(og, r0) && os[r0]
                <= os[rc - 1];
        assert(og[rc - 1] < og[rc] || (og[rc - 1] == og[rc] && oe[rc - 1] < os[rc]));
        assert(os[rc - 1] <= oe[rc - 1]);
        assert(os[r0] <= os[rc]);
    }
}

/// The last run of group `g` that starts at or before `p`.
proof fn lemma_max_run(og: Seq<i64>, os: Seq<i64>, oe: Seq<i64>, g: i64, p: int, r: int)
    requires
        runs_wf(og, os, oe),
        0 <= r < og.len(),
        og[r] == g,
        os[r] <= p,
    ensures
        exists|rs: int|
            r <= rs < og.len() && (#[trigger] og[rs]) == g && os[rs] <= p && (forall|r2: int|
                rs < r2 < og.len() && (#[trigger] og[r2]) == g ==> os[r2] > p),
    decreases og.len() - r,
{
    if exists|r2: int| r < r2 < og.len() && (#[trigger] og[r2]) == g && os[r2] <= p {
        let r2 = choose|r2: int| r < r2 < og.len() && (#[trigger] og[r2]) == g && os[r2] <= p;
        lemma_max_run(og, os, oe, g, p, r2);
        let rs = choose|rs: int|
            r2 <= rs < og.len() && (#[trigger] og[rs]) == g && os[rs] <= p && (forall|r3: int|
                rs < r3 < og.len() && (#[trigger] og[r3]) == g ==> os[r3] > p);
        assert(r <= rs < og.len() && og[rs] == g && os[rs] <= p && (forall|r3: int|
            rs < r3 < og.len() && (#[trigger] og[r3]) == g ==> os[r3] > p));
    } else {
        assert(r <= r < og.len() && og[r] == g && os[r] <= p && (forall|r3: int|
            r < r3 < og.len() && (#[trigger] og[r3]) == g ==> os[r3] > p));
    }
}

/// With `include_first_interval` set and every widened row of group `g`
/// inside the group's table length, the merged runs and the emitted gaps
/// together tile `[0, length)`: every position lies in a run or in a gap,
/// never in both.
pub proof fn lemma_complement_tiling(
    chrs: Seq<i64>,
    starts: Seq<i64>,
    ends: Seq<i64>,
    slack: int,
    lid: Seq<i64>,
    lval: Seq<i64>,
    og: Seq<i64>,
    os: Seq<i64>,
    oe: Seq<i64>,
    oi: Seq<i64>,
    gc: Seq<i64>,
    gs: Seq<i64>,
    ge: Seq<i64>,
    g: i64,
    p: int,
)
    requires
        merge_spec(chrs, starts, ends, slack, og, os, oe, oi),
        complement_gaps_spec(
            chrs,
            starts,
            ends,
            slack,
            lid,
            lval,
            true,
            og,
            os,
            oe,
            gc,
            gs,
            ge,
        ),
        group_present(chrs, g),
        forall|a: int|
            0 <= a < chrs.len() && (#[trigger] chrs[a]) == g ==> 0 <= starts[a] && ends[a] + slack
                <= table_lookup(lid, lval, g),
        0 <= p < table_lookup(lid, lval, g),
    ensures
        covered(chrs, starts, ends, slack, g, p) <==> !gap_covers(gc, gs, ge, g, p),
{
    let ll = table_lookup(lid, lval, g) as int;
    if covered(chrs, starts, ends, slack, g, p) {
        if gap_covers(gc, gs, ge, g, p) {
            let kx = choose|kx: int|
                0 <= kx < gc.len() && (#[trigger] gc[kx]) == g && gs[kx] <= p < ge[kx];
            assert(!covered(chrs, starts, ends, slack, gc[kx], p));
            assert(false);
        }
    } else {
        // find the group's runs
        let aw = choose|aw: int| 0 <= aw < chrs.len() && (#[trigger] chrs[aw]) == g;
        assert(row_in_run(chrs, starts, ends, slack, og, os, oe, aw));
        let rc = choose|rc: int|
            0 <= rc < og.len() && (#[trigger] og[rc]) == chrs[aw] && os[rc] <= starts[aw]
                && ends[aw] + slack <= oe[rc];
        lemma_first_run(og, os, oe, g, rc);
        let r0 = choose|r0: int|
            0 <= r0 <= rc && (#[trigger] og[r0]) == g && first_of_group(og, r0) && os[r0]
                <= os[rc];
        // run bounds sit inside the table length, via their witness rows
        assert forall|r: int| 0 <= r < og.len() && (#[trigger] og[r]) == g implies 0 <= os[r]
            && oe[r] <= ll by {
            assert(run_start_witness(chrs, starts, ends, slack, og[r], os[r] as int, oe[r] as int));
            let a2 = choose|a2: int|
                0 <= a2 < chrs.len() && (#[trigger] chrs[a2]) == og[r] && starts[a2] == os[r]
                    && ends[a2] + slack <= oe[r];
            assert(0 <= oi[r] < chrs.len() && chrs[oi[r] as int] == og[r] && ends[oi[r] as int]
                + slack == oe[r]);
        }
        if p < os[r0] {
            assert(0 < os[r0] && os[r0] <= ll);
            assert(gap_in(gc, gs, ge, og[r0], 0, os[r0] as int));
            let kx = choose|kx: int|
                0 <= kx < gc.len() && (#[trigger] gc[kx]) == og[r0] && gs[kx] == 0 && ge[kx]
                    == os[r0] as int;
            assert(gs[kx] <= p < ge[kx]);
            assert(gap_covers(gc, gs, ge, g, p));
        } else {
            lemma_max_run(og, os, oe, g, p, r0);
            let rs = choose|rs: int|
                r0 <= rs < og.len() && (#[trigger] og[rs]) == g && os[rs] <= p && (forall|r2: int|
                    rs < r2 < og.len() && (#[trigger] og[r2]) == g ==> os[r2] > p);
            assert(p >= oe[rs]) by {
                if p < oe[rs] {
                    assert(run_covers(og, os, oe, g, p));
                    assert(covered(chrs, starts, ends, slack, g, p));
                }
            }
            if last_of_group(og, rs) {
                assert(oe[rs] <= p < ll);
                assert(gap_in(gc, gs, ge, og[rs], oe[rs] as int, ll));
                let kx = choose|kx: int|
                    0 <= kx < gc.len() && (#[trigger] gc[kx]) == og[rs] && gs[kx] == oe[rs] as int
                        && ge[kx] == ll;
                assert(gs[kx] <= p < ge[kx]);
                assert(gap_covers(gc, gs, ge, g, p));
            } else {
                assert(og[rs + 1] == og[rs]) by {
                    assert(rs < og.len() - 1);
                }
                assert(os[rs + 1] > p);
                assert(os[rs + 1] <= ll);
                assert(gap_in(gc, gs, ge, og[rs], oe[rs] as int, os[rs + 1] as int));
                let kx = choose|kx: int|
                    0 <= kx < gc.len() && (#[trigger] gc[kx]) == og[rs] && gs[kx] == oe[rs] as int
                        && ge[kx] == os[rs + 1] as int;
                assert(gs[kx] <= p < ge[kx]);
                assert(gap_covers(gc, gs, ge, g, p));
            }
        }
    }
}

/// The complement operation: validates the length table, merges the
/// collection into runs, and emits every stretch of `[0, length)` the
/// runs leave open — before the group's first run when
/// `include_first_interval` is set, between runs, and after the last run.
/// Returns `(group, gap_start, gap_end, gap_number)` columns.
pub fn sweep_line_complement(
    chrs: &[i64],
    starts: &[i64],
    ends: &[i64],
    slack: i64,
    chrom_len_ids: &[i64],
    chrom_lens: &[i64],
    include_first_interval: bool,
) -> (res: Result<(Vec<i64>, Vec<i64>, Vec<i64>, Vec<i64>), RangesError>)
    requires
        coords_ok(chrs@, starts@, ends@),
        slack_ok(slack),
        chrs@.len() < rows_bound(),
        chrom_len_ids@.len() < rows_bound(),
    ensures
        chrom_len_ids@.len() != chrom_lens@.len() ==> res == Result::<
            (Vec<i64>, Vec<i64>, Vec<i64>, Vec<i64>),
            RangesError,
        >::Err(RangesError::LengthMismatch),
        chrom_len_ids@.len() == chrom_lens@.len() && !groups_in_table(chrs@, chrom_len_ids@)
            ==> res == Result::<(Vec<i64>, Vec<i64>, Vec<i64>, Vec<i64>), RangesError>::Err(
            RangesError::UnknownGroup,
        ),
        chrom_len_ids@.len() == chrom_lens@.len() && groups_in_table(chrs@, chrom_len_ids@) ==> res
            is Ok,
        res is Ok ==> ({
            let (gc, gs, ge, gi) = res->Ok_0;
            &&& complement_out_spec(
                chrs@,
                starts@,
                ends@,
                slack as int,
                chrom_len_ids@,
                chrom_lens@,
                include_first_interval,
                gc@,
                gs@,
                ge@,
            )
            &&& gi@.len() == gc@.len()
            &&& forall|k: int| 0 <= k < gi@.len() ==> (#[trigger] gi@[k]) == k as i64
        }),
{
    if chrom_len_ids.len() != chrom_lens.len() {
        return Err(RangesError::LengthMismatch);
    }
    // validate that every group is in the table
    let n = chrs.len();
    let mut a: usize = 0;
    while a < n
        invariant
            n == chrs@.len(),
            chrom_len_ids@.len() == chrom_lens@.len(),
            a <= n,
            forall|a2: int| 0 <= a2 < a as int ==> has_key(chrom_len_ids@, #[trigger] chrs@[a2]),
        decreases n - a,
    {
        if lookup_len(chrom_len_ids, chrom_lens, chrs[a]).is_none() {
            return Err(RangesError::UnknownGroup);
        }
        a += 1;
    }
    let (og, os, oe, _oc, oi) = merge_runs_grouped(chrs, starts, ends, slack);
    let ghost ogv = og@;
    let ghost osv = os@;
    let ghost oev = oe@;
    let m = og.len();
    let mut gc: Vec<i64> = Vec::new();
    let mut gs: Vec<i64> = Vec::new();
    let mut ge: Vec<i64> = Vec::new();
    let mut gi: Vec<i64> = Vec::new();
    let ghost lid = chrom_len_ids@;
    let ghost lval = chrom_lens@;
    let mut r: usize = 0;
    while r < m
        invariant
            coords_ok(chrs@, starts@, ends@),
            slack_ok(slack),
            chrs@.len() < rows_bound(),
            lid == chrom_len_ids@,
            lval == chrom_lens@,
            lid.len() == lval.len(),
            groups_in_table(chrs@, lid),
            ogv == og@,
            osv == os@,
            oev == oe@,
            m == ogv.len(),
            m <= chrs@.len(),
            osv.len() == m,
            oev.len() == m,
            runs_wf(ogv, osv, oev),
            crate::merge::runs_cover(chrs@, starts@, ends@, slack as int, ogv, osv, oev),
            crate::merge::runs_witnessed(chrs@, starts@, ends@, slack as int, ogv, osv, oev, oi@),
            oi@.len() == m,
            r <= m,
            gc@.len() <= 2 * r as int,
            gaps_sound(chrs@, starts@, ends@, slack as int, lid, lval, gc@, gs@, ge@),
            gaps_progress(lid, lval, include_first_interval, ogv, osv, oev, gc@, gs@, ge@, r as int),
            gi@.len() == gc@.len(),
            forall|k: int| 0 <= k < gi@.len() ==> (#[trigger] gi@[k]) == k as i64,
        decreases m - r,
    {
        let g = og[r];
        proof {
            assert(run_start_witness(
                chrs@,
                starts@,
                ends@,
                slack as int,
                ogv[r as int],
                osv[r as int] as int,
                oev[r as int] as int,
            ));
            let aw = choose|aw: int|
                0 <= aw < chrs@.len() && (#[trigger] chrs@[aw]) == ogv[r as int] && starts@[aw]
                    == osv[r as int] && ends@[aw] + slack <= oev[r as int];
            assert(has_key(lid, chrs@[aw]));
            assert(group_present(chrs@, g));
            assert(0 <= starts@[aw]);
        }
        let lres = lookup_len(chrom_len_ids, chrom_lens, g);
        let l: i64;
        match lres {
            Some(v) => {
                l = v;
            },
            None => {
                proof {
                    assert(false);
                }
                return Err(RangesError::UnknownGroup);
            },
        }
        emit_gaps_for_run(
            &mut gc,
            &mut gs,
            &mut ge,
            &mut gi,
            &og,
            &os,
            &oe,
            r,
            l,
            include_first_interval,
            Ghost(chrs@),
            Ghost(starts@),
            Ghost(ends@),
            Ghost(slack as int),
            Ghost(lid),
            Ghost(lval),
        );
        r += 1;
    }
    proof {
        assert(merge_spec(chrs@, starts@, ends@, slack as int, ogv, osv, oev, oi@));
        assert(complement_gaps_spec(
            chrs@,
            starts@,
            ends@,
            slack as int,
            lid,
            lval,
            include_first_interval,
            ogv,
            osv,
            oev,
            gc@,
            gs@,
            ge@,
        ));
    }
    Ok((gc, gs, ge, gi))
}

} // verus!
