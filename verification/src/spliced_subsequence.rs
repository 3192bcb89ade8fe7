//! Spliced subsequences: the rows of one group, read in transcript order,
//! are clipped to a window given in spliced (cumulative-length)
//! coordinates; negative window bounds count from the transcript's end.
//! Minus-strand rows carry negated coordinates so the sort yields the
//! transcript's direction, and the absolute spans are clipped.

use vstd::prelude::*;
use crate::events::{coords_ok, rows_bound};
use crate::ruranges_structs::SplicedSubsequenceInterval;
use crate::sorts::{build_sorted_subsequence_intervals, built_subsequence, spliced_sorted};

verus! {

pub open spec fn iabs(x: int) -> int {
    if x < 0 {
        -x
    } else {
        x
    }
}

/// The genomic span of a sorted row, with the strand negation undone.
pub open spec fn row_lo(r: SplicedSubsequenceInterval) -> int {
    if iabs(r.start as int) <= iabs(r.end as int) {
        iabs(r.start as int)
    } else {
        iabs(r.end as int)
    }
}

pub open spec fn row_hi(r: SplicedSubsequenceInterval) -> int {
    if iabs(r.start as int) <= iabs(r.end as int) {
        iabs(r.end as int)
    } else {
        iabs(r.start as int)
    }
}

pub open spec fn row_len(r: SplicedSubsequenceInterval) -> int {
    row_hi(r) - row_lo(r)
}

/// The cumulative exon length within the row's group, this row included.
pub open spec fn cum(sv: Seq<SplicedSubsequenceInterval>, t: int) -> int
    decreases t + 1,
{
    if t < 0 || t >= sv.len() {
        0
    } else if t == 0 || sv[t - 1].chr != sv[t].chr {
        row_len(sv[t])
    } else {
        cum(sv, t - 1) + row_len(sv[t])
    }
}

/// The total exon length of the row's group.
pub open spec fn group_total(sv: Seq<SplicedSubsequenceInterval>, t: int) -> int
    decreases sv.len() - t,
{
    if t < 0 || t >= sv.len() {
        0
    } else if t == sv.len() - 1 || sv[t + 1].chr != sv[t].chr {
        cum(sv, t)
    } else {
        group_total(sv, t + 1)
    }
}

/// The window bound in spliced coordinates, negative values counted from
/// the transcript's end.
pub open spec fn window_start(sv: Seq<SplicedSubsequenceInterval>, t: int, start: int) -> int {
    if start < 0 {
        group_total(sv, t) + start
    } else {
        start
    }
}

pub open spec fn window_end(
    sv: Seq<SplicedSubsequenceInterval>,
    t: int,
    end: Option<i64>,
) -> int {
    match end {
        Option::Some(e) => if e < 0 {
            group_total(sv, t) + e
        } else {
            e as int
        },
        Option::None => group_total(sv, t),
    }
}

/// The clipped genomic sub-span of sorted row `t`: the row's span with
/// the part of the transcript before `window_start` and after
/// `window_end` cut away, on the side the strand dictates.
pub open spec fn clip_lo(
    sv: Seq<SplicedSubsequenceInterval>,
    t: int,
    start: int,
    end: Option<i64>,
    force_plus: bool,
) -> int {
    let cs = cum(sv, t) - row_len(sv[t]);
    let ce = cum(sv, t);
    let ws = window_start(sv, t, start);
    let we = window_end(sv, t, end);
    if force_plus || sv[t].forward_strand {
        row_lo(sv[t]) + if ws - cs > 0 {
            ws - cs
        } else {
            0
        }
    } else {
        row_lo(sv[t]) + if ce - we > 0 {
            ce - we
        } else {
            0
        }
    }
}

pub open spec fn clip_hi(
    sv: Seq<SplicedSubsequenceInterval>,
    t: int,
    start: int,
    end: Option<i64>,
    force_plus: bool,
) -> int {
    let cs = cum(sv, t) - row_len(sv[t]);
    let ce = cum(sv, t);
    let ws = window_start(sv, t, start);
    let we = window_end(sv, t, end);
    if force_plus || sv[t].forward_strand {
        row_hi(sv[t]) - if ce - we > 0 {
            ce - we
        } else {
            0
        }
    } else {
        row_hi(sv[t]) - if ws - cs > 0 {
            ws - cs
        } else {
            0
        }
    }
}

/// Row `t` survives the window: something of its span is left.
pub open spec fn survives(
    sv: Seq<SplicedSubsequenceInterval>,
    t: int,
    start: int,
    end: Option<i64>,
    force_plus: bool,
) -> bool {
    clip_lo(sv, t, start, end, force_plus) < clip_hi(sv, t, start, end, force_plus)
}

/// The output rows of the first `t` sorted rows, in sorted order: the
/// surviving rows' caller ids and clipped spans.
pub open spec fn spliced_rows(
    sv: Seq<SplicedSubsequenceInterval>,
    start: int,
    end: Option<i64>,
    force_plus: bool,
    idxs: Seq<i64>,
    t: int,
) -> Seq<(i64, i64, i64)>
    decreases t,
{
    if t <= 0 {
        Seq::empty()
    } else {
        spliced_rows(sv, start, end, force_plus, idxs, t - 1) + if survives(
            sv,
            t - 1,
            start,
            end,
            force_plus,
        ) {
            seq![
                (
                    idxs[sv[t - 1].idx as int],
                    clip_lo(sv, t - 1, start, end, force_plus) as i64,
                    clip_hi(sv, t - 1, start, end, force_plus) as i64,
                ),
            ]
        } else {
            Seq::empty()
        }
    }
}

/// Three columns zipped into rows.
pub open spec fn zip_out(a: Seq<i64>, b: Seq<i64>, d: Seq<i64>) -> Seq<(i64, i64, i64)> {
    Seq::new(a.len(), |t: int| (a[t], b[t], d[t]))
}



/// The executable clip arithmetic computes the specification's clip.
proof fn lemma_clip_values(
    sv: Seq<SplicedSubsequenceInterval>,
    t: int,
    start: int,
    end: Option<i64>,
    force_plus: bool,
    lo: int,
    hi: int,
    cs: int,
    ce: int,
    ws: int,
    we: int,
    s_out: int,
    e_out: int,
)
    requires
        0 <= t < sv.len(),
        lo == row_lo(sv[t]),
        hi == row_hi(sv[t]),
        ce == cum(sv, t),
        cs == ce - row_len(sv[t]),
        ws == window_start(sv, t, start),
        we == window_end(sv, t, end),
        (force_plus || sv[t].forward_strand) ==> s_out == lo + (if ws - cs > 0 {
            ws - cs
        } else {
            0int
        }) && e_out == hi - (if ce - we > 0 {
            ce - we
        } else {
            0int
        }),
        !(force_plus || sv[t].forward_strand) ==> s_out == lo + (if ce - we > 0 {
            ce - we
        } else {
            0int
        }) && e_out == hi - (if ws - cs > 0 {
            ws - cs
        } else {
            0int
        }),
    ensures
        s_out == clip_lo(sv, t, start, end, force_plus),
        e_out == clip_hi(sv, t, start, end, force_plus),
{
}

/// Appending the clipped row of position `t` (when it survives) advances
/// the output to the first `t + 1` rows.
proof fn lemma_spliced_step(
    sv: Seq<SplicedSubsequenceInterval>,
    start: int,
    end: Option<i64>,
    force_plus: bool,
    idxs: Seq<i64>,
    t: int,
    i1: Seq<i64>,
    s1: Seq<i64>,
    e1: Seq<i64>,
    i2: Seq<i64>,
    s2: Seq<i64>,
    e2: Seq<i64>,
)
    requires
        0 <= t < sv.len(),
        s1.len() == i1.len(),
        e1.len() == i1.len(),
        zip_out(i1, s1, e1) == spliced_rows(sv, start, end, force_plus, idxs, t),
        survives(sv, t, start, end, force_plus) ==> i2 == i1.push(idxs[sv[t].idx as int]) && s2
            == s1.push((clip_lo(sv, t, start, end, force_plus)) as i64) && e2 == e1.push(
            (clip_hi(sv, t, start, end, force_plus)) as i64,
        ),
        !survives(sv, t, start, end, force_plus) ==> i2 == i1 && s2 == s1 && e2 == e1,
    ensures
        zip_out(i2, s2, e2) =~= spliced_rows(sv, start, end, force_plus, idxs, t + 1),
{
}

/// Clips every group of the collection to the spliced window
/// `[start, end)` (negative bounds counted from the transcript's end) and
/// returns the surviving sub-spans as `(idx, start, end)` columns: for
/// some `(chr, start, end)`-sorted arrangement of the strand-adjusted
/// rows, the output is exactly that arrangement's surviving rows in
/// order, each carrying the caller's id and its clipped genomic span.
pub fn spliced_subseq(
    chrs: &[i64],
    starts: &[i64],
    ends: &[i64],
    idxs: &[i64],
    strand_flags: &[bool],
    start: i64,
    end: Option<i64>,
    force_plus_strand: bool,
) -> (res: (Vec<i64>, Vec<i64>, Vec<i64>))
    requires
        coords_ok(chrs@, starts@, ends@),
        idxs@.len() == chrs@.len(),
        strand_flags@.len() == chrs@.len(),
        chrs@.len() < rows_bound(),
        forall|i: int| 0 <= i < ends@.len() ==> (#[trigger] ends@[i]) <= 0x1_0000_0000,
        -0x100_0000_0000 <= start <= 0x100_0000_0000,
        end is Some ==> -0x100_0000_0000 <= end->0 <= 0x100_0000_0000,
    ensures
        res.1@.len() == res.0@.len(),
        res.2@.len() == res.0@.len(),
        forall|t: int| 0 <= t < res.0@.len() ==> (#[trigger] res.1@[t]) < res.2@[t],
        exists|sv: Seq<SplicedSubsequenceInterval>|
            {
                &&& #[trigger] spliced_sorted(sv)
                &&& sv.to_multiset() == built_subsequence(
                    chrs@,
                    starts@,
                    ends@,
                    strand_flags@,
                ).to_multiset()
                &&& zip_out(res.0@, res.1@, res.2@) == spliced_rows(
                    sv,
                    start as int,
                    end,
                    force_plus_strand,
                    idxs@,
                    sv.len() as int,
                )
            },
{
    let intervals = build_sorted_subsequence_intervals(chrs, starts, ends, strand_flags);
    let ghost sv = intervals@;
    let n = intervals.len();
    proof {
        let target = built_subsequence(chrs@, starts@, ends@, strand_flags@);
        sv.to_multiset_ensures();
        target.to_multiset_ensures();
        assert(sv.len() == target.len());
        assert forall|t: int| 0 <= t < sv.len() implies 0 <= (#[trigger] sv[t]).idx
            < chrs@.len() && -0x1_0000_0000 <= sv[t].start <= 0x1_0000_0000 && -0x1_0000_0000
            <= sv[t].end <= 0x1_0000_0000 && 0 <= row_lo(sv[t]) && row_hi(sv[t])
            <= 0x1_0000_0000 && row_lo(sv[t]) <= row_hi(sv[t]) by {
            crate::events::lemma_count_eq_index(sv, t);
            crate::events::lemma_counts_transfer(sv, target, sv[t]);
            crate::events::lemma_count_eq_pos(target, sv[t]);
            let u = choose|u: int| 0 <= u < target.len() && target[u] == sv[t];
            assert(0 <= starts@[u]);
            assert(starts@[u] <= ends@[u]);
            assert(ends@[u] <= 0x1_0000_0000);
        }
    }
    // cumulative exon lengths per group, and each group's total
    let mut cums: Vec<i64> = Vec::new();
    let mut i: usize = 0;
    while i < n
        invariant
            sv == intervals@,
            n == sv.len(),
            n < rows_bound(),
            i <= n,
            forall|t: int|
                0 <= t < n ==> 0 <= row_lo(#[trigger] sv[t]) && row_lo(sv[t]) <= row_hi(sv[t])
                    && row_hi(sv[t]) <= 0x1_0000_0000,
            cums@.len() == i as int,
            forall|t: int| 0 <= t < i as int ==> (#[trigger] cums@[t]) as int == cum(sv, t),
            forall|t: int|
                0 <= t < i as int ==> 0 <= (#[trigger] cums@[t]) as int <= (t + 1)
                    * 0x1_0000_0000,
        decreases n - i,
    {
        let iv = intervals[i];
        let abs_s: i64 = if iv.start < 0 {
            -iv.start
        } else {
            iv.start
        };
        let abs_e: i64 = if iv.end < 0 {
            -iv.end
        } else {
            iv.end
        };
        let lo: i64 = if abs_s <= abs_e {
            abs_s
        } else {
            abs_e
        };
        let hi: i64 = if abs_s <= abs_e {
            abs_e
        } else {
            abs_s
        };
        let length: i64 = hi - lo;
        proof {
            assert(lo as int == row_lo(sv[i as int]) && hi as int == row_hi(sv[i as int]));
            assert((i as int + 1) * 0x1_0000_0000 == i as int * 0x1_0000_0000 + 0x1_0000_0000)
                by (nonlinear_arith);
            assert((i as int) * 0x1_0000_0000 <= 0x4000_0000 * 0x1_0000_0000) by (nonlinear_arith)
                requires 0 <= i as int <= 0x4000_0000;
        }
        let c: i64 = if i == 0 || intervals[i - 1].chr != iv.chr {
            length
        } else {
            cums[i - 1] + length
        };
        cums.push(c);
        i += 1;
    }
    let mut totals: Vec<i64> = Vec::new();
    let mut t2: usize = 0;
    while t2 < n
        invariant
            sv == intervals@,
            n == sv.len(),
            t2 <= n,
            totals@.len() == t2 as int,
            forall|t: int| 0 <= t < t2 as int ==> (#[trigger] totals@[t]) as int == 0,
        decreases n - t2,
    {
        totals.push(0);
        t2 += 1;
    }
    // fill the group totals from the back
    let mut t3: usize = n;
    while t3 > 0
        invariant
            sv == intervals@,
            n == sv.len(),
            n < rows_bound(),
            t3 <= n,
            cums@.len() == n,
            totals@.len() == n,
            forall|t: int| 0 <= t < n ==> (#[trigger] cums@[t]) as int == cum(sv, t),
            forall|t: int|
                0 <= t < n ==> 0 <= (#[trigger] cums@[t]) as int <= (t + 1) * 0x1_0000_0000,
            forall|t: int|
                t3 as int <= t < n ==> (#[trigger] totals@[t]) as int == group_total(sv, t),
        decreases t3,
    {
        let t = t3 - 1;
        let v: i64 = if t + 1 == n || intervals[t + 1].chr != intervals[t].chr {
            cums[t]
        } else {
            totals[t + 1]
        };
        totals.set(t, v);
        t3 -= 1;
    }
    proof {
        assert((n as int) * 0x1_0000_0000 <= 0x4000_0000 * 0x1_0000_0000) by (nonlinear_arith)
            requires 0 <= n as int <= 0x4000_0000;
        assert forall|t4: int| 0 <= t4 < n implies 0 <= group_total(sv, #[trigger] (t4 + 0)) <= (
        n as int) * 0x1_0000_0000 by {
            lemma_group_total_bounds(sv, t4);
        }
    }
    let out = emit_clipped(&intervals, &cums, &totals, idxs, start, end, force_plus_strand);
    proof {
        assert(spliced_sorted(sv));
    }
    out
}

/// Walks the sorted rows once, emitting each surviving clipped span.
#[verifier::rlimit(100)]
fn emit_clipped(
    intervals: &Vec<SplicedSubsequenceInterval>,
    cums: &Vec<i64>,
    totals: &Vec<i64>,
    idxs: &[i64],
    start: i64,
    end: Option<i64>,
    force_plus_strand: bool,
) -> (res: (Vec<i64>, Vec<i64>, Vec<i64>))
    requires
        ({
            let sv = intervals@;
            let n = sv.len() as int;
            &&& cums@.len() == n
            &&& totals@.len() == n
            &&& n < rows_bound()
            &&& n <= idxs@.len()
            &&& -0x100_0000_0000 <= start <= 0x100_0000_0000
            &&& (end is Some ==> -0x100_0000_0000 <= end->0 <= 0x100_0000_0000)
            &&& (forall|t4: int| 0 <= t4 < n ==> (#[trigger] cums@[t4]) as int == cum(sv, t4))
            &&& (forall|t4: int|
                0 <= t4 < n ==> 0 <= (#[trigger] cums@[t4]) as int <= (t4 + 1) * 0x1_0000_0000)
            &&& (forall|t4: int|
                0 <= t4 < n ==> (#[trigger] totals@[t4]) as int == group_total(sv, t4))
            &&& (forall|t4: int|
                0 <= t4 < n ==> 0 <= group_total(sv, #[trigger] (t4 + 0)) <= n * 0x1_0000_0000)
            &&& n * 0x1_0000_0000 <= 0x4000_0000 * 0x1_0000_0000
            &&& (forall|t4: int|
                0 <= t4 < n ==> 0 <= (#[trigger] sv[t4]).idx < idxs@.len() && 0 <= row_lo(sv[t4])
                    && row_lo(sv[t4]) <= row_hi(sv[t4]) && row_hi(sv[t4]) <= 0x1_0000_0000)
        }),
    ensures
        res.1@.len() == res.0@.len(),
        res.2@.len() == res.0@.len(),
        forall|t: int| 0 <= t < res.0@.len() ==> (#[trigger] res.1@[t]) < res.2@[t],
        zip_out(res.0@, res.1@, res.2@) == spliced_rows(
            intervals@,
            start as int,
            end,
            force_plus_strand,
            idxs@,
            intervals@.len() as int,
        ),
{
    let ghost sv = intervals@;
    let n = intervals.len();
    // emit the surviving clipped rows in sorted order
    let mut out_idxs: Vec<i64> = Vec::new();
    let mut out_starts: Vec<i64> = Vec::new();
    let mut out_ends: Vec<i64> = Vec::new();
    let mut t: usize = 0;
    while t < n
        invariant
            sv == intervals@,
            n == sv.len(),
            n < rows_bound(),
            n <= idxs@.len(),
            -0x100_0000_0000 <= start <= 0x100_0000_0000,
            end is Some ==> -0x100_0000_0000 <= end->0 <= 0x100_0000_0000,
            t <= n,
            cums@.len() == n,
            totals@.len() == n,
            forall|t4: int| 0 <= t4 < n ==> (#[trigger] cums@[t4]) as int == cum(sv, t4),
            forall|t4: int|
                0 <= t4 < n ==> 0 <= (#[trigger] cums@[t4]) as int <= (t4 + 1) * 0x1_0000_0000,
            forall|t4: int|
                0 <= t4 < n ==> (#[trigger] totals@[t4]) as int == group_total(sv, t4),
            forall|t4: int|
                0 <= t4 < n ==> 0 <= group_total(sv, #[trigger] (t4 + 0)) <= (n as int)
                    * 0x1_0000_0000,
            (n as int) * 0x1_0000_0000 <= 0x4000_0000 * 0x1_0000_0000,
            forall|t4: int|
                0 <= t4 < n ==> 0 <= (#[trigger] sv[t4]).idx < idxs@.len() && 0 <= row_lo(sv[t4])
                    && row_lo(sv[t4]) <= row_hi(sv[t4]) && row_hi(sv[t4]) <= 0x1_0000_0000,
            out_starts@.len() == out_idxs@.len(),
            out_ends@.len() == out_idxs@.len(),
            forall|t4: int|
                0 <= t4 < out_idxs@.len() ==> (#[trigger] out_starts@[t4]) < out_ends@[t4],
            zip_out(out_idxs@, out_starts@, out_ends@) == spliced_rows(
                sv,
                start as int,
                end,
                force_plus_strand,
                idxs@,
                t as int,
            ),
        decreases n - t,
    {
        let iv = intervals[t];
        let abs_s: i64 = if iv.start < 0 {
            -iv.start
        } else {
            iv.start
        };
        let abs_e: i64 = if iv.end < 0 {
            -iv.end
        } else {
            iv.end
        };
        let lo: i64 = if abs_s <= abs_e {
            abs_s
        } else {
            abs_e
        };
        let hi: i64 = if abs_s <= abs_e {
            abs_e
        } else {
            abs_s
        };
        proof {
            assert(lo as int == row_lo(sv[t as int]) && hi as int == row_hi(sv[t as int]));
            assert(cums@[t as int] as int == cum(sv, t as int));
            assert(0 <= cums@[t as int] as int <= (t as int + 1) * 0x1_0000_0000);
            assert((t as int + 1) * 0x1_0000_0000 <= (n as int) * 0x1_0000_0000)
                by (nonlinear_arith)
                requires
                    t as int + 1 <= n as int,
                    0x1_0000_0000 > 0,
            ;
            assert(0 <= group_total(sv, (t as int) + 0) <= (n as int) * 0x1_0000_0000);
            assert(totals@[t as int] as int == group_total(sv, t as int));
        }
        let ce = cums[t];
        let length: i64 = hi - lo;
        let cs = ce - length;
        let total = totals[t];
        let ws: i64 = if start < 0 {
            total + start
        } else {
            start
        };
        let we: i64 = match end {
            Some(e) => {
                if e < 0 {
                    total + e
                } else {
                    e
                }
            },
            None => total,
        };
        let is_forward = force_plus_strand || iv.forward_strand;
        let mut s_out = lo;
        let mut e_out = hi;
        if is_forward {
            if ws - cs > 0 {
                s_out = lo + (ws - cs);
            }
            if ce - we > 0 {
                e_out = hi - (ce - we);
            }
        } else {
            if ce - we > 0 {
                s_out = lo + (ce - we);
            }
            if ws - cs > 0 {
                e_out = hi - (ws - cs);
            }
        }
        proof {
            lemma_clip_values(
                sv,
                t as int,
                start as int,
                end,
                force_plus_strand,
                lo as int,
                hi as int,
                cs as int,
                ce as int,
                ws as int,
                we as int,
                s_out as int,
                e_out as int,
            );
        }
        let ghost i_pre = out_idxs@;
        let ghost s_pre = out_starts@;
        let ghost e_pre = out_ends@;
        if s_out < e_out {
            out_idxs.push(idxs[iv.idx as usize]);
            out_starts.push(s_out);
            out_ends.push(e_out);
        }
        proof {
            lemma_spliced_step(
                sv,
                start as int,
                end,
                force_plus_strand,
                idxs@,
                t as int,
                i_pre,
                s_pre,
                e_pre,
                out_idxs@,
                out_starts@,
                out_ends@,
            );
        }
        t += 1;
    }
    (out_idxs, out_starts, out_ends)
}


/// Group totals stay within the band the cumulative sums use.
proof fn lemma_group_total_bounds(sv: Seq<SplicedSubsequenceInterval>, t: int)
    requires
        forall|t4: int|
            0 <= t4 < sv.len() ==> 0 <= row_lo(#[trigger] sv[t4]) && row_lo(sv[t4]) <= row_hi(
                sv[t4],
            ) && row_hi(sv[t4]) <= 0x1_0000_0000,
    ensures
        0 <= group_total(sv, t) <= sv.len() * 0x1_0000_0000,
    decreases sv.len() - t,
{
    if t < 0 || t >= sv.len() {
    } else if t == sv.len() - 1 || sv[t + 1].chr != sv[t].chr {
        lemma_cum_bounds(sv, t);
    } else {
        lemma_group_total_bounds(sv, t + 1);
    }
}

/// Cumulative sums stay within the band.
proof fn lemma_cum_bounds(sv: Seq<SplicedSubsequenceInterval>, t: int)
    requires
        -1 <= t,
        forall|t4: int|
            0 <= t4 < sv.len() ==> 0 <= row_lo(#[trigger] sv[t4]) && row_lo(sv[t4]) <= row_hi(
                sv[t4],
            ) && row_hi(sv[t4]) <= 0x1_0000_0000,
    ensures
        0 <= cum(sv, t) <= (t + 1) * 0x1_0000_0000,
        0 <= t < sv.len() ==> cum(sv, t) <= sv.len() * 0x1_0000_0000,
    decreases t + 1,
{
    if 0 <= t < sv.len() {
        lemma_cum_bounds(sv, t - 1);
        assert((t + 1) * 0x1_0000_0000 == t * 0x1_0000_0000 + 0x1_0000_0000) by (nonlinear_arith);
        if t < sv.len() {
            assert((t + 1) * 0x1_0000_0000 <= sv.len() * 0x1_0000_0000) by (nonlinear_arith)
                requires t + 1 <= sv.len();
        }
    }
}

} // verus!
