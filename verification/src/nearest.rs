//! Bounded nearest-neighbor search over sorted reduced-event streams: for
//! every query event, up to `k` distinct candidate positions on the same
//! group, all ties at a kept position included, with 1-based distances.

use vstd::prelude::*;
use crate::events::pos_bound;
use vstd::multiset::Multiset;
use crate::ruranges_structs::{MinEvent, Nearest};
use crate::sorts::{min_event_le, min_events_sorted, nearest_sorted, sort_nearest_by_idx_dist};

verus! {

/// Candidate `c` qualifies for query `e`: same group, at or past it.
pub open spec fn qual(c: MinEvent, e: MinEvent) -> bool {
    c.chr == e.chr && c.pos >= e.pos
}

/// The distinct-position rank of candidate `u` for query `e`: how many
/// distinct qualifying positions appear among the candidates up to `u`.
pub open spec fn pos_rank(s2: Seq<MinEvent>, e: MinEvent, u: int) -> int
    decreases u + 1,
{
    if u < 0 {
        0
    } else {
        pos_rank(s2, e, u - 1) + if qual(s2[u], e) && (u == 0 || !qual(s2[u - 1], e) || s2[u
            - 1].pos != s2[u].pos) {
            1int
        } else {
            0int
        }
    }
}

/// Candidate `u` is reported for query `e`: it qualifies and its position
/// is among the first `k` distinct qualifying positions.
pub open spec fn kept(s2: Seq<MinEvent>, e: MinEvent, k: int, u: int) -> bool {
    qual(s2[u], e) && pos_rank(s2, e, u) <= k
}

/// The rows reported for one query, scanning candidates up to `u`.
pub open spec fn rows_for(s2: Seq<MinEvent>, e: MinEvent, k: int, u: int) -> Seq<Nearest>
    decreases u + 1,
{
    if u < 0 {
        Seq::empty()
    } else {
        rows_for(s2, e, k, u - 1) + if kept(s2, e, k, u) {
            seq![
                Nearest {
                    distance: (s2[u].pos - e.pos + 1) as i64,
                    idx: e.idx,
                    idx2: s2[u].idx,
                },
            ]
        } else {
            Seq::empty()
        }
    }
}

/// The rows of the whole forward search: each query's kept candidates, in
/// query order.
pub open spec fn right_rows(es: Seq<MinEvent>, s2: Seq<MinEvent>, k: int) -> Seq<Nearest>
    decreases es.len(),
{
    if es.len() == 0 {
        Seq::empty()
    } else {
        right_rows(es.drop_last(), s2, k) + rows_for(s2, es.last(), k, s2.len() - 1)
    }
}

/// Event positions and groups stay within the exactly-representable band.
pub open spec fn min_events_ok(s: Seq<MinEvent>) -> bool {
    forall|t: int|
        0 <= t < s.len() ==> -2 * pos_bound() <= (#[trigger] s[t]).pos <= 2 * pos_bound() && -2
            * pos_bound() <= s[t].chr <= 2 * pos_bound()
}

/// The rank never decreases along the candidates.
proof fn lemma_rank_monotone(s2: Seq<MinEvent>, e: MinEvent, u1: int, u2: int)
    requires
        u1 <= u2,
    ensures
        pos_rank(s2, e, u1) <= pos_rank(s2, e, u2),
    decreases u2 - u1,
{
    if u1 < u2 {
        lemma_rank_monotone(s2, e, u1, u2 - 1);
    }
}

/// Below the first qualifying candidate nothing is reported.
proof fn lemma_rows_empty(s2: Seq<MinEvent>, e: MinEvent, k: int, u: int)
    requires
        forall|u2: int| 0 <= u2 <= u ==> u2 < s2.len() ==> !qual(#[trigger] s2[u2], e),
        u < s2.len(),
    ensures
        rows_for(s2, e, k, u) =~= Seq::<Nearest>::empty(),
        pos_rank(s2, e, u) == 0,
    decreases u + 1,
{
    if u >= 0 {
        lemma_rows_empty(s2, e, k, u - 1);
    }
}

/// Candidates that are skipped (unqualified or past the rank bound) leave
/// the reported rows unchanged.
proof fn lemma_rows_stable(s2: Seq<MinEvent>, e: MinEvent, k: int, u1: int, u2: int)
    requires
        u1 <= u2 < s2.len(),
        forall|u: int| u1 < u <= u2 ==> !(#[trigger] kept(s2, e, k, u)),
    ensures
        rows_for(s2, e, k, u2) =~= rows_for(s2, e, k, u1),
    decreases u2 - u1,
{
    if u1 < u2 {
        assert(!kept(s2, e, k, u2));
        lemma_rows_stable(s2, e, k, u1, u2 - 1);
    }
}

/// The forward bounded search: for every query event, reports every
/// candidate at or past it on its group whose position is among the `k`
/// nearest distinct qualifying positions, with distance
/// `candidate - query + 1`.
pub fn nearest_intervals_to_the_right(
    sorted_ends: Vec<MinEvent>,
    sorted_starts2: Vec<MinEvent>,
    k: usize,
) -> (res: Vec<Nearest>)
    requires
        min_events_sorted(sorted_ends@),
        min_events_sorted(sorted_starts2@),
        min_events_ok(sorted_ends@),
        min_events_ok(sorted_starts2@),
        k < 0x4000_0000_0000_0000,
    ensures
        res@ == right_rows(sorted_ends@, sorted_starts2@, k as int),
{
    let ghost es = sorted_ends@;
    let ghost s2 = sorted_starts2@;
    let mut res: Vec<Nearest> = Vec::new();
    let n_ends = sorted_ends.len();
    let n_starts = sorted_starts2.len();
    let mut j: usize = 0;
    let mut q: usize = 0;
    while q < n_ends
        invariant
            es == sorted_ends@,
            s2 == sorted_starts2@,
            n_ends == es.len(),
            n_starts == s2.len(),
            min_events_sorted(es),
            min_events_sorted(s2),
            min_events_ok(es),
            min_events_ok(s2),
            k < 0x4000_0000_0000_0000,
            q <= n_ends,
            j <= n_starts,
            forall|u: int, q2: int|
                0 <= u < j as int && q as int <= q2 < n_ends ==> !qual(
                    #[trigger] s2[u],
                    #[trigger] es[q2],
                ),
            res@ == right_rows(es.take(q as int), s2, k as int),
        decreases n_ends - q,
    {
        let e = sorted_ends[q];
        let end_chr = e.chr;
        let end_pos = e.pos;
        while j < n_starts && (sorted_starts2[j].chr < end_chr || (sorted_starts2[j].chr == end_chr
            && sorted_starts2[j].pos < end_pos))
            invariant
                es == sorted_ends@,
                s2 == sorted_starts2@,
                n_ends == es.len(),
                n_starts == s2.len(),
                min_events_sorted(es),
                q < n_ends,
                e == es[q as int],
                end_chr == e.chr,
                end_pos == e.pos,
                j <= n_starts,
                forall|u: int, q2: int|
                    0 <= u < j as int && q as int <= q2 < n_ends ==> !qual(
                        #[trigger] s2[u],
                        #[trigger] es[q2],
                    ),
            decreases n_starts - j,
        {
            proof {
                assert forall|q2: int| q as int <= q2 < n_ends implies !qual(
                    s2[j as int],
                    #[trigger] es[q2],
                ) by {
                    if q2 > q as int {
                        assert(min_event_le(es[q as int], es[q2]));
                    }
                }
            }
            j += 1;
        }
        let ghost rows_pre = res@;
        let mut unique_count: usize = 0;
        let mut last_pos: i64 = 0;
        let mut have_last: bool = false;
        let mut local_idx: usize = j;
        let mut done: bool = false;
        proof {
            lemma_rows_empty(s2, e, k as int, j as int - 1);
            assert(res@ == rows_pre + rows_for(s2, e, k as int, j as int - 1));
        }
        while !done && local_idx < n_starts
            invariant
                es == sorted_ends@,
                s2 == sorted_starts2@,
                n_ends == es.len(),
                n_starts == s2.len(),
                min_events_sorted(s2),
                min_events_ok(s2),
                min_events_ok(es),
                k < 0x4000_0000_0000_0000,
                q < n_ends,
                e == es[q as int],
                end_chr == e.chr,
                end_pos == e.pos,
                j <= local_idx <= n_starts,
                (j as int) < n_starts ==> (s2[j as int].chr > e.chr || (s2[j as int].chr == e.chr
                    && s2[j as int].pos >= e.pos)),
                forall|u: int| 0 <= u < j as int ==> !qual(#[trigger] s2[u], e),
                unique_count as int == pos_rank(s2, e, local_idx as int - 1),
                unique_count <= k,
                have_last ==> local_idx > j && qual(s2[local_idx as int - 1], e) && last_pos
                    == s2[local_idx as int - 1].pos,
                !have_last ==> pos_rank(s2, e, local_idx as int - 1) == 0,
                local_idx > j && !have_last ==> !qual(s2[local_idx as int - 1], e),
                res@ == rows_pre + rows_for(s2, e, k as int, local_idx as int - 1),
                done ==> res@ =~= rows_pre + rows_for(s2, e, k as int, n_starts as int - 1),
            decreases n_starts - local_idx, (if done { 0int } else { 1int }),
        {
            let c = sorted_starts2[local_idx];
            proof {
                if (j as int) < local_idx as int {
                    assert(min_event_le(s2[j as int], s2[local_idx as int]));
                }
                assert(s2[local_idx as int].chr >= e.chr);
                if s2[local_idx as int].chr == e.chr {
                    assert(qual(s2[local_idx as int], e)) by {
                        if (j as int) < local_idx as int {
                            assert(min_event_le(s2[j as int], s2[local_idx as int]));
                        }
                    }
                }
            }
            if c.chr != end_chr {
                proof {
                    assert forall|u: int| (local_idx as int) < u <= n_starts - 1 implies !(
                    #[trigger] kept(s2, e, k as int, u)) by {
                        assert(min_event_le(s2[local_idx as int], s2[u]));
                        assert(s2[u].chr != e.chr || s2[local_idx as int].chr == e.chr);
                    }
                    assert(!kept(s2, e, k as int, local_idx as int));
                    lemma_rows_stable(s2, e, k as int, local_idx as int, n_starts as int - 1);
                    if local_idx as int <= n_starts - 1 {
                        lemma_rows_stable(
                            s2,
                            e,
                            k as int,
                            local_idx as int - 1,
                            n_starts as int - 1,
                        );
                    }
                    assert(rows_for(s2, e, k as int, n_starts as int - 1) =~= rows_for(
                        s2,
                        e,
                        k as int,
                        local_idx as int - 1,
                    ));
                    assert(res@ =~= rows_pre + rows_for(s2, e, k as int, n_starts as int - 1));
                }
                done = true;
                continue ;
            }
            let is_new = !have_last || c.pos != last_pos;
            if is_new {
                if unique_count >= k {
                    proof {
                        assert(pos_rank(s2, e, local_idx as int) == k as int + 1);
                        assert forall|u: int| local_idx as int <= u <= n_starts - 1 implies !(
                        #[trigger] kept(s2, e, k as int, u)) by {
                            lemma_rank_monotone(s2, e, local_idx as int, u);
                        }
                        lemma_rows_stable(
                            s2,
                            e,
                            k as int,
                            local_idx as int - 1,
                            n_starts as int - 1,
                        );
                        assert(rows_for(s2, e, k as int, n_starts as int - 1) =~= rows_for(
                            s2,
                            e,
                            k as int,
                            local_idx as int - 1,
                        ));
                        assert(res@ =~= rows_pre + rows_for(
                            s2,
                            e,
                            k as int,
                            n_starts as int - 1,
                        ));
                    }
                    done = true;
                    continue ;
                }
                unique_count += 1;
                last_pos = c.pos;
                have_last = true;
            } else {
                proof {
                    assert(pos_rank(s2, e, local_idx as int) == pos_rank(
                        s2,
                        e,
                        local_idx as int - 1,
                    ));
                }
            }
            let dist: i64 = c.pos - end_pos + 1;
            res.push(Nearest { distance: dist, idx: e.idx, idx2: c.idx });
            proof {
                assert(qual(s2[local_idx as int], e));
                assert(kept(s2, e, k as int, local_idx as int));
                assert(res@ =~= rows_pre + rows_for(s2, e, k as int, local_idx as int));
            }
            local_idx += 1;
        }
        proof {
            assert(res@ =~= rows_pre + rows_for(s2, e, k as int, n_starts as int - 1));
            assert(es.take(q as int + 1).drop_last() =~= es.take(q as int));
            assert(es.take(q as int + 1).last() == es[q as int]);
            assert(res@ =~= right_rows(es.take(q as int + 1), s2, k as int));
        }
        q += 1;
    }
    proof {
        assert(es.take(n_ends as int) =~= es);
    }
    res
}

/// A stream with groups and positions negated, in reverse order: the
/// mirror image, ascending again.
pub open spec fn neg_rev(s: Seq<MinEvent>) -> Seq<MinEvent> {
    Seq::new(
        s.len(),
        |t: int|
            MinEvent {
                chr: (-s[s.len() - 1 - t].chr) as i64,
                pos: (-s[s.len() - 1 - t].pos) as i64,
                idx: s[s.len() - 1 - t].idx,
            },
    )
}

/// Builds the mirror image of a sorted stream, which is itself sorted.
fn build_neg_rev(v: &Vec<MinEvent>) -> (res: Vec<MinEvent>)
    requires
        min_events_sorted(v@),
        min_events_ok(v@),
    ensures
        res@ == neg_rev(v@),
        min_events_sorted(res@),
        min_events_ok(res@),
{
    let n = v.len();
    let mut res: Vec<MinEvent> = Vec::new();
    let mut t: usize = 0;
    while t < n
        invariant
            n == v@.len(),
            min_events_ok(v@),
            t <= n,
            res@.len() == t as int,
            forall|t2: int| 0 <= t2 < t as int ==> (#[trigger] res@[t2]) == neg_rev(v@)[t2],
        decreases n - t,
    {
        let src = v[n - 1 - t];
        res.push(MinEvent { chr: -src.chr, pos: -src.pos, idx: src.idx });
        t += 1;
    }
    proof {
        assert(res@ =~= neg_rev(v@));
        assert forall|t1: int, t2: int| 0 <= t1 < t2 < res@.len() implies min_event_le(
            #[trigger] res@[t1],
            #[trigger] res@[t2],
        ) by {
            assert(min_event_le(v@[v@.len() - 1 - t2], v@[v@.len() - 1 - t1]));
        }
    }
    res
}

/// The backward bounded search: for every query event, reports every
/// candidate at or before it on its group whose position is among the `k`
/// nearest distinct qualifying positions, with distance
/// `query - candidate + 1`.  It is the forward search run on the mirror
/// image of both streams.
pub fn nearest_intervals_to_the_left(
    sorted_ends: Vec<MinEvent>,
    sorted_starts2: Vec<MinEvent>,
    k: usize,
) -> (res: Vec<Nearest>)
    requires
        min_events_sorted(sorted_ends@),
        min_events_sorted(sorted_starts2@),
        min_events_ok(sorted_ends@),
        min_events_ok(sorted_starts2@),
        k < 0x4000_0000_0000_0000,
    ensures
        res@ == right_rows(neg_rev(sorted_ends@), neg_rev(sorted_starts2@), k as int),
{
    let ends_m = build_neg_rev(&sorted_ends);
    let starts_m = build_neg_rev(&sorted_starts2);
    nearest_intervals_to_the_right(ends_m, starts_m, k)
}

/// Result triples `(query idx, candidate idx, distance)`, ordered by
/// `(query idx, distance)`.
pub open spec fn le3(a: (i64, i64, i64), b: (i64, i64, i64)) -> bool {
    a.0 < b.0 || (a.0 == b.0 && a.2 <= b.2)
}

pub open spec fn sorted3(s: Seq<(i64, i64, i64)>) -> bool {
    forall|t1: int, t2: int| 0 <= t1 < t2 < s.len() ==> le3(#[trigger] s[t1], #[trigger] s[t2])
}

/// Three parallel columns zipped into result triples.
pub open spec fn zip3(a: Seq<i64>, b: Seq<i64>, d: Seq<i64>) -> Seq<(i64, i64, i64)> {
    Seq::new(a.len(), |t: int| (a[t], b[t], d[t]))
}

/// The distinct-distance rank of row `p` within its query's block of a
/// sorted triple sequence.
pub open spec fn drank3(s: Seq<(i64, i64, i64)>, p: int) -> int
    decreases p + 1,
{
    if p < 0 {
        0
    } else if p == 0 || s[p - 1].0 != s[p].0 {
        1
    } else if s[p].2 == s[p - 1].2 {
        drank3(s, p - 1)
    } else {
        drank3(s, p - 1) + 1
    }
}

/// The rows whose distance is among the first `k` distinct distances of
/// their query's block.
pub open spec fn keep3(s: Seq<(i64, i64, i64)>, k: int) -> Seq<(i64, i64, i64)>
    decreases s.len(),
{
    if s.len() == 0 {
        Seq::empty()
    } else {
        keep3(s.drop_last(), k) + if drank3(s, s.len() - 1) <= k {
            seq![s.last()]
        } else {
            Seq::empty()
        }
    }
}

/// The rank of a row depends only on the rows up to it.
proof fn lemma_drank3_prefix(s: Seq<(i64, i64, i64)>, w: int, p: int)
    requires
        0 <= p < w <= s.len(),
    ensures
        drank3(s.take(w), p) == drank3(s, p),
    decreases p + 1,
{
    if p > 0 {
        lemma_drank3_prefix(s, w, p - 1);
    }
}

/// The deterministic merge of two triple lists: the smaller
/// `(idx, distance)` head goes first, and the left list is preferred on
/// ties.
pub open spec fn merge3(a: Seq<(i64, i64, i64)>, b: Seq<(i64, i64, i64)>) -> Seq<(i64, i64, i64)>
    decreases a.len() + b.len(),
{
    if a.len() == 0 {
        b
    } else if b.len() == 0 {
        a
    } else if le3(a[0], b[0]) {
        seq![a[0]] + merge3(a.skip(1), b)
    } else {
        seq![b[0]] + merge3(a, b.skip(1))
    }
}

/// Unfolds one left step of the deterministic merge.
proof fn lemma_merge3_left(a: Seq<(i64, i64, i64)>, b: Seq<(i64, i64, i64)>)
    requires
        a.len() > 0,
        b.len() == 0 || le3(a[0], b[0]),
    ensures
        merge3(a, b) == seq![a[0]] + merge3(a.skip(1), b),
{
    if b.len() == 0 {
        assert(merge3(a, b) == a);
        if a.skip(1).len() == 0 {
            assert(merge3(a.skip(1), b) == b);
            assert(seq![a[0]] + b =~= a);
        } else {
            assert(merge3(a.skip(1), b) == a.skip(1));
            assert(seq![a[0]] + a.skip(1) =~= a);
        }
    }
}

/// Unfolds one right step of the deterministic merge.
proof fn lemma_merge3_right(a: Seq<(i64, i64, i64)>, b: Seq<(i64, i64, i64)>)
    requires
        b.len() > 0,
        a.len() == 0 || !le3(a[0], b[0]),
    ensures
        merge3(a, b) == seq![b[0]] + merge3(a, b.skip(1)),
{
    if a.len() == 0 {
        assert(merge3(a, b) == b);
        assert(merge3(a, b.skip(1)) == b.skip(1));
        assert(seq![b[0]] + b.skip(1) =~= b);
    }
}

/// Merges two `(idx, dist)`-sorted triple lists into one sorted list
/// holding exactly the rows of both, the left list first at ties.
pub fn merge_sorted_by_idx_dist(
    l_idxs1: &[i64],
    l_idxs2: &[i64],
    l_dists: &[i64],
    r_idxs1: &[i64],
    r_idxs2: &[i64],
    r_dists: &[i64],
) -> (res: Vec<(i64, i64, i64)>)
    requires
        l_idxs2@.len() == l_idxs1@.len(),
        l_dists@.len() == l_idxs1@.len(),
        r_idxs2@.len() == r_idxs1@.len(),
        r_dists@.len() == r_idxs1@.len(),
        sorted3(zip3(l_idxs1@, l_idxs2@, l_dists@)),
        sorted3(zip3(r_idxs1@, r_idxs2@, r_dists@)),
    ensures
        sorted3(res@),
        res@.to_multiset() == zip3(l_idxs1@, l_idxs2@, l_dists@).to_multiset().add(
            zip3(r_idxs1@, r_idxs2@, r_dists@).to_multiset(),
        ),
        res@.len() == l_idxs1@.len() + r_idxs1@.len(),
        res@ == merge3(zip3(l_idxs1@, l_idxs2@, l_dists@), zip3(r_idxs1@, r_idxs2@, r_dists@)),
{
    let ghost lt = zip3(l_idxs1@, l_idxs2@, l_dists@);
    let ghost rt = zip3(r_idxs1@, r_idxs2@, r_dists@);
    let nl = l_idxs1.len();
    let nr = r_idxs1.len();
    let mut res: Vec<(i64, i64, i64)> = Vec::new();
    let mut i: usize = 0;
    let mut j: usize = 0;
    proof {
        lt.take(0).to_multiset_ensures();
        rt.take(0).to_multiset_ensures();
        assert(lt.take(0) =~= Seq::<(i64, i64, i64)>::empty());
        assert(rt.take(0) =~= Seq::<(i64, i64, i64)>::empty());
        assert(lt.take(0).to_multiset() =~= Multiset::<(i64, i64, i64)>::empty());
        assert(rt.take(0).to_multiset() =~= Multiset::<(i64, i64, i64)>::empty());
        res@.to_multiset_ensures();
        assert(res@.to_multiset() =~= Multiset::<(i64, i64, i64)>::empty());
        assert(lt.skip(0) =~= lt);
        assert(rt.skip(0) =~= rt);
        assert(res@ + merge3(lt, rt) =~= merge3(lt, rt));
    }
    while i < nl || j < nr
        invariant
            nl == lt.len(),
            nr == rt.len(),
            lt == zip3(l_idxs1@, l_idxs2@, l_dists@),
            rt == zip3(r_idxs1@, r_idxs2@, r_dists@),
            l_idxs2@.len() == nl,
            l_dists@.len() == nl,
            r_idxs2@.len() == nr,
            r_dists@.len() == nr,
            sorted3(lt),
            sorted3(rt),
            i <= nl,
            j <= nr,
            res@.len() == i as int + j as int,
            sorted3(res@),
            res@.to_multiset() == lt.take(i as int).to_multiset().add(
                rt.take(j as int).to_multiset(),
            ),
            forall|t: int, t2: int|
                #![trigger res@[t], lt[t2]]
                0 <= t < res@.len() && i as int <= t2 < nl ==> le3(res@[t], lt[t2]),
            forall|t: int, t2: int|
                #![trigger res@[t], rt[t2]]
                0 <= t < res@.len() && j as int <= t2 < nr ==> le3(res@[t], rt[t2]),
            merge3(lt, rt) == res@ + merge3(lt.skip(i as int), rt.skip(j as int)),
        decreases nl - i + nr - j,
    {
        let ghost res_old = res@;
        let ghost i_old = i as int;
        let ghost j_old = j as int;
        let take_left: bool;
        if i < nl && j < nr {
            if l_idxs1[i] < r_idxs1[j] || (l_idxs1[i] == r_idxs1[j] && l_dists[i] <= r_dists[j]) {
                take_left = true;
            } else {
                take_left = false;
            }
        } else {
            take_left = i < nl;
        }
        if take_left {
            let x = (l_idxs1[i], l_idxs2[i], l_dists[i]);
            proof {
                assert(x == lt[i as int]);
                res@.to_multiset_ensures();
                assert(lt.take(i as int + 1).drop_last() =~= lt.take(i as int));
                lt.take(i as int + 1).drop_last().to_multiset_ensures();
                assert(lt.take(i as int + 1) =~= lt.take(i as int).push(x));
                lt.take(i as int).to_multiset_ensures();
                assert forall|t2: int| i as int + 1 <= t2 < nl implies le3(
                    x,
                    #[trigger] lt[t2],
                ) by {
                    assert(le3(lt[i as int], lt[t2]));
                }
                assert forall|t2: int| j as int <= t2 < nr implies le3(x, #[trigger] rt[t2]) by {
                    if i < nl && j < nr {
                        if t2 > j as int {
                            assert(le3(rt[j as int], rt[t2]));
                        }
                    } else {
                        assert(t2 < nr && j as int >= nr);
                        assert(false);
                    }
                }
            }
            res.push(x);
            i += 1;
        } else {
            let x = (r_idxs1[j], r_idxs2[j], r_dists[j]);
            proof {
                assert(x == rt[j as int]);
                res@.to_multiset_ensures();
                assert(rt.take(j as int + 1).drop_last() =~= rt.take(j as int));
                rt.take(j as int + 1).drop_last().to_multiset_ensures();
                assert(rt.take(j as int + 1) =~= rt.take(j as int).push(x));
                rt.take(j as int).to_multiset_ensures();
                assert forall|t2: int| j as int + 1 <= t2 < nr implies le3(
                    x,
                    #[trigger] rt[t2],
                ) by {
                    assert(le3(rt[j as int], rt[t2]));
                }
                assert forall|t2: int| i as int <= t2 < nl implies le3(x, #[trigger] lt[t2]) by {
                    if i < nl && j < nr {
                        if t2 > i as int {
                            assert(le3(lt[i as int], lt[t2]));
                        }
                        assert(le3(rt[j as int], lt[i as int]));
                    } else {
                        assert(t2 < nl && i as int >= nl);
                        assert(false);
                    }
                }
            }
            res.push(x);
            j += 1;
        }
        proof {
            assert(vstd::multiset::Multiset::add(
                lt.take(i as int).to_multiset(),
                rt.take(j as int).to_multiset(),
            ) =~= res@.to_multiset());
            if take_left {
                let gha = lt.skip(i_old);
                let ghb = rt.skip(j_old);
                assert(gha.len() > 0 && gha[0] == lt[i_old]);
                if j_old < nr as int {
                    assert(ghb[0] == rt[j_old]);
                    assert(le3(lt[i_old], rt[j_old]));
                }
                lemma_merge3_left(gha, ghb);
                assert(gha.skip(1) =~= lt.skip(i as int));
                assert(res@ =~= res_old + seq![lt[i_old]]);
                assert(res@ + merge3(lt.skip(i as int), rt.skip(j as int)) =~= res_old + (
                seq![lt[i_old]] + merge3(gha.skip(1), ghb)));
            } else {
                let gha = lt.skip(i_old);
                let ghb = rt.skip(j_old);
                assert(ghb.len() > 0 && ghb[0] == rt[j_old]);
                if i_old < nl as int {
                    assert(gha[0] == lt[i_old]);
                    assert(!le3(lt[i_old], rt[j_old]));
                }
                lemma_merge3_right(gha, ghb);
                assert(ghb.skip(1) =~= rt.skip(j as int));
                assert(res@ =~= res_old + seq![rt[j_old]]);
                assert(res@ + merge3(lt.skip(i as int), rt.skip(j as int)) =~= res_old + (
                seq![rt[j_old]] + merge3(gha, ghb.skip(1))));
            }
            assert(merge3(lt, rt) == res@ + merge3(lt.skip(i as int), rt.skip(j as int)));
        }
    }
    proof {
        assert(lt.take(nl as int) =~= lt);
        assert(rt.take(nr as int) =~= rt);
        assert(lt.skip(nl as int) =~= Seq::<(i64, i64, i64)>::empty());
        assert(rt.skip(nr as int) =~= Seq::<(i64, i64, i64)>::empty());
        assert(merge3(lt.skip(nl as int), rt.skip(nr as int)) =~= Seq::<(i64, i64, i64)>::empty());
        assert(res@ + merge3(lt.skip(nl as int), rt.skip(nr as int)) =~= res@);
    }
    res
}

/// The output columns are the per-query distinct-distance cut of some
/// sorted arrangement of the given rows.
pub open spec fn picked_spec(
    rows: Multiset<(i64, i64, i64)>,
    k: int,
    o1: Seq<i64>,
    o2: Seq<i64>,
    od: Seq<i64>,
) -> bool {
    exists|mg: Seq<(i64, i64, i64)>|
        {
            &&& #[trigger] sorted3(mg)
            &&& mg.to_multiset() == rows
            &&& zip3(o1, o2, od) == keep3(mg, k)
        }
}

/// Keeps, per query, the rows whose distance is among the first `k`
/// distinct distances of that query's block.
pub fn pick_k_distances_combined(
    l_idxs1: &[i64],
    l_idxs2: &[i64],
    l_dists: &[i64],
    r_idxs1: &[i64],
    r_idxs2: &[i64],
    r_dists: &[i64],
    k: usize,
) -> (res: (Vec<i64>, Vec<i64>, Vec<i64>))
    requires
        l_idxs2@.len() == l_idxs1@.len(),
        l_dists@.len() == l_idxs1@.len(),
        r_idxs2@.len() == r_idxs1@.len(),
        r_dists@.len() == r_idxs1@.len(),
        sorted3(zip3(l_idxs1@, l_idxs2@, l_dists@)),
        sorted3(zip3(r_idxs1@, r_idxs2@, r_dists@)),
        k < 0x4000_0000_0000_0000,
    ensures
        res.1@.len() == res.0@.len(),
        res.2@.len() == res.0@.len(),
        picked_spec(
            zip3(l_idxs1@, l_idxs2@, l_dists@).to_multiset().add(
                zip3(r_idxs1@, r_idxs2@, r_dists@).to_multiset(),
            ),
            k as int,
            res.0@,
            res.1@,
            res.2@,
        ),
{
    let merged = merge_sorted_by_idx_dist(l_idxs1, l_idxs2, l_dists, r_idxs1, r_idxs2, r_dists);
    let (o1, o2, od) = cut_k_distinct(&merged, k);
    proof {
        assert(sorted3(merged@));
        assert(zip3(o1@, o2@, od@) == keep3(merged@, k as int));
        assert(picked_spec(
            zip3(l_idxs1@, l_idxs2@, l_dists@).to_multiset().add(
                zip3(r_idxs1@, r_idxs2@, r_dists@).to_multiset(),
            ),
            k as int,
            o1@,
            o2@,
            od@,
        ));
    }
    (o1, o2, od)
}

/// The per-query distinct-distance cut over one sorted triple list.
fn cut_k_distinct(v: &Vec<(i64, i64, i64)>, k: usize) -> (res: (Vec<i64>, Vec<i64>, Vec<i64>))
    requires
        sorted3(v@),
        k < 0x4000_0000_0000_0000,
    ensures
        zip3(res.0@, res.1@, res.2@) == keep3(v@, k as int),
        res.1@.len() == res.0@.len(),
        res.2@.len() == res.0@.len(),
{
    let n = v.len();
    let mut o1: Vec<i64> = Vec::new();
    let mut o2: Vec<i64> = Vec::new();
    let mut od: Vec<i64> = Vec::new();
    let mut distinct: usize = 0;
    let mut p: usize = 0;
    proof {
        assert(v@.take(0) =~= Seq::<(i64, i64, i64)>::empty());
        assert(zip3(o1@, o2@, od@) =~= keep3(v@.take(0), k as int));
    }
    while p < n
        invariant
            n == v@.len(),
            sorted3(v@),
            k < 0x4000_0000_0000_0000,
            p <= n,
            o2@.len() == o1@.len(),
            od@.len() == o1@.len(),
            distinct as int == drank3(v@, p as int - 1),
            zip3(o1@, o2@, od@) == keep3(v@.take(p as int), k as int),
        decreases n - p,
    {
        let row = v[p];
        let is_new_group = p == 0 || v[p - 1].0 != row.0;
        let is_new_dist = is_new_group || v[p - 1].2 != row.2;
        if is_new_group {
            distinct = 1;
        } else if is_new_dist {
            proof {
                assert(drank3(v@, p as int) == drank3(v@, p as int - 1) + 1);
                lemma_drank3_bound(v@, p as int - 1);
            }
            distinct = distinct + 1;
        }
        proof {
            assert(distinct as int == drank3(v@, p as int));
        }
        if distinct <= k {
            o1.push(row.0);
            o2.push(row.1);
            od.push(row.2);
        }
        proof {
            assert(v@.take(p as int + 1).drop_last() =~= v@.take(p as int));
            assert(v@.take(p as int + 1).last() == v@[p as int]);
            lemma_drank3_prefix(v@, p as int + 1, p as int);
            assert(zip3(o1@, o2@, od@) =~= keep3(v@.take(p as int + 1), k as int));
        }
        p += 1;
    }
    proof {
        assert(v@.take(n as int) =~= v@);
    }
    (o1, o2, od)
}

/// The rank of a row is at most its block's length.
proof fn lemma_drank3_bound(s: Seq<(i64, i64, i64)>, p: int)
    requires
        0 <= p < s.len(),
    ensures
        drank3(s, p) <= p + 1,
    decreases p + 1,
{
    if p > 0 {
        lemma_drank3_bound(s, p - 1);
    }
}


/// Unzips nearest records into three columns.
fn nearest_to_columns(rows: &Vec<Nearest>) -> (res: (Vec<i64>, Vec<i64>, Vec<i64>))
    ensures
        zip3(res.0@, res.1@, res.2@) == crate::nearest_unique_k::to_triples(rows@),
        res.0@.len() == rows@.len(),
        res.1@.len() == rows@.len(),
        res.2@.len() == rows@.len(),
{
    let n = rows.len();
    let mut o1: Vec<i64> = Vec::new();
    let mut o2: Vec<i64> = Vec::new();
    let mut od: Vec<i64> = Vec::new();
    let mut r: usize = 0;
    while r < n
        invariant
            n == rows@.len(),
            r <= n,
            o1@.len() == r as int,
            o2@.len() == r as int,
            od@.len() == r as int,
            forall|t: int| 0 <= t < r as int ==> (#[trigger] o1@[t]) == rows@[t].idx,
            forall|t: int| 0 <= t < r as int ==> (#[trigger] o2@[t]) == rows@[t].idx2,
            forall|t: int| 0 <= t < r as int ==> (#[trigger] od@[t]) == rows@[t].distance,
        decreases n - r,
    {
        let row = rows[r];
        o1.push(row.idx);
        o2.push(row.idx2);
        od.push(row.distance);
        r += 1;
    }
    proof {
        assert(zip3(o1@, o2@, od@) =~= crate::nearest_unique_k::to_triples(rows@));
    }
    (o1, o2, od)
}

/// Merges the overlap rows (distance zero) and the two directional
/// searches, then keeps per query the rows within the first `k` distinct
/// distances.  Each input must arrive ordered by `(idx, distance)`.
pub fn merge_three_way(
    overlaps: &Vec<Nearest>,
    nearest_left: &Vec<Nearest>,
    nearest_right: &Vec<Nearest>,
    k: usize,
) -> (res: (Vec<i64>, Vec<i64>, Vec<i64>))
    requires
        nearest_sorted(overlaps@),
        nearest_sorted(nearest_left@),
        nearest_sorted(nearest_right@),
        k < 0x4000_0000_0000_0000,
    ensures
        res.1@.len() == res.0@.len(),
        res.2@.len() == res.0@.len(),
        picked_spec(
            crate::nearest_unique_k::to_triples(overlaps@).to_multiset().add(
                crate::nearest_unique_k::to_triples(nearest_left@).to_multiset(),
            ).add(crate::nearest_unique_k::to_triples(nearest_right@).to_multiset()),
            k as int,
            res.0@,
            res.1@,
            res.2@,
        ),
{
    let (l1, l2, ld) = nearest_to_columns(nearest_left);
    let (r1, r2, rd) = nearest_to_columns(nearest_right);
    proof {
        lemma_nearest_sorted_triples(nearest_left@);
        lemma_nearest_sorted_triples(nearest_right@);
        lemma_nearest_sorted_triples(overlaps@);
    }
    let lr = merge_sorted_by_idx_dist(
        l1.as_slice(),
        l2.as_slice(),
        ld.as_slice(),
        r1.as_slice(),
        r2.as_slice(),
        rd.as_slice(),
    );
    let (m1, m2, md) = triples_to_columns(&lr);
    let (o1, o2, od) = nearest_to_columns(overlaps);
    let f = merge_sorted_by_idx_dist(
        m1.as_slice(),
        m2.as_slice(),
        md.as_slice(),
        o1.as_slice(),
        o2.as_slice(),
        od.as_slice(),
    );
    let (c1, c2, cd) = cut_k_distinct(&f, k);
    proof {
        assert(sorted3(f@));
        assert(zip3(c1@, c2@, cd@) == keep3(f@, k as int));
        // the merged rows are exactly the three inputs' rows
        let ovt = crate::nearest_unique_k::to_triples(overlaps@);
        let lft = crate::nearest_unique_k::to_triples(nearest_left@);
        let rgt = crate::nearest_unique_k::to_triples(nearest_right@);
        assert(zip3(l1@, l2@, ld@) == lft);
        assert(zip3(r1@, r2@, rd@) == rgt);
        assert(zip3(o1@, o2@, od@) == ovt);
        assert(zip3(m1@, m2@, md@) == lr@);
        assert(lr@.to_multiset() == lft.to_multiset().add(rgt.to_multiset()));
        assert(f@.to_multiset() == lr@.to_multiset().add(ovt.to_multiset()));
        assert(f@.to_multiset() =~= ovt.to_multiset().add(lft.to_multiset()).add(
            rgt.to_multiset(),
        ));
        assert(picked_spec(
            ovt.to_multiset().add(lft.to_multiset()).add(rgt.to_multiset()),
            k as int,
            c1@,
            c2@,
            cd@,
        ));
    }
    (c1, c2, cd)
}

/// Splits triples into three columns.
fn triples_to_columns(rows: &Vec<(i64, i64, i64)>) -> (res: (Vec<i64>, Vec<i64>, Vec<i64>))
    ensures
        zip3(res.0@, res.1@, res.2@) == rows@,
        res.0@.len() == rows@.len(),
        res.1@.len() == rows@.len(),
        res.2@.len() == rows@.len(),
{
    let n = rows.len();
    let mut o1: Vec<i64> = Vec::new();
    let mut o2: Vec<i64> = Vec::new();
    let mut od: Vec<i64> = Vec::new();
    let mut r: usize = 0;
    while r < n
        invariant
            n == rows@.len(),
            r <= n,
            o1@.len() == r as int,
            o2@.len() == r as int,
            od@.len() == r as int,
            forall|t: int| 0 <= t < r as int ==> (#[trigger] o1@[t]) == rows@[t].0,
            forall|t: int| 0 <= t < r as int ==> (#[trigger] o2@[t]) == rows@[t].1,
            forall|t: int| 0 <= t < r as int ==> (#[trigger] od@[t]) == rows@[t].2,
        decreases n - r,
    {
        let row = rows[r];
        o1.push(row.0);
        o2.push(row.1);
        od.push(row.2);
        r += 1;
    }
    proof {
        assert(zip3(o1@, o2@, od@) =~= rows@);
    }
    (o1, o2, od)
}

/// A sorted record list yields a sorted triple view.
proof fn lemma_nearest_sorted_triples(rows: Seq<Nearest>)
    requires
        nearest_sorted(rows),
    ensures
        sorted3(crate::nearest_unique_k::to_triples(rows)),
{
    let tr = crate::nearest_unique_k::to_triples(rows);
    assert forall|t1: int, t2: int| 0 <= t1 < t2 < tr.len() implies le3(
        #[trigger] tr[t1],
        #[trigger] tr[t2],
    ) by {
        assert(crate::sorts::nearest_le(rows[t1], rows[t2]));
    }
}



/// Row pair `(a, b)` stands in the overlap rows.
pub open spec fn ov_pair_in(ov: Seq<Nearest>, a: i64, b: i64) -> bool {
    exists|r: int|
        0 <= r < ov.len() && (#[trigger] ov[r]).idx == a && (#[trigger] ov[r]).idx2 == b
}

/// The distance-zero rows of the overlap search: when overlaps are asked
/// for, exactly the joining row pairs, each once; otherwise none.
pub open spec fn overlap_rows_match(
    chrs: Seq<i64>,
    starts: Seq<i64>,
    ends: Seq<i64>,
    slack: int,
    chrs2: Seq<i64>,
    starts2: Seq<i64>,
    ends2: Seq<i64>,
    include_overlaps: bool,
    ov: Seq<Nearest>,
) -> bool {
    &&& !include_overlaps ==> ov.len() == 0
    &&& forall|r: int| 0 <= r < ov.len() ==> (#[trigger] ov[r]).distance == 0
    &&& forall|r1: int, r2: int|
        0 <= r1 < r2 < ov.len() ==> !((#[trigger] ov[r1]).idx == (#[trigger] ov[r2]).idx
            && ov[r1].idx2 == ov[r2].idx2)
    &&& include_overlaps ==> forall|a: i64, b: i64|
        #[trigger] ov_pair_in(ov, a, b) <==> (a >= 0 && b >= 0 && crate::events::pair_joins(
            chrs,
            starts,
            ends,
            slack,
            chrs2,
            starts2,
            ends2,
            a as int,
            b as int,
        ))
}

/// What the bounded nearest query returns: the overlap rows (when asked
/// for), the forward search over the widened query ends against the
/// candidate starts (unless the direction excludes it), and the backward
/// search over the mirrored streams, merged and cut to the first `k`
/// distinct distances per query.
pub open spec fn nearest_out_spec(
    chrs: Seq<i64>,
    starts: Seq<i64>,
    ends: Seq<i64>,
    chrs2: Seq<i64>,
    starts2: Seq<i64>,
    ends2: Seq<i64>,
    slack: int,
    k: int,
    include_overlaps: bool,
    direction: crate::ruranges_structs::Direction,
    o1: Seq<i64>,
    o2: Seq<i64>,
    od: Seq<i64>,
) -> bool {
    exists|astarts: Seq<MinEvent>, aends: Seq<MinEvent>, bstarts: Seq<MinEvent>, bends: Seq<
        MinEvent,
    >|
        #![trigger min_events_sorted(astarts), min_events_sorted(aends), min_events_sorted(bstarts), min_events_sorted(bends)]
        {
            &&& min_events_sorted(astarts)
            &&& min_events_sorted(aends)
            &&& min_events_sorted(bstarts)
            &&& min_events_sorted(bends)
            &&& astarts.to_multiset() == crate::sorts::min_built(
                chrs,
                crate::events::widened_starts(starts, slack),
            ).to_multiset()
            &&& aends.to_multiset() == crate::sorts::min_built(
                chrs,
                crate::events::widened_ends(ends, slack),
            ).to_multiset()
            &&& bstarts.to_multiset() == crate::sorts::min_built(
                chrs2,
                crate::events::widened_starts(starts2, 0),
            ).to_multiset()
            &&& bends.to_multiset() == crate::sorts::min_built(
                chrs2,
                crate::events::widened_ends(ends2, 0),
            ).to_multiset()
            &&& exists|ov: Seq<Nearest>|
                #[trigger] overlap_rows_match(
                    chrs,
                    starts,
                    ends,
                    slack,
                    chrs2,
                    starts2,
                    ends2,
                    include_overlaps,
                    ov,
                ) && picked_spec(
                    crate::nearest_unique_k::to_triples(ov).to_multiset().add(
                        crate::nearest_unique_k::to_triples(
                            if direction is Forward {
                                Seq::<Nearest>::empty()
                            } else {
                                right_rows(neg_rev(astarts), neg_rev(bends), k)
                            },
                        ).to_multiset(),
                    ).add(
                        crate::nearest_unique_k::to_triples(
                            if direction is Backward {
                                Seq::<Nearest>::empty()
                            } else {
                                right_rows(aends, bstarts, k)
                            },
                        ).to_multiset(),
                    ),
                    k,
                    o1,
                    o2,
                    od,
                )
        }
}

/// A stream's bounds carry over to any rearrangement of it.
proof fn lemma_min_events_ok_transfer(s: Seq<MinEvent>, target: Seq<MinEvent>)
    requires
        s.to_multiset() == target.to_multiset(),
        min_events_ok(target),
    ensures
        min_events_ok(s),
{
    assert forall|t: int| 0 <= t < s.len() implies -2 * pos_bound() <= (#[trigger] s[t]).pos <= 2
        * pos_bound() && -2 * pos_bound() <= s[t].chr <= 2 * pos_bound() by {
        crate::events::lemma_count_eq_index(s, t);
        crate::events::lemma_counts_transfer(s, target, s[t]);
        crate::events::lemma_count_eq_pos(target, s[t]);
        let u = choose|u: int| 0 <= u < target.len() && target[u] == s[t];
    }
}

/// The bounded nearest query: up to `k` distinct distances per query row,
/// overlaps counting as distance zero when asked for, directional
/// searches skipped entirely when the direction excludes them.  A
/// candidate whose span is equally distant on both sides of a query is
/// found by both directional scans and so is reported once per side.
pub fn nearest(
    chrs: &[i64],
    starts: &[i64],
    ends: &[i64],
    chrs2: &[i64],
    starts2: &[i64],
    ends2: &[i64],
    slack: i64,
    k: usize,
    include_overlaps: bool,
    direction: crate::ruranges_structs::Direction,
) -> (res: (Vec<i64>, Vec<i64>, Vec<i64>))
    requires
        crate::events::coords_ok(chrs@, starts@, ends@),
        crate::events::coords_ok(chrs2@, starts2@, ends2@),
        crate::events::slack_ok(slack),
        chrs@.len() < crate::events::rows_bound(),
        chrs2@.len() < crate::events::rows_bound(),
        forall|i: int|
            0 <= i < chrs@.len() ==> -pos_bound() <= #[trigger] chrs@[i] <= pos_bound(),
        forall|i: int|
            0 <= i < chrs2@.len() ==> -pos_bound() <= #[trigger] chrs2@[i] <= pos_bound(),
        k < 0x4000_0000,
    ensures
        res.1@.len() == res.0@.len(),
        res.2@.len() == res.0@.len(),
        nearest_out_spec(
            chrs@,
            starts@,
            ends@,
            chrs2@,
            starts2@,
            ends2@,
            slack as int,
            k as int,
            include_overlaps,
            direction,
            res.0@,
            res.1@,
            res.2@,
        ),
{
    let (a_starts, a_ends) = crate::sorts::build_sorted_events_single_collection_separate_outputs(
        chrs,
        starts,
        ends,
        slack,
    );
    let (b_starts, b_ends) = crate::sorts::build_sorted_events_single_collection_separate_outputs(
        chrs2,
        starts2,
        ends2,
        0,
    );
    proof {
        assert forall|t: int|
            0 <= t < crate::sorts::min_built(
                chrs@,
                crate::events::widened_starts(starts@, slack as int),
            ).len() implies -2 * pos_bound() <= (#[trigger] crate::sorts::min_built(
            chrs@,
            crate::events::widened_starts(starts@, slack as int),
        )[t]).pos <= 2 * pos_bound() && -2 * pos_bound() <= crate::sorts::min_built(
            chrs@,
            crate::events::widened_starts(starts@, slack as int),
        )[t].chr <= 2 * pos_bound() by {
            assert(0 <= starts@[t]);
            assert(starts@[t] <= ends@[t]);
            assert(ends@[t] <= pos_bound());
        }
        assert forall|t: int|
            0 <= t < crate::sorts::min_built(
                chrs@,
                crate::events::widened_ends(ends@, slack as int),
            ).len() implies -2 * pos_bound() <= (#[trigger] crate::sorts::min_built(
            chrs@,
            crate::events::widened_ends(ends@, slack as int),
        )[t]).pos <= 2 * pos_bound() && -2 * pos_bound() <= crate::sorts::min_built(
            chrs@,
            crate::events::widened_ends(ends@, slack as int),
        )[t].chr <= 2 * pos_bound() by {
            assert(0 <= starts@[t]);
            assert(starts@[t] <= ends@[t]);
            assert(ends@[t] <= pos_bound());
        }
        lemma_min_events_ok_transfer(
            a_starts@,
            crate::sorts::min_built(
                chrs@,
                crate::events::widened_starts(starts@, slack as int),
            ),
        );
        lemma_min_events_ok_transfer(
            a_ends@,
            crate::sorts::min_built(chrs@, crate::events::widened_ends(ends@, slack as int)),
        );
        assert forall|t: int|
            0 <= t < crate::sorts::min_built(
                chrs2@,
                crate::events::widened_starts(starts2@, 0),
            ).len() implies -2 * pos_bound() <= (#[trigger] crate::sorts::min_built(
            chrs2@,
            crate::events::widened_starts(starts2@, 0),
        )[t]).pos <= 2 * pos_bound() && -2 * pos_bound() <= crate::sorts::min_built(
            chrs2@,
            crate::events::widened_starts(starts2@, 0),
        )[t].chr <= 2 * pos_bound() by {
            assert(0 <= starts2@[t]);
            assert(starts2@[t] <= ends2@[t]);
            assert(ends2@[t] <= pos_bound());
        }
        assert forall|t: int|
            0 <= t < crate::sorts::min_built(
                chrs2@,
                crate::events::widened_ends(ends2@, 0),
            ).len() implies -2 * pos_bound() <= (#[trigger] crate::sorts::min_built(
            chrs2@,
            crate::events::widened_ends(ends2@, 0),
        )[t]).pos <= 2 * pos_bound() && -2 * pos_bound() <= crate::sorts::min_built(
            chrs2@,
            crate::events::widened_ends(ends2@, 0),
        )[t].chr <= 2 * pos_bound() by {
            assert(0 <= starts2@[t]);
            assert(starts2@[t] <= ends2@[t]);
            assert(ends2@[t] <= pos_bound());
        }
        lemma_min_events_ok_transfer(
            b_starts@,
            crate::sorts::min_built(chrs2@, crate::events::widened_starts(starts2@, 0)),
        );
        lemma_min_events_ok_transfer(
            b_ends@,
            crate::sorts::min_built(chrs2@, crate::events::widened_ends(ends2@, 0)),
        );
    }
    let ghost as_v = a_starts@;
    let ghost ae_v = a_ends@;
    let ghost bs_v = b_starts@;
    let ghost be_v = b_ends@;
    let backward = matches!(direction, crate::ruranges_structs::Direction::Backward);
    let forward = matches!(direction, crate::ruranges_structs::Direction::Forward);
    let ghost rsel = if direction is Backward {
        Seq::<Nearest>::empty()
    } else {
        right_rows(ae_v, bs_v, k as int)
    };
    let ghost lsel = if direction is Forward {
        Seq::<Nearest>::empty()
    } else {
        right_rows(neg_rev(as_v), neg_rev(be_v), k as int)
    };
    let mut right_rows_v: Vec<Nearest> = Vec::new();
    if !backward {
        right_rows_v = nearest_intervals_to_the_right(a_ends, b_starts, k);
    }
    proof {
        assert(right_rows_v@ == rsel);
    }
    let mut left_rows_v: Vec<Nearest> = Vec::new();
    if !forward {
        left_rows_v = nearest_intervals_to_the_left(a_starts, b_ends, k);
    }
    proof {
        assert(left_rows_v@ == lsel);
    }
    let mut overlap_rows: Vec<Nearest> = Vec::new();
    if include_overlaps {
        let pairs = crate::overlaps::sweep_line_overlaps(
            chrs,
            starts,
            ends,
            chrs2,
            starts2,
            ends2,
            slack,
        );
        let np = pairs.0.len();
        let mut p: usize = 0;
        while p < np
            invariant
                np == pairs.0@.len(),
                pairs.1@.len() == np,
                p <= np,
                overlap_rows@.len() == p as int,
                chrs@.len() < crate::events::rows_bound(),
                chrs2@.len() < crate::events::rows_bound(),
                forall|i: int, j: int|
                    #[trigger] crate::overlaps::pair_in_rows(pairs.0@, pairs.1@, i, j)
                        <==> crate::events::pair_joins(
                        chrs@,
                        starts@,
                        ends@,
                        slack as int,
                        chrs2@,
                        starts2@,
                        ends2@,
                        i,
                        j,
                    ),
                forall|r1: int, r2: int|
                    0 <= r1 < r2 < np ==> !((#[trigger] pairs.0@[r1]) == (#[trigger] pairs.0@[r2])
                        && pairs.1@[r1] == pairs.1@[r2]),
                forall|r: int|
                    0 <= r < p as int ==> (#[trigger] overlap_rows@[r]).distance == 0
                        && overlap_rows@[r].idx == pairs.0@[r] as i64 && overlap_rows@[r].idx2
                        == pairs.1@[r] as i64,
        decreases np - p,
        {
            overlap_rows.push(
                Nearest {
                    distance: 0,
                    idx: pairs.0[p] as i64,
                    idx2: pairs.1[p] as i64,
                },
            );
            p += 1;
        }
        proof {
            // the converted rows carry exactly the joining pairs
            assert forall|i: int, j: int| #[trigger] crate::overlaps::pair_in_rows(
                pairs.0@,
                pairs.1@,
                i,
                j,
            ) implies i < crate::events::rows_bound() && j < crate::events::rows_bound() by {
                let r = choose|r: int|
                    0 <= r < pairs.0@.len() && (#[trigger] pairs.0@[r]) as int == i && (
                    #[trigger] pairs.1@[r]) as int == j;
                assert(crate::events::pair_joins(
                    chrs@,
                    starts@,
                    ends@,
                    slack as int,
                    chrs2@,
                    starts2@,
                    ends2@,
                    i,
                    j,
                ));
            }
            assert forall|a: i64, b: i64| #[trigger] ov_pair_in(overlap_rows@, a, b) implies (a
                >= 0 && b >= 0 && crate::events::pair_joins(
                chrs@,
                starts@,
                ends@,
                slack as int,
                chrs2@,
                starts2@,
                ends2@,
                a as int,
                b as int,
            )) by {
                let r = choose|r: int|
                    0 <= r < overlap_rows@.len() && (#[trigger] overlap_rows@[r]).idx == a && (
                    #[trigger] overlap_rows@[r]).idx2 == b;
                assert(pairs.0@[r] as i64 == a && pairs.1@[r] as i64 == b);
                assert(crate::overlaps::pair_in_rows(
                    pairs.0@,
                    pairs.1@,
                    pairs.0@[r] as int,
                    pairs.1@[r] as int,
                ));
            }
            assert forall|a: i64, b: i64|
                (a >= 0 && b >= 0 && crate::events::pair_joins(
                    chrs@,
                    starts@,
                    ends@,
                    slack as int,
                    chrs2@,
                    starts2@,
                    ends2@,
                    a as int,
                    b as int,
                )) implies #[trigger] ov_pair_in(overlap_rows@, a, b) by {
                assert(crate::overlaps::pair_in_rows(pairs.0@, pairs.1@, a as int, b as int));
                let r = choose|r: int|
                    0 <= r < pairs.0@.len() && (#[trigger] pairs.0@[r]) as int == a as int && (
                    #[trigger] pairs.1@[r]) as int == b as int;
                assert(overlap_rows@[r].idx == a && overlap_rows@[r].idx2 == b);
            }
            assert forall|r1: int, r2: int| 0 <= r1 < r2 < overlap_rows@.len() implies !((
            #[trigger] overlap_rows@[r1]).idx == (#[trigger] overlap_rows@[r2]).idx
                && overlap_rows@[r1].idx2 == overlap_rows@[r2].idx2) by {
                if overlap_rows@[r1].idx == overlap_rows@[r2].idx && overlap_rows@[r1].idx2
                    == overlap_rows@[r2].idx2 {
                    assert(crate::overlaps::pair_in_rows(
                        pairs.0@,
                        pairs.1@,
                        pairs.0@[r1] as int,
                        pairs.1@[r1] as int,
                    ));
                    assert(crate::overlaps::pair_in_rows(
                        pairs.0@,
                        pairs.1@,
                        pairs.0@[r2] as int,
                        pairs.1@[r2] as int,
                    ));
                    assert((pairs.0@[r1] as int) < crate::events::rows_bound());
                    assert((pairs.0@[r2] as int) < crate::events::rows_bound());
                    assert((pairs.1@[r1] as int) < crate::events::rows_bound());
                    assert((pairs.1@[r2] as int) < crate::events::rows_bound());
                    assert(pairs.0@[r1] == pairs.0@[r2] && pairs.1@[r1] == pairs.1@[r2]);
                }
            }
        }
    }
    let ghost ov_v = overlap_rows@;
    proof {
        assert(overlap_rows_match(
            chrs@,
            starts@,
            ends@,
            slack as int,
            chrs2@,
            starts2@,
            ends2@,
            include_overlaps,
            ov_v,
        ));
    }
    sort_nearest_by_idx_dist(&mut right_rows_v);
    sort_nearest_by_idx_dist(&mut left_rows_v);
    sort_nearest_by_idx_dist(&mut overlap_rows);
    let out = merge_three_way(&overlap_rows, &left_rows_v, &right_rows_v, k);
    proof {
        crate::nearest_unique_k::lemma_to_triples_multiset(overlap_rows@, ov_v);
        crate::nearest_unique_k::lemma_to_triples_multiset(left_rows_v@, lsel);
        crate::nearest_unique_k::lemma_to_triples_multiset(right_rows_v@, rsel);
        assert(crate::nearest_unique_k::to_triples(ov_v).to_multiset().add(
            crate::nearest_unique_k::to_triples(lsel).to_multiset(),
        ).add(crate::nearest_unique_k::to_triples(rsel).to_multiset())
            =~= crate::nearest_unique_k::to_triples(overlap_rows@).to_multiset().add(
            crate::nearest_unique_k::to_triples(left_rows_v@).to_multiset(),
        ).add(crate::nearest_unique_k::to_triples(right_rows_v@).to_multiset()));
        assert(picked_spec(
            crate::nearest_unique_k::to_triples(ov_v).to_multiset().add(
                crate::nearest_unique_k::to_triples(lsel).to_multiset(),
            ).add(crate::nearest_unique_k::to_triples(rsel).to_multiset()),
            k as int,
            out.0@,
            out.1@,
            out.2@,
        ));
        assert(nearest_out_spec(
            chrs@,
            starts@,
            ends@,
            chrs2@,
            starts2@,
            ends2@,
            slack as int,
            k as int,
            include_overlaps,
            direction,
            out.0@,
            out.1@,
            out.2@,
        )) by {
            assert(min_events_sorted(as_v) && min_events_sorted(ae_v) && min_events_sorted(bs_v)
                && min_events_sorted(be_v));
            assert(overlap_rows_match(
                chrs@,
                starts@,
                ends@,
                slack as int,
                chrs2@,
                starts2@,
                ends2@,
                include_overlaps,
                ov_v,
            ));
        }
    }
    out
}

/// Every reported row's distance ranks within the first `k` distinct
/// distances of its query's block: no query ever spans more than `k`
/// distinct distances.
pub proof fn lemma_nearest_distinctness(mg: Seq<(i64, i64, i64)>, k: int, r: int)
    requires
        sorted3(mg),
        0 <= r < keep3(mg, k).len(),
    ensures
        exists|p: int|
            0 <= p < mg.len() && (#[trigger] mg[p]) == keep3(mg, k)[r] && drank3(mg, p) <= k,
    decreases mg.len(),
{
    if mg.len() > 0 {
        let pre = keep3(mg.drop_last(), k);
        if r < pre.len() {
            lemma_nearest_distinctness(mg.drop_last(), k, r);
            let p = choose|p: int|
                0 <= p < mg.drop_last().len() && (#[trigger] mg.drop_last()[p]) == keep3(
                    mg.drop_last(),
                    k,
                )[r] && drank3(mg.drop_last(), p) <= k;
            lemma_drank3_prefix_full(mg, p);
            assert(mg[p] == keep3(mg, k)[r] && drank3(mg, p) <= k);
        } else {
            assert(drank3(mg, mg.len() - 1) <= k);
            assert(mg[mg.len() - 1] == keep3(mg, k)[r]);
        }
    }
}

/// The rank of a row is unchanged by rows past it.
proof fn lemma_drank3_prefix_full(s: Seq<(i64, i64, i64)>, p: int)
    requires
        0 <= p < s.len() - 1,
    ensures
        drank3(s.drop_last(), p) == drank3(s, p),
    decreases p + 1,
{
    if p > 0 {
        lemma_drank3_prefix_full(s, p - 1);
    }
}

/// Rows that tie on query and distance rank alike, so ties at a kept
/// distance are never split: either all such rows are kept or none is.
pub proof fn lemma_nearest_ties_kept(mg: Seq<(i64, i64, i64)>, k: int, p1: int, p2: int)
    requires
        sorted3(mg),
        0 <= p1 <= p2 < mg.len(),
        mg[p1].0 == mg[p2].0,
        mg[p1].2 == mg[p2].2,
    ensures
        drank3(mg, p1) == drank3(mg, p2),
    decreases p2 - p1,
{
    if p1 < p2 {
        assert(le3(mg[p1], mg[p2 - 1]) || p1 == p2 - 1);
        if p1 < p2 - 1 {
            assert(le3(mg[p1], mg[p2 - 1]));
            assert(le3(mg[p2 - 1], mg[p2]));
        }
        assert(mg[p2 - 1].0 == mg[p1].0 && mg[p2 - 1].2 == mg[p1].2);
        lemma_nearest_ties_kept(mg, k, p1, p2 - 1);
        assert(drank3(mg, p2) == drank3(mg, p2 - 1));
    }
}

} // verus!
