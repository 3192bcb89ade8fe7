//! The cross-collection overlap joins: a sweep over the interleaved,
//! sorted boundary events of two collections, keeping a set of currently
//! open intervals per collection and emitting a pair whenever an interval
//! opens while one of the other collection is open.
//!
//! The central contract: pair `(i, j)` is emitted exactly when the
//! slack-widened row `i` of the first collection and row `j` of the second
//! share a group and each one's start lies at or before the other's end.

use vstd::prelude::*;
use crate::ruranges_structs::{Event, MinEvent};
use crate::events::{coords_ok, ev_at, event_le, event_lt, events_sorted, has_ev, is_slot, joins,
    lemma_hits_iff_joins, lemma_sorted_pos, pair_joins, pos_bound, rows_bound, slack_ok,
    stream_hits, stream_wf, two_coll_built, widen_start, widened_ends, widened_starts};
use crate::sorts::build_sorted_events;

verus! {

/// Row pair `(a, b)` stands in the two output columns at some shared row.
pub open spec fn pair_in(o1: Seq<i64>, o2: Seq<i64>, a: i64, b: i64) -> bool {
    exists|r: int| 0 <= r < o1.len() && (#[trigger] o1[r]) == a && (#[trigger] o2[r]) == b
}

/// Row pair `(i, j)` stands in the two output columns at some shared row.
pub open spec fn pair_in_rows(o1: Seq<usize>, o2: Seq<usize>, i: int, j: int) -> bool {
    exists|r: int|
        0 <= r < o1.len() && (#[trigger] o1[r]) as int == i && (#[trigger] o2[r]) as int == j
}

/// No pair of rows is reported twice.
pub open spec fn pairs_distinct(o1: Seq<i64>, o2: Seq<i64>) -> bool {
    forall|r1: int, r2: int|
        0 <= r1 < r2 < o1.len() ==> !((#[trigger] o1[r1]) == (#[trigger] o1[r2]) && o2[r1]
            == o2[r2])
}

/// Interval `x` of the given collection is open after the first `t` events
/// were consumed: its start event has passed, its end event has not.
pub open spec fn open_at(s: Seq<Event>, first_set: bool, x: i64, t: int) -> bool {
    &&& has_ev(s, first_set, true, x)
    &&& ev_at(s, first_set, true, x) < t
    &&& ev_at(s, first_set, false, x) >= t
}

/// Both starts of the pair have passed, so the meeting is decided.
pub open spec fn hits_before(s: Seq<Event>, a: i64, b: i64, t: int) -> bool {
    &&& stream_hits(s, a, b)
    &&& ev_at(s, true, true, a) < t
    &&& ev_at(s, false, true, b) < t
}

/// Removes the one occurrence of `v` from a duplicate-free vector, if any.
fn active_remove(active: &mut Vec<i64>, v: i64)
    requires
        old(active)@.no_duplicates(),
    ensures
        final(active)@.no_duplicates(),
        forall|x: i64|
            #[trigger] final(active)@.contains(x) <==> (old(active)@.contains(x) && x != v),
{
    let n = active.len();
    let mut i: usize = 0;
    while i < n
        invariant
            i <= n,
            n == active@.len(),
            active@.no_duplicates(),
            active@ == old(active)@,
            forall|t: int| 0 <= t < i as int ==> active@[t] != v,
        decreases n - i,
    {
        if active[i] == v {
            active.swap_remove(i);
            proof {
                let pre = old(active)@;
                let post = active@;
                assert(post =~= pre.update(i as int, pre.last()).drop_last());
                assert forall|x: i64| #[trigger] post.contains(x) implies (pre.contains(x) && x
                    != v) by {
                    let r = choose|r: int| 0 <= r < post.len() && post[r] == x;
                    if r == i as int {
                        assert(pre[pre.len() - 1] == x);
                        if x == v {
                            assert(pre[i as int] == v);
                            assert(i as int != pre.len() - 1 ==> false);
                        }
                    } else {
                        assert(pre[r] == x);
                        if x == v {
                            assert(pre[i as int] == v);
                        }
                    }
                }
                assert forall|x: i64| (pre.contains(x) && x != v) implies #[trigger] post.contains(
                    x,
                ) by {
                    let r = choose|r: int| 0 <= r < pre.len() && pre[r] == x;
                    if r == pre.len() - 1 {
                        if i as int == pre.len() - 1 {
                            assert(pre[r] == v);
                        } else {
                            assert(post[i as int] == x);
                        }
                    } else {
                        if r == i as int {
                            assert(pre[r] == v);
                        } else {
                            assert(post[r] == x);
                        }
                    }
                }
                assert forall|r1: int, r2: int| 0 <= r1 < r2 < post.len() implies post[r1]
                    != post[r2] by {
                    if r1 == i as int {
                        assert(post[r1] == pre[pre.len() - 1]);
                        assert(post[r2] == pre[r2]);
                    } else if r2 == i as int {
                        assert(post[r2] == pre[pre.len() - 1]);
                        assert(post[r1] == pre[r1]);
                    } else {
                        assert(post[r1] == pre[r1] && post[r2] == pre[r2]);
                    }
                }
            }
            return ;
        }
        i += 1;
    }
    proof {
        assert forall|x: i64| #[trigger] active@.contains(x) implies (old(active)@.contains(x) && x
            != v) by {
            let r = choose|r: int| 0 <= r < active@.len() && active@[r] == x;
            assert(active@[r] != v);
        }
    }
}


/// Opening the interval whose start event is being consumed adds exactly
/// that interval to its collection's open set.
proof fn lemma_active_after_open(
    s: Seq<Event>,
    told: int,
    fs: bool,
    act_pre: Seq<i64>,
    act_post: Seq<i64>,
)
    requires
        stream_wf(s),
        0 <= told < s.len(),
        s[told].is_start,
        s[told].first_set == fs,
        act_post == act_pre.push(s[told].idx),
        act_pre.no_duplicates(),
        forall|x: i64| #[trigger] act_pre.contains(x) <==> open_at(s, fs, x, told),
        ev_at(s, fs, true, s[told].idx) == told,
    ensures
        act_post.no_duplicates(),
        forall|x: i64| #[trigger] act_post.contains(x) <==> open_at(s, fs, x, told + 1),
{
    let e = s[told];
    if act_pre.contains(e.idx) {
        assert(open_at(s, fs, e.idx, told));
        assert(false);
    }
    assert forall|x: i64| #[trigger] act_post.contains(x) implies open_at(s, fs, x, told + 1) by {
        if x == e.idx {
            assert(is_slot(s[told], fs, true, x));
            crate::events::lemma_ev_at_is(s, fs, true, x, told);
            crate::events::lemma_boundary_pair(s, fs, x);
        } else {
            let r = choose|r: int| 0 <= r < act_post.len() && act_post[r] == x;
            assert(r < act_post.len() - 1);
            assert(act_pre[r] == x);
            assert(act_pre.contains(x));
            assert(open_at(s, fs, x, told));
            crate::events::lemma_boundary_pair(s, fs, x);
            assert(ev_at(s, fs, false, x) != told);
        }
    }
    assert forall|x: i64| open_at(s, fs, x, told + 1) implies #[trigger] act_post.contains(x) by {
        if x != e.idx {
            crate::events::lemma_ev_at_slot(s, fs, true, x);
            assert(ev_at(s, fs, true, x) != told);
            assert(open_at(s, fs, x, told));
            assert(act_pre.contains(x));
            let r = choose|r: int| 0 <= r < act_pre.len() && act_pre[r] == x;
            assert(act_post[r] == x);
        } else {
            assert(act_post.last() == x);
        }
    }
    assert forall|r1: int, r2: int| 0 <= r1 < r2 < act_post.len() implies act_post[r1]
        != act_post[r2] by {
        if r2 == act_post.len() - 1 {
            if act_post[r1] == e.idx {
                assert(act_pre.contains(e.idx));
            }
        }
    }
}

/// The pairs decided by consuming a start event of the first collection
/// are exactly that interval against every open interval of the second.
proof fn lemma_pairs_after_open1(
    s: Seq<Event>,
    told: int,
    act2: Seq<i64>,
    o1p: Seq<i64>,
    o2p: Seq<i64>,
    o1: Seq<i64>,
    o2: Seq<i64>,
)
    requires
        stream_wf(s),
        0 <= told < s.len(),
        s[told].is_start,
        s[told].first_set,
        ev_at(s, true, true, s[told].idx) == told,
        act2.no_duplicates(),
        forall|x: i64| #[trigger] act2.contains(x) <==> open_at(s, false, x, told),
        o1p.len() == o2p.len(),
        o1.len() == o1p.len() + act2.len(),
        o2.len() == o1.len(),
        forall|r: int| 0 <= r < o1p.len() ==> o1[r] == o1p[r] && o2[r] == o2p[r],
        forall|r: int|
            o1p.len() <= r < o1.len() ==> o1[r] == s[told].idx && o2[r] == act2[r - o1p.len()],
        forall|a: i64, b: i64|
            #[trigger] pair_in(o1p, o2p, a, b) <==> hits_before(s, a, b, told),
        pairs_distinct(o1p, o2p),
    ensures
        forall|a: i64, b: i64| #[trigger] pair_in(o1, o2, a, b) <==> hits_before(s, a, b, told + 1),
        pairs_distinct(o1, o2),
{
    let e = s[told];
    assert forall|a: i64, b: i64| #[trigger] pair_in(o1, o2, a, b) implies hits_before(
        s,
        a,
        b,
        told + 1,
    ) by {
        let r = choose|r: int| 0 <= r < o1.len() && (#[trigger] o1[r]) == a && (#[trigger] o2[r]) == b;
        if r < o1p.len() {
            assert(o1p[r] == a && o2p[r] == b);
            assert(pair_in(o1p, o2p, a, b));
        } else {
            assert(a == e.idx && act2.contains(b));
            assert(open_at(s, false, b, told));
            assert(has_ev(s, true, true, a) && ev_at(s, true, true, a) == told);
            crate::events::lemma_boundary_pair(s, true, a);
            let pe = ev_at(s, true, false, a);
            assert(pe > told);
            crate::events::lemma_boundary_pair(s, false, b);
            assert(is_slot(s[ev_at(s, false, false, b)], false, false, b));
            assert(ev_at(s, false, false, b) != told);
            assert(ev_at(s, false, false, b) > told);
            assert(ev_at(s, false, true, b) < told < pe);
        }
    }
    assert forall|a: i64, b: i64| hits_before(s, a, b, told + 1) implies #[trigger] pair_in(
        o1,
        o2,
        a,
        b,
    ) by {
        if hits_before(s, a, b, told) {
            assert(pair_in(o1p, o2p, a, b));
            let r = choose|r: int|
                0 <= r < o1p.len() && (#[trigger] o1p[r]) == a && (#[trigger] o2p[r]) == b;
            assert(o1[r] == a && o2[r] == b);
        } else {
            crate::events::lemma_ev_at_slot(s, true, true, a);
            crate::events::lemma_ev_at_slot(s, false, true, b);
            if ev_at(s, true, true, a) == told {
                assert(is_slot(s[told], true, true, a));
                assert(a == e.idx);
                assert(ev_at(s, false, true, b) < told);
                assert(ev_at(s, false, false, b) > told);
                assert(open_at(s, false, b, told));
                assert(act2.contains(b));
                let w = choose|w: int| 0 <= w < act2.len() && act2[w] == b;
                assert(o1[o1p.len() + w] == a && o2[o1p.len() + w] == b);
            } else {
                assert(ev_at(s, false, true, b) == told);
                assert(is_slot(s[told], false, true, b));
                assert(false);
            }
        }
    }
    assert forall|r1: int, r2: int| 0 <= r1 < r2 < o1.len() implies !((#[trigger] o1[r1]) == (
    #[trigger] o1[r2]) && o2[r1] == o2[r2]) by {
        if r2 >= o1p.len() {
            if r1 >= o1p.len() {
                assert(act2[r1 - o1p.len()] != act2[r2 - o1p.len()]);
            } else {
                if o1[r1] == o1[r2] && o2[r1] == o2[r2] {
                    assert(o1p[r1] == o1[r2] && o2p[r1] == o2[r2]);
                    assert(pair_in(o1p, o2p, o1[r2], o2[r2]));
                    assert(hits_before(s, o1[r2], o2[r2], told));
                }
            }
        } else {
            assert(o1[r1] == o1p[r1] && o1[r2] == o1p[r2]);
            assert(o2[r1] == o2p[r1] && o2[r2] == o2p[r2]);
        }
    }
}

/// The mirror of the lemma above, for a start event of the second
/// collection.
proof fn lemma_pairs_after_open2(
    s: Seq<Event>,
    told: int,
    act1: Seq<i64>,
    o1p: Seq<i64>,
    o2p: Seq<i64>,
    o1: Seq<i64>,
    o2: Seq<i64>,
)
    requires
        stream_wf(s),
        0 <= told < s.len(),
        s[told].is_start,
        !s[told].first_set,
        ev_at(s, false, true, s[told].idx) == told,
        act1.no_duplicates(),
        forall|x: i64| #[trigger] act1.contains(x) <==> open_at(s, true, x, told),
        o1p.len() == o2p.len(),
        o1.len() == o1p.len() + act1.len(),
        o2.len() == o1.len(),
        forall|r: int| 0 <= r < o1p.len() ==> o1[r] == o1p[r] && o2[r] == o2p[r],
        forall|r: int|
            o1p.len() <= r < o1.len() ==> o2[r] == s[told].idx && o1[r] == act1[r - o1p.len()],
        forall|a: i64, b: i64|
            #[trigger] pair_in(o1p, o2p, a, b) <==> hits_before(s, a, b, told),
        pairs_distinct(o1p, o2p),
    ensures
        forall|a: i64, b: i64| #[trigger] pair_in(o1, o2, a, b) <==> hits_before(s, a, b, told + 1),
        pairs_distinct(o1, o2),
{
    let e = s[told];
    assert forall|a: i64, b: i64| #[trigger] pair_in(o1, o2, a, b) implies hits_before(
        s,
        a,
        b,
        told + 1,
    ) by {
        let r = choose|r: int| 0 <= r < o1.len() && (#[trigger] o1[r]) == a && (#[trigger] o2[r]) == b;
        if r < o1p.len() {
            assert(o1p[r] == a && o2p[r] == b);
            assert(pair_in(o1p, o2p, a, b));
        } else {
            assert(b == e.idx && act1.contains(a));
            assert(open_at(s, true, a, told));
            assert(has_ev(s, false, true, b) && ev_at(s, false, true, b) == told);
            crate::events::lemma_boundary_pair(s, false, b);
            let pe = ev_at(s, false, false, b);
            assert(pe > told);
            crate::events::lemma_boundary_pair(s, true, a);
            assert(is_slot(s[ev_at(s, true, false, a)], true, false, a));
            assert(ev_at(s, true, false, a) != told);
            assert(ev_at(s, true, false, a) > told);
            assert(ev_at(s, true, true, a) < told < pe);
        }
    }
    assert forall|a: i64, b: i64| hits_before(s, a, b, told + 1) implies #[trigger] pair_in(
        o1,
        o2,
        a,
        b,
    ) by {
        if hits_before(s, a, b, told) {
            assert(pair_in(o1p, o2p, a, b));
            let r = choose|r: int|
                0 <= r < o1p.len() && (#[trigger] o1p[r]) == a && (#[trigger] o2p[r]) == b;
            assert(o1[r] == a && o2[r] == b);
        } else {
            crate::events::lemma_ev_at_slot(s, true, true, a);
            crate::events::lemma_ev_at_slot(s, false, true, b);
            if ev_at(s, false, true, b) == told {
                assert(is_slot(s[told], false, true, b));
                assert(b == e.idx);
                assert(ev_at(s, true, true, a) < told);
                assert(ev_at(s, true, false, a) > told);
                assert(open_at(s, true, a, told));
                assert(act1.contains(a));
                let w = choose|w: int| 0 <= w < act1.len() && act1[w] == a;
                assert(o1[o1p.len() + w] == a && o2[o1p.len() + w] == b);
            } else {
                assert(ev_at(s, true, true, a) == told);
                assert(is_slot(s[told], true, true, a));
                assert(false);
            }
        }
    }
    assert forall|r1: int, r2: int| 0 <= r1 < r2 < o1.len() implies !((#[trigger] o1[r1]) == (
    #[trigger] o1[r2]) && o2[r1] == o2[r2]) by {
        if r2 >= o1p.len() {
            if r1 >= o1p.len() {
                assert(act1[r1 - o1p.len()] != act1[r2 - o1p.len()]);
            } else {
                if o1[r1] == o1[r2] && o2[r1] == o2[r2] {
                    assert(o1p[r1] == o1[r2] && o2p[r1] == o2[r2]);
                    assert(pair_in(o1p, o2p, o1[r2], o2[r2]));
                    assert(hits_before(s, o1[r2], o2[r2], told));
                }
            }
        } else {
            assert(o1[r1] == o1p[r1] && o1[r2] == o1p[r2]);
            assert(o2[r1] == o2p[r1] && o2[r2] == o2p[r2]);
        }
    }
}

/// Processes a start event of the first collection: emits one pair for
/// every open interval of the second collection, then opens the interval.
fn process_start1(
    out1: &mut Vec<i64>,
    out2: &mut Vec<i64>,
    active1: &mut Vec<i64>,
    active2: &Vec<i64>,
    e: Event,
    Ghost(s): Ghost<Seq<Event>>,
    Ghost(told): Ghost<int>,
)
    requires
        stream_wf(s),
        0 <= told < s.len(),
        s[told] == e,
        e.is_start,
        e.first_set,
        old(out1)@.len() == old(out2)@.len(),
        old(active1)@.no_duplicates(),
        active2@.no_duplicates(),
        forall|x: i64| #[trigger] old(active1)@.contains(x) <==> open_at(s, true, x, told),
        forall|x: i64| #[trigger] active2@.contains(x) <==> open_at(s, false, x, told),
        forall|a: i64, b: i64|
            #[trigger] pair_in(old(out1)@, old(out2)@, a, b) <==> hits_before(s, a, b, told),
        pairs_distinct(old(out1)@, old(out2)@),
        ev_at(s, true, true, e.idx) == told,
    ensures
        final(out1)@.len() == final(out2)@.len(),
        final(active1)@ == old(active1)@.push(e.idx),
        final(active1)@.no_duplicates(),
        forall|x: i64| #[trigger] final(active1)@.contains(x) <==> open_at(s, true, x, told + 1),
        forall|x: i64| #[trigger] active2@.contains(x) <==> open_at(s, false, x, told + 1),
        forall|a: i64, b: i64|
            #[trigger] pair_in(final(out1)@, final(out2)@, a, b) <==> hits_before(s, a, b, told + 1),
        pairs_distinct(final(out1)@, final(out2)@),
{
    let ghost out1_pre = out1@;
    let ghost out2_pre = out2@;
    let m = active2.len();
    let mut w: usize = 0;
    while w < m
        invariant
            w <= m,
            m == active2@.len(),
            out1@.len() == out2@.len(),
            out1@.len() == out1_pre.len() + w as int,
            out1_pre.len() == out2_pre.len(),
            forall|r: int| 0 <= r < out1_pre.len() ==> out1@[r] == out1_pre[r],
            forall|r: int| 0 <= r < out2_pre.len() ==> out2@[r] == out2_pre[r],
            forall|r: int|
                out1_pre.len() <= r < out1@.len() ==> out1@[r] == e.idx && out2@[r] == active2@[r
                    - out1_pre.len()],
        decreases m - w,
    {
        out1.push(e.idx);
        out2.push(active2[w]);
        w += 1;
    }
    let ghost act1_pre = active1@;
    active1.push(e.idx);
    proof {
        lemma_pairs_after_open1(s, told, active2@, out1_pre, out2_pre, out1@, out2@);
        lemma_active_after_open(s, told, true, act1_pre, active1@);
        lemma_open_unchanged_other(s, told, false);
    }
}

/// Processes a start event of the second collection, symmetrically.
fn process_start2(
    out1: &mut Vec<i64>,
    out2: &mut Vec<i64>,
    active1: &Vec<i64>,
    active2: &mut Vec<i64>,
    e: Event,
    Ghost(s): Ghost<Seq<Event>>,
    Ghost(told): Ghost<int>,
)
    requires
        stream_wf(s),
        0 <= told < s.len(),
        s[told] == e,
        e.is_start,
        !e.first_set,
        old(out1)@.len() == old(out2)@.len(),
        active1@.no_duplicates(),
        old(active2)@.no_duplicates(),
        forall|x: i64| #[trigger] active1@.contains(x) <==> open_at(s, true, x, told),
        forall|x: i64| #[trigger] old(active2)@.contains(x) <==> open_at(s, false, x, told),
        forall|a: i64, b: i64|
            #[trigger] pair_in(old(out1)@, old(out2)@, a, b) <==> hits_before(s, a, b, told),
        pairs_distinct(old(out1)@, old(out2)@),
        ev_at(s, false, true, e.idx) == told,
    ensures
        final(out1)@.len() == final(out2)@.len(),
        final(active2)@ == old(active2)@.push(e.idx),
        final(active2)@.no_duplicates(),
        forall|x: i64| #[trigger] final(active2)@.contains(x) <==> open_at(s, false, x, told + 1),
        forall|x: i64| #[trigger] active1@.contains(x) <==> open_at(s, true, x, told + 1),
        forall|a: i64, b: i64|
            #[trigger] pair_in(final(out1)@, final(out2)@, a, b) <==> hits_before(s, a, b, told + 1),
        pairs_distinct(final(out1)@, final(out2)@),
{
    let ghost out1_pre = out1@;
    let ghost out2_pre = out2@;
    let m = active1.len();
    let mut w: usize = 0;
    while w < m
        invariant
            w <= m,
            m == active1@.len(),
            out1@.len() == out2@.len(),
            out1@.len() == out1_pre.len() + w as int,
            out1_pre.len() == out2_pre.len(),
            forall|r: int| 0 <= r < out1_pre.len() ==> out1@[r] == out1_pre[r],
            forall|r: int| 0 <= r < out2_pre.len() ==> out2@[r] == out2_pre[r],
            forall|r: int|
                out1_pre.len() <= r < out1@.len() ==> out2@[r] == e.idx && out1@[r] == active1@[r
                    - out1_pre.len()],
        decreases m - w,
    {
        out1.push(active1[w]);
        out2.push(e.idx);
        w += 1;
    }
    let ghost act2_pre = active2@;
    active2.push(e.idx);
    proof {
        lemma_pairs_after_open2(s, told, active1@, out1_pre, out2_pre, out1@, out2@);
        lemma_active_after_open(s, told, false, act2_pre, active2@);
        lemma_open_unchanged_other(s, told, true);
    }
}

/// At a group boundary no interval is still open: the end event of an open
/// interval would have to stand at or after the boundary, yet carry the
/// previous group.
proof fn lemma_actives_empty_on_group_change(
    s: Seq<Event>,
    told: int,
    current_chr: i64,
    act: Seq<i64>,
    fs: bool,
)
    requires
        stream_wf(s),
        1 <= told < s.len(),
        s[told].chr != current_chr,
        current_chr == s[told - 1].chr,
        forall|x: i64| #[trigger] act.contains(x) <==> open_at(s, fs, x, told),
        forall|x: i64| #[trigger] act.contains(x) ==> s[ev_at(s, fs, true, x)].chr == current_chr,
    ensures
        forall|x: i64| !(#[trigger] act.contains(x)),
{
    assert forall|x: i64| !(#[trigger] act.contains(x)) by {
        if act.contains(x) {
            assert(open_at(s, fs, x, told));
            crate::events::lemma_boundary_pair(s, fs, x);
            let pe = ev_at(s, fs, false, x);
            let ps = ev_at(s, fs, true, x);
            assert(s[pe].chr == s[ps].chr);
            assert(s[ps].chr == current_chr);
            if pe == told {
                assert(s[told].chr == current_chr);
            } else {
                crate::events::lemma_sorted_le(s, told, pe);
                crate::events::lemma_sorted_le(s, told - 1, told);
                assert(s[told].chr == current_chr);
            }
        }
    }
}

/// An event of one collection leaves the other collection's openness
/// untouched.
proof fn lemma_open_unchanged_other(s: Seq<Event>, told: int, fs: bool)
    requires
        stream_wf(s),
        0 <= told < s.len(),
        s[told].first_set != fs,
    ensures
        forall|x: i64| #[trigger] open_at(s, fs, x, told + 1) <==> open_at(s, fs, x, told),
{
    assert forall|x: i64| #[trigger] open_at(s, fs, x, told + 1) <==> open_at(s, fs, x, told) by {
        if has_ev(s, fs, true, x) {
            crate::events::lemma_ev_at_slot(s, fs, true, x);
            assert(ev_at(s, fs, true, x) != told);
            crate::events::lemma_boundary_pair(s, fs, x);
            assert(ev_at(s, fs, false, x) != told);
        }
    }
}

/// An end event decides no new pair.
proof fn lemma_hits_unchanged_end(s: Seq<Event>, told: int)
    requires
        stream_wf(s),
        0 <= told < s.len(),
        !s[told].is_start,
    ensures
        forall|a: i64, b: i64|
            #[trigger] hits_before(s, a, b, told + 1) <==> hits_before(s, a, b, told),
{
    assert forall|a: i64, b: i64| #[trigger] hits_before(s, a, b, told + 1) implies hits_before(
        s,
        a,
        b,
        told,
    ) by {
        crate::events::lemma_ev_at_slot(s, true, true, a);
        crate::events::lemma_ev_at_slot(s, false, true, b);
        if ev_at(s, true, true, a) == told {
            assert(is_slot(s[told], true, true, a));
            assert(false);
        }
        if ev_at(s, false, true, b) == told {
            assert(is_slot(s[told], false, true, b));
            assert(false);
        }
    }
}

/// Processes an end event: closes the interval in its collection's set.
fn process_end(active: &mut Vec<i64>, e: Event, Ghost(s): Ghost<Seq<Event>>, Ghost(told): Ghost<
    int,
>, Ghost(fs): Ghost<bool>)
    requires
        stream_wf(s),
        0 <= told < s.len(),
        s[told] == e,
        !e.is_start,
        e.first_set == fs,
        old(active)@.no_duplicates(),
        forall|x: i64| #[trigger] old(active)@.contains(x) <==> open_at(s, fs, x, told),
        ev_at(s, fs, false, e.idx) == told,
    ensures
        final(active)@.no_duplicates(),
        forall|x: i64| #[trigger] final(active)@.contains(x) <==> open_at(s, fs, x, told + 1),
        forall|x: i64| #[trigger] final(active)@.contains(x) ==> old(active)@.contains(x),
{
    proof {
        reveal(crate::events::slots_unique);
    }
    active_remove(active, e.idx);
    proof {
        assert forall|x: i64| #[trigger] active@.contains(x) implies open_at(
            s,
            fs,
            x,
            told + 1,
        ) by {
            assert(open_at(s, fs, x, told));
            assert(x != e.idx);
            crate::events::lemma_boundary_pair(s, fs, x);
            assert(ev_at(s, fs, false, x) != told);
            assert(ev_at(s, fs, true, x) != told);
        }
        assert forall|x: i64| open_at(s, fs, x, told + 1) implies #[trigger] active@.contains(
            x,
        ) by {
            crate::events::lemma_ev_at_slot(s, fs, true, x);
            assert(ev_at(s, fs, true, x) != told);
            assert(open_at(s, fs, x, told));
            if x == e.idx {
                assert(is_slot(s[told], fs, false, x));
                crate::events::lemma_ev_at_is(s, fs, false, x, told);
                assert(false);
            }
        }
    }
}


/// The event being processed is the unique event of its slot.
proof fn lemma_ev_at_self(s: Seq<Event>, told: int)
    requires
        stream_wf(s),
        0 <= told < s.len(),
    ensures
        ev_at(s, s[told].first_set, s[told].is_start, s[told].idx) == told,
{
    let e = s[told];
    assert(is_slot(s[told], e.first_set, e.is_start, e.idx));
    crate::events::lemma_ev_at_is(s, e.first_set, e.is_start, e.idx, told);
}

/// Opening an interval at an event of the current group keeps every open
/// interval on the current group.
proof fn lemma_chr_after_open(
    s: Seq<Event>,
    told: int,
    act_pre: Seq<i64>,
    act_post: Seq<i64>,
    fs: bool,
    cur: i64,
)
    requires
        stream_wf(s),
        0 <= told < s.len(),
        act_post == act_pre.push(s[told].idx),
        s[told].chr == cur,
        s[told].is_start,
        s[told].first_set == fs,
        ev_at(s, fs, true, s[told].idx) == told,
        forall|x: i64| #[trigger] act_pre.contains(x) ==> s[ev_at(s, fs, true, x)].chr == cur,
    ensures
        forall|x: i64| #[trigger] act_post.contains(x) ==> s[ev_at(s, fs, true, x)].chr == cur,
{
    assert forall|x: i64| #[trigger] act_post.contains(x) implies s[ev_at(s, fs, true, x)].chr
        == cur by {
        if x != s[told].idx {
            let r = choose|r: int| 0 <= r < act_post.len() && act_post[r] == x;
            assert(r < act_post.len() - 1);
            assert(act_pre[r] == x);
            assert(act_pre.contains(x));
        }
    }
}

/// The generic two-collection sweep driver: consumes a well-formed event
/// stream in order, resets the open sets at each group boundary, opens and
/// closes intervals at their boundary events, and emits every pair whose
/// later start falls while the partner is open.  The emitted pairs are
/// exactly the pairs of intervals that meet in the stream, each once.
#[verifier::rlimit(100)]
#[verifier::spinoff_prover]
pub fn sweep_pairs(events: &Vec<Event>) -> (res: (Vec<i64>, Vec<i64>))
    requires
        stream_wf(events@),
    ensures
        res.0@.len() == res.1@.len(),
        forall|a: i64, b: i64|
            #[trigger] pair_in(res.0@, res.1@, a, b) <==> stream_hits(events@, a, b),
        pairs_distinct(res.0@, res.1@),
{
    let ghost s = events@;
    let mut out1: Vec<i64> = Vec::new();
    let mut out2: Vec<i64> = Vec::new();
    let n = events.len();
    if n == 0 {
        return (out1, out2);
    }
    let mut active1: Vec<i64> = Vec::new();
    let mut active2: Vec<i64> = Vec::new();
    let mut current_chr: i64 = events[0].chr;
    let mut t: usize = 0;
    while t < n
        invariant
            stream_wf(s),
            s == events@,
            n == s.len(),
            0 < n,
            t <= n,
            out1@.len() == out2@.len(),
            active1@.no_duplicates(),
            active2@.no_duplicates(),
            forall|x: i64| #[trigger] active1@.contains(x) <==> open_at(s, true, x, t as int),
            forall|x: i64| #[trigger] active2@.contains(x) <==> open_at(s, false, x, t as int),
            forall|x: i64|
                #[trigger] active1@.contains(x) ==> s[ev_at(s, true, true, x)].chr == current_chr,
            forall|x: i64|
                #[trigger] active2@.contains(x) ==> s[ev_at(s, false, true, x)].chr == current_chr,
            t > 0 ==> current_chr == s[t as int - 1].chr,
            t == 0 ==> current_chr == s[0].chr,
            forall|a: i64, b: i64|
                #[trigger] pair_in(out1@, out2@, a, b) <==> hits_before(s, a, b, t as int),
            pairs_distinct(out1@, out2@),
        decreases n - t,
    {
        let e = events[t];
        let ghost told = t as int;
        if e.chr != current_chr {
            proof {
                lemma_actives_empty_on_group_change(s, told, current_chr, active1@, true);
                lemma_actives_empty_on_group_change(s, told, current_chr, active2@, false);
                assert forall|x: i64| !(#[trigger] open_at(s, true, x, told)) by {
                    if open_at(s, true, x, told) {
                        assert(active1@.contains(x));
                    }
                }
                assert forall|x: i64| !(#[trigger] open_at(s, false, x, told)) by {
                    if open_at(s, false, x, told) {
                        assert(active2@.contains(x));
                    }
                }
            }
            active1.clear();
            active2.clear();
            current_chr = e.chr;
            proof {
                assert(active1@.len() == 0 && active2@.len() == 0);
            }
        }
        proof {
            lemma_ev_at_self(s, told);
        }
        if e.is_start {
            if e.first_set {
                let ghost act1_before = active1@;
                process_start1(&mut out1, &mut out2, &mut active1, &active2, e, Ghost(s), Ghost(told));
                proof {
                    lemma_chr_after_open(s, told, act1_before, active1@, true, current_chr);
                }
            } else {
                let ghost act2_before = active2@;
                process_start2(&mut out1, &mut out2, &active1, &mut active2, e, Ghost(s), Ghost(told));
                proof {
                    lemma_chr_after_open(s, told, act2_before, active2@, false, current_chr);
                }
            }
        } else {
            if e.first_set {
                process_end(&mut active1, e, Ghost(s), Ghost(told), Ghost(true));
                proof {
                    lemma_open_unchanged_other(s, told, false);
                }
            } else {
                process_end(&mut active2, e, Ghost(s), Ghost(told), Ghost(false));
                proof {
                    lemma_open_unchanged_other(s, told, true);
                }
            }
            proof {
                lemma_hits_unchanged_end(s, told);
            }
        }
        t += 1;
    }
    proof {
        assert forall|a: i64, b: i64| #[trigger] stream_hits(s, a, b) implies hits_before(
            s,
            a,
            b,
            n as int,
        ) by {
            assert(ev_at(s, true, true, a) < s.len());
            assert(ev_at(s, false, true, b) < s.len());
        }
    }
    (out1, out2)
}

/// The overlap join over columnar inputs: returns two parallel index
/// columns holding, once each, exactly the row pairs whose slack-widened
/// first-collection span joins the second-collection span, in ascending
/// `(first row, second row)` order — the one sorted enumeration of the
/// joining pairs, so equal inputs give equal columns.
pub fn sweep_line_overlaps(
    chrs: &[i64],
    starts: &[i64],
    ends: &[i64],
    chrs2: &[i64],
    starts2: &[i64],
    ends2: &[i64],
    slack: i64,
) -> (res: (Vec<usize>, Vec<usize>))
    requires
        coords_ok(chrs@, starts@, ends@),
        coords_ok(chrs2@, starts2@, ends2@),
        slack_ok(slack),
        chrs@.len() < rows_bound(),
        chrs2@.len() < rows_bound(),
    ensures
        res.0@.len() == res.1@.len(),
        forall|i: int, j: int|
            #[trigger] pair_in_rows(res.0@, res.1@, i, j) <==> pair_joins(
                chrs@,
                starts@,
                ends@,
                slack as int,
                chrs2@,
                starts2@,
                ends2@,
                i,
                j,
            ),
        forall|r1: int, r2: int|
            0 <= r1 < r2 < res.0@.len() ==> !((#[trigger] res.0@[r1]) == (#[trigger] res.0@[r2])
                && res.1@[r1] == res.1@[r2]),
        forall|r1: int, r2: int|
            0 <= r1 < r2 < res.0@.len() ==> ((#[trigger] res.0@[r1]) < (#[trigger] res.0@[r2])
                || (res.0@[r1] == res.0@[r2] && res.1@[r1] < res.1@[r2])),
{
    let events = build_sorted_events(chrs, starts, ends, chrs2, starts2, ends2, slack);
    let ghost s = events@;
    let ghost sp1 = widened_starts(starts@, slack as int);
    let ghost ep1 = widened_ends(ends@, slack as int);
    let ghost sp2 = widened_starts(starts2@, 0);
    let ghost ep2 = widened_ends(ends2@, 0);
    proof {
        crate::sorts::lemma_paired_ok_widened(chrs@, starts@, ends@, slack as int, slack as int);
        crate::sorts::lemma_paired_ok_widened(chrs2@, starts2@, ends2@, 0, 0);
        crate::events::lemma_stream_recovery(s, chrs@, sp1, ep1, chrs2@, sp2, ep2);
    }
    let pairs = sweep_pairs(&events);
    let o1 = pairs.0;
    let o2 = pairs.1;
    proof {
        assert forall|a: i64, b: i64| #[trigger] pair_in(o1@, o2@, a, b) implies 0 <= a
            < chrs@.len() && 0 <= b < chrs2@.len() by {
            assert(stream_hits(s, a, b));
            assert(has_ev(s, true, true, a));
            assert(has_ev(s, false, true, b));
        }
    }
    let m = o1.len();
    let mut res1: Vec<usize> = Vec::new();
    let mut res2: Vec<usize> = Vec::new();
    let mut r: usize = 0;
    while r < m
        invariant
            m == o1@.len(),
            o2@.len() == m,
            r <= m,
            chrs@.len() < rows_bound(),
            chrs2@.len() < rows_bound(),
            forall|a: i64, b: i64|
                #[trigger] pair_in(o1@, o2@, a, b) ==> 0 <= a < chrs@.len() && 0 <= b
                    < chrs2@.len(),
            res1@.len() == r as int,
            res2@.len() == r as int,
            forall|t: int| 0 <= t < r as int ==> (#[trigger] res1@[t]) as int == o1@[t] as int,
            forall|t: int| 0 <= t < r as int ==> (#[trigger] res2@[t]) as int == o2@[t] as int,
        decreases m - r,
    {
        proof {
            assert(pair_in(o1@, o2@, o1@[r as int], o2@[r as int]));
            assert(0 <= o1@[r as int] < chrs@.len());
            assert(0 <= o2@[r as int] < chrs2@.len());
        }
        let a = o1[r];
        let b = o2[r];
        proof {
            assert(0 <= a < 0x4000_0000 && 0 <= b < 0x4000_0000);
            assert((a as usize) as int == a as int);
            assert((b as usize) as int == b as int);
        }
        res1.push(a as usize);
        res2.push(b as usize);
        r += 1;
    }
    proof {
        assert forall|i: int, j: int| #[trigger] pair_in_rows(res1@, res2@, i, j) implies
            pair_joins(chrs@, starts@, ends@, slack as int, chrs2@, starts2@, ends2@, i, j) by {
            let rr = choose|rr: int|
                0 <= rr < res1@.len() && (#[trigger] res1@[rr]) as int == i && (
                #[trigger] res2@[rr]) as int == j;
            let a = o1@[rr];
            let b = o2@[rr];
            assert(pair_in(o1@, o2@, a, b));
            assert(stream_hits(s, a, b));
            crate::events::lemma_hits_iff_joins(s, chrs@, sp1, ep1, chrs2@, sp2, ep2, a, b);
            assert(a as int == i && b as int == j);
        }
        assert forall|i: int, j: int| pair_joins(
            chrs@,
            starts@,
            ends@,
            slack as int,
            chrs2@,
            starts2@,
            ends2@,
            i,
            j,
        ) implies #[trigger] pair_in_rows(res1@, res2@, i, j) by {
            let a = i as i64;
            let b = j as i64;
            crate::events::lemma_hits_iff_joins(s, chrs@, sp1, ep1, chrs2@, sp2, ep2, a, b);
            assert(stream_hits(s, a, b));
            assert(pair_in(o1@, o2@, a, b));
            let rr = choose|rr: int|
                0 <= rr < o1@.len() && (#[trigger] o1@[rr]) == a && (#[trigger] o2@[rr]) == b;
            assert(res1@[rr] as int == i && res2@[rr] as int == j);
        }
        assert forall|r1: int, r2: int| 0 <= r1 < r2 < res1@.len() implies !((
        #[trigger] res1@[r1]) == (#[trigger] res1@[r2]) && res2@[r1] == res2@[r2]) by {
            assert(!(o1@[r1] == o1@[r2] && o2@[r1] == o2@[r2]));
        }
    }
    let ghost pre1 = res1@;
    let ghost pre2 = res2@;
    let mut pv: Vec<(usize, usize)> = Vec::new();
    let mlen = res1.len();
    let mut rz: usize = 0;
    while rz < mlen
        invariant
            mlen == res1@.len(),
            res2@.len() == mlen,
            rz <= mlen,
            pv@.len() == rz as int,
            forall|t: int| 0 <= t < rz as int ==> (#[trigger] pv@[t]) == (res1@[t], res2@[t]),
        decreases mlen - rz,
    {
        pv.push((res1[rz], res2[rz]));
        rz += 1;
    }
    let ghost pv_pre = pv@;
    crate::sorts::sort_index_pairs(&mut pv);
    let mut out1: Vec<usize> = Vec::new();
    let mut out2: Vec<usize> = Vec::new();
    let n2o = pv.len();
    let mut ru: usize = 0;
    while ru < n2o
        invariant
            n2o == pv@.len(),
            ru <= n2o,
            out1@.len() == ru as int,
            out2@.len() == ru as int,
            forall|t: int| 0 <= t < ru as int ==> (#[trigger] pv@[t]) == (out1@[t], out2@[t]),
        decreases n2o - ru,
    {
        let p = pv[ru];
        out1.push(p.0);
        out2.push(p.1);
        ru += 1;
    }
    proof {
        pv_pre.to_multiset_ensures();
        pv@.to_multiset_ensures();
        assert(pv@.len() == pv_pre.len());
        assert forall|i: int, j: int| #[trigger] pair_in_rows(out1@, out2@, i, j) implies
            pair_joins(chrs@, starts@, ends@, slack as int, chrs2@, starts2@, ends2@, i, j) by {
            let rr = choose|rr: int|
                0 <= rr < out1@.len() && (#[trigger] out1@[rr]) as int == i && (
                #[trigger] out2@[rr]) as int == j;
            crate::events::lemma_count_eq_index(pv@, rr);
            crate::events::lemma_counts_transfer(pv@, pv_pre, pv@[rr]);
            crate::events::lemma_count_eq_pos(pv_pre, pv@[rr]);
            let qq = choose|qq: int| 0 <= qq < pv_pre.len() && pv_pre[qq] == pv@[rr];
            assert(pv_pre[qq] == (pre1[qq], pre2[qq]));
            assert(pv@[rr] == (out1@[rr], out2@[rr]));
            assert(pre1[qq] == out1@[rr] && pre2[qq] == out2@[rr]);
            assert(pair_in_rows(pre1, pre2, i, j));
        }
        assert forall|i: int, j: int|
            pair_joins(
                chrs@,
                starts@,
                ends@,
                slack as int,
                chrs2@,
                starts2@,
                ends2@,
                i,
                j,
            ) implies #[trigger] pair_in_rows(out1@, out2@, i, j) by {
            assert(pair_in_rows(pre1, pre2, i, j));
            let qq = choose|qq: int|
                0 <= qq < pre1.len() && (#[trigger] pre1[qq]) as int == i && (#[trigger] pre2[qq])
                    as int == j;
            crate::events::lemma_count_eq_index(pv_pre, qq);
            crate::events::lemma_counts_transfer(pv_pre, pv@, pv_pre[qq]);
            crate::events::lemma_count_eq_pos(pv@, pv_pre[qq]);
            let rr = choose|rr: int| 0 <= rr < pv@.len() && pv@[rr] == pv_pre[qq];
            assert(pv@[rr] == (out1@[rr], out2@[rr]));
            assert(pv_pre[qq] == (pre1[qq], pre2[qq]));
            assert(out1@[rr] as int == i && out2@[rr] as int == j);
            assert(pair_in_rows(out1@, out2@, i, j));
        }
        assert forall|r1: int, r2: int| 0 <= r1 < r2 < out1@.len() implies !((
        #[trigger] out1@[r1]) == (#[trigger] out1@[r2]) && out2@[r1] == out2@[r2]) by {
            if out1@[r1] == out1@[r2] && out2@[r1] == out2@[r2] {
                assert(pv@[r1] == (out1@[r1], out2@[r1]));
                assert(pv@[r2] == (out1@[r2], out2@[r2]));
                assert(pv@[r1] == pv@[r2]);
                crate::events::lemma_count_eq_two(pv@, pv@[r1], r1, r2);
                crate::events::lemma_counts_transfer(pv@, pv_pre, pv@[r1]);
                crate::events::lemma_count_eq_pos(pv_pre, pv@[r1]);
                let qq = choose|qq: int| 0 <= qq < pv_pre.len() && pv_pre[qq] == pv@[r1];
                assert forall|q2: int|
                    0 <= q2 < pv_pre.len() && pv_pre[q2] == pv@[r1] implies q2 == qq by {
                    assert(pv_pre[q2] == (pre1[q2], pre2[q2]));
                    assert(pv_pre[qq] == (pre1[qq], pre2[qq]));
                    if q2 < qq {
                        assert(!(pre1[q2] == pre1[qq] && pre2[q2] == pre2[qq]));
                        assert(false);
                    } else if q2 > qq {
                        assert(!(pre1[qq] == pre1[q2] && pre2[qq] == pre2[q2]));
                        assert(false);
                    }
                }
                crate::events::lemma_count_eq_unique(pv_pre, pv@[r1], qq);
                assert(false);
            }
        }
        assert forall|r1: int, r2: int| 0 <= r1 < r2 < out1@.len() implies ((
        #[trigger] out1@[r1]) < (#[trigger] out1@[r2]) || (out1@[r1] == out1@[r2] && out2@[r1]
            < out2@[r2])) by {
            assert(crate::sorts::upair_le(pv@[r1], pv@[r2]));
            assert(pv@[r1] == (out1@[r1], out2@[r1]));
            assert(pv@[r2] == (out1@[r2], out2@[r2]));
            assert(!(out1@[r1] == out1@[r2] && out2@[r1] == out2@[r2]));
        }
    }
    (out1, out2)
}

/// Which of the four merged boundary streams an event came from.
#[derive(Copy, Clone, Debug, PartialEq, Eq, Structural)]
pub enum WhichList {
    StartSet1,
    EndSet1,
    StartSet2,
    EndSet2,
}

impl WhichList {
    /// Whether the stream carries start boundaries.
    pub fn is_start(&self) -> (r: bool)
        ensures
            r == (*self is StartSet1 || *self is StartSet2),
    {
        match self {
            WhichList::StartSet1 | WhichList::StartSet2 => true,
            WhichList::EndSet1 | WhichList::EndSet2 => false,
        }
    }
}

/// The winner among two optional stream heads: the smaller by
/// `(chr, pos)`, a start before an end at a tie, and the first argument
/// when fully tied.
pub open spec fn pick2_spec(
    a: Option<(WhichList, MinEvent)>,
    b: Option<(WhichList, MinEvent)>,
) -> Option<(WhichList, MinEvent)> {
    match (a, b) {
        (Option::None, Option::None) => Option::None,
        (Option::Some(x), Option::None) => Option::Some(x),
        (Option::None, Option::Some(y)) => Option::Some(y),
        (Option::Some((wa, ea)), Option::Some((wb, eb))) => {
            if ea.chr < eb.chr {
                a
            } else if eb.chr < ea.chr {
                b
            } else if ea.pos < eb.pos {
                a
            } else if eb.pos < ea.pos {
                b
            } else {
                let a_is_start = wa is StartSet1 || wa is StartSet2;
                let b_is_start = wb is StartSet1 || wb is StartSet2;
                if a_is_start == b_is_start {
                    a
                } else if a_is_start {
                    a
                } else {
                    b
                }
            }
        },
    }
}

/// Picks the earlier of two optional stream heads, starts first at a tied
/// position, the first argument at a full tie.
pub fn pick_winner_of_two_choose_first_if_equal(
    a: Option<(WhichList, MinEvent)>,
    b: Option<(WhichList, MinEvent)>,
) -> (res: Option<(WhichList, MinEvent)>)
    ensures
        res == pick2_spec(a, b),
{
    match (a, b) {
        (None, None) => None,
        (Some(x), None) => Some(x),
        (None, Some(y)) => Some(y),
        (Some((wh_a, ev_a)), Some((wh_b, ev_b))) => {
            if ev_a.chr < ev_b.chr {
                Some((wh_a, ev_a))
            } else if ev_b.chr < ev_a.chr {
                Some((wh_b, ev_b))
            } else if ev_a.pos < ev_b.pos {
                Some((wh_a, ev_a))
            } else if ev_b.pos < ev_a.pos {
                Some((wh_b, ev_b))
            } else {
                let a_is_start = wh_a.is_start();
                let b_is_start = wh_b.is_start();
                if a_is_start == b_is_start {
                    Some((wh_a, ev_a))
                } else if a_is_start {
                    Some((wh_a, ev_a))
                } else {
                    Some((wh_b, ev_b))
                }
            }
        },
    }
}

/// Picks the earliest of four optional stream heads, pairing starts
/// against starts and ends against ends first, as the four-way merge asks.
pub fn pick_winner_of_four(
    s1: Option<(WhichList, MinEvent)>,
    s2: Option<(WhichList, MinEvent)>,
    e1: Option<(WhichList, MinEvent)>,
    e2: Option<(WhichList, MinEvent)>,
) -> (res: Option<(WhichList, MinEvent)>)
    ensures
        res == pick2_spec(pick2_spec(s1, e1), pick2_spec(s2, e2)),
{
    let starts_winner = pick_winner_of_two_choose_first_if_equal(s1, e1);
    let ends_winner = pick_winner_of_two_choose_first_if_equal(s2, e2);
    pick_winner_of_two_choose_first_if_equal(starts_winner, ends_winner)
}

/// Row index `i` appears in the reported column.
pub open spec fn row_reported(res: Seq<usize>, i: int) -> bool {
    exists|r: int| 0 <= r < res.len() && (#[trigger] res[r]) as int == i
}

/// Row `i` of the first collection joins some row of the second.
pub open spec fn row_joins_any(
    chrs: Seq<i64>,
    starts: Seq<i64>,
    ends: Seq<i64>,
    slack: int,
    chrs2: Seq<i64>,
    starts2: Seq<i64>,
    ends2: Seq<i64>,
    i: int,
) -> bool {
    exists|j: int|
        0 <= j < chrs2.len() && #[trigger] pair_joins(
            chrs,
            starts,
            ends,
            slack,
            chrs2,
            starts2,
            ends2,
            i,
            j,
        )
}

/// A companion second column exhibiting the reported rows as the
/// distinct joining pairs: together the columns hold each joining pair
/// once, so each first-collection row appears once per partner it joins.
pub open spec fn set1_pairing(
    o1: Seq<usize>,
    o2: Seq<usize>,
    chrs: Seq<i64>,
    starts: Seq<i64>,
    ends: Seq<i64>,
    slack: int,
    chrs2: Seq<i64>,
    starts2: Seq<i64>,
    ends2: Seq<i64>,
) -> bool {
    &&& o2.len() == o1.len()
    &&& forall|r1: int, r2: int|
        0 <= r1 < r2 < o1.len() ==> !((#[trigger] o1[r1]) == (#[trigger] o1[r2]) && o2[r1]
            == o2[r2])
    &&& forall|i: int, j: int|
        #[trigger] pair_in_rows(o1, o2, i, j) <==> pair_joins(
            chrs,
            starts,
            ends,
            slack,
            chrs2,
            starts2,
            ends2,
            i,
            j,
        )
}

/// The join restricted to its first column: one entry per pair.
pub fn sweep_line_overlaps_set1(
    chrs: &[i64],
    starts: &[i64],
    ends: &[i64],
    chrs2: &[i64],
    starts2: &[i64],
    ends2: &[i64],
    slack: i64,
) -> (res: Vec<usize>)
    requires
        coords_ok(chrs@, starts@, ends@),
        coords_ok(chrs2@, starts2@, ends2@),
        slack_ok(slack),
        chrs@.len() < rows_bound(),
        chrs2@.len() < rows_bound(),
    ensures
        forall|i: int|
            #[trigger] row_reported(res@, i) <==> row_joins_any(
                chrs@,
                starts@,
                ends@,
                slack as int,
                chrs2@,
                starts2@,
                ends2@,
                i,
            ),
        exists|o2: Seq<usize>|
            #[trigger] set1_pairing(
                res@,
                o2,
                chrs@,
                starts@,
                ends@,
                slack as int,
                chrs2@,
                starts2@,
                ends2@,
            ),
{
    let pairs = sweep_line_overlaps(chrs, starts, ends, chrs2, starts2, ends2, slack);
    proof {
        assert(set1_pairing(
            pairs.0@,
            pairs.1@,
            chrs@,
            starts@,
            ends@,
            slack as int,
            chrs2@,
            starts2@,
            ends2@,
        ));
        assert forall|i: int| #[trigger] row_reported(pairs.0@, i) implies row_joins_any(
            chrs@,
            starts@,
            ends@,
            slack as int,
            chrs2@,
            starts2@,
            ends2@,
            i,
        ) by {
            let r = choose|r: int|
                0 <= r < pairs.0@.len() && (#[trigger] pairs.0@[r]) as int == i;
            assert(pair_in_rows(pairs.0@, pairs.1@, pairs.0@[r] as int, pairs.1@[r] as int));
            let j = pairs.1@[r] as int;
            assert(pair_joins(chrs@, starts@, ends@, slack as int, chrs2@, starts2@, ends2@, i, j));
        }
        assert forall|i: int|
            row_joins_any(
                chrs@,
                starts@,
                ends@,
                slack as int,
                chrs2@,
                starts2@,
                ends2@,
                i,
            ) implies #[trigger] row_reported(pairs.0@, i) by {
            let j = choose|j: int|
                0 <= j < chrs2@.len() && #[trigger] pair_joins(
                    chrs@,
                    starts@,
                    ends@,
                    slack as int,
                    chrs2@,
                    starts2@,
                    ends2@,
                    i,
                    j,
                );
            assert(pair_in_rows(pairs.0@, pairs.1@, i, j));
            let r = choose|r: int|
                0 <= r < pairs.0@.len() && (#[trigger] pairs.0@[r]) as int == i && (
                #[trigger] pairs.1@[r]) as int == j;
            assert(row_reported(pairs.0@, i));
        }
    }
    pairs.0
}

/// Partner row `j` comes no later than `j2` in sweep order: its start
/// boundary sorts first (smaller position, ties broken by row order, the
/// order the stable event sort fixes).
pub open spec fn partner_le(starts2: Seq<i64>, j: int, j2: int) -> bool {
    starts2[j] < starts2[j2] || (starts2[j] == starts2[j2] && j <= j2)
}

/// Row `s` of the kept columns copies some pair among the first `t`.
pub open spec fn kept_from(
    o1: Seq<usize>,
    o2: Seq<usize>,
    out1: Seq<usize>,
    out2: Seq<usize>,
    t: int,
    s: int,
) -> bool {
    exists|r: int| 0 <= r < t && (#[trigger] o1[r]) == out1[s] && o2[r] == out2[s]
}

/// Query `q` occurs among the first `t` pair rows.
pub open spec fn query_seen(o1: Seq<usize>, t: int, q: int) -> bool {
    exists|r: int| 0 <= r < t && (#[trigger] o1[r]) as int == q
}

/// The first-overlap join: one row per first-collection row that joins
/// anything, carrying the partner the sweep meets first — among the
/// row's joining partners, the one whose start boundary comes first in
/// the sorted event order, that is, the least `(start, row)` partner.
pub fn sweep_line_first_overlaps(
    chrs: &[i64],
    starts: &[i64],
    ends: &[i64],
    chrs2: &[i64],
    starts2: &[i64],
    ends2: &[i64],
    slack: i64,
) -> (res: (Vec<usize>, Vec<usize>))
    requires
        coords_ok(chrs@, starts@, ends@),
        coords_ok(chrs2@, starts2@, ends2@),
        slack_ok(slack),
        chrs@.len() < rows_bound(),
        chrs2@.len() < rows_bound(),
    ensures
        res.0@.len() == res.1@.len(),
        forall|r1: int, r2: int|
            0 <= r1 < r2 < res.0@.len() ==> (#[trigger] res.0@[r1]) != (#[trigger] res.0@[r2]),
        forall|r: int|
            0 <= r < res.0@.len() ==> pair_joins(
                chrs@,
                starts@,
                ends@,
                slack as int,
                chrs2@,
                starts2@,
                ends2@,
                (#[trigger] res.0@[r]) as int,
                res.1@[r] as int,
            ),
        forall|i: int, j: int|
            pair_joins(
                chrs@,
                starts@,
                ends@,
                slack as int,
                chrs2@,
                starts2@,
                ends2@,
                i,
                j,
            ) ==> exists|r: int| 0 <= r < res.0@.len() && (#[trigger] res.0@[r]) as int == i,
        // the reported partner is the first in sweep order
        forall|r: int, j2: int|
            #![trigger res.0@[r], starts2@[j2]]
            0 <= r < res.0@.len() && pair_joins(
                chrs@,
                starts@,
                ends@,
                slack as int,
                chrs2@,
                starts2@,
                ends2@,
                res.0@[r] as int,
                j2,
            ) ==> partner_le(starts2@, res.1@[r] as int, j2),
{
    let pairs = sweep_line_overlaps(chrs, starts, ends, chrs2, starts2, ends2, slack);
    let ghost o1 = pairs.0@;
    let ghost o2 = pairs.1@;
    proof {
        assert forall|r: int| 0 <= r < o1.len() implies pair_joins(
            chrs@,
            starts@,
            ends@,
            slack as int,
            chrs2@,
            starts2@,
            ends2@,
            (#[trigger] o1[r]) as int,
            o2[r] as int,
        ) by {
            assert(pair_in_rows(o1, o2, o1[r] as int, o2[r] as int));
        }
    }
    let n1 = chrs.len();
    let np = pairs.0.len();
    let mut chosen: Vec<bool> = Vec::new();
    let mut slot: Vec<usize> = Vec::new();
    let mut i: usize = 0;
    while i < n1
        invariant
            i <= n1,
            chosen@.len() == i as int,
            slot@.len() == i as int,
            forall|q: int| 0 <= q < i as int ==> !(#[trigger] chosen@[q]),
        decreases n1 - i,
    {
        chosen.push(false);
        slot.push(0);
        i += 1;
    }
    let mut out1: Vec<usize> = Vec::new();
    let mut out2: Vec<usize> = Vec::new();
    let mut t: usize = 0;
    while t < np
        invariant
            t <= np,
            np == o1.len(),
            o2.len() == o1.len(),
            o1 == pairs.0@,
            o2 == pairs.1@,
            n1 == chrs@.len(),
            starts2@.len() == chrs2@.len(),
            chosen@.len() == n1 as int,
            slot@.len() == n1 as int,
            out2@.len() == out1@.len(),
            forall|r: int|
                0 <= r < np ==> pair_joins(
                    chrs@,
                    starts@,
                    ends@,
                    slack as int,
                    chrs2@,
                    starts2@,
                    ends2@,
                    (#[trigger] o1[r]) as int,
                    o2[r] as int,
                ),
            forall|q: int|
                0 <= q < n1 as int ==> ((#[trigger] chosen@[q]) <==> query_seen(o1, t as int, q)),
            forall|q: int|
                0 <= q < n1 as int && #[trigger] chosen@[q] ==> slot@[q] < out1@.len()
                    && out1@[slot@[q] as int] as int == q,
            forall|s: int|
                0 <= s < out1@.len() ==> (#[trigger] out1@[s]) < n1 && chosen@[out1@[s] as int]
                    && slot@[out1@[s] as int] as int == s,
            forall|s: int| 0 <= s < out1@.len() ==> (#[trigger] out2@[s]) < chrs2@.len(),
            forall|s: int|
                0 <= s < out1@.len() ==> #[trigger] kept_from(o1, o2, out1@, out2@, t as int, s),
            forall|s: int, r: int|
                #![trigger out1@[s], o1[r]]
                0 <= s < out1@.len() && 0 <= r < t as int && o1[r] == out1@[s] ==> partner_le(
                    starts2@,
                    out2@[s] as int,
                    o2[r] as int,
                ),
        decreases np - t,
    {
        let q = pairs.0[t];
        let j = pairs.1[t];
        proof {
            assert(o1[t as int] == q && o2[t as int] == j);
            assert(pair_joins(
                chrs@,
                starts@,
                ends@,
                slack as int,
                chrs2@,
                starts2@,
                ends2@,
                q as int,
                j as int,
            ));
        }
        let ghost out1_pre = out1@;
        let ghost out2_pre = out2@;
        let ghost chosen_pre = chosen@;
        if !chosen[q] {
            slot.set(q, out1.len());
            chosen.set(q, true);
            out1.push(q);
            out2.push(j);
            proof {
                assert forall|q2: int| 0 <= q2 < n1 as int implies ((#[trigger] chosen@[q2])
                    <==> query_seen(o1, t as int + 1, q2)) by {
                    if q2 == q as int {
                        assert(o1[t as int] as int == q2);
                        assert(query_seen(o1, t as int + 1, q2));
                    } else {
                        assert(chosen@[q2] == chosen_pre[q2]);
                        if chosen_pre[q2] {
                            assert(query_seen(o1, t as int, q2));
                            let r = choose|r: int|
                                0 <= r < t as int && (#[trigger] o1[r]) as int == q2;
                            assert(0 <= r < t as int + 1 && o1[r] as int == q2);
                            assert(query_seen(o1, t as int + 1, q2));
                        } else {
                            if query_seen(o1, t as int + 1, q2) {
                                let r = choose|r: int|
                                    0 <= r < t as int + 1 && (#[trigger] o1[r]) as int == q2;
                                assert(r != t as int);
                                assert(query_seen(o1, t as int, q2));
                                assert(false);
                            }
                        }
                    }
                }
                assert forall|s: int| 0 <= s < out1@.len() implies #[trigger] kept_from(
                    o1,
                    o2,
                    out1@,
                    out2@,
                    t as int + 1,
                    s,
                ) by {
                    if s < out1_pre.len() {
                        assert(kept_from(o1, o2, out1_pre, out2_pre, t as int, s));
                        let r = choose|r: int|
                            0 <= r < t as int && (#[trigger] o1[r]) == out1_pre[s] && o2[r]
                                == out2_pre[s];
                        assert(out1@[s] == out1_pre[s] && out2@[s] == out2_pre[s]);
                        assert(0 <= r < t as int + 1 && o1[r] == out1@[s] && o2[r] == out2@[s]);
                    } else {
                        assert(out1@[s] == q && out2@[s] == j);
                        assert(o1[t as int] == out1@[s] && o2[t as int] == out2@[s]);
                    }
                }
                assert forall|s: int, r: int|
                    0 <= s < out1@.len() && 0 <= r < t as int + 1 && (#[trigger] o1[r]) == (
                #[trigger] out1@[s]) implies partner_le(starts2@, out2@[s] as int, o2[r] as int) by {
                    if s < out1_pre.len() {
                        if r < t as int {
                            assert(o1[r] == out1_pre[s]);
                            assert(partner_le(starts2@, out2_pre[s] as int, o2[r] as int));
                        } else {
                            assert(chosen_pre[out1_pre[s] as int]);
                            assert(out1@[s] == out1_pre[s]);
                            assert(o1[t as int] == q);
                            assert(!chosen_pre[q as int]);
                            assert(false);
                        }
                    } else {
                        assert(out1@[s] == q && out2@[s] == j);
                        if r < t as int {
                            assert(o1[r] as int == q as int);
                            assert(query_seen(o1, t as int, q as int));
                            assert(chosen_pre[q as int]);
                            assert(false);
                        }
                    }
                }
            }
        } else {
            proof {
                assert(chosen@[q as int]);
            }
            let s = slot[q];
            let cur = out2[s];
            let ghost replaced = starts2@[j as int] < starts2@[cur as int] || (starts2@[j as int]
                == starts2@[cur as int] && j < cur);
            if starts2[j] < starts2[cur] || (starts2[j] == starts2[cur] && j < cur) {
                out2.set(s, j);
            }
            proof {
                assert forall|q2: int| 0 <= q2 < n1 as int implies ((#[trigger] chosen@[q2])
                    <==> query_seen(o1, t as int + 1, q2)) by {
                    if q2 == q as int {
                        assert(o1[t as int] as int == q2);
                        assert(query_seen(o1, t as int + 1, q2));
                    } else {
                        if chosen@[q2] {
                            assert(query_seen(o1, t as int, q2));
                            let r = choose|r: int|
                                0 <= r < t as int && (#[trigger] o1[r]) as int == q2;
                            assert(0 <= r < t as int + 1 && o1[r] as int == q2);
                            assert(query_seen(o1, t as int + 1, q2));
                        } else {
                            if query_seen(o1, t as int + 1, q2) {
                                let r = choose|r: int|
                                    0 <= r < t as int + 1 && (#[trigger] o1[r]) as int == q2;
                                assert(r != t as int);
                                assert(query_seen(o1, t as int, q2));
                                assert(false);
                            }
                        }
                    }
                }
                assert forall|s2: int| 0 <= s2 < out1@.len() implies #[trigger] kept_from(
                    o1,
                    o2,
                    out1@,
                    out2@,
                    t as int + 1,
                    s2,
                ) by {
                    if s2 == s as int && replaced {
                        assert(out1@[s2] == q && out2@[s2] == j);
                        assert(o1[t as int] == out1@[s2] && o2[t as int] == out2@[s2]);
                    } else {
                        assert(out1@[s2] == out1_pre[s2] && out2@[s2] == out2_pre[s2]);
                        assert(kept_from(o1, o2, out1_pre, out2_pre, t as int, s2));
                        let r = choose|r: int|
                            0 <= r < t as int && (#[trigger] o1[r]) == out1_pre[s2] && o2[r]
                                == out2_pre[s2];
                        assert(0 <= r < t as int + 1 && o1[r] == out1@[s2] && o2[r] == out2@[s2]);
                    }
                }
                assert forall|s2: int, r: int|
                    0 <= s2 < out1@.len() && 0 <= r < t as int + 1 && (#[trigger] o1[r]) == (
                #[trigger] out1@[s2]) implies partner_le(starts2@, out2@[s2] as int, o2[r] as int) by {
                    if s2 == s as int {
                        if replaced {
                            assert(out2@[s2] == j);
                            if r < t as int {
                                assert(partner_le(starts2@, out2_pre[s2] as int, o2[r] as int));
                                assert(out2_pre[s2] == cur);
                                assert(partner_le(starts2@, j as int, cur as int));
                            } else {
                                assert(o2[r] == j);
                            }
                        } else {
                            assert(out2@[s2] == out2_pre[s2] && out2_pre[s2] == cur);
                            if r < t as int {
                                assert(partner_le(starts2@, out2_pre[s2] as int, o2[r] as int));
                            } else {
                                assert(o2[r] == j);
                                assert(partner_le(starts2@, cur as int, j as int));
                            }
                        }
                    } else {
                        assert(out2@[s2] == out2_pre[s2] && out1@[s2] == out1_pre[s2]);
                        if r < t as int {
                            assert(partner_le(starts2@, out2_pre[s2] as int, o2[r] as int));
                        } else {
                            assert(o1[t as int] == q);
                            assert(out1@[s2] as int == q as int);
                            assert(slot@[out1@[s2] as int] as int == s2);
                            assert(slot@[q as int] == s);
                            assert(false);
                        }
                    }
                }
            }
        }
        t += 1;
    }
    proof {
        assert forall|r: int| 0 <= r < out1@.len() implies pair_joins(
            chrs@,
            starts@,
            ends@,
            slack as int,
            chrs2@,
            starts2@,
            ends2@,
            (#[trigger] out1@[r]) as int,
            out2@[r] as int,
        ) by {
            assert(kept_from(o1, o2, out1@, out2@, np as int, r));
            let rr = choose|rr: int|
                0 <= rr < np as int && (#[trigger] o1[rr]) == out1@[r] && o2[rr] == out2@[r];
            assert(pair_joins(
                chrs@,
                starts@,
                ends@,
                slack as int,
                chrs2@,
                starts2@,
                ends2@,
                o1[rr] as int,
                o2[rr] as int,
            ));
        }
        assert forall|i2: int, j2: int|
            pair_joins(
                chrs@,
                starts@,
                ends@,
                slack as int,
                chrs2@,
                starts2@,
                ends2@,
                i2,
                j2,
            ) implies exists|r: int| 0 <= r < out1@.len() && (#[trigger] out1@[r]) as int == i2 by {
            assert(pair_in_rows(o1, o2, i2, j2));
            let rr = choose|rr: int|
                0 <= rr < o1.len() && (#[trigger] o1[rr]) as int == i2 && (#[trigger] o2[rr])
                    as int == j2;
            assert(0 <= i2 < n1 as int);
            assert(query_seen(o1, np as int, i2));
            assert(chosen@[i2]);
            let sidx = slot@[i2] as int;
            assert(0 <= sidx < out1@.len());
            assert(out1@[sidx] as int == i2);
            assert(exists|r: int| 0 <= r < out1@.len() && (#[trigger] out1@[r]) as int == i2);
        }
        assert forall|r: int, j2: int|
            #![trigger out1@[r], starts2@[j2]]
            0 <= r < out1@.len() && pair_joins(
                chrs@,
                starts@,
                ends@,
                slack as int,
                chrs2@,
                starts2@,
                ends2@,
                out1@[r] as int,
                j2,
            ) implies partner_le(starts2@, out2@[r] as int, j2) by {
            assert(pair_in_rows(o1, o2, out1@[r] as int, j2));
            let rr = choose|rr: int|
                0 <= rr < o1.len() && (#[trigger] o1[rr]) as int == out1@[r] as int && (
                #[trigger] o2[rr]) as int == j2;
            assert(o1[rr] == out1@[r]);
            assert(partner_le(starts2@, out2@[r] as int, o2[rr] as int));
        }
        assert forall|s1: int, s2: int| 0 <= s1 < s2 < out1@.len() implies (#[trigger] out1@[s1])
            != (#[trigger] out1@[s2]) by {
            if out1@[s1] == out1@[s2] {
                assert(slot@[out1@[s1] as int] as int == s1);
                assert(slot@[out1@[s2] as int] as int == s2);
            }
        }
    }
    (out1, out2)
}

/// Output row `q` of the containment filter copies an input pair among
/// the first `t` that satisfies containment.
pub open spec fn contained_from(
    chrs: Seq<i64>,
    starts: Seq<i64>,
    ends: Seq<i64>,
    slack: int,
    chrs2: Seq<i64>,
    starts2: Seq<i64>,
    ends2: Seq<i64>,
    o1: Seq<usize>,
    o2: Seq<usize>,
    r1: Seq<usize>,
    r2: Seq<usize>,
    t: int,
    q: int,
) -> bool {
    exists|q2: int|
        0 <= q2 < t && (#[trigger] o1[q2]) == r1[q] && o2[q2] == r2[q] && pair_contained(
            chrs,
            starts,
            ends,
            slack,
            chrs2,
            starts2,
            ends2,
            o1[q2] as int,
            o2[q2] as int,
        )
}

/// One widened span contains the other.
pub open spec fn pair_contained(
    chrs: Seq<i64>,
    starts: Seq<i64>,
    ends: Seq<i64>,
    slack: int,
    chrs2: Seq<i64>,
    starts2: Seq<i64>,
    ends2: Seq<i64>,
    i: int,
    j: int,
) -> bool {
    ||| (widen_start(starts[i] as int, slack) <= starts2[j] && ends2[j] <= ends[i] + slack)
    ||| (starts2[j] <= widen_start(starts[i] as int, slack) && ends[i] + slack <= ends2[j])
}

/// The containment join: the pairs of the overlap join where one widened
/// span wholly contains the other.
pub fn sweep_line_overlaps_containment(
    chrs: &[i64],
    starts: &[i64],
    ends: &[i64],
    chrs2: &[i64],
    starts2: &[i64],
    ends2: &[i64],
    slack: i64,
) -> (res: (Vec<usize>, Vec<usize>))
    requires
        coords_ok(chrs@, starts@, ends@),
        coords_ok(chrs2@, starts2@, ends2@),
        slack_ok(slack),
        chrs@.len() < rows_bound(),
        chrs2@.len() < rows_bound(),
    ensures
        res.0@.len() == res.1@.len(),
        forall|i: int, j: int|
            #[trigger] pair_in_rows(res.0@, res.1@, i, j) <==> (pair_joins(
                chrs@,
                starts@,
                ends@,
                slack as int,
                chrs2@,
                starts2@,
                ends2@,
                i,
                j,
            ) && pair_contained(
                chrs@,
                starts@,
                ends@,
                slack as int,
                chrs2@,
                starts2@,
                ends2@,
                i,
                j,
            )),
{
    let pairs = sweep_line_overlaps(chrs, starts, ends, chrs2, starts2, ends2, slack);
    let ghost o1 = pairs.0@;
    let ghost o2 = pairs.1@;
    let n = pairs.0.len();
    let mut r1: Vec<usize> = Vec::new();
    let mut r2: Vec<usize> = Vec::new();
    let mut t: usize = 0;
    while t < n
        invariant
            coords_ok(chrs@, starts@, ends@),
            coords_ok(chrs2@, starts2@, ends2@),
            slack_ok(slack),
            o1 == pairs.0@,
            o2 == pairs.1@,
            n == o1.len(),
            o2.len() == n,
            t <= n,
            r1@.len() == r2@.len(),
            forall|i: int, j: int|
                #[trigger] pair_in_rows(o1, o2, i, j) <==> pair_joins(
                    chrs@,
                    starts@,
                    ends@,
                    slack as int,
                    chrs2@,
                    starts2@,
                    ends2@,
                    i,
                    j,
                ),
            forall|q: int|
                0 <= q < r1@.len() ==> #[trigger] contained_from(
                    chrs@,
                    starts@,
                    ends@,
                    slack as int,
                    chrs2@,
                    starts2@,
                    ends2@,
                    o1,
                    o2,
                    r1@,
                    r2@,
                    t as int,
                    q,
                ),
            forall|q2: int|
                0 <= q2 < t as int && pair_contained(
                    chrs@,
                    starts@,
                    ends@,
                    slack as int,
                    chrs2@,
                    starts2@,
                    ends2@,
                    (#[trigger] o1[q2]) as int,
                    o2[q2] as int,
                ) ==> pair_in_rows(r1@, r2@, o1[q2] as int, o2[q2] as int),
        decreases n - t,
    {
        let i = pairs.0[t];
        let j = pairs.1[t];
        proof {
            assert(pair_in_rows(o1, o2, o1[t as int] as int, o2[t as int] as int));
            assert(0 <= (o1[t as int] as int) < chrs@.len());
            assert(0 <= (o2[t as int] as int) < chrs2@.len());
        }
        let ws: i64 = if starts[i] > slack {
            starts[i] - slack
        } else {
            0
        };
        let we: i64 = ends[i] + slack;
        let contained = (ws <= starts2[j] && ends2[j] <= we) || (starts2[j] <= ws && we
            <= ends2[j]);
        let ghost r1_pre = r1@;
        let ghost r2_pre = r2@;
        if contained {
            r1.push(i);
            r2.push(j);
        }
        proof {
            assert forall|q: int| 0 <= q < r1@.len() implies #[trigger] contained_from(
                chrs@,
                starts@,
                ends@,
                slack as int,
                chrs2@,
                starts2@,
                ends2@,
                o1,
                o2,
                r1@,
                r2@,
                t as int + 1,
                q,
            ) by {
                if q < r1_pre.len() {
                    assert(contained_from(
                        chrs@,
                        starts@,
                        ends@,
                        slack as int,
                        chrs2@,
                        starts2@,
                        ends2@,
                        o1,
                        o2,
                        r1_pre,
                        r2_pre,
                        t as int,
                        q,
                    ));
                    let q2 = choose|q2: int|
                        0 <= q2 < t as int && (#[trigger] o1[q2]) == r1_pre[q] && o2[q2]
                            == r2_pre[q] && pair_contained(
                            chrs@,
                            starts@,
                            ends@,
                            slack as int,
                            chrs2@,
                            starts2@,
                            ends2@,
                            o1[q2] as int,
                            o2[q2] as int,
                        );
                    assert(o1[q2] == r1@[q] && o2[q2] == r2@[q]);
                } else {
                    assert(r1@[q] == i && r2@[q] == j);
                    assert(o1[t as int] == i && o2[t as int] == j);
                    assert(pair_contained(
                        chrs@,
                        starts@,
                        ends@,
                        slack as int,
                        chrs2@,
                        starts2@,
                        ends2@,
                        o1[t as int] as int,
                        o2[t as int] as int,
                    ));
                }
            }
            assert forall|q2: int|
                0 <= q2 < t as int + 1 && pair_contained(
                    chrs@,
                    starts@,
                    ends@,
                    slack as int,
                    chrs2@,
                    starts2@,
                    ends2@,
                    (#[trigger] o1[q2]) as int,
                    o2[q2] as int,
                ) implies pair_in_rows(r1@, r2@, o1[q2] as int, o2[q2] as int) by {
                if q2 < t as int {
                    assert(pair_in_rows(r1_pre, r2_pre, o1[q2] as int, o2[q2] as int));
                    let q = choose|q: int|
                        0 <= q < r1_pre.len() && (#[trigger] r1_pre[q]) as int == o1[q2] as int && (
                        r2@[q]) as int == o2[q2] as int;
                    assert(r1@[q] as int == o1[q2] as int && r2@[q] as int == o2[q2] as int);
                } else {
                    assert(r1@[r1@.len() - 1] == i && r2@[r2@.len() - 1] == j);
                }
            }
        }
        t += 1;
    }
    proof {
        assert forall|i: int, j: int| #[trigger] pair_in_rows(r1@, r2@, i, j) implies (pair_joins(
            chrs@,
            starts@,
            ends@,
            slack as int,
            chrs2@,
            starts2@,
            ends2@,
            i,
            j,
        ) && pair_contained(
            chrs@,
            starts@,
            ends@,
            slack as int,
            chrs2@,
            starts2@,
            ends2@,
            i,
            j,
        )) by {
            let r = choose|r: int|
                0 <= r < r1@.len() && (#[trigger] r1@[r]) as int == i && (#[trigger] r2@[r]) as int
                    == j;
            assert(contained_from(
                chrs@,
                starts@,
                ends@,
                slack as int,
                chrs2@,
                starts2@,
                ends2@,
                o1,
                o2,
                r1@,
                r2@,
                n as int,
                r,
            ));
            let q2 = choose|q2: int|
                0 <= q2 < n && (#[trigger] o1[q2]) == r1@[r] && o2[q2] == r2@[r]
                    && pair_contained(
                    chrs@,
                    starts@,
                    ends@,
                    slack as int,
                    chrs2@,
                    starts2@,
                    ends2@,
                    o1[q2] as int,
                    o2[q2] as int,
                );
            assert(pair_in_rows(o1, o2, i, j));
        }
        assert forall|i: int, j: int|
            (pair_joins(chrs@, starts@, ends@, slack as int, chrs2@, starts2@, ends2@, i, j)
                && pair_contained(
                chrs@,
                starts@,
                ends@,
                slack as int,
                chrs2@,
                starts2@,
                ends2@,
                i,
                j,
            )) implies #[trigger] pair_in_rows(r1@, r2@, i, j) by {
            assert(pair_in_rows(o1, o2, i, j));
            let q2 = choose|q2: int|
                0 <= q2 < o1.len() && (#[trigger] o1[q2]) as int == i && (#[trigger] o2[q2]) as int
                    == j;
            assert(pair_contained(
                chrs@,
                starts@,
                ends@,
                slack as int,
                chrs2@,
                starts2@,
                ends2@,
                o1[q2] as int,
                o2[q2] as int,
            ));
        }
    }
    (r1, r2)
}

/// The overlap join is symmetric: for any slack, row pair `(i, j)` of
/// joining the first collection against the second is a pair exactly when
/// the mirrored pair `(j, i)` arises from joining the second against the
/// first.
pub proof fn lemma_overlap_join_symmetry(
    chrs: Seq<i64>,
    starts: Seq<i64>,
    ends: Seq<i64>,
    chrs2: Seq<i64>,
    starts2: Seq<i64>,
    ends2: Seq<i64>,
    slack: int,
    i: int,
    j: int,
)
    requires
        coords_ok(chrs, starts, ends),
        coords_ok(chrs2, starts2, ends2),
        0 <= slack <= pos_bound(),
    ensures
        pair_joins(chrs, starts, ends, slack, chrs2, starts2, ends2, i, j) == pair_joins(
            chrs2,
            starts2,
            ends2,
            slack,
            chrs,
            starts,
            ends,
            j,
            i,
        ),
{
    if 0 <= i < chrs.len() && 0 <= j < chrs2.len() {
        assert(0 <= starts[i]);
        assert(starts[i] <= ends[i]);
        assert(ends[i] <= pos_bound());
        assert(0 <= starts2[j]);
        assert(starts2[j] <= ends2[j]);
        assert(ends2[j] <= pos_bound());
    }
}

/// Completeness of the plain overlap join: with no slack, pair `(i, j)`
/// joins exactly when both rows exist, share a group, and each row's start
/// lies at or before the other row's end.
pub proof fn lemma_overlap_join_completeness(
    chrs: Seq<i64>,
    starts: Seq<i64>,
    ends: Seq<i64>,
    chrs2: Seq<i64>,
    starts2: Seq<i64>,
    ends2: Seq<i64>,
    i: int,
    j: int,
)
    requires
        coords_ok(chrs, starts, ends),
        coords_ok(chrs2, starts2, ends2),
    ensures
        pair_joins(chrs, starts, ends, 0, chrs2, starts2, ends2, i, j) <==> (0 <= i < chrs.len()
            && 0 <= j < chrs2.len() && chrs[i] == chrs2[j] && starts[i] <= ends2[j] && starts2[j]
            <= ends[i]),
{
}


/// The rows of the first collection that join nothing, ascending.
pub fn sweep_line_non_overlaps(
    chrs: &[i64],
    starts: &[i64],
    ends: &[i64],
    chrs2: &[i64],
    starts2: &[i64],
    ends2: &[i64],
    slack: i64,
) -> (res: Vec<usize>)
    requires
        coords_ok(chrs@, starts@, ends@),
        coords_ok(chrs2@, starts2@, ends2@),
        slack_ok(slack),
        chrs@.len() < rows_bound(),
        chrs2@.len() < rows_bound(),
    ensures
        forall|r: int| 0 <= r < res@.len() ==> ((#[trigger] res@[r]) as int) < chrs@.len(),
        forall|r1: int, r2: int|
            0 <= r1 < r2 < res@.len() ==> (#[trigger] res@[r1]) < (#[trigger] res@[r2]),
        forall|i: int|
            0 <= i < chrs@.len() ==> ((exists|r: int|
                0 <= r < res@.len() && (#[trigger] res@[r]) as int == i) <==> !row_joins_any(
                chrs@,
                starts@,
                ends@,
                slack as int,
                chrs2@,
                starts2@,
                ends2@,
                i,
            )),
{
    let reported = sweep_line_overlaps_set1(chrs, starts, ends, chrs2, starts2, ends2, slack);
    let n = chrs.len();
    let mut marked: Vec<bool> = Vec::new();
    let mut i: usize = 0;
    while i < n
        invariant
            i <= n,
            marked@.len() == i as int,
            forall|t: int| 0 <= t < i as int ==> (#[trigger] marked@[t]) == false,
        decreases n - i,
    {
        marked.push(false);
        i += 1;
    }
    let m = reported.len();
    proof {
        assert forall|t: int| 0 <= t < m implies ((#[trigger] reported@[t]) as int) < n by {
            assert(reported@[t] as int == reported@[t] as int);
            assert(row_reported(reported@, reported@[t] as int));
            assert(row_joins_any(
                chrs@,
                starts@,
                ends@,
                slack as int,
                chrs2@,
                starts2@,
                ends2@,
                reported@[t] as int,
            ));
            let j = choose|j: int|
                0 <= j < chrs2@.len() && #[trigger] pair_joins(
                    chrs@,
                    starts@,
                    ends@,
                    slack as int,
                    chrs2@,
                    starts2@,
                    ends2@,
                    reported@[t] as int,
                    j,
                );
        }
    }
    let mut r: usize = 0;
    while r < m
        invariant
            m == reported@.len(),
            r <= m,
            n == chrs@.len(),
            marked@.len() == n,
            coords_ok(chrs@, starts@, ends@),
            coords_ok(chrs2@, starts2@, ends2@),
            slack_ok(slack),
            forall|i2: int|
                #[trigger] row_reported(reported@, i2) <==> row_joins_any(
                    chrs@,
                    starts@,
                    ends@,
                    slack as int,
                    chrs2@,
                    starts2@,
                    ends2@,
                    i2,
                ),
            forall|t: int| 0 <= t < m ==> ((#[trigger] reported@[t]) as int) < n,
            forall|t: int|
                0 <= t < n ==> ((#[trigger] marked@[t]) <==> exists|q: int|
                    0 <= q < r as int && (#[trigger] reported@[q]) as int == t),
        decreases m - r,
    {
        proof {
            assert(reported@[r as int] as int == reported@[r as int] as int);
            assert(row_reported(reported@, reported@[r as int] as int));
            assert(row_joins_any(
                chrs@,
                starts@,
                ends@,
                slack as int,
                chrs2@,
                starts2@,
                ends2@,
                reported@[r as int] as int,
            ));
        }
        let ghost marked_pre = marked@;
        let v = reported[r];
        marked.set(v, true);
        proof {
            assert forall|t: int| 0 <= t < n implies ((#[trigger] marked@[t]) <==> exists|q: int|
                0 <= q < r as int + 1 && (#[trigger] reported@[q]) as int == t) by {
                if t == v as int {
                    assert(reported@[r as int] as int == t);
                } else {
                    assert(marked@[t] == marked_pre[t]);
                    if marked_pre[t] {
                        let q = choose|q: int|
                            0 <= q < r as int && (#[trigger] reported@[q]) as int == t;
                        assert(0 <= q < r as int + 1 && reported@[q] as int == t);
                    } else {
                        if exists|q: int|
                            0 <= q < r as int + 1 && (#[trigger] reported@[q]) as int == t {
                            let q = choose|q: int|
                                0 <= q < r as int + 1 && (#[trigger] reported@[q]) as int == t;
                            assert(q == r as int || (0 <= q < r as int && reported@[q] as int
                                == t));
                            assert(false);
                        }
                    }
                }
            }
        }
        r += 1;
    }
    proof {
        assert forall|t2: int| 0 <= t2 < n implies ((#[trigger] marked@[t2]) <==> row_joins_any(
            chrs@,
            starts@,
            ends@,
            slack as int,
            chrs2@,
            starts2@,
            ends2@,
            t2,
        )) by {
            if marked@[t2] {
                let q = choose|q: int|
                    0 <= q < m as int && (#[trigger] reported@[q]) as int == t2;
                assert(row_reported(reported@, t2));
            }
            if row_joins_any(chrs@, starts@, ends@, slack as int, chrs2@, starts2@, ends2@, t2) {
                assert(row_reported(reported@, t2));
                let q = choose|q: int|
                    0 <= q < reported@.len() && (#[trigger] reported@[q]) as int == t2;
            }
        }
    }
    let mut res: Vec<usize> = Vec::new();
    let mut t: usize = 0;
    while t < n
        invariant
            t <= n,
            n == chrs@.len(),
            marked@.len() == n,
            coords_ok(chrs@, starts@, ends@),
            coords_ok(chrs2@, starts2@, ends2@),
            slack_ok(slack),
            forall|t2: int|
                0 <= t2 < n ==> ((#[trigger] marked@[t2]) <==> row_joins_any(
                    chrs@,
                    starts@,
                    ends@,
                    slack as int,
                    chrs2@,
                    starts2@,
                    ends2@,
                    t2,
                )),
            forall|q: int| 0 <= q < res@.len() ==> ((#[trigger] res@[q]) as int) < t as int,
            forall|q1: int, q2: int|
                0 <= q1 < q2 < res@.len() ==> (#[trigger] res@[q1]) < (#[trigger] res@[q2]),
            forall|i2: int|
                0 <= i2 < t as int ==> ((exists|q: int|
                    0 <= q < res@.len() && (#[trigger] res@[q]) as int == i2) <==> !row_joins_any(
                    chrs@,
                    starts@,
                    ends@,
                    slack as int,
                    chrs2@,
                    starts2@,
                    ends2@,
                    i2,
                )),
        decreases n - t,
    {
        let ghost res_pre = res@;
        if !marked[t] {
            res.push(t);
        }
        proof {
            assert forall|i2: int| 0 <= i2 < t as int + 1 implies ((exists|q: int|
                0 <= q < res@.len() && (#[trigger] res@[q]) as int == i2) <==> !row_joins_any(
                chrs@,
                starts@,
                ends@,
                slack as int,
                chrs2@,
                starts2@,
                ends2@,
                i2,
            )) by {
                if i2 < t as int {
                    if exists|q: int|
                        0 <= q < res_pre.len() && (#[trigger] res_pre[q]) as int == i2 {
                        let q = choose|q: int|
                            0 <= q < res_pre.len() && (#[trigger] res_pre[q]) as int == i2;
                        assert(res@[q] as int == i2);
                    }
                    if exists|q: int| 0 <= q < res@.len() && (#[trigger] res@[q]) as int == i2 {
                        let q = choose|q: int|
                            0 <= q < res@.len() && (#[trigger] res@[q]) as int == i2;
                        assert(q < res_pre.len());
                        assert(res_pre[q] as int == i2);
                    }
                } else {
                    if !marked@[t as int] {
                        assert(res@[res@.len() - 1] as int == i2);
                    } else {
                        if exists|q: int|
                            0 <= q < res@.len() && (#[trigger] res@[q]) as int == i2 {
                            let q = choose|q: int|
                                0 <= q < res@.len() && (#[trigger] res@[q]) as int == i2;
                            assert(q < res_pre.len());
                            assert(res_pre[q] as int == i2);
                            assert(false);
                        }
                    }
                }
            }
        }
        t += 1;
    }
    proof {
        assert forall|i2: int| 0 <= i2 < n implies ((exists|q: int|
            0 <= q < res@.len() && (#[trigger] res@[q]) as int == i2) <==> !row_joins_any(
            chrs@,
            starts@,
            ends@,
            slack as int,
            chrs2@,
            starts2@,
            ends2@,
            i2,
        )) by {}
    }
    res
}

} // verus!
