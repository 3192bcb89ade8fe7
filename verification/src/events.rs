//! The ordering model of sweep-line event streams, and the small theory
//! the sweep proofs share: counting occurrences in a sequence, locating the
//! unique event of an interval boundary inside a sorted stream, and the
//! overlap condition the joins decide.

use vstd::prelude::*;
use vstd::multiset::Multiset;
use crate::ruranges_structs::Event;

verus! {

/// Coordinates and slack are kept within this magnitude so that every sum
/// or difference of two of them, plus one, still fits in `i64`.
pub open spec fn pos_bound() -> int {
    0x1000_0000_0000_0000
}

/// Parallel coordinate columns of one collection: equal lengths, and every
/// row a well-formed half-open interval `0 <= start <= end` within bounds.
pub open spec fn coords_ok(chrs: Seq<i64>, starts: Seq<i64>, ends: Seq<i64>) -> bool {
    &&& starts.len() == chrs.len()
    &&& ends.len() == chrs.len()
    &&& forall|i: int| 0 <= i < chrs.len() ==> 0 <= #[trigger] starts[i]
    &&& forall|i: int| 0 <= i < chrs.len() ==> starts[i] <= #[trigger] ends[i]
    &&& forall|i: int| 0 <= i < chrs.len() ==> #[trigger] ends[i] <= pos_bound()
}

/// Row counts stay below this bound, so a row index fits every pointer
/// width exactly.
pub open spec fn rows_bound() -> int {
    0x4000_0000
}

pub open spec fn slack_ok(slack: i64) -> bool {
    0 <= slack <= pos_bound()
}

/// A start widened leftwards by `slack`, saturating at zero: positions
/// never leave the non-negative coordinate space.
pub open spec fn widen_start(s: int, slack: int) -> int {
    if s - slack > 0 {
        s - slack
    } else {
        0
    }
}

/// Two spans on the same group interact when each one's start does not
/// pass the other's end; with half-open rows this joins both properly
/// overlapping and exactly touching intervals.
pub open spec fn joins(g1: int, s1: int, e1: int, g2: int, s2: int, e2: int) -> bool {
    g1 == g2 && s1 <= e2 && s2 <= e1
}

/// Row `i` of the first collection (widened by `slack`) joins row `j` of
/// the second collection.
pub open spec fn pair_joins(
    chrs: Seq<i64>,
    starts: Seq<i64>,
    ends: Seq<i64>,
    slack: int,
    chrs2: Seq<i64>,
    starts2: Seq<i64>,
    ends2: Seq<i64>,
    i: int,
    j: int,
) -> bool {
    &&& 0 <= i < chrs.len()
    &&& 0 <= j < chrs2.len()
    &&& joins(
        chrs[i] as int,
        widen_start(starts[i] as int, slack),
        ends[i] + slack,
        chrs2[j] as int,
        starts2[j] as int,
        ends2[j] as int,
    )
}

/// Events are consumed in ascending `(group, position)` order; at one
/// position the starts come before the ends, so spans that touch are both
/// live at the shared position.
pub open spec fn event_rank(e: Event) -> int {
    if e.is_start {
        0
    } else {
        1
    }
}

pub open spec fn event_le(a: Event, b: Event) -> bool {
    ||| a.chr < b.chr
    ||| (a.chr == b.chr && a.pos < b.pos)
    ||| (a.chr == b.chr && a.pos == b.pos && event_rank(a) <= event_rank(b))
}

pub open spec fn event_lt(a: Event, b: Event) -> bool {
    !event_le(b, a)
}

#[verifier::opaque]
pub open spec fn events_sorted(s: Seq<Event>) -> bool {
    forall|t1: int, t2: int| 0 <= t1 < t2 < s.len() ==> event_le(#[trigger] s[t1], #[trigger] s[t2])
}

/// The identity of an event within a stream: which boundary, of which
/// collection, of which row.  A well-formed stream holds each slot once.
pub open spec fn same_slot(a: Event, b: Event) -> bool {
    a.is_start == b.is_start && a.first_set == b.first_set && a.idx == b.idx
}

#[verifier::opaque]
pub open spec fn slots_unique(s: Seq<Event>) -> bool {
    forall|t1: int, t2: int|
        0 <= t1 < t2 < s.len() ==> !same_slot(#[trigger] s[t1], #[trigger] s[t2])
}

pub open spec fn is_slot(e: Event, first_set: bool, is_start: bool, a: i64) -> bool {
    e.first_set == first_set && e.is_start == is_start && e.idx == a
}

pub open spec fn has_ev(s: Seq<Event>, first_set: bool, is_start: bool, a: i64) -> bool {
    exists|t: int| 0 <= t < s.len() && is_slot(#[trigger] s[t], first_set, is_start, a)
}

/// The index of the (unique) event with the given slot.
pub open spec fn ev_at(s: Seq<Event>, first_set: bool, is_start: bool, a: i64) -> int {
    choose|t: int| 0 <= t < s.len() && is_slot(#[trigger] s[t], first_set, is_start, a)
}

/// Every end event is preceded by the start of the same interval on the
/// same group, and every start is followed by its end.
#[verifier::opaque]
pub open spec fn stream_paired(s: Seq<Event>) -> bool {
    &&& forall|t: int|
        0 <= t < s.len() && !(#[trigger] s[t]).is_start ==> exists|u: int|
            0 <= u < t && (#[trigger] s[u]).is_start && s[u].first_set == s[t].first_set
                && s[u].idx == s[t].idx && s[u].chr == s[t].chr
    &&& forall|t: int|
        0 <= t < s.len() && (#[trigger] s[t]).is_start ==> exists|u: int|
            t < u < s.len() && !(#[trigger] s[u]).is_start && s[u].first_set == s[t].first_set
                && s[u].idx == s[t].idx && s[u].chr == s[t].chr
}

pub open spec fn stream_wf(s: Seq<Event>) -> bool {
    events_sorted(s) && slots_unique(s) && stream_paired(s)
}

/// Interval `a` of the first collection and interval `b` of the second
/// meet in the stream: each one's start event comes before the other's end
/// event.
pub open spec fn stream_hits(s: Seq<Event>, a: i64, b: i64) -> bool {
    &&& has_ev(s, true, true, a)
    &&& has_ev(s, false, true, b)
    &&& ev_at(s, true, true, a) < ev_at(s, false, false, b)
    &&& ev_at(s, false, true, b) < ev_at(s, true, false, a)
}

/// The boundary events of one collection, two per row: the start event of
/// row `i` at position `spos[i]` followed by its end event at `epos[i]`.
/// The position sequences are handed in already offset (widened by slack,
/// shifted, or negated, as the operation asks).
pub open spec fn paired_events(
    chrs: Seq<i64>,
    spos: Seq<int>,
    epos: Seq<int>,
    first_set: bool,
) -> Seq<Event> {
    Seq::new(
        2 * chrs.len(),
        |t: int|
            if t % 2 == 0 {
                Event {
                    chr: chrs[t / 2],
                    pos: spos[t / 2] as i64,
                    is_start: true,
                    first_set,
                    idx: (t / 2) as i64,
                }
            } else {
                Event {
                    chr: chrs[t / 2],
                    pos: epos[t / 2] as i64,
                    is_start: false,
                    first_set,
                    idx: (t / 2) as i64,
                }
            },
    )
}

/// Position sequences that pair into well-formed events: equal lengths,
/// each start at or before its end, everything inside the coordinate
/// space that `i64` arithmetic handles exactly.
pub open spec fn paired_ok(chrs: Seq<i64>, spos: Seq<int>, epos: Seq<int>) -> bool {
    &&& spos.len() == chrs.len()
    &&& epos.len() == chrs.len()
    &&& chrs.len() < pos_bound()
    &&& forall|i: int|
        0 <= i < chrs.len() ==> -2 * pos_bound() <= #[trigger] spos[i] <= #[trigger] epos[i] <= 2
            * pos_bound()
}

/// Start coordinates widened leftwards by `slack`, saturating at zero.
pub open spec fn widened_starts(starts: Seq<i64>, slack: int) -> Seq<int> {
    Seq::new(starts.len(), |i: int| widen_start(starts[i] as int, slack))
}

/// End coordinates widened rightwards by `slack`.
pub open spec fn widened_ends(ends: Seq<i64>, slack: int) -> Seq<int> {
    Seq::new(ends.len(), |i: int| ends[i] + slack)
}

/// How many entries of `s` equal `v`.
pub open spec fn count_eq<T>(s: Seq<T>, v: T) -> int
    decreases s.len(),
{
    if s.len() == 0 {
        0
    } else {
        count_eq(s.drop_last(), v) + if s.last() == v {
            1int
        } else {
            0int
        }
    }
}

pub proof fn lemma_count_eq_to_multiset<T>(s: Seq<T>, v: T)
    ensures
        s.to_multiset().count(v) == count_eq(s, v),
    decreases s.len(),
{
    broadcast use vstd::seq_lib::group_seq_properties;

    if s.len() == 0 {
        assert(s.to_multiset() =~= Multiset::<T>::empty());
    } else {
        lemma_count_eq_to_multiset(s.drop_last(), v);
        assert(s =~= s.drop_last().push(s.last()));
        s.drop_last().to_multiset_ensures();
        assert(s.drop_last().push(s.last()).to_multiset() =~= s.drop_last().to_multiset().insert(
            s.last(),
        ));
    }
}

pub proof fn lemma_count_eq_zero<T>(s: Seq<T>, v: T)
    ensures
        (count_eq(s, v) == 0) <==> (forall|i: int| 0 <= i < s.len() ==> s[i] != v),
        count_eq(s, v) >= 0,
    decreases s.len(),
{
    if s.len() > 0 {
        lemma_count_eq_zero(s.drop_last(), v);
        if s.last() != v && count_eq(s.drop_last(), v) == 0 {
            assert forall|i: int| 0 <= i < s.len() implies s[i] != v by {
                if i < s.len() - 1 {
                    assert(s.drop_last()[i] == s[i]);
                }
            }
        }
        if (forall|i: int| 0 <= i < s.len() ==> s[i] != v) {
            assert forall|i: int| 0 <= i < s.drop_last().len() implies s.drop_last()[i] != v by {
                assert(s.drop_last()[i] == s[i]);
            }
        }
    }
}

pub proof fn lemma_count_eq_two<T>(s: Seq<T>, v: T, i: int, j: int)
    requires
        0 <= i < s.len(),
        0 <= j < s.len(),
        i != j,
        s[i] == v,
        s[j] == v,
    ensures
        count_eq(s, v) >= 2,
    decreases s.len(),
{
    let lo = if i < j {
        i
    } else {
        j
    };
    let hi = if i < j {
        j
    } else {
        i
    };
    if hi == s.len() - 1 {
        lemma_count_eq_zero(s.drop_last(), v);
        assert(s.drop_last()[lo] == v);
    } else {
        assert(s.drop_last()[lo] == v);
        assert(s.drop_last()[hi] == v);
        lemma_count_eq_two(s.drop_last(), v, lo, hi);
    }
}

pub proof fn lemma_count_eq_pos<T>(s: Seq<T>, v: T)
    requires
        count_eq(s, v) >= 1,
    ensures
        exists|i: int| 0 <= i < s.len() && s[i] == v,
{
    lemma_count_eq_zero(s, v);
}

pub proof fn lemma_count_eq_index<T>(s: Seq<T>, i: int)
    requires
        0 <= i < s.len(),
    ensures
        count_eq(s, s[i]) >= 1,
    decreases s.len(),
{
    if i == s.len() - 1 {
        lemma_count_eq_zero(s.drop_last(), s[i]);
    } else {
        assert(s.drop_last()[i] == s[i]);
        lemma_count_eq_index(s.drop_last(), i);
        lemma_count_eq_zero(s, s[i]);
        lemma_count_eq_zero(s.drop_last(), s[i]);
    }
}

pub proof fn lemma_count_eq_unique<T>(s: Seq<T>, v: T, i: int)
    requires
        0 <= i < s.len(),
        s[i] == v,
        forall|j: int| 0 <= j < s.len() && s[j] == v ==> j == i,
    ensures
        count_eq(s, v) == 1,
    decreases s.len(),
{
    if i == s.len() - 1 {
        lemma_count_eq_zero(s.drop_last(), v);
        assert forall|j: int| 0 <= j < s.drop_last().len() implies s.drop_last()[j] != v by {
            assert(s.drop_last()[j] == s[j]);
        }
    } else {
        assert(s.drop_last()[i] == s[i]);
        assert forall|j: int| 0 <= j < s.drop_last().len() && s.drop_last()[j] == v implies j
            == i by {
            assert(s.drop_last()[j] == s[j]);
        }
        lemma_count_eq_unique(s.drop_last(), v, i);
    }
}

pub proof fn lemma_counts_transfer<T>(s1: Seq<T>, s2: Seq<T>, v: T)
    requires
        s1.to_multiset() == s2.to_multiset(),
    ensures
        count_eq(s1, v) == count_eq(s2, v),
{
    lemma_count_eq_to_multiset(s1, v);
    lemma_count_eq_to_multiset(s2, v);
}

/// The index arithmetic of paired events: row `i` owns indices `2i` and
/// `2i + 1`.
pub proof fn lemma_pair_div(i: int)
    requires
        i >= 0,
    ensures
        (2 * i) % 2 == 0,
        (2 * i) / 2 == i,
        (2 * i + 1) % 2 == 1,
        (2 * i + 1) / 2 == i,
{
    vstd::arithmetic::div_mod::lemma_fundamental_div_mod_converse(2 * i, 2, i, 0);
    vstd::arithmetic::div_mod::lemma_fundamental_div_mod_converse(2 * i + 1, 2, i, 1);
}

/// In a sorted stream, a strictly smaller event stands strictly earlier.
pub proof fn lemma_sorted_pos(s: Seq<Event>, t1: int, t2: int)
    requires
        events_sorted(s),
        0 <= t1 < s.len(),
        0 <= t2 < s.len(),
        event_lt(s[t1], s[t2]),
    ensures
        t1 < t2,
{
    reveal(events_sorted);
    if t2 < t1 {
        assert(event_le(s[t2], s[t1]));
    } else if t2 == t1 {
        assert(event_le(s[t2], s[t1]));
    }
}

/// In a sorted stream, an earlier index carries an event at or below a
/// later one.
pub proof fn lemma_sorted_le(s: Seq<Event>, t1: int, t2: int)
    requires
        events_sorted(s),
        0 <= t1 <= t2 < s.len(),
    ensures
        event_le(s[t1], s[t2]) || t1 == t2,
{
    reveal(events_sorted);
}

/// The index a present slot resolves to carries that slot.
pub proof fn lemma_ev_at_slot(s: Seq<Event>, fs: bool, st: bool, x: i64)
    requires
        has_ev(s, fs, st, x),
    ensures
        0 <= ev_at(s, fs, st, x) < s.len(),
        is_slot(s[ev_at(s, fs, st, x)], fs, st, x),
{
    let t = choose|t: int| 0 <= t < s.len() && is_slot(#[trigger] s[t], fs, st, x);
    assert(0 <= t < s.len() && is_slot(s[t], fs, st, x));
}

/// In a stream without repeated slots, an index carrying a slot is the
/// index that slot resolves to.
pub proof fn lemma_ev_at_is(s: Seq<Event>, fs: bool, st: bool, x: i64, t: int)
    requires
        slots_unique(s),
        0 <= t < s.len(),
        is_slot(s[t], fs, st, x),
    ensures
        has_ev(s, fs, st, x),
        ev_at(s, fs, st, x) == t,
{
    reveal(slots_unique);
    assert(has_ev(s, fs, st, x));
    lemma_ev_at_slot(s, fs, st, x);
    let u = ev_at(s, fs, st, x);
    if u != t {
        if u < t {
            assert(!same_slot(s[u], s[t]));
        } else {
            assert(!same_slot(s[t], s[u]));
        }
        assert(false);
    }
}

/// An interval whose start stands in a well-formed stream has its end
/// there too, strictly later, on the same group.
pub proof fn lemma_boundary_pair(s: Seq<Event>, fs: bool, x: i64)
    requires
        stream_wf(s),
        has_ev(s, fs, true, x),
    ensures
        has_ev(s, fs, false, x),
        0 <= ev_at(s, fs, true, x) < ev_at(s, fs, false, x) < s.len(),
        s[ev_at(s, fs, true, x)].chr == s[ev_at(s, fs, false, x)].chr,
        is_slot(s[ev_at(s, fs, true, x)], fs, true, x),
        is_slot(s[ev_at(s, fs, false, x)], fs, false, x),
{
    lemma_ev_at_slot(s, fs, true, x);
    let ps = ev_at(s, fs, true, x);
    assert(s[ps].is_start);
    assert(exists|u: int|
        ps < u < s.len() && !(#[trigger] s[u]).is_start && s[u].first_set == s[ps].first_set
            && s[u].idx == s[ps].idx && s[u].chr == s[ps].chr) by {
        reveal(stream_paired);
    }
    let u = choose|u: int|
        ps < u < s.len() && !(#[trigger] s[u]).is_start && s[u].first_set == s[ps].first_set
            && s[u].idx == s[ps].idx && s[u].chr == s[ps].chr;
    assert(is_slot(s[u], fs, false, x));
    lemma_ev_at_is(s, fs, false, x, u);
}

/// The events of two collections, the first one's ahead of the second one's.
pub open spec fn two_coll_built(
    chrs: Seq<i64>,
    spos: Seq<int>,
    epos: Seq<int>,
    chrs2: Seq<i64>,
    spos2: Seq<int>,
    epos2: Seq<int>,
) -> Seq<Event> {
    paired_events(chrs, spos, epos, true) + paired_events(chrs2, spos2, epos2, false)
}

/// Where the event of a given slot stands in the built (unsorted) order.
pub open spec fn slot_index(n1: int, first_set: bool, is_start: bool, a: int) -> int {
    (if first_set {
        0int
    } else {
        2 * n1
    }) + 2 * a + (if is_start {
        0int
    } else {
        1int
    })
}

/// The one event value a slot can carry, given the collections' columns.
pub open spec fn canonical_event(
    chrs: Seq<i64>,
    spos: Seq<int>,
    epos: Seq<int>,
    chrs2: Seq<i64>,
    spos2: Seq<int>,
    epos2: Seq<int>,
    first_set: bool,
    is_start: bool,
    a: int,
) -> Event {
    Event {
        chr: if first_set {
            chrs[a]
        } else {
            chrs2[a]
        },
        pos: (if first_set {
            if is_start {
                spos[a]
            } else {
                epos[a]
            }
        } else {
            if is_start {
                spos2[a]
            } else {
                epos2[a]
            }
        }) as i64,
        is_start,
        first_set,
        idx: a as i64,
    }
}

/// Each entry of the built event order is the canonical event of its slot,
/// and its slot pins its index.
proof fn lemma_built_at(
    chrs: Seq<i64>,
    spos: Seq<int>,
    epos: Seq<int>,
    chrs2: Seq<i64>,
    spos2: Seq<int>,
    epos2: Seq<int>,
    u: int,
)
    requires
        paired_ok(chrs, spos, epos),
        paired_ok(chrs2, spos2, epos2),
        0 <= u < two_coll_built(chrs, spos, epos, chrs2, spos2, epos2).len(),
    ensures
        ({
            let built = two_coll_built(chrs, spos, epos, chrs2, spos2, epos2);
            let e = built[u];
            &&& 0 <= e.idx
            &&& e.first_set ==> e.idx < chrs.len()
            &&& !e.first_set ==> e.idx < chrs2.len()
            &&& u == slot_index(chrs.len() as int, e.first_set, e.is_start, e.idx as int)
            &&& e == canonical_event(
                chrs,
                spos,
                epos,
                chrs2,
                spos2,
                epos2,
                e.first_set,
                e.is_start,
                e.idx as int,
            )
        }),
{
    let n1 = chrs.len() as int;
    let n2 = chrs2.len() as int;
    let built = two_coll_built(chrs, spos, epos, chrs2, spos2, epos2);
    if u < 2 * n1 {
        assert(built[u] == paired_events(chrs, spos, epos, true)[u]);
        assert(u == 2 * (u / 2) + (u % 2)) by {
            vstd::arithmetic::div_mod::lemma_fundamental_div_mod(u, 2);
        }
        assert(0 <= u / 2 < n1);
        assert((u / 2) as i64 as int == u / 2);
    } else {
        let w = u - 2 * n1;
        assert(built[u] == paired_events(chrs2, spos2, epos2, false)[w]);
        assert(w == 2 * (w / 2) + (w % 2)) by {
            vstd::arithmetic::div_mod::lemma_fundamental_div_mod(w, 2);
        }
        assert(0 <= w / 2 < n2);
        assert((w / 2) as i64 as int == w / 2);
    }
}

/// A slot that is in range stands in the built order at its slot index,
/// carrying its canonical event.
proof fn lemma_built_slot(
    chrs: Seq<i64>,
    spos: Seq<int>,
    epos: Seq<int>,
    chrs2: Seq<i64>,
    spos2: Seq<int>,
    epos2: Seq<int>,
    first_set: bool,
    is_start: bool,
    a: int,
)
    requires
        paired_ok(chrs, spos, epos),
        paired_ok(chrs2, spos2, epos2),
        0 <= a,
        first_set ==> a < chrs.len(),
        !first_set ==> a < chrs2.len(),
    ensures
        ({
            let built = two_coll_built(chrs, spos, epos, chrs2, spos2, epos2);
            let u = slot_index(chrs.len() as int, first_set, is_start, a);
            &&& 0 <= u < built.len()
            &&& built[u] == canonical_event(
                chrs,
                spos,
                epos,
                chrs2,
                spos2,
                epos2,
                first_set,
                is_start,
                a,
            )
        }),
{
    let n1 = chrs.len() as int;
    let u = slot_index(n1, first_set, is_start, a);
    lemma_built_at(chrs, spos, epos, chrs2, spos2, epos2, u);
    let built = two_coll_built(chrs, spos, epos, chrs2, spos2, epos2);
    let e = built[u];
    if first_set {
        assert(u < 2 * n1);
        assert(e.first_set);
        assert(u % 2 == (if is_start { 0int } else { 1int })) by {
            vstd::arithmetic::div_mod::lemma_fundamental_div_mod(u, 2);
        }
    } else {
        assert(u >= 2 * n1);
        let w = u - 2 * n1;
        assert(w % 2 == (if is_start { 0int } else { 1int })) by {
            vstd::arithmetic::div_mod::lemma_fundamental_div_mod(w, 2);
        }
    }
}

/// A sorted stream holding exactly the events of two collections is well
/// formed; each slot of each row stands at one index, carrying its
/// recorded group and coordinate.
pub proof fn lemma_stream_recovery(
    s: Seq<Event>,
    chrs: Seq<i64>,
    spos: Seq<int>,
    epos: Seq<int>,
    chrs2: Seq<i64>,
    spos2: Seq<int>,
    epos2: Seq<int>,
)
    requires
        paired_ok(chrs, spos, epos),
        paired_ok(chrs2, spos2, epos2),
        events_sorted(s),
        s.to_multiset() == two_coll_built(chrs, spos, epos, chrs2, spos2, epos2).to_multiset(),
    ensures
        stream_wf(s),
        s.len() == 2 * chrs.len() + 2 * chrs2.len(),
        forall|fs: bool, st: bool, a: i64|
            has_ev(s, fs, st, a) <==> (0 <= a && (fs ==> a < chrs.len()) && (!fs ==> a
                < chrs2.len())),
        forall|fs: bool, st: bool, a: i64|
            has_ev(s, fs, st, a) ==> ({
                let t = ev_at(s, fs, st, a);
                &&& 0 <= t < s.len()
                &&& is_slot(s[t], fs, st, a)
                &&& s[t] == canonical_event(chrs, spos, epos, chrs2, spos2, epos2, fs, st, a as int)
                &&& forall|t2: int| 0 <= t2 < s.len() && is_slot(s[t2], fs, st, a) ==> t2 == t
            }),
{
    let built = two_coll_built(chrs, spos, epos, chrs2, spos2, epos2);
    let n1 = chrs.len() as int;
    let n2 = chrs2.len() as int;
    s.to_multiset_ensures();
    built.to_multiset_ensures();
    assert(s.len() == built.len());
    assert(built.len() == 2 * n1 + 2 * n2);

    // every entry of the stream is the canonical event of its slot
    assert forall|t: int| 0 <= t < s.len() implies ({
        let e = #[trigger] s[t];
        &&& 0 <= e.idx
        &&& e.first_set ==> e.idx < n1
        &&& !e.first_set ==> e.idx < n2
        &&& e == canonical_event(chrs, spos, epos, chrs2, spos2, epos2, e.first_set, e.is_start, e.idx as int)
    }) by {
        lemma_count_eq_index(s, t);
        lemma_counts_transfer(s, built, s[t]);
        lemma_count_eq_pos(built, s[t]);
        let u = choose|u: int| 0 <= u < built.len() && built[u] == s[t];
        lemma_built_at(chrs, spos, epos, chrs2, spos2, epos2, u);
    }

    // each slot appears at most once
    assert forall|t1: int, t2: int| 0 <= t1 < t2 < s.len() implies !same_slot(s[t1], s[t2]) by {
        reveal(slots_unique);
        if same_slot(s[t1], s[t2]) {
            assert(s[t1] == s[t2]);
            lemma_count_eq_two(s, s[t1], t1, t2);
            lemma_counts_transfer(s, built, s[t1]);
            let e = s[t1];
            let u = slot_index(n1, e.first_set, e.is_start, e.idx as int);
            lemma_built_slot(chrs, spos, epos, chrs2, spos2, epos2, e.first_set, e.is_start, e.idx as int);
            assert forall|u2: int| 0 <= u2 < built.len() && built[u2] == e implies u2 == u by {
                lemma_built_at(chrs, spos, epos, chrs2, spos2, epos2, u2);
            }
            lemma_count_eq_unique(built, e, u);
        }
    }

    assert(slots_unique(s)) by {
        reveal(slots_unique);
    }

    // a slot in range is present
    assert forall|fs: bool, st: bool, a: i64|
        (0 <= a && (fs ==> a < n1) && (!fs ==> a < n2)) implies has_ev(s, fs, st, a) by {
        let u = slot_index(n1, fs, st, a as int);
        lemma_built_slot(chrs, spos, epos, chrs2, spos2, epos2, fs, st, a as int);
        lemma_count_eq_index(built, u);
        lemma_counts_transfer(s, built, built[u]);
        lemma_count_eq_pos(s, built[u]);
        let t = choose|t: int| 0 <= t < s.len() && s[t] == built[u];
        assert(is_slot(s[t], fs, st, a));
    }

    // a present slot is in range, and its event is canonical and unique
    assert forall|fs: bool, st: bool, a: i64| has_ev(s, fs, st, a) implies ({
        let t = ev_at(s, fs, st, a);
        &&& 0 <= a
        &&& (fs ==> a < n1)
        &&& (!fs ==> a < n2)
        &&& 0 <= t < s.len()
        &&& is_slot(s[t], fs, st, a)
        &&& s[t] == canonical_event(chrs, spos, epos, chrs2, spos2, epos2, fs, st, a as int)
        &&& forall|t2: int| 0 <= t2 < s.len() && is_slot(s[t2], fs, st, a) ==> t2 == t
    }) by {
        let t = ev_at(s, fs, st, a);
        assert(0 <= t < s.len() && is_slot(s[t], fs, st, a));
        assert forall|t2: int| 0 <= t2 < s.len() && is_slot(s[t2], fs, st, a) implies t2 == t by {
            reveal(slots_unique);
            if t2 != t {
                if t2 < t {
                    assert(!same_slot(s[t2], s[t]));
                } else {
                    assert(!same_slot(s[t], s[t2]));
                }
            }
        }
    }

    // pairing: every end is preceded by its start, every start followed by
    // its end, on the same group
    assert forall|t: int| 0 <= t < s.len() && !(#[trigger] s[t]).is_start implies exists|u: int|
        0 <= u < t && (#[trigger] s[u]).is_start && s[u].first_set == s[t].first_set && s[u].idx
            == s[t].idx && s[u].chr == s[t].chr by {
        let e = s[t];
        let a = e.idx;
        assert(has_ev(s, e.first_set, true, a));
        let u = ev_at(s, e.first_set, true, a);
        assert(event_lt(s[u], s[t]));
        lemma_sorted_pos(s, u, t);
    }
    assert forall|t: int| 0 <= t < s.len() && (#[trigger] s[t]).is_start implies exists|u: int|
        t < u < s.len() && !(#[trigger] s[u]).is_start && s[u].first_set == s[t].first_set
            && s[u].idx == s[t].idx && s[u].chr == s[t].chr by {
        let e = s[t];
        let a = e.idx;
        assert(has_ev(s, e.first_set, false, a));
        let u = ev_at(s, e.first_set, false, a);
        assert(event_lt(s[t], s[u]));
        lemma_sorted_pos(s, t, u);
    }
    assert(stream_paired(s)) by {
        reveal(stream_paired);
    }
}

/// Over a well-formed stream of two collections' events, interval `a` of
/// the first meets interval `b` of the second exactly when their recorded
/// spans join.
pub proof fn lemma_hits_iff_joins(
    s: Seq<Event>,
    chrs: Seq<i64>,
    spos: Seq<int>,
    epos: Seq<int>,
    chrs2: Seq<i64>,
    spos2: Seq<int>,
    epos2: Seq<int>,
    a: i64,
    b: i64,
)
    requires
        paired_ok(chrs, spos, epos),
        paired_ok(chrs2, spos2, epos2),
        events_sorted(s),
        s.to_multiset() == two_coll_built(chrs, spos, epos, chrs2, spos2, epos2).to_multiset(),
        0 <= a < chrs.len(),
        0 <= b < chrs2.len(),
    ensures
        stream_hits(s, a, b) <==> joins(
            chrs[a as int] as int,
            spos[a as int],
            epos[a as int],
            chrs2[b as int] as int,
            spos2[b as int],
            epos2[b as int],
        ),
{
    reveal(events_sorted);
    lemma_stream_recovery(s, chrs, spos, epos, chrs2, spos2, epos2);
    assert(has_ev(s, true, true, a));
    assert(has_ev(s, true, false, a));
    assert(has_ev(s, false, true, b));
    assert(has_ev(s, false, false, b));
    let sv1 = s[ev_at(s, true, true, a)];
    let ev1 = s[ev_at(s, true, false, a)];
    let sv2 = s[ev_at(s, false, true, b)];
    let ev2 = s[ev_at(s, false, false, b)];
    assert(sv1 == canonical_event(chrs, spos, epos, chrs2, spos2, epos2, true, true, a as int));
    assert(ev1 == canonical_event(chrs, spos, epos, chrs2, spos2, epos2, true, false, a as int));
    assert(sv2 == canonical_event(chrs, spos, epos, chrs2, spos2, epos2, false, true, b as int));
    assert(ev2 == canonical_event(chrs, spos, epos, chrs2, spos2, epos2, false, false, b as int));
    // index order coincides with strict event order: ranks of a start and
    // an end never tie, so one of the two strict orders holds
    if ev_at(s, true, true, a) < ev_at(s, false, false, b) {
        assert(event_le(sv1, ev2));
        assert(event_lt(sv1, ev2));
    }
    if event_lt(sv1, ev2) {
        lemma_sorted_pos(s, ev_at(s, true, true, a), ev_at(s, false, false, b));
    }
    if ev_at(s, false, true, b) < ev_at(s, true, false, a) {
        assert(event_le(sv2, ev1));
        assert(event_lt(sv2, ev1));
    }
    if event_lt(sv2, ev1) {
        lemma_sorted_pos(s, ev_at(s, false, true, b), ev_at(s, true, false, a));
    }
}

} // verus!
