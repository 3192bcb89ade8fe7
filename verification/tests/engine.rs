use ruranges::cluster::sweep_line_cluster;
use ruranges::complement::sweep_line_complement;
use ruranges::merge::{merge_runs_grouped, sweep_line_merge};
use ruranges::nearest::{nearest, nearest_intervals_to_the_left, nearest_intervals_to_the_right};
use ruranges::nearest::{merge_three_way, pick_k_distances_combined, merge_sorted_by_idx_dist};
use ruranges::nearest_unique_k::{interval_distance, push_distance, sweep_line_k_nearest,
    sweep_line_overlaps_merged_heap};
use ruranges::overlaps::{pick_winner_of_four, pick_winner_of_two_choose_first_if_equal,
    sweep_line_first_overlaps, sweep_line_non_overlaps, sweep_line_overlaps,
    sweep_line_overlaps_containment, sweep_line_overlaps_set1, WhichList};
use ruranges::overlaps_two_pointer::two_pointer_overlaps;
use ruranges::ruranges_structs::{Direction, HeapItem, MinEvent, Nearest, RangesError};
use ruranges::sorts::{build_sequence_intervals, build_sorted_events_single_collection_separate_outputs,
    build_subsequence_intervals, sort_order_idx};
use ruranges::spliced_subsequence::spliced_subseq;
use ruranges::subtract::sweep_line_subtract;

fn pair_set(a: &[usize], b: &[usize]) -> Vec<(usize, usize)> {
    let mut v: Vec<(usize, usize)> = a.iter().copied().zip(b.iter().copied()).collect();
    v.sort_unstable();
    v
}

#[test]
fn overlap_join_example() {
    // two query intervals against one target on one chromosome
    let (o1, o2) = sweep_line_overlaps(&[1, 1], &[10, 15], &[20, 25], &[1], &[18], &[30], 0);
    assert_eq!(pair_set(&o1, &o2), vec![(0, 0), (1, 0)]);
}

#[test]
fn overlap_join_respects_groups() {
    let (o1, o2) = sweep_line_overlaps(&[1, 2], &[0, 0], &[10, 10], &[2], &[5], &[15], 0);
    assert_eq!(pair_set(&o1, &o2), vec![(1, 0)]);
}

#[test]
fn overlap_join_touching_intervals_pair() {
    // closed boundary spans meet exactly at one point
    let (o1, o2) = sweep_line_overlaps(&[1], &[0], &[5], &[1], &[5], &[9], 0);
    assert_eq!(pair_set(&o1, &o2), vec![(0, 0)]);
}

#[test]
fn overlap_join_slack_widens_first_collection() {
    let (o1, o2) = sweep_line_overlaps(&[1], &[0], &[5], &[1], &[8], &[9], 3);
    assert_eq!(pair_set(&o1, &o2), vec![(0, 0)]);
    let (o1, o2) = sweep_line_overlaps(&[1], &[0], &[5], &[1], &[8], &[9], 2);
    assert_eq!(pair_set(&o1, &o2), vec![]);
}

#[test]
fn overlap_join_unsorted_input_rows() {
    // rows arrive in scrambled group and coordinate order
    let (o1, o2) = sweep_line_overlaps(
        &[3, 1, 2, 1],
        &[5, 50, 0, 10],
        &[9, 60, 4, 20],
        &[1, 3, 2],
        &[15, 6, 100],
        &[55, 8, 200],
        0,
    );
    assert_eq!(pair_set(&o1, &o2), vec![(0, 1), (1, 0), (3, 0)]);
}

#[test]
fn overlap_join_symmetry_example() {
    let (a1, a2) = sweep_line_overlaps(&[1, 1], &[10, 15], &[20, 25], &[1], &[18], &[30], 0);
    let (b1, b2) = sweep_line_overlaps(&[1], &[18], &[30], &[1, 1], &[10, 15], &[20, 25], 0);
    let mirrored: Vec<(usize, usize)> = pair_set(&b2, &b1);
    assert_eq!(pair_set(&a1, &a2), mirrored);
}

#[test]
fn two_pointer_matches_sweep() {
    let chrs = [1i64, 1, 2, 2];
    let starts = [0i64, 8, 3, 20];
    let ends = [10i64, 12, 9, 30];
    let chrs2 = [1i64, 2];
    let starts2 = [9i64, 5];
    let ends2 = [11i64, 25];
    let (s1, s2) = sweep_line_overlaps(&chrs, &starts, &ends, &chrs2, &starts2, &ends2, 0);
    let (t1, t2) = two_pointer_overlaps(&chrs, &starts, &ends, &chrs2, &starts2, &ends2, 0);
    let sweep: Vec<(usize, usize)> = pair_set(&s1, &s2);
    let mut two: Vec<(usize, usize)> = t1
        .iter()
        .map(|x| *x as usize)
        .zip(t2.iter().map(|x| *x as usize))
        .collect();
    two.sort_unstable();
    assert_eq!(sweep, two);
}

#[test]
fn first_overlaps_one_row_per_query() {
    let (o1, o2) = sweep_line_first_overlaps(
        &[1, 1],
        &[0, 2],
        &[10, 12],
        &[1, 1],
        &[1, 3],
        &[5, 9],
        0,
    );
    assert_eq!(o1.len(), 2);
    assert_eq!(o2.len(), 2);
    let mut seen = o1.clone();
    seen.sort_unstable();
    assert_eq!(seen, vec![0, 1]);
}

#[test]
fn set1_join_reports_first_column() {
    let o = sweep_line_overlaps_set1(&[1, 1], &[0, 100], &[10, 110], &[1], &[5], &[6], 0);
    assert_eq!(o, vec![0]);
}

#[test]
fn containment_join_keeps_contained_pairs() {
    let (o1, o2) = sweep_line_overlaps_containment(
        &[1, 1],
        &[0, 4],
        &[10, 20],
        &[1],
        &[2],
        &[8],
        0,
    );
    // only the first interval wholly contains the target span
    assert_eq!(pair_set(&o1, &o2), vec![(0, 0)]);
}

#[test]
fn merge_example() {
    let (idx, s, e, c) = sweep_line_merge(&[1, 1], &[10, 15], &[20, 25], &[0, 1], 0);
    assert_eq!(s, vec![10]);
    assert_eq!(e, vec![25]);
    assert_eq!(c, vec![2]);
    assert_eq!(idx, vec![1]);
}

#[test]
fn merge_slack_boundary() {
    // end 10 widened by 5 touches a start at 15 but not at 16
    let (_i, s, e, _c) = sweep_line_merge(&[1, 1], &[0, 15], &[10, 20], &[0, 1], 5);
    assert_eq!(s, vec![0]);
    assert_eq!(e, vec![25]);
    let (_i, s, e, _c) = sweep_line_merge(&[1, 1], &[0, 16], &[10, 20], &[0, 1], 5);
    assert_eq!(s, vec![0, 16]);
    assert_eq!(e, vec![15, 25]);
}

#[test]
fn merge_runs_are_grouped() {
    let (g, s, e, c, _i) = merge_runs_grouped(&[2, 1, 1], &[0, 0, 5], &[4, 3, 9], 0);
    assert_eq!(g, vec![1, 1, 2]);
    assert_eq!(s, vec![0, 5, 0]);
    assert_eq!(e, vec![3, 9, 4]);
    assert_eq!(c, vec![1, 1, 1]);
}

#[test]
fn merge_idempotent_on_its_own_output() {
    let (_, s1, e1, _c) = sweep_line_merge(&[1, 1, 1], &[0, 3, 20], &[5, 9, 30], &[0, 1, 2], 0);
    let groups: Vec<i64> = vec![1; s1.len()];
    let ids: Vec<i64> = (0..s1.len() as i64).collect();
    let (_, s2, e2, _c2) = sweep_line_merge(&groups, &s1, &e1, &ids, 0);
    assert_eq!(s1, s2);
    assert_eq!(e1, e2);
}

#[test]
fn cluster_assigns_one_id_per_row() {
    let (ids, rows) = sweep_line_cluster(&[1, 1, 1, 2], &[0, 4, 20, 0], &[5, 9, 30, 2], &[0, 1, 2, 3], 0);
    assert_eq!(ids.len(), 4);
    assert_eq!(rows.len(), 4);
    let mut sorted_rows = rows.clone();
    sorted_rows.sort_unstable();
    assert_eq!(sorted_rows, vec![0, 1, 2, 3]);
    // the touching pair shares an id; the others differ
    let id_of = |r: i64| ids[rows.iter().position(|x| *x == r).unwrap()];
    assert_eq!(id_of(0), id_of(1));
    assert_ne!(id_of(0), id_of(2));
    assert_ne!(id_of(2), id_of(3));
}

#[test]
fn complement_example() {
    let (gc, gs, ge, gi) = sweep_line_complement(
        &[1, 1],
        &[10, 15],
        &[20, 25],
        0,
        &[1],
        &[40],
        true,
    )
    .unwrap();
    assert_eq!(gc, vec![1, 1]);
    assert_eq!(gs, vec![0, 25]);
    assert_eq!(ge, vec![10, 40]);
    assert_eq!(gi, vec![0, 1]);
}

#[test]
fn complement_without_leading_gap() {
    let (gc, gs, ge, _gi) = sweep_line_complement(
        &[1],
        &[10],
        &[20],
        0,
        &[1],
        &[40],
        false,
    )
    .unwrap();
    assert_eq!(gc, vec![1]);
    assert_eq!(gs, vec![20]);
    assert_eq!(ge, vec![40]);
}

#[test]
fn complement_rejects_mismatched_table() {
    let err = sweep_line_complement(&[1], &[0], &[5], 0, &[1, 2], &[10], true).unwrap_err();
    assert_eq!(err, RangesError::LengthMismatch);
}

#[test]
fn complement_rejects_unknown_group() {
    let err = sweep_line_complement(&[7], &[0], &[5], 0, &[1], &[10], true).unwrap_err();
    assert_eq!(err, RangesError::UnknownGroup);
}

#[test]
fn subtract_splits_spans() {
    let (idx, s, e) = sweep_line_subtract(&[1], &[0], &[20], &[1], &[5], &[8]);
    assert_eq!(idx, vec![0, 0]);
    assert_eq!(s, vec![0, 8]);
    assert_eq!(e, vec![5, 20]);
}

#[test]
fn subtract_swallows_covered_rows() {
    let (idx, s, e) = sweep_line_subtract(&[1], &[5], &[8], &[1], &[0], &[20]);
    assert!(idx.is_empty());
    assert!(s.is_empty());
    assert!(e.is_empty());
}

#[test]
fn nearest_example() {
    let (i1, i2, d) = nearest(
        &[1],
        &[0],
        &[5],
        &[1, 1],
        &[10, 20],
        &[12, 22],
        0,
        1,
        true,
        Direction::Any,
    );
    assert_eq!(i1, vec![0]);
    assert_eq!(i2, vec![0]);
    assert_eq!(d, vec![6]);
}

#[test]
fn nearest_keeps_ties_at_one_distance() {
    // two targets at the same distance on both sides
    let (i1, _i2, d) = nearest(
        &[1],
        &[10],
        &[12],
        &[1, 1],
        &[0, 14],
        &[8, 20],
        0,
        1,
        false,
        Direction::Any,
    );
    assert_eq!(i1, vec![0, 0]);
    assert_eq!(d, vec![3, 3]);
}

#[test]
fn nearest_direction_forward_only() {
    let (i1, i2, d) = nearest(
        &[1],
        &[10],
        &[12],
        &[1, 1],
        &[0, 14],
        &[8, 20],
        0,
        1,
        false,
        Direction::Forward,
    );
    assert_eq!(i1, vec![0]);
    assert_eq!(i2, vec![1]);
    assert_eq!(d, vec![3]);
}

#[test]
fn right_scan_counts_distinct_positions() {
    let ends = vec![MinEvent { chr: 1, pos: 5, idx: 0 }];
    let starts = vec![
        MinEvent { chr: 1, pos: 10, idx: 7 },
        MinEvent { chr: 1, pos: 10, idx: 8 },
        MinEvent { chr: 1, pos: 20, idx: 9 },
    ];
    let rows = nearest_intervals_to_the_right(ends, starts, 1);
    assert_eq!(rows.len(), 2);
    assert!(rows.iter().all(|r| r.distance == 6 && r.idx == 0));
}

#[test]
fn left_scan_mirrors_right_scan() {
    let queries = vec![MinEvent { chr: 1, pos: 10, idx: 0 }];
    let cands = vec![MinEvent { chr: 1, pos: 4, idx: 5 }];
    let rows = nearest_intervals_to_the_left(queries, cands, 1);
    assert_eq!(rows.len(), 1);
    assert_eq!(rows[0].idx, 0);
    assert_eq!(rows[0].idx2, 5);
    assert_eq!(rows[0].distance, 7);
}

#[test]
fn merge_three_way_cuts_distinct_distances() {
    let overlaps = vec![Nearest { distance: 0, idx: 0, idx2: 9 }];
    let left = vec![Nearest { distance: 3, idx: 0, idx2: 1 }];
    let right = vec![Nearest { distance: 5, idx: 0, idx2: 2 }];
    let (i1, i2, d) = merge_three_way(&overlaps, &left, &right, 2);
    assert_eq!(i1, vec![0, 0]);
    assert_eq!(i2, vec![9, 1]);
    assert_eq!(d, vec![0, 3]);
}

#[test]
fn pick_k_distances_per_query() {
    let (i1, _i2, d) = pick_k_distances_combined(
        &[0, 0, 1],
        &[10, 11, 12],
        &[1, 2, 5],
        &[],
        &[],
        &[],
        1,
    );
    assert_eq!(i1, vec![0, 1]);
    assert_eq!(d, vec![1, 5]);
}

#[test]
fn merge_sorted_streams() {
    let merged = merge_sorted_by_idx_dist(&[0, 2], &[5, 6], &[1, 1], &[1], &[7], &[4]);
    assert_eq!(merged, vec![(0, 5, 1), (1, 7, 4), (2, 6, 1)]);
}

#[test]
fn interval_distance_cases() {
    assert_eq!(interval_distance(0, 5, 3, 8), 0);
    assert_eq!(interval_distance(0, 5, 9, 12), 4);
    assert_eq!(interval_distance(9, 12, 0, 5), 4);
}

#[test]
fn push_distance_keeps_smallest() {
    let mut heap: Vec<HeapItem> = Vec::new();
    let mut zc: usize = 0;
    assert!(push_distance(&mut heap, 5, 1, 2, &mut zc));
    assert!(push_distance(&mut heap, 3, 2, 2, &mut zc));
    assert!(push_distance(&mut heap, 4, 3, 2, &mut zc));
    assert_eq!(heap.len(), 2);
    // ascending by distance: 3 then 4
    assert_eq!(-heap[0].neg_dist, 3);
    assert_eq!(-heap[1].neg_dist, 4);
    assert!(!push_distance(&mut heap, 9, 4, 2, &mut zc));
}

#[test]
fn k_nearest_scan_sorted_by_query() {
    let (i1, i2, d) = sweep_line_k_nearest(
        &[1, 1],
        &[5, 30],
        &[100, 200],
        &[1],
        &[10],
        &[300],
        false,
        1,
    );
    assert_eq!(i1, vec![100]);
    assert_eq!(i2, vec![300]);
    assert_eq!(d, vec![6]);
    let _ = (i1, i2, d);
}

#[test]
fn merged_heap_rows_are_nonnegative() {
    let (o1, o2, od) = sweep_line_overlaps_merged_heap(
        &[1, 1],
        &[0, 50],
        &[10, 60],
        &[0, 1],
        &[1],
        &[20],
        &[30],
        &[0],
        0,
        2,
    );
    assert_eq!(o1.len(), o2.len());
    assert_eq!(o1.len(), od.len());
    assert!(od.iter().all(|d| *d >= 0));
}

#[test]
fn sort_order_permutes_rows() {
    let order = sort_order_idx(&[2, 1, 1], &[5, 9, 0], &[6, 12, 4]);
    assert_eq!(order, vec![2, 1, 0]);
}

#[test]
fn subsequence_builders_negate_minus_strand() {
    let rows = build_subsequence_intervals(&[1, 1], &[2, 5], &[4, 9], &[true, false]);
    assert_eq!(rows[0].start, 2);
    assert_eq!(rows[1].start, -5);
    assert_eq!(rows[1].end, -9);
    let seqs = build_sequence_intervals(&[1], &[2], &[4], &[7], &[false], true);
    assert_eq!(seqs[0].start, 2);
    assert_eq!(seqs[0].idx, 7);
}

#[test]
fn spliced_subseq_clips_window() {
    // one forward transcript of two exons, keep spliced bases 2..5
    let (idx, s, e) = spliced_subseq(
        &[1, 1],
        &[0, 10],
        &[4, 14],
        &[100, 200],
        &[true, true],
        2,
        Some(5),
        false,
    );
    assert_eq!(idx, vec![100, 200]);
    assert_eq!(s, vec![2, 10]);
    assert_eq!(e, vec![4, 11]);
}

#[test]
fn whichlist_and_winners() {
    assert!(WhichList::StartSet1.is_start());
    assert!(!WhichList::EndSet2.is_start());
    let a = Some((WhichList::StartSet1, MinEvent { chr: 1, pos: 5, idx: 0 }));
    let b = Some((WhichList::EndSet1, MinEvent { chr: 1, pos: 5, idx: 1 }));
    let w = pick_winner_of_two_choose_first_if_equal(a, b).unwrap();
    assert!(matches!(w.0, WhichList::StartSet1));
    let w4 = pick_winner_of_four(a, None, b, None).unwrap();
    assert!(matches!(w4.0, WhichList::StartSet1));
}

#[test]
fn separate_outputs_are_sorted() {
    let (ss, es) = build_sorted_events_single_collection_separate_outputs(
        &[2, 1],
        &[5, 9],
        &[6, 12],
        1,
    );
    assert_eq!(ss[0].chr, 1);
    assert_eq!(ss[0].pos, 8);
    assert_eq!(ss[1].pos, 4);
    assert_eq!(es[0].pos, 13);
    assert_eq!(es[1].pos, 7);
}

#[test]
fn empty_inputs_give_empty_outputs() {
    let (o1, o2) = sweep_line_overlaps(&[], &[], &[], &[], &[], &[], 0);
    assert!(o1.is_empty() && o2.is_empty());
    let (i, s, e, c) = sweep_line_merge(&[], &[], &[], &[], 0);
    assert!(i.is_empty() && s.is_empty() && e.is_empty() && c.is_empty());
    let (ids, rows) = sweep_line_cluster(&[], &[], &[], &[], 0);
    assert!(ids.is_empty() && rows.is_empty());
}

#[test]
fn non_overlaps_lists_lonely_rows() {
    let lonely = sweep_line_non_overlaps(
        &[1, 1, 2],
        &[0, 100, 0],
        &[10, 110, 5],
        &[1],
        &[5],
        &[6],
        0,
    );
    assert_eq!(lonely, vec![1, 2]);
}

#[test]
fn merged_heap_keeps_k_smallest_ascending() {
    let (o1, o2, od) = sweep_line_overlaps_merged_heap(
        &[1],
        &[10],
        &[20],
        &[0],
        &[1, 1, 1],
        &[0, 26, 40],
        &[5, 30, 45],
        &[0, 1, 2],
        0,
        2,
    );
    assert_eq!(o1, vec![0, 0]);
    assert_eq!(o2, vec![0, 1]);
    assert_eq!(od, vec![5, 6]);
}

#[test]
fn merged_heap_blocks_are_consecutive_per_query() {
    let (o1, o2, od) = sweep_line_overlaps_merged_heap(
        &[1, 1],
        &[0, 100],
        &[10, 110],
        &[7, 8],
        &[1, 1],
        &[12, 95],
        &[14, 98],
        &[3, 4],
        0,
        1,
    );
    assert_eq!(o1, vec![7, 8]);
    assert_eq!(o2, vec![3, 4]);
    assert_eq!(od, vec![2, 2]);
}

#[test]
fn subtract_ignores_empty_second_rows() {
    let (oi, os, oe) = ruranges::subtract::sweep_line_subtract(
        &[1],
        &[0],
        &[10],
        &[1],
        &[5],
        &[5],
    );
    assert_eq!(oi, vec![0]);
    assert_eq!(os, vec![0]);
    assert_eq!(oe, vec![10]);
}

#[test]
fn two_pointer_reports_each_pair_once() {
    let (o1, o2) = two_pointer_overlaps(
        &[1, 1, 1],
        &[0, 0, 5],
        &[10, 10, 15],
        &[1, 1],
        &[2, 2],
        &[8, 8],
        0,
    );
    let mut pairs: Vec<(i64, i64)> = o1.iter().copied().zip(o2.iter().copied()).collect();
    assert_eq!(pairs.len(), 6);
    pairs.sort();
    let before = pairs.len();
    pairs.dedup();
    assert_eq!(pairs.len(), before);
}

#[test]
fn merge_sorted_prefers_left_on_ties() {
    let merged = merge_sorted_by_idx_dist(
        &[1, 2],
        &[7, 7],
        &[3, 1],
        &[1],
        &[9],
        &[3],
    );
    assert_eq!(merged, vec![(1, 7, 3), (1, 9, 3), (2, 7, 1)]);
}

#[test]
fn merged_heap_zero_k_emits_nothing() {
    let (o1, o2, od) = sweep_line_overlaps_merged_heap(
        &[1],
        &[10],
        &[20],
        &[0],
        &[1],
        &[30],
        &[40],
        &[0],
        0,
        0,
    );
    assert!(o1.is_empty() && o2.is_empty() && od.is_empty());
}

#[test]
fn merged_heap_emits_all_candidates_when_k_exceeds_them() {
    let (o1, o2, od) = sweep_line_overlaps_merged_heap(
        &[1],
        &[10],
        &[20],
        &[0],
        &[1, 1, 1, 2],
        &[0, 26, 40, 10],
        &[5, 30, 45, 20],
        &[0, 1, 2, 3],
        0,
        5,
    );
    assert_eq!(o1, vec![0, 0, 0]);
    assert_eq!(o2, vec![0, 1, 2]);
    assert_eq!(od, vec![5, 6, 20]);
}

#[test]
fn first_overlaps_reports_earliest_starting_partner() {
    let (o1, o2) = sweep_line_first_overlaps(
        &[1],
        &[0],
        &[10],
        &[1, 1, 1],
        &[5, 3, 20],
        &[6, 4, 30],
        0,
    );
    assert_eq!(o1, vec![0]);
    assert_eq!(o2, vec![1]);
}

#[test]
fn first_overlaps_breaks_start_ties_by_row_order() {
    let (o1, o2) = sweep_line_first_overlaps(
        &[1],
        &[0],
        &[10],
        &[1, 1],
        &[4, 4],
        &[8, 9],
        0,
    );
    assert_eq!(o1, vec![0]);
    assert_eq!(o2, vec![0]);
}

#[test]
fn sort_order_keeps_equal_key_rows_in_row_order() {
    let order = sort_order_idx(&[1, 1, 1], &[5, 5, 5], &[9, 9, 9]);
    assert_eq!(order, vec![0, 1, 2]);
}

#[test]
fn repeated_joins_return_identical_columns() {
    let a = sweep_line_overlaps(&[1, 1], &[0, 4], &[6, 9], &[1, 1], &[2, 4], &[5, 8], 1);
    let b = sweep_line_overlaps(&[1, 1], &[0, 4], &[6, 9], &[1, 1], &[2, 4], &[5, 8], 1);
    assert_eq!(a.0, b.0);
    assert_eq!(a.1, b.1);
}

#[test]
fn merge_of_merge_returns_same_ranges_with_unit_counts() {
    let (idx, ms, me, cnt) = sweep_line_merge(&[1, 1, 2], &[0, 5, 0], &[6, 9, 4], &[0, 1, 2], 0);
    assert_eq!(idx, vec![1, 2]);
    assert_eq!(ms, vec![0, 0]);
    assert_eq!(me, vec![9, 4]);
    assert_eq!(cnt, vec![2, 1]);
    let (_, ms2, me2, cnt2) = sweep_line_merge(&[1, 2], &ms, &me, &[0, 1], 0);
    assert_eq!(ms2, ms);
    assert_eq!(me2, me);
    assert_eq!(cnt2, vec![1, 1]);
}
