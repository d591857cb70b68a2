use traj_simplify::point::Point;
use traj_simplify::priority::{squish_e, PriorityBuffer};
use traj_simplify::single_pass::{opw, opw_tr, uniform};
use traj_simplify::sliding::sttrace;

fn p(lat: i64, lon: i64, time: i64) -> Point {
    Point::new(lat, lon, time)
}

fn pts4() -> Vec<Point> {
    vec![p(0, 0, 0), p(1, 1, 1), p(2, 2, 2), p(10, 10, 3)]
}

#[test]
fn squish_e_evicts_smallest_sed_and_recomputes() {
    // capacity starts at four, so the fourth insertion forces exactly one
    // eviction: the collinear sample (1,1,1) has SED 0 against its
    // neighbours while (2,2,2) has SED 4, so (1,1,1) goes
    let points = pts4();
    let out = squish_e(&points, 1, 1, 0);
    assert_eq!(out, vec![p(0, 0, 0), p(2, 2, 2), p(10, 10, 3)]);
}

#[test]
fn squish_e_uses_recomputed_cost_for_later_decisions() {
    // before the eviction the survivor (2,2,2) had cost 4; against its new
    // neighbour pair its cost is 5. With an error bound of 4 the converging
    // phase must keep it: only the recomputed cost explains the output
    let points = pts4();
    let out = squish_e(&points, 1, 1, 4);
    assert_eq!(out, vec![p(0, 0, 0), p(2, 2, 2), p(10, 10, 3)]);
}

#[test]
fn squish_e_converges_past_the_bound() {
    // with a bound of 5 the recomputed survivor (cost exactly 5) is evicted
    // too, and no further interior cost stays within the bound
    let points = vec![p(0, 0, 0), p(1, 1, 1), p(2, 2, 2), p(10, 10, 3), p(11, 11, 4)];
    let out = squish_e(&points, 1, 1, 5);
    assert_eq!(out, vec![p(0, 0, 0), p(10, 10, 3), p(11, 11, 4)]);
}

#[test]
fn squish_e_consumes_whole_stream_without_need() {
    // a generous ratio keeps the capacity ahead of consumption and every
    // interior sample deviates beyond the bound: the whole stream passes
    // through unchanged
    let points = vec![p(0, 0, 0), p(10, 0, 1), p(0, 0, 2), p(10, 0, 3)];
    assert_eq!(squish_e(&points, 1, 2, 5), points);
}

#[test]
fn sttrace_output_length_matches_budget() {
    let mut points: Vec<Point> = Vec::new();
    for i in 0..10i64 {
        points.push(p(i, 0, i));
    }
    // budget floor(7/10 * 10) = 7
    assert_eq!(sttrace(&points, 7, 10).len(), 7);
    // budget floor(1 * 10) = 10: everything fits
    assert_eq!(sttrace(&points, 1, 1).len(), 10);
}

#[test]
fn squish_e_two_point_input_unchanged() {
    let points = vec![p(3, 4, 0), p(5, 6, 9)];
    assert_eq!(squish_e(&points, 1, 1, 0), points);
    assert_eq!(squish_e(&points, 7, 2, u128::MAX), points);
    assert_eq!(squish_e(&points, 1, 1000, 12345), points);
}

#[test]
fn squish_e_infinite_bound_leaves_only_anchors() {
    // an unbounded target error converges all the way down to the anchors
    let points = vec![
        p(0, 0, 0),
        p(5, 1, 1),
        p(-3, 7, 2),
        p(100, 100, 3),
        p(2, 2, 4),
        p(9, -9, 5),
    ];
    let out = squish_e(&points, 1, 1, u128::MAX);
    assert_eq!(out, vec![p(0, 0, 0), p(9, -9, 5)]);
}

#[test]
fn squish_e_flat_timestamps_are_handled() {
    // a zero time span anywhere is a defined fallback, never an error
    let points = vec![p(0, 0, 7), p(4, 0, 7), p(0, 4, 7), p(8, 8, 7)];
    let out = squish_e(&points, 1, 1, 0);
    assert_eq!(out.first(), points.first());
    assert_eq!(out.last(), points.last());
    assert!(out.len() >= 2);
}

#[test]
fn priority_buffer_size_stays_within_capacity() {
    // observe the size bound after every single insertion
    let mut buf = PriorityBuffer::new(2, 1);
    let mut t: i64 = 0;
    for step in 0..50i64 {
        buf.insert(p(step * 3 % 17, step * 5 % 13, t));
        t += 1;
        assert!(buf.len() < buf.current_capacity());
    }
    assert_eq!(buf.consumed_count(), 50);
    // the schedule grows by one each time consumption catches up with
    // twice the capacity: 4 at the start, then one more at 8, 10, ..., 48
    assert_eq!(buf.current_capacity(), 25);
}

#[test]
fn priority_buffer_compensation_propagates_and_grows() {
    let points = vec![p(0, 0, 0), p(1, 1, 1), p(2, 2, 2), p(10, 10, 3), p(11, 11, 4)];
    let mut buf = PriorityBuffer::new(1, 1);
    for q in points.iter() {
        buf.insert(*q);
    }
    // the fourth insertion evicted the collinear sample at cost zero
    assert_eq!(buf.len(), 4);
    let comps_before: Vec<u128> = (0..buf.len()).map(|k| buf.comp_at(k)).collect();
    buf.converge(5);
    // (2,2,2) was evicted at cost 5: both surviving neighbours now owe a
    // compensation of at least 5, and the recomputed interior cost is the
    // compensation plus the new SED (5 + 2)
    assert_eq!(buf.len(), 3);
    assert_eq!(buf.point_at(1), p(10, 10, 3));
    assert_eq!(buf.comp_at(1), 5);
    assert_eq!(buf.cost_at(1), 7);
    // the other neighbour of the evicted sample was the first anchor
    assert_eq!(buf.comp_at(0), 5);
    // no retained compensation ever decreased
    assert!(buf.comp_at(0) >= comps_before[0]);
}

#[test]
fn converge_is_idempotent_at_a_bound() {
    // once every interior cost exceeds the bound, converging again with
    // the same bound changes nothing
    let points = pts4();
    let mut buf = PriorityBuffer::new(1, 1);
    for q in points.iter() {
        buf.insert(*q);
    }
    buf.converge(0);
    let len_first = buf.len();
    let costs_first: Vec<u128> = (0..len_first).map(|k| buf.cost_at(k)).collect();
    buf.converge(0);
    assert_eq!(buf.len(), len_first);
    let costs_second: Vec<u128> = (0..buf.len()).map(|k| buf.cost_at(k)).collect();
    assert_eq!(costs_first, costs_second);
}

#[test]
fn sttrace_tiny_budget_keeps_only_anchors() {
    let points = vec![p(0, 0, 0), p(1, 1, 1), p(2, 2, 2), p(10, 10, 3)];
    // floor(1/2 * 4) = 2: degenerate path keeps the two anchors
    let out = sttrace(&points, 1, 2);
    assert_eq!(out, vec![p(0, 0, 0), p(10, 10, 3)]);
}

#[test]
fn sttrace_two_point_input_unchanged() {
    let points = vec![p(3, 4, 0), p(5, 6, 9)];
    assert_eq!(sttrace(&points, 1, 1), points);
    assert_eq!(sttrace(&points, 9, 1), points);
    assert_eq!(sttrace(&points, 1, 100), points);
}

#[test]
fn sttrace_generous_budget_keeps_everything() {
    let points = vec![p(0, 0, 0), p(1, 1, 1), p(2, 2, 2), p(10, 10, 3), p(11, 11, 4)];
    let out = sttrace(&points, 1, 1);
    assert_eq!(out, points);
}

#[test]
fn sttrace_evicts_minimum_and_recomputes_neighbours() {
    // budget floor(3/5 * 5) = 3: evictions follow the minimum local SED,
    // with exactly the surviving neighbours recomputed after each one
    let points = vec![p(0, 0, 0), p(1, 1, 1), p(2, 2, 2), p(10, 10, 3), p(11, 11, 4)];
    let out = sttrace(&points, 3, 5);
    assert_eq!(out, vec![p(0, 0, 0), p(10, 10, 3), p(11, 11, 4)]);
}

#[test]
fn uniform_keeps_every_stride_and_the_last() {
    let points = vec![p(0, 0, 0), p(1, 0, 1), p(2, 0, 2), p(3, 0, 3), p(4, 0, 4)];
    assert_eq!(
        uniform(&points, 2),
        vec![p(0, 0, 0), p(2, 0, 2), p(4, 0, 4)]
    );
    assert_eq!(
        uniform(&points, 3),
        vec![p(0, 0, 0), p(3, 0, 3), p(4, 0, 4)]
    );
    assert_eq!(uniform(&points, 10), vec![p(0, 0, 0), p(4, 0, 4)]);
    assert_eq!(uniform(&points, 1), points);
}

#[test]
fn opw_straight_line_collapses_to_anchors() {
    let points = vec![p(0, 0, 0), p(1, 1, 1), p(2, 2, 2), p(3, 3, 3)];
    assert_eq!(opw(&points, 0), vec![p(0, 0, 0), p(3, 3, 3)]);
}

#[test]
fn opw_emits_every_deviating_sample() {
    // each interior sample deviates from its window chord by exactly 1
    let points = vec![p(0, 0, 0), p(1, 0, 1), p(2, 100, 2), p(3, 100, 3)];
    assert_eq!(opw(&points, 0), points);
    assert_eq!(opw(&points, 1_000_000), vec![p(0, 0, 0), p(3, 100, 3)]);
}

#[test]
fn opw_tr_emits_on_synchronous_deviation() {
    let points = vec![p(0, 0, 0), p(10, 0, 1), p(0, 0, 2)];
    // the middle sample deviates from the interpolated chord by 10
    assert_eq!(opw_tr(&points, 5), points);
    assert_eq!(opw_tr(&points, 10), vec![p(0, 0, 0), p(0, 0, 2)]);
}

#[test]
fn two_point_inputs_pass_through_single_pass_filters() {
    let points = vec![p(3, 4, 0), p(5, 6, 9)];
    assert_eq!(uniform(&points, 1), points);
    assert_eq!(uniform(&points, 7), points);
    assert_eq!(opw(&points, 0), points);
    assert_eq!(opw_tr(&points, 0), points);
}
