use crate::pickup::is_earliest_pickup;
use crate::geometry::{
    dist2, distance, lemma_ceil_sqrt, lemma_square_monotone, lemma_travel_micros_least, Point,
};
use crate::road_structure::{
    lemma_walk_time_at_least, straight_time, walk_reach, walk_time, RoadModel,
};
use crate::time_to_reach::{is_reach_field, lemma_ride_forward, settled_by, Label, SearchEnv};
use crate::BusPickupInfo;
use vstd::prelude::*;

verus! {

/// No place is settled at two times: once a place has its arrival time, the
/// search never gives it another.
pub proof fn lemma_settled_once(env: SearchEnv, order: Seq<Label>, i: int, j: int)
    requires
        is_reach_field(env, order),
        0 <= i < order.len(),
        0 <= j < order.len(),
        order[i].place == order[j].place,
    ensures
        i == j,
{
    if i < j {
        assert(order[i].place != order[j].place);
    } else if j < i {
        assert(order[j].place != order[i].place);
    }
}

/// Labels are settled in the order of their times.
pub proof fn lemma_settled_in_order(env: SearchEnv, order: Seq<Label>, i: int, j: int)
    requires
        is_reach_field(env, order),
        0 <= i <= j < order.len(),
    ensures
        order[i].arrival.0 <= order[j].arrival.0,
{
}

/// No walk and no ride that starts from a settled label reaches a place
/// before the time at which that place is settled, and it does reach a
/// settled place.
pub proof fn lemma_settled_is_earliest(env: SearchEnv, order: Seq<Label>, j: int, l: Label)
    requires
        is_reach_field(env, order),
        0 <= j < order.len(),
        env.step(order[j], l),
    ensures
        settled_by(order, l),
        forall|i: int|
            0 <= i < order.len() && (#[trigger] order[i]).place == l.place ==> order[i].arrival.0
                <= l.arrival.0,
{
    assert(settled_by(order, l));
    let s = choose|s: int|
        0 <= s < order.len() && (#[trigger] order[s]).place == l.place && order[s].arrival.0
            <= l.arrival.0;
    assert forall|i: int|
        0 <= i < order.len() && (#[trigger] order[i]).place == l.place implies order[i].arrival.0
        <= l.arrival.0 by {
        lemma_settled_once(env, order, i, s);
    }
}

/// Every settled label but the origin's is reached from a label settled
/// before it, by a walk or by a ride.
pub proof fn lemma_settled_is_derived(env: SearchEnv, order: Seq<Label>, i: int)
    requires
        is_reach_field(env, order),
        1 <= i < order.len(),
    ensures
        exists|j: int|
            0 <= j < i && (env.walk_step(#[trigger] order[j], order[i]) || env.ride_step(
                order[j],
                order[i],
            )),
{
    let j = choose|j: int| 0 <= j < i && env.step(order[j], order[i]);
    assert(env.walk_step(order[j], order[i]) || env.ride_step(order[j], order[i]));
}

/// Whoever boards, boards a trip that leaves no sooner than the transfer
/// time after the rider reached the stop.
pub proof fn lemma_transfer_buffer(
    env: SearchEnv,
    from: Label,
    ev: BusPickupInfo,
    k: int,
    to: Label,
)
    requires
        env.wf(),
        env.rides(from, ev, k, to),
    ensures
        ev.timestamp.0 >= from.arrival.0 + env.roads.constants.min_transfer,
        is_earliest_pickup(
            env.timetable,
            from.place as u64,
            from.arrival.0 + env.roads.constants.min_transfer,
            ev,
        ),
{
    lemma_ride_forward(env, from, ev, k, to);
}

/// The walk between two points never takes longer than the straight walk,
/// whether or not streets lead from one to the other.
pub proof fn lemma_walk_time_at_most_straight(g: RoadModel, a: Point, b: Point)
    ensures
        walk_time(g, a, b) <= straight_time(g, a, b),
{
}

/// The radius within which the search looks for places to walk to hides no
/// place that can be walked to in the time that is left: whatever is
/// reached in time, and lies within the largest walk that is considered,
/// lies within the radius.
pub proof fn lemma_walk_radius_admissible(g: RoadModel, a: Point, b: Point, remaining: nat)
    requires
        g.constants.valid(),
        walk_time(g, a, b) <= remaining,
        distance(a, b) <= g.constants.max_walk_radius,
    ensures
        dist2(a, b) <= walk_reach(g, remaining as int) * walk_reach(g, remaining as int),
{
    let speed = g.constants.walking_speed as nat;
    let d = distance(a, b);
    let t = crate::geometry::travel_micros(d, speed);
    lemma_walk_time_at_least(g, a, b);
    lemma_travel_micros_least(d, speed, 0);
    assert(t * speed <= remaining * speed) by (nonlinear_arith)
        requires
            t <= remaining,
            speed > 0,
    ;
    let covered = (remaining * speed) as int;
    assert(d * 1_000_000 <= covered);
    assert(d <= covered / 1_000_000) by {
        vstd::arithmetic::div_mod::lemma_div_is_ordered((d * 1_000_000) as int, covered, 1_000_000);
        vstd::arithmetic::div_mod::lemma_div_by_multiple(d as int, 1_000_000);
    }
    let reach = walk_reach(g, remaining as int);
    assert(d <= reach);
    assert(dist2(a, b) >= 0) by (nonlinear_arith)
        requires
            dist2(a, b) == (a.x - b.x) * (a.x - b.x) + (a.y - b.y) * (a.y - b.y),
    ;
    lemma_ceil_sqrt(dist2(a, b) as nat, 0);
    lemma_square_monotone(d, reach as nat);
}

/// No settled label lies before the start or beyond the budget.
pub proof fn lemma_within_budget(env: SearchEnv, order: Seq<Label>, i: int)
    requires
        is_reach_field(env, order),
        0 <= i < order.len(),
    ensures
        env.start <= order[i].arrival.0 <= env.deadline,
{
}

/// A label that a step from a settled label reaches exactly at the end of
/// the budget is settled.
pub proof fn lemma_boundary_included(env: SearchEnv, order: Seq<Label>, j: int, l: Label)
    requires
        is_reach_field(env, order),
        0 <= j < order.len(),
        env.step(order[j], l),
        l.arrival.0 == env.deadline,
    ensures
        exists|i: int| 0 <= i < order.len() && (#[trigger] order[i]).place == l.place,
{
    assert(settled_by(order, l));
    let s = choose|s: int|
        0 <= s < order.len() && (#[trigger] order[s]).place == l.place && order[s].arrival.0
            <= l.arrival.0;
}

/// The first label of `a`, up to position `i`, that `b` does not hold.
proof fn lemma_first_missing(a: Seq<Label>, b: Seq<Label>, i: int) -> (m: int)
    requires
        0 <= i < a.len(),
        !b.contains(a[i]),
    ensures
        0 <= m <= i,
        !b.contains(a[m]),
        forall|k: int| 0 <= k < m ==> b.contains(#[trigger] a[k]),
    decreases i,
{
    if exists|k: int| 0 <= k < i && !b.contains(#[trigger] a[k]) {
        let k = choose|k: int| 0 <= k < i && !b.contains(#[trigger] a[k]);
        lemma_first_missing(a, b, k)
    } else {
        i
    }
}

/// Where `a[m]` is the first label of `a` that `b` does not hold, `b` has
/// settled the place of `a[m]` at an earlier time.
proof fn lemma_earlier_twin(env: SearchEnv, a: Seq<Label>, b: Seq<Label>, m: int) -> (t: int)
    requires
        is_reach_field(env, a),
        is_reach_field(env, b),
        0 <= m < a.len(),
        !b.contains(a[m]),
        forall|k: int| 0 <= k < m ==> b.contains(#[trigger] a[k]),
    ensures
        0 <= t < b.len(),
        b[t].place == a[m].place,
        b[t].arrival.0 < a[m].arrival.0,
{
    if m == 0 {
        assert(b[0] == a[0]);
        assert(b.contains(a[0]));
    }
    let j = choose|j: int| 0 <= j < m && env.step(a[j], a[m]);
    assert(b.contains(a[j]));
    let jb = choose|jb: int| 0 <= jb < b.len() && b[jb] == a[j];
    assert(env.step(b[jb], a[m]));
    assert(settled_by(b, a[m]));
    let t = choose|t: int|
        0 <= t < b.len() && (#[trigger] b[t]).place == a[m].place && b[t].arrival.0
            <= a[m].arrival.0;
    if b[t].arrival.0 == a[m].arrival.0 {
        assert(b[t] == a[m]);
    }
    t
}

/// Every label of one result of a search is a label of every other result.
#[verifier::rlimit(60)]
proof fn lemma_results_included(env: SearchEnv, a: Seq<Label>, b: Seq<Label>, i: int)
    requires
        is_reach_field(env, a),
        is_reach_field(env, b),
        0 <= i < a.len(),
    ensures
        b.contains(a[i]),
{
    if !b.contains(a[i]) {
        let m = lemma_first_missing(a, b, i);
        let t = lemma_earlier_twin(env, a, b, m);
        // `b[t]` cannot be a label of `a`: it would be a second label at the place of `a[m]`.
        if a.contains(b[t]) {
            let x = choose|x: int| 0 <= x < a.len() && a[x] == b[t];
            lemma_settled_once(env, a, x, m);
        }
        let mb = lemma_first_missing(b, a, t);
        lemma_settled_in_order(env, b, mb, t);
        let x = lemma_earlier_twin(env, b, a, mb);
        // `a[x]` is earlier than `a[m]`, so it comes before it, and `b` holds it.
        if x >= m {
            lemma_settled_in_order(env, a, m, x);
        }
        assert(b.contains(a[x]));
        let y = choose|y: int| 0 <= y < b.len() && b[y] == a[x];
        lemma_settled_once(env, b, y, mb);
    }
}

/// Two results of the same search hold the same labels: what is settled,
/// and when, depends on nothing but what the search is given.
pub proof fn lemma_search_is_determined(env: SearchEnv, a: Seq<Label>, b: Seq<Label>)
    requires
        is_reach_field(env, a),
        is_reach_field(env, b),
    ensures
        forall|l: Label| a.contains(l) <==> b.contains(l),
        a.len() == b.len(),
{
    assert forall|l: Label| a.contains(l) implies b.contains(l) by {
        let i = choose|i: int| 0 <= i < a.len() && a[i] == l;
        lemma_results_included(env, a, b, i);
    }
    assert forall|l: Label| b.contains(l) implies a.contains(l) by {
        let i = choose|i: int| 0 <= i < b.len() && b[i] == l;
        lemma_results_included(env, b, a, i);
    }
    assert(a.no_duplicates()) by {
        assert forall|i: int, j: int| 0 <= i < a.len() && 0 <= j < a.len() && i != j implies a[i]
            != a[j] by {
            if a[i] == a[j] {
                lemma_settled_once(env, a, i, j);
            }
        }
    }
    assert(b.no_duplicates()) by {
        assert forall|i: int, j: int| 0 <= i < b.len() && 0 <= j < b.len() && i != j implies b[i]
            != b[j] by {
            if b[i] == b[j] {
                lemma_settled_once(env, b, i, j);
            }
        }
    }
    a.unique_seq_to_set();
    b.unique_seq_to_set();
    assert(a.to_set() =~= b.to_set());
}

} // verus!
