use crate::geometry::{
    dist2, distance, lemma_travel_micros_least, lemma_travel_micros_monotone,
    lemma_travel_micros_slower, lemma_travel_micros_sum, lemma_triangle, travel_micros,
    travel_time, Point,
};
use crate::spatial::PointIndex;
use crate::Constants;
use vstd::prelude::*;

verus! {

/// The cost that stands for "no path found".
pub const NO_PATH: u64 = u64::MAX;

/// The walkable network as the proofs see it: where the nodes lie, which
/// pairs of nodes a street joins, how many of the first nodes are transit
/// stops, and the tuning values.
pub struct RoadModel {
    pub nodes: Seq<Point>,
    pub links: Seq<(int, int)>,
    pub stop_count: nat,
    pub constants: Constants,
}

/// A street joins `u` and `v`, in either direction.
pub open spec fn adjacent(g: RoadModel, u: int, v: int) -> bool {
    exists|e: int| 0 <= e < g.links.len() && (#[trigger] g.links[e] == (u, v) || g.links[e] == (v, u))
}

/// Time to walk the street between two nodes, in microseconds.
pub open spec fn step_cost(g: RoadModel, u: int, v: int) -> nat {
    travel_micros(distance(g.nodes[u], g.nodes[v]), g.constants.walking_speed as nat)
}

/// `p` is a sequence of nodes in which a street joins each node to the next.
pub open spec fn is_walk(g: RoadModel, p: Seq<int>) -> bool {
    &&& p.len() >= 1
    &&& forall|i: int| 0 <= i < p.len() ==> 0 <= #[trigger] p[i] < g.nodes.len()
    &&& forall|i: int| 0 <= i < p.len() - 1 ==> adjacent(g, #[trigger] p[i], p[i + 1])
}

/// Time to walk along `p`, in microseconds.
pub open spec fn walk_cost(g: RoadModel, p: Seq<int>) -> nat
    decreases p.len(),
{
    if p.len() <= 1 {
        0
    } else {
        walk_cost(g, p.drop_last()) + step_cost(g, p[p.len() - 2], p[p.len() - 1])
    }
}

/// `p` is a walk from `u` to `v`.
pub open spec fn connects(g: RoadModel, p: Seq<int>, u: int, v: int) -> bool {
    is_walk(g, p) && p.first() == u && p.last() == v
}

/// Some walk from `u` to `v` takes exactly `d` microseconds.
pub open spec fn reaches(g: RoadModel, u: int, v: int, d: nat) -> bool {
    exists|p: Seq<int>| #[trigger] connects(g, p, u, v) && walk_cost(g, p) == d
}

/// `d` is the time of a quickest walk from `u` to `v` along the streets.
pub open spec fn is_graph_time(g: RoadModel, u: int, v: int, d: nat) -> bool {
    reaches(g, u, v, d) && forall|p: Seq<int>| #[trigger]
        connects(g, p, u, v) ==> walk_cost(g, p) >= d
}

/// The time of a quickest walk from `u` to `v` along the streets, if there is a walk.
pub open spec fn graph_time(g: RoadModel, u: int, v: int) -> Option<nat> {
    if exists|d: nat| is_graph_time(g, u, v, d) {
        Some(choose|d: nat| is_graph_time(g, u, v, d))
    } else {
        None
    }
}

/// Node `i` lies within the snapping tolerance of `a`.
pub open spec fn near(g: RoadModel, a: Point, i: int) -> bool {
    0 <= i < g.nodes.len() && dist2(g.nodes[i], a) <= g.constants.snap_tolerance
        * g.constants.snap_tolerance
}

/// Node `i` is the one that `a` snaps to: the nearest within the tolerance,
/// the first of them where several are equally near.
pub open spec fn is_snap(g: RoadModel, a: Point, i: int) -> bool {
    &&& near(g, a, i)
    &&& forall|j: int| #[trigger]
        near(g, a, j) ==> (dist2(g.nodes[i], a) < dist2(g.nodes[j], a) || (dist2(g.nodes[i], a)
            == dist2(g.nodes[j], a) && i <= j))
}

/// The node that `a` snaps to, if any lies within the tolerance.
pub open spec fn snapped(g: RoadModel, a: Point) -> Option<int> {
    if exists|i: int| is_snap(g, a, i) {
        Some(choose|i: int| is_snap(g, a, i))
    } else {
        None
    }
}

/// How far a walker gets along the streets in `remaining` microseconds, in
/// millimetres, but no further than the largest walk that is considered.
pub open spec fn walk_reach(g: RoadModel, remaining: int) -> int {
    let reach = (remaining * g.constants.walking_speed) / 1_000_000;
    if reach < g.constants.max_walk_radius {
        reach
    } else {
        g.constants.max_walk_radius as int
    }
}

/// Time to walk straight from `a` to `b`, off the streets, in microseconds.
pub open spec fn straight_time(g: RoadModel, a: Point, b: Point) -> nat {
    travel_micros(distance(a, b), g.constants.straight_walking_speed as nat)
}

/// Time to walk from `a` to `b` by way of the streets between the nodes `na`
/// and `nb`, `d` microseconds apart: straight to `na`, along the streets,
/// straight on to `b`.
pub open spec fn street_time(g: RoadModel, a: Point, na: int, d: nat, nb: int, b: Point) -> nat {
    straight_time(g, a, g.nodes[na]) + d + straight_time(g, g.nodes[nb], b)
}

/// Time to walk from `a` to `b`, in microseconds.
///
/// Where both points snap to nodes that the streets connect, this is the
/// time by way of the streets, but never more than the time of the straight
/// walk; everywhere else it is the time of the straight walk.
pub open spec fn walk_time(g: RoadModel, a: Point, b: Point) -> nat {
    let direct = straight_time(g, a, b);
    match (snapped(g, a), snapped(g, b)) {
        (Some(na), Some(nb)) => match graph_time(g, na, nb) {
            Some(d) => {
                let by_street = street_time(g, a, na, d, nb, b);
                if by_street < direct {
                    by_street
                } else {
                    direct
                }
            },
            None => direct,
        },
        _ => direct,
    }
}

/// The squared distance does not depend on the direction.
pub proof fn lemma_dist2_symmetric(a: Point, b: Point)
    ensures
        dist2(a, b) == dist2(b, a),
{
    assert((a.x - b.x) * (a.x - b.x) == (b.x - a.x) * (b.x - a.x)) by (nonlinear_arith);
    assert((a.y - b.y) * (a.y - b.y) == (b.y - a.y) * (b.y - a.y)) by (nonlinear_arith);
}

/// A street costs the same in both directions.
pub proof fn lemma_step_cost_symmetric(g: RoadModel, u: int, v: int)
    ensures
        step_cost(g, u, v) == step_cost(g, v, u),
{
    lemma_dist2_symmetric(g.nodes[u], g.nodes[v]);
}

/// A walk that ends at `u` goes on over a street to `v`.
pub proof fn lemma_extend_walk(g: RoadModel, s: int, u: int, d: nat, v: int)
    requires
        reaches(g, s, u, d),
        adjacent(g, u, v),
        0 <= v < g.nodes.len(),
    ensures
        reaches(g, s, v, d + step_cost(g, u, v)),
{
    let p = choose|p: Seq<int>| #[trigger] connects(g, p, s, u) && walk_cost(g, p) == d;
    let q = p.push(v);
    assert(q.drop_last() =~= p);
    assert forall|i: int| 0 <= i < q.len() - 1 implies adjacent(g, #[trigger] q[i], q[i + 1]) by {
        if i < p.len() - 1 {
            assert(q[i] == p[i] && q[i + 1] == p[i + 1]);
        }
    }
    assert(connects(g, q, s, v));
}

/// No walk along the streets is quicker than the straight line between its
/// ends, walked at the speed of the streets.
pub proof fn lemma_walk_at_least_straight(g: RoadModel, p: Seq<int>)
    requires
        g.constants.walking_speed > 0,
        is_walk(g, p),
    ensures
        walk_cost(g, p) >= travel_micros(
            distance(g.nodes[p.first()], g.nodes[p.last()]),
            g.constants.walking_speed as nat,
        ),
    decreases p.len(),
{
    let speed = g.constants.walking_speed as nat;
    let a = g.nodes[p.first()];
    if p.len() == 1 {
        assert(dist2(a, a) == 0) by (nonlinear_arith)
            requires
                dist2(a, a) == (a.x - a.x) * (a.x - a.x) + (a.y - a.y) * (a.y - a.y),
        ;
        assert(distance(a, a) == 0);
        lemma_travel_micros_least(0, speed, 0);
    } else {
        let q = p.drop_last();
        let u = g.nodes[p[p.len() - 2]];
        let v = g.nodes[p.last()];
        assert(q.last() == p[p.len() - 2]);
        assert(q.first() == p.first());
        assert forall|i: int| 0 <= i < q.len() - 1 implies adjacent(g, #[trigger] q[i], q[i + 1]) by {
            assert(q[i] == p[i] && q[i + 1] == p[i + 1]);
        }
        lemma_walk_at_least_straight(g, q);
        lemma_travel_micros_sum(distance(a, u), distance(u, v), speed);
        lemma_triangle(a, u, v);
        lemma_travel_micros_monotone(distance(a, v), distance(a, u) + distance(u, v), speed);
    }
}

/// The walk from `a` to `b` takes no less time than the straight line
/// between them takes at the speed of the streets.
pub proof fn lemma_walk_time_at_least(g: RoadModel, a: Point, b: Point)
    requires
        g.constants.valid(),
    ensures
        walk_time(g, a, b) >= travel_micros(distance(a, b), g.constants.walking_speed as nat),
{
    let fast = g.constants.walking_speed as nat;
    let slow = g.constants.straight_walking_speed as nat;
    lemma_travel_micros_slower(distance(a, b), fast, slow);
    match (snapped(g, a), snapped(g, b)) {
        (Some(na), Some(nb)) => {
            match graph_time(g, na, nb) {
                Some(d) => {
                    assert(is_snap(g, a, na) && is_snap(g, b, nb));
                    assert(is_graph_time(g, na, nb, d));
                    let p = choose|p: Seq<int>| #[trigger]
                        connects(g, p, na, nb) && walk_cost(g, p) == d;
                    lemma_walk_at_least_straight(g, p);
                    let pa = g.nodes[na];
                    let pb = g.nodes[nb];
                    lemma_travel_micros_slower(distance(a, pa), fast, slow);
                    lemma_travel_micros_slower(distance(pb, b), fast, slow);
                    lemma_travel_micros_sum(distance(a, pa), distance(pa, pb), fast);
                    lemma_travel_micros_sum(distance(a, pa) + distance(pa, pb), distance(pb, b), fast);
                    lemma_triangle(a, pa, pb);
                    lemma_triangle(a, pb, b);
                    lemma_travel_micros_monotone(
                        distance(a, b),
                        distance(a, pa) + distance(pa, pb) + distance(pb, b),
                        fast,
                    );
                },
                None => {},
            }
        },
        _ => {},
    }
}

/// At most one time is the quickest.
pub proof fn lemma_graph_time_unique(g: RoadModel, u: int, v: int, d: nat)
    requires
        is_graph_time(g, u, v, d),
    ensures
        graph_time(g, u, v) == Some(d),
{
    let c = choose|c: nat| is_graph_time(g, u, v, c);
    let p = choose|p: Seq<int>| #[trigger] connects(g, p, u, v) && walk_cost(g, p) == d;
    let q = choose|q: Seq<int>| #[trigger] connects(g, q, u, v) && walk_cost(g, q) == c;
    assert(walk_cost(g, p) >= c);
    assert(walk_cost(g, q) >= d);
}

/// At most one node is the one that a point snaps to.
pub proof fn lemma_snap_unique(g: RoadModel, a: Point, i: int)
    requires
        is_snap(g, a, i),
    ensures
        snapped(g, a) == Some(i),
{
    let c = choose|c: int| is_snap(g, a, c);
    assert(near(g, a, c));
    assert(near(g, a, i));
}

/// The sum of the costs, each counted as at most one more than `cap`.
pub open spec fn capped_total(costs: Seq<u64>, cap: u64) -> int
    decreases costs.len(),
{
    if costs.len() == 0 {
        0
    } else {
        capped_total(costs.drop_last(), cap) + if costs.last() <= cap {
            costs.last() as int
        } else {
            cap + 1
        }
    }
}

/// A cost that improves lowers the capped total.
proof fn lemma_capped_total_update(costs: Seq<u64>, cap: u64, i: int, c: u64)
    requires
        0 <= i < costs.len(),
        c <= cap,
        c < costs[i],
    ensures
        0 <= capped_total(costs.update(i, c), cap) < capped_total(costs, cap),
    decreases costs.len(),
{
    let after = costs.update(i, c);
    if i == costs.len() - 1 {
        assert(after.drop_last() =~= costs.drop_last());
        lemma_capped_total_nonneg(costs.drop_last(), cap);
    } else {
        assert(after.drop_last() =~= costs.drop_last().update(i, c));
        lemma_capped_total_update(costs.drop_last(), cap, i, c);
    }
}

/// The capped total is never negative.
proof fn lemma_capped_total_nonneg(costs: Seq<u64>, cap: u64)
    ensures
        0 <= capped_total(costs, cap),
    decreases costs.len(),
{
    if costs.len() > 0 {
        lemma_capped_total_nonneg(costs.drop_last(), cap);
    }
}

/// A street between two nodes, with the time it takes to walk it.
#[derive(Clone, Copy, Debug)]
pub struct Edge {
    pub a: usize,
    pub b: usize,
    pub cost: u64,
}

/// Along edge `e`, in both directions, no end can be reached sooner within
/// `cap` by way of the other end.
pub open spec fn settled_edge(edges: Seq<Edge>, costs: Seq<u64>, cap: u64, e: int) -> bool {
    let u = edges[e].a as int;
    let v = edges[e].b as int;
    let c = edges[e].cost;
    &&& costs[u] != NO_PATH && costs[u] + c <= cap ==> costs[v] <= costs[u] + c
    &&& costs[v] != NO_PATH && costs[v] + c <= cap ==> costs[u] <= costs[v] + c
}

/// Every cost that was found is within `cap` and is the time of some walk from `src`.
pub open spec fn costs_sound(g: RoadModel, src: int, cap: u64, costs: Seq<u64>) -> bool {
    &&& costs.len() == g.nodes.len()
    &&& 0 <= src < g.nodes.len()
    &&& costs[src] == 0
    &&& forall|v: int|
        0 <= v < costs.len() && #[trigger] costs[v] != NO_PATH ==> costs[v] <= cap && reaches(
            g,
            src,
            v,
            costs[v] as nat,
        )
}

/// The edges are the streets of `g`, with their walking times.
pub open spec fn edges_match(g: RoadModel, edges: Seq<Edge>) -> bool {
    &&& edges.len() == g.links.len()
    &&& forall|e: int|
        0 <= e < edges.len() ==> {
            &&& (#[trigger] edges[e]).a < g.nodes.len()
            &&& edges[e].b < g.nodes.len()
            &&& g.links[e] == (edges[e].a as int, edges[e].b as int)
            &&& edges[e].cost == step_cost(g, edges[e].a as int, edges[e].b as int)
        }
}

/// Where no edge offers a quicker way within `cap`, no walk within `cap`
/// beats the costs found.
proof fn lemma_settled_lower_bound(
    g: RoadModel,
    edges: Seq<Edge>,
    costs: Seq<u64>,
    cap: u64,
    src: int,
    p: Seq<int>,
)
    requires
        cap < NO_PATH,
        costs.len() == g.nodes.len(),
        0 <= src < g.nodes.len(),
        costs[src] == 0,
        edges_match(g, edges),
        forall|e: int| 0 <= e < edges.len() ==> settled_edge(edges, costs, cap, e),
        is_walk(g, p),
        p.first() == src,
        walk_cost(g, p) <= cap,
    ensures
        costs[p.last()] <= walk_cost(g, p),
    decreases p.len(),
{
    if p.len() >= 2 {
        let q = p.drop_last();
        let u = p[p.len() - 2];
        let v = p[p.len() - 1];
        assert(q.last() == u);
        assert forall|i: int| 0 <= i < q.len() - 1 implies adjacent(g, #[trigger] q[i], q[i + 1]) by {
            assert(q[i] == p[i] && q[i + 1] == p[i + 1]);
        }
        lemma_settled_lower_bound(g, edges, costs, cap, src, q);
        assert(adjacent(g, p[p.len() - 2], p[p.len() - 2 + 1]));
        let e = choose|e: int|
            0 <= e < g.links.len() && (#[trigger] g.links[e] == (u, v) || g.links[e] == (v, u));
        assert(settled_edge(edges, costs, cap, e));
        assert(edges[e].a < g.nodes.len());
        lemma_step_cost_symmetric(g, u, v);
    }
}

/// The end of `edge` that is left when the edge is walked forward, or not.
pub open spec fn near_end(edge: Edge, forward: bool) -> int {
    if forward {
        edge.a as int
    } else {
        edge.b as int
    }
}

/// The end of `edge` that is reached when the edge is walked forward, or not.
pub open spec fn far_end(edge: Edge, forward: bool) -> int {
    if forward {
        edge.b as int
    } else {
        edge.a as int
    }
}

/// Walking `edge` in the given direction reaches its far end no sooner
/// within `cap` than the costs say.
pub open spec fn one_way_settled(edge: Edge, forward: bool, costs: Seq<u64>, cap: u64) -> bool {
    costs[near_end(edge, forward)] != NO_PATH && costs[near_end(edge, forward)] + edge.cost <= cap
        ==> costs[far_end(edge, forward)] <= costs[near_end(edge, forward)] + edge.cost
}

/// What the search for quickest walks still has to do: it falls with every
/// cost that improves, and once more when a pass improves nothing.
pub open spec fn work_left(costs: Seq<u64>, cap: u64, changed: bool) -> int {
    capped_total(costs, cap) + if changed {
        1int
    } else {
        0int
    }
}

/// Largest time that the straight walk between two points in range can
/// take, in microseconds: the longest distance at one millimetre per second.
pub const MAX_WALK_TIME: u64 = 2_828_427_125_000_000;

/// The time up to which a walk field knows the quickest walks: its budget,
/// but no more than a straight walk can ever take.
pub open spec fn field_cap(budget: u64) -> u64 {
    if budget < MAX_WALK_TIME {
        budget
    } else {
        MAX_WALK_TIME
    }
}

/// The quickest walks along the streets from the node that a point snaps
/// to, kept for asking the walking time from that point to many others.
pub struct WalkField {
    from: Point,
    budget: u64,
    node: Option<usize>,
    leg: u64,
    costs: Vec<u64>,
}

impl WalkField {
    /// The point from which the walks start.
    pub closed spec fn origin(&self) -> Point {
        self.from
    }

    /// The time beyond which walks are of no interest, in microseconds.
    pub closed spec fn budget(&self) -> u64 {
        self.budget
    }

    /// The field holds the quickest walks of `g` from the node that its
    /// origin snaps to.
    pub closed spec fn wf(&self, g: RoadModel) -> bool {
        &&& self.from.in_range()
        &&& snapped(g, self.from) == match self.node {
            Some(n) => Some(n as int),
            None => None::<int>,
        }
        &&& match self.node {
            Some(n) => {
                &&& n < g.nodes.len()
                &&& self.leg <= MAX_WALK_TIME
                &&& self.leg == straight_time(g, self.from, g.nodes[n as int])
                &&& costs_sound(g, n as int, field_cap(self.budget), self.costs@)
                &&& forall|p: Seq<int>, v: int| #[trigger]
                    connects(g, p, n as int, v) && walk_cost(g, p) <= field_cap(self.budget)
                        ==> self.costs@[v] <= walk_cost(g, p)
            },
            None => true,
        }
    }
}

/// The walkable network: nodes, of which the first are the transit stops of
/// a timetable in the timetable's order, and streets between nodes.
pub struct RoadStructure {
    constants: Constants,
    stop_count: usize,
    index: PointIndex,
    edges: Vec<Edge>,
}

impl RoadStructure {
    /// The network as the proofs see it.
    pub closed spec fn model(&self) -> RoadModel {
        RoadModel {
            nodes: self.index@,
            links: Seq::new(
                self.edges@.len(),
                |e: int| (self.edges@[e].a as int, self.edges@[e].b as int),
            ),
            stop_count: self.stop_count as nat,
            constants: self.constants,
        }
    }

    /// The nodes lie in range, the streets join existing nodes and carry
    /// their walking times, and the tuning values are valid.
    pub closed spec fn wf(&self) -> bool {
        &&& self.index.wf()
        &&& self.constants.valid()
        &&& self.stop_count <= self.index@.len() < usize::MAX
        &&& forall|i: int| 0 <= i < self.index@.len() ==> (#[trigger] self.index@[i]).in_range()
        &&& forall|e: int|
            0 <= e < self.edges@.len() ==> {
                &&& (#[trigger] self.edges@[e]).a < self.index@.len()
                &&& self.edges@[e].b < self.index@.len()
                &&& self.edges@[e].cost == step_cost(
                    self.model(),
                    self.edges@[e].a as int,
                    self.edges@[e].b as int,
                )
            }
    }

    /// What a well-formed network guarantees of its model.
    pub proof fn lemma_model(&self)
        requires
            self.wf(),
        ensures
            self.model().constants.valid(),
            self.model().stop_count <= self.model().nodes.len(),
            self.model().nodes.len() < usize::MAX,
            forall|i: int|
                0 <= i < self.model().nodes.len() ==> (#[trigger] self.model().nodes[i]).in_range(),
            forall|e: int|
                0 <= e < self.model().links.len() ==> 0 <= (#[trigger] self.model().links[e]).0
                    < self.model().nodes.len() && 0 <= self.model().links[e].1
                    < self.model().nodes.len(),
    {
        self.index.lemma_len();
    }

    /// Builds the network from the positions of its nodes, the number of
    /// leading nodes that are stops, and the pairs of nodes that streets join.
    ///
    /// `None` where a tuning value is invalid, a node lies out of range, there
    /// are more stops than nodes or as many nodes as a `usize` can count, or a
    /// street names a node that does not exist.
    pub fn new(
        constants: Constants,
        stop_count: usize,
        nodes: Vec<Point>,
        links: &Vec<(usize, usize)>,
    ) -> (built: Option<RoadStructure>)
        ensures
            built.is_some() <==> (constants.valid() && stop_count <= nodes@.len() < usize::MAX
                && (forall|
                i: int,
            |
                0 <= i < nodes@.len() ==> (#[trigger] nodes@[i]).in_range()) && (forall|e: int|
                0 <= e < links@.len() ==> (#[trigger] links@[e]).0 < nodes@.len() && links@[e].1
                    < nodes@.len())),
            built.is_some() ==> built.unwrap().wf() && built.unwrap().model() == (RoadModel {
                nodes: nodes@,
                links: Seq::new(links@.len(), |e: int| (links@[e].0 as int, links@[e].1 as int)),
                stop_count: stop_count as nat,
                constants,
            }),
    {
        if !constants.is_valid() || stop_count > nodes.len() || nodes.len() == usize::MAX {
            return None;
        }
        let mut i: usize = 0;
        while i < nodes.len()
            invariant
                i <= nodes@.len(),
                forall|k: int| 0 <= k < i ==> (#[trigger] nodes@[k]).in_range(),
            decreases nodes@.len() - i,
        {
            if !nodes[i].is_in_range() {
                return None;
            }
            i += 1;
        }
        let ghost model = RoadModel {
            nodes: nodes@,
            links: Seq::new(links@.len(), |e: int| (links@[e].0 as int, links@[e].1 as int)),
            stop_count: stop_count as nat,
            constants,
        };
        let mut edges: Vec<Edge> = Vec::new();
        let mut e: usize = 0;
        while e < links.len()
            invariant
                e <= links@.len(),
                edges@.len() == e,
                constants.valid(),
                model.nodes == nodes@,
                model.constants == constants,
                forall|k: int| 0 <= k < nodes@.len() ==> (#[trigger] nodes@[k]).in_range(),
                forall|k: int|
                    0 <= k < e ==> (#[trigger] links@[k]).0 < nodes@.len() && links@[k].1
                        < nodes@.len(),
                forall|k: int|
                    0 <= k < e ==> (#[trigger] edges@[k]).a == links@[k].0 && edges@[k].b
                        == links@[k].1 && edges@[k].cost == step_cost(
                        model,
                        links@[k].0 as int,
                        links@[k].1 as int,
                    ),
            decreases links@.len() - e,
        {
            let (a, b) = links[e];
            if a >= nodes.len() || b >= nodes.len() {
                return None;
            }
            let d = nodes[a].distance_to(&nodes[b]);
            let cost = travel_time(d, constants.walking_speed);
            edges.push(Edge { a, b, cost });
            e += 1;
        }
        let index = PointIndex::build(nodes);
        let built = RoadStructure { constants, stop_count, index, edges };
        assert(built.model().links =~= model.links);
        assert(built.model() == model);
        Some(built)
    }

    /// Positions of the nodes that lie within `radius` millimetres of
    /// `center`, each once, in no particular order.
    pub fn nodes_within(&self, center: Point, radius: u64) -> (found: Vec<usize>)
        requires
            self.wf(),
            center.in_range(),
        ensures
            found@.no_duplicates(),
            forall|k: int|
                0 <= k < found@.len() ==> (#[trigger] found@[k]) < self.model().nodes.len()
                    && dist2(self.model().nodes[found@[k] as int], center) <= radius * radius,
            forall|i: int|
                0 <= i < self.model().nodes.len() && dist2(
                    #[trigger] self.model().nodes[i],
                    center,
                ) <= radius * radius ==> found@.contains(i as usize),
    {
        self.index.within_radius(center, radius)
    }

    /// The node that `a` snaps to, or `None` where no node lies within the
    /// snapping tolerance of `a`.
#[verifier::rlimit(60)]
    pub fn snap(&self, a: Point) -> (node: Option<usize>)
        requires
            self.wf(),
            a.in_range(),
        ensures
            snapped(self.model(), a) == match node {
                Some(i) => Some(i as int),
                None => None::<int>,
            },
            node.is_some() ==> node.unwrap() < self.model().nodes.len(),
    {
        let ghost g = self.model();
        let found = self.nodes_within(a, self.constants.snap_tolerance as u64);
        let mut best: Option<usize> = None;
        let mut best_d2: i64 = 0;
        let mut k: usize = 0;
        proof {
            self.index.lemma_len();
        }
        while k < found.len()
            invariant
                self.wf(),
                a.in_range(),
                g == self.model(),
                k <= found@.len(),
                forall|j: int|
                    0 <= j < found@.len() ==> (#[trigger] found@[j]) < g.nodes.len() && near(
                        g,
                        a,
                        found@[j] as int,
                    ),
                best.is_none() ==> k == 0,
                best.is_some() ==> near(g, a, best.unwrap() as int) && best_d2 == dist2(
                    g.nodes[best.unwrap() as int],
                    a,
                ) && forall|j: int|
                    0 <= j < k ==> (best_d2 < dist2(g.nodes[(#[trigger] found@[j]) as int], a) || (
                    best_d2 == dist2(g.nodes[found@[j] as int], a) && best.unwrap() <= found@[j])),
            decreases found@.len() - k,
        {
            let c = found[k];
            let position = self.index.point(c);
            proof {
                self.index.lemma_len();
            }
            let d2 = position.squared_distance(&a);
            let better = match best {
                None => true,
                Some(b) => d2 < best_d2 || (d2 == best_d2 && c < b),
            };
            if better {
                best = Some(c);
                best_d2 = d2;
            }
            k += 1;
        }
        proof {
            match best {
                Some(b) => {
                    assert forall|j: int| #[trigger] near(g, a, j) implies (dist2(g.nodes[b as int], a)
                        < dist2(g.nodes[j], a) || (dist2(g.nodes[b as int], a) == dist2(
                        g.nodes[j],
                        a,
                    ) && b <= j)) by {
                        assert(found@.contains(j as usize));
                        let m = choose|m: int| 0 <= m < found@.len() && found@[m] == j as usize;
                        assert(found@[m] as int == j);
                    }
                    lemma_snap_unique(g, a, b as int);
                },
                None => {
                    assert forall|i: int| !is_snap(g, a, i) by {
                        if near(g, a, i) {
                            assert(found@.contains(i as usize));
                        }
                    }
                },
            }
        }
        best
    }

    /// Tries to reach the far end of edge `e` sooner by way of its near end;
    /// `forward` tells which end is which.
    fn relax(&self, costs: &mut Vec<u64>, src: usize, cap: u64, e: usize, forward: bool) -> (improved:
        bool)
        requires
            self.wf(),
            e < self.edges@.len(),
            cap < NO_PATH,
            costs_sound(self.model(), src as int, cap, old(costs)@),
        ensures
            costs_sound(self.model(), src as int, cap, final(costs)@),
            final(costs)@ == if improved {
                old(costs)@.update(
                    far_end(self.edges@[e as int], forward),
                    final(costs)@[far_end(self.edges@[e as int], forward)],
                )
            } else {
                old(costs)@
            },
            improved ==> final(costs)@[far_end(self.edges@[e as int], forward)] <= cap,
            improved ==> final(costs)@[far_end(self.edges@[e as int], forward)] < old(
                costs,
            )@[far_end(self.edges@[e as int], forward)],
            !improved ==> one_way_settled(self.edges@[e as int], forward, old(costs)@, cap),
    {
        let ghost g = self.model();
        let edge = self.edges[e];
        let from = if forward {
            edge.a
        } else {
            edge.b
        };
        let to = if forward {
            edge.b
        } else {
            edge.a
        };
        proof {
            self.index.lemma_len();
            assert(g.links[e as int] == (edge.a as int, edge.b as int));
            assert(adjacent(g, from as int, to as int));
            lemma_step_cost_symmetric(g, edge.a as int, edge.b as int);
        }
        let known = costs[from];
        if known == NO_PATH || edge.cost > cap - known {
            return false;
        }
        let candidate: u64 = known + edge.cost;
        if candidate < costs[to] {
            proof {
                lemma_extend_walk(g, src as int, from as int, known as nat, to as int);
            }
            let ghost before = costs@;
            costs.set(to, candidate);
            assert(costs@ == before.update(to as int, candidate));
            true
        } else {
            false
        }
    }

    /// For every node the time of a quickest walk along the streets from node
    /// `src`, where that time is at most `cap`, and `NO_PATH` everywhere else.
#[verifier::rlimit(60)]
    pub fn bounded_costs(&self, src: usize, cap: u64) -> (costs: Vec<u64>)
        requires
            self.wf(),
            src < self.model().nodes.len(),
            cap < NO_PATH,
        ensures
            costs_sound(self.model(), src as int, cap, costs@),
            forall|p: Seq<int>, v: int| #[trigger]
                connects(self.model(), p, src as int, v) && walk_cost(self.model(), p) <= cap
                    ==> costs@[v] <= walk_cost(self.model(), p),
    {
        let ghost g = self.model();
        let n = self.index.len();
        let mut costs: Vec<u64> = Vec::new();
        let mut i: usize = 0;
        while i < n
            invariant
                i <= n,
                costs@.len() == i,
                forall|k: int| 0 <= k < i ==> #[trigger] costs@[k] == NO_PATH,
            decreases n - i,
        {
            costs.push(NO_PATH);
            i += 1;
        }
        costs.set(src, 0);
        proof {
            let p = seq![src as int];
            assert(connects(g, p, src as int, src as int));
            assert(walk_cost(g, p) == 0);
            assert(reaches(g, src as int, src as int, 0));
        }
        let mut changed = true;
        while changed
            invariant
                self.wf(),
                g == self.model(),
                cap < NO_PATH,
                costs_sound(g, src as int, cap, costs@),
                !changed ==> forall|e: int|
                    0 <= e < self.edges@.len() ==> settled_edge(self.edges@, costs@, cap, e),
            decreases work_left(costs@, cap, changed),
        {
            changed = false;
            let ghost start = costs@;
            proof {
                lemma_capped_total_nonneg(costs@, cap);
            }
            let mut e: usize = 0;
            while e < self.edges.len()
                invariant
                    self.wf(),
                    g == self.model(),
                    cap < NO_PATH,
                    e <= self.edges@.len(),
                    costs_sound(g, src as int, cap, costs@),
                    capped_total(costs@, cap) <= capped_total(start, cap),
                    changed ==> capped_total(costs@, cap) < capped_total(start, cap),
                    !changed ==> costs@ == start && forall|k: int|
                        0 <= k < e ==> settled_edge(self.edges@, costs@, cap, k),
                decreases self.edges@.len() - e,
            {
                let ghost before = costs@;
                let forward = self.relax(&mut costs, src, cap, e, true);
                let ghost between = costs@;
                proof {
                    if forward {
                        let to = self.edges@[e as int].b as int;
                        lemma_capped_total_update(before, cap, to, between[to]);
                    }
                }
                let backward = self.relax(&mut costs, src, cap, e, false);
                proof {
                    if backward {
                        let to = self.edges@[e as int].a as int;
                        lemma_capped_total_update(between, cap, to, costs@[to]);
                    }
                }
                if forward || backward {
                    changed = true;
                }
                e += 1;
            }
            proof {
                lemma_capped_total_nonneg(costs@, cap);
            }
        }
        proof {
            assert(edges_match(g, self.edges@));
            assert forall|p: Seq<int>, v: int| #[trigger]
                connects(g, p, src as int, v) && walk_cost(g, p) <= cap implies costs@[v]
                <= walk_cost(g, p) by {
                lemma_settled_lower_bound(g, self.edges@, costs@, cap, src as int, p);
            }
        }
        costs
    }

    /// Time to walk from `a` to `b`, in microseconds.
    pub fn walk_time(&self, a: Point, b: Point) -> (t: u64)
        requires
            self.wf(),
            a.in_range(),
            b.in_range(),
        ensures
            t == walk_time(self.model(), a, b),
    {
        let ghost g = self.model();
        proof {
            self.index.lemma_len();
        }
        let direct = travel_time(a.distance_to(&b), self.constants.straight_walking_speed);
        let na = match self.snap(a) {
            Some(n) => n,
            None => {
                return direct;
            },
        };
        let nb = match self.snap(b) {
            Some(n) => n,
            None => {
                return direct;
            },
        };
        let leg_a = travel_time(
            a.distance_to(&self.index.point(na)),
            self.constants.straight_walking_speed,
        );
        let leg_b = travel_time(
            self.index.point(nb).distance_to(&b),
            self.constants.straight_walking_speed,
        );
        let legs: u64 = leg_a + leg_b;
        if legs >= direct {
            return direct;
        }
        let cap: u64 = direct - legs - 1;
        let costs = self.bounded_costs(na, cap);
        let d = costs[nb];
        proof {
            if d != NO_PATH {
                assert(reaches(g, na as int, nb as int, d as nat));
                assert(is_graph_time(g, na as int, nb as int, d as nat));
                lemma_graph_time_unique(g, na as int, nb as int, d as nat);
            } else {
                match graph_time(g, na as int, nb as int) {
                    Some(least) => {
                        assert(is_graph_time(g, na as int, nb as int, least));
                        let p = choose|p: Seq<int>| #[trigger]
                            connects(g, p, na as int, nb as int) && walk_cost(g, p) == least;
                        assert(connects(g, p, na as int, nb as int));
                    },
                    None => {},
                }
            }
        }
        if d != NO_PATH {
            legs + d
        } else {
            direct
        }
    }

    /// Prepares the walks from `a` that take at most `budget` microseconds.
    pub fn walk_field(&self, a: Point, budget: u64) -> (field: WalkField)
        requires
            self.wf(),
            a.in_range(),
        ensures
            field.wf(self.model()),
            field.origin() == a,
            field.budget() == budget,
    {
        proof {
            self.index.lemma_len();
        }
        match self.snap(a) {
            Some(n) => {
                let leg = travel_time(
                    a.distance_to(&self.index.point(n)),
                    self.constants.straight_walking_speed,
                );
                let cap = if budget < MAX_WALK_TIME {
                    budget
                } else {
                    MAX_WALK_TIME
                };
                let costs = self.bounded_costs(n, cap);
                WalkField { from: a, budget, node: Some(n), leg, costs }
            },
            None => WalkField { from: a, budget, node: None, leg: 0, costs: Vec::new() },
        }
    }

    /// Time to walk from the origin of `field` to `b`, in microseconds, where
    /// it is within the budget of the field, and `None` where it is not.
    #[verifier::rlimit(80)]
    pub fn walk_time_within(&self, field: &WalkField, b: Point) -> (t: Option<u64>)
        requires
            self.wf(),
            field.wf(self.model()),
            b.in_range(),
        ensures
            t == if walk_time(self.model(), field.origin(), b) <= field.budget() {
                Some(walk_time(self.model(), field.origin(), b) as u64)
            } else {
                None
            },
    {
        let ghost g = self.model();
        let a = field.from;
        proof {
            self.index.lemma_len();
        }
        let direct = travel_time(a.distance_to(&b), self.constants.straight_walking_speed);
        let mut best = direct;
        match field.node {
            Some(na) => {
                match self.snap(b) {
                    Some(nb) => {
                        let d = field.costs[nb];
                        let leg_b = travel_time(
                            self.index.point(nb).distance_to(&b),
                            self.constants.straight_walking_speed,
                        );
                        proof {
                            let cap = field_cap(field.budget);
                            assert(snapped(g, a) == Some(na as int));
                            assert(snapped(g, b) == Some(nb as int));
                            if d != NO_PATH {
                                assert(reaches(g, na as int, nb as int, d as nat));
                                assert forall|p: Seq<int>| #[trigger]
                                    connects(g, p, na as int, nb as int) implies walk_cost(g, p)
                                    >= d by {
                                    if walk_cost(g, p) <= cap {
                                        assert(field.costs@[nb as int] <= walk_cost(g, p));
                                    }
                                }
                                assert(is_graph_time(g, na as int, nb as int, d as nat));
                                lemma_graph_time_unique(g, na as int, nb as int, d as nat);
                            } else {
                                match graph_time(g, na as int, nb as int) {
                                    Some(least) => {
                                        assert(is_graph_time(g, na as int, nb as int, least));
                                        let p = choose|p: Seq<int>| #[trigger]
                                            connects(g, p, na as int, nb as int) && walk_cost(g, p)
                                                == least;
                                        assert(connects(g, p, na as int, nb as int));
                                        assert(least > cap);
                                    },
                                    None => {},
                                }
                            }
                        }
                        if d != NO_PATH {
                            let by_street: u64 = field.leg + d + leg_b;
                            if by_street < direct {
                                best = by_street;
                            }
                        }
                    },
                    None => {},
                }
            },
            None => {},
        }
        if best <= field.budget {
            Some(best)
        } else {
            None
        }
    }

    /// How far a walker gets in `remaining` microseconds, in millimetres.
    pub fn reach(&self, remaining: u64) -> (radius: u64)
        ensures
            radius == walk_reach(self.model(), remaining as int),
    {
        let c = self.constants;
        assert(remaining * c.walking_speed <= u64::MAX * u32::MAX) by (nonlinear_arith)
            requires
                0 <= remaining <= u64::MAX,
                0 <= c.walking_speed <= u32::MAX,
        ;
        let reach: u128 = (remaining as u128) * (c.walking_speed as u128) / 1_000_000u128;
        if reach < c.max_walk_radius as u128 {
            reach as u64
        } else {
            c.max_walk_radius as u64
        }
    }

    /// The tuning values that the network was built with.
    pub fn constants(&self) -> (c: Constants)
        ensures
            c == self.model().constants,
    {
        self.constants
    }

    /// Number of nodes.
    pub fn node_count(&self) -> (n: usize)
        ensures
            n == self.model().nodes.len(),
    {
        self.index.len()
    }

    /// Number of leading nodes that are transit stops.
    pub fn stop_count(&self) -> (n: usize)
        ensures
            n == self.model().stop_count,
    {
        self.stop_count
    }

    /// Where node `i` lies.
    pub fn position(&self, i: usize) -> (p: Point)
        requires
            i < self.model().nodes.len(),
        ensures
            p == self.model().nodes[i as int],
    {
        self.index.point(i)
    }
}

} // verus!
