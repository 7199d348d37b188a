use crate::geometry::{dist2, Point};
use crate::road_structure::{walk_reach, walk_time, RoadModel, RoadStructure};
use crate::spatial::PointIndex;
use crate::time::Time;
use crate::time_to_reach::Label;
use vstd::prelude::*;

verus! {

/// What a search has found, as the proofs see it: the settled labels in the
/// order in which they were settled, where each lies, and the budget.
pub struct ReachView {
    pub labels: Seq<Label>,
    pub points: Seq<Point>,
    pub start: int,
    pub duration: int,
}

impl ReachView {
    /// Microseconds from the start of the search to label `i`.
    pub open spec fn since(self, i: int) -> int {
        self.labels[i].arrival.0 - self.start
    }

    /// The squared distance of label `i` from `p` is at most `max_d2`.
    pub open spec fn near(self, max_d2: int, p: Point, i: int) -> bool {
        0 <= i < self.labels.len() && dist2(self.points[i], p) <= max_d2
    }

    /// Label `i` lies within `radius` millimetres of `p`.
    pub open spec fn within(self, radius: int, p: Point, i: int) -> bool {
        self.near(radius * radius, p, i)
    }

    /// `l` is a settled label that lies within `radius` millimetres of `p`.
    pub open spec fn holds_near(self, radius: int, p: Point, l: Label) -> bool {
        exists|i: int| #[trigger] self.within(radius, p, i) && self.labels[i] == l
    }

    /// Label `i` comes before label `j`, or is label `j`, where labels are
    /// taken by distance from `p`, then by time, then in the order of settling.
    pub open spec fn precedes(self, p: Point, i: int, j: int) -> bool {
        dist2(self.points[i], p) < dist2(self.points[j], p) || (dist2(self.points[i], p) == dist2(
            self.points[j],
            p,
        ) && (self.labels[i].arrival.0 < self.labels[j].arrival.0 || (self.labels[i].arrival.0
            == self.labels[j].arrival.0 && i <= j)))
    }

    /// Of the labels whose squared distance from `p` is at most `max_d2`,
    /// label `i` is the closest, among equally close ones the earliest, and
    /// among equally early ones the first that was settled.
    pub open spec fn best_hit(self, max_d2: int, p: Point, i: int) -> bool {
        &&& self.near(max_d2, p, i)
        &&& forall|j: int| #[trigger] self.near(max_d2, p, j) ==> self.precedes(p, i, j)
    }

    /// Of all labels, label `i` is the closest to `p`, among equally close
    /// ones the earliest, and among equally early ones the first that was settled.
    pub open spec fn closest_of_all(self, p: Point, i: int) -> bool {
        &&& 0 <= i < self.labels.len()
        &&& forall|j: int| 0 <= j < self.labels.len() ==> #[trigger] self.precedes(p, i, j)
    }

    /// Microseconds from the start of the search until `p` is reached by
    /// walking on from label `i`, where the label lies within `radius` and
    /// the time can be represented.
    pub open spec fn walk_from(self, g: RoadModel, radius: int, p: Point, i: int) -> Option<int> {
        if self.within(radius, p, i) && self.since(i) + walk_time(g, self.points[i], p)
            <= u64::MAX {
            Some(self.since(i) + walk_time(g, self.points[i], p))
        } else {
            None
        }
    }

    /// How far from a settled label a point may lie and still be reached by
    /// walking on: what the whole budget allows at walking speed, capped.
    pub open spec fn extension(self, g: RoadModel) -> int {
        walk_reach(g, self.duration)
    }

    /// `t` is the time, in microseconds from the start, at which `p` is reached.
    ///
    /// Where settled labels lie within the snapping tolerance of `p`, it is
    /// the time of the closest of them. Otherwise it is the least time of
    /// walking on from a settled label within the walking extension. Where
    /// there is neither, `p` is unreachable.
    pub open spec fn is_arrival(self, g: RoadModel, p: Point, t: Option<u64>) -> bool {
        let tol = g.constants.snap_tolerance as int;
        let tol2 = tol * tol;
        let ext = self.extension(g);
        if exists|i: int| self.near(tol2, p, i) {
            exists|i: int| #[trigger] self.best_hit(tol2, p, i) && t == Some(self.since(i) as u64)
        } else if exists|i: int| (#[trigger] self.walk_from(g, ext, p, i)).is_some() {
            &&& t.is_some()
            &&& exists|i: int| #[trigger] self.walk_from(g, ext, p, i) == Some(t.unwrap() as int)
            &&& forall|j: int|
                (#[trigger] self.walk_from(g, ext, p, j)).is_some() ==> t.unwrap() <= self.walk_from(
                    g,
                    ext,
                    p,
                    j,
                ).unwrap()
        } else {
            t.is_none()
        }
    }
}

/// The result of a search: the settled labels, indexed by where they lie.
pub struct TimeToReachRTree {
    labels: Vec<Label>,
    index: PointIndex,
    start: Time,
    duration: u64,
}

impl View for TimeToReachRTree {
    type V = ReachView;

    closed spec fn view(&self) -> ReachView {
        ReachView {
            labels: self.labels@,
            points: self.index@,
            start: self.start.0 as int,
            duration: self.duration as int,
        }
    }
}

impl TimeToReachRTree {
    /// Every label has its point, in range, and lies within the budget.
    pub closed spec fn wf(&self) -> bool {
        &&& self.index.wf()
        &&& self.index@.len() == self.labels@.len()
        &&& forall|i: int|
            0 <= i < self.labels@.len() ==> self.start.0 <= (#[trigger] self.labels@[i]).arrival.0
                <= self.start.0 + self.duration
    }

    /// Indexes the settled labels of a search by the points at which they lie.
    pub fn new(labels: Vec<Label>, points: Vec<Point>, start: Time, duration: u64) -> (result:
        TimeToReachRTree)
        requires
            labels@.len() == points@.len(),
            forall|i: int| 0 <= i < points@.len() ==> (#[trigger] points@[i]).in_range(),
            forall|i: int|
                0 <= i < labels@.len() ==> start.0 <= (#[trigger] labels@[i]).arrival.0 <= start.0
                    + duration,
        ensures
            result.wf(),
            result@ == (ReachView {
                labels: labels@,
                points: points@,
                start: start.0 as int,
                duration: duration as int,
            }),
    {
        let index = PointIndex::build(points);
        TimeToReachRTree { labels, index, start, duration }
    }

    /// Number of settled labels.
    pub fn len(&self) -> (n: usize)
        ensures
            n == self@.labels.len(),
    {
        self.labels.len()
    }

    /// The `i`-th label in the order of settling.
    pub fn label(&self, i: usize) -> (l: Label)
        requires
            i < self@.labels.len(),
        ensures
            l == self@.labels[i as int],
    {
        self.labels[i]
    }

    /// The settled label that lies closest to `point`; among equally close
    /// ones the earliest, and among equally early ones the first that was
    /// settled. `None` where nothing is settled.
    pub fn query_nearest(&self, point: Point) -> (nearest: Option<Label>)
        requires
            self.wf(),
            point.in_range(),
        ensures
            match nearest {
                Some(l) => exists|i: int| #[trigger]
                    self@.closest_of_all(point, i) && self@.labels[i] == l,
                None => self@.labels.len() == 0,
            },
    {
        proof {
            self.index.lemma_len();
        }
        match self.index.nearest(point) {
            Some(b) => {
                let least = self.index.point(b).squared_distance(&point);
                let hits = self.index.within(point, least);
                assert(self@.near(least as int, point, b as int));
                assert(hits@.contains(b));
                let best = self.closest(point, &hits, Ghost(least as int));
                proof {
                    let v = self@;
                    assert forall|j: int| 0 <= j < v.labels.len() implies #[trigger] v.precedes(
                        point,
                        best as int,
                        j,
                    ) by {
                        if v.near(least as int, point, j) {
                        } else {
                            assert(dist2(v.points[b as int], point) <= dist2(v.points[j], point));
                        }
                    }
                    assert(v.closest_of_all(point, best as int));
                }
                Some(self.labels[best])
            },
            None => None,
        }
    }

    /// The settled labels that lie within `radius` millimetres of `point`, in
    /// no particular order.
    pub fn query_radius(&self, point: Point, radius: u64) -> (found: Vec<Label>)
        requires
            self.wf(),
            point.in_range(),
        ensures
            forall|k: int|
                0 <= k < found@.len() ==> self@.holds_near(radius as int, point, #[trigger] found@[k]),
            forall|i: int| #[trigger]
                self@.within(radius as int, point, i) ==> found@.contains(self@.labels[i]),
    {
        let hits = self.index.within_radius(point, radius);
        let mut found: Vec<Label> = Vec::new();
        let mut k: usize = 0;
        proof {
            self.index.lemma_len();
        }
        while k < hits.len()
            invariant
                self.wf(),
                k <= hits@.len(),
                found@.len() == k,
                forall|j: int|
                    0 <= j < hits@.len() ==> self@.within(
                        radius as int,
                        point,
                        (#[trigger] hits@[j]) as int,
                    ),
                forall|j: int| 0 <= j < k ==> #[trigger] found@[j] == self@.labels[hits@[j] as int],
            decreases hits@.len() - k,
        {
            found.push(self.labels[hits[k]]);
            k += 1;
        }
        proof {
            assert forall|i: int| #[trigger]
                self@.within(radius as int, point, i) implies found@.contains(self@.labels[i]) by {
                assert(hits@.contains(i as usize));
                let j = choose|j: int| 0 <= j < hits@.len() && hits@[j] == i as usize;
                assert(found@[j] == self@.labels[i]);
            }
            assert forall|k: int| 0 <= k < found@.len() implies self@.holds_near(
                radius as int,
                point,
                #[trigger] found@[k],
            ) by {
                assert(self@.within(radius as int, point, hits@[k] as int));
            }
        }
        found
    }

    /// The best of the labels at the positions `hits`, which are those whose
    /// squared distance from `point` is at most `max_d2`.
    fn closest(&self, point: Point, hits: &Vec<usize>, Ghost(max_d2): Ghost<int>) -> (best: usize)
        requires
            self.wf(),
            point.in_range(),
            hits@.len() > 0,
            forall|k: int|
                0 <= k < hits@.len() ==> self@.near(max_d2, point, (#[trigger] hits@[k]) as int),
            forall|i: int| #[trigger] self@.near(max_d2, point, i) ==> hits@.contains(i as usize),
        ensures
            self@.best_hit(max_d2, point, best as int),
    {
        proof {
            self.index.lemma_len();
        }
        let mut best: usize = hits[0];
        let mut best_d2: i64 = self.index.point(best).squared_distance(&point);
        let mut k: usize = 1;
        while k < hits.len()
            invariant
                self.wf(),
                point.in_range(),
                1 <= k <= hits@.len(),
                forall|j: int|
                    0 <= j < hits@.len() ==> self@.near(max_d2, point, (#[trigger] hits@[j]) as int),
                self@.near(max_d2, point, best as int),
                best_d2 == dist2(self@.points[best as int], point),
                forall|j: int|
                    0 <= j < k ==> self@.precedes(point, best as int, (#[trigger] hits@[j]) as int),
            decreases hits@.len() - k,
        {
            let c = hits[k];
            proof {
                self.index.lemma_len();
            }
            let d2 = self.index.point(c).squared_distance(&point);
            let earlier = self.labels[c].arrival.0 < self.labels[best].arrival.0 || (
            self.labels[c].arrival.0 == self.labels[best].arrival.0 && c < best);
            if d2 < best_d2 || (d2 == best_d2 && earlier) {
                best = c;
                best_d2 = d2;
            }
            k += 1;
        }
        proof {
            assert forall|j: int| #[trigger] self@.near(max_d2, point, j) implies self@.precedes(
                point,
                best as int,
                j,
            ) by {
                assert(hits@.contains(j as usize));
                let m = choose|m: int| 0 <= m < hits@.len() && hits@[m] == j as usize;
                assert(hits@[m] as int == j);
            }
        }
        best
    }

    /// The time at which `point` is reached, in microseconds from the start
    /// of the search, or `None` where it is not reached.
    #[verifier::rlimit(60)]
    pub fn arrival_time_at(&self, roads: &RoadStructure, point: Point) -> (t: Option<u64>)
        requires
            self.wf(),
            roads.wf(),
            point.in_range(),
        ensures
            self@.is_arrival(roads.model(), point, t),
    {
        let ghost g = roads.model();
        let ghost v = self@;
        let tolerance = roads.constants().snap_tolerance as u64;
        let ghost tol2: int = tolerance * tolerance;
        let hits = self.index.within_radius(point, tolerance);
        proof {
            self.index.lemma_len();
        }
        if hits.len() > 0 {
            let best = self.closest(point, &hits, Ghost(tol2));
            assert(v.near(tol2, point, best as int));
            return Some(self.labels[best].arrival.0 - self.start.0);
        }
        assert forall|i: int| !v.near(tol2, point, i) by {
            if v.near(tol2, point, i) {
                assert(hits@.contains(i as usize));
            }
        }
        let extension = roads.reach(self.duration);
        let found = self.index.within_radius(point, extension);
        let mut best: Option<u64> = None;
        let mut k: usize = 0;
        while k < found.len()
            invariant
                self.wf(),
                roads.wf(),
                point.in_range(),
                g == roads.model(),
                v == self@,
                extension == v.extension(g),
                k <= found@.len(),
                forall|j: int|
                    0 <= j < found@.len() ==> v.within(
                        extension as int,
                        point,
                        (#[trigger] found@[j]) as int,
                    ),
                best.is_none() ==> forall|j: int|
                    0 <= j < k ==> v.walk_from(g, extension as int, point, (#[trigger] found@[j]) as int).is_none(),
                best.is_some() ==> exists|i: int| #[trigger]
                    v.walk_from(g, extension as int, point, i) == Some(best.unwrap() as int),
                best.is_some() ==> forall|j: int|
                    0 <= j < k && v.walk_from(g, extension as int, point, (#[trigger] found@[j]) as int).is_some()
                        ==> best.unwrap() <= v.walk_from(
                        g,
                        extension as int,
                        point,
                        found@[j] as int,
                    ).unwrap(),
            decreases found@.len() - k,
        {
            let c = found[k];
            proof {
                self.index.lemma_len();
            }
            let walk = roads.walk_time(self.index.point(c), point);
            let since: u64 = self.labels[c].arrival.0 - self.start.0;
            match since.checked_add(walk) {
                Some(total) => {
                    assert(v.walk_from(g, extension as int, point, c as int) == Some(total as int));
                    let better = match best {
                        None => true,
                        Some(b) => total < b,
                    };
                    if better {
                        best = Some(total);
                    }
                },
                None => {
                    assert(v.walk_from(g, extension as int, point, c as int).is_none());
                },
            }
            k += 1;
        }
        proof {
            let ext = extension as int;
            assert forall|i: int| (#[trigger] v.walk_from(g, ext, point, i)).is_some() implies best.is_some()
                && best.unwrap() <= v.walk_from(g, ext, point, i).unwrap() by {
                assert(v.within(ext, point, i));
                assert(found@.contains(i as usize));
                let m = choose|m: int| 0 <= m < found@.len() && found@[m] == i as usize;
                assert(found@[m] as int == i);
            }
        }
        best
    }
}

} // verus!
