use crate::geometry::{dist2, lemma_dist2_bound, Point, MAX_DISTANCE};
use rstar::primitives::GeomWithData;
use rstar::RTree;
use vstd::multiset::Multiset;
use vstd::prelude::*;

verus! {

/// An r-tree of `rstar` over points with 64-bit integer coordinates, each
/// stored beside a number. The type of the tree is bounded by traits of
/// `rstar`, which Verus does not accept in the declaration of an outside
/// type, so the tree is held behind this struct. Its contents are known to
/// the proofs only through `tree_entries`.
#[verifier::external_body]
pub struct NumberedTree {
    inner: RTree<GeomWithData<[i64; 2], u64>>,
}

/// The entries that an r-tree holds, each a point with the number stored
/// beside it, without regard to the tree's internal layout.
pub uninterp spec fn tree_entries(tree: NumberedTree) -> Multiset<(Point, u64)>;

/// Calls `rstar::RTree::bulk_load` on the given entries, each turned into a
/// `GeomWithData`. The tree that comes back holds exactly the entries handed
/// in, as often as they were handed in.
#[verifier::external_body]
fn tree_bulk_load(entries: &Vec<(Point, u64)>) -> (tree: NumberedTree)
    ensures
        tree_entries(tree) == entries@.to_multiset(),
{
    NumberedTree {
        inner: RTree::bulk_load(
            entries.iter().map(|e| GeomWithData::new([e.0.x, e.0.y], e.1)).collect(),
        ),
    }
}

/// Calls `rstar::RTree::locate_within_distance`. What comes back are the
/// tree's entries whose squared distance from `center` is at most `max_d2`,
/// each as often as the tree holds it, in no promised order.
#[verifier::external_body]
fn tree_within(tree: &NumberedTree, center: Point, max_d2: i64) -> (found:
    Vec<(Point, u64)>)
    requires
        center.in_range(),
        forall|e: (Point, u64)| #[trigger] tree_entries(*tree).count(e) > 0 ==> e.0.in_range(),
    ensures
        forall|e: (Point, u64)| #[trigger]
            found@.to_multiset().count(e) == if dist2(e.0, center) <= max_d2 {
                tree_entries(*tree).count(e)
            } else {
                0
            },
{
    tree.inner.locate_within_distance([center.x, center.y], max_d2).map(
        |g| (Point { x: g.geom()[0], y: g.geom()[1] }, g.data),
    ).collect()
}

/// Calls `rstar::RTree::nearest_neighbor`. An empty tree gives `None`;
/// otherwise an entry of the tree comes back than which none lies closer to
/// `center`. Which of several equally close entries it is, is left open.
#[verifier::external_body]
fn tree_nearest(tree: &NumberedTree, center: Point) -> (best: Option<
    (Point, u64),
>)
    requires
        center.in_range(),
        forall|e: (Point, u64)| #[trigger] tree_entries(*tree).count(e) > 0 ==> e.0.in_range(),
    ensures
        match best {
            Some(b) => tree_entries(*tree).count(b) > 0 && forall|e: (Point, u64)| #[trigger]
                tree_entries(*tree).count(e) > 0 ==> dist2(b.0, center) <= dist2(e.0, center),
            None => tree_entries(*tree).len() == 0,
        },
{
    tree.inner.nearest_neighbor(&[center.x, center.y]).map(
        |g| (Point { x: g.geom()[0], y: g.geom()[1] }, g.data),
    )
}

/// Largest squared distance between two points in range.
pub const MAX_DIST2: i64 = 8_000_000_000_000_000_000;

/// The points of `points`, each paired with its position in the sequence.
pub open spec fn numbered(points: Seq<Point>) -> Seq<(Point, u64)> {
    Seq::new(points.len(), |i: int| (points[i], i as u64))
}

/// A fixed set of points that answers distance queries.
///
/// Its view is the sequence of points it was built from; queries name a
/// point by its position in that sequence.
pub struct PointIndex {
    points: Vec<Point>,
    tree: NumberedTree,
}

impl View for PointIndex {
    type V = Seq<Point>;

    closed spec fn view(&self) -> Seq<Point> {
        self.points@
    }
}

impl PointIndex {
    /// The tree holds each point once, beside its position, and every point is in range.
    pub closed spec fn wf(&self) -> bool {
        &&& self.points@.len() <= usize::MAX
        &&& tree_entries(self.tree) == numbered(self.points@).to_multiset()
        &&& forall|i: int| 0 <= i < self.points@.len() ==> (#[trigger] self.points@[i]).in_range()
    }

    proof fn lemma_entries(&self, e: (Point, u64))
        requires
            self.wf(),
        ensures
            tree_entries(self.tree).count(e) > 0 <==> (e.1 < self.points@.len() && e.0
                == self.points@[e.1 as int]),
            tree_entries(self.tree).count(e) <= 1,
    {
        let s = numbered(self.points@);
        s.to_multiset_ensures();
        assert(s.len() == self.points@.len());
        if e.1 < self.points@.len() && e.0 == self.points@[e.1 as int] {
            assert(s[e.1 as int] == e);
            assert(s.contains(e));
        }
        if s.contains(e) {
            let i = choose|i: int| 0 <= i < s.len() && s[i] == e;
            assert(e.1 == i as u64);
        }
        assert(s.no_duplicates()) by {
            assert forall|i: int, j: int| 0 <= i < s.len() && 0 <= j < s.len() && i != j implies s[i]
                != s[j] by {
                assert(s[i].1 == i as u64);
                assert(s[j].1 == j as u64);
            }
        }
        s.lemma_multiset_has_no_duplicates();
    }

    /// A well-formed index holds no more points than a `usize` counts.
    pub proof fn lemma_len(&self)
        requires
            self.wf(),
        ensures
            self@.len() <= usize::MAX,
            forall|i: int| 0 <= i < self@.len() ==> (#[trigger] self@[i]).in_range(),
    {
    }

    /// Builds the index over `points`.
    pub fn build(points: Vec<Point>) -> (index: PointIndex)
        requires
            forall|i: int| 0 <= i < points@.len() ==> (#[trigger] points@[i]).in_range(),
        ensures
            index.wf(),
            index@ == points@,
    {
        let mut entries: Vec<(Point, u64)> = Vec::new();
        let mut i: usize = 0;
        while i < points.len()
            invariant
                i <= points@.len(),
                entries@.len() == i,
                forall|k: int| 0 <= k < i ==> #[trigger] entries@[k] == (points@[k], k as u64),
            decreases points@.len() - i,
        {
            entries.push((points[i], i as u64));
            i += 1;
        }
        assert(entries@ =~= numbered(points@));
        let tree = tree_bulk_load(&entries);
        PointIndex { points, tree }
    }

    /// Number of points in the index.
    pub fn len(&self) -> (n: usize)
        ensures
            n == self@.len(),
    {
        self.points.len()
    }

    /// The point at position `i`.
    pub fn point(&self, i: usize) -> (p: Point)
        requires
            i < self@.len(),
        ensures
            p == self@[i as int],
    {
        self.points[i]
    }

    /// Positions of all points whose squared distance from `center` is at most
    /// `max_d2`, each once, in no particular order.
    pub fn within(&self, center: Point, max_d2: i64) -> (found: Vec<usize>)
        requires
            self.wf(),
            center.in_range(),
        ensures
            found@.no_duplicates(),
            forall|k: int|
                0 <= k < found@.len() ==> (#[trigger] found@[k]) < self@.len() && dist2(
                    self@[found@[k] as int],
                    center,
                ) <= max_d2,
            forall|i: int|
                0 <= i < self@.len() && dist2(#[trigger] self@[i], center) <= max_d2
                    ==> found@.contains(i as usize),
    {
        proof {
            assert forall|e: (Point, u64)| #[trigger]
                tree_entries(self.tree).count(e) > 0 implies e.0.in_range() by {
                self.lemma_entries(e);
            }
        }
        let raw = tree_within(&self.tree, center, max_d2);
        proof {
            raw@.to_multiset_ensures();
            assert forall|e: (Point, u64)| #[trigger] raw@.to_multiset().count(e) <= 1 by {
                self.lemma_entries(e);
            }
            raw@.lemma_multiset_has_no_duplicates_conv();
        }
        let mut found: Vec<usize> = Vec::new();
        let mut k: usize = 0;
        while k < raw.len()
            invariant
                self.wf(),
                k <= raw@.len(),
                found@.len() == k,
                raw@.no_duplicates(),
                forall|e: (Point, u64)| #[trigger]
                    raw@.to_multiset().count(e) == if dist2(e.0, center) <= max_d2 {
                        tree_entries(self.tree).count(e)
                    } else {
                        0
                    },
                forall|j: int| 0 <= j < k ==> (#[trigger] found@[j]) == raw@[j].1,
                forall|j: int|
                    0 <= j < k ==> raw@[j].1 < self@.len() && raw@[j].0 == self@[raw@[j].1 as int]
                        && dist2(raw@[j].0, center) <= max_d2,
            decreases raw@.len() - k,
        {
            let e = raw[k];
            proof {
                raw@.to_multiset_ensures();
                assert(raw@.contains(e));
                assert(raw@.to_multiset().count(e) > 0);
                self.lemma_entries(e);
            }
            found.push(e.1 as usize);
            k += 1;
        }
        proof {
            assert forall|a: int, b: int|
                0 <= a < found@.len() && 0 <= b < found@.len() && a != b implies found@[a]
                != found@[b] by {
                if found@[a] == found@[b] {
                    assert(raw@[a].1 == raw@[b].1);
                    assert(raw@[a] == raw@[b]);
                }
            }
            assert forall|i: int|
                0 <= i < self@.len() && dist2(#[trigger] self@[i], center)
                    <= max_d2 implies found@.contains(i as usize) by {
                let e = (self@[i], i as u64);
                self.lemma_entries(e);
                raw@.to_multiset_ensures();
                assert(raw@.to_multiset().count(e) > 0);
                assert(raw@.contains(e));
                let j = choose|j: int| 0 <= j < raw@.len() && raw@[j] == e;
                assert(found@[j] == i as usize);
            }
        }
        found
    }

    /// Positions of all points that lie within `radius` millimetres of
    /// `center`, each once, in no particular order.
    pub fn within_radius(&self, center: Point, radius: u64) -> (found: Vec<usize>)
        requires
            self.wf(),
            center.in_range(),
        ensures
            found@.no_duplicates(),
            forall|k: int|
                0 <= k < found@.len() ==> (#[trigger] found@[k]) < self@.len() && dist2(
                    self@[found@[k] as int],
                    center,
                ) <= radius * radius,
            forall|i: int|
                0 <= i < self@.len() && dist2(#[trigger] self@[i], center) <= radius * radius
                    ==> found@.contains(i as usize),
    {
        let far: bool = radius >= MAX_DISTANCE;
        let r2: i64 = if far {
            MAX_DIST2
        } else {
            assert(radius * radius <= MAX_DISTANCE * MAX_DISTANCE) by (nonlinear_arith)
                requires
                    radius <= MAX_DISTANCE,
            ;
            assert(MAX_DISTANCE * MAX_DISTANCE <= i64::MAX) by (nonlinear_arith);
            (radius * radius) as i64
        };
        proof {
            if far {
                assert(radius * radius >= MAX_DISTANCE * MAX_DISTANCE) by (nonlinear_arith)
                    requires
                        radius >= MAX_DISTANCE,
                ;
                assert(MAX_DISTANCE * MAX_DISTANCE >= MAX_DIST2) by (nonlinear_arith);
            }
            assert forall|i: int| 0 <= i < self@.len() implies (dist2(#[trigger] self@[i], center)
                <= r2 <==> dist2(self@[i], center) <= radius * radius) by {
                lemma_dist2_bound(self@[i], center);
            }
        }
        self.within(center, r2)
    }

    /// Position of a point than which none lies closer to `center`, or `None`
    /// for an empty index.
    pub fn nearest(&self, center: Point) -> (best: Option<usize>)
        requires
            self.wf(),
            center.in_range(),
        ensures
            match best {
                Some(b) => b < self@.len() && forall|i: int|
                    0 <= i < self@.len() ==> dist2(self@[b as int], center) <= dist2(
                        #[trigger] self@[i],
                        center,
                    ),
                None => self@.len() == 0,
            },
    {
        proof {
            assert forall|e: (Point, u64)| #[trigger]
                tree_entries(self.tree).count(e) > 0 implies e.0.in_range() by {
                self.lemma_entries(e);
            }
        }
        match tree_nearest(&self.tree, center) {
            Some(b) => {
                proof {
                    self.lemma_entries(b);
                    assert forall|i: int| 0 <= i < self@.len() implies dist2(b.0, center) <= dist2(
                        #[trigger] self@[i],
                        center,
                    ) by {
                        self.lemma_entries((self@[i], i as u64));
                    }
                }
                Some(b.1 as usize)
            },
            None => {
                proof {
                    numbered(self.points@).to_multiset_ensures();
                }
                None
            },
        }
    }
}

} // verus!
