use timetoreach::geometry::Point;
use timetoreach::spatial::PointIndex;

fn sample() -> Vec<Point> {
    vec![
        Point { x: 0, y: 0 },
        Point { x: 3, y: 4 },
        Point { x: 100, y: 0 },
        Point { x: -7, y: 1 },
    ]
}

#[test]
fn within_returns_exactly_the_points_in_the_disc() {
    let index = PointIndex::build(sample());
    let mut found = index.within(Point { x: 0, y: 0 }, 25);
    found.sort();
    assert_eq!(found, vec![0, 1]);
    let mut found = index.within(Point { x: 0, y: 0 }, 24);
    found.sort();
    assert_eq!(found, vec![0]);
    let mut all = index.within(Point { x: 0, y: 0 }, 10_000);
    all.sort();
    assert_eq!(all, vec![0, 1, 2, 3]);
}

#[test]
fn nearest_picks_the_closest_point() {
    let index = PointIndex::build(sample());
    assert_eq!(index.nearest(Point { x: 90, y: 1 }), Some(2));
    assert_eq!(index.nearest(Point { x: -5, y: 1 }), Some(3));
    assert_eq!(PointIndex::build(Vec::new()).nearest(Point { x: 0, y: 0 }), None);
}

#[test]
fn index_handles_points_at_the_range_limits() {
    let far = vec![
        Point { x: 1_000_000_000, y: 1_000_000_000 },
        Point { x: -1_000_000_000, y: -1_000_000_000 },
    ];
    let index = PointIndex::build(far);
    assert_eq!(index.nearest(Point { x: 999_999_999, y: 1_000_000_000 }), Some(0));
    let found = index.within(Point { x: -1_000_000_000, y: -1_000_000_000 }, 0);
    assert_eq!(found, vec![1]);
}
