use timetoreach::geometry::Point;
use timetoreach::road_structure::{RoadStructure, NO_PATH};
use timetoreach::Constants;

fn p(x: i64, y: i64) -> Point {
    Point { x, y }
}

/// A(0,0) and B(3 m, 4 m) joined directly, and both joined to the far node
/// C(0, 100 m); D lies apart.
fn network() -> RoadStructure {
    let nodes = vec![p(0, 0), p(3_000, 4_000), p(0, 100_000), p(500_000, 500_000)];
    let links = vec![(0, 1), (0, 2), (2, 1)];
    RoadStructure::new(Constants::default(), 0, nodes, &links).expect("sound network")
}

fn detour_only() -> RoadStructure {
    let nodes = vec![p(0, 0), p(3_000, 4_000), p(0, 100_000)];
    let links = vec![(0, 2), (2, 1)];
    RoadStructure::new(Constants::default(), 0, nodes, &links).expect("sound network")
}

#[test]
fn new_refuses_unsound_input() {
    let c = Constants::default();
    assert!(RoadStructure::new(c, 0, vec![p(0, 0)], &vec![(0, 1)]).is_none());
    assert!(RoadStructure::new(c, 2, vec![p(0, 0)], &Vec::new()).is_none());
    assert!(RoadStructure::new(c, 0, vec![p(1_000_000_001, 0)], &Vec::new()).is_none());
    let stopped = Constants { straight_walking_speed: 0, ..c };
    assert!(RoadStructure::new(stopped, 0, vec![p(0, 0)], &Vec::new()).is_none());
    let g = RoadStructure::new(c, 1, vec![p(0, 0), p(1, 1)], &vec![(1, 0)]).expect("sound");
    assert_eq!(g.node_count(), 2);
    assert_eq!(g.stop_count(), 1);
    assert_eq!(g.position(1), p(1, 1));
    assert_eq!(g.constants(), c);
}

#[test]
fn walk_time_follows_the_streets_between_nodes() {
    let g = network();
    assert_eq!(g.walk_time(p(0, 0), p(3_000, 4_000)), 4_000_000);
    assert_eq!(g.walk_time(p(3_000, 4_000), p(0, 0)), 4_000_000);
    assert_eq!(g.walk_time(p(0, 0), p(0, 100_000)), 80_000_000);
    assert_eq!(g.walk_time(p(0, 0), p(0, 0)), 0);
}

#[test]
fn walk_time_adds_the_way_to_and_from_the_nodes() {
    let g = network();
    assert_eq!(g.walk_time(p(500, 0), p(3_000, 4_000)), 4_555_556);
}

#[test]
fn walk_time_falls_back_to_the_straight_line_off_the_graph() {
    let g = network();
    // 10 m from A: beyond the snapping tolerance.
    assert_eq!(g.walk_time(p(10_000, 0), p(10_000, 900)), 1_000_000);
    // D is a node, but no street leads to it.
    assert_eq!(g.walk_time(p(0, 0), p(500_000, 500_000)), 785_674_445);
}

#[test]
fn walk_time_is_never_more_than_the_straight_walk() {
    let g = detour_only();
    // The streets lead over C: 80 s + 76.8376 s. The straight walk takes 5.555556 s.
    assert_eq!(g.bounded_costs(0, 1_000_000_000)[1], 156_837_600);
    assert_eq!(g.walk_time(p(0, 0), p(3_000, 4_000)), 5_555_556);
}

#[test]
fn bounded_costs_are_the_quickest_walks_within_the_cap() {
    let g = network();
    assert_eq!(g.bounded_costs(0, 100_000_000), vec![0, 4_000_000, 80_000_000, NO_PATH]);
    assert_eq!(g.bounded_costs(0, 79_999_999), vec![0, 4_000_000, NO_PATH, NO_PATH]);
    assert_eq!(g.bounded_costs(2, 80_000_000), vec![80_000_000, 76_837_600, 0, NO_PATH]);
    assert_eq!(g.bounded_costs(3, 0), vec![NO_PATH, NO_PATH, NO_PATH, 0]);
}

#[test]
fn snap_picks_the_nearest_node_within_the_tolerance() {
    let nodes = vec![p(0, 0), p(600, 0), p(0, 0), p(5_000, 0)];
    let g = RoadStructure::new(Constants::default(), 0, nodes, &Vec::new()).expect("sound");
    assert_eq!(g.snap(p(0, 0)), Some(0));
    assert_eq!(g.snap(p(400, 0)), Some(1));
    assert_eq!(g.snap(p(300, 0)), Some(0));
    assert_eq!(g.snap(p(1_600, 0)), Some(1));
    assert_eq!(g.snap(p(1_601, 0)), None);
    assert_eq!(g.snap(p(4_000, 0)), Some(3));
}

#[test]
fn nodes_within_and_reach() {
    let g = network();
    let mut near = g.nodes_within(p(0, 0), 5_000);
    near.sort();
    assert_eq!(near, vec![0, 1]);
    assert_eq!(g.nodes_within(p(0, 0), 4_999), vec![0]);
    let mut all = g.nodes_within(p(0, 0), u64::MAX);
    all.sort();
    assert_eq!(all, vec![0, 1, 2, 3]);
    assert_eq!(g.reach(0), 0);
    assert_eq!(g.reach(1_000_000), 1_250);
    assert_eq!(g.reach(999_999), 1_249);
    assert_eq!(g.reach(1_600_000_000), 2_000_000);
    assert_eq!(g.reach(u64::MAX), 2_000_000);
}

#[test]
fn walk_field_answers_like_walk_time_within_its_budget() {
    let g = network();
    let field = g.walk_field(p(500, 0), 5_000_000);
    assert_eq!(g.walk_time_within(&field, p(3_000, 4_000)), Some(4_555_556));
    assert_eq!(g.walk_time_within(&field, p(500, 0)), Some(0));
    // C is 80 s away along the street and 110.6 s away in a straight line.
    assert_eq!(g.walk_time_within(&field, p(0, 100_000)), None);
    let wide = g.walk_field(p(500, 0), 80_555_556);
    assert_eq!(g.walk_time_within(&wide, p(0, 100_000)), Some(80_555_556));
    let narrow = g.walk_field(p(500, 0), 80_555_555);
    assert_eq!(g.walk_time_within(&narrow, p(0, 100_000)), None);
    assert_eq!(g.walk_time(p(500, 0), p(0, 100_000)), 80_555_556);
    // Off the graph the straight walk decides.
    let off = g.walk_field(p(10_000, 0), 1_000_000);
    assert_eq!(g.walk_time_within(&off, p(10_000, 900)), Some(1_000_000));
    assert_eq!(g.walk_time_within(&off, p(10_000, 901)), None);
    let all = g.walk_field(p(0, 0), u64::MAX);
    assert_eq!(g.walk_time_within(&all, p(500_000, 500_000)), Some(785_674_445));
}

#[test]
fn reach_covers_every_node_that_is_walked_to_in_time() {
    let g = network();
    let from = p(0, 0);
    for remaining in [0u64, 3_999_999, 4_000_000, 5_555_556, 80_000_000, 200_000_000] {
        let near = g.nodes_within(from, g.reach(remaining));
        for node in 0..g.node_count() {
            if g.walk_time(from, g.position(node)) <= remaining {
                assert!(near.contains(&node));
            }
        }
    }
}
