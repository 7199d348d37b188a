use std::collections::HashSet;
use timetoreach::calendar::ServiceCalendar;
use timetoreach::geometry::Point;
use timetoreach::gtfs_wrapper::{DirectionType, Gtfs1, Stop, StopTime, Trip};
use timetoreach::pickup::PickupIndex;
use timetoreach::road_structure::RoadStructure;
use timetoreach::time::Time;
use timetoreach::time_to_reach::{pop_min, search, Label};
use timetoreach::trips_arena::{InProgressTrip, TripsArena};
use timetoreach::Constants;

const START: u64 = 46_800_000_000;
const SECOND: u64 = 1_000_000;

fn p(x: i64, y: i64) -> Point {
    Point { x, y }
}

fn label(place: usize, arrival: u64) -> Label {
    Label { place, arrival: Time(arrival) }
}

fn call(stop: u64, seq: u16, arrival: u64, departure: u64) -> StopTime {
    StopTime { stop, stop_sequence: seq, arrival: Time(arrival), departure: Time(departure) }
}

/// Stop S at the origin of the plane, stop S2 a hundred kilometres east, and
/// trip T of agency 7 that leaves S 300 s after the start and reaches S2
/// 900 s after the start.
fn one_trip() -> (RoadStructure, PickupIndex) {
    let stops = vec![p(0, 0), p(100_000_000, 0)];
    let mut tt = Gtfs1::new();
    for s in &stops {
        tt.stops.push(Stop { agency: 7, position: *s });
    }
    tt.trips.push(Trip {
        agency: 7,
        direction: DirectionType::Outbound,
        service: ServiceCalendar::always(),
        stop_times: vec![
            call(0, 1, START + 300 * SECOND, START + 300 * SECOND),
            call(1, 2, START + 900 * SECOND, START + 900 * SECOND),
        ],
    });
    let roads = RoadStructure::new(Constants::default(), 2, stops, &Vec::new()).expect("sound");
    let pickups = PickupIndex::build(tt).unwrap_or_else(|_| panic!("sound timetable"));
    (roads, pickups)
}

fn run(roads: &RoadStructure, pickups: &PickupIndex, origin: Point, duration: u64) -> Vec<Label> {
    let mut arena = TripsArena::new();
    search(roads, pickups, &HashSet::new(), &mut arena, origin, Time(START), duration)
}

#[test]
fn pop_min_takes_the_earliest_label_and_the_lower_place_among_equals() {
    let mut queue = vec![label(4, 30), label(9, 10), label(2, 10), label(1, 20)];
    assert_eq!(pop_min(&mut queue), label(2, 10));
    assert_eq!(pop_min(&mut queue), label(9, 10));
    assert_eq!(pop_min(&mut queue), label(1, 20));
    assert_eq!(pop_min(&mut queue), label(4, 30));
    assert!(queue.is_empty());
}

#[test]
fn trip_is_caught_after_the_walk_to_the_stop() {
    let (roads, pickups) = one_trip();
    let order = run(&roads, &pickups, p(90_000, 0), 1000 * SECOND);
    assert_eq!(
        order,
        vec![label(2, START), label(0, START + 100 * SECOND), label(1, START + 900 * SECOND)]
    );
}

#[test]
fn trip_is_missed_when_the_walk_takes_too_long() {
    let (roads, pickups) = one_trip();
    let order = run(&roads, &pickups, p(270_000, 0), 1000 * SECOND);
    assert_eq!(order, vec![label(2, START), label(0, START + 300 * SECOND)]);
}

#[test]
fn transfer_buffer_decides_at_the_boundary() {
    let (roads, pickups) = one_trip();
    // 266.4 m take 296 s: with the 4 s of transfer the trip is just caught.
    let order = run(&roads, &pickups, p(266_400, 0), 1000 * SECOND);
    assert_eq!(
        order,
        vec![label(2, START), label(0, START + 296 * SECOND), label(1, START + 900 * SECOND)]
    );
    // One millimetre more and it is gone.
    let order = run(&roads, &pickups, p(266_401, 0), 1000 * SECOND);
    assert_eq!(order, vec![label(2, START), label(0, START + 296_001_112)]);
}

#[test]
fn zero_duration_settles_only_the_origin() {
    let (roads, pickups) = one_trip();
    assert_eq!(run(&roads, &pickups, p(90_000, 0), 0), vec![label(2, START)]);
    // Not even a node at the very place of the origin is settled.
    assert_eq!(run(&roads, &pickups, p(0, 0), 0), vec![label(2, START)]);
}

#[test]
fn agency_filter_keeps_riders_off_the_trip() {
    let (roads, pickups) = one_trip();
    let mut arena = TripsArena::new();
    let mut other = HashSet::new();
    other.insert(9u8);
    let order =
        search(&roads, &pickups, &other, &mut arena, p(90_000, 0), Time(START), 1000 * SECOND);
    assert_eq!(order, vec![label(2, START), label(0, START + 100 * SECOND)]);
    assert_eq!(arena.len(), 0);
    let mut same = HashSet::new();
    same.insert(7u8);
    same.insert(9u8);
    let order =
        search(&roads, &pickups, &same, &mut arena, p(90_000, 0), Time(START), 1000 * SECOND);
    assert_eq!(order.len(), 3);
    assert_eq!(order[2], label(1, START + 900 * SECOND));
}

#[test]
fn label_at_the_budget_is_settled_and_one_microsecond_over_is_not() {
    let roads =
        RoadStructure::new(Constants::default(), 0, vec![p(900, 0)], &Vec::new()).expect("sound");
    let pickups = PickupIndex::build(Gtfs1::new()).unwrap_or_else(|_| panic!("sound timetable"));
    assert_eq!(
        run(&roads, &pickups, p(0, 0), SECOND),
        vec![label(1, START), label(0, START + SECOND)]
    );
    assert_eq!(run(&roads, &pickups, p(0, 0), SECOND - 1), vec![label(1, START)]);
}

#[test]
fn ride_ends_before_the_first_call_beyond_the_budget() {
    let stops = vec![p(0, 0), p(50_000_000, 0), p(100_000_000, 0), p(150_000_000, 0)];
    let mut tt = Gtfs1::new();
    for s in &stops {
        tt.stops.push(Stop { agency: 1, position: *s });
    }
    tt.trips.push(Trip {
        agency: 1,
        direction: DirectionType::Outbound,
        service: ServiceCalendar::always(),
        stop_times: vec![
            call(0, 10, START + 10 * SECOND, START + 10 * SECOND),
            call(1, 20, START + 400 * SECOND, START + 410 * SECOND),
            call(2, 30, START + 1000 * SECOND, START + 1000 * SECOND),
            call(3, 40, START + 1001 * SECOND, START + 1001 * SECOND + 1),
        ],
    });
    let roads = RoadStructure::new(Constants::default(), 4, stops, &Vec::new()).expect("sound");
    let pickups = PickupIndex::build(tt).unwrap_or_else(|_| panic!("sound timetable"));
    let mut arena = TripsArena::new();
    let none = HashSet::new();
    let order = search(&roads, &pickups, &none, &mut arena, p(0, 0), Time(START), 1000 * SECOND);
    assert_eq!(
        order,
        vec![
            label(4, START),
            label(0, START),
            label(1, START + 400 * SECOND),
            label(2, START + 1000 * SECOND),
        ]
    );
    assert_eq!(arena.len(), 1);
    assert_eq!(
        arena.record(0),
        Some(InProgressTrip {
            trip_id: (1, 0),
            stop_sequence_no: 30,
            arrival: Time(START + 1000 * SECOND)
        })
    );
    let order = search(&roads, &pickups, &none, &mut arena, p(0, 0), Time(START), 999 * SECOND);
    assert_eq!(order, vec![label(4, START), label(0, START), label(1, START + 400 * SECOND)]);
    assert_eq!(arena.len(), 1);
    assert_eq!(arena.current_position(0), 20);
}

#[test]
fn walking_follows_the_streets_and_settles_each_place_once() {
    // A - B - C in a row, five metres apart, and the origin on A.
    let nodes = vec![p(0, 0), p(3_000, 4_000), p(6_000, 8_000)];
    let links = vec![(0, 1), (1, 2)];
    let roads = RoadStructure::new(Constants::default(), 0, nodes, &links).expect("sound");
    let pickups = PickupIndex::build(Gtfs1::new()).unwrap_or_else(|_| panic!("sound timetable"));
    let order = run(&roads, &pickups, p(0, 0), 60 * SECOND);
    assert_eq!(
        order,
        vec![label(3, START), label(0, START), label(1, START + 4 * SECOND), label(2, START + 8 * SECOND)]
    );
    let mut places: Vec<usize> = order.iter().map(|l| l.place).collect();
    places.sort();
    places.dedup();
    assert_eq!(places.len(), order.len());
    assert!(order.iter().all(|l| l.arrival.0 <= START + 60 * SECOND));
    assert!(order.windows(2).all(|w| w[0].arrival <= w[1].arrival));
}

#[test]
fn same_search_twice_gives_the_same_labels() {
    let (roads, pickups) = one_trip();
    let first = run(&roads, &pickups, p(90_000, 0), 1000 * SECOND);
    let second = run(&roads, &pickups, p(90_000, 0), 1000 * SECOND);
    assert_eq!(first, second);
}

#[test]
fn search_empties_the_arena_first() {
    let (roads, pickups) = one_trip();
    let mut arena = TripsArena::new();
    arena.get_or_create((1, 99));
    let none = HashSet::new();
    search(&roads, &pickups, &none, &mut arena, p(90_000, 0), Time(START), 1000 * SECOND);
    assert_eq!(arena.len(), 1);
    assert_eq!(
        arena.record(0),
        Some(InProgressTrip {
            trip_id: (7, 0),
            stop_sequence_no: 2,
            arrival: Time(START + 900 * SECOND)
        })
    );
}
