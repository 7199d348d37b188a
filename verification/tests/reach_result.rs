use std::collections::HashSet;
use timetoreach::calendar::ServiceCalendar;
use timetoreach::geometry::Point;
use timetoreach::gtfs_wrapper::{DirectionType, Gtfs1, Stop, StopTime, Trip};
use timetoreach::pickup::PickupIndex;
use timetoreach::road_structure::RoadStructure;
use timetoreach::time::Time;
use timetoreach::time_to_reach::{
    check_configuration, generate_reach_times, Configuration, ConfigurationError, Label, LatLng,
};
use timetoreach::trips_arena::TripsArena;
use timetoreach::{Constants, TimeToReachRTree};

const START: u64 = 46_800_000_000;
const SECOND: u64 = 1_000_000;

fn p(x: i64, y: i64) -> Point {
    Point { x, y }
}

fn label(place: usize, arrival: u64) -> Label {
    Label { place, arrival: Time(arrival) }
}

fn call(stop: u64, seq: u16, arrival: u64, departure: u64) -> StopTime {
    StopTime { stop, stop_sequence: seq, arrival: Time(arrival), departure: Time(departure) }
}

fn one_trip() -> (RoadStructure, PickupIndex) {
    let stops = vec![p(0, 0), p(100_000_000, 0)];
    let mut tt = Gtfs1::new();
    for s in &stops {
        tt.stops.push(Stop { agency: 7, position: *s });
    }
    tt.trips.push(Trip {
        agency: 7,
        direction: DirectionType::Outbound,
        service: ServiceCalendar::always(),
        stop_times: vec![
            call(0, 1, START + 300 * SECOND, START + 300 * SECOND),
            call(1, 2, START + 900 * SECOND, START + 900 * SECOND),
        ],
    });
    let roads = RoadStructure::new(Constants::default(), 2, stops, &Vec::new()).expect("sound");
    let pickups = PickupIndex::build(tt).unwrap_or_else(|_| panic!("sound timetable"));
    (roads, pickups)
}

fn config(duration_secs: i64) -> Configuration {
    Configuration {
        start_time: Time(START),
        duration_secs,
        location: LatLng::from_lat_lng(43_682_285, -79_612_529),
        agency_ids: HashSet::new(),
    }
}

fn reached(roads: &RoadStructure, pickups: &PickupIndex) -> TimeToReachRTree {
    let mut arena = TripsArena::new();
    generate_reach_times(roads, pickups, &mut arena, &config(1000), p(90_000, 0))
        .unwrap_or_else(|_| panic!("sound configuration"))
}

fn error_of(c: &Configuration, origin: Point) -> Option<ConfigurationError> {
    let (roads, pickups) = one_trip();
    let mut arena = TripsArena::new();
    arena.get_or_create((3, 3));
    let result = generate_reach_times(&roads, &pickups, &mut arena, c, origin);
    assert_eq!(arena.len(), 1);
    match result {
        Ok(_) => None,
        Err(e) => Some(e),
    }
}

#[test]
fn duration_must_be_positive() {
    assert_eq!(error_of(&config(0), p(0, 0)), Some(ConfigurationError::InvalidDuration));
    assert_eq!(error_of(&config(-5), p(0, 0)), Some(ConfigurationError::InvalidDuration));
    assert_eq!(error_of(&config(i64::MAX), p(0, 0)), Some(ConfigurationError::InvalidDuration));
    assert_eq!(check_configuration(&config(1), p(0, 0)), Ok(1_000_000));
}

#[test]
fn search_must_end_within_the_representable_time() {
    let mut c = config(1);
    c.start_time = Time(u64::MAX - 1_000_000);
    assert_eq!(check_configuration(&c, p(0, 0)), Ok(1_000_000));
    c.start_time = Time(u64::MAX - 999_999);
    assert_eq!(check_configuration(&c, p(0, 0)), Err(ConfigurationError::InvalidDuration));
}

#[test]
fn origin_must_lie_in_range() {
    let mut c = config(10);
    c.location = LatLng::from_lat_lng(90_000_001, 0);
    assert_eq!(error_of(&c, p(0, 0)), Some(ConfigurationError::OriginOutOfRange));
    c.location = LatLng::from_lat_lng(-90_000_000, 180_000_001);
    assert_eq!(error_of(&c, p(0, 0)), Some(ConfigurationError::OriginOutOfRange));
    c.location = LatLng::from_lat_lng(-90_000_000, 180_000_000);
    assert_eq!(error_of(&c, p(0, 0)), None);
    assert_eq!(error_of(&c, p(0, 1_000_000_001)), Some(ConfigurationError::OriginOutOfRange));
    // The duration is looked at first.
    assert_eq!(error_of(&config(0), p(0, 2_000_000_000)), Some(ConfigurationError::InvalidDuration));
}

#[test]
fn result_holds_the_settled_labels_in_order() {
    let (roads, pickups) = one_trip();
    let r = reached(&roads, &pickups);
    assert_eq!(r.len(), 3);
    assert_eq!(r.label(0), label(2, START));
    assert_eq!(r.label(1), label(0, START + 100 * SECOND));
    assert_eq!(r.label(2), label(1, START + 900 * SECOND));
}

#[test]
fn query_nearest_and_query_radius() {
    let (roads, pickups) = one_trip();
    let r = reached(&roads, &pickups);
    assert_eq!(r.query_nearest(p(80_000, 10)), Some(label(2, START)));
    assert_eq!(r.query_nearest(p(10_000, 0)), Some(label(0, START + 100 * SECOND)));
    assert_eq!(r.query_nearest(p(900_000_000, 5)), Some(label(1, START + 900 * SECOND)));
    let mut near = r.query_radius(p(45_000, 0), 45_000);
    near.sort_by_key(|l| l.place);
    assert_eq!(near, vec![label(0, START + 100 * SECOND), label(2, START)]);
    assert_eq!(r.query_radius(p(45_000, 0), 44_999), Vec::new());
    assert_eq!(r.query_radius(p(0, 0), u64::MAX).len(), 3);
}

#[test]
fn query_nearest_breaks_ties_by_time_and_then_by_order() {
    // Two labels at the same distance from the point: the origin, settled
    // first at the start, and S, settled 100 s later.
    let (roads, pickups) = one_trip();
    let r = reached(&roads, &pickups);
    assert_eq!(r.query_nearest(p(45_000, 0)), Some(label(2, START)));
    assert_eq!(r.query_nearest(p(45_000, 77)), Some(label(2, START)));
    assert_eq!(r.query_nearest(p(44_999, 0)), Some(label(0, START + 100 * SECOND)));
    let empty = TimeToReachRTree::new(Vec::new(), Vec::new(), Time(0), 0);
    assert_eq!(empty.query_nearest(p(0, 0)), None);
    let twins = TimeToReachRTree::new(
        vec![label(5, 10), label(3, 10), label(4, 9)],
        vec![p(0, 10), p(10, 0), p(0, -11)],
        Time(0),
        100,
    );
    assert_eq!(twins.query_nearest(p(0, 0)), Some(label(5, 10)));
    assert_eq!(twins.arrival_time_at(&roads, p(0, 0)), Some(10));
}

#[test]
fn arrival_time_at_a_settled_place_is_its_label() {
    let (roads, pickups) = one_trip();
    let r = reached(&roads, &pickups);
    assert_eq!(r.arrival_time_at(&roads, p(90_000, 0)), Some(0));
    assert_eq!(r.arrival_time_at(&roads, p(0, 0)), Some(100 * SECOND));
    assert_eq!(r.arrival_time_at(&roads, p(100_000_000, 0)), Some(900 * SECOND));
    // Within a metre of the stop: still the stop's own label.
    assert_eq!(r.arrival_time_at(&roads, p(100_000_600, 800)), Some(900 * SECOND));
}

#[test]
fn arrival_time_elsewhere_is_the_quickest_walk_from_a_settled_place() {
    let (roads, pickups) = one_trip();
    let r = reached(&roads, &pickups);
    // 45 m from the origin (50 s) and 45 m from S (100 s + 50 s).
    assert_eq!(r.arrival_time_at(&roads, p(45_000, 0)), Some(50 * SECOND));
    // 9 m beyond S2.
    assert_eq!(r.arrival_time_at(&roads, p(100_009_000, 0)), Some(910 * SECOND));
    // 9 m west of S: 100 s + 10 s from S beats 110 s from the origin only in a tie.
    assert_eq!(r.arrival_time_at(&roads, p(-9_000, 0)), Some(110 * SECOND));
}

#[test]
fn arrival_time_far_from_every_settled_place_is_none() {
    let (roads, pickups) = one_trip();
    let r = reached(&roads, &pickups);
    // The budget of 1000 s reaches 1250 m.
    assert_eq!(r.arrival_time_at(&roads, p(50_000_000, 0)), None);
    assert_eq!(r.arrival_time_at(&roads, p(0, 1_250_001)), None);
    assert_eq!(r.arrival_time_at(&roads, p(0, 1_250_000)), Some(100 * SECOND + 1_388_888_889));
}

#[test]
fn filter_of_the_configuration_is_applied() {
    let (roads, pickups) = one_trip();
    let mut arena = TripsArena::new();
    let mut c = config(1000);
    c.agency_ids.insert(8);
    let r = generate_reach_times(&roads, &pickups, &mut arena, &c, p(90_000, 0))
        .unwrap_or_else(|_| panic!("sound configuration"));
    assert_eq!(r.len(), 2);
    assert_eq!(r.arrival_time_at(&roads, p(100_000_000, 0)), None);
}
