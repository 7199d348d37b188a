use timetoreach::calendar::ServiceCalendar;
use timetoreach::geometry::Point;
use timetoreach::gtfs_wrapper::{DirectionType, Gtfs1, Stop, StopTime, Trip};
use timetoreach::time::Time;
use timetoreach::{direction_to_bool, setup_gtfs, Constants, NULL_ID};

fn call(stop: u64, seq: u16, arrival: u64, departure: u64) -> StopTime {
    StopTime { stop, stop_sequence: seq, arrival: Time(arrival), departure: Time(departure) }
}

fn feed(agency: u8, stops: usize, calls: Vec<StopTime>) -> Gtfs1 {
    let mut g = Gtfs1::new();
    for i in 0..stops {
        g.stops.push(Stop { agency, position: Point { x: i as i64, y: agency as i64 } });
    }
    g.trips.push(Trip { agency, direction: DirectionType::Outbound,
        service: ServiceCalendar::always(), stop_times: calls });
    g
}

#[test]
fn direction_to_bool_tells_outbound_from_inbound() {
    assert!(direction_to_bool(&DirectionType::Outbound));
    assert!(!direction_to_bool(&DirectionType::Inbound));
}

#[test]
fn merge_moves_the_stop_references_of_the_second_feed() {
    let mut a = feed(1, 2, vec![call(0, 1, 10, 11), call(1, 2, 20, 21)]);
    let b = feed(2, 3, vec![call(2, 1, 30, 31), call(0, 2, 40, 41)]);
    a.merge(&b);
    assert_eq!(a.stops.len(), 5);
    assert_eq!(a.trips.len(), 2);
    assert_eq!(a.stops[2], Stop { agency: 2, position: Point { x: 0, y: 2 } });
    assert_eq!(a.trips[0].stop_times, vec![call(0, 1, 10, 11), call(1, 2, 20, 21)]);
    assert_eq!(a.trips[1].stop_times, vec![call(4, 1, 30, 31), call(2, 2, 40, 41)]);
    assert_eq!(a.trips[1].agency, 2);
}

#[test]
fn merge_keeps_a_dangling_reference_dangling() {
    let mut a = feed(1, 2, vec![]);
    let b = feed(2, 1, vec![call(u64::MAX - 1, 1, 0, 0)]);
    a.merge(&b);
    assert_eq!(a.trips[1].stop_times[0].stop, u64::MAX);
}

#[test]
fn setup_gtfs_merges_in_order() {
    let feeds = vec![
        feed(1, 1, vec![call(0, 1, 1, 1)]),
        feed(2, 2, vec![call(1, 1, 2, 2)]),
        feed(3, 1, vec![call(0, 1, 3, 3)]),
    ];
    let all = setup_gtfs(&feeds);
    assert_eq!(all.stops.len(), 4);
    assert_eq!(all.trips.len(), 3);
    assert_eq!(all.trips[0].stop_times[0].stop, 0);
    assert_eq!(all.trips[1].stop_times[0].stop, 2);
    assert_eq!(all.trips[2].stop_times[0].stop, 3);
    assert_eq!(all.stops[3].agency, 3);
    let none = setup_gtfs(&Vec::new());
    assert_eq!(none.stops.len(), 0);
    assert_eq!(none.trips.len(), 0);
}

#[test]
fn default_constants_are_the_named_values() {
    let c = Constants::default();
    assert_eq!(c.walking_speed, 1250);
    assert_eq!(c.straight_walking_speed, 900);
    assert_eq!(c.min_transfer, 4_000_000);
    assert_eq!(c.snap_tolerance, 1_000);
    assert_eq!(c.max_walk_radius, 2_000_000);
    assert!(c.is_valid());
    assert!(!Constants { walking_speed: 0, ..c }.is_valid());
    assert!(!Constants { straight_walking_speed: 0, ..c }.is_valid());
    assert!(!Constants { straight_walking_speed: 1251, ..c }.is_valid());
    assert!(Constants { straight_walking_speed: 1250, ..c }.is_valid());
    assert_eq!(NULL_ID, (u8::MAX, u64::MAX));
}
