use timetoreach::calendar::ServiceCalendar;
use timetoreach::geometry::Point;
use timetoreach::gtfs_wrapper::{DirectionType, Gtfs1, Stop, StopTime, Trip};
use timetoreach::pickup::{DataIntegrityError, PickupIndex};
use timetoreach::time::Time;
use timetoreach::BusPickupInfo;

fn call(stop: u64, seq: u16, arrival: u64, departure: u64) -> StopTime {
    StopTime { stop, stop_sequence: seq, arrival: Time(arrival), departure: Time(departure) }
}

fn timetable(stops: usize, trips: Vec<Vec<StopTime>>) -> Gtfs1 {
    let mut g = Gtfs1::new();
    for i in 0..stops {
        g.stops.push(Stop { agency: 1, position: Point { x: i as i64 * 1000, y: 0 } });
    }
    for (i, calls) in trips.into_iter().enumerate() {
        g.trips.push(Trip {
            agency: (i % 2) as u8 + 1,
            direction: DirectionType::Inbound,
            service: ServiceCalendar::always(),
            stop_times: calls,
        });
    }
    g
}

fn pickup(time: u64, seq: u16, agency: u8, trip: u64) -> BusPickupInfo {
    BusPickupInfo { timestamp: Time(time), stop_sequence_no: seq, trip_id: (agency, trip) }
}

fn error_of(tt: Gtfs1) -> Option<DataIntegrityError> {
    match PickupIndex::build(tt) {
        Ok(_) => None,
        Err(e) => Some(e),
    }
}

#[test]
fn unknown_stop_is_reported() {
    let tt = timetable(2, vec![vec![call(0, 1, 10, 10), call(2, 2, 20, 20)]]);
    assert_eq!(error_of(tt), Some(DataIntegrityError::UnknownStop));
}

#[test]
fn unknown_stop_is_reported_before_disorder() {
    let tt = timetable(
        2,
        vec![vec![call(0, 2, 10, 10), call(1, 1, 20, 20)], vec![call(5, 1, 10, 10)]],
    );
    assert_eq!(error_of(tt), Some(DataIntegrityError::UnknownStop));
}

#[test]
fn unsorted_sequence_positions_are_reported() {
    let tt = timetable(2, vec![vec![call(0, 2, 10, 10), call(1, 1, 20, 20)]]);
    assert_eq!(error_of(tt), Some(DataIntegrityError::UnsortedStopTimes));
    let tt = timetable(2, vec![vec![call(0, 1, 10, 10), call(1, 1, 20, 20)]]);
    assert_eq!(error_of(tt), Some(DataIntegrityError::UnsortedStopTimes));
}

#[test]
fn times_that_run_backwards_are_reported() {
    let tt = timetable(2, vec![vec![call(0, 1, 10, 10), call(1, 2, 9, 20)]]);
    assert_eq!(error_of(tt), Some(DataIntegrityError::UnsortedStopTimes));
    let tt = timetable(2, vec![vec![call(0, 1, 10, 9), call(1, 2, 20, 20)]]);
    assert_eq!(error_of(tt), Some(DataIntegrityError::UnsortedStopTimes));
}

#[test]
fn empty_timetable_has_no_departures() {
    let index = PickupIndex::build(Gtfs1::new()).unwrap_or_else(|_| panic!("sound timetable"));
    assert_eq!(index.next_departure(0, Time(0)), None);
    assert_eq!(index.timetable().trips.len(), 0);
}

#[test]
fn next_departure_is_the_earliest_at_or_after_the_time() {
    let tt = timetable(
        3,
        vec![
            vec![call(0, 1, 100, 100), call(1, 2, 200, 210), call(2, 3, 300, 300)],
            vec![call(0, 1, 150, 150), call(1, 2, 250, 260), call(2, 3, 350, 350)],
        ],
    );
    let index = PickupIndex::build(tt).unwrap_or_else(|_| panic!("sound timetable"));
    assert_eq!(index.next_departure(0, Time(0)), Some(pickup(100, 1, 1, 0)));
    assert_eq!(index.next_departure(0, Time(100)), Some(pickup(100, 1, 1, 0)));
    assert_eq!(index.next_departure(0, Time(101)), Some(pickup(150, 1, 2, 1)));
    assert_eq!(index.next_departure(0, Time(151)), None);
    assert_eq!(index.next_departure(1, Time(205)), Some(pickup(210, 2, 1, 0)));
    assert_eq!(index.next_departure(1, Time(211)), Some(pickup(260, 2, 2, 1)));
    assert_eq!(index.next_departure(1, Time(u64::MAX)), None);
}

#[test]
fn the_last_call_of_a_trip_offers_no_pickup() {
    let tt = timetable(2, vec![vec![call(0, 1, 100, 100), call(1, 2, 200, 210)]]);
    let index = PickupIndex::build(tt).unwrap_or_else(|_| panic!("sound timetable"));
    assert_eq!(index.next_departure(1, Time(0)), None);
    assert_eq!(index.next_departure(7, Time(0)), None);
}

#[test]
fn ties_are_broken_by_sequence_position_then_by_trip() {
    let tt = timetable(
        3,
        vec![
            vec![call(1, 5, 90, 100), call(2, 6, 300, 300)],
            vec![call(0, 1, 50, 50), call(1, 3, 90, 100), call(2, 4, 300, 300)],
            vec![call(0, 1, 50, 50), call(1, 3, 90, 100), call(2, 4, 300, 300)],
            vec![call(1, 3, 90, 100), call(2, 4, 300, 300)],
        ],
    );
    let index = PickupIndex::build(tt).unwrap_or_else(|_| panic!("sound timetable"));
    // Same time everywhere: position 3 beats 5; among position 3, agency 1
    // (trip 2) beats agency 2 (trips 1 and 3).
    assert_eq!(index.next_departure(1, Time(100)), Some(pickup(100, 3, 1, 2)));
    assert_eq!(index.next_departure(0, Time(50)), Some(pickup(50, 1, 1, 2)));
}

#[test]
fn derived_order_of_pickups_matches_the_index() {
    let mut all = vec![
        pickup(100, 5, 1, 0),
        pickup(100, 3, 2, 3),
        pickup(100, 3, 2, 1),
        pickup(100, 3, 1, 2),
        pickup(99, 9, 9, 9),
    ];
    all.sort();
    assert_eq!(
        all,
        vec![
            pickup(99, 9, 9, 9),
            pickup(100, 3, 1, 2),
            pickup(100, 3, 2, 1),
            pickup(100, 3, 2, 3),
            pickup(100, 5, 1, 0),
        ]
    );
}
