use timetoreach::time::Time;
use timetoreach::trips_arena::{InProgressTrip, TripsArena};

#[test]
fn get_or_create_gives_each_trip_one_record() {
    let mut arena = TripsArena::new();
    assert_eq!(arena.len(), 0);
    let a = arena.get_or_create((1, 7));
    let b = arena.get_or_create((2, 7));
    let again = arena.get_or_create((1, 7));
    assert_eq!(a, 0);
    assert_eq!(b, 1);
    assert_eq!(again, a);
    assert_eq!(arena.len(), 2);
    assert_eq!(
        arena.record(a),
        Some(InProgressTrip { trip_id: (1, 7), stop_sequence_no: 0, arrival: Time(0) })
    );
    assert_eq!(arena.record(2), None);
}

#[test]
fn advance_moves_only_forward() {
    let mut arena = TripsArena::new();
    let h = arena.get_or_create((1, 3));
    let other = arena.get_or_create((1, 4));
    arena.advance(h, 5, Time(500));
    assert_eq!(arena.current_position(h), 5);
    arena.advance(h, 5, Time(600));
    assert_eq!(
        arena.record(h),
        Some(InProgressTrip { trip_id: (1, 3), stop_sequence_no: 5, arrival: Time(500) })
    );
    arena.advance(h, 2, Time(700));
    assert_eq!(arena.current_position(h), 5);
    arena.advance(h, 6, Time(800));
    assert_eq!(
        arena.record(h),
        Some(InProgressTrip { trip_id: (1, 3), stop_sequence_no: 6, arrival: Time(800) })
    );
    assert_eq!(arena.current_position(other), 0);
    arena.advance(h, 0, Time(900));
    assert_eq!(arena.current_position(h), 6);
}

#[test]
fn clear_drops_every_record() {
    let mut arena = TripsArena::new();
    arena.get_or_create((1, 1));
    arena.get_or_create((1, 2));
    arena.clear();
    assert_eq!(arena.len(), 0);
    assert_eq!(arena.record(0), None);
    assert_eq!(arena.get_or_create((1, 2)), 0);
}
