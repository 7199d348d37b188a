use timetoreach::geometry::{int_sqrt, travel_time, Point};
use timetoreach::time::Time;

#[test]
fn int_sqrt_rounds_up() {
    assert_eq!(int_sqrt(0), 0);
    assert_eq!(int_sqrt(1), 1);
    assert_eq!(int_sqrt(2), 2);
    assert_eq!(int_sqrt(4), 2);
    assert_eq!(int_sqrt(5), 3);
    assert_eq!(int_sqrt(1_000_000_000_000_000_000), 1_000_000_000);
    assert_eq!(int_sqrt(8_000_000_000_000_000_000), 2_828_427_125);
    assert_eq!(int_sqrt(i64::MAX as u64), 3_037_000_500);
}

#[test]
fn distance_is_the_rounded_up_euclidean_distance() {
    let a = Point { x: 0, y: 0 };
    let b = Point { x: 3_000, y: 4_000 };
    assert_eq!(a.squared_distance(&b), 25_000_000);
    assert_eq!(a.distance_to(&b), 5_000);
    assert_eq!(b.distance_to(&a), 5_000);
    assert_eq!(a.distance_to(&a), 0);
    assert_eq!(Point { x: 500, y: 0 }.distance_to(&b), 4_717);
}

#[test]
fn distance_across_the_whole_range() {
    let a = Point { x: -1_000_000_000, y: -1_000_000_000 };
    let b = Point { x: 1_000_000_000, y: 1_000_000_000 };
    assert_eq!(a.squared_distance(&b), 8_000_000_000_000_000_000);
    assert_eq!(a.distance_to(&b), 2_828_427_125);
    assert!(a.is_in_range());
    assert!(!Point { x: 1_000_000_001, y: 0 }.is_in_range());
    assert!(!Point { x: 0, y: -1_000_000_001 }.is_in_range());
}

#[test]
fn travel_time_rounds_up_to_whole_microseconds() {
    assert_eq!(travel_time(5_000, 1250), 4_000_000);
    assert_eq!(travel_time(5_000, 900), 5_555_556);
    assert_eq!(travel_time(900, 900), 1_000_000);
    assert_eq!(travel_time(0, 900), 0);
    assert_eq!(travel_time(1, 1_000_000), 1);
    assert_eq!(travel_time(1, 3_000_000), 1);
}

#[test]
fn time_conversions() {
    assert_eq!(Time::from_seconds(13 * 3600), Time(46_800_000_000));
    assert_eq!(Time(46_800_999_999).whole_seconds(), 46_800);
    assert_eq!(Time(5).checked_after(7), Some(Time(12)));
    assert_eq!(Time(u64::MAX).checked_after(1), None);
    assert_eq!(Time(u64::MAX - 1).checked_after(1), Some(Time(u64::MAX)));
}
