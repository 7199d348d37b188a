use chrono::{Datelike, NaiveDate};
use timetoreach::calendar::{present_day, service_day, service_day_at, ServiceCalendar, ServiceDay};
use timetoreach::geometry::Point;
use timetoreach::gtfs_wrapper::{DirectionType, Gtfs1, Stop, StopTime, Trip};
use timetoreach::pickup::PickupIndex;
use timetoreach::time::Time;
use timetoreach::BusPickupInfo;

#[test]
fn service_day_numbers_days_from_the_year_one() {
    assert_eq!(service_day(1, 1, 1), Some(ServiceDay { day_number: 1, weekday: 0 }));
    assert_eq!(service_day(1970, 1, 1), Some(ServiceDay { day_number: 719_163, weekday: 3 }));
    assert_eq!(service_day(2023, 4, 4), Some(ServiceDay { day_number: 738_614, weekday: 1 }));
    assert_eq!(service_day(0, 12, 31), Some(ServiceDay { day_number: 0, weekday: 6 }));
    assert_eq!(service_day(0, 1, 1), Some(ServiceDay { day_number: -365, weekday: 5 }));
    assert_eq!(present_day(), Some(ServiceDay { day_number: 738_614, weekday: 1 }));
}

#[test]
fn service_day_refuses_dates_that_do_not_exist() {
    assert_eq!(service_day(2023, 2, 29), None);
    assert_eq!(service_day(2024, 2, 29), Some(ServiceDay { day_number: 738_945, weekday: 3 }));
    assert_eq!(service_day(2023, 13, 1), None);
    assert_eq!(service_day(2023, 0, 1), None);
    assert_eq!(service_day(2023, 4, 31), None);
    assert_eq!(service_day(400_000, 1, 1), None);
}

#[test]
fn weekday_of_a_day_number_agrees_with_the_calendar() {
    let mut date = NaiveDate::from_ymd_opt(-3, 1, 1).expect("a date");
    for _ in 0..3000 {
        let day = service_day_at(date.num_days_from_ce());
        assert_eq!(u32::from(day.weekday), date.weekday().num_days_from_monday());
        date = date.succ_opt().expect("a date");
    }
    assert_eq!(service_day_at(i32::MIN).weekday, 4);
    assert_eq!(service_day_at(i32::MAX).weekday, 0);
}

#[test]
fn is_service_active_within_the_range_and_on_marked_weekdays() {
    let weekdays_only = ServiceCalendar {
        first_day: 738_600,
        last_day: 738_620,
        weekdays: [true, true, true, true, true, false, false],
    };
    let tuesday = ServiceDay { day_number: 738_614, weekday: 1 };
    let saturday = ServiceDay { day_number: 738_618, weekday: 5 };
    assert!(weekdays_only.is_service_active(&tuesday));
    assert!(!weekdays_only.is_service_active(&saturday));
    assert!(weekdays_only.is_service_active(&ServiceDay { day_number: 738_600, weekday: 1 }));
    assert!(weekdays_only.is_service_active(&ServiceDay { day_number: 738_620, weekday: 0 }));
    assert!(!weekdays_only.is_service_active(&ServiceDay { day_number: 738_599, weekday: 0 }));
    assert!(!weekdays_only.is_service_active(&ServiceDay { day_number: 738_621, weekday: 1 }));
    assert!(!weekdays_only.is_service_active(&ServiceDay { day_number: 738_614, weekday: 7 }));
    assert!(ServiceCalendar::always().is_service_active(&saturday));
}

#[test]
fn on_day_empties_the_trips_that_do_not_run() {
    let call = |stop: u64, seq: u16, at: u64| StopTime {
        stop,
        stop_sequence: seq,
        arrival: Time(at),
        departure: Time(at),
    };
    let mut tt = Gtfs1::new();
    tt.stops.push(Stop { agency: 1, position: Point { x: 0, y: 0 } });
    tt.stops.push(Stop { agency: 1, position: Point { x: 9, y: 9 } });
    tt.trips.push(Trip {
        agency: 1,
        direction: DirectionType::Outbound,
        service: ServiceCalendar {
            first_day: 0,
            last_day: 1_000_000,
            weekdays: [false, false, false, false, false, true, true],
        },
        stop_times: vec![call(0, 1, 100), call(1, 2, 200)],
    });
    tt.trips.push(Trip {
        agency: 1,
        direction: DirectionType::Inbound,
        service: ServiceCalendar::always(),
        stop_times: vec![call(0, 1, 150), call(1, 2, 250)],
    });
    let tuesday = service_day(2023, 4, 4).expect("a date");
    let saturday = service_day(2023, 4, 8).expect("a date");
    let on_tuesday = tt.on_day(&tuesday);
    assert_eq!(on_tuesday.stops, tt.stops);
    assert_eq!(on_tuesday.trips.len(), 2);
    assert!(on_tuesday.trips[0].stop_times.is_empty());
    assert_eq!(on_tuesday.trips[1].stop_times, tt.trips[1].stop_times);
    let index = PickupIndex::build(on_tuesday).unwrap_or_else(|_| panic!("sound timetable"));
    assert_eq!(
        index.next_departure(0, Time(0)),
        Some(BusPickupInfo { timestamp: Time(150), stop_sequence_no: 1, trip_id: (1, 1) })
    );
    let index = PickupIndex::build(tt.on_day(&saturday)).unwrap_or_else(|_| panic!("sound"));
    assert_eq!(
        index.next_departure(0, Time(0)),
        Some(BusPickupInfo { timestamp: Time(100), stop_sequence_no: 1, trip_id: (1, 0) })
    );
}
