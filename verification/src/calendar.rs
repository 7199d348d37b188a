use chrono::{Datelike, NaiveDate};
use vstd::prelude::*;

verus! {

/// A day on which service may run: its number in the proleptic Gregorian
/// calendar, 1 January of the year 1 being day 1, and its day of the week,
/// from 0 for Monday to 6 for Sunday.
#[derive(Clone, Copy, Debug, PartialEq, Eq, Structural)]
pub struct ServiceDay {
    pub day_number: i32,
    pub weekday: u8,
}

/// When a trip runs: from a first to a last day, both included, on the
/// marked days of the week, Monday first.
#[derive(Clone, Copy, Debug, PartialEq, Eq)]
pub struct ServiceCalendar {
    pub first_day: i32,
    pub last_day: i32,
    pub weekdays: [bool; 7],
}

/// The number of the day with the given year, month and day of the month
/// in the proleptic Gregorian calendar, 1 January of the year 1 being day 1;
/// `None` where the calendar holds no such day.
pub uninterp spec fn civil_day_number(year: i32, month: u32, day: u32) -> Option<i32>;

/// Calls `chrono::NaiveDate::from_ymd_opt` and, on the date it gives,
/// `chrono::Datelike::num_days_from_ce`: the number of the day, or `None`
/// where the date does not exist or lies outside the range of `NaiveDate`.
#[verifier::external_body]
fn day_number_of(year: i32, month: u32, day: u32) -> (n: Option<i32>)
    ensures
        n == civil_day_number(year, month, day),
{
    match NaiveDate::from_ymd_opt(year, month, day) {
        Some(date) => Some(date.num_days_from_ce()),
        None => None,
    }
}

/// The day of the week of the day with the given number, from 0 for Monday:
/// day 1 was a Monday.
pub open spec fn weekday_of(day_number: int) -> int {
    (day_number + 6) % 7
}

/// The service day with the given number.
pub open spec fn day_at(day_number: i32) -> ServiceDay {
    ServiceDay { day_number, weekday: weekday_of(day_number as int) as u8 }
}

/// The trip runs on the day.
pub open spec fn runs_on(calendar: ServiceCalendar, day: ServiceDay) -> bool {
    calendar.first_day <= day.day_number <= calendar.last_day && day.weekday < 7
        && calendar.weekdays[day.weekday as int]
}

/// The service day with the given number.
pub fn service_day_at(day_number: i32) -> (day: ServiceDay)
    ensures
        day == day_at(day_number),
        day.weekday < 7,
{
    // A multiple of seven that lifts every `i32` above zero.
    let lifted: i64 = day_number as i64 + 6 + 2_147_483_653;
    assert(2_147_483_653 == 7 * 306_783_379int);
    assert((day_number + 6 + 7 * 306_783_379int) % 7 == (day_number + 6) % 7) by {
        vstd::arithmetic::div_mod::lemma_mod_multiples_vanish(306_783_379, day_number + 6, 7);
    }
    ServiceDay { day_number, weekday: (lifted % 7) as u8 }
}

/// The service day with the given date, or `None` where there is no such date.
pub fn service_day(year: i32, month: u32, day: u32) -> (found: Option<ServiceDay>)
    ensures
        found == match civil_day_number(year, month, day) {
            Some(n) => Some(day_at(n)),
            None => None,
        },
{
    match day_number_of(year, month, day) {
        Some(n) => Some(service_day_at(n)),
        None => None,
    }
}

/// The day for which timetables are read where none is named: 4 April 2023.
pub fn present_day() -> (found: Option<ServiceDay>)
    ensures
        found == match civil_day_number(2023, 4, 4) {
            Some(n) => Some(day_at(n)),
            None => None,
        },
{
    service_day(2023, 4, 4)
}

impl ServiceCalendar {
    /// The calendar of a trip that runs on every day.
    pub fn always() -> (calendar: ServiceCalendar)
        ensures
            forall|day: ServiceDay| day.weekday < 7 ==> runs_on(calendar, day),
    {
        ServiceCalendar { first_day: i32::MIN, last_day: i32::MAX, weekdays: [true; 7] }
    }

    /// Tells whether the trip runs on the day.
    pub fn is_service_active(&self, day: &ServiceDay) -> (active: bool)
        ensures
            active == runs_on(*self, *day),
    {
        self.first_day <= day.day_number && day.day_number <= self.last_day && day.weekday < 7
            && self.weekdays[day.weekday as usize]
    }
}

} // verus!
