use crate::calendar::{runs_on, ServiceCalendar, ServiceDay};
use crate::geometry::Point;
use crate::time::Time;
use vstd::prelude::*;

verus! {

/// Direction of travel of a trip along its route.
#[derive(Clone, Copy, Debug, PartialEq, Eq, Structural)]
pub enum DirectionType {
    Outbound,
    Inbound,
}

/// A transit stop: the agency that serves it and where it lies in the plane.
#[derive(Clone, Copy, Debug, PartialEq, Eq, Structural)]
pub struct Stop {
    pub agency: u8,
    pub position: Point,
}

/// One scheduled call of a trip at a stop.
///
/// `stop` is the position of the stop in the timetable's list of stops.
#[derive(Clone, Copy, Debug, PartialEq, Eq, Structural)]
pub struct StopTime {
    pub stop: u64,
    pub stop_sequence: u16,
    pub arrival: Time,
    pub departure: Time,
}

/// A scheduled trip with its calls in the order in which it makes them.
#[derive(Clone, Debug)]
pub struct Trip {
    pub agency: u8,
    pub direction: DirectionType,
    pub service: ServiceCalendar,
    pub stop_times: Vec<StopTime>,
}

/// The mathematical content of a `Trip`.
pub struct TripView {
    pub agency: u8,
    pub direction: DirectionType,
    pub service: ServiceCalendar,
    pub stop_times: Seq<StopTime>,
}

impl View for Trip {
    type V = TripView;

    open spec fn view(&self) -> TripView {
        TripView {
            agency: self.agency,
            direction: self.direction,
            service: self.service,
            stop_times: self.stop_times@,
        }
    }
}

/// The timetable of one or more agencies: stops, and trips that call at them.
///
/// A trip is identified by the pair of its agency and its position in `trips`.
#[derive(Clone, Debug)]
pub struct Gtfs1 {
    pub stops: Vec<Stop>,
    pub trips: Vec<Trip>,
}

/// The mathematical content of a timetable.
pub struct TimetableView {
    pub stops: Seq<Stop>,
    pub trips: Seq<TripView>,
}

impl View for Gtfs1 {
    type V = TimetableView;

    open spec fn view(&self) -> TimetableView {
        TimetableView { stops: self.stops@, trips: self.trips@.map_values(|t: Trip| t@) }
    }
}

/// The call `st` with its stop reference moved up by `offset` places; a
/// reference that would leave the range of `u64` stays at its upper end.
pub open spec fn shift_stop_time(st: StopTime, offset: nat) -> StopTime {
    StopTime {
        stop: if st.stop + offset > u64::MAX {
            u64::MAX
        } else {
            (st.stop + offset) as u64
        },
        stop_sequence: st.stop_sequence,
        arrival: st.arrival,
        departure: st.departure,
    }
}

/// The trip `t` with every stop reference moved up by `offset` places.
pub open spec fn shift_trip(t: TripView, offset: nat) -> TripView {
    TripView {
        agency: t.agency,
        direction: t.direction,
        service: t.service,
        stop_times: t.stop_times.map_values(|st: StopTime| shift_stop_time(st, offset)),
    }
}

/// The timetable that holds the stops and trips of `a` followed by those of
/// `b`, the trips of `b` referring to their stops at the new positions.
pub open spec fn merge_model(a: TimetableView, b: TimetableView) -> TimetableView {
    TimetableView {
        stops: a.stops + b.stops,
        trips: a.trips + b.trips.map_values(|t: TripView| shift_trip(t, a.stops.len())),
    }
}

/// The trip as it is on the given day: with its calls where it runs, without
/// any where it does not.
pub open spec fn trip_on_day(t: TripView, day: ServiceDay) -> TripView {
    TripView {
        agency: t.agency,
        direction: t.direction,
        service: t.service,
        stop_times: if runs_on(t.service, day) {
            t.stop_times
        } else {
            Seq::empty()
        },
    }
}

/// The timetable of the given day: the same stops and trips, the trips that
/// do not run on that day being without calls.
pub open spec fn day_model(tt: TimetableView, day: ServiceDay) -> TimetableView {
    TimetableView { stops: tt.stops, trips: tt.trips.map_values(|t: TripView| trip_on_day(t, day)) }
}

/// The timetables of `feeds` merged from left to right into an empty one.
pub open spec fn merge_all(feeds: Seq<TimetableView>) -> TimetableView
    decreases feeds.len(),
{
    if feeds.len() == 0 {
        TimetableView { stops: Seq::empty(), trips: Seq::empty() }
    } else {
        merge_model(merge_all(feeds.drop_last()), feeds.last())
    }
}

impl Gtfs1 {
    /// A timetable without stops or trips.
    pub fn new() -> (tt: Gtfs1)
        ensures
            tt@.stops.len() == 0,
            tt@.trips.len() == 0,
    {
        Gtfs1 { stops: Vec::new(), trips: Vec::new() }
    }

    /// Appends the stops and trips of `other`, keeping every trip of `other`
    /// attached to its own stops.
    pub fn merge(&mut self, other: &Gtfs1)
        ensures
            final(self)@ == merge_model(old(self)@, other@),
    {
        let offset: usize = self.stops.len();
        let ghost before = self@;
        let mut i: usize = 0;
        while i < other.stops.len()
            invariant
                i <= other.stops@.len(),
                offset == before.stops.len(),
                self.stops@ == before.stops + other.stops@.subrange(0, i as int),
                self.trips@ == old(self).trips@,
            decreases other.stops@.len() - i,
        {
            self.stops.push(other.stops[i]);
            i += 1;
        }
        assert(other.stops@.subrange(0, i as int) =~= other.stops@);
        let mut t: usize = 0;
        while t < other.trips.len()
            invariant
                t <= other.trips@.len(),
                offset == before.stops.len(),
                self.stops@ == before.stops + other.stops@,
                self.trips@.len() == before.trips.len() + t,
                forall|j: int|
                    0 <= j < before.trips.len() ==> (#[trigger] self.trips@[j])@ == before.trips[j],
                forall|j: int|
                    0 <= j < t ==> (#[trigger] self.trips@[before.trips.len() + j])@ == shift_trip(
                        other.trips@[j]@,
                        offset as nat,
                    ),
                before.trips.len() == old(self).trips@.len(),
            decreases other.trips@.len() - t,
        {
            let trip = &other.trips[t];
            let mut calls: Vec<StopTime> = Vec::new();
            let mut k: usize = 0;
            while k < trip.stop_times.len()
                invariant
                    k <= trip.stop_times@.len(),
                    calls@.len() == k,
                    forall|j: int|
                        0 <= j < k ==> #[trigger] calls@[j] == shift_stop_time(
                            trip.stop_times@[j],
                            offset as nat,
                        ),
                decreases trip.stop_times@.len() - k,
            {
                let st = trip.stop_times[k];
                calls.push(
                    StopTime {
                        stop: st.stop.saturating_add(offset as u64),
                        stop_sequence: st.stop_sequence,
                        arrival: st.arrival,
                        departure: st.departure,
                    },
                );
                k += 1;
            }
            let moved = Trip {
                agency: trip.agency,
                direction: trip.direction,
                service: trip.service,
                stop_times: calls,
            };
            assert(moved@.stop_times =~= shift_trip(trip@, offset as nat).stop_times);
            self.trips.push(moved);
            t += 1;
        }
        proof {
            let merged = merge_model(before, other@);
            assert(self@.trips.len() == merged.trips.len());
            assert forall|j: int| 0 <= j < merged.trips.len() implies self@.trips[j]
                == merged.trips[j] by {
                if j >= before.trips.len() {
                    let r = j - before.trips.len();
                    assert(self.trips@[before.trips.len() + r]@ == shift_trip(
                        other.trips@[r]@,
                        offset as nat,
                    ));
                } else {
                    assert(self.trips@[j]@ == before.trips[j]);
                }
            }
            assert(self@.trips =~= merged.trips);
        }
    }

    /// The timetable of the given day. Trips keep their places, so that
    /// their identifiers stay the same; those that do not run lose their calls.
    pub fn on_day(&self, day: &ServiceDay) -> (tt: Gtfs1)
        ensures
            tt@ == day_model(self@, *day),
    {
        let mut stops: Vec<Stop> = Vec::new();
        let mut i: usize = 0;
        while i < self.stops.len()
            invariant
                i <= self.stops@.len(),
                stops@ == self.stops@.subrange(0, i as int),
            decreases self.stops@.len() - i,
        {
            stops.push(self.stops[i]);
            assert(stops@ =~= self.stops@.subrange(0, i + 1));
            i += 1;
        }
        assert(stops@ =~= self.stops@);
        let mut trips: Vec<Trip> = Vec::new();
        let mut t: usize = 0;
        while t < self.trips.len()
            invariant
                t <= self.trips@.len(),
                trips@.len() == t,
                forall|j: int| 0 <= j < t ==> (#[trigger] trips@[j])@ == trip_on_day(self.trips@[j]@, *day),
            decreases self.trips@.len() - t,
        {
            let trip = &self.trips[t];
            let mut calls: Vec<StopTime> = Vec::new();
            if trip.service.is_service_active(day) {
                let mut k: usize = 0;
                while k < trip.stop_times.len()
                    invariant
                        k <= trip.stop_times@.len(),
                        calls@ == trip.stop_times@.subrange(0, k as int),
                    decreases trip.stop_times@.len() - k,
                {
                    calls.push(trip.stop_times[k]);
                    assert(calls@ =~= trip.stop_times@.subrange(0, k + 1));
                    k += 1;
                }
                assert(calls@ =~= trip.stop_times@);
            }
            let kept = Trip {
                agency: trip.agency,
                direction: trip.direction,
                service: trip.service,
                stop_times: calls,
            };
            assert(kept@.stop_times =~= trip_on_day(trip@, *day).stop_times);
            trips.push(kept);
            t += 1;
        }
        let tt = Gtfs1 { stops, trips };
        proof {
            let wanted = day_model(self@, *day);
            assert(tt@.trips.len() == wanted.trips.len());
            assert forall|j: int| 0 <= j < wanted.trips.len() implies tt@.trips[j]
                == wanted.trips[j] by {
                assert(tt.trips@[j]@ == trip_on_day(self.trips@[j]@, *day));
            }
            assert(tt@.trips =~= wanted.trips);
        }
        tt
    }
}

} // verus!
