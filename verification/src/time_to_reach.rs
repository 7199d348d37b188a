use crate::geometry::{dist2, Point};
use crate::gtfs_wrapper::TimetableView;
use crate::pickup::{
    boardable, calls_ordered, countable, is_earliest_pickup, lemma_earliest_pickup_unique,
    pickup_of, stops_known, trips_ordered, PickupIndex,
};
use crate::reach_data::TimeToReachRTree;
use crate::road_structure::{walk_reach, walk_time, RoadModel, RoadStructure};
use crate::time::Time;
use crate::trips_arena::{
    fresh_record, has_record, one_record_per_trip, InProgressTrip, TripsArena,
};
use crate::{BusPickupInfo, IdType};
use std::collections::HashSet;
use vstd::prelude::*;

verus! {

/// A place together with the time at which it is reached.
///
/// Places are the nodes of the road network, by position, and after them the
/// origin of the search.
#[derive(Clone, Copy, Debug, PartialEq, Eq, Structural)]
pub struct Label {
    pub place: usize,
    pub arrival: Time,
}

/// Everything that a search depends on, as the proofs see it.
pub struct SearchEnv {
    pub roads: RoadModel,
    pub timetable: TimetableView,
    pub origin: Point,
    pub start: int,
    pub deadline: int,
    pub agencies: Set<u8>,
}

impl SearchEnv {
    /// The place that stands for the origin.
    pub open spec fn origin_place(self) -> int {
        self.roads.nodes.len() as int
    }

    /// Where a place lies.
    pub open spec fn point(self, place: int) -> Point {
        if place == self.origin_place() {
            self.origin
        } else {
            self.roads.nodes[place]
        }
    }

    /// The label that the search starts from.
    pub open spec fn seed(self) -> Label {
        Label { place: self.origin_place() as usize, arrival: Time(self.start as u64) }
    }

    /// The parts fit together and lie within the limits of the machine.
    pub open spec fn wf(self) -> bool {
        &&& self.roads.constants.valid()
        &&& self.roads.nodes.len() < usize::MAX
        &&& self.roads.stop_count <= self.roads.nodes.len()
        &&& forall|i: int|
            0 <= i < self.roads.nodes.len() ==> (#[trigger] self.roads.nodes[i]).in_range()
        &&& self.origin.in_range()
        &&& countable(self.timetable)
        &&& stops_known(self.timetable)
        &&& trips_ordered(self.timetable)
        &&& 0 <= self.start <= self.deadline <= u64::MAX
    }

    /// An empty set of agencies admits every agency; any other set admits its members.
    pub open spec fn admits(self, agency: u8) -> bool {
        self.agencies.is_empty() || self.agencies.contains(agency)
    }

    /// How far a walk that starts at time `t` may lead, in millimetres.
    pub open spec fn walk_radius(self, t: int) -> int {
        walk_reach(self.roads, self.deadline - t)
    }

    /// Whoever stands at `from` can walk to the node of `to` and is there at
    /// the time of `to`, within the budget.
    pub open spec fn walk_step(self, from: Label, to: Label) -> bool {
        &&& from.place <= self.origin_place()
        &&& from.arrival.0 < self.deadline
        &&& to.place < self.roads.nodes.len()
        &&& dist2(self.roads.nodes[to.place as int], self.point(from.place as int))
            <= self.walk_radius(from.arrival.0 as int) * self.walk_radius(from.arrival.0 as int)
        &&& to.arrival.0 == from.arrival.0 + walk_time(
            self.roads,
            self.point(from.place as int),
            self.roads.nodes[to.place as int],
        )
        &&& to.arrival.0 <= self.deadline
    }

    /// `from` is a stop at which a rider may board.
    pub open spec fn boards_at(self, from: Label) -> bool {
        &&& from.arrival.0 < self.deadline
        &&& from.place < self.roads.stop_count
        &&& from.place < self.timetable.stops.len()
        &&& self.admits(self.timetable.stops[from.place as int].agency)
    }

    /// Call `k` of the trip of pickup `ev` lies after the pickup, and that
    /// call and every call between are reached within the budget.
    pub open spec fn rides_to(self, ev: BusPickupInfo, k: int) -> bool {
        let calls = self.timetable.trips[ev.trip_id.1 as int].stop_times;
        &&& 0 <= k < calls.len()
        &&& calls[k].stop_sequence > ev.stop_sequence_no
        &&& forall|j: int|
            0 <= j <= k && (#[trigger] calls[j]).stop_sequence > ev.stop_sequence_no
                ==> calls[j].arrival.0 <= self.deadline
    }

    /// Whoever stands at `from` boards pickup `ev`: the earliest that leaves
    /// the stop once the transfer time has passed.
    pub open spec fn boards(self, from: Label, ev: BusPickupInfo) -> bool {
        &&& self.boards_at(from)
        &&& is_earliest_pickup(
            self.timetable,
            from.place as u64,
            from.arrival.0 + self.roads.constants.min_transfer,
            ev,
        )
    }

    /// Whoever stands at `from` boards the trip `trip_id`.
    pub open spec fn boards_trip(self, from: Label, trip_id: IdType) -> bool {
        exists|ev: BusPickupInfo| #[trigger] self.boards(from, ev) && ev.trip_id == trip_id
    }

    /// Whoever stands at `from` boards the trip `trip_id` and is carried to
    /// its call `k` within the budget.
    pub open spec fn carried_to(self, from: Label, trip_id: IdType, k: int) -> bool {
        exists|ev: BusPickupInfo| #[trigger]
            self.boards(from, ev) && ev.trip_id == trip_id && self.rides_to(ev, k)
    }

    /// The record of the trip `trip_id` when it stands at its call `k`.
    pub open spec fn record_at(self, trip_id: IdType, k: int) -> InProgressTrip {
        InProgressTrip {
            trip_id,
            stop_sequence_no: self.timetable.trips[trip_id.1 as int].stop_times[k].stop_sequence,
            arrival: self.timetable.trips[trip_id.1 as int].stop_times[k].arrival,
        }
    }

    /// What expanding `from` makes of a record: the record stays with its
    /// trip and stands at the furthest call that it stood at before or that
    /// a rider who boards at `from` is carried to.
    pub open spec fn ridden(self, from: Label, before: InProgressTrip, after: InProgressTrip) -> bool {
        &&& after.trip_id == before.trip_id
        &&& after.stop_sequence_no >= before.stop_sequence_no
        &&& after == before || exists|k: int| #[trigger]
            self.carried_to(from, after.trip_id, k) && after == self.record_at(after.trip_id, k)
        &&& forall|k: int| #[trigger]
            self.carried_to(from, after.trip_id, k) ==> self.record_at(
                after.trip_id,
                k,
            ).stop_sequence_no <= after.stop_sequence_no
    }

    /// Whoever stands at `from` boards pickup `ev` and leaves the trip at its
    /// call `k`, which is `to`.
    pub open spec fn rides(self, from: Label, ev: BusPickupInfo, k: int, to: Label) -> bool {
        let calls = self.timetable.trips[ev.trip_id.1 as int].stop_times;
        &&& self.boards(from, ev)
        &&& self.rides_to(ev, k)
        &&& calls[k].stop < self.roads.stop_count
        &&& to.place == calls[k].stop
        &&& to.arrival == calls[k].arrival
    }

    /// Whoever stands at `from` reaches `to` by one boarding: on the earliest
    /// pickup that leaves the stop once the transfer time has passed.
    pub open spec fn ride_step(self, from: Label, to: Label) -> bool {
        exists|ev: BusPickupInfo, k: int| #[trigger] self.rides(from, ev, k, to)
    }

    /// `to` follows from `from` by one walk or one ride.
    pub open spec fn step(self, from: Label, to: Label) -> bool {
        self.walk_step(from, to) || self.ride_step(from, to)
    }
}

/// The order in which pending labels are settled: by time, then by place.
pub open spec fn label_le(a: Label, b: Label) -> bool {
    a.arrival.0 < b.arrival.0 || (a.arrival.0 == b.arrival.0 && a.place <= b.place)
}

/// Some settled label is at the place of `l` and no later than `l`.
pub open spec fn settled_by(order: Seq<Label>, l: Label) -> bool {
    exists|i: int|
        0 <= i < order.len() && (#[trigger] order[i]).place == l.place && order[i].arrival.0
            <= l.arrival.0
}

/// What a finished search has found, `order` being the settled labels in
/// the order in which they were settled.
///
/// The origin comes first, at the start time. No place is settled twice, no
/// label lies beyond the budget, and times never fall along the order. Every
/// other label follows by one step from a label settled before it, and
/// whatever follows by one step from a settled label is itself settled, no
/// later.
pub open spec fn is_reach_field(env: SearchEnv, order: Seq<Label>) -> bool {
    &&& order.len() >= 1
    &&& order[0] == env.seed()
    &&& forall|i: int|
        0 <= i < order.len() ==> (#[trigger] order[i]).place <= env.origin_place() && env.start
            <= order[i].arrival.0 <= env.deadline
    &&& forall|i: int, j: int|
        0 <= i < j < order.len() ==> (#[trigger] order[i]).place != (#[trigger] order[j]).place
            && order[i].arrival.0 <= order[j].arrival.0
    &&& forall|i: int|
        1 <= i < order.len() ==> exists|j: int| 0 <= j < i && env.step(order[j], #[trigger] order[i])
    &&& forall|j: int, l: Label|
        0 <= j < order.len() && #[trigger] env.step(order[j], l) ==> settled_by(order, l)
}

/// A step never leads back in time.
pub proof fn lemma_step_forward(env: SearchEnv, from: Label, to: Label)
    requires
        env.wf(),
        env.step(from, to),
    ensures
        from.arrival.0 <= to.arrival.0 <= env.deadline,
        to.place < env.roads.nodes.len(),
{
    if env.ride_step(from, to) {
        let (ev, k) = choose|ev: BusPickupInfo, k: int| #[trigger] env.rides(from, ev, k, to);
        lemma_ride_forward(env, from, ev, k, to);
    }
}

/// A ride reaches its destination no sooner than the transfer time after
/// the rider reached the stop.
pub proof fn lemma_ride_forward(env: SearchEnv, from: Label, ev: BusPickupInfo, k: int, to: Label)
    requires
        env.wf(),
        env.rides(from, ev, k, to),
    ensures
        from.arrival.0 + env.roads.constants.min_transfer <= ev.timestamp.0 <= to.arrival.0
            <= env.deadline,
        to.place < env.roads.stop_count,
{
    let tt = env.timetable;
    let (t, b) = choose|t: int, b: int|
        boardable(tt, t, b) && tt.trips[t].stop_times[b].stop == from.place as u64
            && #[trigger] pickup_of(tt, t, b) == ev;
    assert(ev.trip_id.1 == t as u64);
    let calls = tt.trips[t].stop_times;
    assert(calls_ordered(calls));
    if k <= b {
        if k < b {
            assert(calls[k].stop_sequence < calls[b].stop_sequence);
        }
    } else {
        assert(calls[b].departure.0 <= calls[k].arrival.0);
    }
    assert(calls[k].arrival.0 <= env.deadline);
}

/// Takes the first label, by time and then by place, out of the queue.
pub fn pop_min(queue: &mut Vec<Label>) -> (first: Label)
    requires
        old(queue)@.len() > 0,
    ensures
        old(queue)@.contains(first),
        forall|l: Label| old(queue)@.contains(l) ==> label_le(first, l),
        final(queue)@.to_multiset() == old(queue)@.to_multiset().remove(first),
        final(queue)@.len() + 1 == old(queue)@.len(),
        forall|l: Label| old(queue)@.contains(l) && l != first ==> final(queue)@.contains(l),
        forall|l: Label| final(queue)@.contains(l) ==> old(queue)@.contains(l),
{
    let mut m: usize = 0;
    let mut i: usize = 1;
    while i < queue.len()
        invariant
            m < i <= queue@.len(),
            queue@ == old(queue)@,
            forall|j: int| 0 <= j < i ==> label_le(queue@[m as int], #[trigger] queue@[j]),
        decreases queue@.len() - i,
    {
        let a = queue[i];
        let b = queue[m];
        if a.arrival.0 < b.arrival.0 || (a.arrival.0 == b.arrival.0 && a.place < b.place) {
            m = i;
        }
        i += 1;
    }
    let ghost before = queue@;
    let first = queue.swap_remove(m);
    proof {
        let after = queue@;
        assert(before[m as int] == first);
        let swapped = before.update(m as int, before.last());
        vstd::seq_lib::to_multiset_update(before, m as int, before.last());
        vstd::seq_lib::to_multiset_remove(swapped, swapped.len() - 1);
        assert(after =~= swapped.remove(swapped.len() - 1));
        before.to_multiset_ensures();
        assert(after.to_multiset() =~= before.to_multiset().remove(first));
        assert forall|l: Label| before.contains(l) && l != first implies after.contains(l) by {
            let j = choose|j: int| 0 <= j < before.len() && before[j] == l;
            if j == before.len() - 1 {
                assert(after[m as int] == l);
            } else {
                assert(after[j] == l);
            }
        }
        assert forall|l: Label| after.contains(l) implies before.contains(l) by {
            let j = choose|j: int| 0 <= j < after.len() && after[j] == l;
            if j == m {
                assert(before[before.len() - 1] == l);
            } else {
                assert(before[j] == l);
            }
        }
    }
    first
}

/// The search's view of its inputs.
pub open spec fn env_of(
    roads: RoadModel,
    timetable: TimetableView,
    origin: Point,
    start: Time,
    duration: u64,
    agencies: Set<u8>,
) -> SearchEnv {
    SearchEnv {
        roads,
        timetable,
        origin,
        start: start.0 as int,
        deadline: start.0 + duration,
        agencies,
    }
}

/// `x` is one of the first `k` items of `items`.
pub open spec fn among_first(items: Seq<usize>, k: int, x: usize) -> bool {
    exists|j: int| 0 <= j < k && j < items.len() && #[trigger] items[j] == x
}

/// Pushes a label for every node that can be walked to from `from` within the budget.
#[verifier::rlimit(60)]
fn expand_walking(
    roads: &RoadStructure,
    queue: &mut Vec<Label>,
    from: Label,
    from_point: Point,
    deadline: u64,
    Ghost(env): Ghost<SearchEnv>,
)
    requires
        roads.wf(),
        env.wf(),
        env.roads == roads.model(),
        env.deadline == deadline,
        from.place <= env.origin_place(),
        from_point == env.point(from.place as int),
        from.arrival.0 < deadline,
    ensures
        final(queue)@.len() >= old(queue)@.len(),
        final(queue)@.subrange(0, old(queue)@.len() as int) == old(queue)@,
        forall|i: int|
            old(queue)@.len() <= i < final(queue)@.len() ==> env.walk_step(
                from,
                #[trigger] final(queue)@[i],
            ),
        forall|l: Label| #[trigger] env.walk_step(from, l) ==> final(queue)@.contains(l),
{
    let remaining: u64 = deadline - from.arrival.0;
    let radius = roads.reach(remaining);
    let found = roads.nodes_within(from_point, radius);
    let field = roads.walk_field(from_point, remaining);
    let ghost before = queue@;
    let mut k: usize = 0;
    proof {
        roads.lemma_model();
        assert(queue@.subrange(0, before.len() as int) =~= before);
    }
    while k < found.len()
        invariant
            roads.wf(),
            env.wf(),
            env.roads == roads.model(),
            env.deadline == deadline,
            from.place <= env.origin_place(),
            from_point == env.point(from.place as int),
            from.arrival.0 < deadline,
            remaining == deadline - from.arrival.0,
            field.wf(roads.model()),
            field.origin() == from_point,
            field.budget() == remaining,
            radius == env.walk_radius(from.arrival.0 as int),
            k <= found@.len(),
            forall|j: int|
                0 <= j < found@.len() ==> (#[trigger] found@[j]) < env.roads.nodes.len() && dist2(
                    env.roads.nodes[found@[j] as int],
                    from_point,
                ) <= radius * radius,
            queue@.len() >= before.len(),
            queue@.subrange(0, before.len() as int) == before,
            forall|i: int|
                before.len() <= i < queue@.len() ==> env.walk_step(from, #[trigger] queue@[i]),
            forall|l: Label| #[trigger]
                env.walk_step(from, l) && among_first(found@, k as int, l.place)
                    ==> queue@.contains(l),
        decreases found@.len() - k,
    {
        let c = found[k];
        let target = roads.position(c);
        let ghost t = walk_time(env.roads, from_point, target);
        let ghost prior = queue@;
        match roads.walk_time_within(&field, target) {
            Some(walk) => {
                let label = Label { place: c, arrival: Time(from.arrival.0 + walk) };
                queue.push(label);
                assert(queue@[prior.len() as int] == label);
            },
            None => {},
        }
        proof {
            assert(queue@.subrange(0, before.len() as int) =~= prior.subrange(
                0,
                before.len() as int,
            ));
            assert forall|l: Label| #[trigger]
                env.walk_step(from, l) && among_first(
                    found@,
                    k + 1,
                    l.place,
                ) implies queue@.contains(l) by {
                let j = choose|j: int| 0 <= j < k + 1 && j < found@.len() && #[trigger] found@[j] == l.place;
                if j < k {
                    assert(among_first(found@, k as int, l.place));
                    assert(prior.contains(l));
                    let m = choose|m: int| 0 <= m < prior.len() && prior[m] == l;
                    assert(queue@[m] == l);
                } else {
                    assert(l.arrival.0 == from.arrival.0 + t);
                    assert(queue@[prior.len() as int] == l);
                }
            }
        }
        k += 1;
    }
    proof {
        assert forall|l: Label| #[trigger] env.walk_step(from, l) implies queue@.contains(l) by {
            assert(found@.contains(l.place));
            let j = choose|j: int| 0 <= j < found@.len() && found@[j] == l.place;
            assert(among_first(found@, k as int, l.place));
        }
    }
}

/// Tells whether the filter admits the agency: an empty filter admits all.
fn filter_admits(agencies: &HashSet<u8>, agency: u8) -> (ok: bool)
    ensures
        ok == (agencies@.is_empty() || agencies@.contains(agency)),
{
    broadcast use vstd::std_specs::hash::group_hash_axioms;

    agencies.is_empty() || agencies.contains(&agency)
}

/// What expanding `from` does to the records of the arena: those that were
/// there are ridden on, new ones are of trips boarded at `from` and ridden
/// from their start, and every trip boarded at `from` has a record.
pub open spec fn boarded_as(
    env: SearchEnv,
    from: Label,
    before: Seq<InProgressTrip>,
    after: Seq<InProgressTrip>,
) -> bool {
    &&& after.len() >= before.len()
    &&& forall|i: int| 0 <= i < before.len() ==> env.ridden(from, before[i], #[trigger] after[i])
    &&& forall|i: int|
        before.len() <= i < after.len() ==> env.boards_trip(from, (#[trigger] after[i]).trip_id)
            && env.ridden(from, fresh_record(after[i].trip_id), after[i])
    &&& forall|ev: BusPickupInfo| #[trigger] env.boards(from, ev) ==> has_record(after, ev.trip_id)
}

/// Where nothing can be boarded at `from`, no ride starts there.
proof fn lemma_no_boarding(
    env: SearchEnv,
    from: Label,
    queue: Seq<Label>,
    records: Seq<InProgressTrip>,
)
    requires
        forall|ev: BusPickupInfo| !#[trigger] env.boards(from, ev),
    ensures
        forall|l: Label| #[trigger] env.ride_step(from, l) ==> queue.contains(l),
        boarded_as(env, from, records, records),
{
    assert forall|l: Label| #[trigger] env.ride_step(from, l) implies queue.contains(l) by {
        let (ev, k) = choose|ev: BusPickupInfo, k: int| #[trigger] env.rides(from, ev, k, l);
        assert(env.boards(from, ev));
    }
    assert forall|i: int| 0 <= i < records.len() implies env.ridden(
        from,
        records[i],
        #[trigger] records[i],
    ) by {
        assert forall|k: int| !#[trigger] env.carried_to(from, records[i].trip_id, k) by {
            if env.carried_to(from, records[i].trip_id, k) {
                let ev = choose|ev: BusPickupInfo| #[trigger]
                    env.boards(from, ev) && ev.trip_id == records[i].trip_id && env.rides_to(ev, k);
            }
        }
    }
}

/// Boards the earliest trip that leaves the stop of `from` once the transfer
/// time has passed, and pushes a label for every later call of that trip
/// until one lies beyond the budget.
#[verifier::rlimit(60)]
fn expand_transit(
    roads: &RoadStructure,
    pickups: &PickupIndex,
    agencies: &HashSet<u8>,
    arena: &mut TripsArena,
    queue: &mut Vec<Label>,
    from: Label,
    deadline: u64,
    Ghost(env): Ghost<SearchEnv>,
)
    requires
        roads.wf(),
        pickups.wf(),
        old(arena).wf(),
        env.wf(),
        env.roads == roads.model(),
        env.timetable == pickups.model(),
        env.agencies == agencies@,
        env.deadline == deadline,
        from.arrival.0 < deadline,
    ensures
        final(arena).wf(),
        boarded_as(env, from, old(arena)@, final(arena)@),
        final(queue)@.len() >= old(queue)@.len(),
        final(queue)@.subrange(0, old(queue)@.len() as int) == old(queue)@,
        forall|i: int|
            old(queue)@.len() <= i < final(queue)@.len() ==> env.ride_step(
                from,
                #[trigger] final(queue)@[i],
            ),
        forall|l: Label| #[trigger] env.ride_step(from, l) ==> final(queue)@.contains(l),
{
    let ghost before = queue@;
    let ghost records = arena@;
    let ghost tt = env.timetable;
    let ghost wait = from.arrival.0 + env.roads.constants.min_transfer;
    proof {
        assert(queue@.subrange(0, before.len() as int) =~= before);
        pickups.lemma_model_sound();
    }
    let timetable = pickups.timetable();
    if from.place >= roads.stop_count() || from.place >= timetable.stops.len() {
        proof {
            lemma_no_boarding(env, from, queue@, arena@);
        }
        return ;
    }
    let agency = timetable.stops[from.place].agency;
    if !filter_admits(agencies, agency) {
        proof {
            lemma_no_boarding(env, from, queue@, arena@);
        }
        return ;
    }
    let not_before = match from.arrival.checked_after(roads.constants().min_transfer) {
        Some(t) => t,
        None => {
            proof {
                lemma_no_boarding(env, from, queue@, arena@);
            }
            return ;
        },
    };
    let ev = match pickups.next_departure(from.place as u64, not_before) {
        Some(e) => e,
        None => {
            proof {
                assert forall|ev: BusPickupInfo| !#[trigger] env.boards(from, ev) by {
                    if env.boards(from, ev) {
                        assert(crate::pickup::is_pickup_at(tt, from.place as u64, ev));
                    }
                }
                lemma_no_boarding(env, from, queue@, arena@);
            }
            return ;
        },
    };
    proof {
        let (t, b) = choose|t: int, b: int|
            boardable(tt, t, b) && tt.trips[t].stop_times[b].stop == from.place as u64
                && #[trigger] pickup_of(tt, t, b) == ev;
        assert(ev.trip_id.1 == t as u64);
        assert(env.boards(from, ev));
    }
    let trip = &timetable.trips[ev.trip_id.1 as usize];
    let ghost calls = tt.trips[ev.trip_id.1 as int].stop_times;
    assert(calls == trip.stop_times@);
    let handle = arena.get_or_create(ev.trip_id);
    let ghost boarded = arena@;
    let stop_count = roads.stop_count();
    let mut k: usize = 0;
    while k < trip.stop_times.len()
        invariant
            env.wf(),
            arena.wf(),
            handle < arena@.len(),
            records == old(arena)@,
            one_record_per_trip(records),
            boarded.len() == arena@.len(),
            boarded == records || boarded == records.push(fresh_record(ev.trip_id)),
            boarded[handle as int].trip_id == ev.trip_id,
            forall|i: int| 0 <= i < boarded.len() && i != handle ==> #[trigger] arena@[i] == boarded[i],
            arena@[handle as int].trip_id == ev.trip_id,
            arena@[handle as int].stop_sequence_no >= boarded[handle as int].stop_sequence_no,
            arena@[handle as int] == boarded[handle as int] || exists|j: int|
                0 <= j < k && #[trigger] env.rides_to(ev, j) && arena@[handle as int]
                    == env.record_at(ev.trip_id, j),
            forall|j: int|
                0 <= j < k && #[trigger] env.rides_to(ev, j) ==> calls[j].stop_sequence
                    <= arena@[handle as int].stop_sequence_no,
            env.roads == roads.model(),
            env.timetable == tt,
            env.deadline == deadline,
            wait == from.arrival.0 + env.roads.constants.min_transfer,
            stop_count == env.roads.stop_count,
            calls == trip.stop_times@,
            calls == tt.trips[ev.trip_id.1 as int].stop_times,
            env.boards(from, ev),
            k <= calls.len(),
            before == old(queue)@,
            forall|j: int|
                0 <= j < k && (#[trigger] calls[j]).stop_sequence > ev.stop_sequence_no
                    ==> calls[j].arrival.0 <= deadline,
            queue@.len() >= before.len(),
            queue@.subrange(0, before.len() as int) == before,
            forall|i: int|
                before.len() <= i < queue@.len() ==> env.ride_step(from, #[trigger] queue@[i]),
            forall|l: Label, j: int|
                0 <= j < k && #[trigger] env.rides(from, ev, j, l) ==> queue@.contains(l),
        decreases calls.len() - k,
    {
        let call = trip.stop_times[k];
        if call.stop_sequence > ev.stop_sequence_no {
            if call.arrival.0 > deadline {
                proof {
                    assert forall|l: Label| #[trigger] env.ride_step(
                        from,
                        l,
                    ) implies queue@.contains(l) by {
                        let (ev2, j) = choose|ev2: BusPickupInfo, j: int| #[trigger]
                            env.rides(from, ev2, j, l);
                        lemma_earliest_pickup_unique(tt, from.place as u64, wait, ev, ev2);
                        if j >= k {
                            assert(calls[k as int].stop_sequence > ev.stop_sequence_no);
                        }
                    }
                    assert forall|j: int| #[trigger] env.rides_to(ev, j) implies calls[j].stop_sequence
                        <= arena@[handle as int].stop_sequence_no by {
                        if j >= k {
                            assert(calls[k as int].stop_sequence > ev.stop_sequence_no);
                        }
                    }
                    lemma_ridden(env, from, ev, records, boarded, arena@, handle as int);
                }
                return ;
            }
            let ghost riding = arena@;
            arena.advance(handle, call.stop_sequence, call.arrival);
            proof {
                assert(env.rides_to(ev, k as int));
                if call.stop_sequence > riding[handle as int].stop_sequence_no {
                    assert(arena@[handle as int] == env.record_at(ev.trip_id, k as int));
                } else if riding[handle as int] != boarded[handle as int] {
                    let j = choose|j: int|
                        0 <= j < k && #[trigger] env.rides_to(ev, j) && riding[handle as int]
                            == env.record_at(ev.trip_id, j);
                    assert(0 <= j < k + 1 && env.rides_to(ev, j));
                }
            }
            let ghost prior = queue@;
            if call.stop < stop_count as u64 {
                let label = Label { place: call.stop as usize, arrival: call.arrival };
                queue.push(label);
                proof {
                    assert(queue@[prior.len() as int] == label);
                    assert(env.rides_to(ev, k as int));
                    assert(env.rides(from, ev, k as int, label));
                }
            }
            proof {
                assert(queue@.subrange(0, before.len() as int) =~= prior.subrange(
                    0,
                    before.len() as int,
                ));
                assert forall|l: Label, j: int|
                    0 <= j < k + 1 && #[trigger] env.rides(from, ev, j, l) implies queue@.contains(
                    l,
                ) by {
                    if j < k {
                        assert(prior.contains(l));
                        let m = choose|m: int| 0 <= m < prior.len() && prior[m] == l;
                        assert(queue@[m] == l);
                    } else {
                        assert(l.place == call.stop as usize && l.arrival == call.arrival);
                        assert(queue@[prior.len() as int] == l);
                    }
                }
            }
        }
        k += 1;
    }
    proof {
        assert forall|l: Label| #[trigger] env.ride_step(from, l) implies queue@.contains(l) by {
            let (ev2, j) = choose|ev2: BusPickupInfo, j: int| #[trigger] env.rides(from, ev2, j, l);
            lemma_earliest_pickup_unique(tt, from.place as u64, wait, ev, ev2);
        }
        lemma_ridden(env, from, ev, records, boarded, arena@, handle as int);
    }
}

/// After the trip of `ev` was boarded at `from` and its record moved to the
/// furthest call within the budget, the records are as expanding `from`
/// should leave them.
#[verifier::rlimit(60)]
proof fn lemma_ridden(
    env: SearchEnv,
    from: Label,
    ev: BusPickupInfo,
    before: Seq<InProgressTrip>,
    boarded: Seq<InProgressTrip>,
    after: Seq<InProgressTrip>,
    handle: int,
)
    requires
        env.boards(from, ev),
        one_record_per_trip(before),
        one_record_per_trip(after),
        boarded == before || boarded == before.push(fresh_record(ev.trip_id)),
        after.len() == boarded.len(),
        0 <= handle < boarded.len(),
        boarded[handle].trip_id == ev.trip_id,
        forall|i: int| 0 <= i < boarded.len() && i != handle ==> #[trigger] after[i] == boarded[i],
        after[handle].trip_id == ev.trip_id,
        after[handle].stop_sequence_no >= boarded[handle].stop_sequence_no,
        after[handle] == boarded[handle] || exists|j: int| #[trigger]
            env.rides_to(ev, j) && after[handle] == env.record_at(ev.trip_id, j),
        forall|j: int| #[trigger]
            env.rides_to(ev, j) ==> env.record_at(ev.trip_id, j).stop_sequence_no
                <= after[handle].stop_sequence_no,
    ensures
        boarded_as(env, from, before, after),
{
    let wait = from.arrival.0 + env.roads.constants.min_transfer;
    assert forall|o: BusPickupInfo| #[trigger] env.boards(from, o) implies o == ev by {
        lemma_earliest_pickup_unique(env.timetable, from.place as u64, wait, ev, o);
    }
    assert(has_record(after, ev.trip_id));
    assert forall|i: int| 0 <= i < after.len() implies env.ridden(
        from,
        if i < before.len() {
            before[i]
        } else {
            fresh_record(after[i].trip_id)
        },
        #[trigger] after[i],
    ) by {
        let was = if i < before.len() {
            before[i]
        } else {
            fresh_record(after[i].trip_id)
        };
        if i == handle {
            assert(was == boarded[handle]);
            if after[handle] != boarded[handle] {
                let j = choose|j: int| #[trigger]
                    env.rides_to(ev, j) && after[handle] == env.record_at(ev.trip_id, j);
                assert(env.boards(from, ev) && ev.trip_id == after[i].trip_id && env.rides_to(
                    ev,
                    j,
                ));
                assert(env.carried_to(from, after[i].trip_id, j));
            }
            assert forall|k: int| #[trigger]
                env.carried_to(from, after[i].trip_id, k) implies env.record_at(
                after[i].trip_id,
                k,
            ).stop_sequence_no <= after[i].stop_sequence_no by {
                let o = choose|o: BusPickupInfo| #[trigger]
                    env.boards(from, o) && o.trip_id == after[i].trip_id && env.rides_to(o, k);
                assert(o == ev);
            }
        } else {
            assert(after[i] == boarded[i]);
            if i >= before.len() {
                assert(boarded[i] == fresh_record(ev.trip_id));
                assert(after[handle].trip_id == after[i].trip_id);
            }
            assert(after[i].trip_id != after[handle].trip_id);
            assert forall|k: int| !#[trigger] env.carried_to(from, after[i].trip_id, k) by {
                if env.carried_to(from, after[i].trip_id, k) {
                    let o = choose|o: BusPickupInfo| #[trigger]
                        env.boards(from, o) && o.trip_id == after[i].trip_id && env.rides_to(o, k);
                    assert(o == ev);
                }
            }
        }
    }
    assert forall|i: int| before.len() <= i < after.len() implies env.boards_trip(
        from,
        (#[trigger] after[i]).trip_id,
    ) && env.ridden(from, fresh_record(after[i].trip_id), after[i]) by {
        assert(i == before.len());
        if i != handle {
            assert(after[i] == boarded[i]);
            assert(after[handle].trip_id == after[i].trip_id);
        }
        assert(env.boards(from, ev) && ev.trip_id == after[i].trip_id);
    }
}

/// Number of places that are not yet settled.
pub open spec fn unsettled(flags: Seq<bool>) -> nat
    decreases flags.len(),
{
    if flags.len() == 0 {
        0
    } else {
        unsettled(flags.drop_last()) + if flags.last() {
            0nat
        } else {
            1nat
        }
    }
}

/// Settling a place leaves one place fewer unsettled.
proof fn lemma_unsettled_falls(flags: Seq<bool>, i: int)
    requires
        0 <= i < flags.len(),
        !flags[i],
    ensures
        unsettled(flags.update(i, true)) + 1 == unsettled(flags),
    decreases flags.len(),
{
    let after = flags.update(i, true);
    if i == flags.len() - 1 {
        assert(after.drop_last() =~= flags.drop_last());
    } else {
        assert(after.drop_last() =~= flags.drop_last().update(i, true));
        lemma_unsettled_falls(flags.drop_last(), i);
    }
}

/// Some settled label leads to `l` by one step.
pub open spec fn follows(env: SearchEnv, order: Seq<Label>, l: Label) -> bool {
    exists|j: int| 0 <= j < order.len() && env.step(#[trigger] order[j], l)
}

/// The settled labels are sound: each within range and flagged, no place
/// twice, times never falling, the origin first, and every other label
/// following from an earlier one.
pub open spec fn order_ok(env: SearchEnv, order: Seq<Label>, flags: Seq<bool>) -> bool {
    &&& flags.len() == env.origin_place() + 1
    &&& forall|i: int|
        0 <= i < order.len() ==> (#[trigger] order[i]).place <= env.origin_place() && env.start
            <= order[i].arrival.0 <= env.deadline && flags[order[i].place as int]
    &&& forall|i: int, j: int|
        0 <= i < j < order.len() ==> (#[trigger] order[i]).place != (#[trigger] order[j]).place
            && order[i].arrival.0 <= order[j].arrival.0
    &&& forall|p: int|
        0 <= p < flags.len() && #[trigger] flags[p] ==> exists|i: int|
            0 <= i < order.len() && (#[trigger] order[i]).place == p
    &&& order.len() >= 1 ==> order[0] == env.seed()
    &&& forall|i: int|
        1 <= i < order.len() ==> exists|j: int| 0 <= j < i && env.step(order[j], #[trigger] order[i])
}

/// The pending labels are sound: each within range, none earlier than a
/// settled one, and each following from a settled one, but for the seed,
/// which alone is pending while nothing is settled.
pub open spec fn queue_ok(env: SearchEnv, order: Seq<Label>, queue: Seq<Label>) -> bool {
    &&& order.len() == 0 ==> queue == seq![env.seed()]
    &&& forall|q: int|
        0 <= q < queue.len() ==> (#[trigger] queue[q]).place <= env.origin_place() && env.start
            <= queue[q].arrival.0 <= env.deadline && (order.len() >= 1 ==> follows(
            env,
            order,
            queue[q],
        ))
    &&& forall|i: int, q: int|
        0 <= i < order.len() && 0 <= q < queue.len() ==> (#[trigger] order[i]).arrival.0 <= (
        #[trigger] queue[q]).arrival.0
}

/// Whatever follows from a settled label is settled no later, or pending.
pub open spec fn closed_so_far(env: SearchEnv, order: Seq<Label>, queue: Seq<Label>) -> bool {
    forall|j: int, l: Label|
        0 <= j < order.len() && #[trigger] env.step(order[j], l) ==> settled_by(order, l)
            || queue.contains(l)
}

/// What holds of a search between two pops: `order` are the settled labels,
/// `queue` the pending ones, `flags` tells which places are settled.
pub open spec fn search_inv(
    env: SearchEnv,
    order: Seq<Label>,
    queue: Seq<Label>,
    flags: Seq<bool>,
) -> bool {
    order_ok(env, order, flags) && queue_ok(env, order, queue) && closed_so_far(env, order, queue)
}

/// `rest` is `queue` without one occurrence of `first`, which was its least label.
pub open spec fn popped(queue: Seq<Label>, first: Label, rest: Seq<Label>) -> bool {
    &&& queue.contains(first)
    &&& forall|l: Label| queue.contains(l) ==> label_le(first, l)
    &&& rest.len() + 1 == queue.len()
    &&& forall|l: Label| queue.contains(l) && l != first ==> rest.contains(l)
    &&& forall|l: Label| rest.contains(l) ==> queue.contains(l)
}

/// `grown` is `rest` followed by labels that follow from `from`, among them
/// every label that follows from `from`.
pub open spec fn expanded(env: SearchEnv, from: Label, rest: Seq<Label>, grown: Seq<Label>) -> bool {
    &&& grown.len() >= rest.len()
    &&& grown.subrange(0, rest.len() as int) == rest
    &&& forall|q: int| rest.len() <= q < grown.len() ==> env.step(from, #[trigger] grown[q])
    &&& forall|l: Label| #[trigger] env.step(from, l) ==> grown.contains(l)
}

/// What a queue held, it still holds after labels were pushed.
proof fn lemma_kept(shorter: Seq<Label>, longer: Seq<Label>, l: Label)
    requires
        shorter.len() <= longer.len(),
        longer.subrange(0, shorter.len() as int) == shorter,
        shorter.contains(l),
    ensures
        longer.contains(l),
{
    let i = choose|i: int| 0 <= i < shorter.len() && shorter[i] == l;
    assert(longer.subrange(0, shorter.len() as int)[i] == longer[i]);
}

/// Dropping a pending label whose place is settled keeps the search sound.
#[verifier::rlimit(60)]
proof fn lemma_discard(
    env: SearchEnv,
    order: Seq<Label>,
    queue: Seq<Label>,
    flags: Seq<bool>,
    first: Label,
    rest: Seq<Label>,
)
    requires
        search_inv(env, order, queue, flags),
        popped(queue, first, rest),
        flags[first.place as int],
    ensures
        search_inv(env, order, rest, flags),
{
    let at = choose|q: int| 0 <= q < queue.len() && queue[q] == first;
    assert(queue[at] == first);
    let s = choose|s: int| 0 <= s < order.len() && (#[trigger] order[s]).place == first.place;
    assert(order[s].arrival.0 <= queue[at].arrival.0);
    assert forall|q1: int| 0 <= q1 < rest.len() implies (#[trigger] rest[q1]).place
        <= env.origin_place() && env.start <= rest[q1].arrival.0 <= env.deadline && (order.len()
        >= 1 ==> follows(env, order, rest[q1])) by {
        let l = rest[q1];
        assert(rest.contains(l));
        let q = choose|q: int| 0 <= q < queue.len() && queue[q] == l;
        assert(queue[q] == l);
    }
    assert forall|i: int, q1: int| 0 <= i < order.len() && 0 <= q1 < rest.len() implies (
    #[trigger] order[i]).arrival.0 <= (#[trigger] rest[q1]).arrival.0 by {
        let l = rest[q1];
        assert(rest.contains(l));
        let q = choose|q: int| 0 <= q < queue.len() && queue[q] == l;
        assert(queue[q] == l);
    }
    assert forall|j: int, l: Label|
        0 <= j < order.len() && #[trigger] env.step(order[j], l) implies settled_by(order, l)
        || rest.contains(l) by {
        if !settled_by(order, l) {
            assert(queue.contains(l));
            if l == first {
                assert(settled_by(order, l));
            }
        }
    }
}

/// Settling the least pending label, where its place is not yet settled,
/// keeps the settled labels sound.
#[verifier::rlimit(60)]
proof fn lemma_settle_order(
    env: SearchEnv,
    order: Seq<Label>,
    queue: Seq<Label>,
    flags: Seq<bool>,
    first: Label,
)
    requires
        order_ok(env, order, flags),
        queue_ok(env, order, queue),
        queue.contains(first),
        !flags[first.place as int],
    ensures
        order_ok(env, order.push(first), flags.update(first.place as int, true)),
{
    let order1 = order.push(first);
    let flags1 = flags.update(first.place as int, true);
    let last = order.len() as int;
    let at = choose|q: int| 0 <= q < queue.len() && queue[q] == first;
    assert(queue[at] == first);
    assert(order1[last] == first);
    assert forall|i: int| 0 <= i < order1.len() implies (#[trigger] order1[i]).place
        <= env.origin_place() && env.start <= order1[i].arrival.0 <= env.deadline
        && flags1[order1[i].place as int] by {
        if i < last {
            assert(order[i] == order1[i]);
        }
    }
    assert forall|i: int, j: int| 0 <= i < j < order1.len() implies (#[trigger] order1[i]).place
        != (#[trigger] order1[j]).place && order1[i].arrival.0 <= order1[j].arrival.0 by {
        assert(order[i] == order1[i]);
        if j < last {
            assert(order[j] == order1[j]);
        } else {
            assert(order[i].arrival.0 <= queue[at].arrival.0);
            assert(flags[order[i].place as int]);
        }
    }
    assert forall|p: int| 0 <= p < flags1.len() && #[trigger] flags1[p] implies exists|i: int|
        0 <= i < order1.len() && (#[trigger] order1[i]).place == p by {
        if p == first.place {
            assert(order1[last].place == p);
        } else {
            assert(flags[p]);
            let i = choose|i: int| 0 <= i < order.len() && (#[trigger] order[i]).place == p;
            assert(order1[i].place == p);
        }
    }
    if last == 0 {
        assert(queue[0] == env.seed());
    } else {
        assert(order1[0] == order[0]);
    }
    assert forall|i: int| 1 <= i < order1.len() implies exists|j: int|
        0 <= j < i && env.step(order1[j], #[trigger] order1[i]) by {
        if i < last {
            let j = choose|j: int| 0 <= j < i && env.step(order[j], order[i]);
            assert(order1[j] == order[j] && order1[i] == order[i]);
        } else {
            assert(follows(env, order, queue[at]));
            let j = choose|j: int| 0 <= j < order.len() && env.step(#[trigger] order[j], first);
            assert(order1[j] == order[j]);
        }
    }
}

/// After the least pending label was settled and expanded, the pending
/// labels are sound.
#[verifier::rlimit(60)]
proof fn lemma_settle_queue(
    env: SearchEnv,
    order: Seq<Label>,
    queue: Seq<Label>,
    first: Label,
    rest: Seq<Label>,
    grown: Seq<Label>,
)
    requires
        env.wf(),
        queue_ok(env, order, queue),
        popped(queue, first, rest),
        expanded(env, first, rest, grown),
        forall|i: int| 0 <= i < order.len() ==> (#[trigger] order[i]).arrival.0 <= first.arrival.0,
    ensures
        queue_ok(env, order.push(first), grown),
{
    let order1 = order.push(first);
    let last = order.len() as int;
    assert(order1[last] == first);
    assert forall|q: int| 0 <= q < grown.len() implies (#[trigger] grown[q]).place
        <= env.origin_place() && env.start <= grown[q].arrival.0 <= env.deadline
        && first.arrival.0 <= grown[q].arrival.0 && follows(env, order1, grown[q]) by {
        let l = grown[q];
        if q < rest.len() {
            assert(grown.subrange(0, rest.len() as int)[q] == l);
            assert(rest[q] == l);
            assert(rest.contains(l));
            let q0 = choose|q0: int| 0 <= q0 < queue.len() && queue[q0] == l;
            assert(queue[q0] == l);
            assert(label_le(first, l));
            if last == 0 {
                assert(queue.len() == 1);
            }
            assert(follows(env, order, l));
            let j = choose|j: int| 0 <= j < order.len() && env.step(#[trigger] order[j], l);
            assert(order1[j] == order[j]);
        } else {
            assert(env.step(first, l));
            lemma_step_forward(env, first, l);
            let at = choose|q: int| 0 <= q < queue.len() && queue[q] == first;
            assert(queue[at] == first);
            assert(env.step(order1[last], l));
        }
    }
    assert forall|i: int, q: int| 0 <= i < order1.len() && 0 <= q < grown.len() implies (
    #[trigger] order1[i]).arrival.0 <= (#[trigger] grown[q]).arrival.0 by {
        if i < last {
            assert(order1[i] == order[i]);
        }
    }
}

/// After the least pending label was settled and expanded, whatever follows
/// from a settled label is settled no later, or pending.
#[verifier::rlimit(60)]
proof fn lemma_settle_closed(
    env: SearchEnv,
    order: Seq<Label>,
    queue: Seq<Label>,
    first: Label,
    rest: Seq<Label>,
    grown: Seq<Label>,
)
    requires
        closed_so_far(env, order, queue),
        popped(queue, first, rest),
        expanded(env, first, rest, grown),
    ensures
        closed_so_far(env, order.push(first), grown),
{
    let order1 = order.push(first);
    let last = order.len() as int;
    assert(order1[last] == first);
    assert forall|j: int, l: Label|
        0 <= j < order1.len() && #[trigger] env.step(order1[j], l) implies settled_by(order1, l)
        || grown.contains(l) by {
        if j < last {
            assert(order1[j] == order[j]);
            if settled_by(order, l) {
                let s = choose|s: int|
                    0 <= s < order.len() && (#[trigger] order[s]).place == l.place
                        && order[s].arrival.0 <= l.arrival.0;
                assert(order1[s] == order[s]);
            } else {
                assert(queue.contains(l));
                if l == first {
                    assert(order1[last].place == l.place);
                } else {
                    assert(rest.contains(l));
                    lemma_kept(rest, grown, l);
                }
            }
        }
    }
}

/// A label at the deadline leads nowhere.
proof fn lemma_no_step_at_deadline(env: SearchEnv, from: Label, rest: Seq<Label>)
    requires
        from.arrival.0 >= env.deadline,
    ensures
        expanded(env, from, rest, rest),
{
    assert(rest.subrange(0, rest.len() as int) =~= rest);
    assert forall|l: Label| #[trigger] env.step(from, l) implies rest.contains(l) by {
        if env.ride_step(from, l) {
            let (ev, k) = choose|ev: BusPickupInfo, k: int| #[trigger] env.rides(from, ev, k, l);
        }
    }
}

/// Walking and riding on from `from`: pushes every label that follows from it.
fn expand(
    roads: &RoadStructure,
    pickups: &PickupIndex,
    agencies: &HashSet<u8>,
    arena: &mut TripsArena,
    queue: &mut Vec<Label>,
    from: Label,
    origin: Point,
    deadline: u64,
    Ghost(env): Ghost<SearchEnv>,
)
    requires
        roads.wf(),
        pickups.wf(),
        old(arena).wf(),
        env.wf(),
        env.roads == roads.model(),
        env.timetable == pickups.model(),
        env.agencies == agencies@,
        env.deadline == deadline,
        env.origin == origin,
        from.place <= env.origin_place(),
    ensures
        final(arena).wf(),
        boarded_as(env, from, old(arena)@, final(arena)@),
        expanded(env, from, old(queue)@, final(queue)@),
{
    let ghost rest = queue@;
    if from.arrival.0 >= deadline {
        proof {
            lemma_no_step_at_deadline(env, from, rest);
            lemma_no_boarding(env, from, rest, arena@);
        }
        return ;
    }
    let from_point = if from.place == roads.node_count() {
        origin
    } else {
        roads.position(from.place)
    };
    expand_walking(roads, queue, from, from_point, deadline, Ghost(env));
    let ghost walked = queue@;
    expand_transit(roads, pickups, agencies, arena, queue, from, deadline, Ghost(env));
    proof {
        let grown = queue@;
        assert(grown.subrange(0, rest.len() as int) =~= rest) by {
            assert forall|x: int| 0 <= x < rest.len() implies grown[x] == rest[x] by {
                assert(grown.subrange(0, walked.len() as int)[x] == grown[x]);
                assert(walked.subrange(0, rest.len() as int)[x] == walked[x]);
            }
        }
        assert forall|q: int| rest.len() <= q < grown.len() implies env.step(
            from,
            #[trigger] grown[q],
        ) by {
            if q < walked.len() {
                assert(grown.subrange(0, walked.len() as int)[q] == grown[q]);
                assert(env.walk_step(from, walked[q]));
            }
        }
        assert forall|l: Label| #[trigger] env.step(from, l) implies grown.contains(l) by {
            if env.walk_step(from, l) {
                lemma_kept(walked, grown, l);
            }
        }
    }
}

/// The record stands where riders who boarded its trip at settled labels
/// were carried furthest within the budget; where none was carried anywhere,
/// it is as it was made.
pub open spec fn stands(env: SearchEnv, order: Seq<Label>, r: InProgressTrip) -> bool {
    &&& r == fresh_record(r.trip_id) || exists|j: int, k: int|
        0 <= j < order.len() && #[trigger] env.carried_to(order[j], r.trip_id, k) && r
            == env.record_at(r.trip_id, k)
    &&& forall|j: int, k: int|
        0 <= j < order.len() && #[trigger] env.carried_to(order[j], r.trip_id, k)
            ==> env.record_at(r.trip_id, k).stop_sequence_no <= r.stop_sequence_no
}

/// The records are those of the trips that were boarded at settled labels:
/// every record is of such a trip and stands where its riders were carried
/// furthest, and every such trip has a record.
pub open spec fn trips_boarded(
    env: SearchEnv,
    order: Seq<Label>,
    records: Seq<InProgressTrip>,
) -> bool {
    &&& forall|i: int|
        0 <= i < records.len() ==> exists|j: int|
            0 <= j < order.len() && env.boards_trip(order[j], (#[trigger] records[i]).trip_id)
    &&& forall|i: int| 0 <= i < records.len() ==> stands(env, order, #[trigger] records[i])
    &&& forall|j: int, ev: BusPickupInfo|
        0 <= j < order.len() && #[trigger] env.boards(order[j], ev) ==> has_record(
            records,
            ev.trip_id,
        )
}

/// A record that stood right before `first` was settled, and was ridden on
/// from `first`, stands right afterwards.
proof fn lemma_stands_on(
    env: SearchEnv,
    order: Seq<Label>,
    first: Label,
    before: InProgressTrip,
    after: InProgressTrip,
)
    requires
        stands(env, order, before),
        env.ridden(first, before, after),
    ensures
        stands(env, order.push(first), after),
{
    let order1 = order.push(first);
    let last = order.len() as int;
    assert(order1[last] == first);
    if after == before {
        if before != fresh_record(before.trip_id) {
            let (j, k) = choose|j: int, k: int|
                0 <= j < order.len() && #[trigger] env.carried_to(order[j], before.trip_id, k)
                    && before == env.record_at(before.trip_id, k);
            assert(order1[j] == order[j]);
            assert(env.carried_to(order1[j], after.trip_id, k));
        }
    } else {
        let k = choose|k: int| #[trigger]
            env.carried_to(first, after.trip_id, k) && after == env.record_at(after.trip_id, k);
        assert(env.carried_to(order1[last], after.trip_id, k));
    }
    assert forall|j: int, k: int|
        0 <= j < order1.len() && #[trigger] env.carried_to(
            order1[j],
            after.trip_id,
            k,
        ) implies env.record_at(after.trip_id, k).stop_sequence_no <= after.stop_sequence_no by {
        if j < last {
            assert(order1[j] == order[j]);
            assert(env.carried_to(order[j], before.trip_id, k));
        }
    }
}

/// After the least pending label was settled and expanded, the records are
/// those of the trips boarded so far.
proof fn lemma_settle_records(
    env: SearchEnv,
    order: Seq<Label>,
    first: Label,
    before: Seq<InProgressTrip>,
    after: Seq<InProgressTrip>,
)
    requires
        trips_boarded(env, order, before),
        boarded_as(env, first, before, after),
        one_record_per_trip(after),
    ensures
        trips_boarded(env, order.push(first), after),
{
    let order1 = order.push(first);
    let last = order.len() as int;
    assert(order1[last] == first);
    assert forall|i: int| 0 <= i < after.len() implies stands(env, order1, #[trigger] after[i]) by {
        if i < before.len() {
            assert(env.ridden(first, before[i], after[i]));
            lemma_stands_on(env, order, first, before[i], after[i]);
        } else {
            let id = after[i].trip_id;
            // Nobody boarded this trip before: it had no record.
            assert forall|j: int, k: int|
                0 <= j < order.len() implies !#[trigger] env.carried_to(order[j], id, k) by {
                if env.carried_to(order[j], id, k) {
                    let ev = choose|ev: BusPickupInfo| #[trigger]
                        env.boards(order[j], ev) && ev.trip_id == id && env.rides_to(ev, k);
                    assert(has_record(before, id));
                    let x = choose|x: int|
                        0 <= x < before.len() && (#[trigger] before[x]).trip_id == id;
                    assert(env.ridden(first, before[x], after[x]));
                    assert(after[x].trip_id == after[i].trip_id);
                }
            }
            lemma_stands_on(env, order, first, fresh_record(id), after[i]);
        }
    }
    assert forall|i: int| 0 <= i < after.len() implies exists|j: int|
        0 <= j < order1.len() && env.boards_trip(order1[j], (#[trigger] after[i]).trip_id) by {
        if i < before.len() {
            let j = choose|j: int|
                0 <= j < order.len() && env.boards_trip(order[j], before[i].trip_id);
            assert(order1[j] == order[j]);
            assert(after[i].trip_id == before[i].trip_id);
        } else {
            assert(env.boards_trip(order1[last], after[i].trip_id));
        }
    }
    assert forall|j: int, ev: BusPickupInfo|
        0 <= j < order1.len() && #[trigger] env.boards(order1[j], ev) implies has_record(
        after,
        ev.trip_id,
    ) by {
        if j < last {
            assert(order1[j] == order[j]);
            assert(has_record(before, ev.trip_id));
            let i = choose|i: int|
                0 <= i < before.len() && (#[trigger] before[i]).trip_id == ev.trip_id;
            assert(after[i].trip_id == ev.trip_id);
        }
    }
}

/// The label-setting search: settles the origin at `start` and from there
/// every place that walks and rides lead to within `duration` microseconds,
/// each at the earliest time at which the search reaches it.
///
/// The arena is emptied first; afterwards it holds one record for every
/// trip that was boarded at a settled label, and no other.
#[verifier::rlimit(60)]
pub fn search(
    roads: &RoadStructure,
    pickups: &PickupIndex,
    agencies: &HashSet<u8>,
    arena: &mut TripsArena,
    origin: Point,
    start: Time,
    duration: u64,
) -> (order: Vec<Label>)
    requires
        roads.wf(),
        pickups.wf(),
        origin.in_range(),
        start.0 + duration <= u64::MAX,
    ensures
        is_reach_field(
            env_of(roads.model(), pickups.model(), origin, start, duration, agencies@),
            order@,
        ),
        final(arena).wf(),
        trips_boarded(
            env_of(roads.model(), pickups.model(), origin, start, duration, agencies@),
            order@,
            final(arena)@,
        ),
{
    let ghost env = env_of(roads.model(), pickups.model(), origin, start, duration, agencies@);
    proof {
        roads.lemma_model();
        pickups.lemma_model_sound();
    }
    arena.clear();
    let deadline: u64 = start.0 + duration;
    let n: usize = roads.node_count();
    let mut flags: Vec<bool> = Vec::new();
    let mut i: usize = 0;
    while i <= n
        invariant
            i <= n + 1,
            n < usize::MAX,
            flags@.len() == i,
            forall|p: int| 0 <= p < i ==> !(#[trigger] flags@[p]),
        decreases n + 1 - i,
    {
        flags.push(false);
        i += 1;
    }
    let mut order: Vec<Label> = Vec::new();
    let mut queue: Vec<Label> = Vec::new();
    queue.push(Label { place: n, arrival: start });
    assert(queue@ =~= seq![env.seed()]);
    while queue.len() > 0
        invariant
            roads.wf(),
            pickups.wf(),
            arena.wf(),
            env.wf(),
            env == env_of(roads.model(), pickups.model(), origin, start, duration, agencies@),
            deadline == env.deadline,
            n == env.origin_place(),
            search_inv(env, order@, queue@, flags@),
            trips_boarded(env, order@, arena@),
        decreases unsettled(flags@), queue@.len(),
    {
        let ghost order0 = order@;
        let ghost queue0 = queue@;
        let ghost flags0 = flags@;
        let ghost records0 = arena@;
        let first = pop_min(&mut queue);
        let ghost rest = queue@;
        assert(popped(queue0, first, rest));
        proof {
            let at = choose|q: int| 0 <= q < queue0.len() && queue0[q] == first;
            assert(queue0[at] == first);
        }
        if flags[first.place] {
            proof {
                lemma_discard(env, order0, queue0, flags0, first, rest);
            }
        } else {
            flags.set(first.place, true);
            order.push(first);
            expand(roads, pickups, agencies, arena, &mut queue, first, origin, deadline, Ghost(env));
            proof {
                lemma_unsettled_falls(flags0, first.place as int);
                lemma_settle_order(env, order0, queue0, flags0, first);
                assert forall|i: int| 0 <= i < order0.len() implies (
                #[trigger] order0[i]).arrival.0 <= first.arrival.0 by {
                    let at = choose|q: int| 0 <= q < queue0.len() && queue0[q] == first;
                    assert(order0[i].arrival.0 <= queue0[at].arrival.0);
                }
                lemma_settle_queue(env, order0, queue0, first, rest, queue@);
                lemma_settle_closed(env, order0, queue0, first, rest, queue@);
                lemma_settle_records(env, order0, first, records0, arena@);
            }
        }
    }
    proof {
        if order@.len() == 0 {
            assert(queue@[0] == env.seed());
        }
        assert forall|j: int, l: Label|
            0 <= j < order@.len() && #[trigger] env.step(order@[j], l) implies settled_by(
            order@,
            l,
        ) by {
            if queue@.contains(l) {
            }
        }
    }
    order
}

/// A geographic position in whole millionths of a degree.
#[derive(Clone, Copy, Debug, PartialEq, Eq, Structural)]
pub struct LatLng {
    pub lat: i32,
    pub lng: i32,
}

impl LatLng {
    /// The latitude lies between the poles and the longitude within half a
    /// turn of the prime meridian.
    pub open spec fn valid(self) -> bool {
        -90_000_000 <= self.lat <= 90_000_000 && -180_000_000 <= self.lng <= 180_000_000
    }

    /// The position at the given latitude and longitude, in millionths of a degree.
    pub fn from_lat_lng(lat: i32, lng: i32) -> (p: LatLng)
        ensures
            p.lat == lat,
            p.lng == lng,
    {
        LatLng { lat, lng }
    }

    /// Tells whether the position lies on the globe.
    pub fn is_valid(&self) -> (ok: bool)
        ensures
            ok == self.valid(),
    {
        -90_000_000 <= self.lat && self.lat <= 90_000_000 && -180_000_000 <= self.lng && self.lng
            <= 180_000_000
    }
}

/// What a search is asked for: when it starts, how many seconds it may
/// spend, where it starts, and which agencies may be ridden (none named:
/// all of them).
pub struct Configuration {
    pub start_time: Time,
    pub duration_secs: i64,
    pub location: LatLng,
    pub agency_ids: HashSet<u8>,
}

/// Why a configuration is refused.
#[derive(Clone, Copy, Debug, PartialEq, Eq, Structural)]
pub enum ConfigurationError {
    /// The duration is not positive, or the search would end after the last
    /// time that can be represented.
    InvalidDuration,
    /// The origin does not lie on the globe, or its projection lies outside
    /// the supported part of the plane.
    OriginOutOfRange,
}

/// The fault of a configuration, the duration being looked at first, or
/// `None` for a configuration that can be searched.
pub open spec fn config_error(
    start_time: Time,
    duration_secs: i64,
    location: LatLng,
    origin: Point,
) -> Option<ConfigurationError> {
    if duration_secs <= 0 || start_time.0 + duration_secs * 1_000_000 > u64::MAX {
        Some(ConfigurationError::InvalidDuration)
    } else if !location.valid() || !origin.in_range() {
        Some(ConfigurationError::OriginOutOfRange)
    } else {
        None
    }
}

/// Checks a configuration; for one that can be searched, hands back the
/// duration in microseconds.
pub fn check_configuration(config: &Configuration, origin: Point) -> (checked: Result<
    u64,
    ConfigurationError,
>)
    ensures
        match checked {
            Ok(micros) => config_error(
                config.start_time,
                config.duration_secs,
                config.location,
                origin,
            ).is_none() && micros == config.duration_secs * 1_000_000,
            Err(e) => config_error(config.start_time, config.duration_secs, config.location, origin)
                == Some(e),
        },
{
    if config.duration_secs <= 0 {
        return Err(ConfigurationError::InvalidDuration);
    }
    let micros: u128 = (config.duration_secs as u128) * 1_000_000u128;
    if micros + (config.start_time.0 as u128) > u64::MAX as u128 {
        return Err(ConfigurationError::InvalidDuration);
    }
    if !config.location.is_valid() || !origin.is_in_range() {
        return Err(ConfigurationError::OriginOutOfRange);
    }
    Ok(micros as u64)
}

/// Checks the configuration, runs the search from `origin`, which is the
/// projection of the configured location, and indexes what was settled.
///
/// A configuration that is refused leaves the arena as it was.
pub fn generate_reach_times(
    roads: &RoadStructure,
    pickups: &PickupIndex,
    arena: &mut TripsArena,
    config: &Configuration,
    origin: Point,
) -> (result: Result<TimeToReachRTree, ConfigurationError>)
    requires
        roads.wf(),
        pickups.wf(),
    ensures
        match result {
            Ok(reached) => {
                let env = env_of(
                    roads.model(),
                    pickups.model(),
                    origin,
                    config.start_time,
                    (config.duration_secs * 1_000_000) as u64,
                    config.agency_ids@,
                );
                &&& config_error(
                    config.start_time,
                    config.duration_secs,
                    config.location,
                    origin,
                ).is_none()
                &&& reached.wf()
                &&& final(arena).wf()
                &&& is_reach_field(env, reached@.labels)
                &&& trips_boarded(env, reached@.labels, final(arena)@)
                &&& reached@.start == config.start_time.0
                &&& reached@.duration == config.duration_secs * 1_000_000
                &&& reached@.points.len() == reached@.labels.len()
                &&& forall|i: int|
                    0 <= i < reached@.labels.len() ==> #[trigger] reached@.points[i] == env.point(
                        reached@.labels[i].place as int,
                    )
            },
            Err(e) => config_error(config.start_time, config.duration_secs, config.location, origin)
                == Some(e) && *final(arena) == *old(arena),
        },
{
    let duration = match check_configuration(config, origin) {
        Ok(micros) => micros,
        Err(e) => {
            return Err(e);
        },
    };
    let order = search(
        roads,
        pickups,
        &config.agency_ids,
        arena,
        origin,
        config.start_time,
        duration,
    );
    let ghost env = env_of(
        roads.model(),
        pickups.model(),
        origin,
        config.start_time,
        duration,
        config.agency_ids@,
    );
    let n = roads.node_count();
    let mut points: Vec<Point> = Vec::new();
    let mut i: usize = 0;
    proof {
        roads.lemma_model();
    }
    while i < order.len()
        invariant
            roads.wf(),
            origin.in_range(),
            n == env.origin_place(),
            env.roads == roads.model(),
            env.origin == origin,
            is_reach_field(env, order@),
            i <= order@.len(),
            points@.len() == i,
            forall|k: int|
                0 <= k < i ==> #[trigger] points@[k] == env.point(order@[k].place as int)
                    && points@[k].in_range(),
        decreases order@.len() - i,
    {
        let place = order[i].place;
        proof {
            roads.lemma_model();
        }
        let p = if place == n {
            origin
        } else {
            roads.position(place)
        };
        points.push(p);
        i += 1;
    }
    Ok(TimeToReachRTree::new(order, points, config.start_time, duration))
}

} // verus!
