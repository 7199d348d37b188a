use crate::time::Time;
use crate::IdType;
use id_arena::{Arena, ArenaBehavior, DefaultArenaBehavior};
use vstd::prelude::*;

verus! {

/// How far a trip that was boarded during the search has been ridden: the
/// trip, the furthest sequence position reached, and when it was reached.
#[derive(Clone, Copy, Debug, PartialEq, Eq)]
pub struct InProgressTrip {
    pub trip_id: IdType,
    pub stop_sequence_no: u16,
    pub arrival: Time,
}

/// Makes `id_arena::Arena` known as a type whose inside the proofs do not see.
#[verifier::external_type_specification]
#[verifier::external_body]
#[verifier::reject_recursive_types(T)]
#[verifier::reject_recursive_types(A)]
pub struct ExArena<T, A>(Arena<T, A>);

/// Makes `id_arena::DefaultArenaBehavior`, the second parameter of the arena's
/// type, known as a type whose inside the proofs do not see.
#[verifier::external_type_specification]
#[verifier::external_body]
#[verifier::reject_recursive_types(T)]
pub struct ExDefaultArenaBehavior<T>(DefaultArenaBehavior<T>);

/// The records that an arena holds, in the order in which they were allocated.
pub uninterp spec fn arena_records(arena: Arena<InProgressTrip>) -> Seq<InProgressTrip>;

/// Calls `id_arena::Arena::new`: the new arena holds no record.
#[verifier::external_body]
fn arena_new() -> (arena: Arena<InProgressTrip>)
    ensures
        arena_records(arena) == Seq::<InProgressTrip>::empty(),
{
    Arena::new()
}

/// Calls `id_arena::Arena::len`: the number of records allocated so far.
#[verifier::external_body]
fn arena_len(arena: &Arena<InProgressTrip>) -> (n: usize)
    ensures
        n == arena_records(*arena).len(),
{
    arena.len()
}

/// Calls `id_arena::Arena::alloc` and hands back the index of the identifier
/// it returns: the record is appended, and its index is the number of records
/// that were there before.
#[verifier::external_body]
fn arena_alloc(arena: &mut Arena<InProgressTrip>, record: InProgressTrip) -> (handle: usize)
    ensures
        arena_records(*final(arena)) == arena_records(*old(arena)).push(record),
        handle == arena_records(*old(arena)).len(),
{
    arena.alloc(record).index()
}

/// Calls `id_arena::Arena::get` with the arena's own identifier for index
/// `handle`: the record at that index, or `None` where the index is not below
/// the number of records.
#[verifier::external_body]
fn arena_get(arena: &Arena<InProgressTrip>, handle: usize) -> (record: Option<InProgressTrip>)
    ensures
        record == if handle < arena_records(*arena).len() {
            Some(arena_records(*arena)[handle as int])
        } else {
            None
        },
{
    let arena_id = DefaultArenaBehavior::<InProgressTrip>::arena_id(arena.next_id());
    arena.get(DefaultArenaBehavior::<InProgressTrip>::new_id(arena_id, handle)).copied()
}

/// Writes through `id_arena::Arena::index_mut` with the arena's own identifier
/// for index `handle`: the record at that index is replaced, the others stay.
#[verifier::external_body]
fn arena_put(arena: &mut Arena<InProgressTrip>, handle: usize, record: InProgressTrip)
    requires
        handle < arena_records(*old(arena)).len(),
    ensures
        arena_records(*final(arena)) == arena_records(*old(arena)).update(handle as int, record),
{
    let arena_id = DefaultArenaBehavior::<InProgressTrip>::arena_id(arena.next_id());
    arena[DefaultArenaBehavior::<InProgressTrip>::new_id(arena_id, handle)] = record;
}

/// The record of a trip that was boarded but not yet ridden anywhere.
pub open spec fn fresh_record(trip_id: IdType) -> InProgressTrip {
    InProgressTrip { trip_id, stop_sequence_no: 0, arrival: Time(0) }
}

/// No two records are about the same trip.
pub open spec fn one_record_per_trip(records: Seq<InProgressTrip>) -> bool {
    forall|i: int, j: int|
        0 <= i < j < records.len() ==> (#[trigger] records[i]).trip_id != (
        #[trigger] records[j]).trip_id
}

/// Some record is about `trip_id`.
pub open spec fn has_record(records: Seq<InProgressTrip>, trip_id: IdType) -> bool {
    exists|i: int| 0 <= i < records.len() && (#[trigger] records[i]).trip_id == trip_id
}

/// The records after `advance` was asked to move record `handle` to
/// `position`, reached at `arrival`: the record moves only forward.
pub open spec fn advanced(
    records: Seq<InProgressTrip>,
    handle: int,
    position: u16,
    arrival: Time,
) -> Seq<InProgressTrip> {
    if position > records[handle].stop_sequence_no {
        records.update(
            handle,
            InProgressTrip { trip_id: records[handle].trip_id, stop_sequence_no: position, arrival },
        )
    } else {
        records
    }
}

/// The trips boarded during one search, each with how far it was ridden.
///
/// Records are reached through handles, which are their positions in the view.
pub struct TripsArena {
    arena: Arena<InProgressTrip>,
}

impl View for TripsArena {
    type V = Seq<InProgressTrip>;

    closed spec fn view(&self) -> Seq<InProgressTrip> {
        arena_records(self.arena)
    }
}

impl TripsArena {
    /// Each trip has at most one record.
    pub open spec fn wf(&self) -> bool {
        one_record_per_trip(self@)
    }

    /// An arena without records.
    pub fn new() -> (arena: TripsArena)
        ensures
            arena@.len() == 0,
            arena.wf(),
    {
        TripsArena { arena: arena_new() }
    }

    /// Drops every record, so that the arena can serve the next search.
    pub fn clear(&mut self)
        ensures
            final(self)@.len() == 0,
            final(self).wf(),
    {
        self.arena = arena_new();
    }

    /// Number of trips boarded so far.
    pub fn len(&self) -> (n: usize)
        ensures
            n == self@.len(),
    {
        arena_len(&self.arena)
    }

    /// The handle of the record of `trip_id`; the record is created where the
    /// trip has none yet.
    pub fn get_or_create(&mut self, trip_id: IdType) -> (handle: usize)
        requires
            old(self).wf(),
        ensures
            final(self).wf(),
            handle < final(self)@.len(),
            final(self)@[handle as int].trip_id == trip_id,
            has_record(old(self)@, trip_id) ==> final(self)@ == old(self)@,
            !has_record(old(self)@, trip_id) ==> final(self)@ == old(self)@.push(
                fresh_record(trip_id),
            ) && handle == old(self)@.len(),
    {
        let n = arena_len(&self.arena);
        let mut h: usize = 0;
        while h < n
            invariant
                h <= n,
                n == self@.len(),
                self@ == old(self)@,
                self.wf(),
                forall|i: int| 0 <= i < h ==> (#[trigger] self@[i]).trip_id != trip_id,
            decreases n - h,
        {
            match arena_get(&self.arena, h) {
                Some(record) => {
                    if record.trip_id.0 == trip_id.0 && record.trip_id.1 == trip_id.1 {
                        assert(self@[h as int].trip_id == trip_id);
                        return h;
                    }
                },
                None => {},
            }
            h += 1;
        }
        let handle = arena_alloc(
            &mut self.arena,
            InProgressTrip { trip_id, stop_sequence_no: 0, arrival: Time(0) },
        );
        handle
    }

    /// Moves the record behind `handle` forward to `position`, reached at
    /// `arrival`. A position that is not beyond the record's own changes nothing.
    pub fn advance(&mut self, handle: usize, position: u16, arrival: Time)
        requires
            old(self).wf(),
            handle < old(self)@.len(),
        ensures
            final(self).wf(),
            final(self)@ == advanced(old(self)@, handle as int, position, arrival),
    {
        match arena_get(&self.arena, handle) {
            Some(record) => {
                if position > record.stop_sequence_no {
                    arena_put(
                        &mut self.arena,
                        handle,
                        InProgressTrip { trip_id: record.trip_id, stop_sequence_no: position, arrival },
                    );
                }
            },
            None => {},
        }
    }

    /// The furthest sequence position that the trip behind `handle` has reached.
    pub fn current_position(&self, handle: usize) -> (position: u16)
        requires
            handle < self@.len(),
        ensures
            position == self@[handle as int].stop_sequence_no,
    {
        match arena_get(&self.arena, handle) {
            Some(record) => record.stop_sequence_no,
            None => 0,
        }
    }

    /// The record behind `handle`.
    pub fn record(&self, handle: usize) -> (record: Option<InProgressTrip>)
        ensures
            record == if handle < self@.len() {
                Some(self@[handle as int])
            } else {
                None
            },
    {
        arena_get(&self.arena, handle)
    }
}

} // verus!
