use crate::gtfs_wrapper::{merge_all, DirectionType, Gtfs1, TimetableView};
use crate::time::Time;
use vstd::prelude::*;

pub use crate::reach_data::TimeToReachRTree;

pub mod calendar;
pub mod geometry;
pub mod gtfs_wrapper;
pub mod laws;
pub mod pickup;
pub mod reach_data;
pub mod road_structure;
pub mod spatial;
pub mod time;
pub mod time_to_reach;
pub mod trips_arena;

verus! {

/// Walking speed along the road graph, in millimetres per second.
pub const WALKING_SPEED: u32 = 1250;

/// Walking speed assumed where no street is followed, in millimetres per second.
pub const STRAIGHT_WALKING_SPEED: u32 = 900;

/// Least time between reaching a stop and boarding a trip there, in seconds.
pub const MIN_TRANSFER_SECONDS: u64 = 4;

/// Distance within which a point counts as lying on a node of the road
/// graph, in millimetres.
pub const SNAP_TOLERANCE: u32 = 1_000;

/// Largest distance over which a single walk is considered, in millimetres.
pub const MAX_WALK_RADIUS: u32 = 2_000_000;

/// The tuning values of a search.
///
/// Speeds are in millimetres per second, distances in millimetres, the
/// transfer time in microseconds.
#[derive(Clone, Copy, Debug, PartialEq, Eq, Structural)]
pub struct Constants {
    pub walking_speed: u32,
    pub straight_walking_speed: u32,
    pub min_transfer: u64,
    pub snap_tolerance: u32,
    pub max_walk_radius: u32,
}

impl Constants {
    /// Both walking speeds are positive, and walking off the streets is no
    /// quicker than walking along them.
    pub open spec fn valid(self) -> bool {
        0 < self.straight_walking_speed <= self.walking_speed
    }

    /// Tells whether the walking speeds are valid.
    pub fn is_valid(&self) -> (ok: bool)
        ensures
            ok == self.valid(),
    {
        0 < self.straight_walking_speed && self.straight_walking_speed <= self.walking_speed
    }
}

impl Default for Constants {
    fn default() -> (c: Constants)
        ensures
            c.walking_speed == WALKING_SPEED,
            c.straight_walking_speed == STRAIGHT_WALKING_SPEED,
            c.min_transfer == MIN_TRANSFER_SECONDS * 1_000_000,
            c.snap_tolerance == SNAP_TOLERANCE,
            c.max_walk_radius == MAX_WALK_RADIUS,
            c.valid(),
    {
        Constants {
            walking_speed: WALKING_SPEED,
            straight_walking_speed: STRAIGHT_WALKING_SPEED,
            min_transfer: MIN_TRANSFER_SECONDS * 1_000_000,
            snap_tolerance: SNAP_TOLERANCE,
            max_walk_radius: MAX_WALK_RADIUS,
        }
    }
}

/// Identifier of a trip or a stop: the agency's tag and the entity's position
/// in the timetable.
pub type IdType = (u8, u64);

/// The identifier that names nothing.
pub const NULL_ID: (u8, u64) = (255, 18_446_744_073_709_551_615);

/// The possibility of boarding a trip at a stop: when the trip leaves, which
/// of its calls this is, and which trip it is.
///
/// Pickups are ordered by time, then by call, then by trip.
#[derive(Debug, Ord, PartialOrd, Eq, PartialEq, Clone, Copy)]
pub struct BusPickupInfo {
    pub timestamp: Time,
    pub stop_sequence_no: u16,
    pub trip_id: IdType,
}

/// `true` for an outbound trip, `false` for an inbound one.
pub fn direction_to_bool(d: &DirectionType) -> (outbound: bool)
    ensures
        outbound == (*d == DirectionType::Outbound),
{
    match d {
        DirectionType::Outbound => true,
        DirectionType::Inbound => false,
    }
}

/// Merges the timetables of several feeds, in the order given, into one.
pub fn setup_gtfs(feeds: &Vec<Gtfs1>) -> (gtfs: Gtfs1)
    ensures
        gtfs@ == merge_all(feeds@.map_values(|f: Gtfs1| f@)),
{
    let mut gtfs = Gtfs1::new();
    let ghost models: Seq<TimetableView> = feeds@.map_values(|f: Gtfs1| f@);
    let mut i: usize = 0;
    assert(gtfs@.stops =~= Seq::empty() && gtfs@.trips =~= Seq::empty());
    assert(models.subrange(0, 0) =~= Seq::empty());
    while i < feeds.len()
        invariant
            i <= feeds@.len(),
            models == feeds@.map_values(|f: Gtfs1| f@),
            gtfs@ == merge_all(models.subrange(0, i as int)),
        decreases feeds@.len() - i,
    {
        gtfs.merge(&feeds[i]);
        proof {
            let next = models.subrange(0, i + 1);
            assert(next.drop_last() =~= models.subrange(0, i as int));
            assert(next.last() == feeds@[i as int]@);
        }
        i += 1;
    }
    assert(models.subrange(0, i as int) =~= models);
    gtfs
}

} // verus!
