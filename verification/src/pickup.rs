use crate::gtfs_wrapper::{Gtfs1, StopTime, TimetableView};
use crate::time::Time;
use crate::BusPickupInfo;
use vstd::prelude::*;

verus! {

/// What can be wrong with a timetable.
#[derive(Clone, Copy, Debug, PartialEq, Eq, Structural)]
pub enum DataIntegrityError {
    /// A trip calls at a stop that the timetable does not hold.
    UnknownStop,
    /// The calls of a trip are not in strictly rising order of their sequence
    /// positions, or their times run backwards.
    UnsortedStopTimes,
}

/// The stops and the trips can each be counted by a `usize`.
pub open spec fn countable(tt: TimetableView) -> bool {
    tt.stops.len() <= usize::MAX && tt.trips.len() <= usize::MAX
}

/// Every call of every trip refers to a stop of the timetable.
pub open spec fn stops_known(tt: TimetableView) -> bool {
    forall|t: int, k: int|
        0 <= t < tt.trips.len() && 0 <= k < tt.trips[t].stop_times.len() ==> (
        #[trigger] tt.trips[t].stop_times[k]).stop < tt.stops.len()
}

/// Sequence positions rise strictly along the calls, no call departs before it
/// arrives, and no call is reached before an earlier one was left.
pub open spec fn calls_ordered(calls: Seq<StopTime>) -> bool {
    &&& forall|k: int|
        0 <= k < calls.len() ==> (#[trigger] calls[k]).arrival.0 <= calls[k].departure.0
    &&& forall|j: int, k: int|
        0 <= j < k < calls.len() ==> (#[trigger] calls[j]).stop_sequence < (
        #[trigger] calls[k]).stop_sequence && calls[j].departure.0 <= calls[k].arrival.0
}

/// The calls of every trip are ordered.
pub open spec fn trips_ordered(tt: TimetableView) -> bool {
    forall|t: int| 0 <= t < tt.trips.len() ==> calls_ordered((#[trigger] tt.trips[t]).stop_times)
}

/// The pickup that call `k` of trip `t` offers.
pub open spec fn pickup_of(tt: TimetableView, t: int, k: int) -> BusPickupInfo {
    BusPickupInfo {
        timestamp: tt.trips[t].stop_times[k].departure,
        stop_sequence_no: tt.trips[t].stop_times[k].stop_sequence,
        trip_id: (tt.trips[t].agency, t as u64),
    }
}

/// Call `k` of trip `t` exists and is not the trip's last: a rider can board there.
pub open spec fn boardable(tt: TimetableView, t: int, k: int) -> bool {
    0 <= t < tt.trips.len() && 0 <= k < tt.trips[t].stop_times.len() - 1
}

/// `e` is a pickup that the timetable offers at `stop`.
pub open spec fn is_pickup_at(tt: TimetableView, stop: u64, e: BusPickupInfo) -> bool {
    exists|t: int, k: int|
        boardable(tt, t, k) && tt.trips[t].stop_times[k].stop == stop && #[trigger] pickup_of(
            tt,
            t,
            k,
        ) == e
}

/// The order of pickups: by time, then by sequence position, then by trip.
pub open spec fn pickup_le(a: BusPickupInfo, b: BusPickupInfo) -> bool {
    a.timestamp.0 < b.timestamp.0 || (a.timestamp.0 == b.timestamp.0 && (a.stop_sequence_no
        < b.stop_sequence_no || (a.stop_sequence_no == b.stop_sequence_no && (a.trip_id.0
        < b.trip_id.0 || (a.trip_id.0 == b.trip_id.0 && a.trip_id.1 <= b.trip_id.1)))))
}

/// `e` is the first, in the order of pickups, of those at `stop` that leave
/// at `not_before` or later.
pub open spec fn is_earliest_pickup(
    tt: TimetableView,
    stop: u64,
    not_before: int,
    e: BusPickupInfo,
) -> bool {
    &&& is_pickup_at(tt, stop, e)
    &&& e.timestamp.0 >= not_before
    &&& forall|o: BusPickupInfo| #[trigger]
        is_pickup_at(tt, stop, o) && o.timestamp.0 >= not_before ==> pickup_le(e, o)
}

/// No pickup at `stop` leaves at `not_before` or later.
pub open spec fn no_pickup_from(tt: TimetableView, stop: u64, not_before: int) -> bool {
    forall|o: BusPickupInfo| #[trigger] is_pickup_at(tt, stop, o) ==> o.timestamp.0 < not_before
}

/// At most one pickup is the earliest.
pub proof fn lemma_earliest_pickup_unique(
    tt: TimetableView,
    stop: u64,
    not_before: int,
    a: BusPickupInfo,
    b: BusPickupInfo,
)
    requires
        is_earliest_pickup(tt, stop, not_before, a),
        is_earliest_pickup(tt, stop, not_before, b),
    ensures
        a == b,
{
    assert(pickup_le(a, b));
    assert(pickup_le(b, a));
}

/// A pickup together with the stop at which it is offered.
#[derive(Clone, Copy, Debug)]
pub struct PickupEntry {
    pub stop: u64,
    pub info: BusPickupInfo,
}

/// The order in which the index keeps its entries: by stop, then as pickups.
pub open spec fn entry_lt(a: PickupEntry, b: PickupEntry) -> bool {
    a.stop < b.stop || (a.stop == b.stop && pickup_le(a.info, b.info) && a.info != b.info)
}

/// The entry that call `k` of trip `t` contributes.
pub open spec fn entry_of(tt: TimetableView, t: int, k: int) -> PickupEntry {
    PickupEntry { stop: tt.trips[t].stop_times[k].stop, info: pickup_of(tt, t, k) }
}

/// Each entry below another precedes it in the order of entries.
pub open spec fn entries_sorted(entries: Seq<PickupEntry>) -> bool {
    forall|i: int, j: int| 0 <= i < j < entries.len() ==> entry_lt(entries[i], entries[j])
}

/// Tells whether `a` precedes `b` in the order of entries.
fn entry_before(a: &PickupEntry, b: &PickupEntry) -> (lt: bool)
    ensures
        lt == entry_lt(*a, *b),
{
    if a.stop != b.stop {
        a.stop < b.stop
    } else if a.info.timestamp.0 != b.info.timestamp.0 {
        a.info.timestamp.0 < b.info.timestamp.0
    } else if a.info.stop_sequence_no != b.info.stop_sequence_no {
        a.info.stop_sequence_no < b.info.stop_sequence_no
    } else if a.info.trip_id.0 != b.info.trip_id.0 {
        a.info.trip_id.0 < b.info.trip_id.0
    } else {
        a.info.trip_id.1 < b.info.trip_id.1
    }
}

/// Position of the first entry that does not precede `key`.
fn lower_bound(entries: &Vec<PickupEntry>, key: &PickupEntry) -> (pos: usize)
    requires
        entries_sorted(entries@),
    ensures
        pos <= entries@.len(),
        forall|j: int| 0 <= j < pos ==> entry_lt(#[trigger] entries@[j], *key),
        forall|j: int| pos <= j < entries@.len() ==> !entry_lt(#[trigger] entries@[j], *key),
{
    let mut lo: usize = 0;
    let mut hi: usize = entries.len();
    while lo < hi
        invariant
            lo <= hi <= entries@.len(),
            entries_sorted(entries@),
            forall|j: int| 0 <= j < lo ==> entry_lt(#[trigger] entries@[j], *key),
            forall|j: int| hi <= j < entries@.len() ==> !entry_lt(#[trigger] entries@[j], *key),
        decreases hi - lo,
    {
        let mid: usize = lo + (hi - lo) / 2;
        if entry_before(&entries[mid], key) {
            assert forall|j: int| 0 <= j < mid + 1 implies entry_lt(
                #[trigger] entries@[j],
                *key,
            ) by {
                if j < mid {
                    assert(entry_lt(entries@[j], entries@[mid as int]));
                }
            }
            lo = mid + 1;
        } else {
            assert forall|j: int| mid <= j < entries@.len() implies !entry_lt(
                #[trigger] entries@[j],
                *key,
            ) by {
                if j > mid {
                    assert(entry_lt(entries@[mid as int], entries@[j]));
                }
            }
            hi = mid;
        }
    }
    lo
}

/// Tells whether the calls are ordered.
fn calls_are_ordered(calls: &Vec<StopTime>) -> (ok: bool)
    ensures
        ok == calls_ordered(calls@),
{
    let mut k: usize = 0;
    while k < calls.len()
        invariant
            k <= calls@.len(),
            calls_ordered(calls@.subrange(0, k as int)),
        decreases calls@.len() - k,
    {
        let ghost done = calls@.subrange(0, k as int);
        let ghost next = calls@.subrange(0, k + 1);
        if calls[k].arrival.0 > calls[k].departure.0 {
            return false;
        }
        if k > 0 {
            if calls[k - 1].stop_sequence >= calls[k].stop_sequence || calls[k - 1].departure.0
                > calls[k].arrival.0 {
                return false;
            }
        }
        proof {
            assert forall|j: int| 0 <= j < next.len() implies (#[trigger] next[j]).arrival.0
                <= next[j].departure.0 by {
                if j < k {
                    assert(done[j] == next[j]);
                }
            }
            assert forall|i: int, j: int| 0 <= i < j < next.len() implies (
            #[trigger] next[i]).stop_sequence < (#[trigger] next[j]).stop_sequence
                && next[i].departure.0 <= next[j].arrival.0 by {
                assert(done[i] == next[i]);
                if j < k {
                    assert(done[j] == next[j]);
                } else if i < k - 1 {
                    assert(done[k - 1] == next[k - 1]);
                }
            }
        }
        k += 1;
    }
    assert(calls@.subrange(0, k as int) =~= calls@);
    true
}

/// A sequence into which an item is inserted holds the item and what it held.
proof fn lemma_insert_keeps<A>(s: Seq<A>, pos: int, a: A, x: A)
    requires
        0 <= pos <= s.len(),
        s.contains(x) || x == a,
    ensures
        s.insert(pos, a).contains(x),
{
    let r = s.insert(pos, a);
    if x == a {
        assert(r[pos] == x);
    } else {
        let i = choose|i: int| 0 <= i < s.len() && s[i] == x;
        if i < pos {
            assert(r[i] == x);
        } else {
            assert(r[i + 1] == x);
        }
    }
}

/// For every stop the pickups that the timetable offers there, in order,
/// together with the timetable they were taken from.
pub struct PickupIndex {
    timetable: Gtfs1,
    entries: Vec<PickupEntry>,
}

impl PickupIndex {
    /// The timetable that the index was built from.
    pub closed spec fn model(&self) -> TimetableView {
        self.timetable@
    }

    /// The timetable is sound, and the entries are its pickups, each once, in order.
    pub closed spec fn wf(&self) -> bool {
        &&& countable(self.timetable@)
        &&& stops_known(self.timetable@)
        &&& trips_ordered(self.timetable@)
        &&& entries_sorted(self.entries@)
        &&& forall|i: int|
            0 <= i < self.entries@.len() ==> is_pickup_at(
                self.timetable@,
                (#[trigger] self.entries@[i]).stop,
                self.entries@[i].info,
            )
        &&& forall|t: int, k: int|
            boardable(self.timetable@, t, k) ==> self.entries@.contains(
                #[trigger] entry_of(self.timetable@, t, k),
            )
    }

    /// A well-formed index holds a timetable whose stop references are known
    /// and whose trips are ordered.
    pub proof fn lemma_model_sound(&self)
        requires
            self.wf(),
        ensures
            countable(self.model()),
            stops_known(self.model()),
            trips_ordered(self.model()),
    {
    }

    /// The timetable that the index was built from.
    pub fn timetable(&self) -> (tt: &Gtfs1)
        ensures
            tt@ == self.model(),
    {
        &self.timetable
    }

    /// Checks the timetable and collects its pickups.
    ///
    /// A call at an unknown stop is reported first; otherwise a trip whose
    /// calls are out of order.
    pub fn build(timetable: Gtfs1) -> (built: Result<PickupIndex, DataIntegrityError>)
        ensures
            !stops_known(timetable@) ==> built == Err::<PickupIndex, DataIntegrityError>(
                DataIntegrityError::UnknownStop,
            ),
            stops_known(timetable@) && !trips_ordered(timetable@) ==> built == Err::<
                PickupIndex,
                DataIntegrityError,
            >(DataIntegrityError::UnsortedStopTimes),
            stops_known(timetable@) && trips_ordered(timetable@) ==> built.is_ok()
                && built.unwrap().wf() && built.unwrap().model() == timetable@,
    {
        let stop_count = timetable.stops.len();
        let trip_count = timetable.trips.len();
        if !all_stops_known(&timetable) {
            return Err(DataIntegrityError::UnknownStop);
        }
        if !all_trips_ordered(&timetable) {
            return Err(DataIntegrityError::UnsortedStopTimes);
        }
        let entries = collect_entries(&timetable);
        assert(countable(timetable@)) by {
            assert(timetable.stops@.len() <= usize::MAX);
            assert(timetable.trips@.len() <= usize::MAX);
        }
        Ok(PickupIndex { timetable, entries })
    }

    /// The earliest pickup at `stop_id` that leaves at `not_before` or later,
    /// or `None` where no pickup there leaves that late.
#[verifier::rlimit(60)]
    pub fn next_departure(&self, stop_id: u64, not_before: Time) -> (next: Option<BusPickupInfo>)
        requires
            self.wf(),
        ensures
            match next {
                Some(e) => is_earliest_pickup(self.model(), stop_id, not_before.0 as int, e),
                None => no_pickup_from(self.model(), stop_id, not_before.0 as int),
            },
    {
        let key = PickupEntry {
            stop: stop_id,
            info: BusPickupInfo { timestamp: not_before, stop_sequence_no: 0, trip_id: (0, 0) },
        };
        let pos = lower_bound(&self.entries, &key);
        let ghost tt = self.timetable@;
        let ghost entries = self.entries@;
        proof {
            // Every pickup at the stop that leaves late enough sits at or after `pos`.
            assert forall|o: BusPickupInfo| #[trigger]
                is_pickup_at(tt, stop_id, o) && o.timestamp.0 >= not_before.0 implies exists|
                j: int,
            |
                pos <= j < entries.len() && entries[j] == (PickupEntry { stop: stop_id, info: o }) by {
                let (t, k) = choose|t: int, k: int|
                    boardable(tt, t, k) && tt.trips[t].stop_times[k].stop == stop_id
                        && #[trigger] pickup_of(tt, t, k) == o;
                let en = entry_of(tt, t, k);
                assert(entries.contains(en));
                let j = choose|j: int| 0 <= j < entries.len() && entries[j] == en;
                if j < pos {
                    assert(entry_lt(entries[j], key));
                }
            }
        }
        if pos < self.entries.len() && self.entries[pos].stop == stop_id {
            let found = self.entries[pos].info;
            proof {
                assert(!entry_lt(entries[pos as int], key));
                assert forall|o: BusPickupInfo| #[trigger]
                    is_pickup_at(tt, stop_id, o) && o.timestamp.0 >= not_before.0 implies pickup_le(
                    found,
                    o,
                ) by {
                    let j = choose|j: int|
                        pos <= j < entries.len() && entries[j] == (PickupEntry {
                            stop: stop_id,
                            info: o,
                        });
                    if j > pos {
                        assert(entry_lt(entries[pos as int], entries[j]));
                    }
                }
            }
            Some(found)
        } else {
            proof {
                assert forall|o: BusPickupInfo| #[trigger]
                    is_pickup_at(tt, stop_id, o) implies o.timestamp.0 < not_before.0 by {
                    if o.timestamp.0 >= not_before.0 {
                        let j = choose|j: int|
                            pos <= j < entries.len() && entries[j] == (PickupEntry {
                                stop: stop_id,
                                info: o,
                            });
                        assert(!entry_lt(entries[pos as int], key));
                        if j > pos {
                            assert(entry_lt(entries[pos as int], entries[j]));
                        }
                    }
                }
            }
            None
        }
    }
}

/// Tells whether every call of every trip refers to a stop of the timetable.
fn all_stops_known(tt: &Gtfs1) -> (ok: bool)
    ensures
        ok == stops_known(tt@),
{
    let stop_count: usize = tt.stops.len();
    let mut t: usize = 0;
    while t < tt.trips.len()
        invariant
            t <= tt.trips@.len(),
            stop_count == tt.stops@.len(),
            forall|a: int, k: int|
                0 <= a < t && 0 <= k < tt@.trips[a].stop_times.len() ==> (
                #[trigger] tt@.trips[a].stop_times[k]).stop < tt@.stops.len(),
        decreases tt.trips@.len() - t,
    {
        let trip = &tt.trips[t];
        assert(tt@.trips[t as int] == trip@);
        let mut k: usize = 0;
        while k < trip.stop_times.len()
            invariant
                k <= trip.stop_times@.len(),
                0 <= t < tt.trips@.len(),
                stop_count == tt.stops@.len(),
                tt@.trips[t as int] == trip@,
                forall|j: int| 0 <= j < k ==> (#[trigger] trip.stop_times@[j]).stop < stop_count,
            decreases trip.stop_times@.len() - k,
        {
            if trip.stop_times[k].stop >= stop_count as u64 {
                assert(!(tt@.trips[t as int].stop_times[k as int].stop < tt@.stops.len()));
                return false;
            }
            k += 1;
        }
        t += 1;
    }
    true
}

/// Tells whether the calls of every trip are ordered.
fn all_trips_ordered(tt: &Gtfs1) -> (ok: bool)
    ensures
        ok == trips_ordered(tt@),
{
    let mut t: usize = 0;
    while t < tt.trips.len()
        invariant
            t <= tt.trips@.len(),
            forall|a: int| 0 <= a < t ==> calls_ordered((#[trigger] tt@.trips[a]).stop_times),
        decreases tt.trips@.len() - t,
    {
        assert(tt@.trips[t as int] == tt.trips@[t as int]@);
        if !calls_are_ordered(&tt.trips[t].stop_times) {
            return false;
        }
        t += 1;
    }
    true
}

/// Calls before call `k` of trip `t` in the order in which the timetable is read.
spec fn read_before(a: int, j: int, t: int, k: int) -> bool {
    a < t || (a == t && j < k)
}

/// Entry `e` stems from the call `src`, which was read before call `k` of trip `t`.
spec fn read_from(tt: TimetableView, e: PickupEntry, src: (int, int), t: int, k: int) -> bool {
    boardable(tt, src.0, src.1) && read_before(src.0, src.1, t, k) && e == entry_of(
        tt,
        src.0,
        src.1,
    )
}

/// Collects the pickups of a sound timetable, in the order of entries.
#[verifier::rlimit(60)]
fn collect_entries(tt: &Gtfs1) -> (entries: Vec<PickupEntry>)
    requires
        stops_known(tt@),
        trips_ordered(tt@),
    ensures
        entries_sorted(entries@),
        forall|i: int|
            0 <= i < entries@.len() ==> is_pickup_at(
                tt@,
                (#[trigger] entries@[i]).stop,
                entries@[i].info,
            ),
        forall|t: int, k: int|
            boardable(tt@, t, k) ==> entries@.contains(#[trigger] entry_of(tt@, t, k)),
{
    let mut entries: Vec<PickupEntry> = Vec::new();
    let ghost mut origin: Seq<(int, int)> = Seq::empty();
    let mut t: usize = 0;
    while t < tt.trips.len()
        invariant
            t <= tt.trips@.len(),
            trips_ordered(tt@),
            entries_sorted(entries@),
            origin.len() == entries@.len(),
            forall|i: int|
                0 <= i < entries@.len() ==> #[trigger] read_from(
                    tt@,
                    entries@[i],
                    origin[i],
                    t as int,
                    0,
                ),
            forall|a: int, j: int|
                boardable(tt@, a, j) && read_before(a, j, t as int, 0) ==> entries@.contains(
                    #[trigger] entry_of(tt@, a, j),
                ),
        decreases tt.trips@.len() - t,
    {
        let trip = &tt.trips[t];
        assert(tt@.trips[t as int] == trip@);
        let mut k: usize = 0;
        let last: usize = if trip.stop_times.len() == 0 {
            0
        } else {
            trip.stop_times.len() - 1
        };
        while k < last
            invariant
                last == if trip.stop_times@.len() == 0 {
                    0
                } else {
                    trip.stop_times@.len() - 1
                },
                0 <= t < tt.trips@.len(),
                k <= trip.stop_times@.len(),
                tt@.trips[t as int] == trip@,
                trips_ordered(tt@),
                entries_sorted(entries@),
                origin.len() == entries@.len(),
                forall|i: int|
                    0 <= i < entries@.len() ==> #[trigger] read_from(
                        tt@,
                        entries@[i],
                        origin[i],
                        t as int,
                        k as int,
                    ),
                forall|a: int, j: int|
                    boardable(tt@, a, j) && read_before(a, j, t as int, k as int)
                        ==> entries@.contains(#[trigger] entry_of(tt@, a, j)),
            decreases trip.stop_times@.len() - k,
        {
            let call = trip.stop_times[k];
            let entry = PickupEntry {
                stop: call.stop,
                info: BusPickupInfo {
                    timestamp: call.departure,
                    stop_sequence_no: call.stop_sequence,
                    trip_id: (trip.agency, t as u64),
                },
            };
            assert(entry == entry_of(tt@, t as int, k as int));
            let pos = lower_bound(&entries, &entry);
            let ghost before = entries@;
            let ghost before_origin = origin;
            proof {
                // The new entry differs from every entry already there.
                assert forall|i: int| 0 <= i < before.len() implies before[i] != entry by {
                    let (a, j) = before_origin[i];
                    assert(read_from(tt@, before[i], before_origin[i], t as int, k as int));
                    if before[i] == entry {
                        assert(a as u64 == t as u64);
                        assert(a == t);
                        assert(calls_ordered(tt@.trips[t as int].stop_times));
                        assert(trip.stop_times@[j].stop_sequence == trip.stop_times@[k as
                            int].stop_sequence);
                    }
                }
            }
            entries.insert(pos, entry);
            proof {
                origin = origin.insert(pos as int, (t as int, k as int));
                let after = entries@;
                assert forall|i: int, j: int| 0 <= i < j < after.len() implies entry_lt(
                    after[i],
                    after[j],
                ) by {
                    if i < pos && j == pos {
                        assert(entry_lt(before[i], entry));
                    } else if i == pos {
                        assert(!entry_lt(before[j - 1], entry));
                        assert(before[j - 1] != entry);
                    } else if j < pos {
                        assert(entry_lt(before[i], before[j]));
                    } else if i < pos {
                        assert(entry_lt(before[i], before[j - 1]));
                    } else {
                        assert(entry_lt(before[i - 1], before[j - 1]));
                    }
                }
                assert forall|i: int| 0 <= i < after.len() implies #[trigger] read_from(
                    tt@,
                    after[i],
                    origin[i],
                    t as int,
                    k + 1,
                ) by {
                    if i < pos {
                        assert(read_from(tt@, before[i], before_origin[i], t as int, k as int));
                    } else if i > pos {
                        assert(read_from(
                            tt@,
                            before[i - 1],
                            before_origin[i - 1],
                            t as int,
                            k as int,
                        ));
                    }
                }
                assert forall|a: int, j: int|
                    boardable(tt@, a, j) && read_before(a, j, t as int, k + 1) implies after.contains(
                    #[trigger] entry_of(tt@, a, j),
                ) by {
                    if read_before(a, j, t as int, k as int) {
                        assert(before.contains(entry_of(tt@, a, j)));
                    }
                    lemma_insert_keeps(before, pos as int, entry, entry_of(tt@, a, j));
                }
            }
            k += 1;
        }
        proof {
            assert forall|i: int| 0 <= i < entries@.len() implies #[trigger] read_from(
                tt@,
                entries@[i],
                origin[i],
                t + 1,
                0,
            ) by {
                assert(read_from(tt@, entries@[i], origin[i], t as int, k as int));
            }
        }
        t += 1;
    }
    proof {
        assert forall|i: int| 0 <= i < entries@.len() implies is_pickup_at(
            tt@,
            (#[trigger] entries@[i]).stop,
            entries@[i].info,
        ) by {
            let (a, j) = origin[i];
            assert(read_from(tt@, entries@[i], origin[i], t as int, 0));
            assert(boardable(tt@, a, j) && tt@.trips[a].stop_times[j].stop == entries@[i].stop
                && pickup_of(tt@, a, j) == entries@[i].info);
        }
    }
    entries
}

} // verus!
