use vstd::prelude::*;

verus! {

/// Microseconds in one second.
pub const MICROS_PER_SECOND: u64 = 1_000_000;

/// A time of day, in whole microseconds since midnight of the service day.
#[derive(Clone, Copy, Debug, PartialEq, Eq, PartialOrd, Ord, Hash, Structural)]
pub struct Time(pub u64);

impl Time {
    /// The instant `secs` whole seconds after midnight.
    pub fn from_seconds(secs: u32) -> (t: Time)
        ensures
            t.0 == secs * 1_000_000,
    {
        Time((secs as u64) * MICROS_PER_SECOND)
    }

    /// Whole seconds since midnight, rounded down.
    pub fn whole_seconds(&self) -> (secs: u64)
        ensures
            secs == self.0 / 1_000_000,
    {
        self.0 / MICROS_PER_SECOND
    }

    /// This instant moved `micros` microseconds later, or `None` where that
    /// leaves the representable range.
    pub fn checked_after(&self, micros: u64) -> (later: Option<Time>)
        ensures
            later == if self.0 + micros <= u64::MAX {
                Some(Time((self.0 + micros) as u64))
            } else {
                None
            },
    {
        match self.0.checked_add(micros) {
            Some(v) => Some(Time(v)),
            None => None,
        }
    }
}

} // verus!
