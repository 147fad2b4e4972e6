//! The ship on the Outpost's pad, and whether it is still in the air.
//!
//! Presentation only: where the ship is now is a function of when it left.
use vstd::prelude::*;

verus! {

/// How long a launch is on screen for, in journal ticks: ten seconds.
pub const FLIGHT_TICKS: u64 = 64 * 10;

/// One launch: the tick it lifted, and what went up.
#[derive(Debug, Clone, PartialEq, Eq)]
pub struct Launch {
    pub depart: u64,
    /// The manifest, as it was read out: "40 COPPER ORE".
    pub manifest: String,
}

impl Launch {
    /// Ticks it has been flying at `now`, or `None` once it is gone.
    pub fn in_flight(&self, now: u64) -> (flown: Option<u64>)
        ensures
            ({
                let f: int = if now >= self.depart {
                    now - self.depart
                } else {
                    0
                };
                if f >= FLIGHT_TICKS {
                    flown is None
                } else {
                    flown == Some(f as u64)
                }
            }),
    {
        let flown = now.saturating_sub(self.depart);
        if flown >= FLIGHT_TICKS {
            return None;
        }
        Some(flown)
    }
}

} // verus!
