//! The pure side of the leaderboard cache: turning a raw score in
//! milliseconds into the minute/second/millisecond triple the protocol
//! carries.

use vstd::prelude::*;

verus! {

/// One leaderboard time, split the way the wire format wants it.
#[derive(Clone, Copy, Debug, PartialEq, Eq, Structural)]
pub struct RaceTime {
    pub minutes: u32,
    pub seconds: u32,
    pub millis: u32,
}

impl RaceTime {
    /// Splits a score counted in milliseconds into minutes, seconds and
    /// milliseconds.
    pub fn from_score(score: u32) -> (r: RaceTime)
        ensures
            r.minutes == ((score / 1000) - (score / 1000) % 60) / 60,
            r.seconds == (score / 1000) % 60,
            r.millis == score % 1000,
            r.minutes == score / 60000,
    {
        let total_seconds = score / 1000;
        let r = RaceTime {
            minutes: (total_seconds - total_seconds % 60) / 60,
            seconds: total_seconds % 60,
            millis: score % 1000,
        };
        proof {
            assert(r.minutes == score / 60000) by (nonlinear_arith)
                requires
                    r.minutes == ((score / 1000) - (score / 1000) % 60) / 60,
            ;
        }
        r
    }
}

} // verus!
