//! Plain values exchanged with Vamp audio-analysis plugins.

use vstd::prelude::*;

verus! {

/// A time value: seconds and nanoseconds.
#[derive(Debug, Clone, Copy, PartialEq, Eq, Structural)]
pub struct RealTime {
    /// The seconds component of the time value
    pub sec: i32,
    /// The nanoseconds component of the time value
    pub nsec: i32,
}

impl RealTime {
    pub fn new(sec: i32, nsec: i32) -> (t: Self)
        ensures
            t.sec == sec,
            t.nsec == nsec,
    {
        Self { sec, nsec }
    }
}

/// Whether a plugin takes its input as samples in time or as spectra.
#[derive(Debug, Clone, Copy, PartialEq, Eq, Structural)]
pub enum InputDomain {
    TimeDomain,
    FrequencyDomain,
}

impl InputDomain {
    /// The domain that the plugin host reports as `code`: 0 for time, 1 for
    /// frequency (the host reports no other code).
    pub fn from_code(code: i32) -> (d: Self)
        requires
            code == 0 || code == 1,
        ensures
            code == 0 ==> d == InputDomain::TimeDomain,
            code == 1 ==> d == InputDomain::FrequencyDomain,
    {
        if code == 0 {
            InputDomain::TimeDomain
        } else {
            InputDomain::FrequencyDomain
        }
    }
}

} // verus!
