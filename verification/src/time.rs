//! Deterministic simulation clock.
//!
//! Primary strategic time advances day by day. Quarters are the sub-day
//! scheduling seam (convoy contact windows run once per quarter).

use vstd::prelude::*;

verus! {

/// Sub-day quarter marker.
#[derive(Debug, Clone, Copy, PartialEq, Eq, Structural, PartialOrd, Ord, Hash)]
pub enum DayQuarter {
    Q1,
    Q2,
    Q3,
    Q4,
}

/// The simulation clock. Day 0 is the seed day; the first tick moves to
/// day 1.
#[derive(Debug, Clone, Copy, PartialEq, Eq, Structural)]
pub struct SimClock {
    pub day: u64,
    pub quarter: DayQuarter,
}

impl SimClock {
    pub fn start() -> (c: Self)
        ensures
            c.day == 0,
            c.quarter == DayQuarter::Q1,
    {
        SimClock { day: 0, quarter: DayQuarter::Q1 }
    }

    pub(crate) fn advance_day(&mut self)
        requires
            old(self).day < u64::MAX,
        ensures
            final(self).day == old(self).day + 1,
            final(self).quarter == DayQuarter::Q1,
    {
        self.day = self.day + 1;
        self.quarter = DayQuarter::Q1;
    }
}

} // verus!
