//! Simulation time and the kinds of structures agents head for.
use vstd::prelude::*;
use crate::agent::DAY;

verus! {

/// Time within the simulation: seconds since it began, seconds since the
/// current day began, and the day of the week (Sunday is 0).
#[derive(Debug, Clone, Copy, PartialEq, Eq, Structural)]
pub struct Time {
    pub day_of_week: i64,
    pub abs_time: i64,
    pub day_time: i64,
}

impl Time {
    pub fn new() -> (r: Self)
        ensures
            r.day_of_week == 0,
            r.abs_time == 0,
            r.day_time == 0,
    {
        Time { day_of_week: 0, abs_time: 0, day_time: 0 }
    }

    /// Advances the clock by `seconds`; when the time of day reaches a full
    /// day it wraps once, and the day of the week moves on, wrapping after
    /// Saturday.
    pub fn advance(&mut self, seconds: i64)
        requires
            i64::MIN <= old(self).abs_time + seconds <= i64::MAX,
            i64::MIN <= old(self).day_time + seconds <= i64::MAX,
            old(self).day_of_week < i64::MAX,
        ensures
            final(self).abs_time == old(self).abs_time + seconds,
            old(self).day_time + seconds >= DAY ==> {
                &&& final(self).day_time == old(self).day_time + seconds - DAY
                &&& final(self).day_of_week == (if old(self).day_of_week + 1 >= 7 {
                    0
                } else {
                    old(self).day_of_week + 1
                })
            },
            old(self).day_time + seconds < DAY ==> {
                &&& final(self).day_time == old(self).day_time + seconds
                &&& final(self).day_of_week == old(self).day_of_week
            },
    {
        self.abs_time = self.abs_time + seconds;
        self.day_time = self.day_time + seconds;
        if self.day_time >= DAY {
            self.day_time = self.day_time - DAY;
            self.day_of_week = self.day_of_week + 1;
            if self.day_of_week >= 7 {
                self.day_of_week = 0;
            }
        }
    }
}

/// Kinds of places that agents travel between.
#[derive(Debug, Clone, Copy, PartialEq, Eq, Hash, Structural)]
pub enum StructureType {
    Home,
    Work,
    School,
}

impl StructureType {
    /// The letter that marks this kind of structure on a map.
    pub fn letter(&self) -> (r: char)
        ensures
            r == (match *self {
                StructureType::Home => 'H',
                StructureType::Work => 'W',
                StructureType::School => 'S',
            }),
    {
        match self {
            StructureType::Home => 'H',
            StructureType::Work => 'W',
            StructureType::School => 'S',
        }
    }
}

} // verus!
