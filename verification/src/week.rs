//! Week-start preference for grid layout (Monday-first by default, ISO 8601).
use vstd::prelude::*;
use crate::date::{Date, valid_day, weekday_from_sunday};

verus! {

/// First day of the week used by the month/week grids.
#[derive(Debug, Clone, Copy, PartialEq, Eq, Structural)]
pub enum WeekStart {
    Sunday,
    Monday,
}

impl Default for WeekStart {
    fn default() -> (r: Self)
        ensures
            r == WeekStart::Monday,
    {
        WeekStart::Monday
    }
}

/// Days from the start of `day`'s week to `day` (0..=6).
pub open spec fn spec_days_since_start(ws: WeekStart, day: int) -> int {
    match ws {
        WeekStart::Sunday => weekday_from_sunday(day),
        WeekStart::Monday => (weekday_from_sunday(day) + 6) % 7,
    }
}

/// Day number of the first day of `day`'s week.
pub open spec fn spec_start_of(ws: WeekStart, day: int) -> int {
    day - spec_days_since_start(ws, day)
}

impl WeekStart {
    /// Days from this week's start to `date`'s weekday (0..=6).
    pub fn days_since_start(&self, date: Date) -> (r: i64)
        ensures
            r == spec_days_since_start(*self, date@),
            0 <= r < 7,
    {
        let sunday_based = date.weekday_from_sunday() as i64;
        match self {
            WeekStart::Sunday => sunday_based,
            WeekStart::Monday => (sunday_based + 6) % 7,
        }
    }

    /// Date of the week-start for the week containing `date`.
    pub fn start_of(&self, date: Date) -> (r: Date)
        requires
            valid_day(spec_start_of(*self, date@)),
        ensures
            r@ == spec_start_of(*self, date@),
    {
        let back = self.days_since_start(date);
        date.checked_add_days(-back).unwrap()
    }
}

/// Law: the start of a week lies at most six days before the day, and is
/// itself the first day of that week.
pub proof fn lemma_start_of_is_week_start(ws: WeekStart, day: int)
    ensures
        spec_start_of(ws, day) <= day < spec_start_of(ws, day) + 7,
        spec_days_since_start(ws, spec_start_of(ws, day)) == 0,
        spec_start_of(ws, spec_start_of(ws, day)) == spec_start_of(ws, day),
{
    let k = spec_days_since_start(ws, day);
    assert(weekday_from_sunday(day - k) == (weekday_from_sunday(day) - k) % 7);
}

/// Law: every day from a week's start through the six days after it has
/// that same week start.
pub proof fn lemma_same_week(ws: WeekStart, day: int, k: int)
    requires
        0 <= k < 7,
    ensures
        spec_start_of(ws, spec_start_of(ws, day) + k) == spec_start_of(ws, day),
{
    let s = spec_start_of(ws, day);
    lemma_start_of_is_week_start(ws, day);
    assert(weekday_from_sunday(s + k) == (weekday_from_sunday(s) + k) % 7);
}

} // verus!
