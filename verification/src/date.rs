use vstd::prelude::*;
use crate::time::Time;

verus! {

/// A calendar date in the proleptic Gregorian calendar, stored as its day
/// number, with January 1 of year 1 being day 1 (a Monday).
#[derive(Clone, Copy, PartialEq, Eq, Structural, Debug)]
pub struct Date {
    pub days: u64,
}

/// Days from Monday to the weekday of day number `days`: 0 for Monday
/// through 6 for Sunday.
pub open spec fn weekday_index_spec(days: u64) -> int {
    (days + 6) % 7
}

impl Date {
    /// Days from Monday to this date's weekday: 0 for Monday through 6 for
    /// Sunday.
    pub fn weekday_index(self) -> (r: u64)
        ensures
            r == weekday_index_spec(self.days),
            r < 7,
    {
        proof {
            vstd::arithmetic::div_mod::lemma_add_mod_noop(self.days as int, 6, 7);
        }
        (self.days % 7 + 6) % 7
    }

    /// Whether this date falls on a Monday.
    pub fn is_monday(self) -> (r: bool)
        ensures
            r == (weekday_index_spec(self.days) == 0),
    {
        self.weekday_index() == 0
    }

    /// The date one day earlier, if there is one in range.
    pub fn previous(self) -> (r: Option<Date>)
        ensures
            r is Some <==> self.days > 0,
            r is Some ==> r->0.days == self.days - 1,
    {
        if self.days > 0 {
            Some(Date { days: self.days - 1 })
        } else {
            None
        }
    }

    /// The date `n` days earlier, if there is one in range.
    pub fn back(self, n: u64) -> (r: Option<Date>)
        ensures
            r is Some <==> n <= self.days,
            r is Some ==> r->0.days == self.days - n,
    {
        if n <= self.days {
            Some(Date { days: self.days - n })
        } else {
            None
        }
    }
}

/// What the clock supplies: the current date and the current time of day.
/// The clock itself is an external collaborator; operations that need "now"
/// take one of these as a plain argument.
#[derive(Clone, Copy, PartialEq, Eq, Structural, Debug)]
pub struct Clock {
    pub today: Date,
    pub time: Time,
}

impl Clock {
    /// A clock reading is valid when its time of day is.
    pub open spec fn valid(self) -> bool {
        self.time.valid()
    }
}

} // verus!
