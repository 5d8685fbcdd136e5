//! Calendar events and their dates.
use vstd::prelude::*;

verus! {

/// A named event on a date.
pub struct Event {
    pub name: String,
    pub month: u8,
    pub day: u8,
    pub year: u32,
}

impl Event {
    pub fn new(name: String, month: u8, day: u8, year: u32) -> (r: Event)
        ensures
            r.name@ == name@,
            r.month == month,
            r.day == day,
            r.year == year,
    {
        Event { name, month, day, year }
    }

    /// Whether the two events fall on the same date.
    pub fn has_conflict(&self, other: &Event) -> (r: bool)
        ensures
            r == (self.month == other.month && self.day == other.day && self.year == other.year),
    {
        self.month == other.month && self.day == other.day && self.year == other.year
    }

    /// Moves the event to the next day of the same month; the event is not
    /// on the last day of its month.
    pub fn update_event(&mut self)
        requires
            old(self).day < u8::MAX,
        ensures
            final(self).day == old(self).day + 1,
            final(self).month == old(self).month,
            final(self).year == old(self).year,
            final(self).name@ == old(self).name@,
    {
        self.day = self.day + 1;
    }
}

} // verus!
