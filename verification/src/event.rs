//! Named events on a calendar date.
use vstd::prelude::*;

verus! {

#[derive(Clone, Eq, PartialEq)]
pub struct Event {
    pub name: String,
    pub month: u8,
    pub day: u8,
    pub year: u32,
}

/// Two events fall on the same date.
pub open spec fn same_date(a: Event, b: Event) -> bool {
    a.month == b.month && a.day == b.day && a.year == b.year
}

impl Event {
    pub fn new(name: String, month: u8, day: u8, year: u32) -> (r: Event)
        ensures
            r.name@ == name@,
            r.month == month,
            r.day == day,
            r.year == year,
    {
        Event { name, month, day, year }
    }

    /// Whether the two events are on the same date.
    pub fn has_conflict(&self, other_event: &Event) -> (r: bool)
        ensures
            r == same_date(*self, *other_event),
            r == (self.month == other_event.month && self.day == other_event.day && self.year
                == other_event.year),
    {
        self.month == other_event.month && self.day == other_event.day && self.year
            == other_event.year
    }

    /// Shifts the event by one day. The date is assumed not to be the last
    /// day of its month; the day number must not be the largest `u8`.
    pub fn update_event(&mut self)
        requires
            old(self).day < u8::MAX,
        ensures
            final(self).day == old(self).day + 1,
            final(self).month == old(self).month,
            final(self).year == old(self).year,
            final(self).name@ == old(self).name@,
    {
        self.day = self.day + 1
    }
}

/// Being on the same date is an equivalence: every event conflicts with
/// itself, conflicts are mutual, and two events that conflict with a third
/// conflict with each other.
pub proof fn lemma_conflict_equivalence(a: Event, b: Event, c: Event)
    ensures
        same_date(a, a),
        same_date(a, b) == same_date(b, a),
        same_date(a, b) && same_date(b, c) ==> same_date(a, c),
{
}

/// Once shifted by a day, an event no longer conflicts with the event it was
/// before the shift, nor with any event on that date.
pub proof fn lemma_shift_leaves_date(before: Event, after: Event, other: Event)
    requires
        after.day == before.day + 1,
        same_date(before, other),
    ensures
        !same_date(after, other),
        !same_date(after, before),
{
}

/// Two events conflict exactly when no part of their dates differs: events
/// in different months, on different days of the month or in different
/// years never conflict, and events that agree on all three always do,
/// whatever their names.
pub proof fn lemma_conflict_is_date_equality(a: Event, b: Event)
    ensures
        a.month != b.month ==> !same_date(a, b),
        a.day != b.day ==> !same_date(a, b),
        a.year != b.year ==> !same_date(a, b),
        a.month == b.month && a.day == b.day && a.year == b.year ==> same_date(a, b),
{
}

/// Numbering each date by its year, month and day in turn (a different
/// number for every date that the fields can hold), two events conflict
/// exactly when their dates have the same number.
pub proof fn lemma_conflict_by_date_number(a: Event, b: Event)
    ensures
        same_date(a, b) <==> a.year as int * 65536 + a.month as int * 256 + a.day as int == b.year as int
            * 65536 + b.month as int * 256 + b.day as int,
{
    let na = a.year as int * 65536 + a.month as int * 256 + a.day as int;
    let nb = b.year as int * 65536 + b.month as int * 256 + b.day as int;
    if na == nb {
        assert(a.day as int == na % 256) by (nonlinear_arith)
            requires
                na == a.year as int * 65536 + a.month as int * 256 + a.day as int,
                0 <= a.day < 256,
                0 <= a.month < 256,
                a.year >= 0,
        ;
        assert(b.day as int == nb % 256) by (nonlinear_arith)
            requires
                nb == b.year as int * 65536 + b.month as int * 256 + b.day as int,
                0 <= b.day < 256,
                0 <= b.month < 256,
                b.year >= 0,
        ;
        assert(a.month as int == (na / 256) % 256) by (nonlinear_arith)
            requires
                na == a.year as int * 65536 + a.month as int * 256 + a.day as int,
                0 <= a.day < 256,
                0 <= a.month < 256,
                a.year >= 0,
        ;
        assert(b.month as int == (nb / 256) % 256) by (nonlinear_arith)
            requires
                nb == b.year as int * 65536 + b.month as int * 256 + b.day as int,
                0 <= b.day < 256,
                0 <= b.month < 256,
                b.year >= 0,
        ;
        assert(a.year as int == na / 65536) by (nonlinear_arith)
            requires
                na == a.year as int * 65536 + a.month as int * 256 + a.day as int,
                0 <= a.day < 256,
                0 <= a.month < 256,
                a.year >= 0,
        ;
        assert(b.year as int == nb / 65536) by (nonlinear_arith)
            requires
                nb == b.year as int * 65536 + b.month as int * 256 + b.day as int,
                0 <= b.day < 256,
                0 <= b.month < 256,
                b.year >= 0,
        ;
    }
}

} // verus!
