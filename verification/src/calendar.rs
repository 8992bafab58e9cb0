//! Days of the week and the next working day.

use vstd::prelude::*;

verus! {

/// Day of week.
#[derive(Debug, Clone, Copy, PartialEq, Eq, Structural)]
pub enum DayOfWeek {
    /// Sunday.
    Sun,
    /// Monday.
    Mon,
    /// Tuesday.
    Tue,
    /// Wednesday.
    Wed,
    /// Thursday.
    Thu,
    /// Friday.
    Fri,
    /// Saturday.
    Sat,
}

/// The weekday that work continues on after the given day: the following
/// day, except that Friday through Sunday all continue on Monday.
pub open spec fn next_weekday_spec(day: DayOfWeek) -> DayOfWeek {
    match day {
        DayOfWeek::Sun => DayOfWeek::Mon,
        DayOfWeek::Mon => DayOfWeek::Tue,
        DayOfWeek::Tue => DayOfWeek::Wed,
        DayOfWeek::Wed => DayOfWeek::Thu,
        DayOfWeek::Thu => DayOfWeek::Fri,
        DayOfWeek::Fri => DayOfWeek::Mon,
        DayOfWeek::Sat => DayOfWeek::Mon,
    }
}

/// The next day of week on which work happens.
pub fn next_weekday(day: DayOfWeek) -> (r: DayOfWeek)
    ensures
        r == next_weekday_spec(day),
{
    match day {
        DayOfWeek::Sun => DayOfWeek::Mon,
        DayOfWeek::Mon => DayOfWeek::Tue,
        DayOfWeek::Tue => DayOfWeek::Wed,
        DayOfWeek::Wed => DayOfWeek::Thu,
        DayOfWeek::Thu => DayOfWeek::Fri,
        DayOfWeek::Fri => DayOfWeek::Mon,
        DayOfWeek::Sat => DayOfWeek::Mon,
    }
}

} // verus!
