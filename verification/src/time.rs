//! Clock times, civil dates, and weekday sets for meeting times.

use vstd::prelude::*;

verus! {

/// A clock time of day, to minute precision.
#[derive(Clone, Copy, PartialEq, Eq, Structural, Debug)]
pub struct TimeOfDay {
    pub hour: u8,
    pub minute: u8,
}

impl TimeOfDay {
    /// The time counted as minutes since midnight.
    pub open spec fn spec_minutes(self) -> int {
        self.hour * 60 + self.minute
    }

    /// Minutes since midnight; fits `u16` for every `hour` and `minute`.
    pub fn minutes(self) -> (m: u16)
        ensures
            m == self.spec_minutes(),
    {
        self.hour as u16 * 60 + self.minute as u16
    }
}

/// A civil calendar date, compared field by field.
#[derive(Clone, Copy, PartialEq, Eq, Structural, Debug)]
pub struct Date {
    pub year: i16,
    pub month: u8,
    pub day: u8,
}

/// Strict order on dates: year, then month, then day.
pub open spec fn date_lt(a: Date, b: Date) -> bool {
    ||| a.year < b.year
    ||| (a.year == b.year && a.month < b.month)
    ||| (a.year == b.year && a.month == b.month && a.day < b.day)
}

impl Date {
    /// Whether this date falls strictly before `other`.
    pub fn lt(self, other: Date) -> (r: bool)
        ensures
            r == date_lt(self, other),
    {
        if self.year != other.year {
            self.year < other.year
        } else if self.month != other.month {
            self.month < other.month
        } else {
            self.day < other.day
        }
    }
}

/// The set of weekdays on which a meeting recurs.
#[derive(Clone, Copy, PartialEq, Eq, Structural, Debug)]
pub struct Days {
    pub monday: bool,
    pub tuesday: bool,
    pub wednesday: bool,
    pub thursday: bool,
    pub friday: bool,
    pub saturday: bool,
    pub sunday: bool,
}

/// Whether two weekday sets share at least one day.
pub open spec fn days_overlap(a: Days, b: Days) -> bool {
    ||| (a.monday && b.monday)
    ||| (a.tuesday && b.tuesday)
    ||| (a.wednesday && b.wednesday)
    ||| (a.thursday && b.thursday)
    ||| (a.friday && b.friday)
    ||| (a.saturday && b.saturday)
    ||| (a.sunday && b.sunday)
}

/// One weekday.
#[derive(Clone, Copy, PartialEq, Eq, Structural, Debug)]
pub enum Day {
    Monday,
    Tuesday,
    Wednesday,
    Thursday,
    Friday,
    Saturday,
    Sunday,
}

/// Whether `day` is a member of the weekday set `days`.
pub open spec fn spec_day_in_days(day: Day, days: Days) -> bool {
    match day {
        Day::Monday => days.monday,
        Day::Tuesday => days.tuesday,
        Day::Wednesday => days.wednesday,
        Day::Thursday => days.thursday,
        Day::Friday => days.friday,
        Day::Saturday => days.saturday,
        Day::Sunday => days.sunday,
    }
}

impl Day {
    /// Whether this day is a member of the weekday set `days`.
    pub fn is_in_days(&self, days: Days) -> (r: bool)
        ensures
            r == spec_day_in_days(*self, days),
    {
        match self {
            Day::Monday => days.monday,
            Day::Tuesday => days.tuesday,
            Day::Wednesday => days.wednesday,
            Day::Thursday => days.thursday,
            Day::Friday => days.friday,
            Day::Saturday => days.saturday,
            Day::Sunday => days.sunday,
        }
    }
}

/// The weekday letters shown for a set of days, in week order.
pub open spec fn spec_day_codes(d: Days) -> Seq<char> {
    (if d.monday { "M"@ } else { Seq::<char>::empty() })
    + (if d.tuesday { "T"@ } else { Seq::<char>::empty() })
    + (if d.wednesday { "W"@ } else { Seq::<char>::empty() })
    + (if d.thursday { "Th"@ } else { Seq::<char>::empty() })
    + (if d.friday { "F"@ } else { Seq::<char>::empty() })
}

/// What `format_days` returns: the weekday letters, or "N/A" when the
/// set contains no weekday shown on a schedule card.
pub open spec fn spec_format_days(d: Days) -> Seq<char> {
    if spec_day_codes(d).len() == 0 {
        "N/A"@
    } else {
        spec_day_codes(d)
    }
}

/// Renders the Monday-to-Friday part of a weekday set as the letters
/// "M", "T", "W", "Th", "F", or "N/A" when none of those days is set.
pub fn format_days(days: &Days) -> (r: String)
    ensures
        r@ == spec_format_days(*days),
{
    let mut day_str = String::new();
    if days.monday {
        day_str.append("M");
    }
    if days.tuesday {
        day_str.append("T");
    }
    if days.wednesday {
        day_str.append("W");
    }
    if days.thursday {
        day_str.append("Th");
    }
    if days.friday {
        day_str.append("F");
    }
    proof {
        assert(day_str@ =~= spec_day_codes(*days));
    }
    if day_str.as_str().is_empty() {
        String::from_str("N/A")
    } else {
        day_str
    }
}

} // verus!
