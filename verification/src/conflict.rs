//! The meeting model: when two meeting times can and cannot coexist.

use vstd::prelude::*;

use crate::course::MeetingTime;
use crate::time::Date;
use crate::time::Days;
use crate::time::TimeOfDay;
use crate::time::date_lt;
use crate::time::days_overlap;

verus! {

/// Whether the recurrence ranges `[a_start, a_end]` and `[b_start, b_end]`
/// touch at all: disjoint ranges can never meet on a common day.
pub open spec fn dates_overlap(a_start: Date, a_end: Date, b_start: Date, b_end: Date) -> bool {
    !(date_lt(a_end, b_start) || date_lt(b_end, a_start))
}

/// Whether a meeting carries a concrete time-of-day window.
pub open spec fn has_window(start: Option<TimeOfDay>, end: Option<TimeOfDay>) -> bool {
    start is Some && end is Some
}

/// Whether two concrete time-of-day windows overlap, endpoints included.
pub open spec fn windows_overlap(
    a_start: TimeOfDay,
    a_end: TimeOfDay,
    b_start: TimeOfDay,
    b_end: TimeOfDay,
) -> bool {
    !(a_end.spec_minutes() < b_start.spec_minutes() || b_end.spec_minutes()
        < a_start.spec_minutes())
}

/// The pairwise conflict predicate on meeting times. Two meetings
/// conflict when their date ranges touch, they share a weekday, both
/// carry a concrete time window, and the windows overlap.
///
/// A meeting without a concrete window is asynchronous: it never
/// conflicts with anything on time grounds. That rule is a deliberate
/// choice, made explicit here rather than left to how an absent time
/// happens to compare against a present one.
pub open spec fn spec_conflicts(a: MeetingTime, b: MeetingTime) -> bool {
    &&& dates_overlap(a.start_date, a.end_date, b.start_date, b.end_date)
    &&& days_overlap(a.days, b.days)
    &&& has_window(a.start_time, a.end_time)
    &&& has_window(b.start_time, b.end_time)
    &&& windows_overlap(
        a.start_time->Some_0,
        a.end_time->Some_0,
        b.start_time->Some_0,
        b.end_time->Some_0,
    )
}

/// Decides the conflict predicate on two meeting times.
pub fn conflicts(a: &MeetingTime, b: &MeetingTime) -> (r: bool)
    ensures
        r == spec_conflicts(*a, *b),
{
    // no conflict when the date ranges are disjoint
    if a.end_date.lt(b.start_date) || b.end_date.lt(a.start_date) {
        return false;
    }
    // no conflict when the weekday sets are disjoint
    if !((a.days.monday && b.days.monday) || (a.days.tuesday && b.days.tuesday) || (
    a.days.wednesday && b.days.wednesday) || (a.days.thursday && b.days.thursday) || (a.days.friday
        && b.days.friday) || (a.days.saturday && b.days.saturday) || (a.days.sunday
        && b.days.sunday)) {
        return false;
    }
    // an asynchronous meeting never conflicts on time grounds
    match (a.start_time, a.end_time, b.start_time, b.end_time) {
        (Some(a_start), Some(a_end), Some(b_start), Some(b_end)) => {
            !(a_end.minutes() < b_start.minutes() || b_end.minutes() < a_start.minutes())
        },
        _ => false,
    }
}

/// Meetings whose date ranges are disjoint never conflict, whatever
/// their weekdays or times of day.
pub proof fn lemma_date_disjoint_no_conflict(a: MeetingTime, b: MeetingTime)
    requires
        date_lt(a.end_date, b.start_date) || date_lt(b.end_date, a.start_date),
    ensures
        !spec_conflicts(a, b),
        !spec_conflicts(b, a),
{
}

/// Conflict is symmetric.
pub proof fn lemma_conflict_symmetric(a: MeetingTime, b: MeetingTime)
    ensures
        spec_conflicts(a, b) == spec_conflicts(b, a),
{
}

} // verus!
