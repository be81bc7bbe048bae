//! Courses, sections, and their recurring meeting times.

use vstd::prelude::*;

use crate::time::Date;
use crate::time::Days;
use crate::time::TimeOfDay;

verus! {

/// The kind of component a section fills within its course.
#[derive(Clone, Copy, PartialEq, Eq, Structural, Debug)]
pub enum SectionType {
    Lecture,
    Lab,
    Tutorial,
}

/// One recurring meeting of a section: a weekday set, an optional
/// time-of-day window, and the date range over which it recurs.
///
/// A meeting without both a start and an end time is asynchronous and,
/// by deliberate choice, never conflicts with anything on time grounds.
#[derive(Debug)]
pub struct MeetingTime {
    pub start_time: Option<TimeOfDay>,
    pub end_time: Option<TimeOfDay>,
    pub start_date: Date,
    pub end_date: Date,
    pub days: Days,
    pub building: Option<String>,
    pub room: Option<String>,
}

/// Clones an optional string, preserving its contents.
fn clone_opt_string(o: &Option<String>) -> (r: Option<String>)
    ensures
        r == *o,
{
    match o {
        Some(s) => Some(s.clone()),
        None => None,
    }
}

impl Clone for MeetingTime {
    fn clone(&self) -> (r: Self)
        ensures
            r == *self,
    {
        MeetingTime {
            start_time: self.start_time,
            end_time: self.end_time,
            start_date: self.start_date,
            end_date: self.end_date,
            days: self.days,
            building: clone_opt_string(&self.building),
            room: clone_opt_string(&self.room),
        }
    }
}

/// One schedulable section of a course, identified by its CRN.
#[derive(Debug)]
pub struct Section {
    pub crn: u64,
    pub subject_code: String,
    pub course_code: String,
    pub sequence_code: String,
    pub enrollment: u32,
    pub enrollment_capacity: u32,
    pub waitlist: u32,
    pub waitlist_capacity: u32,
    pub meeting_times: Vec<MeetingTime>,
}

/// Clones a list of meeting times, preserving its contents.
fn clone_meeting_times(v: &Vec<MeetingTime>) -> (r: Vec<MeetingTime>)
    ensures
        r@ == v@,
{
    let mut out: Vec<MeetingTime> = Vec::new();
    let mut i: usize = 0;
    while i < v.len()
        invariant
            i <= v.len(),
            out@ =~= v@.subrange(0, i as int),
        decreases v.len() - i,
    {
        out.push(v[i].clone());
        i = i + 1;
    }
    proof {
        assert(out@ =~= v@);
    }
    out
}

/// Field-for-field agreement of two sections; lists are compared by
/// contents, so a faithful clone satisfies it.
pub open spec fn same_section(a: Section, b: Section) -> bool {
    &&& a.crn == b.crn
    &&& a.subject_code@ == b.subject_code@
    &&& a.course_code@ == b.course_code@
    &&& a.sequence_code@ == b.sequence_code@
    &&& a.enrollment == b.enrollment
    &&& a.enrollment_capacity == b.enrollment_capacity
    &&& a.waitlist == b.waitlist
    &&& a.waitlist_capacity == b.waitlist_capacity
    &&& a.meeting_times@ == b.meeting_times@
}

impl Clone for Section {
    fn clone(&self) -> (r: Self)
        ensures
            same_section(r, *self),
    {
        let r = Section {
            crn: self.crn,
            subject_code: self.subject_code.clone(),
            course_code: self.course_code.clone(),
            sequence_code: self.sequence_code.clone(),
            enrollment: self.enrollment,
            enrollment_capacity: self.enrollment_capacity,
            waitlist: self.waitlist,
            waitlist_capacity: self.waitlist_capacity,
            meeting_times: clone_meeting_times(&self.meeting_times),
        };
        r
    }
}

impl Section {
    /// The component type encoded by the first character of the sequence
    /// code, or `None` for a malformed code.
    pub open spec fn spec_get_type(self) -> Option<SectionType> {
        if self.sequence_code@.len() == 0 {
            None
        } else if self.sequence_code@[0] == 'A' {
            Some(SectionType::Lecture)
        } else if self.sequence_code@[0] == 'B' {
            Some(SectionType::Lab)
        } else if self.sequence_code@[0] == 'T' {
            Some(SectionType::Tutorial)
        } else {
            None
        }
    }

    /// Classifies this section by the first character of its sequence
    /// code; a code that fits no known type is reported as `None` rather
    /// than guessed at.
    pub fn get_type(&self) -> (t: Option<SectionType>)
        ensures
            t == self.spec_get_type(),
    {
        let s = self.sequence_code.as_str();
        if s.is_empty() {
            None
        } else {
            let c = s.get_char(0);
            if c == 'A' {
                Some(SectionType::Lecture)
            } else if c == 'B' {
                Some(SectionType::Lab)
            } else if c == 'T' {
                Some(SectionType::Tutorial)
            } else {
                None
            }
        }
    }
}

/// One course: its identifying codes and the sections on offer,
/// ordered consistently by the store that produced them.
#[derive(Debug)]
pub struct Course {
    pub subject_code: String,
    pub course_code: String,
    pub title: String,
    pub campus: String,
    pub sections: Vec<Section>,
}

/// Contents agreement of two section lists, element by element.
pub open spec fn same_sections(a: Seq<Section>, b: Seq<Section>) -> bool {
    a.len() == b.len() && forall|i: int| 0 <= i < a.len() ==> #[trigger] same_section(a[i], b[i])
}

/// Clones a list of sections, preserving its contents.
pub fn clone_sections(v: &Vec<Section>) -> (r: Vec<Section>)
    ensures
        same_sections(r@, v@),
{
    let mut out: Vec<Section> = Vec::new();
    let mut i: usize = 0;
    while i < v.len()
        invariant
            i <= v.len(),
            same_sections(out@, v@.subrange(0, i as int)),
        decreases v.len() - i,
    {
        out.push(v[i].clone());
        i = i + 1;
    }
    proof {
        assert(v@.subrange(0, v@.len() as int) =~= v@);
    }
    out
}

/// Field-for-field agreement of two courses, sections by contents.
pub open spec fn same_course(a: Course, b: Course) -> bool {
    &&& a.subject_code@ == b.subject_code@
    &&& a.course_code@ == b.course_code@
    &&& a.title@ == b.title@
    &&& a.campus@ == b.campus@
    &&& same_sections(a.sections@, b.sections@)
}

impl Clone for Course {
    fn clone(&self) -> (r: Self)
        ensures
            same_course(r, *self),
    {
        Course {
            subject_code: self.subject_code.clone(),
            course_code: self.course_code.clone(),
            title: self.title.clone(),
            campus: self.campus.clone(),
            sections: clone_sections(&self.sections),
        }
    }
}

/// A section reduced to its registration number.
#[derive(Clone, Copy, PartialEq, Eq, Structural, Debug)]
pub struct ThinSection {
    pub crn: u64,
}

/// A course reduced to its identifying codes.
#[derive(Debug)]
pub struct ThinCourse {
    pub subject_code: String,
    pub course_code: String,
}

impl Clone for ThinCourse {
    fn clone(&self) -> (r: Self)
        ensures
            r == *self,
    {
        ThinCourse { subject_code: self.subject_code.clone(), course_code: self.course_code.clone() }
    }
}

impl PartialEq for ThinCourse {
    fn eq(&self, other: &Self) -> (r: bool) {
        self.subject_code == other.subject_code && self.course_code == other.course_code
    }
}

/// An academic season; each one starts a term in a fixed month.
#[derive(Clone, Copy, PartialEq, Eq, Structural, Debug)]
pub enum Season {
    Spring,
    Summer,
    Fall,
}

impl Season {
    /// The month in which a term of this season begins.
    pub open spec fn spec_month(self) -> int {
        match self {
            Season::Spring => 1,
            Season::Summer => 5,
            Season::Fall => 9,
        }
    }

    /// The month in which a term of this season begins.
    pub fn month(self) -> (m: u8)
        ensures
            m == self.spec_month(),
    {
        match self {
            Season::Spring => 1,
            Season::Summer => 5,
            Season::Fall => 9,
        }
    }

    /// The season that begins in the given month, if any does.
    pub fn from_month(month: u8) -> (r: Option<Season>)
        ensures
            match r {
                Some(s) => s.spec_month() == month,
                None => month != 1 && month != 5 && month != 9,
            },
    {
        if month == 1 {
            Some(Season::Spring)
        } else if month == 5 {
            Some(Season::Summer)
        } else if month == 9 {
            Some(Season::Fall)
        } else {
            None
        }
    }

    /// The season's name in lower case.
    pub open spec fn spec_name(self) -> Seq<char> {
        match self {
            Season::Spring => "spring"@,
            Season::Summer => "summer"@,
            Season::Fall => "fall"@,
        }
    }
}

/// One academic term: a year and a season.
#[derive(Clone, Copy, PartialEq, Eq, Structural, Debug)]
pub struct Term {
    pub year: i16,
    pub season: Season,
}

/// The decimal digits of a non-negative number, most significant
/// first.
pub open spec fn dec_digits(n: int) -> Seq<char>
    decreases n,
{
    if n < 10 {
        seq![digit_char(n)]
    } else {
        dec_digits(n / 10).push(digit_char(n % 10))
    }
}

/// The character for one decimal digit.
pub open spec fn digit_char(d: int) -> char {
    if d == 0 {
        '0'
    } else if d == 1 {
        '1'
    } else if d == 2 {
        '2'
    } else if d == 3 {
        '3'
    } else if d == 4 {
        '4'
    } else if d == 5 {
        '5'
    } else if d == 6 {
        '6'
    } else if d == 7 {
        '7'
    } else if d == 8 {
        '8'
    } else {
        '9'
    }
}

/// A possibly negative number in decimal.
pub open spec fn int_chars(n: int) -> Seq<char> {
    if n < 0 {
        seq!['-'] + dec_digits(-n)
    } else {
        dec_digits(n)
    }
}

/// The one-character string for a decimal digit.
fn digit_str(d: u32) -> (r: &'static str)
    requires
        d < 10,
    ensures
        r@ =~= seq![digit_char(d as int)],
{
    let r: &'static str = if d == 0 {
        "0"
    } else if d == 1 {
        "1"
    } else if d == 2 {
        "2"
    } else if d == 3 {
        "3"
    } else if d == 4 {
        "4"
    } else if d == 5 {
        "5"
    } else if d == 6 {
        "6"
    } else if d == 7 {
        "7"
    } else if d == 8 {
        "8"
    } else {
        "9"
    };
    proof {
        reveal_strlit("0");
        reveal_strlit("1");
        reveal_strlit("2");
        reveal_strlit("3");
        reveal_strlit("4");
        reveal_strlit("5");
        reveal_strlit("6");
        reveal_strlit("7");
        reveal_strlit("8");
        reveal_strlit("9");
    }
    r
}

/// Appends a non-negative number in decimal.
fn append_decimal(n: u32, s: &mut String)
    ensures
        final(s)@ == old(s)@ + dec_digits(n as int),
    decreases n,
{
    if n < 10 {
        s.append(digit_str(n));
        proof {
            assert(old(s)@ + seq![digit_char(n as int)] =~= s@);
        }
    } else {
        append_decimal(n / 10, s);
        s.append(digit_str(n % 10));
        proof {
            assert(old(s)@ + (dec_digits(n as int / 10).push(digit_char(n as int % 10))) =~= (old(
                s,
            )@ + dec_digits(n as int / 10)) + seq![digit_char(n as int % 10)]);
        }
    }
}

/// What `human_display` shows: the season's lower-case name, a space,
/// and the year in decimal.
pub open spec fn spec_human_display(t: Term) -> Seq<char> {
    t.season.spec_name() + seq![' '] + int_chars(t.year as int)
}

impl Term {
    /// Whether the calendar month `year`/`month` falls within this
    /// term's four months, counting from the season's first month.
    pub open spec fn spec_contains_month(self, year: int, month: int) -> bool {
        let start = self.year * 12 + self.season.spec_month() - 1;
        let at = year * 12 + month - 1;
        start <= at < start + 4
    }

    /// Decides whether the calendar month `year`/`month` lies in this
    /// term. A term spans whole months, so an instant falls in the
    /// term exactly when its campus-local month does; turning an
    /// instant into that local month is the caller's step.
    pub fn contains_month(self, year: i16, month: u8) -> (r: bool)
        ensures
            r == self.spec_contains_month(year as int, month as int),
    {
        let start: i64 = self.year as i64 * 12 + self.season.month() as i64 - 1;
        let at: i64 = year as i64 * 12 + month as i64 - 1;
        start <= at && at < start + 4
    }

    /// Shows the term the way a person reads it: "fall 2024".
    pub fn human_display(self) -> (r: String)
        ensures
            r@ == spec_human_display(self),
    {
        let mut s = match self.season {
            Season::Spring => String::from_str("spring"),
            Season::Summer => String::from_str("summer"),
            Season::Fall => String::from_str("fall"),
        };
        s.append(" ");
        proof {
            reveal_strlit(" ");
            assert(" "@ =~= seq![' ']);
        }
        let y = self.year as i32;
        if y < 0 {
            s.append("-");
            proof {
                reveal_strlit("-");
                assert("-"@ =~= seq!['-']);
            }
            append_decimal((-y) as u32, &mut s);
            proof {
                assert(s@ =~= spec_human_display(self));
            }
        } else {
            append_decimal(y as u32, &mut s);
            proof {
                assert(s@ =~= spec_human_display(self));
            }
        }
        s
    }
}

impl vstd::std_specs::cmp::PartialEqSpecImpl for ThinCourse {
    open spec fn obeys_eq_spec() -> bool {
        true
    }

    open spec fn eq_spec(&self, other: &Self) -> bool {
        self.subject_code@ == other.subject_code@ && self.course_code@ == other.course_code@
    }
}

} // verus!
