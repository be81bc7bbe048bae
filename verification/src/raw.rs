//! Raw section rows as the registration system reports them, and
//! their checked conversion into the model: clock times arrive as
//! "HHMM" text, dates as "%b %d, %Y" text, and the registration
//! number as a decimal string.

use vstd::prelude::*;

use crate::course::MeetingTime;
use crate::course::Season;
use crate::course::Term;
use crate::course::Section;
use crate::time::Date;
use crate::time::Days;
use crate::time::TimeOfDay;

verus! {

/// One raw meeting row.
#[derive(Debug)]
pub struct RawMeetingTime {
    pub begin_time: Option<String>,
    pub end_time: Option<String>,
    pub start_date: String,
    pub end_date: String,
    pub monday: bool,
    pub tuesday: bool,
    pub wednesday: bool,
    pub thursday: bool,
    pub friday: bool,
    pub saturday: bool,
    pub sunday: bool,
    pub building: Option<String>,
    pub room: Option<String>,
}

/// One raw section row.
#[derive(Debug)]
pub struct RawSection {
    pub course_reference_number: String,
    pub subject: String,
    pub course_number: String,
    pub sequence_number: String,
    pub enrollment: u32,
    pub maximum_enrollment: u32,
    pub wait_count: u32,
    pub wait_capacity: Option<u32>,
    pub meeting_times: Vec<RawMeetingTime>,
}

/// What made a raw row unreadable.
#[derive(Clone, Copy, PartialEq, Eq, Structural, Debug)]
pub enum RawError {
    Crn,
    Time,
    Date,
}

/// Whether a character is a decimal digit.
pub open spec fn is_digit(c: char) -> bool {
    48 <= (c as u32) <= 57
}

/// The value of one decimal digit character.
pub open spec fn digit_val(c: char) -> int {
    (c as u32) - 48
}

/// Whether every character of the text is a decimal digit.
pub open spec fn all_digits(s: Seq<char>) -> bool {
    forall|i: int| 0 <= i < s.len() ==> is_digit(#[trigger] s[i])
}

/// The number a digit string denotes, most significant digit first.
pub open spec fn spec_dec_val(s: Seq<char>) -> int
    decreases s.len(),
{
    if s.len() == 0 {
        0
    } else {
        spec_dec_val(s.drop_last()) * 10 + digit_val(s.last())
    }
}

proof fn lemma_dec_val_nonneg(s: Seq<char>)
    requires
        all_digits(s),
    ensures
        spec_dec_val(s) >= 0,
    decreases s.len(),
{
    if s.len() > 0 {
        assert(all_digits(s.drop_last())) by {
            assert forall|i: int| 0 <= i < s.len() - 1 implies is_digit(
                #[trigger] s.drop_last()[i],
            ) by {
                assert(s.drop_last()[i] == s[i]);
                assert(is_digit(s[i]));
            }
        }
        lemma_dec_val_nonneg(s.drop_last());
        let v = spec_dec_val(s.drop_last());
        assert(v * 10 >= 0) by (nonlinear_arith)
            requires
                v >= 0,
        ;
        assert(is_digit(s[s.len() - 1]));
    }
}

/// A longer digit prefix never denotes a smaller number.
proof fn lemma_dec_val_grows(s: Seq<char>, i: int, j: int)
    requires
        all_digits(s),
        0 <= i <= j <= s.len(),
    ensures
        spec_dec_val(s.subrange(0, i)) <= spec_dec_val(s.subrange(0, j)),
    decreases j - i,
{
    if i < j {
        lemma_dec_val_grows(s, i, j - 1);
        let p = s.subrange(0, j - 1);
        let q = s.subrange(0, j);
        assert(q.drop_last() =~= p);
        assert(all_digits(p)) by {
            assert forall|k: int| 0 <= k < p.len() implies is_digit(#[trigger] p[k]) by {
                assert(p[k] == s[k]);
                assert(is_digit(s[k]));
            }
        }
        lemma_dec_val_nonneg(p);
        let v = spec_dec_val(p);
        assert(v * 10 >= v) by (nonlinear_arith)
            requires
                v >= 0,
        ;
        assert(is_digit(s[j - 1]));
        assert(q.last() == s[j - 1]);
    }
}

/// Reads a decimal number. `None` means the text is empty, holds a
/// character that is no digit, or denotes a number too large for the
/// machine word.
pub fn parse_u64(s: &str) -> (r: Option<u64>)
    ensures
        match r {
            Some(n) => s@.len() > 0 && all_digits(s@) && n == spec_dec_val(s@),
            None => s@.len() == 0 || !all_digits(s@) || spec_dec_val(s@) > u64::MAX,
        },
{
    let len = s.unicode_len();
    if len == 0 {
        return None;
    }
    let mut acc: u64 = 0;
    let mut i: usize = 0;
    while i < len
        invariant
            len == s@.len(),
            i <= len,
            forall|k: int| 0 <= k < i ==> is_digit(#[trigger] s@[k]),
            acc == spec_dec_val(s@.subrange(0, i as int)),
        decreases len - i,
    {
        let c = s.get_char(i);
        let v = c as u32;
        if v < 48 || v > 57 {
            return None;
        }
        let d = (v - 48) as u64;
        proof {
            let p = s@.subrange(0, i as int);
            let q = s@.subrange(0, i + 1 as int);
            assert(q.drop_last() =~= p);
            assert(q.last() == s@[i as int]);
            assert(all_digits(q)) by {
                assert forall|k: int| 0 <= k < q.len() implies is_digit(#[trigger] q[k]) by {
                    assert(q[k] == s@[k]);
                }
            }
            lemma_dec_val_nonneg(p);
        }
        if acc > (u64::MAX - d) / 10 {
            proof {
                let q = s@.subrange(0, i + 1 as int);
                let m = u64::MAX as int;
                assert(spec_dec_val(q) == (acc as int) * 10 + d);
                assert(spec_dec_val(q) > m) by (nonlinear_arith)
                    requires
                        spec_dec_val(q) == (acc as int) * 10 + d,
                        acc > (m - d) / 10,
                        (m - d) / 10 * 10 + (m - d) % 10 == m - d,
                        0 <= (m - d) % 10 < 10,
                        0 <= d,
                ;
                if all_digits(s@) {
                    lemma_dec_val_grows(s@, i + 1, s@.len() as int);
                    assert(s@.subrange(0, s@.len() as int) =~= s@);
                    assert(spec_dec_val(s@) >= spec_dec_val(q));
                }
            }
            return None;
        }
        proof {
            let m = u64::MAX as int;
            assert((acc as int) * 10 + d <= m) by (nonlinear_arith)
                requires
                    acc <= (m - d) / 10,
                    (m - d) / 10 * 10 <= m - d,
                    0 <= acc,
                    0 <= d,
            ;
        }
        acc = acc * 10 + d;
        i = i + 1;
    }
    proof {
        assert(s@.subrange(0, s@.len() as int) =~= s@);
    }
    Some(acc)
}

/// What a "HHMM" clock text denotes, when well formed.
pub open spec fn spec_time_of(s: Seq<char>) -> Option<TimeOfDay> {
    let hh = spec_dec_val(s.subrange(0, 2));
    let mm = spec_dec_val(s.subrange(2, 4));
    if s.len() == 4 && all_digits(s) && hh < 24 && mm < 60 {
        Some(TimeOfDay { hour: hh as u8, minute: mm as u8 })
    } else {
        None
    }
}

/// Reads a "HHMM" clock text.
pub fn parse_time(s: &str) -> (r: Option<TimeOfDay>)
    ensures
        r == spec_time_of(s@),
{
    if s.unicode_len() != 4 {
        return None;
    }
    let c0 = s.get_char(0) as u32;
    let c1 = s.get_char(1) as u32;
    let c2 = s.get_char(2) as u32;
    let c3 = s.get_char(3) as u32;
    if c0 < 48 || c0 > 57 || c1 < 48 || c1 > 57 || c2 < 48 || c2 > 57 || c3 < 48 || c3 > 57 {
        return None;
    }
    let hh = ((c0 - 48) * 10 + (c1 - 48)) as u8;
    let mm = ((c2 - 48) * 10 + (c3 - 48)) as u8;
    proof {
        let h = s@.subrange(0, 2);
        assert(h.drop_last() =~= s@.subrange(0, 1));
        assert(s@.subrange(0, 1).drop_last() =~= s@.subrange(0, 0));
        assert(s@.subrange(0, 0).len() == 0);
        assert(spec_dec_val(s@.subrange(0, 0)) == 0);
        assert(s@.subrange(0, 1).last() == s@[0]);
        assert(h.last() == s@[1]);
        assert(spec_dec_val(s@.subrange(0, 1)) == digit_val(s@[0]));
        assert(hh == spec_dec_val(h));
        let m = s@.subrange(2, 4);
        assert(m.drop_last() =~= s@.subrange(2, 3));
        assert(s@.subrange(2, 3).drop_last() =~= s@.subrange(2, 2));
        assert(s@.subrange(2, 2).len() == 0);
        assert(spec_dec_val(s@.subrange(2, 2)) == 0);
        assert(s@.subrange(2, 3).last() == s@[2]);
        assert(m.last() == s@[3]);
        assert(spec_dec_val(s@.subrange(2, 3)) == digit_val(s@[2]));
        assert(mm == spec_dec_val(m));
    }
    if hh >= 24 || mm >= 60 {
        return None;
    }
    Some(TimeOfDay { hour: hh, minute: mm })
}

/// What a term code denotes: four year digits then two month digits,
/// where the month must open a season.
pub open spec fn spec_term_of(s: Seq<char>) -> Option<Term> {
    let y = spec_dec_val(s.subrange(0, 4));
    let m = spec_dec_val(s.subrange(4, 6));
    if s.len() == 6 && all_digits(s) && (m == 1 || m == 5 || m == 9) {
        Some(
            Term {
                year: y as i16,
                season: if m == 1 {
                    Season::Spring
                } else if m == 5 {
                    Season::Summer
                } else {
                    Season::Fall
                },
            },
        )
    } else {
        None
    }
}

/// Reads a six-character term code such as "202409": four digits of
/// year, two of month, the month being the start of a season.
pub fn parse_term(s: &str) -> (r: Option<Term>)
    ensures
        r == spec_term_of(s@),
{
    if s.unicode_len() != 6 {
        return None;
    }
    let mut ds: [u32; 6] = [0; 6];
    let mut i: usize = 0;
    while i < 6
        invariant
            6 == s@.len(),
            i <= 6,
            forall|k: int| 0 <= k < i ==> is_digit(#[trigger] s@[k]),
            forall|k: int| 0 <= k < i ==> (ds@[k] as int) == digit_val(#[trigger] s@[k]),
        decreases 6 - i,
    {
        let c = s.get_char(i) as u32;
        if c < 48 || c > 57 {
            return None;
        }
        ds[i] = c - 48;
        i = i + 1;
    }
    proof {
        assert(is_digit(s@[0]) && (ds@[0] as int) == digit_val(s@[0]));
        assert(is_digit(s@[1]) && (ds@[1] as int) == digit_val(s@[1]));
        assert(is_digit(s@[2]) && (ds@[2] as int) == digit_val(s@[2]));
        assert(is_digit(s@[3]) && (ds@[3] as int) == digit_val(s@[3]));
        assert(is_digit(s@[4]) && (ds@[4] as int) == digit_val(s@[4]));
        assert(is_digit(s@[5]) && (ds@[5] as int) == digit_val(s@[5]));
    }
    let year = (ds[0] * 1000 + ds[1] * 100 + ds[2] * 10 + ds[3]) as u16;
    let month = ds[4] * 10 + ds[5];
    proof {
        let sy = s@.subrange(0, 4);
        assert(sy.drop_last() =~= s@.subrange(0, 3));
        assert(s@.subrange(0, 3).drop_last() =~= s@.subrange(0, 2));
        assert(s@.subrange(0, 2).drop_last() =~= s@.subrange(0, 1));
        assert(s@.subrange(0, 1).drop_last() =~= s@.subrange(0, 0));
        assert(spec_dec_val(s@.subrange(0, 0)) == 0);
        assert(s@.subrange(0, 1).last() == s@[0]);
        assert(s@.subrange(0, 2).last() == s@[1]);
        assert(s@.subrange(0, 3).last() == s@[2]);
        assert(sy.last() == s@[3]);
        assert(spec_dec_val(s@.subrange(0, 1)) == digit_val(s@[0]));
        assert(spec_dec_val(s@.subrange(0, 2)) == digit_val(s@[0]) * 10 + digit_val(s@[1]));
        assert(spec_dec_val(s@.subrange(0, 3)) == (digit_val(s@[0]) * 10 + digit_val(s@[1])) * 10
            + digit_val(s@[2]));
        assert(year == spec_dec_val(sy));
        let sm = s@.subrange(4, 6);
        assert(sm.drop_last() =~= s@.subrange(4, 5));
        assert(s@.subrange(4, 5).drop_last() =~= s@.subrange(4, 4));
        assert(spec_dec_val(s@.subrange(4, 4)) == 0);
        assert(s@.subrange(4, 5).last() == s@[4]);
        assert(sm.last() == s@[5]);
        assert(spec_dec_val(s@.subrange(4, 5)) == digit_val(s@[4]));
        assert(month == spec_dec_val(sm));
    }
    let season = match Season::from_month(month as u8) {
        Some(season) => season,
        None => {
            return None;
        },
    };
    if month != 1 && month != 5 && month != 9 {
        return None;
    }
    Some(Term { year: year as i16, season })
}

/// What a date text denotes under the month-name format. Only the
/// trusted reader below speaks for its value.
pub uninterp spec fn date_of_text(s: Seq<char>) -> Option<(int, int, int)>;

/// Relies on jiff's `civil::Date::strptime` with the "%b %d, %Y"
/// format: the result depends on the text alone, and a parsed date
/// lies within jiff's civil range.
#[verifier::external_body]
fn parse_civil_date(s: &str) -> (r: Option<Date>)
    ensures
        r is Some <==> date_of_text(s@) is Some,
        r matches Some(d) ==> {
            let t = date_of_text(s@)->Some_0;
            &&& d.year == t.0
            &&& d.month == t.1
            &&& d.day == t.2
            &&& -9999 <= t.0 <= 9999
            &&& 1 <= t.1 <= 12
            &&& 1 <= t.2 <= 31
        },
{
    match jiff::civil::Date::strptime("%b %d, %Y", s) {
        Ok(d) => Some(Date { year: d.year(), month: d.month() as u8, day: d.day() as u8 }),
        Err(_) => None,
    }
}

/// Whether the clock texts of a raw meeting are well formed.
pub open spec fn raw_times_ok(raw: RawMeetingTime) -> bool {
    &&& (raw.begin_time matches Some(s) ==> spec_time_of(s@) is Some)
    &&& (raw.end_time matches Some(s) ==> spec_time_of(s@) is Some)
}

/// Whether the date texts of a raw meeting parse.
pub open spec fn raw_dates_ok(raw: RawMeetingTime) -> bool {
    date_of_text(raw.start_date@) is Some && date_of_text(raw.end_date@) is Some
}

/// The room, with the system's "none specified" marker read as no
/// room at all.
pub open spec fn spec_room_of(room: Option<String>) -> Option<String> {
    match room {
        Some(s) => if s@ == "None specified"@ {
            None
        } else {
            Some(s)
        },
        None => None,
    }
}

/// How a well-read meeting corresponds to its raw row.
pub open spec fn meeting_matches_raw(raw: RawMeetingTime, m: MeetingTime) -> bool {
    &&& m.start_time == (match raw.begin_time {
        Some(s) => spec_time_of(s@),
        None => None,
    })
    &&& m.end_time == (match raw.end_time {
        Some(s) => spec_time_of(s@),
        None => None,
    })
    &&& Some((m.start_date.year as int, m.start_date.month as int, m.start_date.day as int))
        == date_of_text(raw.start_date@)
    &&& Some((m.end_date.year as int, m.end_date.month as int, m.end_date.day as int))
        == date_of_text(raw.end_date@)
    &&& m.days == (Days {
        monday: raw.monday,
        tuesday: raw.tuesday,
        wednesday: raw.wednesday,
        thursday: raw.thursday,
        friday: raw.friday,
        saturday: raw.saturday,
        sunday: raw.sunday,
    })
    &&& (m.building matches Some(b) ==> raw.building matches Some(rb) && b@ == rb@)
    &&& (m.building is None ==> raw.building is None)
    &&& (m.room matches Some(b) ==> spec_room_of(raw.room) matches Some(rb) && b@ == rb@)
    &&& (m.room is None ==> spec_room_of(raw.room) is None)
}

/// Reads one raw meeting row into the model, or says what was
/// malformed: a clock text first, then a date text.
pub fn meeting_from_raw(raw: &RawMeetingTime) -> (r: Result<MeetingTime, RawError>)
    ensures
        r is Ok <==> raw_times_ok(*raw) && raw_dates_ok(*raw),
        r == Result::<MeetingTime, RawError>::Err(RawError::Time) <==> !raw_times_ok(*raw),
        r == Result::<MeetingTime, RawError>::Err(RawError::Date) <==> raw_times_ok(*raw)
            && !raw_dates_ok(*raw),
        r matches Ok(m) ==> meeting_matches_raw(*raw, m),
{
    let start_time = match &raw.begin_time {
        Some(s) => {
            match parse_time(s.as_str()) {
                Some(t) => Some(t),
                None => {
                    return Err(RawError::Time);
                },
            }
        },
        None => None,
    };
    let end_time = match &raw.end_time {
        Some(s) => {
            match parse_time(s.as_str()) {
                Some(t) => Some(t),
                None => {
                    return Err(RawError::Time);
                },
            }
        },
        None => None,
    };
    let start_date = match parse_civil_date(raw.start_date.as_str()) {
        Some(d) => d,
        None => {
            return Err(RawError::Date);
        },
    };
    let end_date = match parse_civil_date(raw.end_date.as_str()) {
        Some(d) => d,
        None => {
            return Err(RawError::Date);
        },
    };
    let none_specified = "None specified".to_owned();
    let room = match &raw.room {
        Some(s) => {
            if *s == none_specified {
                None
            } else {
                Some(s.clone())
            }
        },
        None => None,
    };
    let building = match &raw.building {
        Some(s) => Some(s.clone()),
        None => None,
    };
    Ok(
        MeetingTime {
            start_time,
            end_time,
            start_date,
            end_date,
            days: Days {
                monday: raw.monday,
                tuesday: raw.tuesday,
                wednesday: raw.wednesday,
                thursday: raw.thursday,
                friday: raw.friday,
                saturday: raw.saturday,
                sunday: raw.sunday,
            },
            building,
            room,
        },
    )
}

/// Whether the registration number text of a raw section denotes a
/// machine-word number.
pub open spec fn raw_crn_ok(raw: RawSection) -> bool {
    let s = raw.course_reference_number@;
    s.len() > 0 && all_digits(s) && spec_dec_val(s) <= u64::MAX
}

/// Whether every meeting row of a raw section is well formed.
pub open spec fn raw_meetings_ok(raw: RawSection) -> bool {
    forall|i: int|
        0 <= i < raw.meeting_times@.len() ==> raw_times_ok(#[trigger] raw.meeting_times@[i])
            && raw_dates_ok(raw.meeting_times@[i])
}

/// Reads one raw section row into the model. The registration number
/// is read first; then the meetings, in order, each failing on its
/// clock texts before its date texts.
pub fn section_from_raw(raw: &RawSection) -> (r: Result<Section, RawError>)
    ensures
        r is Ok <==> raw_crn_ok(*raw) && raw_meetings_ok(*raw),
        r == Result::<Section, RawError>::Err(RawError::Crn) <==> !raw_crn_ok(*raw),
        r matches Ok(sec) ==> {
            &&& sec.crn == spec_dec_val(raw.course_reference_number@)
            &&& sec.subject_code@ == raw.subject@
            &&& sec.course_code@ == raw.course_number@
            &&& sec.sequence_code@ == raw.sequence_number@
            &&& sec.enrollment == raw.enrollment
            &&& sec.enrollment_capacity == raw.maximum_enrollment
            &&& sec.waitlist == raw.wait_count
            &&& sec.waitlist_capacity == (match raw.wait_capacity {
                Some(c) => c,
                None => 0u32,
            })
            &&& sec.meeting_times@.len() == raw.meeting_times@.len()
            &&& (forall|i: int|
                0 <= i < raw.meeting_times@.len() ==> meeting_matches_raw(
                    #[trigger] raw.meeting_times@[i],
                    sec.meeting_times@[i],
                ))
        },
{
    let crn = match parse_u64(raw.course_reference_number.as_str()) {
        Some(n) => n,
        None => {
            return Err(RawError::Crn);
        },
    };
    let mut meeting_times: Vec<MeetingTime> = Vec::new();
    let mut i: usize = 0;
    while i < raw.meeting_times.len()
        invariant
            raw_crn_ok(*raw),
            crn == spec_dec_val(raw.course_reference_number@),
            i <= raw.meeting_times@.len(),
            meeting_times@.len() == i,
            forall|k: int|
                0 <= k < i ==> raw_times_ok(#[trigger] raw.meeting_times@[k]) && raw_dates_ok(
                    raw.meeting_times@[k],
                ),
            forall|k: int|
                0 <= k < i ==> meeting_matches_raw(
                    #[trigger] raw.meeting_times@[k],
                    meeting_times@[k],
                ),
        decreases raw.meeting_times@.len() - i,
    {
        match meeting_from_raw(&raw.meeting_times[i]) {
            Ok(m) => {
                meeting_times.push(m);
            },
            Err(e) => {
                proof {
                    assert(!(raw_times_ok(raw.meeting_times@[i as int]) && raw_dates_ok(
                        raw.meeting_times@[i as int],
                    )));
                    assert(!raw_meetings_ok(*raw));
                    assert(e != RawError::Crn);
                }
                return Err(e);
            },
        }
        i = i + 1;
    }
    let waitlist_capacity = match raw.wait_capacity {
        Some(c) => c,
        None => 0,
    };
    Ok(
        Section {
            crn,
            subject_code: raw.subject.clone(),
            course_code: raw.course_number.clone(),
            sequence_code: raw.sequence_number.clone(),
            enrollment: raw.enrollment,
            enrollment_capacity: raw.maximum_enrollment,
            waitlist: raw.wait_count,
            waitlist_capacity,
            meeting_times,
        },
    )
}

} // verus!
