use scheduler::course::{Season, Term};
use scheduler::raw::{
    meeting_from_raw, parse_term, parse_time, parse_u64, section_from_raw, RawError,
    RawMeetingTime, RawSection,
};
use scheduler::time::TimeOfDay;

fn raw_meeting(begin: Option<&str>, end: Option<&str>, start: &str, finish: &str) -> RawMeetingTime {
    RawMeetingTime {
        begin_time: begin.map(|s| s.to_string()),
        end_time: end.map(|s| s.to_string()),
        start_date: start.to_string(),
        end_date: finish.to_string(),
        monday: true,
        tuesday: false,
        wednesday: true,
        thursday: false,
        friday: false,
        saturday: false,
        sunday: false,
        building: Some("ECS".to_string()),
        room: Some("None specified".to_string()),
    }
}

fn raw_section(crn: &str, meetings: Vec<RawMeetingTime>) -> RawSection {
    RawSection {
        course_reference_number: crn.to_string(),
        subject: "CSC".to_string(),
        course_number: "111".to_string(),
        sequence_number: "A01".to_string(),
        enrollment: 5,
        maximum_enrollment: 100,
        wait_count: 0,
        wait_capacity: None,
        meeting_times: meetings,
    }
}

#[test]
fn parse_u64_reads_decimals() {
    assert_eq!(parse_u64("0"), Some(0));
    assert_eq!(parse_u64("20654"), Some(20654));
    assert_eq!(parse_u64("18446744073709551615"), Some(u64::MAX));
    assert_eq!(parse_u64("18446744073709551616"), None);
    assert_eq!(parse_u64(""), None);
    assert_eq!(parse_u64("12a4"), None);
    assert_eq!(parse_u64("+12"), None);
}

#[test]
fn parse_time_reads_clock_texts() {
    assert_eq!(parse_time("0930"), Some(TimeOfDay { hour: 9, minute: 30 }));
    assert_eq!(parse_time("2359"), Some(TimeOfDay { hour: 23, minute: 59 }));
    assert_eq!(parse_time("2400"), None);
    assert_eq!(parse_time("1260"), None);
    assert_eq!(parse_time("930"), None);
    assert_eq!(parse_time("09:30"), None);
}

#[test]
fn meeting_rows_parse_dates_and_times() {
    let raw = raw_meeting(Some("0930"), Some("1020"), "Sep 01, 2024", "Dec 01, 2024");
    let m = meeting_from_raw(&raw).expect("well-formed row");
    assert_eq!(m.start_time, Some(TimeOfDay { hour: 9, minute: 30 }));
    assert_eq!(m.end_time, Some(TimeOfDay { hour: 10, minute: 20 }));
    assert_eq!(m.start_date.year, 2024);
    assert_eq!(m.start_date.month, 9);
    assert_eq!(m.start_date.day, 1);
    assert_eq!(m.end_date.year, 2024);
    assert_eq!(m.end_date.month, 12);
    assert_eq!(m.end_date.day, 1);
    assert!(m.days.monday && m.days.wednesday && !m.days.tuesday);
    assert_eq!(m.building.as_deref(), Some("ECS"));
    // the system's placeholder room reads as no room at all
    assert_eq!(m.room, None);
}

#[test]
fn asynchronous_rows_keep_no_times() {
    let raw = raw_meeting(None, None, "Sep 01, 2024", "Dec 01, 2024");
    let m = meeting_from_raw(&raw).expect("well-formed row");
    assert_eq!(m.start_time, None);
    assert_eq!(m.end_time, None);
}

#[test]
fn each_malformed_field_reports_its_error() {
    let bad_time = raw_meeting(Some("25xx"), None, "Sep 01, 2024", "Dec 01, 2024");
    assert_eq!(meeting_from_raw(&bad_time).unwrap_err(), RawError::Time);
    let bad_date = raw_meeting(None, None, "sometime", "Dec 01, 2024");
    assert_eq!(meeting_from_raw(&bad_date).unwrap_err(), RawError::Date);
    let good = raw_meeting(None, None, "Sep 01, 2024", "Dec 01, 2024");
    let bad_crn = raw_section("20a54", vec![good]);
    assert_eq!(section_from_raw(&bad_crn).unwrap_err(), RawError::Crn);
}

#[test]
fn sections_carry_their_rows_over() {
    let raw = raw_section(
        "20654",
        vec![raw_meeting(Some("0930"), Some("1020"), "Sep 01, 2024", "Dec 01, 2024")],
    );
    let sec = section_from_raw(&raw).expect("well-formed section");
    assert_eq!(sec.crn, 20654);
    assert_eq!(sec.subject_code, "CSC");
    assert_eq!(sec.course_code, "111");
    assert_eq!(sec.sequence_code, "A01");
    assert_eq!(sec.enrollment, 5);
    assert_eq!(sec.enrollment_capacity, 100);
    assert_eq!(sec.waitlist, 0);
    // an absent waitlist capacity reads as zero
    assert_eq!(sec.waitlist_capacity, 0);
    assert_eq!(sec.meeting_times.len(), 1);
}

#[test]
fn parse_term_reads_term_codes() {
    assert_eq!(parse_term("202409"), Some(Term { year: 2024, season: Season::Fall }));
    assert_eq!(parse_term("202501"), Some(Term { year: 2025, season: Season::Spring }));
    assert_eq!(parse_term("199905"), Some(Term { year: 1999, season: Season::Summer }));
    // a month that opens no season, a short code, and a word
    assert_eq!(parse_term("202403"), None);
    assert_eq!(parse_term("20240"), None);
    assert_eq!(parse_term("yearly"), None);
}
