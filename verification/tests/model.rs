use scheduler::conflict::conflicts;
use scheduler::course::Course;
use scheduler::selection::selected_sections;
use scheduler::course::{MeetingTime, Season, Section, SectionType, Term, ThinSection};
use scheduler::selection::{SelectedCourses, Selection, Stage};
use scheduler::time::{format_days, Date, Day, Days, TimeOfDay};

fn weekdays(monday: bool, tuesday: bool, thursday: bool, saturday: bool) -> Days {
    Days {
        monday,
        tuesday,
        wednesday: false,
        thursday,
        friday: false,
        saturday,
        sunday: false,
    }
}

fn meeting(
    days: Days,
    window: Option<(u8, u8)>,
    start_date: Date,
    end_date: Date,
) -> MeetingTime {
    MeetingTime {
        start_time: window.map(|(h, _)| TimeOfDay { hour: h, minute: 0 }),
        end_time: window.map(|(_, h)| TimeOfDay { hour: h, minute: 0 }),
        start_date,
        end_date,
        days,
        building: None,
        room: None,
    }
}

fn fall() -> (Date, Date) {
    (Date { year: 2024, month: 9, day: 1 }, Date { year: 2024, month: 12, day: 1 })
}

#[test]
fn overlapping_meetings_conflict() {
    let (s, e) = fall();
    let a = meeting(weekdays(true, false, false, false), Some((9, 10)), s, e);
    let b = meeting(weekdays(true, true, false, false), Some((9, 11)), s, e);
    assert!(conflicts(&a, &b));
    assert!(conflicts(&b, &a));
}

#[test]
fn touching_windows_still_conflict() {
    // the window test is inclusive at the endpoints
    let (s, e) = fall();
    let a = meeting(weekdays(true, false, false, false), Some((9, 10)), s, e);
    let b = meeting(weekdays(true, false, false, false), Some((10, 11)), s, e);
    assert!(conflicts(&a, &b));
}

#[test]
fn date_disjoint_meetings_never_conflict() {
    // same weekday, same clock time, but one term apart
    let a = meeting(
        weekdays(true, false, false, false),
        Some((9, 10)),
        Date { year: 2024, month: 1, day: 1 },
        Date { year: 2024, month: 4, day: 1 },
    );
    let b = meeting(
        weekdays(true, false, false, false),
        Some((9, 10)),
        Date { year: 2024, month: 9, day: 1 },
        Date { year: 2024, month: 12, day: 1 },
    );
    assert!(!conflicts(&a, &b));
    assert!(!conflicts(&b, &a));
}

#[test]
fn day_disjoint_meetings_never_conflict() {
    let (s, e) = fall();
    let a = meeting(weekdays(true, false, false, false), Some((9, 10)), s, e);
    let b = meeting(weekdays(false, true, false, false), Some((9, 10)), s, e);
    assert!(!conflicts(&a, &b));
}

#[test]
fn asynchronous_meetings_never_conflict_on_time() {
    // two untimed meetings on overlapping days and dates do not
    // conflict, and neither does an untimed against a timed one
    let (s, e) = fall();
    let a = meeting(weekdays(true, false, false, false), None, s, e);
    let b = meeting(weekdays(true, false, false, false), None, s, e);
    let c = meeting(weekdays(true, false, false, false), Some((9, 10)), s, e);
    assert!(!conflicts(&a, &b));
    assert!(!conflicts(&a, &c));
    assert!(!conflicts(&c, &a));
}

#[test]
fn format_days_shows_school_week_letters() {
    assert_eq!(format_days(&weekdays(true, true, true, false)), "MTTh");
    assert_eq!(format_days(&weekdays(false, false, false, false)), "N/A");
    // weekend-only sets show nothing either
    assert_eq!(format_days(&weekdays(false, false, false, true)), "N/A");
}

#[test]
fn day_membership_follows_the_set() {
    let d = weekdays(true, false, true, true);
    assert!(Day::Monday.is_in_days(d));
    assert!(!Day::Tuesday.is_in_days(d));
    assert!(Day::Thursday.is_in_days(d));
    assert!(Day::Saturday.is_in_days(d));
    assert!(!Day::Sunday.is_in_days(d));
}

#[test]
fn date_order_is_field_by_field() {
    let a = Date { year: 2024, month: 9, day: 1 };
    let b = Date { year: 2024, month: 12, day: 1 };
    let c = Date { year: 2025, month: 1, day: 1 };
    assert!(a.lt(b));
    assert!(b.lt(c));
    assert!(!b.lt(a));
    assert!(!a.lt(a));
}

#[test]
fn minutes_count_from_midnight() {
    assert_eq!(TimeOfDay { hour: 0, minute: 0 }.minutes(), 0);
    assert_eq!(TimeOfDay { hour: 9, minute: 30 }.minutes(), 570);
    assert_eq!(TimeOfDay { hour: 23, minute: 59 }.minutes(), 1439);
}

fn bare_section(crn: u64, course_code: &str, sequence_code: &str) -> Section {
    Section {
        crn,
        subject_code: "CSC".to_string(),
        course_code: course_code.to_string(),
        sequence_code: sequence_code.to_string(),
        enrollment: 0,
        enrollment_capacity: 0,
        waitlist: 0,
        waitlist_capacity: 0,
        meeting_times: vec![],
    }
}

#[test]
fn get_type_reads_the_sequence_code() {
    assert_eq!(bare_section(1, "111", "A01").get_type(), Some(SectionType::Lecture));
    assert_eq!(bare_section(1, "111", "B05").get_type(), Some(SectionType::Lab));
    assert_eq!(bare_section(1, "111", "T02").get_type(), Some(SectionType::Tutorial));
    assert_eq!(bare_section(1, "111", "").get_type(), None);
    assert_eq!(bare_section(1, "111", "X01").get_type(), None);
}

#[test]
fn human_display_names_the_term() {
    assert_eq!(Term { year: 2024, season: Season::Fall }.human_display(), "fall 2024");
    assert_eq!(Term { year: 2025, season: Season::Spring }.human_display(), "spring 2025");
    assert_eq!(Term { year: 7, season: Season::Summer }.human_display(), "summer 7");
}

#[test]
fn season_months_round_trip() {
    for season in [Season::Spring, Season::Summer, Season::Fall] {
        assert_eq!(Season::from_month(season.month()), Some(season));
    }
    assert_eq!(Season::from_month(3), None);
}

#[test]
fn selection_lists_its_crns_in_order() {
    let sel = Selection {
        lecture: ThinSection { crn: 5 },
        lab: None,
        tutorial: Some(ThinSection { crn: 7 }),
    };
    assert_eq!(sel.crns(), vec![5, 7]);
    let full = Selection {
        lecture: ThinSection { crn: 1 },
        lab: Some(ThinSection { crn: 2 }),
        tutorial: Some(ThinSection { crn: 3 }),
    };
    assert_eq!(full.crns(), vec![1, 2, 3]);
}

#[test]
fn from_sections_files_sections_under_their_courses() {
    let sections = vec![
        bare_section(1, "111", "A01"),
        bare_section(2, "111", "B01"),
        bare_section(10, "222", "A02"),
        bare_section(3, "111", "A03"),
    ];
    let selected = SelectedCourses::from_sections(&sections);
    assert_eq!(selected.courses.len(), 2);
    assert_eq!(selected.courses[0].0.course_code, "111");
    // the later lecture replaced the earlier one; the lab stayed
    assert_eq!(selected.courses[0].1.lecture.crn, 3);
    assert_eq!(selected.courses[0].1.lab.unwrap().crn, 2);
    assert!(selected.courses[0].1.tutorial.is_none());
    assert_eq!(selected.courses[1].0.course_code, "222");
    assert_eq!(selected.courses[1].1.lecture.crn, 10);
    let crns = selected.crns();
    assert_eq!(crns, vec![3, 2, 10]);
    let thin = selected.thin_courses();
    assert_eq!(thin.len(), 2);
    assert_eq!(thin[0].course_code, "111");
}

#[test]
fn selected_sections_filters_by_crn() {
    let course = Course {
        subject_code: "CSC".to_string(),
        course_code: "111".to_string(),
        title: "t".to_string(),
        campus: "c".to_string(),
        sections: vec![
            bare_section(1, "111", "A01"),
            bare_section(2, "111", "B01"),
            bare_section(3, "111", "A02"),
        ],
    };
    let selected = SelectedCourses::from_sections(&vec![
        bare_section(1, "111", "A01"),
        bare_section(2, "111", "B01"),
    ]);
    let picked = selected_sections(&[course], &selected);
    let crns: Vec<u64> = picked.iter().map(|s| s.crn).collect();
    assert_eq!(crns, vec![1, 2]);
}

#[test]
fn stage_reads_the_configuration_word() {
    assert_eq!(Stage::from("prod".to_string()), Stage::PROD);
    assert_eq!(Stage::from("local".to_string()), Stage::LOCAL);
    assert_eq!(Stage::from("anything else".to_string()), Stage::LOCAL);
}

#[test]
fn a_term_contains_exactly_its_four_months() {
    let fall = Term { year: 2024, season: Season::Fall };
    assert!(fall.contains_month(2024, 9));
    assert!(fall.contains_month(2024, 12));
    assert!(!fall.contains_month(2024, 8));
    assert!(!fall.contains_month(2025, 1));
    // a spring term reaches from January through April
    let spring = Term { year: 2025, season: Season::Spring };
    assert!(spring.contains_month(2025, 1));
    assert!(spring.contains_month(2025, 4));
    assert!(!spring.contains_month(2025, 5));
    assert!(!spring.contains_month(2024, 12));
}
