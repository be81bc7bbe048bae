use scheduler::course::{Course, MeetingTime, Section, ThinSection};
use scheduler::schedule::next_schedule;
use scheduler::time::{Date, Days, TimeOfDay};

fn day_set(monday: bool, tuesday: bool, wednesday: bool) -> Days {
    Days {
        monday,
        tuesday,
        wednesday,
        thursday: false,
        friday: false,
        saturday: false,
        sunday: false,
    }
}

fn timed_meeting(days: Days, start_h: u8, end_h: u8) -> MeetingTime {
    MeetingTime {
        start_time: Some(TimeOfDay { hour: start_h, minute: 0 }),
        end_time: Some(TimeOfDay { hour: end_h, minute: 0 }),
        start_date: Date { year: 2024, month: 9, day: 1 },
        end_date: Date { year: 2024, month: 12, day: 1 },
        days,
        building: None,
        room: None,
    }
}

fn async_meeting() -> MeetingTime {
    MeetingTime {
        start_time: None,
        end_time: None,
        start_date: Date { year: 2024, month: 9, day: 1 },
        end_date: Date { year: 2024, month: 12, day: 1 },
        days: day_set(true, true, true),
        building: None,
        room: None,
    }
}

fn section(crn: u64, sequence_code: &str, meetings: Vec<MeetingTime>) -> Section {
    Section {
        crn,
        subject_code: "CSC".to_string(),
        course_code: if crn < 10 { "111".to_string() } else { "222".to_string() },
        sequence_code: sequence_code.to_string(),
        enrollment: 0,
        enrollment_capacity: 10,
        waitlist: 0,
        waitlist_capacity: 10,
        meeting_times: meetings,
    }
}

fn course(code: &str, sections: Vec<Section>) -> Course {
    Course {
        subject_code: "CSC".to_string(),
        course_code: code.to_string(),
        title: "A Course".to_string(),
        campus: "in person".to_string(),
        sections,
    }
}

/// Two groups: G0 = [A, B] and G1 = [X, Y], where A conflicts only
/// with X.
fn two_group_courses() -> Vec<Course> {
    let a = section(1, "A01", vec![timed_meeting(day_set(true, false, false), 9, 10)]);
    let b = section(2, "A02", vec![async_meeting()]);
    let x = section(10, "A01", vec![timed_meeting(day_set(true, false, false), 9, 10)]);
    let y = section(11, "A02", vec![timed_meeting(day_set(false, true, false), 9, 10)]);
    vec![course("111", vec![a, b]), course("222", vec![x, y])]
}

fn crns_of(sections: &Vec<Section>) -> Vec<u64> {
    sections.iter().map(|s| s.crn).collect()
}

fn thin(crns: &Vec<u64>) -> Vec<ThinSection> {
    crns.iter().map(|&crn| ThinSection { crn }).collect()
}

#[test]
fn test_empty() {}

#[test]
fn no_courses_yield_no_schedule() {
    let courses: Vec<Course> = vec![];
    assert!(next_schedule(&courses, None, false).is_none());
    assert!(next_schedule(&courses, None, true).is_none());
}

#[test]
fn forward_enumeration_order() {
    // the scenario: (A, Y), then (B, X), then (B, Y), then None
    let courses = two_group_courses();
    let first = next_schedule(&courses, None, false).expect("first schedule");
    assert_eq!(crns_of(&first), vec![1, 11]);
    let second = next_schedule(&courses, Some(&thin(&crns_of(&first))), false).expect("second");
    assert_eq!(crns_of(&second), vec![2, 10]);
    let third = next_schedule(&courses, Some(&thin(&crns_of(&second))), false).expect("third");
    assert_eq!(crns_of(&third), vec![2, 11]);
    let done = next_schedule(&courses, Some(&thin(&crns_of(&third))), false);
    assert!(done.is_none());
}

#[test]
fn every_result_is_conflict_free() {
    let courses = two_group_courses();
    let mut state: Option<Vec<u64>> = None;
    let mut seen = 0;
    loop {
        let prior = state.as_ref().map(|c| thin(c));
        let next = next_schedule(&courses, prior.as_deref(), false);
        match next {
            Some(secs) => {
                // no pair may share the Monday 9-10 slot
                let timed: Vec<&Section> = secs
                    .iter()
                    .filter(|s| s.meeting_times.iter().any(|m| m.start_time.is_some() && m.days.monday))
                    .collect();
                assert!(timed.len() <= 1);
                state = Some(crns_of(&secs));
                seen += 1;
            },
            None => break,
        }
    }
    assert_eq!(seen, 3);
}

#[test]
fn stale_position_restarts_from_first_leaf() {
    let courses = two_group_courses();
    // identifiers that no longer appear anywhere
    let stale = vec![ThinSection { crn: 999 }, ThinSection { crn: 998 }];
    let restarted = next_schedule(&courses, Some(&stale), false).expect("restart");
    assert_eq!(crns_of(&restarted), vec![1, 11]);
    // a position of the wrong shape is stale too
    let short = vec![ThinSection { crn: 1 }];
    let restarted = next_schedule(&courses, Some(&short), false).expect("restart");
    assert_eq!(crns_of(&restarted), vec![1, 11]);
}

#[test]
fn backward_enumeration_mirrors_forward() {
    let courses = two_group_courses();
    // forward: [1,11], [2,10], [2,11]; backward from the last leaf
    // revisits the earlier ones in reverse order
    let from_last = vec![ThinSection { crn: 2 }, ThinSection { crn: 11 }];
    let second = next_schedule(&courses, Some(&from_last), true).expect("previous");
    assert_eq!(crns_of(&second), vec![2, 10]);
    let first = next_schedule(&courses, Some(&thin(&crns_of(&second))), true).expect("previous");
    assert_eq!(crns_of(&first), vec![1, 11]);
    let done = next_schedule(&courses, Some(&thin(&crns_of(&first))), true);
    assert!(done.is_none());
}

#[test]
fn backward_from_nothing_starts_at_the_last_leaf() {
    let courses = two_group_courses();
    let last = next_schedule(&courses, None, true).expect("last");
    assert_eq!(crns_of(&last), vec![2, 11]);
}

#[test]
fn course_without_sections_contributes_no_group() {
    let empty = course("111", vec![]);
    let x = section(10, "A01", vec![timed_meeting(day_set(true, false, false), 9, 10)]);
    let y = section(11, "A02", vec![timed_meeting(day_set(false, true, false), 9, 10)]);
    let courses = vec![empty, course("222", vec![x, y])];
    let first = next_schedule(&courses, None, false).expect("first");
    assert_eq!(crns_of(&first), vec![10]);
    let second = next_schedule(&courses, Some(&thin(&crns_of(&first))), false).expect("second");
    assert_eq!(crns_of(&second), vec![11]);
    assert!(next_schedule(&courses, Some(&thin(&crns_of(&second))), false).is_none());
}

#[test]
fn fully_conflicting_groups_have_no_schedule() {
    let a = section(1, "A01", vec![timed_meeting(day_set(true, false, false), 9, 10)]);
    let x = section(10, "A01", vec![timed_meeting(day_set(true, false, false), 9, 10)]);
    let courses = vec![course("111", vec![a]), course("222", vec![x])];
    assert!(next_schedule(&courses, None, false).is_none());
}

#[test]
fn lecture_and_lab_of_one_course_form_two_groups() {
    let lecture = section(1, "A01", vec![timed_meeting(day_set(true, false, false), 9, 10)]);
    let lab = section(2, "B01", vec![timed_meeting(day_set(false, true, false), 9, 10)]);
    let courses = vec![course("111", vec![lecture, lab])];
    let first = next_schedule(&courses, None, false).expect("first");
    assert_eq!(crns_of(&first), vec![1, 2]);
    assert!(next_schedule(&courses, Some(&thin(&crns_of(&first))), false).is_none());
}

#[test]
fn full_walk_visits_every_combination_once_in_order() {
    // three conflict-free groups of sizes 2, 3, and 2: the walk must
    // produce all twelve combinations, in increasing cursor order,
    // with no repeats
    let g0 = vec![
        section(1, "A01", vec![async_meeting()]),
        section(2, "A02", vec![async_meeting()]),
    ];
    let g1 = vec![
        section(11, "A01", vec![async_meeting()]),
        section(12, "A02", vec![async_meeting()]),
        section(13, "A03", vec![async_meeting()]),
    ];
    let g2 = vec![
        section(21, "A01", vec![async_meeting()]),
        section(22, "A02", vec![async_meeting()]),
    ];
    let mut c1 = course("111", g0);
    let mut c2 = course("222", g1);
    let mut c3 = course("333", g2);
    c1.sections.iter_mut().for_each(|s| s.course_code = "111".to_string());
    c2.sections.iter_mut().for_each(|s| s.course_code = "222".to_string());
    c3.sections.iter_mut().for_each(|s| s.course_code = "333".to_string());
    let courses = vec![c1, c2, c3];

    let mut walked: Vec<Vec<u64>> = Vec::new();
    let mut state: Option<Vec<u64>> = None;
    loop {
        let prior = state.as_ref().map(|c| thin(c));
        match next_schedule(&courses, prior.as_deref(), false) {
            Some(secs) => {
                let crns = crns_of(&secs);
                state = Some(crns.clone());
                walked.push(crns);
            },
            None => break,
        }
    }
    assert_eq!(walked.len(), 12);
    let mut expected = Vec::new();
    for a in [1u64, 2] {
        for b in [11u64, 12, 13] {
            for c in [21u64, 22] {
                expected.push(vec![a, b, c]);
            }
        }
    }
    assert_eq!(walked, expected);
}
