use cal7tor::info::{derive_from_cours, info};
use cal7tor::timetable::build;
use cal7tor::timetable::models::{Category, Course, Day, ScheduleError, TimeSlot, Timetable};
use cal7tor::utils::models::InfoType;

fn course(name: &str, cats: &[Category], start: usize, size: usize) -> Course {
    Course {
        category: cats.to_vec(),
        name: name.to_owned(),
        professor: None,
        room: "A1".to_owned(),
        start,
        size,
        dtstart: None,
        dtend: None,
        data: None,
    }
}

fn quarter_slots(n: u16) -> Vec<TimeSlot> {
    let mut v = Vec::new();
    for i in 0..n {
        v.push(TimeSlot { start: 480 + 15 * i, end: 495 + 15 * i });
    }
    v
}

fn empty_day(name: &str, n: usize) -> Day {
    let mut courses = Vec::new();
    for _ in 0..n {
        courses.push(None);
    }
    Day { name: name.to_owned(), courses }
}

fn five_days(monday: Vec<Option<Course>>, n: usize) -> Vec<Day> {
    vec![
        Day { name: "Lundi".to_owned(), courses: monday },
        empty_day("Mardi", n),
        empty_day("Mercredi", n),
        empty_day("Jeudi", n),
        empty_day("Vendredi", n),
    ]
}

/// Day number of 2024-09-02, a Monday, counted from 1970-01-01.
const MONDAY_2024_09_02: u64 = 19968;

#[test]
fn day_number_matches_chrono() {
    let epoch = chrono::NaiveDate::from_ymd_opt(1970, 1, 1).unwrap();
    let date = chrono::NaiveDate::from_ymd_opt(2024, 9, 2).unwrap();
    assert_eq!((date - epoch).num_days(), MONDAY_2024_09_02 as i64);
    assert_eq!(date.format("%A").to_string(), "Monday");
    assert_eq!(MONDAY_2024_09_02 % 7, 4);
}

#[test]
fn simple_expansion_two_weeks() {
    let mut monday = Vec::new();
    monday.push(Some(course("Algebra", &[Category::Cours], 0, 4)));
    let tt = Timetable { hours: quarter_slots(4), semester: 1, days: five_days(monday, 4) };
    let periods = vec![(
        1usize,
        InfoType {
            course: vec![(MONDAY_2024_09_02, 2), (MONDAY_2024_09_02, 0)],
            td_tp: vec![(MONDAY_2024_09_02, 0), (MONDAY_2024_09_02, 0)],
        },
    )];
    let out = build(&tt, &periods).unwrap();
    assert_eq!(out.len(), 2);
    let start0 = MONDAY_2024_09_02 * 1440 + 8 * 60;
    let start1 = (MONDAY_2024_09_02 + 7) * 1440 + 8 * 60;
    assert_eq!(out[0].dtstart, Some(start0));
    assert_eq!(out[0].dtend, Some(start0 + 60));
    assert_eq!(out[1].dtstart, Some(start1));
    assert_eq!(out[1].dtend, Some(start1 + 60));
    assert_eq!(out[0].name, "Algebra");
}

#[test]
fn every_occurrence_ends_after_it_starts() {
    let mut monday = Vec::new();
    monday.push(Some(course("Algebra", &[Category::Cours], 0, 2)));
    monday.push(Some(course("Lab", &[Category::TP], 2, 2)));
    let tt = Timetable { hours: quarter_slots(4), semester: 1, days: five_days(monday, 4) };
    let periods = vec![(
        1usize,
        InfoType {
            course: vec![(MONDAY_2024_09_02, 3), (MONDAY_2024_09_02 + 35, 2)],
            td_tp: vec![(MONDAY_2024_09_02 + 7, 2), (MONDAY_2024_09_02 + 35, 2)],
        },
    )];
    let out = build(&tt, &periods).unwrap();
    assert_eq!(out.len(), 5 + 4);
    for occ in &out {
        assert!(occ.dtend.unwrap() > occ.dtstart.unwrap());
    }
}

#[test]
fn combined_block_is_emitted_under_lecture_dates_only() {
    let mut monday = Vec::new();
    monday.push(Some(course("Mixed", &[Category::Cours, Category::TD], 0, 4)));
    let tt = Timetable { hours: quarter_slots(4), semester: 1, days: five_days(monday, 4) };
    let lecture_monday = MONDAY_2024_09_02;
    let tdtp_monday = MONDAY_2024_09_02 + 7;
    let periods = vec![(
        1usize,
        InfoType {
            course: vec![(lecture_monday, 1), (lecture_monday, 0)],
            td_tp: vec![(tdtp_monday, 1), (tdtp_monday, 0)],
        },
    )];
    let out = build(&tt, &periods).unwrap();
    assert_eq!(out.len(), 1);
    assert_eq!(out[0].dtstart, Some(lecture_monday * 1440 + 480));
}

#[test]
fn zero_weeks_emit_nothing() {
    let mut monday = Vec::new();
    monday.push(Some(course("Algebra", &[Category::Cours], 0, 4)));
    let tt = Timetable { hours: quarter_slots(4), semester: 1, days: five_days(monday, 4) };
    let periods = vec![(
        1usize,
        InfoType {
            course: vec![(MONDAY_2024_09_02, 0), (MONDAY_2024_09_02, 0)],
            td_tp: vec![(MONDAY_2024_09_02, 0), (MONDAY_2024_09_02, 0)],
        },
    )];
    let out = build(&tt, &periods).unwrap();
    assert!(out.is_empty());
}

#[test]
fn missing_period_is_reported() {
    let tt = Timetable {
        hours: quarter_slots(4),
        semester: 2,
        days: five_days(Vec::new(), 4),
    };
    let periods = vec![(
        1usize,
        InfoType {
            course: vec![(MONDAY_2024_09_02, 1), (MONDAY_2024_09_02, 0)],
            td_tp: vec![(MONDAY_2024_09_02, 0), (MONDAY_2024_09_02, 0)],
        },
    )];
    assert_eq!(build(&tt, &periods).unwrap_err(), ScheduleError::MissingPeriod);
}

#[test]
fn td_occurrences_use_their_own_dates() {
    let mut monday = Vec::new();
    monday.push(Some(course("Lab", &[Category::TD], 0, 2)));
    let tt = Timetable { hours: quarter_slots(4), semester: 1, days: five_days(monday, 4) };
    let tdtp_monday = MONDAY_2024_09_02 + 7;
    let periods = vec![(
        1usize,
        InfoType {
            course: vec![(MONDAY_2024_09_02, 4), (MONDAY_2024_09_02, 0)],
            td_tp: vec![(tdtp_monday, 1), (tdtp_monday, 0)],
        },
    )];
    let out = build(&tt, &periods).unwrap();
    assert_eq!(out.len(), 1);
    assert_eq!(out[0].dtstart, Some(tdtp_monday * 1440 + 480));
    assert_eq!(out[0].dtend, Some(tdtp_monday * 1440 + 510));
}

#[test]
fn derive_from_cours_shifts_a_week() {
    let courses = vec![(MONDAY_2024_09_02, 6), (MONDAY_2024_09_02 + 63, 6)];
    let shifted = derive_from_cours(&courses, 1);
    assert_eq!(shifted, vec![(MONDAY_2024_09_02 + 7, 5), (MONDAY_2024_09_02 + 63, 7)]);
    let unshifted = derive_from_cours(&courses, 0);
    assert_eq!(unshifted, courses);
}

#[test]
fn info_builds_both_semesters() {
    let s1 = MONDAY_2024_09_02;
    let s2 = MONDAY_2024_09_02 + 140;
    let periods = info(s1, s2, (6, 6), (7, 5), true, true);
    assert_eq!(periods.len(), 2);
    assert_eq!(periods[0].0, 1);
    assert_eq!(periods[1].0, 2);
    // first semester: one gap week at the break, tutorials one week late
    assert_eq!(periods[0].1.course, vec![(s1, 6), (s1 + 49, 6)]);
    assert_eq!(periods[0].1.td_tp, vec![(s1 + 7, 5), (s1 + 49, 7)]);
    // second semester: two gap weeks at the break
    assert_eq!(periods[1].1.course, vec![(s2, 7), (s2 + 63, 5)]);
    assert_eq!(periods[1].1.td_tp, vec![(s2 + 7, 6), (s2 + 63, 6)]);
}

#[test]
fn info_without_flags_keeps_dates() {
    let s1 = MONDAY_2024_09_02;
    let s2 = MONDAY_2024_09_02 + 140;
    let periods = info(s1, s2, (6, 6), (7, 5), false, false);
    assert_eq!(periods[0].1.course, vec![(s1, 6), (s1 + 42, 6)]);
    assert_eq!(periods[0].1.td_tp, vec![(s1, 6), (s1 + 42, 6)]);
    assert_eq!(periods[1].1.course, vec![(s2, 7), (s2 + 49, 5)]);
}
