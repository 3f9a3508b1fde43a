use cal7tor::timetable::models::{CatSet, Category, Course, Day, ScheduleError, TimeSlot, Timetable};
use cal7tor::timetable::{check_day, check_timetable};
use cal7tor::utils::{
    capitalize_str, check_errors, format_time_slot, get_entry, get_entry_nocat, get_hours,
    get_selection, get_semester, get_year, i64_string, minutes_label, parse_time_slot,
    text_contains, two_digit, u32_string, u64_string, Capitalize,
};

fn course(name: &str, cats: &[Category], start: usize, size: usize) -> Course {
    Course {
        category: cats.to_vec(),
        name: name.to_owned(),
        professor: None,
        room: "A1".to_owned(),
        start,
        size,
        dtstart: None,
        dtend: None,
        data: None,
    }
}

fn quarter_slots(n: u16) -> Vec<TimeSlot> {
    let mut v = Vec::new();
    for i in 0..n {
        v.push(TimeSlot { start: 480 + 15 * i, end: 495 + 15 * i });
    }
    v
}

fn empty_day(name: &str, n: usize) -> Day {
    let mut courses = Vec::new();
    for _ in 0..n {
        courses.push(None);
    }
    Day { name: name.to_owned(), courses }
}

#[test]
fn numbers_render_in_decimal() {
    assert_eq!(u32_string(0), "0");
    assert_eq!(u32_string(42), "42");
    assert_eq!(u32_string(100), "100");
    assert_eq!(u64_string(19968), "19968");
    assert_eq!(i64_string(-5), "-5");
    assert_eq!(i64_string(2024), "2024");
    assert_eq!(two_digit(7), "07");
    assert_eq!(two_digit(45), "45");
}

#[test]
fn minutes_render_like_the_grid() {
    assert_eq!(minutes_label(480), "8h00");
    assert_eq!(minutes_label(485), "8h05");
    assert_eq!(minutes_label(1200), "20h00");
    assert_eq!(minutes_label(735), "12h15");
}

#[test]
fn get_hours_covers_the_standard_day() {
    let hours = get_hours();
    assert_eq!(hours.len(), 48);
    assert_eq!(hours[0], "8h00-8h15");
    assert_eq!(hours[1], "8h15-8h30");
    assert_eq!(hours[47], "19h45-20h00");
}

#[test]
fn format_time_slot_pads_hours() {
    assert_eq!(format_time_slot(0, 4), "08h00-09h00");
    assert_eq!(format_time_slot(16, 4), "12h00-13h00");
    assert_eq!(format_time_slot(4, 2), "09h00-09h30");
}

#[test]
fn format_time_slot_carries_minutes_into_the_hour() {
    // 08:30 plus two quarter-hour slots ends at 09:00, not back at 08:00
    assert_eq!(format_time_slot(2, 2), "08h30-09h00");
    // 08:45 plus three slots crosses the hour mid-minute-count
    assert_eq!(format_time_slot(3, 3), "08h45-09h30");
}

#[test]
fn slot_labels_parse_back() {
    assert_eq!(parse_time_slot("8h00-8h15"), Some(TimeSlot { start: 480, end: 495 }));
    assert_eq!(parse_time_slot("12h15-13h45"), Some(TimeSlot { start: 735, end: 825 }));
    assert_eq!(parse_time_slot("8h00"), None);
    assert_eq!(parse_time_slot("8h0-9h00"), None);
    assert_eq!(parse_time_slot("ah00-9h00"), None);
    assert_eq!(parse_time_slot("8h00-9h000"), None);
    assert_eq!(parse_time_slot(""), None);
}

#[test]
fn every_standard_label_parses_to_its_slot() {
    let labels = get_hours();
    for (i, label) in labels.iter().enumerate() {
        let slot = parse_time_slot(label).unwrap();
        assert_eq!(slot.start, 480 + 15 * i as u16);
        assert_eq!(slot.end, 495 + 15 * i as u16);
    }
}

#[test]
fn category_labels() {
    assert_eq!(Category::Cours.label(), "Cours");
    assert_eq!(Category::TD.label(), "TD");
    assert_eq!(Category::TP.label(), "TP");
}

#[test]
fn capitalize_raises_the_first_letter() {
    assert_eq!(capitalize_str("lundi"), "Lundi");
    assert_eq!(capitalize_str("Mardi"), "Mardi");
    assert_eq!(capitalize_str(""), "");
    assert_eq!(capitalize_str("été"), "été");
    assert_eq!("vendredi".capitalize(), "Vendredi");
}

#[test]
fn text_contains_finds_runs() {
    assert!(text_contains("abcdef", "cde"));
    assert!(text_contains("abcdef", ""));
    assert!(!text_contains("abcdef", "cdf"));
    assert!(!text_contains("ab", "abc"));
}

#[test]
fn check_errors_spots_the_marker() {
    let bad = "<html>Aucun créneau horaire affecté</html>".to_owned();
    let good = "<html><table>…</table></html>".to_owned();
    assert!(check_errors(&bad));
    assert!(!check_errors(&good));
}

#[test]
fn semester_follows_request_or_date() {
    assert_eq!(get_semester(Some(1)), 1);
    assert_eq!(get_semester(Some(2)), 2);
    let s = get_semester(None);
    assert!(s == 1 || s == 2);
}

#[test]
fn year_spans_follow_the_semester() {
    assert_eq!(get_year(Some(2024), 1), "2024-2025");
    assert_eq!(get_year(Some(2024), 2), "2023-2024");
    let any = get_year(None, 1);
    assert!(any.contains('-'));
}

#[test]
fn identity_carries_categories_unless_merged() {
    let c = course("Lab", &[Category::TD], 0, 2);
    let with = get_entry(&c);
    assert_eq!(with.name, "Lab");
    assert_eq!(with.cats, Some(CatSet { cours: false, td: true, tp: false }));
    let without = get_entry_nocat(&c);
    assert_eq!(without.name, "Lab");
    assert_eq!(without.cats, None);
}

#[test]
fn selection_label_shows_day_and_times() {
    let hours = quarter_slots(4);
    let c = course("Algebra", &[Category::Cours], 0, 4);
    let label = get_selection(&c, &"Lundi".to_owned(), &hours);
    assert_eq!(label, "Algebra - Lundi 8h00-9h00");
}

#[test]
fn validator_accepts_a_tiled_day() {
    let mut courses = Vec::new();
    courses.push(Some(course("Algebra", &[Category::Cours], 0, 2)));
    courses.push(None);
    courses.push(Some(course("Analysis", &[Category::TD], 3, 1)));
    let day = Day { name: "Lundi".to_owned(), courses };
    assert!(check_day(&day, 4));
}

#[test]
fn validator_rejects_a_gap() {
    let mut courses = Vec::new();
    courses.push(Some(course("Algebra", &[Category::Cours], 1, 2)));
    let day = Day { name: "Lundi".to_owned(), courses };
    assert!(!check_day(&day, 4));
}

#[test]
fn validator_rejects_an_overrun() {
    let mut courses = Vec::new();
    courses.push(Some(course("Algebra", &[Category::Cours], 0, 5)));
    let day = Day { name: "Lundi".to_owned(), courses };
    assert!(!check_day(&day, 4));
}

#[test]
fn validator_empty_table_needs_empty_day() {
    let day = Day { name: "Lundi".to_owned(), courses: Vec::new() };
    assert!(check_day(&day, 0));
    let mut courses = Vec::new();
    courses.push(None);
    let day2 = Day { name: "Lundi".to_owned(), courses };
    assert!(!check_day(&day2, 0));
}

#[test]
fn validator_full_single_course_is_valid() {
    let mut courses = Vec::new();
    courses.push(Some(course("Algebra", &[Category::Cours], 0, 4)));
    let day = Day { name: "Lundi".to_owned(), courses };
    assert!(check_day(&day, 4));
}

#[test]
fn timetable_check_reports_data_shape() {
    let mut bad_courses = Vec::new();
    bad_courses.push(Some(course("Algebra", &[Category::Cours], 2, 2)));
    let tt = Timetable {
        hours: quarter_slots(4),
        semester: 1,
        days: vec![
            Day { name: "Lundi".to_owned(), courses: bad_courses },
            empty_day("Mardi", 4),
            empty_day("Mercredi", 4),
            empty_day("Jeudi", 4),
            empty_day("Vendredi", 4),
        ],
    };
    assert_eq!(check_timetable(&tt), Err(ScheduleError::DataShape));

    let mut good_courses = Vec::new();
    good_courses.push(Some(course("Algebra", &[Category::Cours], 0, 4)));
    let tt2 = Timetable {
        hours: quarter_slots(4),
        semester: 1,
        days: vec![
            Day { name: "Lundi".to_owned(), courses: good_courses },
            empty_day("Mardi", 4),
            empty_day("Mercredi", 4),
            empty_day("Jeudi", 4),
            empty_day("Vendredi", 4),
        ],
    };
    assert_eq!(check_timetable(&tt2), Ok(()));
}

#[test]
fn cloning_a_course_keeps_every_field() {
    let mut c = course("Algebra", &[Category::Cours, Category::TD], 1, 3);
    c.professor = Some("Someone".to_owned());
    c.data = Some("notes".to_owned());
    let d = c.clone();
    assert_eq!(d.name, c.name);
    assert_eq!(d.category, c.category);
    assert_eq!(d.professor, c.professor);
    assert_eq!(d.room, c.room);
    assert_eq!(d.start, c.start);
    assert_eq!(d.size, c.size);
    assert_eq!(d.dtstart, c.dtstart);
    assert_eq!(d.dtend, c.dtend);
    assert_eq!(d.data, c.data);
}
