use cal7tor::filter::{choice, choice_options, courses, courses_options, tdtp, tdtp_options};
use cal7tor::timetable::models::{CatSet, Category, Course, Day, TimeSlot, Timetable};
use cal7tor::utils::{count_of, get_count, get_entry, get_entry_nocat};

fn course(name: &str, cats: &[Category], start: usize, size: usize) -> Course {
    Course {
        category: cats.to_vec(),
        name: name.to_owned(),
        professor: None,
        room: "A1".to_owned(),
        start,
        size,
        dtstart: None,
        dtend: None,
        data: None,
    }
}

fn quarter_slots(n: u16) -> Vec<TimeSlot> {
    let mut v = Vec::new();
    for i in 0..n {
        v.push(TimeSlot { start: 480 + 15 * i, end: 495 + 15 * i });
    }
    v
}

fn day(name: &str, courses: Vec<Option<Course>>) -> Day {
    Day { name: name.to_owned(), courses }
}

fn grid(days: Vec<Day>) -> Timetable {
    Timetable { hours: quarter_slots(4), semester: 1, days }
}

fn lab_grid() -> Timetable {
    grid(vec![
        day("Lundi", vec![Some(course("Lab", &[Category::TD], 0, 4))]),
        day("Mardi", vec![Some(course("Lab", &[Category::TP], 0, 4))]),
        day("Mercredi", vec![]),
        day("Jeudi", vec![]),
        day("Vendredi", vec![]),
    ])
}

fn names_of(tt: &Timetable) -> Vec<(String, String)> {
    let mut out = Vec::new();
    for d in &tt.days {
        for entry in d.courses.iter().flatten() {
            out.push((d.name.clone(), entry.name.clone()));
        }
    }
    out
}

fn lecture_set() -> CatSet {
    CatSet { cours: true, td: false, tp: false }
}

fn tdtp_cats() -> CatSet {
    CatSet { cours: false, td: true, tp: true }
}

#[test]
fn choice_offers_distinct_names_in_order() {
    let tt = grid(vec![
        day(
            "Lundi",
            vec![
                Some(course("Algebra", &[Category::Cours], 0, 2)),
                Some(course("Analysis", &[Category::TD], 2, 2)),
            ],
        ),
        day("Mardi", vec![Some(course("Algebra", &[Category::Cours], 0, 4))]),
        day("Mercredi", vec![]),
        day("Jeudi", vec![]),
        day("Vendredi", vec![]),
    ]);
    let (options, defaults) = choice_options(&tt);
    assert_eq!(options, vec!["Algebra".to_owned(), "Analysis".to_owned()]);
    assert_eq!(defaults, vec![true, true]);
}

#[test]
fn choice_keeps_only_chosen_subjects() {
    let mut tt = grid(vec![
        day(
            "Lundi",
            vec![
                Some(course("Algebra", &[Category::Cours], 0, 2)),
                None,
                Some(course("Analysis", &[Category::TD], 3, 1)),
            ],
        ),
        day("Mardi", vec![Some(course("Analysis", &[Category::TD], 0, 4))]),
        day("Mercredi", vec![]),
        day("Jeudi", vec![]),
        day("Vendredi", vec![]),
    ]);
    let (options, _) = choice_options(&tt);
    // keep Algebra only
    choice(&mut tt, &vec![0], &options);
    assert_eq!(
        names_of(&tt),
        vec![("Lundi".to_owned(), "Algebra".to_owned())]
    );
}

#[test]
fn choice_twice_changes_nothing_more() {
    let mut tt = grid(vec![
        day(
            "Lundi",
            vec![
                Some(course("Algebra", &[Category::Cours], 0, 2)),
                Some(course("Analysis", &[Category::TD], 2, 2)),
            ],
        ),
        day("Mardi", vec![Some(course("Physics", &[Category::TP], 0, 4))]),
        day("Mercredi", vec![]),
        day("Jeudi", vec![]),
        day("Vendredi", vec![]),
    ]);
    let (options, _) = choice_options(&tt);
    let selections = vec![0usize, 2usize];
    choice(&mut tt, &selections, &options);
    let after_once = names_of(&tt);
    choice(&mut tt, &selections, &options);
    let after_twice = names_of(&tt);
    assert_eq!(after_once, after_twice);
    assert_eq!(
        after_once,
        vec![
            ("Lundi".to_owned(), "Algebra".to_owned()),
            ("Mardi".to_owned(), "Physics".to_owned()),
        ]
    );
}

#[test]
fn ambiguous_lectures_are_offered_sorted_and_unselected() {
    let tt = grid(vec![
        day("Lundi", vec![Some(course("Algebra", &[Category::Cours], 0, 4))]),
        day("Mardi", vec![Some(course("Algebra", &[Category::Cours], 0, 4))]),
        day("Mercredi", vec![]),
        day("Jeudi", vec![]),
        day("Vendredi", vec![]),
    ]);
    let (options, defaults) = courses_options(&tt);
    assert_eq!(
        options,
        vec![
            "Algebra - Lundi 8h00-9h00".to_owned(),
            "Algebra - Mardi 8h00-9h00".to_owned(),
        ]
    );
    assert_eq!(defaults, vec![false, false]);
}

#[test]
fn selecting_one_lecture_slot_removes_the_other() {
    let mut tt = grid(vec![
        day("Lundi", vec![Some(course("Algebra", &[Category::Cours], 0, 4))]),
        day("Mardi", vec![Some(course("Algebra", &[Category::Cours], 0, 4))]),
        day("Mercredi", vec![]),
        day("Jeudi", vec![]),
        day("Vendredi", vec![]),
    ]);
    let (options, _) = courses_options(&tt);
    // choose the Monday slot
    courses(&mut tt, &vec![0], &options);
    assert_eq!(
        names_of(&tt),
        vec![("Lundi".to_owned(), "Algebra".to_owned())]
    );
}

#[test]
fn unambiguous_lecture_needs_no_choice() {
    let mut tt = grid(vec![
        day("Lundi", vec![Some(course("Algebra", &[Category::Cours], 0, 4))]),
        day("Mardi", vec![]),
        day("Mercredi", vec![]),
        day("Jeudi", vec![]),
        day("Vendredi", vec![]),
    ]);
    let (options, _) = courses_options(&tt);
    assert!(options.is_empty());
    courses(&mut tt, &vec![], &options);
    assert_eq!(names_of(&tt).len(), 1);
}

#[test]
fn combined_block_survives_both_stages() {
    let mut tt = grid(vec![
        day("Lundi", vec![Some(course("Mixed", &[Category::Cours, Category::TD], 0, 4))]),
        day("Mardi", vec![Some(course("Mixed", &[Category::Cours, Category::TD], 0, 4))]),
        day("Mercredi", vec![]),
        day("Jeudi", vec![]),
        day("Vendredi", vec![]),
    ]);
    let none: Vec<usize> = Vec::new();
    let (b_options, _) = courses_options(&tt);
    courses(&mut tt, &none, &b_options);
    assert_eq!(names_of(&tt).len(), 2);
    let (c_options, _) = tdtp_options(&tt, false);
    tdtp(&mut tt, false, &none, &c_options);
    assert_eq!(names_of(&tt).len(), 2);
}

#[test]
fn merge_flag_decides_whether_lab_twins_are_ambiguous() {
    // merged: one identity with two slot-options, the user must choose
    let tt_merged = lab_grid();
    let c = course("Lab", &[Category::TD], 0, 4);
    assert_eq!(count_of(&tt_merged, tdtp_cats(), true, &get_entry_nocat(&c)), 2);
    let (options, defaults) = tdtp_options(&tt_merged, true);
    assert_eq!(options.len(), 2);
    assert_eq!(defaults, vec![false, false]);

    // unmerged: two identities with one slot-option each, both kept
    let mut tt_split = lab_grid();
    assert_eq!(count_of(&tt_split, tdtp_cats(), false, &get_entry(&c)), 1);
    let (no_options, _) = tdtp_options(&tt_split, false);
    assert!(no_options.is_empty());
    let none: Vec<usize> = Vec::new();
    tdtp(&mut tt_split, false, &none, &no_options);
    assert_eq!(names_of(&tt_split).len(), 2);
}

#[test]
fn disambiguation_never_raises_a_count() {
    let mut tt = grid(vec![
        day("Lundi", vec![Some(course("Algebra", &[Category::Cours], 0, 4))]),
        day("Mardi", vec![Some(course("Algebra", &[Category::Cours], 0, 4))]),
        day("Mercredi", vec![Some(course("Lab", &[Category::TD], 0, 4))]),
        day("Jeudi", vec![]),
        day("Vendredi", vec![]),
    ]);
    let algebra = get_entry(&course("Algebra", &[Category::Cours], 0, 4));
    let lab = get_entry(&course("Lab", &[Category::TD], 0, 4));
    let before_algebra = count_of(&tt, lecture_set(), false, &algebra);
    let before_lab = count_of(&tt, tdtp_cats(), false, &lab);
    assert_eq!(before_algebra, 2);
    assert_eq!(before_lab, 1);
    let (options, _) = courses_options(&tt);
    courses(&mut tt, &vec![1], &options);
    assert!(count_of(&tt, lecture_set(), false, &algebra) <= before_algebra);
    assert!(count_of(&tt, tdtp_cats(), false, &lab) <= before_lab);
    assert_eq!(count_of(&tt, lecture_set(), false, &algebra), 1);
}

#[test]
fn get_count_lists_allowed_slots_with_days() {
    let tt = grid(vec![
        day(
            "Lundi",
            vec![
                Some(course("Algebra", &[Category::Cours], 0, 2)),
                Some(course("Lab", &[Category::TD], 2, 2)),
            ],
        ),
        day("Mardi", vec![Some(course("Algebra", &[Category::Cours], 0, 4))]),
        day("Mercredi", vec![]),
        day("Jeudi", vec![]),
        day("Vendredi", vec![]),
    ]);
    let lectures = get_count(&tt, lecture_set());
    assert_eq!(lectures.len(), 2);
    assert_eq!(lectures[0].0.name, "Algebra");
    assert_eq!(lectures[0].1, "Lundi");
    assert_eq!(lectures[1].1, "Mardi");
    let others = get_count(&tt, tdtp_cats());
    assert_eq!(others.len(), 1);
    assert_eq!(others[0].0.name, "Lab");
}
