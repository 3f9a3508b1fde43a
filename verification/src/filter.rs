use vstd::prelude::*;

use crate::timetable::lecture_only;
use crate::timetable::models::{
    cat_set, cats_intersect, day_courses_wf, entries_total, ocourses_view, opt_course_view, CatSet,
    Course, CourseView, Day, DayView, TimeSlot, Timetable,
};
use crate::utils::{
    count_in_courses, count_in_days, count_of, counted, get_entry, get_entry_nocat, get_selection,
    key_of, label_of, lex_leq, sort_strings, strs_view,
};

verus! {

/// Whether index list `selections` picks an option whose text is `text`.
pub open spec fn text_chosen(text: Seq<char>, selections: Seq<usize>, options: Seq<String>) -> bool {
    exists|i: int|
        0 <= i < selections.len() && (#[trigger] options[selections[i] as int])@ == text
}

/// Subject-selection retention: an entry survives exactly when it holds a course
/// whose name is among the chosen subjects.
pub open spec fn choice_keeps(
    e: Option<CourseView>,
    selections: Seq<usize>,
    options: Seq<String>,
) -> bool {
    match e {
        Some(c) => text_chosen(c.name, selections, options),
        None => false,
    }
}

/// One day's entries after the subject selection, in their original order.
pub open spec fn choice_filter(
    s: Seq<Option<CourseView>>,
    selections: Seq<usize>,
    options: Seq<String>,
) -> Seq<Option<CourseView>>
    decreases s.len(),
{
    if s.len() == 0 {
        Seq::empty()
    } else {
        choice_filter(s.drop_last(), selections, options) + if choice_keeps(
            s.last(),
            selections,
            options,
        ) {
            seq![s.last()]
        } else {
            Seq::empty()
        }
    }
}

/// The distinct course names of the grid, in order of first appearance:
/// what the subject selection offers the user, all selected by default.
pub open spec fn names_in_courses(s: Seq<Option<CourseView>>, seen: Seq<Seq<char>>) -> Seq<
    Seq<char>,
>
    decreases s.len(),
{
    if s.len() == 0 {
        seen
    } else {
        let prior = names_in_courses(s.drop_last(), seen);
        match s.last() {
            Some(c) => if prior.contains(c.name) {
                prior
            } else {
                prior.push(c.name)
            },
            None => prior,
        }
    }
}

pub open spec fn names_in_days(days: Seq<DayView>, seen: Seq<Seq<char>>) -> Seq<Seq<char>>
    decreases days.len(),
{
    if days.len() == 0 {
        seen
    } else {
        names_in_courses(days.last().courses, names_in_days(days.drop_last(), seen))
    }
}

/// Whether the string sequence `v` holds a string whose text is `text`.
fn contains_text(v: &Vec<String>, text: &String) -> (b: bool)
    ensures
        b == strs_view(v@).contains(text@),
{
    let mut i: usize = 0;
    while i < v.len()
        invariant
            0 <= i <= v@.len(),
            forall|j: int| 0 <= j < i ==> (#[trigger] v@[j])@ != text@,
        decreases v@.len() - i,
    {
        if v[i] == *text {
            proof {
                assert(strs_view(v@)[i as int] == v@[i as int]@);
            }
            return true;
        }
        i = i + 1;
    }
    proof {
        if strs_view(v@).contains(text@) {
            let j = choose|j: int|
                0 <= j < strs_view(v@).len() && #[trigger] strs_view(v@)[j] == text@;
            assert(v@[j]@ == text@);
        }
    }
    false
}

/// The subject selection's offer: the distinct course names present anywhere in the
/// grid, in order of first appearance, and the default choices, all
/// selected.
pub fn choice_options(tt: &Timetable) -> (r: (Vec<String>, Vec<bool>))
    ensures
        strs_view(r.0@) == names_in_days(tt@.days, Seq::empty()),
        r.1@.len() == r.0@.len(),
        forall|i: int| 0 <= i < r.1@.len() ==> r.1@[i],
{
    let ghost days = tt@.days;
    let mut names: Vec<String> = Vec::new();
    proof {
        assert(strs_view(names@) =~= Seq::<Seq<char>>::empty());
    }
    let mut d: usize = 0;
    while d < tt.days.len()
        invariant
            0 <= d <= tt.days.len(),
            days == tt@.days,
            days.len() == tt.days.len(),
            strs_view(names@) == names_in_days(days.take(d as int), Seq::empty()),
        decreases tt.days.len() - d,
    {
        let ghost courses = days[d as int].courses;
        proof {
            assert(tt.days@[d as int]@ == days[d as int]);
        }
        let day = &tt.days[d];
        let mut k: usize = 0;
        while k < day.courses.len()
            invariant
                0 <= k <= day.courses.len(),
                days == tt@.days,
                0 <= d < days.len(),
                day@ == days[d as int],
                courses == days[d as int].courses,
                courses.len() == day.courses.len(),
                strs_view(names@) == names_in_courses(
                    courses.take(k as int),
                    names_in_days(days.take(d as int), Seq::empty()),
                ),
            decreases day.courses.len() - k,
        {
            proof {
                assert(courses[k as int] == opt_course_view(day.courses@[k as int]));
                assert(courses.take(k + 1).drop_last() =~= courses.take(k as int));
                assert(courses.take(k + 1).last() == courses[k as int]);
            }
            match &day.courses[k] {
                Some(c) => {
                    if !contains_text(&names, &c.name) {
                        proof {
                            let ghost prev = names@;
                            assert(strs_view(prev.push(c.name)) =~= strs_view(prev).push(c.name@));
                        }
                        names.push(c.name.clone());
                    }
                },
                None => {},
            }
            k = k + 1;
        }
        proof {
            assert(courses.take(courses.len() as int) =~= courses);
            assert(days.take(d + 1).drop_last() =~= days.take(d as int));
            assert(days.take(d + 1).last() == days[d as int]);
        }
        d = d + 1;
    }
    proof {
        assert(days.take(days.len() as int) =~= days);
    }
    let mut defaults: Vec<bool> = Vec::new();
    let mut i: usize = 0;
    let n = names.len();
    while i < n
        invariant
            0 <= i <= n,
            defaults@.len() == i,
            forall|j: int| 0 <= j < i ==> defaults@[j],
        decreases n - i,
    {
        defaults.push(true);
        i = i + 1;
    }
    (names, defaults)
}

/// Whether the given text is among the chosen options.
fn chosen_text(text: &String, selections: &Vec<usize>, options: &Vec<String>) -> (b: bool)
    requires
        forall|i: int|
            0 <= i < selections@.len() ==> (#[trigger] selections@[i]) < options@.len(),
    ensures
        b == text_chosen(text@, selections@, options@),
{
    let mut i: usize = 0;
    while i < selections.len()
        invariant
            0 <= i <= selections@.len(),
            forall|j: int|
                0 <= j < selections@.len() ==> (#[trigger] selections@[j]) < options@.len(),
            forall|j: int|
                0 <= j < i ==> (#[trigger] options@[selections@[j] as int])@ != text@,
        decreases selections@.len() - i,
    {
        if options[selections[i]] == *text {
            return true;
        }
        i = i + 1;
    }
    false
}

/// Subject selection, the first filter stage: keeps exactly the entries
/// whose course name is among the chosen options; empty entries and
/// unchosen courses leave the grid.  `selections` indexes into `options`,
/// the list `choice_options` offered; an index out of range is the
/// caller's contract violation.
pub fn choice(tt: &mut Timetable, selections: &Vec<usize>, options: &Vec<String>)
    requires
        forall|i: int|
            0 <= i < selections@.len() ==> (#[trigger] selections@[i]) < options@.len(),
    ensures
        final(tt)@.hours == old(tt)@.hours,
        final(tt)@.semester == old(tt)@.semester,
        final(tt)@.days.len() == old(tt)@.days.len(),
        forall|d: int|
            0 <= d < old(tt)@.days.len() ==> (#[trigger] final(tt)@.days[d]).name == old(
                tt,
            )@.days[d].name && final(tt)@.days[d].courses == choice_filter(
                old(tt)@.days[d].courses,
                selections@,
                options@,
            ),
{
    let ghost days = old(tt)@.days;
    let mut newdays: Vec<Day> = Vec::new();
    let mut d: usize = 0;
    while d < tt.days.len()
        invariant
            0 <= d <= tt.days.len(),
            days == tt@.days,
            days.len() == tt.days.len(),
            tt@ == old(tt)@,
            forall|i: int|
                0 <= i < selections@.len() ==> (#[trigger] selections@[i]) < options@.len(),
            newdays@.len() == d,
            forall|j: int|
                0 <= j < d ==> (#[trigger] newdays@[j]@).name == days[j].name && newdays@[j]@.courses
                    == choice_filter(days[j].courses, selections@, options@),
        decreases tt.days.len() - d,
    {
        let ghost courses = days[d as int].courses;
        proof {
            assert(tt.days@[d as int]@ == days[d as int]);
        }
        let day = &tt.days[d];
        let mut kept: Vec<Option<Course>> = Vec::new();
        proof {
            assert(ocourses_view(kept@) =~= Seq::<Option<CourseView>>::empty());
        }
        let mut k: usize = 0;
        while k < day.courses.len()
            invariant
                0 <= k <= day.courses.len(),
                0 <= d < days.len(),
                day@ == days[d as int],
                courses == days[d as int].courses,
                courses.len() == day.courses.len(),
                forall|i: int|
                    0 <= i < selections@.len() ==> (#[trigger] selections@[i]) < options@.len(),
                ocourses_view(kept@) == choice_filter(
                    courses.take(k as int),
                    selections@,
                    options@,
                ),
            decreases day.courses.len() - k,
        {
            proof {
                assert(courses[k as int] == opt_course_view(day.courses@[k as int]));
                assert(courses.take(k + 1).drop_last() =~= courses.take(k as int));
                assert(courses.take(k + 1).last() == courses[k as int]);
            }
            match &day.courses[k] {
                Some(c) => {
                    if chosen_text(&c.name, selections, options) {
                        let entry = Some(c.clone());
                        proof {
                            let ghost prev = kept@;
                            assert(ocourses_view(prev.push(entry)) =~= ocourses_view(prev).push(
                                opt_course_view(entry),
                            ));
                        }
                        kept.push(entry);
                    }
                },
                None => {},
            }
            k = k + 1;
        }
        proof {
            assert(courses.take(courses.len() as int) =~= courses);
        }
        newdays.push(Day { name: day.name.clone(), courses: kept });
        d = d + 1;
    }
    tt.days = newdays;
    proof {
        assert(final(tt)@.days =~= final(tt).days@.map_values(|x: Day| x@));
        assert forall|d2: int| 0 <= d2 < days.len() implies (#[trigger] final(tt)@.days[d2]).name
            == days[d2].name && final(tt)@.days[d2].courses == choice_filter(
            days[d2].courses,
            selections@,
            options@,
        ) by {
            assert(final(tt)@.days[d2] == newdays@[d2]@);
        }
    }
}

/// The category set holding the tutorial and practical categories.
pub open spec fn tdtp_set() -> CatSet {
    CatSet { cours: false, td: true, tp: true }
}

/// Disambiguation retention: an entry survives exactly when it holds a
/// course that carries a protected category, or whose identity has a
/// single slot-option left, or whose label is among the chosen options.
pub open spec fn stage_keeps(
    e: Option<CourseView>,
    day: Seq<char>,
    grid: Seq<DayView>,
    hours: Seq<TimeSlot>,
    protect: CatSet,
    allowed: CatSet,
    merge: bool,
    selections: Seq<usize>,
    options: Seq<String>,
) -> bool {
    match e {
        Some(c) => {
            ||| cats_intersect(cat_set(c.category), protect)
            ||| count_in_days(grid, allowed, merge, key_of(c, merge)) == 1
            ||| text_chosen(label_of(c, day, hours), selections, options)
        },
        None => false,
    }
}

/// One day's entries after a disambiguation stage, in their original
/// order.
pub open spec fn stage_filter(
    s: Seq<Option<CourseView>>,
    day: Seq<char>,
    grid: Seq<DayView>,
    hours: Seq<TimeSlot>,
    protect: CatSet,
    allowed: CatSet,
    merge: bool,
    selections: Seq<usize>,
    options: Seq<String>,
) -> Seq<Option<CourseView>>
    decreases s.len(),
{
    if s.len() == 0 {
        Seq::empty()
    } else {
        stage_filter(
            s.drop_last(),
            day,
            grid,
            hours,
            protect,
            allowed,
            merge,
            selections,
            options,
        ) + if stage_keeps(
            s.last(),
            day,
            grid,
            hours,
            protect,
            allowed,
            merge,
            selections,
            options,
        ) {
            seq![s.last()]
        } else {
            Seq::empty()
        }
    }
}

/// The labels of one day's ambiguous slot-options: those whose categories
/// meet `allowed` and whose identity has more than one slot-option in the
/// grid.
pub open spec fn ambiguous_in_courses(
    s: Seq<Option<CourseView>>,
    day: Seq<char>,
    grid: Seq<DayView>,
    hours: Seq<TimeSlot>,
    allowed: CatSet,
    merge: bool,
) -> Seq<Seq<char>>
    decreases s.len(),
{
    if s.len() == 0 {
        Seq::empty()
    } else {
        ambiguous_in_courses(s.drop_last(), day, grid, hours, allowed, merge) + match s.last() {
            Some(c) => if cats_intersect(cat_set(c.category), allowed) && count_in_days(
                grid,
                allowed,
                merge,
                key_of(c, merge),
            ) > 1 {
                seq![label_of(c, day, hours)]
            } else {
                Seq::empty()
            },
            None => Seq::empty(),
        }
    }
}

/// The labels of every ambiguous slot-option of the grid, in grid order.
pub open spec fn ambiguous_labels(
    days: Seq<DayView>,
    grid: Seq<DayView>,
    hours: Seq<TimeSlot>,
    allowed: CatSet,
    merge: bool,
) -> Seq<Seq<char>>
    decreases days.len(),
{
    if days.len() == 0 {
        Seq::empty()
    } else {
        ambiguous_labels(days.drop_last(), grid, hours, allowed, merge) + ambiguous_in_courses(
            days.last().courses,
            days.last().name,
            grid,
            hours,
            allowed,
            merge,
        )
    }
}

/// A disambiguation stage's offer: one label per ambiguous slot-option,
/// sorted lexicographically, and the default choices, none selected.
fn ambiguous_options(tt: &Timetable, allowed: CatSet, merge: bool) -> (r: (Vec<String>, Vec<bool>))
    requires
        entries_total(tt@.days) <= usize::MAX,
        forall|d: int|
            0 <= d < tt@.days.len() ==> day_courses_wf(
                (#[trigger] tt@.days[d]).courses,
                tt@.hours.len() as int,
            ),
    ensures
        strs_view(r.0@) == ambiguous_labels(
            tt@.days,
            tt@.days,
            tt@.hours,
            allowed,
            merge,
        ).sort_by(lex_leq()),
        r.1@.len() == r.0@.len(),
        forall|i: int| 0 <= i < r.1@.len() ==> !r.1@[i],
{
    let ghost days = tt@.days;
    let ghost hv = tt@.hours;
    let mut labels: Vec<String> = Vec::new();
    proof {
        assert(strs_view(labels@) =~= Seq::<Seq<char>>::empty());
    }
    let mut d: usize = 0;
    while d < tt.days.len()
        invariant
            0 <= d <= tt.days.len(),
            days == tt@.days,
            hv == tt@.hours,
            days.len() == tt.days.len(),
            entries_total(days) <= usize::MAX,
            forall|j: int|
                0 <= j < days.len() ==> day_courses_wf(
                    (#[trigger] days[j]).courses,
                    hv.len() as int,
                ),
            strs_view(labels@) == ambiguous_labels(
                days.take(d as int),
                days,
                hv,
                allowed,
                merge,
            ),
        decreases tt.days.len() - d,
    {
        let ghost courses = days[d as int].courses;
        proof {
            assert(tt.days@[d as int]@ == days[d as int]);
        }
        let day = &tt.days[d];
        let mut k: usize = 0;
        while k < day.courses.len()
            invariant
                0 <= k <= day.courses.len(),
                days == tt@.days,
                hv == tt@.hours,
                0 <= d < days.len(),
                day@ == days[d as int],
                courses == days[d as int].courses,
                courses.len() == day.courses.len(),
                entries_total(days) <= usize::MAX,
                day_courses_wf(courses, hv.len() as int),
                strs_view(labels@) == ambiguous_labels(days.take(d as int), days, hv, allowed, merge)
                    + ambiguous_in_courses(
                    courses.take(k as int),
                    days[d as int].name,
                    days,
                    hv,
                    allowed,
                    merge,
                ),
            decreases day.courses.len() - k,
        {
            proof {
                assert(courses[k as int] == opt_course_view(day.courses@[k as int]));
                assert(courses.take(k + 1).drop_last() =~= courses.take(k as int));
                assert(courses.take(k + 1).last() == courses[k as int]);
            }
            match &day.courses[k] {
                Some(c) => {
                    if c.categories().intersects(&allowed) {
                        let id = if merge {
                            get_entry_nocat(c)
                        } else {
                            get_entry(c)
                        };
                        if count_of(tt, allowed, merge, &id) > 1 {
                            let label = get_selection(c, &day.name, &tt.hours);
                            proof {
                                let ghost prev = labels@;
                                assert(strs_view(prev.push(label)) =~= strs_view(prev).push(
                                    label@,
                                ));
                            }
                            labels.push(label);
                        }
                    }
                },
                None => {},
            }
            k = k + 1;
        }
        proof {
            assert(courses.take(courses.len() as int) =~= courses);
            assert(days.take(d + 1).drop_last() =~= days.take(d as int));
            assert(days.take(d + 1).last() == days[d as int]);
        }
        d = d + 1;
    }
    proof {
        assert(days.take(days.len() as int) =~= days);
    }
    let sorted = sort_strings(&labels);
    let mut defaults: Vec<bool> = Vec::new();
    let mut i: usize = 0;
    let n = sorted.len();
    while i < n
        invariant
            0 <= i <= n,
            defaults@.len() == i,
            forall|j: int| 0 <= j < i ==> !defaults@[j],
        decreases n - i,
    {
        defaults.push(false);
        i = i + 1;
    }
    (sorted, defaults)
}

/// The lecture disambiguation's offer: the labels of the lecture slot-options whose identity
/// is ambiguous, sorted, with nothing selected by default.
pub fn courses_options(tt: &Timetable) -> (r: (Vec<String>, Vec<bool>))
    requires
        entries_total(tt@.days) <= usize::MAX,
        forall|d: int|
            0 <= d < tt@.days.len() ==> day_courses_wf(
                (#[trigger] tt@.days[d]).courses,
                tt@.hours.len() as int,
            ),
    ensures
        strs_view(r.0@) == ambiguous_labels(
            tt@.days,
            tt@.days,
            tt@.hours,
            lecture_only(),
            false,
        ).sort_by(lex_leq()),
        r.1@.len() == r.0@.len(),
        forall|i: int| 0 <= i < r.1@.len() ==> !r.1@[i],
{
    let allowed = CatSet { cours: true, td: false, tp: false };
    ambiguous_options(tt, allowed, false)
}

/// The tutorial/practical disambiguation's offer: the labels of the tutorial/practical slot-options
/// whose identity is ambiguous, sorted, with nothing selected by default.
/// With `merge` set, a tutorial and a practical sharing a name count as
/// one identity.
pub fn tdtp_options(tt: &Timetable, merge: bool) -> (r: (Vec<String>, Vec<bool>))
    requires
        entries_total(tt@.days) <= usize::MAX,
        forall|d: int|
            0 <= d < tt@.days.len() ==> day_courses_wf(
                (#[trigger] tt@.days[d]).courses,
                tt@.hours.len() as int,
            ),
    ensures
        strs_view(r.0@) == ambiguous_labels(
            tt@.days,
            tt@.days,
            tt@.hours,
            tdtp_set(),
            merge,
        ).sort_by(lex_leq()),
        r.1@.len() == r.0@.len(),
        forall|i: int| 0 <= i < r.1@.len() ==> !r.1@[i],
{
    let allowed = CatSet { cours: false, td: true, tp: true };
    ambiguous_options(tt, allowed, merge)
}

/// Shared body of the two disambiguation stages.
fn disambiguate(
    tt: &mut Timetable,
    protect: CatSet,
    allowed: CatSet,
    merge: bool,
    selections: &Vec<usize>,
    options: &Vec<String>,
)
    requires
        forall|i: int|
            0 <= i < selections@.len() ==> (#[trigger] selections@[i]) < options@.len(),
        entries_total(old(tt)@.days) <= usize::MAX,
        forall|d: int|
            0 <= d < old(tt)@.days.len() ==> day_courses_wf(
                (#[trigger] old(tt)@.days[d]).courses,
                old(tt)@.hours.len() as int,
            ),
    ensures
        final(tt)@.hours == old(tt)@.hours,
        final(tt)@.semester == old(tt)@.semester,
        final(tt)@.days.len() == old(tt)@.days.len(),
        forall|d: int|
            0 <= d < old(tt)@.days.len() ==> (#[trigger] final(tt)@.days[d]).name == old(
                tt,
            )@.days[d].name && final(tt)@.days[d].courses == stage_filter(
                old(tt)@.days[d].courses,
                old(tt)@.days[d].name,
                old(tt)@.days,
                old(tt)@.hours,
                protect,
                allowed,
                merge,
                selections@,
                options@,
            ),
{
    let ghost days = old(tt)@.days;
    let ghost hv = old(tt)@.hours;
    let mut newdays: Vec<Day> = Vec::new();
    let mut d: usize = 0;
    while d < tt.days.len()
        invariant
            0 <= d <= tt.days.len(),
            days == tt@.days,
            hv == tt@.hours,
            days.len() == tt.days.len(),
            tt@ == old(tt)@,
            forall|i: int|
                0 <= i < selections@.len() ==> (#[trigger] selections@[i]) < options@.len(),
            entries_total(days) <= usize::MAX,
            forall|j: int|
                0 <= j < days.len() ==> day_courses_wf(
                    (#[trigger] days[j]).courses,
                    hv.len() as int,
                ),
            newdays@.len() == d,
            forall|j: int|
                0 <= j < d ==> (#[trigger] newdays@[j]@).name == days[j].name && newdays@[j]@.courses
                    == stage_filter(
                    days[j].courses,
                    days[j].name,
                    days,
                    hv,
                    protect,
                    allowed,
                    merge,
                    selections@,
                    options@,
                ),
        decreases tt.days.len() - d,
    {
        let ghost courses = days[d as int].courses;
        proof {
            assert(tt.days@[d as int]@ == days[d as int]);
        }
        let day = &tt.days[d];
        let mut kept: Vec<Option<Course>> = Vec::new();
        proof {
            assert(ocourses_view(kept@) =~= Seq::<Option<CourseView>>::empty());
        }
        let mut k: usize = 0;
        while k < day.courses.len()
            invariant
                0 <= k <= day.courses.len(),
                days == tt@.days,
                hv == tt@.hours,
                tt@ == old(tt)@,
                0 <= d < days.len(),
                day@ == days[d as int],
                courses == days[d as int].courses,
                courses.len() == day.courses.len(),
                forall|i: int|
                    0 <= i < selections@.len() ==> (#[trigger] selections@[i]) < options@.len(),
                entries_total(days) <= usize::MAX,
                day_courses_wf(courses, hv.len() as int),
                ocourses_view(kept@) == stage_filter(
                    courses.take(k as int),
                    days[d as int].name,
                    days,
                    hv,
                    protect,
                    allowed,
                    merge,
                    selections@,
                    options@,
                ),
            decreases day.courses.len() - k,
        {
            proof {
                assert(courses[k as int] == opt_course_view(day.courses@[k as int]));
                assert(courses.take(k + 1).drop_last() =~= courses.take(k as int));
                assert(courses.take(k + 1).last() == courses[k as int]);
            }
            match &day.courses[k] {
                Some(c) => {
                    let cc = c.categories();
                    let mut keep = cc.intersects(&protect);
                    if !keep {
                        let id = if merge {
                            get_entry_nocat(c)
                        } else {
                            get_entry(c)
                        };
                        keep = count_of(tt, allowed, merge, &id) == 1;
                    }
                    if !keep {
                        let label = get_selection(c, &day.name, &tt.hours);
                        keep = chosen_text(&label, selections, options);
                    }
                    if keep {
                        let entry = Some(c.clone());
                        proof {
                            let ghost prev = kept@;
                            assert(ocourses_view(prev.push(entry)) =~= ocourses_view(prev).push(
                                opt_course_view(entry),
                            ));
                        }
                        kept.push(entry);
                    }
                },
                None => {},
            }
            k = k + 1;
        }
        proof {
            assert(courses.take(courses.len() as int) =~= courses);
        }
        newdays.push(Day { name: day.name.clone(), courses: kept });
        d = d + 1;
    }
    tt.days = newdays;
    proof {
        assert(final(tt)@.days =~= final(tt).days@.map_values(|x: Day| x@));
        assert forall|d2: int| 0 <= d2 < days.len() implies (#[trigger] final(tt)@.days[d2]).name
            == days[d2].name && final(tt)@.days[d2].courses == stage_filter(
            days[d2].courses,
            days[d2].name,
            days,
            hv,
            protect,
            allowed,
            merge,
            selections@,
            options@,
        ) by {
            assert(final(tt)@.days[d2] == newdays@[d2]@);
        }
    }
}

proof fn lemma_choice_filter_concat(
    x: Seq<Option<CourseView>>,
    y: Seq<Option<CourseView>>,
    selections: Seq<usize>,
    options: Seq<String>,
)
    ensures
        choice_filter(x + y, selections, options) == choice_filter(x, selections, options)
            + choice_filter(y, selections, options),
    decreases y.len(),
{
    if y.len() == 0 {
        assert(x + y =~= x);
        assert(choice_filter(y, selections, options) =~= Seq::<Option<CourseView>>::empty());
        assert(choice_filter(x, selections, options) + choice_filter(y, selections, options)
            =~= choice_filter(x, selections, options));
    } else {
        lemma_choice_filter_concat(x, y.drop_last(), selections, options);
        assert((x + y).drop_last() =~= x + y.drop_last());
        assert((x + y).last() == y.last());
        let t = if choice_keeps(y.last(), selections, options) {
            seq![y.last()]
        } else {
            Seq::<Option<CourseView>>::empty()
        };
        assert(choice_filter(x + y, selections, options) == choice_filter(
            x + y.drop_last(),
            selections,
            options,
        ) + t);
        assert(choice_filter(x, selections, options) + choice_filter(
            y.drop_last(),
            selections,
            options,
        ) + t =~= choice_filter(x, selections, options) + (choice_filter(
            y.drop_last(),
            selections,
            options,
        ) + t));
    }
}

/// The subject selection is idempotent: filtering a day's entries a second time with the
/// same selections leaves them unchanged, since everything that survived
/// the first pass is chosen.
pub proof fn lemma_choice_idempotent(
    s: Seq<Option<CourseView>>,
    selections: Seq<usize>,
    options: Seq<String>,
)
    ensures
        choice_filter(choice_filter(s, selections, options), selections, options) == choice_filter(
            s,
            selections,
            options,
        ),
    decreases s.len(),
{
    if s.len() == 0 {
        assert(choice_filter(s, selections, options) =~= Seq::<Option<CourseView>>::empty());
    } else {
        lemma_choice_idempotent(s.drop_last(), selections, options);
        let d = choice_filter(s.drop_last(), selections, options);
        let t = if choice_keeps(s.last(), selections, options) {
            seq![s.last()]
        } else {
            Seq::<Option<CourseView>>::empty()
        };
        lemma_choice_filter_concat(d, t, selections, options);
        if choice_keeps(s.last(), selections, options) {
            assert(t.drop_last() =~= Seq::<Option<CourseView>>::empty());
            assert(choice_filter(t.drop_last(), selections, options) =~= Seq::<
                Option<CourseView>,
            >::empty());
            assert(choice_filter(t, selections, options) =~= t);
        } else {
            assert(choice_filter(t, selections, options) =~= t);
        }
    }
}

proof fn lemma_count_in_courses_concat(
    x: Seq<Option<CourseView>>,
    y: Seq<Option<CourseView>>,
    allowed: CatSet,
    merge: bool,
    key: (Seq<char>, Option<CatSet>),
)
    ensures
        count_in_courses(x + y, allowed, merge, key) == count_in_courses(x, allowed, merge, key)
            + count_in_courses(y, allowed, merge, key),
    decreases y.len(),
{
    if y.len() == 0 {
        assert(x + y =~= x);
    } else {
        lemma_count_in_courses_concat(x, y.drop_last(), allowed, merge, key);
        assert((x + y).drop_last() =~= x + y.drop_last());
        assert((x + y).last() == y.last());
    }
}

/// A disambiguation stage only removes entries: however the stage was
/// parametrised, the slot-option count of any identity, under any allowed
/// category set, never grows.
pub proof fn lemma_stage_never_increases_count(
    s: Seq<Option<CourseView>>,
    day: Seq<char>,
    grid: Seq<DayView>,
    hours: Seq<TimeSlot>,
    protect: CatSet,
    stage_allowed: CatSet,
    stage_merge: bool,
    selections: Seq<usize>,
    options: Seq<String>,
    allowed: CatSet,
    merge: bool,
    key: (Seq<char>, Option<CatSet>),
)
    ensures
        count_in_courses(
            stage_filter(
                s,
                day,
                grid,
                hours,
                protect,
                stage_allowed,
                stage_merge,
                selections,
                options,
            ),
            allowed,
            merge,
            key,
        ) <= count_in_courses(s, allowed, merge, key),
    decreases s.len(),
{
    if s.len() > 0 {
        lemma_stage_never_increases_count(
            s.drop_last(),
            day,
            grid,
            hours,
            protect,
            stage_allowed,
            stage_merge,
            selections,
            options,
            allowed,
            merge,
            key,
        );
        let d = stage_filter(
            s.drop_last(),
            day,
            grid,
            hours,
            protect,
            stage_allowed,
            stage_merge,
            selections,
            options,
        );
        let t = if stage_keeps(
            s.last(),
            day,
            grid,
            hours,
            protect,
            stage_allowed,
            stage_merge,
            selections,
            options,
        ) {
            seq![s.last()]
        } else {
            Seq::<Option<CourseView>>::empty()
        };
        lemma_count_in_courses_concat(d, t, allowed, merge, key);
        if t.len() > 0 {
            assert(t.drop_last() =~= Seq::<Option<CourseView>>::empty());
            assert(count_in_courses(t.drop_last(), allowed, merge, key) == 0);
            assert(count_in_courses(t, allowed, merge, key) == if counted(
                s.last(),
                allowed,
                merge,
                key,
            ) {
                1nat
            } else {
                0nat
            });
        }
    }
}

/// The grid-wide form: after a disambiguation stage rewrote every day, no
/// identity has more slot-options than before, whatever allowed set and
/// identity are counted.
pub proof fn lemma_stage_days_never_increase_count(
    days1: Seq<DayView>,
    days2: Seq<DayView>,
    grid: Seq<DayView>,
    hours: Seq<TimeSlot>,
    protect: CatSet,
    stage_allowed: CatSet,
    stage_merge: bool,
    selections: Seq<usize>,
    options: Seq<String>,
    allowed: CatSet,
    merge: bool,
    key: (Seq<char>, Option<CatSet>),
)
    requires
        days2.len() == days1.len(),
        forall|d: int|
            0 <= d < days1.len() ==> (#[trigger] days2[d]).courses == stage_filter(
                days1[d].courses,
                days1[d].name,
                grid,
                hours,
                protect,
                stage_allowed,
                stage_merge,
                selections,
                options,
            ),
    ensures
        count_in_days(days2, allowed, merge, key) <= count_in_days(days1, allowed, merge, key),
    decreases days1.len(),
{
    if days1.len() > 0 {
        assert(forall|d: int|
            0 <= d < days1.drop_last().len() ==> days1.drop_last()[d] == days1[d]
                && days2.drop_last()[d] == days2[d]);
        lemma_stage_days_never_increase_count(
            days1.drop_last(),
            days2.drop_last(),
            grid,
            hours,
            protect,
            stage_allowed,
            stage_merge,
            selections,
            options,
            allowed,
            merge,
            key,
        );
        assert(days2[days1.len() - 1].courses == stage_filter(
            days1[days1.len() - 1].courses,
            days1[days1.len() - 1].name,
            grid,
            hours,
            protect,
            stage_allowed,
            stage_merge,
            selections,
            options,
        ));
        lemma_stage_never_increases_count(
            days1[days1.len() - 1].courses,
            days1[days1.len() - 1].name,
            grid,
            hours,
            protect,
            stage_allowed,
            stage_merge,
            selections,
            options,
            allowed,
            merge,
            key,
        );
    }
}

/// Lecture disambiguation: keeps a slot exactly when it also
/// carries a tutorial or practical category, or its lecture identity has a
/// single slot-option, or its label is among the chosen options.
pub fn courses(tt: &mut Timetable, selections: &Vec<usize>, options: &Vec<String>)
    requires
        forall|i: int|
            0 <= i < selections@.len() ==> (#[trigger] selections@[i]) < options@.len(),
        entries_total(old(tt)@.days) <= usize::MAX,
        forall|d: int|
            0 <= d < old(tt)@.days.len() ==> day_courses_wf(
                (#[trigger] old(tt)@.days[d]).courses,
                old(tt)@.hours.len() as int,
            ),
    ensures
        final(tt)@.hours == old(tt)@.hours,
        final(tt)@.semester == old(tt)@.semester,
        final(tt)@.days.len() == old(tt)@.days.len(),
        forall|d: int|
            0 <= d < old(tt)@.days.len() ==> (#[trigger] final(tt)@.days[d]).name == old(
                tt,
            )@.days[d].name && final(tt)@.days[d].courses == stage_filter(
                old(tt)@.days[d].courses,
                old(tt)@.days[d].name,
                old(tt)@.days,
                old(tt)@.hours,
                tdtp_set(),
                lecture_only(),
                false,
                selections@,
                options@,
            ),
{
    let protect = CatSet { cours: false, td: true, tp: true };
    let allowed = CatSet { cours: true, td: false, tp: false };
    disambiguate(tt, protect, allowed, false, selections, options);
}

/// Tutorial/practical disambiguation: keeps a slot exactly when
/// it also carries the lecture category, or its identity (merged or not)
/// has a single slot-option, or its label is among the chosen options.
pub fn tdtp(tt: &mut Timetable, merge: bool, selections: &Vec<usize>, options: &Vec<String>)
    requires
        forall|i: int|
            0 <= i < selections@.len() ==> (#[trigger] selections@[i]) < options@.len(),
        entries_total(old(tt)@.days) <= usize::MAX,
        forall|d: int|
            0 <= d < old(tt)@.days.len() ==> day_courses_wf(
                (#[trigger] old(tt)@.days[d]).courses,
                old(tt)@.hours.len() as int,
            ),
    ensures
        final(tt)@.hours == old(tt)@.hours,
        final(tt)@.semester == old(tt)@.semester,
        final(tt)@.days.len() == old(tt)@.days.len(),
        forall|d: int|
            0 <= d < old(tt)@.days.len() ==> (#[trigger] final(tt)@.days[d]).name == old(
                tt,
            )@.days[d].name && final(tt)@.days[d].courses == stage_filter(
                old(tt)@.days[d].courses,
                old(tt)@.days[d].name,
                old(tt)@.days,
                old(tt)@.hours,
                lecture_only(),
                tdtp_set(),
                merge,
                selections@,
                options@,
            ),
{
    let protect = CatSet { cours: true, td: false, tp: false };
    let allowed = CatSet { cours: false, td: true, tp: true };
    disambiguate(tt, protect, allowed, merge, selections, options);
}

} // verus!
