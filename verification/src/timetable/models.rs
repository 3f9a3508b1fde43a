use vstd::prelude::*;

verus! {

/// The three kinds of teaching slot a course can carry.  A slot may carry
/// several of them at once: a `Cours`+`TD` slot is a combined block that
/// alternates between the lecture and its tutorial.
#[derive(Clone, Copy, Debug, PartialEq, Eq, Structural, Hash)]
pub enum Category {
    Cours,
    TP,
    TD,
}

/// Which categories are present on a slot (or allowed by a filter), as a
/// canonical set over the closed three-value enumeration.
#[derive(Clone, Copy, Debug, PartialEq, Eq, Structural, Hash)]
pub struct CatSet {
    pub cours: bool,
    pub td: bool,
    pub tp: bool,
}

/// One interval of the day's slot table, in minutes from midnight.
#[derive(Clone, Copy, Debug, PartialEq, Eq, Structural)]
pub struct TimeSlot {
    pub start: u16,
    pub end: u16,
}

/// A course as it sits in the weekly grid.  `start` is a 0-based index into
/// the slot table and `size` the number of contiguous slots occupied.
/// `dtstart`/`dtend` are absolute instants in minutes from the civil epoch
/// day (1970-01-01 00:00); they are filled only by the recurrence expander.
#[derive(Debug)]
pub struct Course {
    pub category: Vec<Category>,
    pub name: String,
    pub professor: Option<String>,
    pub room: String,
    pub start: usize,
    pub size: usize,
    pub dtstart: Option<u64>,
    pub dtend: Option<u64>,
    pub data: Option<String>,
}

/// Mathematical image of a `Course`.
#[verifier::ext_equal]
pub struct CourseView {
    pub category: Seq<Category>,
    pub name: Seq<char>,
    pub professor: Option<Seq<char>>,
    pub room: Seq<char>,
    pub start: int,
    pub size: int,
    pub dtstart: Option<int>,
    pub dtend: Option<int>,
    pub data: Option<Seq<char>>,
}

pub open spec fn opt_str_view(o: Option<String>) -> Option<Seq<char>> {
    match o {
        Some(s) => Some(s@),
        None => None,
    }
}

pub open spec fn opt_u64_view(o: Option<u64>) -> Option<int> {
    match o {
        Some(n) => Some(n as int),
        None => None,
    }
}

impl View for Course {
    type V = CourseView;

    open spec fn view(&self) -> CourseView {
        CourseView {
            category: self.category@,
            name: self.name@,
            professor: opt_str_view(self.professor),
            room: self.room@,
            start: self.start as int,
            size: self.size as int,
            dtstart: opt_u64_view(self.dtstart),
            dtend: opt_u64_view(self.dtend),
            data: opt_str_view(self.data),
        }
    }
}

/// A weekday of the grid: its display name and, aligned with the slot table,
/// an ordered list of entries, each either a course (occupying `size`
/// consecutive positions) or an empty slot.
#[derive(Debug)]
pub struct Day {
    pub name: String,
    pub courses: Vec<Option<Course>>,
}

#[verifier::ext_equal]
pub struct DayView {
    pub name: Seq<char>,
    pub courses: Seq<Option<CourseView>>,
}

pub open spec fn opt_course_view(e: Option<Course>) -> Option<CourseView> {
    match e {
        Some(c) => Some(c@),
        None => None,
    }
}

pub open spec fn ocourses_view(s: Seq<Option<Course>>) -> Seq<Option<CourseView>> {
    s.map_values(|e: Option<Course>| opt_course_view(e))
}

impl View for Day {
    type V = DayView;

    open spec fn view(&self) -> DayView {
        DayView { name: self.name@, courses: ocourses_view(self.courses@) }
    }
}

/// The whole weekly grid: the ordered slot table, the semester this grid is
/// for, and the five days Monday..Friday in order.
pub struct Timetable {
    pub hours: Vec<TimeSlot>,
    pub semester: usize,
    pub days: Vec<Day>,
}

#[verifier::ext_equal]
pub struct TimetableView {
    pub hours: Seq<TimeSlot>,
    pub semester: int,
    pub days: Seq<DayView>,
}

impl View for Timetable {
    type V = TimetableView;

    open spec fn view(&self) -> TimetableView {
        TimetableView {
            hours: self.hours@,
            semester: self.semester as int,
            days: self.days@.map_values(|d: Day| d@),
        }
    }
}

/// The fatal failures of the engine: a grid that no longer tiles its slot
/// table, and a semester with no period descriptor.
#[derive(Clone, Copy, Debug, PartialEq, Eq, Structural)]
pub enum ScheduleError {
    DataShape,
    MissingPeriod,
}

/// The set of categories carried by a category list.
pub open spec fn cat_set(s: Seq<Category>) -> CatSet {
    CatSet {
        cours: s.contains(Category::Cours),
        td: s.contains(Category::TD),
        tp: s.contains(Category::TP),
    }
}

/// Set intersection on category sets, as a non-emptiness test.
pub open spec fn cats_intersect(a: CatSet, b: CatSet) -> bool {
    (a.cours && b.cours) || (a.td && b.td) || (a.tp && b.tp)
}

/// The display name of a category.
pub open spec fn cat_name(c: Category) -> Seq<char> {
    match c {
        Category::Cours => "Cours"@,
        Category::TP => "TP"@,
        Category::TD => "TD"@,
    }
}

impl Category {
    /// Writes the category's display name.
    pub fn label(&self) -> (r: String)
        ensures
            r@ == cat_name(*self),
    {
        match self {
            Category::Cours => "Cours".to_owned(),
            Category::TP => "TP".to_owned(),
            Category::TD => "TD".to_owned(),
        }
    }
}

impl CatSet {
    /// Whether the two sets share a category.
    pub fn intersects(&self, other: &CatSet) -> (r: bool)
        ensures
            r == cats_intersect(*self, *other),
    {
        (self.cours && other.cours) || (self.td && other.td) || (self.tp && other.tp)
    }
}

impl Course {
    /// The categories present on this course, as a canonical set.
    pub fn categories(&self) -> (r: CatSet)
        ensures
            r == cat_set(self@.category),
    {
        let mut r = CatSet { cours: false, td: false, tp: false };
        let mut i: usize = 0;
        while i < self.category.len()
            invariant
                0 <= i <= self.category.len(),
                r.cours == self.category@.take(i as int).contains(Category::Cours),
                r.td == self.category@.take(i as int).contains(Category::TD),
                r.tp == self.category@.take(i as int).contains(Category::TP),
            decreases self.category.len() - i,
        {
            let c = self.category[i];
            proof {
                assert(self.category@.take(i + 1).drop_last() =~= self.category@.take(i as int));
                assert(self.category@.take(i + 1).last() == self.category@[i as int]);
            }
            match c {
                Category::Cours => {
                    r = CatSet { cours: true, ..r };
                },
                Category::TD => {
                    r = CatSet { td: true, ..r };
                },
                Category::TP => {
                    r = CatSet { tp: true, ..r };
                },
            }
            proof {
                lemma_take_contains_step(self.category@, i as int, Category::Cours);
                lemma_take_contains_step(self.category@, i as int, Category::TD);
                lemma_take_contains_step(self.category@, i as int, Category::TP);
            }
            i = i + 1;
        }
        proof {
            assert(self.category@.take(self.category@.len() as int) =~= self.category@);
        }
        r
    }
}

impl Clone for Course {
    /// A clone is indistinguishable from the original in every contract.
    fn clone(&self) -> (r: Self)
        ensures
            r@ == self@,
    {
        let r = Course {
            category: self.category.clone(),
            name: self.name.clone(),
            professor: self.professor.clone(),
            room: self.room.clone(),
            start: self.start,
            size: self.size,
            dtstart: self.dtstart,
            dtend: self.dtend,
            data: self.data.clone(),
        };
        proof {
            assert(r.category@ =~= self.category@);
            assert(r@ =~= self@);
        }
        r
    }
}

impl Clone for Day {
    fn clone(&self) -> (r: Self)
        ensures
            r@ == self@,
    {
        let r = Day { name: self.name.clone(), courses: self.courses.clone() };
        proof {
            assert forall|i: int| 0 <= i < self.courses@.len() implies #[trigger] opt_course_view(
                r.courses@[i],
            ) == opt_course_view(self.courses@[i]) by {
                assert(cloned::<Option<Course>>(self.courses@[i], r.courses@[i]));
            }
            assert(ocourses_view(r.courses@) =~= ocourses_view(self.courses@));
            assert(r@ =~= self@);
        }
        r
    }
}

/// The slot table is ordered: every interval runs forward and the table
/// never goes back in time from one slot to the next.
pub open spec fn slots_wf(hours: Seq<TimeSlot>) -> bool {
    &&& forall|i: int| 0 <= i < hours.len() ==> (#[trigger] hours[i]).start < hours[i].end
    &&& forall|i: int|
        0 <= i && i + 1 < hours.len() ==> (#[trigger] hours[i]).end <= hours[i + 1].start
}

/// A course fits inside a slot table of `n` entries.
pub open spec fn course_in_range(c: CourseView, n: int) -> bool {
    1 <= c.size && 0 <= c.start && c.start + c.size <= n
}

pub open spec fn day_courses_wf(courses: Seq<Option<CourseView>>, n: int) -> bool {
    forall|k: int|
        0 <= k < courses.len() ==> match #[trigger] courses[k] {
            Some(c) => course_in_range(c, n),
            None => true,
        }
}

/// Total number of grid entries over all days.
pub open spec fn entries_total(days: Seq<DayView>) -> int
    decreases days.len(),
{
    if days.len() == 0 {
        0
    } else {
        entries_total(days.drop_last()) + days.last().courses.len()
    }
}

/// What every consumer of a grid may assume once the grid has been built and
/// validated: five days, an ordered slot table, every course inside the
/// table, and a total entry count a machine can address.
pub open spec fn tt_wf(t: TimetableView) -> bool {
    &&& t.days.len() == 5
    &&& slots_wf(t.hours)
    &&& forall|d: int|
        0 <= d < t.days.len() ==> day_courses_wf(
            (#[trigger] t.days[d]).courses,
            t.hours.len() as int,
        )
    &&& entries_total(t.days) <= usize::MAX
}

proof fn lemma_take_contains_step(s: Seq<Category>, i: int, x: Category)
    requires
        0 <= i < s.len(),
    ensures
        s.take(i + 1).contains(x) <==> (s.take(i).contains(x) || s[i] == x),
{
    assert(s.take(i + 1).drop_last() =~= s.take(i));
    if s.take(i + 1).contains(x) {
        let k = choose|k: int| 0 <= k < s.take(i + 1).len() && #[trigger] s.take(i + 1)[k] == x;
        if k < i {
            assert(s.take(i)[k] == x);
        }
    }
    if s.take(i).contains(x) {
        let k = choose|k: int| 0 <= k < s.take(i).len() && #[trigger] s.take(i)[k] == x;
        assert(s.take(i + 1)[k] == x);
    }
    if s[i] == x {
        assert(s.take(i + 1)[i] == x);
    }
}

} // verus!
