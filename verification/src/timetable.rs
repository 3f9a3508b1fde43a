pub mod models;

use vstd::prelude::*;

use crate::timetable::models::{
    cat_set, cats_intersect, course_in_range, day_courses_wf, opt_course_view, slots_wf, tt_wf,
    CatSet, Course, CourseView, Day, DayView, ScheduleError, TimeSlot, Timetable,
};
use crate::utils::models::{Info, InfoList, InfoType};

verus! {

/// How many slot-table positions one grid entry occupies: a course covers
/// `size` of them, an empty entry exactly one.
pub open spec fn entry_width(e: Option<CourseView>) -> int {
    match e {
        Some(c) => c.size,
        None => 1,
    }
}

/// The slot-table position at which entry `k` of the day begins, obtained by
/// walking the entries before it.
pub open spec fn scan_pos(courses: Seq<Option<CourseView>>, k: int) -> int
    decreases k,
{
    if k <= 0 {
        0
    } else {
        scan_pos(courses, k - 1) + entry_width(courses[k - 1])
    }
}

/// The Consistency Validator's contract: the day's entries tile a slot table
/// of `n` positions exactly.  Every course begins where the walk stands, has
/// at least one slot, and the walk ends on `n` with no position skipped or
/// revisited.
pub open spec fn day_valid(courses: Seq<Option<CourseView>>, n: int) -> bool {
    &&& forall|k: int|
        0 <= k < courses.len() ==> match #[trigger] courses[k] {
            Some(c) => c.size >= 1 && c.start == scan_pos(courses, k),
            None => true,
        }
    &&& scan_pos(courses, courses.len() as int) == n
}

proof fn lemma_scan_pos_monotone(courses: Seq<Option<CourseView>>, i: int, j: int)
    requires
        0 <= i <= j,
        forall|k: int|
            0 <= k < courses.len() ==> match #[trigger] courses[k] {
                Some(c) => c.size >= 1,
                None => true,
            },
        j <= courses.len(),
    ensures
        scan_pos(courses, i) <= scan_pos(courses, j),
    decreases j - i,
{
    if i < j {
        lemma_scan_pos_monotone(courses, i, j - 1);
    }
}

/// A day that passes the validator only holds courses that fit inside the
/// slot table: the expander can index the table blindly.
pub proof fn lemma_day_valid_in_range(courses: Seq<Option<CourseView>>, n: int)
    requires
        day_valid(courses, n),
    ensures
        day_courses_wf(courses, n),
{
    assert forall|k: int|
        0 <= k < courses.len() implies match #[trigger] courses[k] {
        Some(c) => course_in_range(c, n),
        None => true,
    } by {
        match courses[k] {
            Some(c) => {
                lemma_scan_pos_monotone(courses, 0, k);
                assert(scan_pos(courses, k + 1) == c.start + c.size);
                lemma_scan_pos_monotone(courses, k + 1, courses.len() as int);
            },
            None => {},
        }
    }
}

/// A day with an empty slot table is valid exactly when it has no entries.
pub proof fn lemma_day_valid_empty_table(courses: Seq<Option<CourseView>>)
    ensures
        day_valid(courses, 0) <==> courses.len() == 0,
{
    if courses.len() > 0 && day_valid(courses, 0) {
        lemma_scan_pos_monotone(courses, 1, courses.len() as int);
        assert(scan_pos(courses, 0) == 0);
        match courses[0] {
            Some(c) => assert(c.size >= 1),
            None => {},
        }
        assert(scan_pos(courses, 1) >= 1);
    }
}

/// A day covered entirely by one course of size `n` starting at position 0
/// is valid.
pub proof fn lemma_day_valid_full_course(c: CourseView, n: int)
    requires
        n >= 1,
        c.start == 0,
        c.size == n,
    ensures
        day_valid(seq![Some(c)], n),
{
    let courses: Seq<Option<CourseView>> = seq![Some(c)];
    assert(scan_pos(courses, 0) == 0);
    assert(scan_pos(courses, 1) == entry_width(courses[0]));
}

/// The Consistency Validator for one day: walks the entries and checks that
/// they tile a slot table of `n` positions exactly.
pub fn check_day(day: &Day, n: usize) -> (b: bool)
    ensures
        b == day_valid(day@.courses, n as int),
{
    let ghost cs = day@.courses;
    let mut expected: usize = 0;
    let mut k: usize = 0;
    while k < day.courses.len()
        invariant
            0 <= k <= day.courses.len(),
            cs == day@.courses,
            cs.len() == day.courses.len(),
            expected == scan_pos(cs, k as int),
            expected <= n,
            forall|j: int|
                0 <= j < k ==> match #[trigger] cs[j] {
                    Some(c) => c.size >= 1 && c.start == scan_pos(cs, j),
                    None => true,
                },
        decreases day.courses.len() - k,
    {
        proof {
            assert(cs[k as int] == opt_course_view(day.courses@[k as int]));
        }
        match &day.courses[k] {
            Some(c) => {
                if c.size < 1 || c.start != expected || c.size > n - expected {
                    proof {
                        if !(c@.size >= 1 && c@.start == scan_pos(cs, k as int)) {
                            // the walk found the violation at entry k
                            assert(!day_valid(cs, n as int));
                        } else {
                            // the course overruns the table: the walk can
                            // only end beyond n
                            assert(scan_pos(cs, k + 1) > n);
                            lemma_scan_pos_monotone_partial(cs, k + 1, n as int);
                        }
                    }
                    return false;
                }
                expected = expected + c.size;
            },
            None => {
                if expected >= n {
                    proof {
                        assert(scan_pos(cs, k + 1) > n);
                        lemma_scan_pos_monotone_partial(cs, k + 1, n as int);
                    }
                    return false;
                }
                expected = expected + 1;
            },
        }
        k = k + 1;
    }
    expected == n
}

/// If the walk stands past `n` after `k` entries and every earlier course
/// start matched, the day cannot be valid: a later violation or a final
/// position beyond `n` is forced.
proof fn lemma_scan_pos_monotone_partial(courses: Seq<Option<CourseView>>, k: int, n: int)
    requires
        0 <= k <= courses.len(),
        scan_pos(courses, k) > n,
    ensures
        !day_valid(courses, n),
{
    if day_valid(courses, n) {
        lemma_scan_pos_monotone(courses, k, courses.len() as int);
    }
}

/// Highest Monday day number a period descriptor may carry (around the
/// year 11963): keeps every instant of the expansion inside a `u64`.
pub const MAX_DAY: u64 = 3_650_000;

/// Highest week count a period stretch may carry.
pub const MAX_WEEKS: u64 = 10_000;

/// One stretch `(start, weeks)` of a period descriptor is sound: the start
/// is a Monday day number (day 0, 1970-01-01, is a Thursday) and both
/// numbers are small enough for the date arithmetic.
pub open spec fn stretch_wf(s: (u64, u64)) -> bool {
    &&& s.0 <= MAX_DAY
    &&& s.1 <= MAX_WEEKS
    &&& s.0 % 7 == 4
}

/// A period descriptor list is sound: exactly two stretches (before and
/// after the mid-term break), each sound.
pub open spec fn info_wf(stretches: Seq<(u64, u64)>) -> bool {
    &&& stretches.len() == 2
    &&& forall|i: int| 0 <= i < stretches.len() ==> stretch_wf(#[trigger] stretches[i])
}

/// Whether a pass of the expander emits this course: its categories must
/// meet `keep` (when set) and avoid `exclude` (when set).
pub open spec fn pass_keeps(c: CourseView, keep: Option<CatSet>, exclude: Option<CatSet>) -> bool {
    &&& match keep {
        Some(k) => cats_intersect(cat_set(c.category), k),
        None => true,
    }
    &&& match exclude {
        Some(x) => !cats_intersect(cat_set(c.category), x),
        None => true,
    }
}

/// The dated occurrence of `c` on day number `date`: the course stamped
/// with the absolute start of its first slot and the absolute end of its
/// last one, in minutes from the epoch.
pub open spec fn occ_course(c: CourseView, hours: Seq<TimeSlot>, date: int) -> CourseView {
    CourseView {
        dtstart: Some(date * 1440 + hours[c.start].start),
        dtend: Some(date * 1440 + hours[c.start + c.size - 1].end),
        ..c
    }
}

/// The occurrences one day contributes on day number `date`, in grid order.
pub open spec fn day_occs(
    courses: Seq<Option<CourseView>>,
    hours: Seq<TimeSlot>,
    date: int,
    keep: Option<CatSet>,
    exclude: Option<CatSet>,
) -> Seq<CourseView>
    decreases courses.len(),
{
    if courses.len() == 0 {
        Seq::empty()
    } else {
        day_occs(courses.drop_last(), hours, date, keep, exclude) + match courses.last() {
            Some(c) => if pass_keeps(c, keep, exclude) {
                seq![occ_course(c, hours, date)]
            } else {
                Seq::empty()
            },
            None => Seq::empty(),
        }
    }
}

/// The occurrences of one calendar week starting on day number `monday`:
/// the days of the grid in order, each one day later than the last.
pub open spec fn week_occs(
    days: Seq<DayView>,
    hours: Seq<TimeSlot>,
    monday: int,
    keep: Option<CatSet>,
    exclude: Option<CatSet>,
) -> Seq<CourseView>
    decreases days.len(),
{
    if days.len() == 0 {
        Seq::empty()
    } else {
        week_occs(days.drop_last(), hours, monday, keep, exclude) + day_occs(
            days.last().courses,
            hours,
            monday + days.len() - 1,
            keep,
            exclude,
        )
    }
}

/// The occurrences of one stretch: `weeks` consecutive calendar weeks
/// beginning on day number `start`.
pub open spec fn stretch_occs(
    days: Seq<DayView>,
    hours: Seq<TimeSlot>,
    start: int,
    weeks: int,
    keep: Option<CatSet>,
    exclude: Option<CatSet>,
) -> Seq<CourseView>
    decreases weeks,
{
    if weeks <= 0 {
        Seq::empty()
    } else {
        stretch_occs(days, hours, start, weeks - 1, keep, exclude) + week_occs(
            days,
            hours,
            start + 7 * (weeks - 1),
            keep,
            exclude,
        )
    }
}

/// The occurrences of one expander pass: its stretches, in order.
pub open spec fn passes_occs(
    days: Seq<DayView>,
    hours: Seq<TimeSlot>,
    stretches: Seq<(u64, u64)>,
    keep: Option<CatSet>,
    exclude: Option<CatSet>,
) -> Seq<CourseView>
    decreases stretches.len(),
{
    if stretches.len() == 0 {
        Seq::empty()
    } else {
        passes_occs(days, hours, stretches.drop_last(), keep, exclude) + stretch_occs(
            days,
            hours,
            stretches.last().0 as int,
            stretches.last().1 as int,
            keep,
            exclude,
        )
    }
}

pub open spec fn courses_seq_view(s: Seq<Course>) -> Seq<CourseView> {
    s.map_values(|c: Course| c@)
}

pub open spec fn days_seq_view(s: Seq<Day>) -> Seq<DayView> {
    s.map_values(|d: Day| d@)
}

/// Replicates the grid across the weeks of one pass, appending to
/// `semester` one dated occurrence per eligible course per day per week.
#[verifier::rlimit(100)]
pub fn add_courses(
    semester: &mut Vec<Course>,
    hours: &Vec<TimeSlot>,
    days: &Vec<Day>,
    info: &InfoList,
    keep: Option<CatSet>,
    exclude: Option<CatSet>,
)
    requires
        forall|i: int| 0 <= i < info@.len() ==> stretch_wf(#[trigger] info@[i]),
        slots_wf(hours@),
        days@.len() == 5,
        forall|d: int|
            0 <= d < days@.len() ==> day_courses_wf(
                (#[trigger] days_seq_view(days@)[d]).courses,
                hours@.len() as int,
            ),
    ensures
        courses_seq_view(final(semester)@) == courses_seq_view(old(semester)@) + passes_occs(
            days_seq_view(days@),
            hours@,
            info@,
            keep,
            exclude,
        ),
{
    let ghost dv = days_seq_view(days@);
    let ghost hv = hours@;
    let ghost base = courses_seq_view(old(semester)@);
    let n_slots = hours.len();
    proof {
        assert(hv.len() == n_slots);
    }
    let mut s_i: usize = 0;
    while s_i < info.len()
        invariant
            0 <= s_i <= info@.len(),
            forall|i: int| 0 <= i < info@.len() ==> stretch_wf(#[trigger] info@[i]),
            slots_wf(hv),
            hv == hours@,
            hv.len() <= usize::MAX,
            dv == days_seq_view(days@),
            dv.len() == days@.len(),
            dv.len() == 5,
            forall|d: int|
                0 <= d < dv.len() ==> day_courses_wf((#[trigger] dv[d]).courses, hv.len() as int),
            courses_seq_view(semester@) == base + passes_occs(
                dv,
                hv,
                info@.take(s_i as int),
                keep,
                exclude,
            ),
        decreases info@.len() - s_i,
    {
        let (start, weeks) = info[s_i];
        let mut date: u64 = start;
        let mut w: u64 = 0;
        while w < weeks
            invariant
                0 <= w <= weeks,
                start <= MAX_DAY,
                weeks <= MAX_WEEKS,
                date == start + 7 * w,
                slots_wf(hv),
                hv == hours@,
                hv.len() <= usize::MAX,
                dv == days_seq_view(days@),
                dv.len() == days@.len(),
                dv.len() == 5,
                forall|d: int|
                    0 <= d < dv.len() ==> day_courses_wf(
                        (#[trigger] dv[d]).courses,
                        hv.len() as int,
                    ),
                courses_seq_view(semester@) == base + passes_occs(
                    dv,
                    hv,
                    info@.take(s_i as int),
                    keep,
                    exclude,
                ) + stretch_occs(dv, hv, start as int, w as int, keep, exclude),
            decreases weeks - w,
        {
            let ghost monday = date as int;
            let mut d: usize = 0;
            while d < days.len()
                invariant
                    0 <= d <= days@.len(),
                    date == monday + d,
                    monday == start + 7 * w,
                    start <= MAX_DAY,
                    w < weeks <= MAX_WEEKS,
                    slots_wf(hv),
                    hv == hours@,
                    hv.len() <= usize::MAX,
                    dv == days_seq_view(days@),
                    dv.len() == days@.len(),
                    dv.len() == 5,
                    forall|dd: int|
                        0 <= dd < dv.len() ==> day_courses_wf(
                            (#[trigger] dv[dd]).courses,
                            hv.len() as int,
                        ),
                    courses_seq_view(semester@) == base + passes_occs(
                        dv,
                        hv,
                        info@.take(s_i as int),
                        keep,
                        exclude,
                    ) + stretch_occs(dv, hv, start as int, w as int, keep, exclude) + week_occs(
                        dv.take(d as int),
                        hv,
                        monday,
                        keep,
                        exclude,
                    ),
                decreases days@.len() - d,
            {
                let ghost courses = dv[d as int].courses;
                proof {
                    assert(days@[d as int]@ == dv[d as int]);
                }
                let day = &days[d];
                let mut k: usize = 0;
                while k < day.courses.len()
                    invariant
                        0 <= k <= day.courses.len(),
                        0 <= d < dv.len(),
                        dv.len() == 5,
                        date == monday + d,
                        monday == start + 7 * w,
                        start <= MAX_DAY,
                        w < weeks <= MAX_WEEKS,
                        slots_wf(hv),
                        hv == hours@,
                        hv.len() <= usize::MAX,
                        dv == days_seq_view(days@),
                        day@ == dv[d as int],
                        courses == dv[d as int].courses,
                        courses.len() == day.courses.len(),
                        day_courses_wf(courses, hv.len() as int),
                        courses_seq_view(semester@) == base + passes_occs(
                            dv,
                            hv,
                            info@.take(s_i as int),
                            keep,
                            exclude,
                        ) + stretch_occs(dv, hv, start as int, w as int, keep, exclude)
                            + week_occs(dv.take(d as int), hv, monday, keep, exclude) + day_occs(
                            courses.take(k as int),
                            hv,
                            date as int,
                            keep,
                            exclude,
                        ),
                    decreases day.courses.len() - k,
                {
                    proof {
                        assert(courses[k as int] == opt_course_view(day.courses@[k as int]));
                        assert(courses.take(k + 1).drop_last() =~= courses.take(k as int));
                        assert(courses.take(k + 1).last() == courses[k as int]);
                    }
                    match &day.courses[k] {
                        Some(c) => {
                            let cc = c.categories();
                            let pass = (match &keep {
                                Some(kk) => cc.intersects(kk),
                                None => true,
                            }) && (match &exclude {
                                Some(xx) => !cc.intersects(xx),
                                None => true,
                            });
                            if pass {
                                proof {
                                    assert(course_in_range(c@, hv.len() as int));
                                }
                                let sslot = hours[c.start];
                                let eslot = hours[c.start + c.size - 1];
                                let ds: u64 = date * 1440 + sslot.start as u64;
                                let de: u64 = date * 1440 + eslot.end as u64;
                                let mut nc = c.clone();
                                nc.dtstart = Some(ds);
                                nc.dtend = Some(de);
                                proof {
                                    assert(nc@ =~= occ_course(c@, hv, date as int));
                                    let ghost prev = semester@;
                                    assert(courses_seq_view(prev.push(nc)) =~= courses_seq_view(
                                        prev,
                                    ).push(nc@));
                                }
                                semester.push(nc);
                            }
                        },
                        None => {},
                    }
                    k = k + 1;
                }
                proof {
                    assert(courses.take(courses.len() as int) =~= courses);
                    assert(dv.take(d + 1).drop_last() =~= dv.take(d as int));
                    assert(dv.take(d + 1).last() == dv[d as int]);
                }
                date = date + 1;
                d = d + 1;
            }
            proof {
                assert(dv.take(dv.len() as int) =~= dv);
            }
            date = date + 2;
            w = w + 1;
        }
        proof {
            assert(info@.take(s_i + 1).drop_last() =~= info@.take(s_i as int));
            assert(info@.take(s_i + 1).last() == info@[s_i as int]);
        }
        s_i = s_i + 1;
    }
    proof {
        assert(info@.take(info@.len() as int) =~= info@);
    }
}

/// Runs the Consistency Validator over every day of the grid.  `Ok` exactly
/// when each day tiles the slot table; any mismatch is the fatal
/// `DataShape` failure.
pub fn check_timetable(tt: &Timetable) -> (r: Result<(), ScheduleError>)
    ensures
        r is Ok <==> forall|d: int|
            0 <= d < tt@.days.len() ==> day_valid(
                (#[trigger] tt@.days[d]).courses,
                tt@.hours.len() as int,
            ),
        r is Err ==> r->Err_0 == ScheduleError::DataShape,
{
    let n = tt.hours.len();
    let mut d: usize = 0;
    while d < tt.days.len()
        invariant
            0 <= d <= tt.days.len(),
            n == tt@.hours.len(),
            forall|j: int|
                0 <= j < d ==> day_valid((#[trigger] tt@.days[j]).courses, n as int),
        decreases tt.days.len() - d,
    {
        proof {
            assert(tt@.days[d as int] == tt.days@[d as int]@);
        }
        if !check_day(&tt.days[d], n) {
            return Err(ScheduleError::DataShape);
        }
        d = d + 1;
    }
    Ok(())
}

/// The category set holding the lecture category alone: pass 1 of the
/// expander keeps what meets it, pass 2 keeps what avoids it.
pub open spec fn lecture_only() -> CatSet {
    CatSet { cours: true, td: false, tp: false }
}

/// The first period descriptor recorded for semester `sem`.
pub open spec fn find_period(ds: Seq<(usize, InfoType)>, sem: int) -> Option<InfoType>
    decreases ds.len(),
{
    if ds.len() == 0 {
        None
    } else if ds.first().0 == sem {
        Some(ds.first().1)
    } else {
        find_period(ds.drop_first(), sem)
    }
}

proof fn lemma_find_period_prefix(ds: Seq<(usize, InfoType)>, sem: int, i: int)
    requires
        0 <= i <= ds.len(),
        forall|j: int| 0 <= j < i ==> (#[trigger] ds[j]).0 != sem,
    ensures
        i == ds.len() ==> find_period(ds, sem) is None,
        i < ds.len() && ds[i].0 == sem ==> find_period(ds, sem) == Some(ds[i].1),
    decreases i,
{
    if ds.len() > 0 && i > 0 {
        assert(ds[0].0 != sem);
        assert forall|j: int| 0 <= j < i - 1 implies (#[trigger] ds.drop_first()[j]).0 != sem by {
            assert(ds.drop_first()[j] == ds[j + 1]);
        }
        lemma_find_period_prefix(ds.drop_first(), sem, i - 1);
        if i < ds.len() && ds[i].0 == sem {
            assert(ds.drop_first()[i - 1] == ds[i]);
        }
    }
}

/// The timing facts every emitted occurrence satisfies: both instants are
/// set and the end lies strictly after the start.
pub open spec fn occ_times_ok(c: CourseView) -> bool {
    &&& c.dtstart is Some
    &&& c.dtend is Some
    &&& c.dtend.unwrap() > c.dtstart.unwrap()
}

/// In an ordered slot table the start of a slot lies strictly before the
/// end of that slot or of any later one.
proof fn lemma_slots_span(hours: Seq<TimeSlot>, a: int, b: int)
    requires
        slots_wf(hours),
        0 <= a <= b < hours.len(),
    ensures
        hours[a].start < hours[b].end,
    decreases b - a,
{
    if a < b {
        lemma_slots_span(hours, a, b - 1);
    }
}

proof fn lemma_day_occs_times(
    courses: Seq<Option<CourseView>>,
    hours: Seq<TimeSlot>,
    date: int,
    keep: Option<CatSet>,
    exclude: Option<CatSet>,
)
    requires
        slots_wf(hours),
        day_courses_wf(courses, hours.len() as int),
    ensures
        forall|i: int|
            0 <= i < day_occs(courses, hours, date, keep, exclude).len() ==> occ_times_ok(
                #[trigger] day_occs(courses, hours, date, keep, exclude)[i],
            ),
    decreases courses.len(),
{
    if courses.len() > 0 {
        assert(day_courses_wf(courses.drop_last(), hours.len() as int)) by {
            assert(forall|k: int|
                0 <= k < courses.drop_last().len() ==> courses.drop_last()[k] == courses[k]);
        }
        lemma_day_occs_times(courses.drop_last(), hours, date, keep, exclude);
        let pre = day_occs(courses.drop_last(), hours, date, keep, exclude);
        let whole = day_occs(courses, hours, date, keep, exclude);
        match courses.last() {
            Some(c) => {
                if pass_keeps(c, keep, exclude) {
                    assert(courses[courses.len() - 1] == courses.last());
                    assert(course_in_range(c, hours.len() as int));
                    lemma_slots_span(hours, c.start, c.start + c.size - 1);
                    assert(occ_times_ok(occ_course(c, hours, date)));
                }
            },
            None => {},
        }
        assert forall|i: int| 0 <= i < whole.len() implies occ_times_ok(#[trigger] whole[i]) by {
            if i < pre.len() {
                assert(whole[i] == pre[i]);
            } else {
                assert(whole[i] == whole.last());
            }
        }
    }
}

proof fn lemma_week_occs_times(
    days: Seq<DayView>,
    hours: Seq<TimeSlot>,
    monday: int,
    keep: Option<CatSet>,
    exclude: Option<CatSet>,
)
    requires
        slots_wf(hours),
        forall|d: int|
            0 <= d < days.len() ==> day_courses_wf((#[trigger] days[d]).courses, hours.len() as int),
    ensures
        forall|i: int|
            0 <= i < week_occs(days, hours, monday, keep, exclude).len() ==> occ_times_ok(
                #[trigger] week_occs(days, hours, monday, keep, exclude)[i],
            ),
    decreases days.len(),
{
    if days.len() > 0 {
        assert(forall|d: int|
            0 <= d < days.drop_last().len() ==> days.drop_last()[d] == days[d]);
        lemma_week_occs_times(days.drop_last(), hours, monday, keep, exclude);
        assert(days[days.len() - 1] == days.last());
        lemma_day_occs_times(days.last().courses, hours, monday + days.len() - 1, keep, exclude);
        let pre = week_occs(days.drop_last(), hours, monday, keep, exclude);
        let tail = day_occs(days.last().courses, hours, monday + days.len() - 1, keep, exclude);
        let whole = week_occs(days, hours, monday, keep, exclude);
        assert(whole == pre + tail);
        assert forall|i: int| 0 <= i < whole.len() implies occ_times_ok(#[trigger] whole[i]) by {
            if i < pre.len() {
                assert(whole[i] == pre[i]);
            } else {
                assert(whole[i] == tail[i - pre.len()]);
            }
        }
    }
}

proof fn lemma_stretch_occs_times(
    days: Seq<DayView>,
    hours: Seq<TimeSlot>,
    start: int,
    weeks: int,
    keep: Option<CatSet>,
    exclude: Option<CatSet>,
)
    requires
        slots_wf(hours),
        forall|d: int|
            0 <= d < days.len() ==> day_courses_wf((#[trigger] days[d]).courses, hours.len() as int),
    ensures
        forall|i: int|
            0 <= i < stretch_occs(days, hours, start, weeks, keep, exclude).len() ==> occ_times_ok(
                #[trigger] stretch_occs(days, hours, start, weeks, keep, exclude)[i],
            ),
    decreases weeks,
{
    if weeks > 0 {
        lemma_stretch_occs_times(days, hours, start, weeks - 1, keep, exclude);
        lemma_week_occs_times(days, hours, start + 7 * (weeks - 1), keep, exclude);
        let pre = stretch_occs(days, hours, start, weeks - 1, keep, exclude);
        let tail = week_occs(days, hours, start + 7 * (weeks - 1), keep, exclude);
        let whole = stretch_occs(days, hours, start, weeks, keep, exclude);
        assert(whole == pre + tail);
        assert forall|i: int| 0 <= i < whole.len() implies occ_times_ok(#[trigger] whole[i]) by {
            if i < pre.len() {
                assert(whole[i] == pre[i]);
            } else {
                assert(whole[i] == tail[i - pre.len()]);
            }
        }
    }
}

/// Every occurrence an expander pass emits carries instants with
/// `dtend > dtstart`.
pub proof fn lemma_passes_occs_times(
    days: Seq<DayView>,
    hours: Seq<TimeSlot>,
    stretches: Seq<(u64, u64)>,
    keep: Option<CatSet>,
    exclude: Option<CatSet>,
)
    requires
        slots_wf(hours),
        forall|d: int|
            0 <= d < days.len() ==> day_courses_wf((#[trigger] days[d]).courses, hours.len() as int),
    ensures
        forall|i: int|
            0 <= i < passes_occs(days, hours, stretches, keep, exclude).len() ==> occ_times_ok(
                #[trigger] passes_occs(days, hours, stretches, keep, exclude)[i],
            ),
    decreases stretches.len(),
{
    if stretches.len() > 0 {
        lemma_passes_occs_times(days, hours, stretches.drop_last(), keep, exclude);
        lemma_stretch_occs_times(
            days,
            hours,
            stretches.last().0 as int,
            stretches.last().1 as int,
            keep,
            exclude,
        );
        let pre = passes_occs(days, hours, stretches.drop_last(), keep, exclude);
        let tail = stretch_occs(
            days,
            hours,
            stretches.last().0 as int,
            stretches.last().1 as int,
            keep,
            exclude,
        );
        let whole = passes_occs(days, hours, stretches, keep, exclude);
        assert(whole == pre + tail);
        assert forall|i: int| 0 <= i < whole.len() implies occ_times_ok(#[trigger] whole[i]) by {
            if i < pre.len() {
                assert(whole[i] == pre[i]);
            } else {
                assert(whole[i] == tail[i - pre.len()]);
            }
        }
    }
}

/// The Recurrence Expander.  Looks up the period descriptors for the grid's
/// semester and replicates the filtered grid twice: once for the slots that
/// carry the lecture category, under the lecture stretches, and once for
/// the slots that carry none, under the tutorial/practical stretches.  A
/// slot tagged lecture+tutorial is emitted only under the lecture dates.
/// Fails with `MissingPeriod` exactly when no descriptor exists for the
/// semester.  Every emitted occurrence has instants with
/// `dtend > dtstart`.
pub fn build(tt: &Timetable, dates: &Info) -> (r: Result<Vec<Course>, ScheduleError>)
    requires
        tt_wf(tt@),
        forall|i: int|
            0 <= i < dates@.len() ==> info_wf((#[trigger] dates@[i]).1.course@) && info_wf(
                dates@[i].1.td_tp@,
            ),
    ensures
        r is Err <==> find_period(dates@, tt@.semester) is None,
        r is Err ==> r->Err_0 == ScheduleError::MissingPeriod,
        r is Ok ==> courses_seq_view(r->Ok_0@) == passes_occs(
            tt@.days,
            tt@.hours,
            find_period(dates@, tt@.semester).unwrap().course@,
            Some(lecture_only()),
            None,
        ) + passes_occs(
            tt@.days,
            tt@.hours,
            find_period(dates@, tt@.semester).unwrap().td_tp@,
            None,
            Some(lecture_only()),
        ),
        r is Ok ==> forall|i: int|
            0 <= i < r->Ok_0@.len() ==> occ_times_ok(#[trigger] courses_seq_view(r->Ok_0@)[i]),
{
    let sem = tt.semester;
    let mut idx: usize = 0;
    let mut found = false;
    while idx < dates.len() && !found
        invariant
            0 <= idx <= dates@.len(),
            sem == tt.semester,
            forall|j: int| 0 <= j < idx ==> (#[trigger] dates@[j]).0 != sem,
            found ==> idx < dates@.len() && dates@[idx as int].0 == sem,
        decreases dates@.len() - idx + if found {
            0int
        } else {
            1int
        },
    {
        if dates[idx].0 == sem {
            found = true;
        } else {
            idx = idx + 1;
        }
    }
    proof {
        lemma_find_period_prefix(dates@, sem as int, idx as int);
    }
    if !found {
        return Err(ScheduleError::MissingPeriod);
    }
    let it = &dates[idx].1;
    let lecture = CatSet { cours: true, td: false, tp: false };
    let mut semester_list: Vec<Course> = Vec::new();
    proof {
        assert(days_seq_view(tt.days@) == tt@.days);
        assert(courses_seq_view(semester_list@) =~= Seq::<CourseView>::empty());
    }
    add_courses(&mut semester_list, &tt.hours, &tt.days, &it.course, Some(lecture), None);
    add_courses(&mut semester_list, &tt.hours, &tt.days, &it.td_tp, None, Some(lecture));
    proof {
        let p1 = passes_occs(tt@.days, tt@.hours, it.course@, Some(lecture_only()), None);
        let p2 = passes_occs(tt@.days, tt@.hours, it.td_tp@, None, Some(lecture_only()));
        assert(courses_seq_view(semester_list@) =~= p1 + p2);
        lemma_passes_occs_times(tt@.days, tt@.hours, it.course@, Some(lecture_only()), None);
        lemma_passes_occs_times(tt@.days, tt@.hours, it.td_tp@, None, Some(lecture_only()));
        assert forall|i: int| 0 <= i < semester_list@.len() implies occ_times_ok(
            #[trigger] courses_seq_view(semester_list@)[i],
        ) by {
            if i < p1.len() {
                assert(courses_seq_view(semester_list@)[i] == p1[i]);
            } else {
                assert(courses_seq_view(semester_list@)[i] == p2[i - p1.len()]);
            }
        }
    }
    Ok(semester_list)
}

} // verus!
