pub mod models;

use vstd::prelude::*;

use chrono::Datelike;

use vstd::multiset::Multiset;

use crate::timetable::models::{
    cat_set, cats_intersect, course_in_range, entries_total, opt_course_view, CatSet, Course,
    CourseView, DayView, TimeSlot, Timetable,
};

verus! {

/// Whether `h` holds `n` as a contiguous run of characters.
pub open spec fn contains_seq(h: Seq<char>, n: Seq<char>) -> bool {
    exists|k: int| 0 <= k <= h.len() - n.len() && #[trigger] h.subrange(k, k + n.len()) == n
}

/// Whether the characters of `n` occur contiguously in `h`.
pub fn text_contains(h: &str, n: &str) -> (b: bool)
    ensures
        b == contains_seq(h@, n@),
{
    let hlen = h.unicode_len();
    let nlen = n.unicode_len();
    if nlen > hlen {
        proof {
            assert(!contains_seq(h@, n@));
        }
        return false;
    }
    let mut k: usize = 0;
    while k <= hlen - nlen
        invariant
            0 <= k <= hlen - nlen + 1,
            nlen <= hlen,
            hlen == h@.len(),
            nlen == n@.len(),
            forall|k2: int| 0 <= k2 < k ==> #[trigger] h@.subrange(k2, k2 + n@.len()) != n@,
        decreases hlen - nlen + 1 - k,
    {
        let mut j: usize = 0;
        let mut hit = true;
        while j < nlen && hit
            invariant
                0 <= j <= nlen,
                0 <= k <= hlen - nlen,
                hlen == h@.len(),
                nlen == n@.len(),
                hit ==> forall|j2: int| 0 <= j2 < j ==> h@[k + j2] == n@[j2],
                !hit ==> h@.subrange(k as int, k + n@.len()) != n@,
            decreases nlen - j + if hit {
                1int
            } else {
                0int
            },
        {
            if h.get_char(k + j) != n.get_char(j) {
                proof {
                    assert(h@.subrange(k as int, k + n@.len())[j as int] == h@[k + j]);
                }
                hit = false;
            } else {
                j = j + 1;
            }
        }
        if hit {
            proof {
                assert(h@.subrange(k as int, k + n@.len()) =~= n@);
            }
            return true;
        }
        proof {
            if nlen == 0 {
                assert(h@.subrange(k as int, k + n@.len()) =~= n@);
            }
        }
        k = k + 1;
    }
    proof {
        assert forall|k2: int| 0 <= k2 <= h@.len() - n@.len() implies #[trigger] h@.subrange(
            k2,
            k2 + n@.len(),
        ) != n@ by {
            assert(k2 < k);
        }
    }
    false
}

/// The text with which the source site reports that no timetable exists.
pub open spec fn no_slots_marker() -> Seq<char> {
    "Aucun créneau horaire affecté"@
}

/// Reports whether the fetched page says that no time slot is assigned:
/// such a page carries no grid, and the run must abort.
pub fn check_errors(html: &String) -> (b: bool)
    ensures
        b == contains_seq(html@, no_slots_marker()),
{
    text_contains(html.as_str(), "Aucun créneau horaire affecté")
}

/// The ASCII uppercase counterpart of a lowercase letter.
pub open spec fn upper_char(c: char) -> char {
    if c == 'a' {
        'A'
    } else if c == 'b' {
        'B'
    } else if c == 'c' {
        'C'
    } else if c == 'd' {
        'D'
    } else if c == 'e' {
        'E'
    } else if c == 'f' {
        'F'
    } else if c == 'g' {
        'G'
    } else if c == 'h' {
        'H'
    } else if c == 'i' {
        'I'
    } else if c == 'j' {
        'J'
    } else if c == 'k' {
        'K'
    } else if c == 'l' {
        'L'
    } else if c == 'm' {
        'M'
    } else if c == 'n' {
        'N'
    } else if c == 'o' {
        'O'
    } else if c == 'p' {
        'P'
    } else if c == 'q' {
        'Q'
    } else if c == 'r' {
        'R'
    } else if c == 's' {
        'S'
    } else if c == 't' {
        'T'
    } else if c == 'u' {
        'U'
    } else if c == 'v' {
        'V'
    } else if c == 'w' {
        'W'
    } else if c == 'x' {
        'X'
    } else if c == 'y' {
        'Y'
    } else {
        'Z'
    }
}

/// A string with its first character raised to upper case when that
/// character is a lowercase ASCII letter, and unchanged otherwise.
pub open spec fn capitalize_spec(s: Seq<char>) -> Seq<char> {
    if s.len() > 0 && 97 <= s[0] as u32 <= 122 {
        seq![upper_char(s[0])] + s.drop_first()
    } else {
        s
    }
}

fn upper_str(c: char) -> (r: &'static str)
    requires
        97 <= c as u32 <= 122,
    ensures
        r@ == seq![upper_char(c)],
{
    let r: &'static str = if c == 'a' {
        "A"
    } else if c == 'b' {
        "B"
    } else if c == 'c' {
        "C"
    } else if c == 'd' {
        "D"
    } else if c == 'e' {
        "E"
    } else if c == 'f' {
        "F"
    } else if c == 'g' {
        "G"
    } else if c == 'h' {
        "H"
    } else if c == 'i' {
        "I"
    } else if c == 'j' {
        "J"
    } else if c == 'k' {
        "K"
    } else if c == 'l' {
        "L"
    } else if c == 'm' {
        "M"
    } else if c == 'n' {
        "N"
    } else if c == 'o' {
        "O"
    } else if c == 'p' {
        "P"
    } else if c == 'q' {
        "Q"
    } else if c == 'r' {
        "R"
    } else if c == 's' {
        "S"
    } else if c == 't' {
        "T"
    } else if c == 'u' {
        "U"
    } else if c == 'v' {
        "V"
    } else if c == 'w' {
        "W"
    } else if c == 'x' {
        "X"
    } else if c == 'y' {
        "Y"
    } else {
        "Z"
    };
    proof {
        reveal_strlit("A");
        reveal_strlit("B");
        reveal_strlit("C");
        reveal_strlit("D");
        reveal_strlit("E");
        reveal_strlit("F");
        reveal_strlit("G");
        reveal_strlit("H");
        reveal_strlit("I");
        reveal_strlit("J");
        reveal_strlit("K");
        reveal_strlit("L");
        reveal_strlit("M");
        reveal_strlit("N");
        reveal_strlit("O");
        reveal_strlit("P");
        reveal_strlit("Q");
        reveal_strlit("R");
        reveal_strlit("S");
        reveal_strlit("T");
        reveal_strlit("U");
        reveal_strlit("V");
        reveal_strlit("W");
        reveal_strlit("X");
        reveal_strlit("Y");
        reveal_strlit("Z");
        if c as u32 == 122 {
            lemma_char_code_injective(c, 'z');
        }
        assert(r@ =~= seq![upper_char(c)]);
    }
    r
}

/// Raises a string's first character to upper case when it is a lowercase
/// ASCII letter; any other string comes back unchanged.
pub fn capitalize_str(s: &str) -> (r: String)
    ensures
        r@ == capitalize_spec(s@),
{
    let len = s.unicode_len();
    if len == 0 {
        let r = String::new();
        proof {
            assert(r@ =~= capitalize_spec(s@));
        }
        return r;
    }
    let c = s.get_char(0);
    if 97 <= c as u32 && c as u32 <= 122 {
        let mut r = String::from_str(upper_str(c));
        r.append(s.substring_char(1, len));
        proof {
            assert(r@ =~= capitalize_spec(s@));
        }
        r
    } else {
        s.to_owned()
    }
}

/// Raising the first letter of a display name to upper case.
pub trait Capitalize: View<V = Seq<char>> {
    fn capitalize(&self) -> (r: String)
        ensures
            r@ == capitalize_spec(self@),
    ;
}

impl Capitalize for str {
    fn capitalize(&self) -> (r: String)
        ensures
            r@ == capitalize_spec(self@),
    {
        capitalize_str(self)
    }
}

/// The decimal digit character for `n` in 0..=9.
pub open spec fn dec_digit(n: int) -> char {
    if n == 0 {
        '0'
    } else if n == 1 {
        '1'
    } else if n == 2 {
        '2'
    } else if n == 3 {
        '3'
    } else if n == 4 {
        '4'
    } else if n == 5 {
        '5'
    } else if n == 6 {
        '6'
    } else if n == 7 {
        '7'
    } else if n == 8 {
        '8'
    } else {
        '9'
    }
}

/// The decimal rendering of a non-negative integer, without padding.
pub open spec fn dec_str(n: int) -> Seq<char>
    decreases n,
{
    if n < 10 {
        seq![dec_digit(n)]
    } else {
        dec_str(n / 10).push(dec_digit(n % 10))
    }
}

/// The decimal rendering of an integer, with a sign when negative.
pub open spec fn int_str(n: int) -> Seq<char> {
    if n < 0 {
        seq!['-'] + dec_str(-n)
    } else {
        dec_str(n)
    }
}

/// The two-digit rendering used for minutes and padded hours: one leading
/// zero below ten, the plain decimal rendering otherwise.
pub open spec fn two_dig_str(n: int) -> Seq<char> {
    if 0 <= n < 10 {
        seq!['0', dec_digit(n)]
    } else {
        dec_str(n)
    }
}

/// A time of day in minutes from midnight, written the way the source grid
/// writes it: unpadded hour, `h`, two-digit minute (`8h05`).
pub open spec fn time_label(m: int) -> Seq<char> {
    dec_str(m / 60) + seq!['h'] + two_dig_str(m % 60)
}

fn digit_str(d: u32) -> (r: &'static str)
    requires
        d < 10,
    ensures
        r@ == seq![dec_digit(d as int)],
{
    let r: &'static str = if d == 0 {
        "0"
    } else if d == 1 {
        "1"
    } else if d == 2 {
        "2"
    } else if d == 3 {
        "3"
    } else if d == 4 {
        "4"
    } else if d == 5 {
        "5"
    } else if d == 6 {
        "6"
    } else if d == 7 {
        "7"
    } else if d == 8 {
        "8"
    } else {
        "9"
    };
    proof {
        reveal_strlit("0");
        reveal_strlit("1");
        reveal_strlit("2");
        reveal_strlit("3");
        reveal_strlit("4");
        reveal_strlit("5");
        reveal_strlit("6");
        reveal_strlit("7");
        reveal_strlit("8");
        reveal_strlit("9");
        assert(r@ =~= seq![dec_digit(d as int)]);
    }
    r
}

/// Renders a number in decimal.
pub fn u32_string(n: u32) -> (r: String)
    ensures
        r@ == dec_str(n as int),
    decreases n,
{
    if n < 10 {
        String::from_str(digit_str(n))
    } else {
        assert(n / 10 < n) by (nonlinear_arith)
            requires
                n >= 10,
        ;
        let mut s = u32_string(n / 10);
        s.append(digit_str(n % 10));
        proof {
            assert(s@ =~= dec_str(n as int));
        }
        s
    }
}

/// Renders a signed number in decimal.
pub fn i64_string(n: i64) -> (r: String)
    ensures
        r@ == int_str(n as int),
{
    if n < 0 {
        let mut s = String::from_str("-");
        let m: u64 = if n == i64::MIN {
            9223372036854775808u64
        } else {
            (-n) as u64
        };
        s.append(u64_string(m).as_str());
        proof {
            reveal_strlit("-");
            assert(s@ =~= int_str(n as int));
        }
        s
    } else {
        u64_string(n as u64)
    }
}

/// Renders a number in decimal.
pub fn u64_string(n: u64) -> (r: String)
    ensures
        r@ == dec_str(n as int),
    decreases n,
{
    if n < 10 {
        String::from_str(digit_str(n as u32))
    } else {
        assert(n / 10 < n) by (nonlinear_arith)
            requires
                n >= 10,
        ;
        let mut s = u64_string(n / 10);
        s.append(digit_str((n % 10) as u32));
        proof {
            assert(s@ =~= dec_str(n as int));
        }
        s
    }
}

/// Renders a number on at least two digits, zero-padded.
pub fn two_digit(n: u32) -> (r: String)
    ensures
        r@ == two_dig_str(n as int),
{
    if n < 10 {
        let mut s = String::from_str("0");
        s.append(digit_str(n));
        proof {
            reveal_strlit("0");
            assert(s@ =~= two_dig_str(n as int));
        }
        s
    } else {
        u32_string(n)
    }
}

/// Renders minutes-from-midnight as the grid writes a time (`8h00`).
pub fn minutes_label(m: u32) -> (r: String)
    ensures
        r@ == time_label(m as int),
{
    let mut s = u32_string(m / 60);
    s.append("h");
    s.append(two_digit(m % 60).as_str());
    proof {
        reveal_strlit("h");
        assert(s@ =~= time_label(m as int));
    }
    s
}

/// The canonical identity under which slot-options of the same logical
/// course are counted: the course name, plus its category set unless the
/// merge mode ignores categories.
pub struct Identity {
    pub name: String,
    pub cats: Option<CatSet>,
}

impl View for Identity {
    type V = (Seq<char>, Option<CatSet>);

    open spec fn view(&self) -> (Seq<char>, Option<CatSet>) {
        (self.name@, self.cats)
    }
}

/// The identity of a course: with `merge` set, the name alone; otherwise
/// the name together with the category set.
pub open spec fn key_of(c: CourseView, merge: bool) -> (Seq<char>, Option<CatSet>) {
    (c.name, if merge { None } else { Some(cat_set(c.category)) })
}

/// Whether a grid entry is counted for `key`: it holds a course whose
/// categories meet `allowed` and whose identity is `key`.
pub open spec fn counted(
    e: Option<CourseView>,
    allowed: CatSet,
    merge: bool,
    key: (Seq<char>, Option<CatSet>),
) -> bool {
    match e {
        Some(c) => cats_intersect(cat_set(c.category), allowed) && key_of(c, merge) == key,
        None => false,
    }
}

/// How many entries of one day are counted for `key`.
pub open spec fn count_in_courses(
    s: Seq<Option<CourseView>>,
    allowed: CatSet,
    merge: bool,
    key: (Seq<char>, Option<CatSet>),
) -> nat
    decreases s.len(),
{
    if s.len() == 0 {
        0
    } else {
        count_in_courses(s.drop_last(), allowed, merge, key) + if counted(
            s.last(),
            allowed,
            merge,
            key,
        ) {
            1nat
        } else {
            0nat
        }
    }
}

/// How many entries of the whole grid are counted for `key`: the number of
/// slot-options the identity `key` still has.
pub open spec fn count_in_days(
    days: Seq<DayView>,
    allowed: CatSet,
    merge: bool,
    key: (Seq<char>, Option<CatSet>),
) -> nat
    decreases days.len(),
{
    if days.len() == 0 {
        0
    } else {
        count_in_days(days.drop_last(), allowed, merge, key) + count_in_courses(
            days.last().courses,
            allowed,
            merge,
            key,
        )
    }
}

pub proof fn lemma_count_in_courses_le(
    s: Seq<Option<CourseView>>,
    allowed: CatSet,
    merge: bool,
    key: (Seq<char>, Option<CatSet>),
)
    ensures
        count_in_courses(s, allowed, merge, key) <= s.len(),
    decreases s.len(),
{
    if s.len() > 0 {
        lemma_count_in_courses_le(s.drop_last(), allowed, merge, key);
    }
}

pub proof fn lemma_count_in_days_le(
    days: Seq<DayView>,
    allowed: CatSet,
    merge: bool,
    key: (Seq<char>, Option<CatSet>),
)
    ensures
        count_in_days(days, allowed, merge, key) <= entries_total(days),
    decreases days.len(),
{
    if days.len() > 0 {
        lemma_count_in_days_le(days.drop_last(), allowed, merge, key);
        lemma_count_in_courses_le(days.last().courses, allowed, merge, key);
        lemma_entries_total_nonneg(days.drop_last());
    }
}

pub proof fn lemma_entries_total_nonneg(days: Seq<DayView>)
    ensures
        entries_total(days) >= 0,
    decreases days.len(),
{
    if days.len() > 0 {
        lemma_entries_total_nonneg(days.drop_last());
    }
}

/// `entries_total` of a longer prefix of the same days never shrinks.
pub proof fn lemma_entries_total_take_le(days: Seq<DayView>, d: int)
    requires
        0 <= d <= days.len(),
    ensures
        entries_total(days.take(d)) <= entries_total(days),
    decreases days.len() - d,
{
    if d < days.len() {
        assert(days.take(d + 1).drop_last() =~= days.take(d));
        assert(days.take(d + 1).last() == days[d]);
        lemma_entries_total_take_le(days, d + 1);
    } else {
        assert(days.take(d) =~= days);
    }
}

/// Identity of a course for duplicate detection: name and category set.
pub fn get_entry(course: &Course) -> (r: Identity)
    ensures
        r@ == key_of(course@, false),
{
    Identity { name: course.name.clone(), cats: Some(course.categories()) }
}

/// Identity of a course ignoring categories: the name alone.
pub fn get_entry_nocat(course: &Course) -> (r: Identity)
    ensures
        r@ == key_of(course@, true),
{
    Identity { name: course.name.clone(), cats: None }
}

/// Whether this course's identity, computed in the given merge mode, is
/// exactly `id`.
pub fn matches_key(course: &Course, merge: bool, id: &Identity) -> (b: bool)
    ensures
        b == (key_of(course@, merge) == id@),
{
    let name_eq = course.name == id.name;
    if merge {
        name_eq && id.cats.is_none()
    } else {
        match &id.cats {
            Some(cs) => name_eq && *cs == course.categories(),
            None => false,
        }
    }
}

/// Counts, over the whole grid as it now stands, the slot-options of the
/// identity `id` among the courses whose categories meet `allowed`.
pub fn count_of(tt: &Timetable, allowed: CatSet, merge: bool, id: &Identity) -> (n: usize)
    requires
        entries_total(tt@.days) <= usize::MAX,
    ensures
        n == count_in_days(tt@.days, allowed, merge, id@),
{
    let ghost days = tt@.days;
    let mut n: usize = 0;
    let mut d: usize = 0;
    while d < tt.days.len()
        invariant
            0 <= d <= tt.days.len(),
            days == tt@.days,
            days.len() == tt.days.len(),
            entries_total(days) <= usize::MAX,
            n == count_in_days(days.take(d as int), allowed, merge, id@),
        decreases tt.days.len() - d,
    {
        let ghost courses = days[d as int].courses;
        proof {
            assert(tt.days@[d as int]@ == days[d as int]);
        }
        let day = &tt.days[d];
        let mut k: usize = 0;
        while k < day.courses.len()
            invariant
                0 <= k <= day.courses.len(),
                days == tt@.days,
                0 <= d < days.len(),
                day@ == days[d as int],
                courses == days[d as int].courses,
                courses.len() == day.courses.len(),
                entries_total(days) <= usize::MAX,
                n == count_in_days(days.take(d as int), allowed, merge, id@) + count_in_courses(
                    courses.take(k as int),
                    allowed,
                    merge,
                    id@,
                ),
            decreases day.courses.len() - k,
        {
            proof {
                assert(courses[k as int] == opt_course_view(day.courses@[k as int]));
                assert(courses.take(k + 1).drop_last() =~= courses.take(k as int));
                assert(courses.take(k + 1).last() == courses[k as int]);
                lemma_count_in_days_le(days.take(d as int), allowed, merge, id@);
                lemma_count_in_courses_le(courses.take(k as int), allowed, merge, id@);
                assert(days.take(d + 1).drop_last() =~= days.take(d as int));
                assert(days.take(d + 1).last() == days[d as int]);
                lemma_entries_total_nonneg(days.take(d as int));
                lemma_entries_total_take_le(days, d + 1);
            }
            match &day.courses[k] {
                Some(c) => {
                    if c.categories().intersects(&allowed) && matches_key(c, merge, id) {
                        n = n + 1;
                    }
                },
                None => {},
            }
            k = k + 1;
        }
        proof {
            assert(courses.take(courses.len() as int) =~= courses);
            assert(days.take(d + 1).drop_last() =~= days.take(d as int));
            assert(days.take(d + 1).last() == days[d as int]);
        }
        d = d + 1;
    }
    proof {
        assert(days.take(days.len() as int) =~= days);
    }
    n
}

/// The label under which one concrete slot-option is shown to the user:
/// `name - day start-end`, with the times taken from the slot table at the
/// option's first and last occupied positions.
pub open spec fn label_of(c: CourseView, day: Seq<char>, hours: Seq<TimeSlot>) -> Seq<char> {
    c.name + seq![' ', '-', ' '] + day + seq![' '] + time_label(hours[c.start].start as int)
        + seq!['-'] + time_label(hours[c.start + c.size - 1].end as int)
}

/// Writes the label shown to the user for one slot-option of `course` on
/// the day named `day_name`.
pub fn get_selection(course: &Course, day_name: &String, hours: &Vec<TimeSlot>) -> (r: String)
    requires
        course_in_range(course@, hours@.len() as int),
    ensures
        r@ == label_of(course@, day_name@, hours@),
{
    let n = hours.len();
    assert(course.start + course.size <= n);
    let mut s = String::from_str(course.name.as_str());
    s.append(" - ");
    s.append(day_name.as_str());
    s.append(" ");
    s.append(minutes_label(hours[course.start].start as u32).as_str());
    s.append("-");
    s.append(minutes_label(hours[course.start + course.size - 1].end as u32).as_str());
    proof {
        reveal_strlit(" - ");
        reveal_strlit(" ");
        reveal_strlit("-");
        assert(s@ =~= label_of(course@, day_name@, hours@));
    }
    s
}

/// The slot-options of one day whose categories meet `allowed`, each paired
/// with the day's name, in grid order.
pub open spec fn allowed_in_courses(
    s: Seq<Option<CourseView>>,
    day: Seq<char>,
    allowed: CatSet,
) -> Seq<(CourseView, Seq<char>)>
    decreases s.len(),
{
    if s.len() == 0 {
        Seq::empty()
    } else {
        allowed_in_courses(s.drop_last(), day, allowed) + match s.last() {
            Some(c) => if cats_intersect(cat_set(c.category), allowed) {
                seq![(c, day)]
            } else {
                Seq::empty()
            },
            None => Seq::empty(),
        }
    }
}

/// All slot-options of the grid whose categories meet `allowed`, each with
/// its day's name, in grid order.
pub open spec fn allowed_in_days(days: Seq<DayView>, allowed: CatSet) -> Seq<
    (CourseView, Seq<char>),
>
    decreases days.len(),
{
    if days.len() == 0 {
        Seq::empty()
    } else {
        allowed_in_days(days.drop_last(), allowed) + allowed_in_courses(
            days.last().courses,
            days.last().name,
            allowed,
        )
    }
}

pub open spec fn entry_pairs_view(s: Seq<(Course, String)>) -> Seq<(CourseView, Seq<char>)> {
    s.map_values(|p: (Course, String)| (p.0@, p.1@))
}

/// Lists every slot-option whose categories meet `allowed`, paired with its
/// day's name, in grid order.  Slot-option counts per identity are obtained
/// separately from `count_of`, on the same unchanged grid.
pub fn get_count(tt: &Timetable, allowed: CatSet) -> (r: Vec<(Course, String)>)
    ensures
        entry_pairs_view(r@) == allowed_in_days(tt@.days, allowed),
{
    let ghost days = tt@.days;
    let mut r: Vec<(Course, String)> = Vec::new();
    let mut d: usize = 0;
    while d < tt.days.len()
        invariant
            0 <= d <= tt.days.len(),
            days == tt@.days,
            days.len() == tt.days.len(),
            entry_pairs_view(r@) == allowed_in_days(days.take(d as int), allowed),
        decreases tt.days.len() - d,
    {
        let ghost courses = days[d as int].courses;
        proof {
            assert(tt.days@[d as int]@ == days[d as int]);
        }
        let day = &tt.days[d];
        let mut k: usize = 0;
        while k < day.courses.len()
            invariant
                0 <= k <= day.courses.len(),
                days == tt@.days,
                0 <= d < days.len(),
                day@ == days[d as int],
                courses == days[d as int].courses,
                courses.len() == day.courses.len(),
                entry_pairs_view(r@) == allowed_in_days(days.take(d as int), allowed)
                    + allowed_in_courses(courses.take(k as int), days[d as int].name, allowed),
            decreases day.courses.len() - k,
        {
            proof {
                assert(courses[k as int] == opt_course_view(day.courses@[k as int]));
                assert(courses.take(k + 1).drop_last() =~= courses.take(k as int));
                assert(courses.take(k + 1).last() == courses[k as int]);
            }
            match &day.courses[k] {
                Some(c) => {
                    if c.categories().intersects(&allowed) {
                        let pair = (c.clone(), day.name.clone());
                        proof {
                            let ghost prev = r@;
                            assert(entry_pairs_view(prev.push(pair)) =~= entry_pairs_view(prev)
                                + seq![(c@, days[d as int].name)]);
                        }
                        r.push(pair);
                    }
                },
                None => {},
            }
            k = k + 1;
        }
        proof {
            assert(courses.take(courses.len() as int) =~= courses);
            assert(days.take(d + 1).drop_last() =~= days.take(d as int));
            assert(days.take(d + 1).last() == days[d as int]);
        }
        d = d + 1;
    }
    proof {
        assert(days.take(days.len() as int) =~= days);
    }
    r
}

/// Lexicographic order on character sequences, by code point.  This is the
/// order in which selection labels are presented.
pub open spec fn lex_le(a: Seq<char>, b: Seq<char>) -> bool
    decreases a.len(),
{
    if a.len() == 0 {
        true
    } else if b.len() == 0 {
        false
    } else if a[0] == b[0] {
        lex_le(a.drop_first(), b.drop_first())
    } else {
        (a[0] as u32) < (b[0] as u32)
    }
}

/// The lexicographic order as a relation value, for `sort_by`.
pub open spec fn lex_leq() -> spec_fn(Seq<char>, Seq<char>) -> bool {
    |a: Seq<char>, b: Seq<char>| lex_le(a, b)
}

proof fn lemma_lex_refl(a: Seq<char>)
    ensures
        lex_le(a, a),
    decreases a.len(),
{
    if a.len() > 0 {
        lemma_lex_refl(a.drop_first());
    }
}

proof fn lemma_lex_total(a: Seq<char>, b: Seq<char>)
    ensures
        lex_le(a, b) || lex_le(b, a),
    decreases a.len(),
{
    if a.len() > 0 && b.len() > 0 {
        if a[0] == b[0] {
            lemma_lex_total(a.drop_first(), b.drop_first());
        } else {
            // distinct characters have distinct code points
            if a[0] as u32 == b[0] as u32 {
                lemma_char_code_injective(a[0], b[0]);
            }
        }
    }
}

proof fn lemma_char_code_injective(a: char, b: char)
    requires
        a as u32 == b as u32,
    ensures
        a == b,
{
}

#[verifier::spinoff_prover]
proof fn lemma_lex_antisym(a: Seq<char>, b: Seq<char>)
    requires
        lex_le(a, b),
        lex_le(b, a),
    ensures
        a == b,
    decreases a.len(),
{
    if a.len() == 0 {
        assert(b.len() == 0);
        assert(a =~= b);
    } else {
        assert(b.len() > 0);
        if a[0] != b[0] {
            assert((a[0] as u32) < (b[0] as u32));
            assert((b[0] as u32) < (a[0] as u32));
        }
        assert(a[0] == b[0]);
        let at = a.drop_first();
        let bt = b.drop_first();
        assert(lex_le(at, bt));
        assert(lex_le(bt, at));
        lemma_lex_antisym(at, bt);
        assert(at == bt);
        assert(at.len() == a.len() - 1);
        assert(bt.len() == b.len() - 1);
        assert(a.len() == b.len());
        assert forall|i: int| 0 <= i < a.len() implies a[i] == b[i] by {
            if i > 0 {
                assert(at[i - 1] == bt[i - 1]);
            }
        }
        assert(a =~= b);
    }
}

proof fn lemma_lex_trans(a: Seq<char>, b: Seq<char>, c: Seq<char>)
    requires
        lex_le(a, b),
        lex_le(b, c),
    ensures
        lex_le(a, c),
    decreases a.len(),
{
    if a.len() > 0 && b.len() > 0 && c.len() > 0 {
        if a[0] == b[0] && b[0] == c[0] {
            lemma_lex_trans(a.drop_first(), b.drop_first(), c.drop_first());
        }
    }
}

/// The lexicographic order is a total order, so sorting by it is
/// deterministic.
pub proof fn lemma_lex_total_ordering()
    ensures
        vstd::relations::total_ordering(lex_leq()),
{
    let r = lex_leq();
    assert forall|x: Seq<char>| #[trigger] r(x, x) by {
        lemma_lex_refl(x);
    }
    assert forall|x: Seq<char>, y: Seq<char>| #[trigger] r(x, y) && #[trigger] r(y, x) implies x
        == y by {
        lemma_lex_antisym(x, y);
    }
    assert forall|x: Seq<char>, y: Seq<char>, z: Seq<char>|
        #[trigger] r(x, y) && #[trigger] r(y, z) implies r(x, z) by {
        lemma_lex_trans(x, y, z);
    }
    assert forall|x: Seq<char>, y: Seq<char>| #[trigger] r(x, y) || #[trigger] r(y, x) by {
        lemma_lex_total(x, y);
    }
}

/// Compares two strings in the lexicographic order of their characters.
pub fn str_lex_le(a: &str, b: &str) -> (r: bool)
    ensures
        r == lex_le(a@, b@),
{
    let alen = a.unicode_len();
    let blen = b.unicode_len();
    proof {
        assert(a@.skip(0) =~= a@);
        assert(b@.skip(0) =~= b@);
    }
    let mut i: usize = 0;
    while i < alen && i < blen
        invariant
            0 <= i <= alen,
            0 <= i <= blen,
            alen == a@.len(),
            blen == b@.len(),
            lex_le(a@, b@) == lex_le(a@.skip(i as int), b@.skip(i as int)),
        decreases alen - i,
    {
        let ca = a.get_char(i);
        let cb = b.get_char(i);
        proof {
            assert(a@.skip(i as int)[0] == a@[i as int]);
            assert(b@.skip(i as int)[0] == b@[i as int]);
            assert(a@.skip(i as int).drop_first() =~= a@.skip(i + 1));
            assert(b@.skip(i as int).drop_first() =~= b@.skip(i + 1));
        }
        if (ca as u32) < (cb as u32) {
            return true;
        } else if (ca as u32) > (cb as u32) {
            return false;
        }
        proof {
            assert(ca == cb);
        }
        i = i + 1;
    }
    proof {
        if i >= alen {
            assert(a@.skip(i as int).len() == 0);
        } else {
            assert(b@.skip(i as int).len() == 0);
            assert(a@.skip(i as int).len() > 0);
        }
    }
    i >= alen
}

pub open spec fn strs_view(s: Seq<String>) -> Seq<Seq<char>> {
    s.map_values(|x: String| x@)
}

/// Sorts labels lexicographically, so that every run presents the same
/// choices in the same order.
pub fn sort_strings(v: &Vec<String>) -> (r: Vec<String>)
    ensures
        strs_view(r@) == strs_view(v@).sort_by(lex_leq()),
{
    let ghost target = strs_view(v@).sort_by(lex_leq());
    proof {
        lemma_lex_total_ordering();
        strs_view(v@).lemma_sort_by_ensures(lex_leq());
    }
    let mut r: Vec<String> = Vec::new();
    proof {
        assert(strs_view(r@) =~= Seq::<Seq<char>>::empty());
        assert(strs_view(v@.take(0)) =~= Seq::<Seq<char>>::empty());
    }
    let mut i: usize = 0;
    while i < v.len()
        invariant
            0 <= i <= v.len(),
            forall|m: int, n2: int|
                0 <= m < n2 < strs_view(r@).len() ==> lex_le(
                    #[trigger] strs_view(r@)[m],
                    #[trigger] strs_view(r@)[n2],
                ),
            strs_view(r@).to_multiset() == strs_view(v@.take(i as int)).to_multiset(),
        decreases v.len() - i,
    {
        let x = v[i].clone();
        let mut p: usize = 0;
        while p < r.len() && str_lex_le(r[p].as_str(), x.as_str())
            invariant
                0 <= p <= r.len(),
                0 <= i < v@.len(),
                x@ == v@[i as int]@,
                forall|j: int| 0 <= j < p ==> lex_le(#[trigger] strs_view(r@)[j], x@),
            decreases r.len() - p,
        {
            proof {
                assert(strs_view(r@)[p as int] == r@[p as int]@);
            }
            p = p + 1;
        }
        proof {
            let rv = strs_view(r@);
            if p < rv.len() {
                assert(!lex_le(r@[p as int]@, x@));
                assert(rv[p as int] == r@[p as int]@);
            }
            let rv2 = strs_view(r@.insert(p as int, x));
            assert(rv2 =~= rv.insert(p as int, x@));
            // the new element orders against everything around it
            if p < rv.len() {
                lemma_lex_total(rv[p as int], x@);
                assert(lex_le(x@, rv[p as int]));
            }
            assert forall|m: int, n2: int| 0 <= m < n2 < rv2.len() implies lex_le(
                #[trigger] rv2[m],
                #[trigger] rv2[n2],
            ) by {
                if m < p && n2 < p {
                    assert(lex_le(rv[m], rv[n2]));
                } else if m < p && n2 == p {
                    assert(lex_le(rv[m], x@));
                } else if m < p && n2 > p {
                    assert(lex_le(rv[m], rv[n2 - 1]));
                } else if m == p {
                    // x goes before everything that was at p or later
                    assert(lex_le(x@, rv[p as int]));
                    if n2 - 1 > p {
                        assert(lex_le(rv[p as int], rv[n2 - 1]));
                        lemma_lex_trans(x@, rv[p as int], rv[n2 - 1]);
                    }
                } else {
                    assert(lex_le(rv[m - 1], rv[n2 - 1]));
                }
            }
            // multiset bookkeeping for the insertion
            broadcast use vstd::seq_lib::group_to_multiset_ensures;

            lemma_to_multiset_insert(rv, p as int, x@);
            let tv = strs_view(v@.take(i + 1));
            assert(tv.drop_last() =~= strs_view(v@.take(i as int)));
            assert(tv.last() == v@[i as int]@);
            tv.lemma_add_last_back();
            assert(tv.to_multiset() == tv.drop_last().to_multiset().insert(tv.last()));
        }
        r.insert(p, x);
        i = i + 1;
    }
    proof {
        assert(v@.take(v@.len() as int) =~= v@);
        let rv = strs_view(r@);
        let leq = lex_leq();
        assert forall|m: int, n2: int| 0 <= m < n2 < rv.len() implies #[trigger] leq(
            rv[m],
            rv[n2],
        ) by {
            assert(lex_le(rv[m], rv[n2]));
        }
        assert(vstd::relations::sorted_by(rv, leq));
        vstd::seq_lib::lemma_sorted_unique(rv, target, leq);
    }
    r
}

/// Inserting into a sequence adds exactly that element to its multiset.
proof fn lemma_to_multiset_insert(s: Seq<Seq<char>>, p: int, x: Seq<char>)
    requires
        0 <= p <= s.len(),
    ensures
        s.insert(p, x).to_multiset() == s.to_multiset().insert(x),
{
    broadcast use vstd::seq_lib::group_to_multiset_ensures;

    let left = s.take(p);
    let right = s.skip(p);
    assert(s.insert(p, x) =~= left + (seq![x] + right));
    assert(s =~= left + right);
    vstd::seq_lib::lemma_multiset_commutative(left, seq![x] + right);
    vstd::seq_lib::lemma_multiset_commutative(seq![x], right);
    vstd::seq_lib::lemma_multiset_commutative(left, right);
    assert(seq![x].to_multiset() =~= Multiset::empty().insert(x)) by {
        assert(seq![x] =~= Seq::empty().push(x));
    }
    assert(s.insert(p, x).to_multiset() =~= s.to_multiset().insert(x));
}

/// Relies on chrono's `Utc::now` and `Datelike::month`: the month number of
/// the current UTC date, which chrono documents as ranging over 1..=12.
/// `Utc::now` itself panics on a system clock before 1970 or beyond
/// chrono's date range; that depends on the machine alone.
#[verifier::external_body]
fn current_month() -> (m: u32)
    ensures
        1 <= m <= 12,
{
    chrono::Utc::now().month()
}

/// Relies on chrono's `Utc::now` and `Datelike::year`: the year of the
/// current UTC date.  chrono's dates keep the year within
/// -262143..=262142.  `Utc::now` itself panics on a system clock before
/// 1970 or beyond chrono's date range; that depends on the machine alone.
#[verifier::external_body]
fn current_year() -> (y: i32)
    ensures
        -262_143 <= y <= 262_142,
{
    chrono::Utc::now().year()
}

/// The semester a month falls in: the first from July to December, the
/// second from January to June.
pub fn semester_for_month(month: u32) -> (s: i8)
    ensures
        s == if month > 6 {
            1int
        } else {
            2int
        },
{
    if month > 6 {
        1
    } else {
        2
    }
}

/// The semester to work on: the one asked for, or the one the current date
/// falls in.
pub fn get_semester(semester: Option<i8>) -> (s: i8)
    ensures
        semester is Some ==> s == semester.unwrap(),
        semester is None ==> s == 1 || s == 2,
{
    match semester {
        Some(n) => n,
        None => semester_for_month(current_month()),
    }
}

/// The academic year that contains semester `semester` of civil year `y`,
/// written as its two civil years joined by a dash.
pub open spec fn year_span(y: int, semester: int) -> Seq<char> {
    if semester == 1 {
        int_str(y) + seq!['-'] + int_str(y + 1)
    } else {
        int_str(y - 1) + seq!['-'] + int_str(y)
    }
}

/// Writes the academic year around civil year `y` for the given semester.
pub fn year_string(y: i32, semester: i8) -> (r: String)
    requires
        -1_000_000 <= y <= 1_000_000,
    ensures
        r@ == year_span(y as int, semester as int),
{
    let (first, second): (i64, i64) = if semester == 1 {
        (y as i64, y as i64 + 1)
    } else {
        (y as i64 - 1, y as i64)
    };
    let mut s = i64_string(first);
    s.append("-");
    s.append(i64_string(second).as_str());
    proof {
        reveal_strlit("-");
        assert(s@ =~= year_span(y as int, semester as int));
    }
    s
}

/// The academic year to work on: around the year asked for, or around the
/// current year.
pub fn get_year(year: Option<i32>, semester: i8) -> (r: String)
    requires
        year is Some ==> -1_000_000 <= year.unwrap() <= 1_000_000,
    ensures
        year is Some ==> r@ == year_span(year.unwrap() as int, semester as int),
        year is None ==> exists|y: int|
            -262_143 <= y <= 262_142 && r@ == year_span(y, semester as int),
{
    let wanted_year = match year {
        Some(n) => n,
        None => current_year(),
    };
    let r = year_string(wanted_year, semester);
    proof {
        if year is None {
            assert(r@ == year_span(wanted_year as int, semester as int));
        }
    }
    r
}

pub open spec fn is_digit_char(c: char) -> bool {
    48 <= c as u32 <= 57
}

pub open spec fn digit_value(c: char) -> int {
    c as u32 - 48
}

/// The number written by `len` (one or two) digits of `s` starting at `i`.
pub open spec fn digits_value(s: Seq<char>, i: int, len: int) -> int {
    if len == 2 {
        10 * digit_value(s[i]) + digit_value(s[i + 1])
    } else {
        digit_value(s[i])
    }
}

/// Reads a slot label of the grid's shape — an hour of one or two digits,
/// `h`, two minute digits, `-`, and a second time written the same way —
/// into its two times in minutes from midnight.  Any other string is
/// rejected.
pub open spec fn parse_slot_spec(s: Seq<char>) -> Option<TimeSlot> {
    if s.len() < 2 || !is_digit_char(s[0]) {
        None
    } else {
        let h1len: int = if is_digit_char(s[1]) {
            2int
        } else {
            1int
        };
        if s.len() < h1len + 8 {
            None
        } else if !(s[h1len] == 'h' && is_digit_char(s[h1len + 1]) && is_digit_char(s[h1len + 2])
            && s[h1len + 3] == '-' && is_digit_char(s[h1len + 4])) {
            None
        } else {
            let h2len: int = if is_digit_char(s[h1len + 5]) {
                2int
            } else {
                1int
            };
            if s.len() == h1len + h2len + 7 && s[h1len + 4 + h2len] == 'h' && is_digit_char(
                s[h1len + 5 + h2len],
            ) && is_digit_char(s[h1len + 6 + h2len]) {
                Some(
                    TimeSlot {
                        start: (digits_value(s, 0, h1len) * 60 + digits_value(
                            s,
                            h1len + 1,
                            2,
                        )) as u16,
                        end: (digits_value(s, h1len + 4, h2len) * 60 + digits_value(
                            s,
                            h1len + 5 + h2len,
                            2,
                        )) as u16,
                    },
                )
            } else {
                None
            }
        }
    }
}

/// Reads a slot label (`8h00-8h15`) into its two times in minutes from
/// midnight; any string of another shape is rejected.
pub fn parse_time_slot(s: &str) -> (r: Option<TimeSlot>)
    ensures
        r == parse_slot_spec(s@),
{
    let len = s.unicode_len();
    if len < 2 || !char_is_digit(s.get_char(0)) {
        return None;
    }
    let h1len: usize = if char_is_digit(s.get_char(1)) {
        2
    } else {
        1
    };
    if len < h1len + 8 {
        return None;
    }
    if !(s.get_char(h1len) == 'h' && char_is_digit(s.get_char(h1len + 1)) && char_is_digit(
        s.get_char(h1len + 2),
    ) && s.get_char(h1len + 3) == '-' && char_is_digit(s.get_char(h1len + 4))) {
        return None;
    }
    let h2len: usize = if char_is_digit(s.get_char(h1len + 5)) {
        2
    } else {
        1
    };
    if len == h1len + h2len + 7 && s.get_char(h1len + 4 + h2len) == 'h' && char_is_digit(
        s.get_char(h1len + 5 + h2len),
    ) && char_is_digit(s.get_char(h1len + 6 + h2len)) {
        let h1 = read_digits(s, 0, h1len);
        let m1 = read_digits(s, h1len + 1, 2);
        let h2 = read_digits(s, h1len + 4, h2len);
        let m2 = read_digits(s, h1len + 5 + h2len, 2);
        Some(TimeSlot { start: h1 * 60 + m1, end: h2 * 60 + m2 })
    } else {
        None
    }
}

fn char_is_digit(c: char) -> (b: bool)
    ensures
        b == is_digit_char(c),
{
    let code = c as u32;
    48 <= code && code <= 57
}

fn read_digits(s: &str, i: usize, len: usize) -> (n: u16)
    requires
        len == 1 || len == 2,
        i + len <= s@.len(),
        forall|j: int| i <= j < i + len ==> is_digit_char(s@[j]),
    ensures
        n == digits_value(s@, i as int, len as int),
{
    let total = s.unicode_len();
    if len == 2 {
        let d0 = s.get_char(i) as u32;
        let d1 = s.get_char(i + 1) as u32;
        (10 * (d0 - 48) + (d1 - 48)) as u16
    } else {
        let d0 = s.get_char(i) as u32;
        (d0 - 48) as u16
    }
}

proof fn lemma_dec_digit_char(d: int)
    requires
        0 <= d <= 9,
    ensures
        is_digit_char(dec_digit(d)),
        digit_value(dec_digit(d)) == d,
{
    assert('0' as u32 == 48 && '1' as u32 == 49 && '2' as u32 == 50 && '3' as u32 == 51 && '4'
        as u32 == 52 && '5' as u32 == 53 && '6' as u32 == 54 && '7' as u32 == 55 && '8' as u32
        == 56 && '9' as u32 == 57);
}

proof fn lemma_dec_str_small(n: int)
    requires
        0 <= n <= 99,
    ensures
        n < 10 ==> dec_str(n).len() == 1,
        n >= 10 ==> dec_str(n).len() == 2,
        forall|i: int| 0 <= i < dec_str(n).len() ==> is_digit_char(#[trigger] dec_str(n)[i]),
        digits_value(dec_str(n), 0, dec_str(n).len() as int) == n,
{
    if n < 10 {
        lemma_dec_digit_char(n);
    } else {
        assert(dec_str(n) == dec_str(n / 10).push(dec_digit(n % 10)));
        assert(dec_str(n / 10) =~= seq![dec_digit(n / 10)]);
        lemma_dec_digit_char(n / 10);
        lemma_dec_digit_char(n % 10);
    }
}

proof fn lemma_two_dig_small(n: int)
    requires
        0 <= n <= 99,
    ensures
        two_dig_str(n).len() == 2,
        forall|i: int| 0 <= i < 2 ==> is_digit_char(#[trigger] two_dig_str(n)[i]),
        digits_value(two_dig_str(n), 0, 2) == n,
{
    if n < 10 {
        lemma_dec_digit_char(n);
        assert('0' as u32 == 48);
    } else {
        lemma_dec_str_small(n);
    }
}

/// Reading a written slot label gives back exactly the two times it was
/// written from: the label writer and the label parser are inverse on
/// every time of day.
pub proof fn lemma_parse_time_label_roundtrip(a: int, b: int)
    requires
        0 <= a <= 5999,
        0 <= b <= 5999,
    ensures
        parse_slot_spec(time_label(a) + seq!['-'] + time_label(b)) == Some(
            TimeSlot { start: a as u16, end: b as u16 },
        ),
{
    let ha = a / 60;
    let ma = a % 60;
    let hb = b / 60;
    let mb = b % 60;
    lemma_dec_str_small(ha);
    lemma_two_dig_small(ma);
    lemma_dec_str_small(hb);
    lemma_two_dig_small(mb);
    let s = time_label(a) + seq!['-'] + time_label(b);
    let h1len = dec_str(ha).len() as int;
    let h2len = dec_str(hb).len() as int;
    assert('h' as u32 == 104 && '-' as u32 == 45);
    assert forall|i: int| 0 <= i < h1len implies s[i] == dec_str(ha)[i] by {}
    assert(s[h1len] == 'h');
    assert(s[h1len + 1] == two_dig_str(ma)[0] && s[h1len + 2] == two_dig_str(ma)[1]);
    assert(s[h1len + 3] == '-');
    assert forall|i: int| 0 <= i < h2len implies s[h1len + 4 + i] == dec_str(hb)[i] by {}
    assert(s[h1len + 4 + h2len] == 'h');
    assert(s[h1len + 5 + h2len] == two_dig_str(mb)[0] && s[h1len + 6 + h2len] == two_dig_str(
        mb,
    )[1]);
    assert(s.len() == h1len + h2len + 7);
    // the parse walks the same positions
    assert(is_digit_char(s[0]));
    if h1len == 1 {
        assert(!is_digit_char(s[1]));
    } else {
        assert(is_digit_char(s[1]));
    }
    if h2len == 1 {
        assert(!is_digit_char(s[h1len + 5]));
    } else {
        assert(is_digit_char(s[h1len + 5]));
    }
    assert(digits_value(s, 0, h1len) == ha) by {
        if h1len == 2 {
            assert(s[0] == dec_str(ha)[0] && s[1] == dec_str(ha)[1]);
        } else {
            assert(s[0] == dec_str(ha)[0]);
        }
    }
    assert(digits_value(s, h1len + 1, 2) == ma);
    assert(digits_value(s, h1len + 4, h2len) == hb) by {
        if h2len == 2 {
            assert(s[h1len + 4] == dec_str(hb)[0] && s[h1len + 5] == dec_str(hb)[1]);
        } else {
            assert(s[h1len + 4] == dec_str(hb)[0]);
        }
    }
    assert(digits_value(s, h1len + 5 + h2len, 2) == mb);
    assert(ha * 60 + ma == a);
    assert(hb * 60 + mb == b);
}

/// The label of slot `i` of the standard table: its interval written as
/// `start-end` (`8h00-8h15`).
pub open spec fn std_slot_label(i: int) -> Seq<char> {
    time_label(480 + 15 * i) + seq!['-'] + time_label(495 + 15 * i)
}

/// The standard slot table of the source grid: 48 quarter-hour slots from
/// 08:00 to 20:00, each labelled `start-end` (`8h00-8h15`, ..,
/// `19h45-20h00`).
pub fn get_hours() -> (r: Vec<String>)
    ensures
        r@.len() == 48,
        forall|i: int| 0 <= i < 48 ==> (#[trigger] r@[i])@ == std_slot_label(i),
{
    let mut r: Vec<String> = Vec::new();
    let mut i: u32 = 0;
    while i < 48
        invariant
            0 <= i <= 48,
            r@.len() == i,
            forall|j: int| 0 <= j < i ==> (#[trigger] r@[j])@ == std_slot_label(j),
        decreases 48 - i,
    {
        let mut label = minutes_label(480 + 15 * i);
        label.append("-");
        label.append(minutes_label(495 + 15 * i).as_str());
        proof {
            reveal_strlit("-");
            assert(label@ =~= std_slot_label(i as int));
        }
        r.push(label);
        i = i + 1;
    }
    r
}

/// The slot interval written with zero-padded hours, as the terminal
/// display renders it (`08h00-09h00`): the day starts at 08:00, each slot
/// is fifteen minutes, and the end time is the start time plus the
/// course's whole duration.
pub open spec fn time_slot_str(start: int, size: int) -> Seq<char> {
    let start_hour = 8 + (start * 15) / 60;
    let start_minute = (start * 15) % 60;
    let end_hour = 8 + (start * 15 + size * 15) / 60;
    let end_minute = (start * 15 + size * 15) % 60;
    two_dig_str(start_hour) + seq!['h'] + two_dig_str(start_minute) + seq!['-'] + two_dig_str(
        end_hour,
    ) + seq!['h'] + two_dig_str(end_minute)
}

/// Writes the interval a course occupies, given its first slot index and its
/// size in slots, with zero-padded hours.
pub fn format_time_slot(start: usize, size: usize) -> (r: String)
    requires
        start <= 100_000,
        size <= 100_000,
    ensures
        r@ == time_slot_str(start as int, size as int),
{
    let start_hour: usize = 8 + (start * 15) / 60;
    let start_minute: usize = (start * 15) % 60;
    let end_hour: usize = 8 + (start * 15 + size * 15) / 60;
    let end_minute: usize = (start * 15 + size * 15) % 60;
    let mut s = two_digit(start_hour as u32);
    s.append("h");
    s.append(two_digit(start_minute as u32).as_str());
    s.append("-");
    s.append(two_digit(end_hour as u32).as_str());
    s.append("h");
    s.append(two_digit(end_minute as u32).as_str());
    proof {
        reveal_strlit("h");
        reveal_strlit("-");
        assert(s@ =~= time_slot_str(start as int, size as int));
    }
    s
}

} // verus!
