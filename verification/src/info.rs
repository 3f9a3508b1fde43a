use vstd::prelude::*;

use crate::timetable::{info_wf, stretch_wf, MAX_DAY, MAX_WEEKS};
use crate::utils::models::{Info, InfoList, InfoType};

verus! {

/// Derives the tutorial/practical stretches from the lecture ones: when
/// `delta` is one, tutorials start a week after lectures, so the stretch
/// before the break loses a week at its front and the stretch after the
/// break gains one at its end.
pub fn derive_from_cours(courses: &InfoList, delta: u64) -> (r: InfoList)
    requires
        courses@.len() == 2,
        delta <= courses@[0].1,
        courses@[0].0 + 7 * delta <= u64::MAX,
        courses@[1].1 + delta <= u64::MAX,
    ensures
        r@.len() == 2,
        r@[0] == ((courses@[0].0 + 7 * delta) as u64, (courses@[0].1 - delta) as u64),
        r@[1] == (courses@[1].0, (courses@[1].1 + delta) as u64),
{
    let before_break = (courses[0].0 + 7 * delta, courses[0].1 - delta);
    let after_break = (courses[1].0, courses[1].1 + delta);
    let mut r: InfoList = Vec::new();
    r.push(before_break);
    r.push(after_break);
    r
}

/// Builds the period descriptors of both semesters from their anchor
/// Mondays and week counts.  For each semester the lectures run
/// `weeks.0` weeks from the anchor, pause for the break (one extra gap
/// week in the first semester with `holidays`, two in the second), then
/// run `weeks.1` weeks more; the tutorial stretches are derived from the
/// lecture ones with `skip_week` deciding whether tutorials start a week
/// late.  Every produced list is a sound descriptor for the expander.
pub fn info(
    date_s1: u64,
    date_s2: u64,
    weeks_s1: (u64, u64),
    weeks_s2: (u64, u64),
    skip_week: bool,
    holidays: bool,
) -> (r: Info)
    requires
        date_s1 % 7 == 4,
        date_s2 % 7 == 4,
        date_s1 + 7 * (weeks_s1.0 + 1) <= MAX_DAY,
        date_s2 + 7 * (weeks_s2.0 + 2) <= MAX_DAY,
        weeks_s1.0 <= MAX_WEEKS,
        weeks_s1.1 + 1 <= MAX_WEEKS,
        weeks_s2.0 <= MAX_WEEKS,
        weeks_s2.1 + 1 <= MAX_WEEKS,
        skip_week ==> weeks_s1.0 >= 1 && weeks_s2.0 >= 1,
    ensures
        r@.len() == 2,
        r@[0].0 == 1usize,
        r@[1].0 == 2usize,
        r@[0].1.course@ == seq![
            (date_s1, weeks_s1.0),
            (
                (date_s1 + 7 * (weeks_s1.0 + if holidays {
                    1u64
                } else {
                    0u64
                })) as u64,
                weeks_s1.1,
            ),
        ],
        r@[1].1.course@ == seq![
            (date_s2, weeks_s2.0),
            (
                (date_s2 + 7 * (weeks_s2.0 + if holidays {
                    2u64
                } else {
                    0u64
                })) as u64,
                weeks_s2.1,
            ),
        ],
        r@[0].1.td_tp@ == seq![
            (
                (date_s1 + 7 * if skip_week {
                    1u64
                } else {
                    0u64
                }) as u64,
                (weeks_s1.0 - if skip_week {
                    1u64
                } else {
                    0u64
                }) as u64,
            ),
            (
                (date_s1 + 7 * (weeks_s1.0 + if holidays {
                    1u64
                } else {
                    0u64
                })) as u64,
                (weeks_s1.1 + if skip_week {
                    1u64
                } else {
                    0u64
                }) as u64,
            ),
        ],
        r@[1].1.td_tp@ == seq![
            (
                (date_s2 + 7 * if skip_week {
                    1u64
                } else {
                    0u64
                }) as u64,
                (weeks_s2.0 - if skip_week {
                    1u64
                } else {
                    0u64
                }) as u64,
            ),
            (
                (date_s2 + 7 * (weeks_s2.0 + if holidays {
                    2u64
                } else {
                    0u64
                })) as u64,
                (weeks_s2.1 + if skip_week {
                    1u64
                } else {
                    0u64
                }) as u64,
            ),
        ],
        forall|i: int|
            0 <= i < 2 ==> info_wf((#[trigger] r@[i]).1.course@) && info_wf(r@[i].1.td_tp@),
{
    let delta: u64 = if skip_week {
        1
    } else {
        0
    };
    let gap_s1: u64 = if holidays {
        1
    } else {
        0
    };
    let gap_s2: u64 = if holidays {
        2
    } else {
        0
    };

    let date_s1_2 = date_s1 + 7 * (weeks_s1.0 + gap_s1);
    let mut cours_s1: InfoList = Vec::new();
    cours_s1.push((date_s1, weeks_s1.0));
    cours_s1.push((date_s1_2, weeks_s1.1));

    let date_s2_2 = date_s2 + 7 * (weeks_s2.0 + gap_s2);
    let mut cours_s2: InfoList = Vec::new();
    cours_s2.push((date_s2, weeks_s2.0));
    cours_s2.push((date_s2_2, weeks_s2.1));

    let tdtp_s1 = derive_from_cours(&cours_s1, delta);
    let tdtp_s2 = derive_from_cours(&cours_s2, delta);

    let mut r: Info = Vec::new();
    r.push((1, InfoType { course: cours_s1, td_tp: tdtp_s1 }));
    r.push((2, InfoType { course: cours_s2, td_tp: tdtp_s2 }));
    proof {
        assert(r@[0].1.course@ =~= seq![(date_s1, weeks_s1.0), (date_s1_2, weeks_s1.1)]);
        assert(r@[1].1.course@ =~= seq![(date_s2, weeks_s2.0), (date_s2_2, weeks_s2.1)]);
        assert(r@[0].1.td_tp@ =~= seq![
            ((date_s1 + 7 * delta) as u64, (weeks_s1.0 - delta) as u64),
            (date_s1_2, (weeks_s1.1 + delta) as u64),
        ]);
        assert(r@[1].1.td_tp@ =~= seq![
            ((date_s2 + 7 * delta) as u64, (weeks_s2.0 - delta) as u64),
            (date_s2_2, (weeks_s2.1 + delta) as u64),
        ]);
        assert forall|i: int| 0 <= i < 2 implies info_wf((#[trigger] r@[i]).1.course@) && info_wf(
            r@[i].1.td_tp@,
        ) by {
            assert(stretch_wf(r@[0].1.course@[0]));
            assert(stretch_wf(r@[0].1.course@[1]));
            assert(stretch_wf(r@[0].1.td_tp@[0]));
            assert(stretch_wf(r@[0].1.td_tp@[1]));
            assert(stretch_wf(r@[1].1.course@[0]));
            assert(stretch_wf(r@[1].1.course@[1]));
            assert(stretch_wf(r@[1].1.td_tp@[0]));
            assert(stretch_wf(r@[1].1.td_tp@[1]));
        }
    }
    r
}

} // verus!
