//! Packing of one sorted group: credit hours into weekdays, then sessions
//! into the minutes of a half-day window.

use crate::models::OptimizedCourse;
use crate::sorting::Keyed;
use vstd::prelude::*;

verus! {

/// Number of weekdays on the timetable.
pub const WEEKDAYS: u32 = 5;

/// Credit hours one group may take on one day.
pub const DAILY_CREDITS: u32 = 6;

/// Credit hours per day for a group of exactly `TIGHT_GROUP_LEN` courses.
pub const TIGHT_DAILY_CREDITS: u32 = 3;

/// The group size that gets the tighter daily budget.
pub const TIGHT_GROUP_LEN: usize = 4;

/// Minutes that one credit hour lasts.
pub const MINUTES_PER_CREDIT: u32 = 40;

/// The morning window opens at 08:00.
pub const MORNING_START: u32 = 480;

/// The morning window closes at 12:00.
pub const MORNING_END: u32 = 720;

/// The evening window opens at 18:00.
pub const EVENING_START: u32 = 1080;

/// The evening window closes at 22:00.
pub const EVENING_END: u32 = 1320;

/// The session band that means evening; every other value means morning.
pub const EVENING_BAND: u32 = 2;

/// Where the day cursor stands and what each weekday already carries.
pub ghost struct DayState {
    pub cursor: int,
    pub load: Seq<int>,
}

/// The credit hours that a group of `group_len` courses may take on one
/// day.
pub open spec fn day_budget(group_len: nat) -> int {
    if group_len == TIGHT_GROUP_LEN {
        TIGHT_DAILY_CREDITS as int
    } else {
        DAILY_CREDITS as int
    }
}

/// The first day from `cursor` on that still takes `credits`, or 5 when none
/// does.
pub open spec fn seek_day(load: Seq<int>, cursor: int, credits: int, budget: int) -> int
    decreases 5 - cursor,
{
    if cursor >= 5 {
        5
    } else if load[cursor] + credits <= budget {
        cursor
    } else {
        seek_day(load, cursor + 1, credits, budget)
    }
}

/// The state after one more course of `credits` credit hours: the cursor
/// on the day found, and that day loaded where one was found.
pub open spec fn day_step(st: DayState, credits: int, budget: int) -> DayState {
    let d = seek_day(st.load, st.cursor, credits, budget);
    DayState {
        cursor: d,
        load: if d < 5 {
            st.load.update(d, st.load[d] + credits)
        } else {
            st.load
        },
    }
}

/// The state after the first `n` entries of the group have been given a day.
pub open spec fn day_state(s: Seq<Keyed>, n: nat) -> DayState
    decreases n,
{
    if n == 0 {
        DayState { cursor: 0, load: seq![0int, 0int, 0int, 0int, 0int] }
    } else {
        day_step(day_state(s, (n - 1) as nat), s[n - 1].course.sks as int, day_budget(s.len()))
    }
}

/// The weekday, 1 to 5, of entry `i`: the day the cursor reached, or Friday
/// when no day took the course.
pub open spec fn weekday_of(s: Seq<Keyed>, i: int) -> int {
    let d = day_state(s, (i + 1) as nat).cursor;
    if d < 5 {
        d + 1
    } else {
        5
    }
}

/// Entry `i` with its weekday, keyed for the time pass.
pub open spec fn with_day(s: Seq<Keyed>, i: int) -> Keyed {
    Keyed {
        key: s[i].next_key,
        next_key: s[i].next_key,
        course: OptimizedCourse { hari: weekday_of(s, i) as u32, ..s[i].course },
    }
}

/// The group with a weekday for each entry, in the group's order.
pub open spec fn day_packed(s: Seq<Keyed>) -> Seq<Keyed> {
    Seq::new(s.len(), |i: int| with_day(s, i))
}

/// The cursor is within the week and no day carries more than the budget.
pub open spec fn day_state_wf(st: DayState, budget: int) -> bool {
    &&& 0 <= st.cursor <= 5
    &&& st.load.len() == 5
    &&& forall|d: int| 0 <= d < 5 ==> 0 <= #[trigger] st.load[d] <= budget
}

/// The day found is not before the cursor, and takes the credits where it
/// is a day of the week.
pub proof fn lemma_seek_day_range(load: Seq<int>, cursor: int, credits: int, budget: int)
    requires
        0 <= cursor <= 5,
    ensures
        cursor <= seek_day(load, cursor, credits, budget) <= 5,
        seek_day(load, cursor, credits, budget) < 5 ==> load[seek_day(
            load,
            cursor,
            credits,
            budget,
        )] + credits <= budget,
    decreases 5 - cursor,
{
    if cursor < 5 && load[cursor] + credits > budget {
        lemma_seek_day_range(load, cursor + 1, credits, budget);
    }
}

/// The cursor stays within the week and no day is loaded beyond the budget.
pub proof fn lemma_day_state_wf(s: Seq<Keyed>, n: nat)
    requires
        n <= s.len(),
    ensures
        day_state_wf(day_state(s, n), day_budget(s.len())),
        n > 0 ==> day_state(s, (n - 1) as nat).cursor <= day_state(s, n).cursor,
    decreases n,
{
    if n > 0 {
        let prev = day_state(s, (n - 1) as nat);
        lemma_day_state_wf(s, (n - 1) as nat);
        lemma_seek_day_range(prev.load, prev.cursor, s[n - 1].course.sks as int, day_budget(s.len()));
    }
}

/// Every entry gets a weekday from 1 to 5.
pub proof fn lemma_weekday_range(s: Seq<Keyed>, i: int)
    requires
        0 <= i < s.len(),
    ensures
        1 <= weekday_of(s, i) <= 5,
{
    lemma_day_state_wf(s, (i + 1) as nat);
}

/// Gives each entry of a sorted group its weekday.
pub fn pack_days(group: &Vec<Keyed>) -> (placed: Vec<Keyed>)
    ensures
        placed@ == day_packed(group@),
{
    let budget: u32 = if group.len() == TIGHT_GROUP_LEN {
        TIGHT_DAILY_CREDITS
    } else {
        DAILY_CREDITS
    };
    let mut load: [u32; 5] = [0, 0, 0, 0, 0];
    let mut cursor: usize = 0;
    let mut placed: Vec<Keyed> = Vec::new();
    let mut i: usize = 0;
    assert(load@.map_values(|x: u32| x as int) =~= seq![0int, 0int, 0int, 0int, 0int]);
    while i < group.len()
        invariant
            i <= group.len(),
            budget == day_budget(group@.len()),
            cursor == day_state(group@, i as nat).cursor,
            load@.map_values(|x: u32| x as int) == day_state(group@, i as nat).load,
            day_state_wf(day_state(group@, i as nat), budget as int),
            placed@.len() == i,
            forall|j: int| 0 <= j < i ==> placed@[j] == with_day(group@, j),
        decreases group.len() - i,
    {
        let entry = group[i];
        let credits: u32 = entry.course.sks;
        let ghost st = day_state(group@, i as nat);
        proof {
            lemma_day_state_wf(group@, (i + 1) as nat);
        }
        while cursor < 5 && credits > budget - load[cursor]
            invariant
                cursor <= 5,
                st.load.len() == 5,
                load@.map_values(|x: u32| x as int) == st.load,
                forall|d: int| 0 <= d < 5 ==> 0 <= #[trigger] st.load[d] <= budget,
                seek_day(st.load, cursor as int, credits as int, budget as int) == seek_day(
                    st.load,
                    st.cursor,
                    credits as int,
                    budget as int,
                ),
            decreases 5 - cursor,
        {
            proof {
                assert(load@.map_values(|x: u32| x as int)[cursor as int] == load@[cursor as int]);
            }
            cursor += 1;
        }
        let mut course = entry.course;
        if cursor < 5 {
            proof {
                assert(load@.map_values(|x: u32| x as int)[cursor as int] == load@[cursor as int]);
            }
            let sum: u32 = load[cursor] + credits;
            load.set(cursor, sum);
            course.hari = (cursor + 1) as u32;
            proof {
                assert(load@.map_values(|x: u32| x as int) =~= st.load.update(
                    cursor as int,
                    st.load[cursor as int] + credits,
                ));
            }
        } else {
            course.hari = WEEKDAYS;
        }
        placed.push(Keyed { key: entry.next_key, next_key: entry.next_key, course });
        i += 1;
    }
    proof {
        assert(placed@ =~= day_packed(group@));
    }
    placed
}

/// First minute of the window of a session band.
pub open spec fn window_start(band: u32) -> int {
    if band == EVENING_BAND {
        EVENING_START as int
    } else {
        MORNING_START as int
    }
}

/// The minute at which the window of a session band closes.
pub open spec fn window_end(band: u32) -> int {
    if band == EVENING_BAND {
        EVENING_END as int
    } else {
        MORNING_END as int
    }
}

/// Minutes that a course lasts.
pub open spec fn duration(c: OptimizedCourse) -> int {
    MINUTES_PER_CREDIT * c.sks
}

/// Where the time cursor stands after the first `n` entries.
pub open spec fn time_cursor(s: Seq<Keyed>, band: u32, n: nat) -> int
    decreases n, 0int,
{
    if n == 0 {
        window_start(band)
    } else {
        start_of(s, band, n - 1) + duration(s[n - 1].course)
    }
}

/// The minute at which entry `i` starts: at the cursor, or back at the start
/// of the window when the session would run past its end.
pub open spec fn start_of(s: Seq<Keyed>, band: u32, i: int) -> int
    decreases i, 1int,
    when i >= 0
{
    let t = time_cursor(s, band, i as nat);
    if t + duration(s[i].course) > window_end(band) {
        window_start(band)
    } else {
        t
    }
}

/// Entry `i` with its minutes of the day.
pub open spec fn with_time(s: Seq<Keyed>, band: u32, i: int) -> OptimizedCourse {
    OptimizedCourse {
        jam_mulai: start_of(s, band, i) as u32,
        jam_akhir: (start_of(s, band, i) + duration(s[i].course)) as u32,
        ..s[i].course
    }
}

/// The group with start and end for each entry, in the group's order.
pub open spec fn time_packed(s: Seq<Keyed>, band: u32) -> Seq<OptimizedCourse> {
    Seq::new(s.len(), |i: int| with_time(s, band, i))
}

/// Every credit weight of the group leaves room for minute arithmetic.
pub open spec fn credits_fit(s: Seq<Keyed>) -> bool {
    forall|i: int| 0 <= i < s.len() ==> (#[trigger] s[i]).course.sks <= crate::models::MAX_CREDITS
}

/// A session starts inside its window, at or after the window's start.
pub proof fn lemma_start_range(s: Seq<Keyed>, band: u32, i: int)
    requires
        0 <= i < s.len(),
    ensures
        window_start(band) <= start_of(s, band, i) <= window_end(band),
        window_start(band) <= time_cursor(s, band, i as nat),
    decreases i,
{
    if i > 0 {
        lemma_start_range(s, band, i - 1);
    }
}

/// Gives each entry of a sorted group its start and end minute.
pub fn pack_times(group: &Vec<Keyed>, band: u32) -> (placed: Vec<OptimizedCourse>)
    requires
        credits_fit(group@),
    ensures
        placed@ == time_packed(group@, band),
{
    let (start, end): (u32, u32) = if band == EVENING_BAND {
        (EVENING_START, EVENING_END)
    } else {
        (MORNING_START, MORNING_END)
    };
    let mut cursor: u32 = start;
    let mut placed: Vec<OptimizedCourse> = Vec::new();
    let mut i: usize = 0;
    while i < group.len()
        invariant
            i <= group.len(),
            credits_fit(group@),
            start == window_start(band),
            end == window_end(band),
            cursor == time_cursor(group@, band, i as nat),
            start <= cursor,
            cursor <= start + MINUTES_PER_CREDIT * crate::models::MAX_CREDITS,
            placed@.len() == i,
            forall|j: int| 0 <= j < i ==> placed@[j] == with_time(group@, band, j),
        decreases group.len() - i,
    {
        let mut course = group[i].course;
        assert(group@[i as int].course.sks <= crate::models::MAX_CREDITS);
        let length: u32 = MINUTES_PER_CREDIT * course.sks;
        if cursor > end || length > end - cursor {
            cursor = start;
        }
        course.jam_mulai = cursor;
        course.jam_akhir = cursor + length;
        cursor = cursor + length;
        placed.push(course);
        i += 1;
    }
    proof {
        assert(placed@ =~= time_packed(group@, band));
    }
    placed
}

} // verus!
