use vstd::prelude::*;
use crate::errors::AppError;

verus! {

pub const SECONDS_PER_DAY: u32 = 86400;

/// A local date and time: the day as counted from the common era (day 1 is
/// Monday, 1 January of year 1, proleptic Gregorian) and the second of that day.
#[derive(PartialEq, Eq, Structural, Clone, Copy, Debug)]
pub struct WorkDateTime {
    pub day: i32,
    pub second: u32,
}

impl WorkDateTime {
    pub open spec fn wf(self) -> bool {
        self.second < SECONDS_PER_DAY
    }

    /// Strictly earlier in time.
    pub open spec fn before(self, other: WorkDateTime) -> bool {
        self.day < other.day || (self.day == other.day && self.second < other.second)
    }

    /// Builds a value from a day number and a time of day; `None` when the
    /// time of day is out of range.
    pub fn from_day_hms(day: i32, hour: u32, minute: u32, second: u32) -> (r: Option<WorkDateTime>)
        ensures
            match r {
                Some(t) => hour < 24 && minute < 60 && second < 60 && t.wf() && t.day == day
                    && t.second == hour * 3600 + minute * 60 + second,
                None => !(hour < 24 && minute < 60 && second < 60),
            },
    {
        if hour < 24 && minute < 60 && second < 60 {
            Some(WorkDateTime { day, second: hour * 3600 + minute * 60 + second })
        } else {
            None
        }
    }
}

/// Saturday or Sunday, counting day 1 as a Monday.
pub open spec fn is_weekend(day: int) -> bool {
    let w = (day - 1) % 7;
    w == 5 || w == 6
}

pub open spec fn max_int(a: int, b: int) -> int {
    if a >= b { a } else { b }
}

pub open spec fn min_int(a: int, b: int) -> int {
    if a <= b { a } else { b }
}

/// Whole working minutes counted on day `d` of the span from `start` to `end`.
pub open spec fn day_minutes(d: int, start: WorkDateTime, end: WorkDateTime, ws: int, we: int) -> int {
    if is_weekend(d) {
        0
    } else {
        let lo = if d == start.day { max_int(start.second as int, ws * 3600) } else { ws * 3600 };
        let hi = if d == end.day { min_int(end.second as int, we * 3600) } else { we * 3600 };
        if hi > lo { (hi - lo) / 60 } else { 0 }
    }
}

/// Working minutes of the days from `d` to `end`'s day, inclusive.
pub open spec fn minutes_from(d: int, start: WorkDateTime, end: WorkDateTime, ws: int, we: int) -> int
    decreases end.day - d + 1,
{
    if d > end.day {
        0
    } else {
        day_minutes(d, start, end, ws, we) + minutes_from(d + 1, start, end, ws, we)
    }
}

/// Working minutes between two instants: weekends skipped, the first and
/// last day clamped to the instants, every other day the full window.
pub open spec fn business_minutes(start: WorkDateTime, end: WorkDateTime, ws: int, we: int) -> int {
    if !start.before(end) {
        0
    } else {
        minutes_from(start.day as int, start, end, ws, we)
    }
}

pub open spec fn valid_work_hours(ws: u32, we: u32) -> bool {
    ws <= 23 && we <= 23 && ws < we
}

proof fn lemma_day_minutes_bounded(d: int, start: WorkDateTime, end: WorkDateTime, ws: int, we: int)
    requires
        start.wf(),
        end.wf(),
        0 <= ws < we <= 23,
    ensures
        0 <= day_minutes(d, start, end, ws, we) <= 1440,
{
}

proof fn lemma_minutes_from_bounded(d: int, start: WorkDateTime, end: WorkDateTime, ws: int, we: int)
    requires
        start.wf(),
        end.wf(),
        0 <= ws < we <= 23,
    ensures
        0 <= minutes_from(d, start, end, ws, we),
        d <= end.day + 1 ==> minutes_from(d, start, end, ws, we) <= (end.day + 1 - d) * 1440,
    decreases end.day - d + 1,
{
    if d <= end.day {
        lemma_day_minutes_bounded(d, start, end, ws, we);
        lemma_minutes_from_bounded(d + 1, start, end, ws, we);
    }
}

/// Working time between `start` and `end` in whole minutes (hours are the
/// minutes over 60), for a work window from `work_start_hour` to
/// `work_end_hour` on Monday to Friday. Fails when either hour is above 23 or
/// the window is empty; zero when `end` is not after `start`.
pub fn business_hours_between(
    start: WorkDateTime,
    end: WorkDateTime,
    work_start_hour: u32,
    work_end_hour: u32,
) -> (r: Result<u64, AppError>)
    requires
        start.wf(),
        end.wf(),
    ensures
        match r {
            Ok(m) => valid_work_hours(work_start_hour, work_end_hour)
                && m == business_minutes(start, end, work_start_hour as int, work_end_hour as int),
            Err(e) => !valid_work_hours(work_start_hour, work_end_hour) && e is Internal,
        },
{
    if work_start_hour > 23 || work_end_hour > 23 {
        return Err(AppError::Internal(String::from_str("Invalid work hours (must be 0-23)")));
    }
    if work_start_hour >= work_end_hour {
        return Err(AppError::Internal(String::from_str("Work start hour must be less than work end hour")));
    }
    if !(start.day < end.day || (start.day == end.day && start.second < end.second)) {
        return Ok(0);
    }
    let ghost ws = work_start_hour as int;
    let ghost we = work_end_hour as int;
    let work_start: u32 = work_start_hour * 3600;
    let work_end: u32 = work_end_hour * 3600;
    let mut total: u64 = 0;
    let mut d: i64 = start.day as i64;
    let last: i64 = end.day as i64;
    proof {
        lemma_minutes_from_bounded(d as int, start, end, ws, we);
    }
    while d <= last
        invariant
            start.wf(),
            end.wf(),
            0 <= ws < we <= 23,
            work_start == ws * 3600,
            work_end == we * 3600,
            last == end.day,
            start.day <= d <= last + 1,
            total + minutes_from(d as int, start, end, ws, we)
                == minutes_from(start.day as int, start, end, ws, we),
            minutes_from(start.day as int, start, end, ws, we) <= (end.day + 1 - start.day) * 1440,
            0 <= minutes_from(d as int, start, end, ws, we),
        decreases last + 1 - d,
    {
        // shifted by a multiple of 7 so that the remainder is taken of a positive number
        let shifted: i64 = d - 1 + 7 * 306783379;
        let w: i64 = shifted % 7;
        proof {
            vstd::arithmetic::div_mod::lemma_mod_multiples_vanish(306783379, d - 1, 7);
            assert(w == (d - 1) % 7);
            lemma_minutes_from_bounded(d as int + 1, start, end, ws, we);
        }
        let mut today: u64 = 0;
        if w != 5 && w != 6 {
            let lo: u32 = if d == start.day as i64 {
                if start.second >= work_start { start.second } else { work_start }
            } else {
                work_start
            };
            let hi: u32 = if d == last {
                if end.second <= work_end { end.second } else { work_end }
            } else {
                work_end
            };
            if hi > lo {
                today = ((hi - lo) / 60) as u64;
            }
        }
        assert(today == day_minutes(d as int, start, end, ws, we));
        total = total + today;
        d = d + 1;
    }
    Ok(total)
}

} // verus!
