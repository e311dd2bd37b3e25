//! Weekly staffing for a single store: quarter-hour times, the requirement
//! grid, events, shifts, and the checks that tie them together.

use vstd::prelude::*;
use crate::day::Day;
use crate::emp::Roster;
use crate::error::SchedError;
use crate::event::{required_shifts, requirements_fit};
use crate::schedule::Schedule;

pub mod chance;
pub mod coverage;
pub mod day;
pub mod emp;
pub mod error;
pub mod event;
pub mod expansion;
pub mod import;
pub mod schedule;
pub mod shift;
pub mod table;
pub mod text;
pub mod time;
pub mod validity;

verus! {

/// The schedule `sched` after every employee whom one of its events requires
/// by name was given the shift that working that event makes. Where one of
/// those shifts would leave the day, the fault is handed back in place of
/// the schedule.
pub fn assign_required_shifts(ros: &Roster, sched: Schedule) -> (r: Result<Schedule, SchedError>)
    ensures
        match r {
            Ok(out) => requirements_fit(sched.event_list()) && (forall|day: Day|
                #[trigger] out.shifts_on(day) == sched.shifts_on(day) + required_shifts(
                    sched.event_list(),
                    day,
                )) && (forall|d: int| 0 <= d < 7 ==> out.row_at(d) == sched.row_at(d))
                && out.event_list() == sched.event_list(),
            Err(e) => !requirements_fit(sched.event_list()) && e == SchedError::TimeRangeError,
        },
{
    let mut sched = sched;
    match sched.assign_required_shifts(ros) {
        Ok(()) => Ok(sched),
        Err(e) => Err(e),
    }
}

} // verus!
