//! Coverage: for each quarter-hour of a day, the staff on shift less the
//! staff that the day's events take up.

use vstd::prelude::*;
use crate::day::Day;
use crate::event::EventView;
use crate::shift::{ShiftView, Span};

verus! {

/// Whether the slot `q` lies within a stretch of the day.
pub open spec fn covers(span: Span, q: int) -> bool {
    span.start <= q < span.end
}

/// The number of shifts in `shifts` that are at work in the slot `q`.
pub open spec fn staff_present(shifts: Seq<ShiftView>, q: int) -> int
    decreases shifts.len(),
{
    if shifts.len() == 0 {
        0
    } else {
        staff_present(shifts.drop_last(), q) + if covers(shifts.last().span(), q) {
            1int
        } else {
            0int
        }
    }
}

/// The staff that an event takes up in the slot `q` of `day`: its headcount
/// while its padded window is open on that day, and nobody otherwise.
pub open spec fn event_draw(ev: EventView, day: Day, q: int) -> int {
    match ev.window() {
        Ok(w) => if ev.day == day && covers(w, q) {
            ev.num_emps
        } else {
            0
        },
        Err(_) => 0,
    }
}

/// The staff that the events in `events` take up in the slot `q` of `day`.
pub open spec fn staff_taken(events: Seq<EventView>, day: Day, q: int) -> int
    decreases events.len(),
{
    if events.len() == 0 {
        0
    } else {
        staff_taken(events.drop_last(), day, q) + event_draw(events.last(), day, q)
    }
}

/// Whether the padded window of every event on `day` lies within the day.
pub open spec fn windows_fit(events: Seq<EventView>, day: Day) -> bool {
    forall|i: int|
        0 <= i < events.len() && (#[trigger] events[i]).day == day ==> events[i].window() is Ok
}

/// The staff free in the slot `q` of `day`: those on shift less those taken
/// up by events.
pub open spec fn free_staff(shifts: Seq<ShiftView>, events: Seq<EventView>, day: Day, q: int) -> int {
    staff_present(shifts, q) - staff_taken(events, day, q)
}

/// Counting the shifts at work in a slot one shift further.
pub proof fn lemma_staff_present_step(shifts: Seq<ShiftView>, i: int, q: int)
    requires
        0 <= i < shifts.len(),
    ensures
        staff_present(shifts.take(i + 1), q) == staff_present(shifts.take(i), q) + if covers(
            shifts[i].span(),
            q,
        ) {
            1int
        } else {
            0int
        },
{
    assert(shifts.take(i + 1).drop_last() =~= shifts.take(i));
}

/// Counting the staff that events take up in a slot one event further.
pub proof fn lemma_staff_taken_step(events: Seq<EventView>, day: Day, i: int, q: int)
    requires
        0 <= i < events.len(),
    ensures
        staff_taken(events.take(i + 1), day, q) == staff_taken(events.take(i), day, q)
            + event_draw(events[i], day, q),
{
    assert(events.take(i + 1).drop_last() =~= events.take(i));
}

} // verus!
