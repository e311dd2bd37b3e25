//! The week's schedule: its events, the staff that each quarter-hour calls
//! for, and the shifts that answer the call.

use vstd::prelude::*;
use crate::chance::random_direction;
use crate::coverage::{
    free_staff, lemma_staff_present_step, lemma_staff_taken_step, staff_present, staff_taken,
    windows_fit,
};
use crate::day::{lemma_day_index_round_trip, Day};
use crate::emp::Roster;
use crate::error::SchedError;
use crate::event::{
    lemma_required_shifts_step, required_shifts, requirements_fit, Event, EventView,
};
use crate::expansion::{
    direction, expand_list, expand_week, lemma_expand_list_fault_stays, lemma_expand_list_step,
    lemma_expand_week_fault_stays, lemma_shifts_of_step, shifts_before, shifts_of,
};
use crate::shift::{expand_span, Shift, ShiftView, Span};
use crate::text::{decimal_text, push_decimal};
use crate::time::{text_12h, Time};
use crate::validity::{
    coverage_findings, hours_findings, hours_fit, lemma_hours_finding_stays,
    lemma_no_coverage_findings, lemma_no_hours_findings, lemma_quarters_fault_kind,
    lemma_quarters_fault_stays, lemma_quarters_in_step, lemma_week_fault_stays, quarters_assigned,
    quarters_in, slot_findings, violation_views, Violation, ViolationView,
};

verus! {

/// Staff asked for in the quarter-hour before opening and in the three after closing.
pub const EDGE_STAFF: u32 = 3;

/// Staff asked for while the store is open.
pub const OPEN_STAFF: u32 = 4;

/// What a list of events says.
pub open spec fn event_views(v: Seq<Event>) -> Seq<EventView> {
    Seq::new(v.len(), |i: int| v[i]@)
}

/// What a list of shifts says.
pub open spec fn shift_views(v: Seq<Shift>) -> Seq<ShiftView> {
    Seq::new(v.len(), |i: int| v[i]@)
}

/// A day's requirements once the store's hours are written over `row`: 4
/// from the opening slot through the closing slot, 3 in the slot before
/// opening and in the three slots after closing, and elsewhere what `row`
/// held. Where these overlap, the slots after closing win over the open
/// hours, and the open hours over the slot before opening.
pub open spec fn row_with_hours(row: Seq<u32>, open: int, close: int) -> Seq<u32> {
    Seq::new(
        96,
        |q: int|
            if close < q <= close + 3 {
                3u32
            } else if open <= q <= close {
                4u32
            } else if q == open - 1 {
                3u32
            } else {
                row[q]
            },
    )
}

/// The shifts of `list`, each over the stretch that `spans` gives it.
pub open spec fn restaged(list: Seq<ShiftView>, spans: Seq<(Time, Time)>) -> Seq<ShiftView> {
    Seq::new(
        list.len(),
        |i: int| ShiftView { emp_id: list[i].emp_id, start: spans[i].0@, end: spans[i].1@ },
    )
}

/// A day's shifts in words, each on a new line.
pub open spec fn shifts_text(list: Seq<ShiftView>) -> Seq<char>
    decreases list.len(),
{
    if list.len() == 0 {
        Seq::empty()
    } else {
        shifts_text(list.drop_last()) + "\n"@ + list.last().text()
    }
}

/// The shifts of the first `days` days of the week in words: for each day
/// its name, a rule, and its shifts, with an empty line between days.
pub open spec fn week_text(lists: Seq<Seq<ShiftView>>, days: nat) -> Seq<char>
    decreases days,
{
    if days == 0 {
        Seq::empty()
    } else {
        week_text(lists, (days - 1) as nat) + "\n"@ + Day::at((days - 1) as nat).unwrap().name()
            + "\n========="@ + shifts_text(lists[days - 1]) + if days != 7 {
            "\n"@
        } else {
            Seq::empty()
        }
    }
}

/// The first `n` quarter-hours of a day that ask for staff, one to a line:
/// the time on the 12-hour clock, then the staff asked for.
pub open spec fn row_text(row: Seq<u32>, n: nat) -> Seq<char>
    decreases n,
{
    if n == 0 {
        Seq::empty()
    } else {
        row_text(row, (n - 1) as nat) + if row[n - 1] > 0 {
            text_12h((n - 1) as nat) + " - "@ + decimal_text(row[n - 1] as nat) + "\n"@
        } else {
            Seq::empty()
        }
    }
}

/// The requirements of the first `days` days of the week in words: for each
/// day an empty line, its name, and its quarter-hours that ask for staff.
pub open spec fn grid_text(rows: Seq<Seq<u32>>, days: nat) -> Seq<char>
    decreases days,
{
    if days == 0 {
        Seq::empty()
    } else {
        grid_text(rows, (days - 1) as nat) + "\n"@ + Day::at((days - 1) as nat).unwrap().name()
            + "\n"@ + row_text(rows[days - 1], 96)
    }
}

/// A list of events in words, one to a line.
pub open spec fn events_text(events: Seq<EventView>) -> Seq<char>
    decreases events.len(),
{
    if events.len() == 0 {
        Seq::empty()
    } else {
        events_text(events.drop_last()) + events.last().text() + "\n"@
    }
}

/// A full week's schedule, with its events and shifts.
#[derive(Debug)]
pub struct Schedule {
    pub events: Vec<Event>,
    raw_reqs: [[u32; 96]; 7],
    shifts: [Vec<Shift>; 7],
}

impl Schedule {
    /// The events of the week, in the order in which they were added.
    pub closed spec fn event_list(&self) -> Seq<EventView> {
        event_views(self.events@)
    }

    /// The staff asked for in each quarter-hour of the day at place `d` of the week.
    pub closed spec fn row_at(&self, d: int) -> Seq<u32> {
        self.raw_reqs@[d]@
    }

    /// The shifts of the day at place `d` of the week, in the order in which
    /// they were assigned.
    pub closed spec fn shifts_at(&self, d: int) -> Seq<ShiftView> {
        shift_views(self.shifts@[d]@)
    }

    /// The staff asked for in each quarter-hour of `day`.
    pub open spec fn row(&self, day: Day) -> Seq<u32> {
        self.row_at(day.index() as int)
    }

    /// The shifts of `day`.
    pub open spec fn shifts_on(&self, day: Day) -> Seq<ShiftView> {
        self.shifts_at(day.index() as int)
    }

    /// The shifts of the week, day by day.
    pub open spec fn shift_lists(&self) -> Seq<Seq<ShiftView>> {
        Seq::new(7, |d: int| self.shifts_at(d))
    }

    /// The staff asked for in each quarter-hour of the week, day by day.
    pub open spec fn rows(&self) -> Seq<Seq<u32>> {
        Seq::new(7, |d: int| self.row_at(d))
    }

    /// Whether the padded window of every event lies within its day.
    pub open spec fn all_windows_fit(&self) -> bool {
        forall|day: Day| #[trigger] windows_fit(self.event_list(), day)
    }

    /// Whether every quarter-hour of the week has at least the staff free
    /// that it asks for.
    pub open spec fn adequately_covered(&self) -> bool {
        forall|day: Day, q: int|
            0 <= q < 96 ==> #[trigger] self.coverage_at(day, q) >= self.row(day)[q]
    }

    /// Whether the hours of every employee on the roster can be summed: none
    /// of them has a shift that ends before it starts.
    pub open spec fn hours_countable(&self, ros: &Roster) -> bool {
        forall|i: int|
            0 <= i < ros.ids().len() ==> quarters_assigned(
                self.shift_lists(),
                #[trigger] ros.ids()[i],
                7,
            ) is Ok
    }

    /// Whether every employee on the roster has been given hours within
    /// their range.
    pub open spec fn hours_in_range(&self, ros: &Roster) -> bool {
        forall|i: int|
            0 <= i < ros.ids().len() ==> (quarters_assigned(
                self.shift_lists(),
                #[trigger] ros.ids()[i],
                7,
            ) matches Ok(t) ==> hours_fit(t, ros.members()[i].hours_range()))
    }

    /// Whether `after` and `r` are what stretching the shifts of the employee
    /// `id` makes of this schedule, with `directions` saying of each of the
    /// employee's shifts in turn whether it is stretched forward first: on
    /// success the shifts of the week as stretched, on a fault that fault and
    /// the shifts as they were; the events and the requirements as they were.
    pub open spec fn stretched_to(
        &self,
        after: &Schedule,
        id: Seq<char>,
        directions: Seq<bool>,
        r: Result<(), SchedError>,
    ) -> bool {
        &&& match expand_week(self.rows(), self.shift_lists(), id, directions, 7) {
            Ok(lists) => r is Ok && (forall|d: int|
                0 <= d < 7 ==> #[trigger] after.shifts_at(d) == lists[d]),
            Err(e) => r == Err::<(), SchedError>(e) && (forall|d: int|
                0 <= d < 7 ==> #[trigger] after.shifts_at(d) == self.shifts_at(d)),
        }
        &&& forall|d: int| 0 <= d < 7 ==> #[trigger] after.row_at(d) == self.row_at(d)
        &&& after.event_list() == self.event_list()
    }

    /// The ways in which the schedule falls short of the rules: first the
    /// employees of the roster whose hours lie outside their range, in the
    /// order of the roster; then the quarter-hours with too few staff free,
    /// day by day.
    pub open spec fn findings(&self, ros: &Roster) -> Seq<ViolationView> {
        hours_findings(self.shift_lists(), ros.ids(), ros.ranges(), ros.ids().len())
            + coverage_findings(self.shift_lists(), self.event_list(), self.rows(), 7)
    }

    /// A schedule without events or shifts, which asks for no staff.
    pub fn new() -> (s: Schedule)
        ensures
            s.event_list() == Seq::<EventView>::empty(),
            forall|d: int| 0 <= d < 7 ==> #[trigger] s.row_at(d) == Seq::new(96, |q: int| 0u32),
            forall|d: int| 0 <= d < 7 ==> #[trigger] s.shifts_at(d) == Seq::<ShiftView>::empty(),
    {
        let s = Schedule {
            events: Vec::new(),
            raw_reqs: [[0;96];7],
            shifts: [
                Vec::new(),
                Vec::new(),
                Vec::new(),
                Vec::new(),
                Vec::new(),
                Vec::new(),
                Vec::new(),
            ],
        };
        assert(s.event_list() =~= Seq::<EventView>::empty());
        assert forall|d: int| 0 <= d < 7 implies #[trigger] s.row_at(d) == Seq::new(
            96,
            |q: int| 0u32,
        ) by {
            assert(s.row_at(d) =~= Seq::new(96, |q: int| 0u32));
        }
        assert forall|d: int| 0 <= d < 7 implies #[trigger] s.shifts_at(d) == Seq::<
            ShiftView,
        >::empty() by {
            assert(s.shifts_at(d) =~= Seq::<ShiftView>::empty());
        }
        s
    }

    /// The events of the week.
    pub fn get_events(&self) -> (evs: &Vec<Event>)
        ensures
            event_views(evs@) == self.event_list(),
    {
        &self.events
    }

    /// The staff asked for in each quarter-hour of `day`.
    pub fn reqs(&self, day: Day) -> (row: &[u32; 96])
        ensures
            row@ == self.row(day),
    {
        &self.raw_reqs[day.to_index()]
    }

    /// The shifts of `day`.
    pub fn shifts(&self, day: Day) -> (list: &Vec<Shift>)
        ensures
            shift_views(list@) == self.shifts_on(day),
    {
        &self.shifts[day.to_index()]
    }

    /// Adds an event to the week and hands it back for further changes.
    pub fn add_event(&mut self, name: &str, kind: &str, day: Day, start: Time, end: Time) -> (ev:
        &mut Event)
        requires
            start@ < end@,
        ensures
            ev@ == (EventView {
                name: name@,
                req_emp_ids: Seq::<Seq<char>>::empty(),
                day,
                start: start@,
                end: end@,
                num_emps: 1,
                kind: kind@,
                setup: 2,
                breakdown: 8,
            }),
            final(self).event_list() == old(self).event_list().push(final(ev)@),
            forall|d: int| 0 <= d < 7 ==> final(self).row_at(d) == old(self).row_at(d),
            forall|d: int| 0 <= d < 7 ==> final(self).shifts_at(d) == old(self).shifts_at(d),
    {
        let ev = Event::new(String::from_str(name), day, start, end, String::from_str(kind));
        self.events.push(ev);
        let li: usize = self.events.len() - 1;
        &mut self.events[li]
    }

    /// Assigns the employee `emp_id` a shift on `day`, as given.
    pub fn assign_shift(&mut self, emp_id: String, day: Day, start: Time, end: Time)
        ensures
            final(self).shifts_on(day) == old(self).shifts_on(day).push(
                ShiftView { emp_id: emp_id@, start: start@, end: end@ },
            ),
            forall|d: int|
                0 <= d < 7 && d != day.index() ==> final(self).shifts_at(d) == old(self).shifts_at(
                    d,
                ),
            forall|d: int| 0 <= d < 7 ==> final(self).row_at(d) == old(self).row_at(d),
            final(self).event_list() == old(self).event_list(),
    {
        let sh = Shift { emp_id, start, end };
        let d: usize = day.to_index();
        self.shifts[d].push(sh);
        assert(self.shifts_at(d as int) =~= old(self).shifts_at(d as int).push(sh@));
    }

    /// Assigns the employee `emp_id` the shift that working `event` makes:
    /// the event's stretch with its setup before and its breakdown after.
    /// Where that shift would leave the day, nothing is assigned.
    pub fn assign_event(&mut self, emp_id: String, event: Event) -> (r: Result<(), SchedError>)
        ensures
            match event@.shift_for(emp_id@) {
                Ok(sh) => r is Ok && final(self).shifts_on(event@.day) == old(self).shifts_on(
                    event@.day,
                ).push(sh) && (forall|d: int|
                    0 <= d < 7 && d != event@.day.index() ==> final(self).shifts_at(d) == old(self).shifts_at(d)),
                Err(e) => r == Err::<(), SchedError>(e) && (forall|d: int|
                    0 <= d < 7 ==> final(self).shifts_at(d) == old(self).shifts_at(d)),
            },
            forall|d: int| 0 <= d < 7 ==> final(self).row_at(d) == old(self).row_at(d),
            final(self).event_list() == old(self).event_list(),
    {
        let start: usize = event.start.get_qi();
        let setup: usize = event.setup.get_qi();
        if start < setup {
            return Err(SchedError::TimeRangeError);
        }
        let start = Time::from_qi(start - setup).unwrap();
        let end = match Time::from_qi(event.end.get_qi() + event.breakdown.get_qi()) {
            Ok(t) => t,
            Err(_) => {
                return Err(SchedError::TimeRangeError);
            },
        };
        self.assign_shift(emp_id, event.day, start, end);
        Ok(())
    }

    /// Sets the hours at which the store opens and closes on `day`, and with
    /// them the staff that the day asks for. Hours past the end of the day
    /// are out of range; opening at midnight leaves no slot before opening,
    /// which is a fault of the grid. On either, nothing changes.
    pub fn set_hours(&mut self, day: Day, start: usize, end: usize) -> (r: Result<(), SchedError>)
        ensures
            start >= 24 || end >= 24 ==> r == Err::<(), SchedError>(SchedError::OutOfRange),
            start == 0 && end < 24 ==> r == Err::<(), SchedError>(SchedError::GridBoundsError),
            0 < start < 24 && end < 24 ==> r is Ok,
            r is Ok ==> final(self).row(day) == row_with_hours(
                old(self).row(day),
                start * 4,
                end * 4,
            ),
            r is Err ==> final(self).row(day) == old(self).row(day),
            forall|d: int|
                0 <= d < 7 && d != day.index() ==> final(self).row_at(d) == old(self).row_at(d),
            forall|d: int| 0 <= d < 7 ==> final(self).shifts_at(d) == old(self).shifts_at(d),
            final(self).event_list() == old(self).event_list(),
    {
        let open: usize = match Time::from_hour(start) {
            Ok(t) => t.get_qi(),
            Err(e) => {
                return Err(e);
            },
        };
        let close: usize = match Time::from_hour(end) {
            Ok(t) => t.get_qi(),
            Err(e) => {
                return Err(e);
            },
        };
        if open == 0 {
            return Err(SchedError::GridBoundsError);
        }
        let d: usize = day.to_index();
        let ghost before = self.raw_reqs@[d as int]@;
        self.raw_reqs[d][open - 1] = EDGE_STAFF;
        let mut qi: usize = open;
        while qi <= close
            invariant
                d < 7,
                0 < open <= qi,
                close < 93,
                open <= close ==> qi <= close + 1,
                open > close ==> qi == open,
                before.len() == 96,
                forall|e: int| 0 <= e < 7 && e != d ==> self.raw_reqs@[e] == old(self).raw_reqs@[e],
                self.shifts == old(self).shifts,
                self.events == old(self).events,
                forall|q: int|
                    0 <= q < 96 ==> self.raw_reqs@[d as int]@[q] == if open <= q < qi {
                        4u32
                    } else if q == open - 1 {
                        3u32
                    } else {
                        before[q]
                    },
            decreases close + 1 - qi,
        {
            self.raw_reqs[d][qi] = OPEN_STAFF;
            qi = qi + 1;
        }
        let mut qi: usize = close + 1;
        while qi <= close + 3
            invariant
                d < 7,
                0 < open,
                close < 93,
                close + 1 <= qi <= close + 4,
                before.len() == 96,
                forall|e: int| 0 <= e < 7 && e != d ==> self.raw_reqs@[e] == old(self).raw_reqs@[e],
                self.shifts == old(self).shifts,
                self.events == old(self).events,
                forall|q: int|
                    0 <= q < 96 ==> self.raw_reqs@[d as int]@[q] == if close < q < qi {
                        3u32
                    } else if open <= q <= close {
                        4u32
                    } else if q == open - 1 {
                        3u32
                    } else {
                        before[q]
                    },
            decreases close + 4 - qi,
        {
            self.raw_reqs[d][qi] = EDGE_STAFF;
            qi = qi + 1;
        }
        assert(self.row(day) =~= row_with_hours(old(self).row(day), start * 4, end * 4));
        Ok(())
    }

    /// The staff free in the slot `q` of `day`.
    pub open spec fn coverage_at(&self, day: Day, q: int) -> int {
        free_staff(self.shifts_on(day), self.event_list(), day, q)
    }

    /// The staff free in each quarter-hour of `day`: one for every shift at
    /// work in it, less the headcount of every event of the day whose padded
    /// window is open in it. An event of the day whose padded window leaves
    /// the day is a fault.
    pub fn coverage(&self, day: Day) -> (r: Result<[i128; 96], SchedError>)
        ensures
            match r {
                Ok(cov) => windows_fit(self.event_list(), day) && forall|q: int|
                    0 <= q < 96 ==> #[trigger] cov@[q] == self.coverage_at(day, q),
                Err(e) => !windows_fit(self.event_list(), day) && e == SchedError::TimeRangeError,
            },
    {
        let d: usize = day.to_index();
        let mut out: [i128; 96] = [0;96];
        let list = &self.shifts[d];
        let ghost shifts = shift_views(list@);
        let n: usize = list.len();
        let mut i: usize = 0;
        while i < n
            invariant
                i <= n == list@.len(),
                shifts == shift_views(list@),
                forall|q: int|
                    0 <= q < 96 ==> #[trigger] out@[q] == staff_present(shifts.take(i as int), q),
                forall|q: int| 0 <= q < 96 ==> 0 <= #[trigger] out@[q] <= i,
            decreases n - i,
        {
            let s: usize = list[i].start.get_qi();
            let e: usize = list[i].end.get_qi();
            let ghost base = out@;
            let mut index: usize = s;
            while index < e
                invariant
                    s <= index,
                    e < 96,
                    s <= e ==> index <= e,
                    s > e ==> index == s,
                    i < n,
                    base.len() == 96,
                    forall|q: int| 0 <= q < 96 ==> 0 <= #[trigger] base[q] <= i,
                    forall|q: int|
                        0 <= q < 96 ==> #[trigger] out@[q] == base[q] + if s <= q < index {
                            1int
                        } else {
                            0int
                        },
                decreases e - index,
            {
                out[index] = out[index] + 1;
                index = index + 1;
            }
            proof {
                assert forall|q: int| 0 <= q < 96 implies #[trigger] out@[q] == staff_present(
                    shifts.take(i + 1),
                    q,
                ) by {
                    lemma_staff_present_step(shifts, i as int, q);
                }
            }
            i = i + 1;
        }
        assert(shifts.take(n as int) =~= shifts);
        assert forall|q: int| 0 <= q < 96 implies 0 <= #[trigger] staff_present(shifts, q) <= n by {
            assert(out@[q] == staff_present(shifts, q));
        }
        let ghost events = self.event_list();
        let m: usize = self.events.len();
        let mut j: usize = 0;
        while j < m
            invariant
                j <= m == self.events@.len(),
                events == event_views(self.events@),
                forall|k: int|
                    0 <= k < j && (#[trigger] events[k]).day == day ==> events[k].window() is Ok,
                forall|q: int|
                    0 <= q < 96 ==> #[trigger] out@[q] == staff_present(shifts, q) - staff_taken(
                        events.take(j as int),
                        day,
                        q,
                    ),
                forall|q: int| 0 <= q < 96 ==> 0 <= #[trigger] staff_present(shifts, q) <= n,
                forall|q: int|
                    0 <= q < 96 ==> -(j * 0x8000_0000) <= #[trigger] staff_taken(
                        events.take(j as int),
                        day,
                        q,
                    ) <= j * 0x8000_0000,
            decreases m - j,
        {
            let ev = &self.events[j];
            assert(events[j as int] == ev@);
            if ev.day == day {
                let start: usize = ev.start.get_qi();
                let setup: usize = ev.setup.get_qi();
                let e: usize = ev.end.get_qi() + ev.breakdown.get_qi();
                if start < setup || e > 96 {
                    return Err(SchedError::TimeRangeError);
                }
                let s: usize = start - setup;
                let heads: i128 = ev.num_emps as i128;
                let ghost base = out@;
                let mut index: usize = s;
                while index < e
                    invariant
                        s <= index,
                        e <= 96,
                        s <= e ==> index <= e,
                        s > e ==> index == s,
                        j < m,
                        n <= usize::MAX,
                        -0x8000_0000 <= heads < 0x8000_0000,
                        base.len() == 96,
                        forall|q: int|
                            0 <= q < 96 ==> -(j * 0x8000_0000) <= #[trigger] base[q] <= n + j
                                * 0x8000_0000,
                        forall|q: int|
                            0 <= q < 96 ==> #[trigger] out@[q] == base[q] - if s <= q < index {
                                heads as int
                            } else {
                                0int
                            },
                    decreases e - index,
                {
                    out[index] = out[index] - heads;
                    index = index + 1;
                }
            }
            proof {
                assert forall|q: int| 0 <= q < 96 implies #[trigger] out@[q] == staff_present(
                    shifts,
                    q,
                ) - staff_taken(events.take(j + 1), day, q) by {
                    lemma_staff_taken_step(events, day, j as int, q);
                }
                assert forall|q: int| 0 <= q < 96 implies -((j + 1) * 0x8000_0000)
                    <= #[trigger] staff_taken(events.take(j + 1), day, q) <= (j + 1)
                    * 0x8000_0000 by {
                    lemma_staff_taken_step(events, day, j as int, q);
                }
            }
            j = j + 1;
        }
        assert(events.take(m as int) =~= events);
        Ok(out)
    }

    /// The quarter-hours that the week's shifts give the employee `id`.
    pub fn hours_assigned(&self, id: &str) -> (r: Result<u128, SchedError>)
        ensures
            match r {
                Ok(t) => quarters_assigned(self.shift_lists(), id@, 7) == Ok::<nat, SchedError>(
                    t as nat,
                ),
                Err(e) => quarters_assigned(self.shift_lists(), id@, 7) == Err::<nat, SchedError>(
                    e,
                ),
            },
    {
        let wanted = id.to_owned();
        let ghost lists = self.shift_lists();
        let mut total: u128 = 0;
        let mut d: usize = 0;
        while d < 7
            invariant
                d <= 7,
                wanted@ == id@,
                lists == self.shift_lists(),
                quarters_assigned(lists, id@, d as nat) == Ok::<nat, SchedError>(total as nat),
                total <= 96 * (d * 0x1_0000_0000_0000_0000),
            decreases 7 - d,
        {
            let list = &self.shifts[d];
            let ghost shifts = shift_views(list@);
            assert(shifts == lists[d as int]);
            let n: usize = list.len();
            let mut day_total: u128 = 0;
            let mut i: usize = 0;
            while i < n
                invariant
                    i <= n == list@.len(),
                    d < 7,
                    wanted@ == id@,
                    lists == self.shift_lists(),
                    shifts == shift_views(list@),
                    shifts == lists[d as int],
                    quarters_assigned(lists, id@, d as nat) is Ok,
                    quarters_in(shifts.take(i as int), id@) == Ok::<nat, SchedError>(
                        day_total as nat,
                    ),
                    day_total <= 96 * i,
                decreases n - i,
            {
                proof {
                    lemma_quarters_in_step(shifts, id@, i as int);
                }
                if list[i].emp_id == wanted {
                    match list[i].len() {
                        Ok(len) => {
                            day_total = day_total + len as u128;
                        },
                        Err(e) => {
                            proof {
                                lemma_quarters_fault_stays(shifts, id@, i as int + 1);
                                lemma_week_fault_stays(lists, id@, d as nat + 1, 7);
                            }
                            return Err(e);
                        },
                    }
                }
                i = i + 1;
            }
            assert(shifts.take(n as int) =~= shifts);
            total = total + day_total;
            d = d + 1;
        }
        Ok(total)
    }

    /// Whether the hours given to the employee `id` lie within the range
    /// that the roster holds for them.
    pub fn hours_assigned_valid(&self, id: &str, ros: &Roster) -> (r: Result<bool, SchedError>)
        ensures
            r == match quarters_assigned(self.shift_lists(), id@, 7) {
                Err(e) => Err::<bool, SchedError>(e),
                Ok(t) => match ros.member(id@) {
                    None => Err(SchedError::UnknownEmployee),
                    Some(emp) => Ok(hours_fit(t, emp.hours_range())),
                },
            },
    {
        let total: u128 = match self.hours_assigned(id) {
            Ok(t) => t,
            Err(e) => {
                return Err(e);
            },
        };
        let em = match ros.get(id.to_owned()) {
            Ok(em) => em,
            Err(e) => {
                return Err(e);
            },
        };
        let min: u128 = em.get_hours().min() as u128 * 4;
        let max: u128 = em.get_hours().max() as u128 * 4;
        Ok(min <= total && total <= max)
    }

    /// Whether every shift has an acceptable length. No rule on the length
    /// of a single shift is in force, so every schedule passes.
    pub fn all_shifts_okay_length(&self, _ros: &Roster) -> (ok: bool)
        ensures
            ok,
    {
        true
    }

    /// Whether every quarter-hour of the week has at least the staff free
    /// that it asks for. An event whose padded window leaves its day is a
    /// fault.
    pub fn adequate_coverage(&self) -> (r: Result<bool, SchedError>)
        ensures
            match r {
                Ok(b) => self.all_windows_fit() && b == self.adequately_covered(),
                Err(e) => !self.all_windows_fit() && e == SchedError::TimeRangeError,
            },
    {
        let mut adequate: bool = true;
        let mut i: usize = 0;
        while i < 7
            invariant
                i <= 7,
                forall|day: Day| day.index() < i ==> #[trigger] windows_fit(self.event_list(), day),
                adequate == (forall|day: Day, q: int|
                    day.index() < i && 0 <= q < 96 ==> #[trigger] self.coverage_at(day, q)
                        >= self.row(day)[q]),
            decreases 7 - i,
        {
            let today = Day::from_index(i).unwrap();
            let cov = match self.coverage(today) {
                Ok(cov) => cov,
                Err(e) => {
                    return Err(e);
                },
            };
            let row = &self.raw_reqs[i];
            let ghost before = adequate;
            let mut j: usize = 0;
            while j < 96
                invariant
                    j <= 96,
                    i < 7,
                    today.index() == i,
                    row@ == self.row(today),
                    forall|q: int| 0 <= q < 96 ==> #[trigger] cov@[q] == self.coverage_at(today, q),
                    adequate == (before && forall|q: int|
                        0 <= q < j ==> #[trigger] self.coverage_at(today, q) >= self.row(today)[q]),
                decreases 96 - j,
            {
                assert(cov@[j as int] == self.coverage_at(today, j as int));
                if cov[j] < row[j] as i128 {
                    adequate = false;
                }
                j = j + 1;
            }
            proof {
                assert forall|day: Day| day.index() < i + 1 implies #[trigger] windows_fit(
                    self.event_list(),
                    day,
                ) by {
                    lemma_day_index_round_trip(day);
                }
                let ghost now = forall|day: Day, q: int|
                    day.index() < i + 1 && 0 <= q < 96 ==> #[trigger] self.coverage_at(day, q)
                        >= self.row(day)[q];
                if adequate {
                    assert forall|day: Day, q: int|
                        day.index() < i + 1 && 0 <= q < 96 implies #[trigger] self.coverage_at(
                        day,
                        q,
                    ) >= self.row(day)[q] by {
                        lemma_day_index_round_trip(day);
                    }
                } else if before {
                    let q = choose|q: int|
                        0 <= q < 96 && !(#[trigger] self.coverage_at(today, q) >= self.row(
                            today,
                        )[q]);
                    assert(!(self.coverage_at(today, q) >= self.row(today)[q]));
                    assert(!now);
                } else {
                    assert(!now);
                }
            }
            i = i + 1;
        }
        proof {
            assert forall|day: Day| #[trigger] windows_fit(self.event_list(), day) by {
                lemma_day_index_round_trip(day);
            }
            if adequate {
                assert forall|day: Day, q: int| 0 <= q < 96 implies #[trigger] self.coverage_at(
                    day,
                    q,
                ) >= self.row(day)[q] by {
                    lemma_day_index_round_trip(day);
                }
            }
        }
        Ok(adequate)
    }

    /// Whether the schedule holds: every employee on the roster has hours
    /// within their range, and every quarter-hour has the staff it asks for.
    /// A shift of a rostered employee that ends before it starts, and an
    /// event whose padded window leaves its day, are faults.
    pub fn is_valid(&self, ros: &Roster) -> (r: Result<bool, SchedError>)
        ensures
            match r {
                Ok(b) => self.hours_countable(ros) && self.all_windows_fit() && b == (
                self.hours_in_range(ros) && self.adequately_covered()),
                Err(e) => !(self.hours_countable(ros) && self.all_windows_fit()) && e
                    == SchedError::TimeRangeError,
            },
    {
        let mut valid: bool = true;
        let entries = ros.iter();
        let n: usize = entries.len();
        let ghost lists = self.shift_lists();
        let mut i: usize = 0;
        while i < n
            invariant
                i <= n == entries@.len(),
                n == ros.ids().len(),
                n == ros.members().len(),
                ros.ids().no_duplicates(),
                lists == self.shift_lists(),
                forall|k: int|
                    0 <= k < n ==> (#[trigger] entries@[k]).0@ == ros.ids()[k] && *entries@[k].1
                        == ros.members()[k],
                forall|k: int|
                    0 <= k < i ==> quarters_assigned(lists, #[trigger] ros.ids()[k], 7) is Ok,
                valid == (forall|k: int|
                    0 <= k < i ==> (quarters_assigned(lists, #[trigger] ros.ids()[k], 7) matches Ok(
                        t,
                    ) ==> hours_fit(t, ros.members()[k].hours_range()))),
            decreases n - i,
        {
            let id: &String = entries[i].0;
            assert(id@ == ros.ids()[i as int]);
            proof {
                assert(ros.ids().contains(id@));
                assert(ros.ids().index_of(id@) == i);
                lemma_quarters_fault_kind(lists, id@, 7);
            }
            match self.hours_assigned_valid(id.as_str(), ros) {
                Ok(ok) => {
                    if !ok {
                        valid = false;
                    }
                },
                Err(e) => {
                    return Err(e);
                },
            }
            i = i + 1;
        }
        if !self.all_shifts_okay_length(ros) {
            valid = false;
        }
        match self.adequate_coverage() {
            Ok(ok) => {
                if !ok {
                    valid = false;
                }
            },
            Err(e) => {
                return Err(e);
            },
        }
        Ok(valid)
    }

    /// Gives every employee whom an event requires by name the shift that
    /// working that event makes, event by event and name by name. Where one
    /// of those shifts would leave the day, no shift is assigned at all. The
    /// roster is not asked whether it knows the names.
    pub fn assign_required_shifts(&mut self, _ros: &Roster) -> (r: Result<(), SchedError>)
        ensures
            match r {
                Ok(()) => requirements_fit(old(self).event_list()) && (forall|day: Day|
                    #[trigger] final(self).shifts_on(day) == old(self).shifts_on(day)
                        + required_shifts(old(self).event_list(), day)),
                Err(e) => !requirements_fit(old(self).event_list()) && e
                    == SchedError::TimeRangeError && (forall|d: int|
                    0 <= d < 7 ==> final(self).shifts_at(d) == old(self).shifts_at(d)),
            },
            forall|d: int| 0 <= d < 7 ==> final(self).row_at(d) == old(self).row_at(d),
            final(self).event_list() == old(self).event_list(),
    {
        let ghost events = self.event_list();
        let m: usize = self.events.len();
        let mut i: usize = 0;
        while i < m
            invariant
                i <= m == self.events@.len(),
                events == event_views(self.events@),
                forall|k: int|
                    0 <= k < i && (#[trigger] events[k]).req_emp_ids.len() > 0
                        ==> events[k].padded() is Ok,
            decreases m - i,
        {
            let ev = &self.events[i];
            assert(events[i as int] == ev@);
            if ev.has_reqs() {
                if ev.start.get_qi() < ev.setup.get_qi() || ev.end.get_qi()
                    + ev.breakdown.get_qi() >= 96 {
                    return Err(SchedError::TimeRangeError);
                }
            }
            i = i + 1;
        }
        let mut i: usize = 0;
        while i < m
            invariant
                i <= m == self.events@.len(),
                self.events == old(self).events,
                self.raw_reqs == old(self).raw_reqs,
                events == event_views(self.events@),
                requirements_fit(events),
                forall|day: Day|
                    #[trigger] self.shifts_on(day) == old(self).shifts_on(day) + required_shifts(
                        events.take(i as int),
                        day,
                    ),
            decreases m - i,
        {
            let ghost ev = events[i as int];
            assert(ev == self.events@[i as int]@);
            let ghost before = self.shifts@;
            proof {
                assert forall|day: Day|
                    shift_views(#[trigger] before[day.index() as int]@) == old(self).shifts_on(day)
                        + required_shifts(events.take(i as int), day) by {
                    assert(self.shifts_on(day) == old(self).shifts_on(day) + required_shifts(
                        events.take(i as int),
                        day,
                    ));
                }
            }
            if self.events[i].has_reqs() {
                let d: usize = self.events[i].day.to_index();
                let start = Time::from_qi(
                    self.events[i].start.get_qi() - self.events[i].setup.get_qi(),
                ).unwrap();
                let end = Time::from_qi(
                    self.events[i].end.get_qi() + self.events[i].breakdown.get_qi(),
                ).unwrap();
                let n: usize = self.events[i].req_emp_ids.len();
                let mut k: usize = 0;
                while k < n
                    invariant
                        i < m == self.events@.len(),
                        d < 7,
                        d == ev.day.index(),
                        before.len() == 7,
                        self.events == old(self).events,
                        self.raw_reqs == old(self).raw_reqs,
                        events == event_views(self.events@),
                        ev == events[i as int],
                        ev.padded() == Ok::<Span, SchedError>(Span { start: start@, end: end@ }),
                        k <= n == self.events@[i as int].req_emp_ids@.len(),
                        forall|e: int| 0 <= e < 7 && e != d ==> self.shifts@[e] == before[e],
                        shift_views(self.shifts@[d as int]@) == shift_views(before[d as int]@)
                            + ev.required_shifts().take(k as int),
                    decreases n - k,
                {
                    let emp_id = self.events[i].req_emp_ids[k].clone();
                    let sh = Shift { emp_id, start, end };
                    let ghost wanted = ev.required_shifts();
                    let ghost prev = self.shifts@[d as int]@;
                    assert(ev.req_emp_ids.len() == n);
                    assert(ev.req_emp_ids[k as int] == emp_id@);
                    assert(wanted.len() == n);
                    assert(wanted[k as int] == sh@);
                    self.shifts[d].push(sh);
                    assert(self.shifts@[d as int]@ == prev.push(sh));
                    assert(shift_views(prev.push(sh)) =~= shift_views(prev).push(sh@));
                    assert(wanted.take(k + 1) =~= wanted.take(k as int).push(sh@));
                    assert(shift_views(self.shifts@[d as int]@) =~= shift_views(before[d as int]@)
                        + ev.required_shifts().take(k + 1));
                    k = k + 1;
                }
                assert(ev.required_shifts().take(n as int) =~= ev.required_shifts());
            }
            proof {
                assert forall|day: Day| #[trigger]
                    self.shifts_on(day) == old(self).shifts_on(day) + required_shifts(
                        events.take(i + 1),
                        day,
                    ) by {
                    lemma_required_shifts_step(events, day, i as int);
                    lemma_day_index_round_trip(day);
                    lemma_day_index_round_trip(ev.day);
                    assert(shift_views(before[day.index() as int]@) == old(self).shifts_on(day)
                        + required_shifts(events.take(i as int), day));
                    if ev.req_emp_ids.len() == 0 {
                        assert(ev.required_shifts() =~= Seq::<ShiftView>::empty());
                    }
                    assert(self.shifts_on(day) =~= old(self).shifts_on(day) + required_shifts(
                        events.take(i + 1),
                        day,
                    ));
                }
            }
            i = i + 1;
        }
        assert(events.take(m as int) =~= events);
        Ok(())
    }

    /// Works out, without changing a shift, the stretch that each shift of
    /// the week has once those of the employee `emp_id` were stretched.
    fn stage_expansion(&self, emp_id: &str, directions: &Vec<bool>) -> (r: Result<
        Vec<Vec<(Time, Time)>>,
        SchedError,
    >)
        ensures
            match r {
                Ok(staged) => staged@.len() == 7 && (forall|d: int|
                    0 <= d < 7 ==> (#[trigger] staged@[d])@.len() == self.shifts_at(d).len())
                    && expand_week(self.rows(), self.shift_lists(), emp_id@, directions@, 7) == Ok::<
                    Seq<Seq<ShiftView>>,
                    SchedError,
                >(Seq::new(7, |d: int| restaged(self.shifts_at(d), staged@[d]@))),
                Err(e) => expand_week(self.rows(), self.shift_lists(), emp_id@, directions@, 7)
                    == Err::<Seq<Seq<ShiftView>>, SchedError>(e),
            },
    {
        let wanted = emp_id.to_owned();
        let ghost id = emp_id@;
        let ghost rows = self.rows();
        let ghost lists = self.shift_lists();
        let mut staged: Vec<Vec<(Time, Time)>> = Vec::new();
        let mut used: usize = 0;
        let mut d: usize = 0;
        assert(Seq::new(0, |x: int| restaged(lists[x], staged@[x]@)) =~= Seq::<
            Seq<ShiftView>,
        >::empty());
        while d < 7
            invariant
                d <= 7,
                wanted@ == id,
                id == emp_id@,
                rows == self.rows(),
                lists == self.shift_lists(),
                staged@.len() == d,
                forall|x: int| 0 <= x < d ==> (#[trigger] staged@[x])@.len() == lists[x].len(),
                expand_week(rows, lists, id, directions@, d as nat) == Ok::<
                    Seq<Seq<ShiftView>>,
                    SchedError,
                >(Seq::new(d as nat, |x: int| restaged(lists[x], staged@[x]@))),
                used <= directions@.len(),
                used == directions@.len() || used == shifts_before(lists, id, d as nat),
                used <= shifts_before(lists, id, d as nat),
            decreases 7 - d,
        {
            let list = &self.shifts[d];
            let row = &self.raw_reqs[d];
            let ghost views = shift_views(list@);
            let ghost base = shifts_before(lists, id, d as nat);
            assert(views == lists[d as int]);
            assert(row@ == rows[d as int]);
            let n: usize = list.len();
            let mut day_stage: Vec<(Time, Time)> = Vec::new();
            let mut i: usize = 0;
            assert(restaged(views.take(0), day_stage@) =~= Seq::<ShiftView>::empty());
            while i < n
                invariant
                    d < 7,
                    i <= n == list@.len(),
                    wanted@ == id,
                    id == emp_id@,
                    rows == self.rows(),
                    lists == self.shift_lists(),
                    views == shift_views(list@),
                    views == lists[d as int],
                    row@ == rows[d as int],
                    base == shifts_before(lists, id, d as nat),
                    expand_week(rows, lists, id, directions@, d as nat) is Ok,
                    day_stage@.len() == i,
                    expand_list(row@, views.take(i as int), id, directions@, base) == Ok::<
                        Seq<ShiftView>,
                        SchedError,
                    >(restaged(views.take(i as int), day_stage@)),
                    used <= directions@.len(),
                    used == directions@.len() || used == base + shifts_of(views.take(i as int), id),
                    used <= base + shifts_of(views.take(i as int), id),
                decreases n - i,
            {
                proof {
                    lemma_expand_list_step(row@, views, id, directions@, base, i as int);
                    lemma_shifts_of_step(views, id, i as int);
                }
                let ghost done = restaged(views.take(i as int), day_stage@);
                let shift = &list[i];
                assert(views[i as int] == shift@);
                let pair: (Time, Time) = if shift.emp_id == wanted {
                    let forward_first: bool = if used < directions.len() {
                        let b = directions[used];
                        used = used + 1;
                        b
                    } else {
                        true
                    };
                    assert(forward_first == direction(
                        directions@,
                        base + shifts_of(views.take(i as int), id),
                    ));
                    match expand_span(row, shift.start, shift.end, forward_first) {
                        Ok(pair) => pair,
                        Err(e) => {
                            proof {
                                assert(views[i as int].emp_id == id);
                                assert(views[i as int].span() == Span {
                                    start: shift.start@,
                                    end: shift.end@,
                                });
                                assert(expand_list(
                                    row@,
                                    views.take(i + 1),
                                    id,
                                    directions@,
                                    base,
                                ) == Err::<Seq<ShiftView>, SchedError>(e));
                                lemma_expand_list_fault_stays(
                                    row@,
                                    views,
                                    id,
                                    directions@,
                                    base,
                                    i as int + 1,
                                );
                                assert(expand_week(rows, lists, id, directions@, d as nat + 1)
                                    == Err::<Seq<Seq<ShiftView>>, SchedError>(e));
                                lemma_expand_week_fault_stays(
                                    rows,
                                    lists,
                                    id,
                                    directions@,
                                    d as nat + 1,
                                    7,
                                );
                            }
                            return Err(e);
                        },
                    }
                } else {
                    (shift.start, shift.end)
                };
                day_stage.push(pair);
                assert(restaged(views.take(i + 1), day_stage@) =~= done.push(
                    ShiftView { emp_id: views[i as int].emp_id, start: pair.0@, end: pair.1@ },
                ));
                i = i + 1;
            }
            assert(views.take(n as int) =~= views);
            let ghost before = staged@;
            staged.push(day_stage);
            assert(Seq::new((d + 1) as nat, |x: int| restaged(lists[x], staged@[x]@)) =~= Seq::new(
                d as nat,
                |x: int| restaged(lists[x], before[x]@),
            ).push(restaged(views, day_stage@)));
            d = d + 1;
        }
        assert(Seq::new(7, |x: int| restaged(lists[x], staged@[x]@)) =~= Seq::new(
            7,
            |x: int| restaged(self.shifts_at(x), staged@[x]@),
        ));
        Ok(staged)
    }

    /// Moves every shift of the week to the stretch that `staged` gives it.
    fn restage(&mut self, staged: &Vec<Vec<(Time, Time)>>)
        requires
            staged@.len() == 7,
            forall|d: int|
                0 <= d < 7 ==> (#[trigger] staged@[d])@.len() == old(self).shifts_at(d).len(),
        ensures
            forall|d: int|
                0 <= d < 7 ==> #[trigger] final(self).shifts_at(d) == restaged(
                    old(self).shifts_at(d),
                    staged@[d]@,
                ),
            forall|d: int| 0 <= d < 7 ==> final(self).row_at(d) == old(self).row_at(d),
            final(self).event_list() == old(self).event_list(),
    {
        let ghost was = old(self).shifts@;
        let mut d: usize = 0;
        while d < 7
            invariant
                d <= 7,
                staged@.len() == 7,
                was == old(self).shifts@,
                self.events == old(self).events,
                self.raw_reqs == old(self).raw_reqs,
                forall|x: int|
                    0 <= x < 7 ==> (#[trigger] staged@[x])@.len() == was[x]@.len(),
                forall|x: int|
                    0 <= x < d ==> shift_views(#[trigger] self.shifts@[x]@) == restaged(
                        shift_views(was[x]@),
                        staged@[x]@,
                    ),
                forall|x: int| d <= x < 7 ==> #[trigger] self.shifts@[x] == was[x],
            decreases 7 - d,
        {
            let n: usize = self.shifts[d].len();
            let ghost here = shift_views(was[d as int]@);
            let ghost spans = staged@[d as int]@;
            let mut i: usize = 0;
            while i < n
                invariant
                    d < 7,
                    staged@.len() == 7,
                    was == old(self).shifts@,
                    spans == staged@[d as int]@,
                    spans.len() == n,
                    here == shift_views(was[d as int]@),
                    here.len() == n,
                    i <= n == self.shifts@[d as int]@.len(),
                    self.events == old(self).events,
                    self.raw_reqs == old(self).raw_reqs,
                    forall|x: int|
                        0 <= x < 7 ==> (#[trigger] staged@[x])@.len() == was[x]@.len(),
                    forall|x: int|
                        0 <= x < d ==> shift_views(#[trigger] self.shifts@[x]@) == restaged(
                            shift_views(was[x]@),
                            staged@[x]@,
                        ),
                    forall|x: int| d < x < 7 ==> #[trigger] self.shifts@[x] == was[x],
                    forall|j: int|
                        0 <= j < i ==> (#[trigger] self.shifts@[d as int]@[j])@ == restaged(
                            here,
                            spans,
                        )[j],
                    forall|j: int|
                        i <= j < n ==> (#[trigger] self.shifts@[d as int]@[j])@ == here[j],
                decreases n - i,
            {
                let pair: (Time, Time) = staged[d][i];
                self.shifts[d][i].start = pair.0;
                self.shifts[d][i].end = pair.1;
                i = i + 1;
            }
            assert(shift_views(self.shifts@[d as int]@) =~= restaged(here, spans));
            d = d + 1;
        }
    }

    /// Stretches every shift of the employee `emp_id` toward a full shift.
    /// The employee's shifts are counted through the week, day by day and
    /// within a day in the order of assignment; `forward_first` says of each
    /// in turn whether it is stretched forward first, and a shift beyond the
    /// end of that list is stretched forward first. Where a shift meets a
    /// fault, no shift is changed.
    pub fn expand_shifts_with(&mut self, emp_id: &str, forward_first: &Vec<bool>) -> (r: Result<
        (),
        SchedError,
    >)
        ensures
            old(self).stretched_to(final(self), emp_id@, forward_first@, r),
    {
        let staged = match self.stage_expansion(emp_id, forward_first) {
            Ok(staged) => staged,
            Err(e) => {
                return Err(e);
            },
        };
        self.restage(&staged);
        Ok(())
    }

    /// Stretches every shift of the employee `emp_id` toward a full shift,
    /// each first in a direction drawn by chance and then in the other. The
    /// outcome is that of `expand_shifts_with` for some list of directions.
    pub fn expand_shifts(&mut self, emp_id: String) -> (r: Result<(), SchedError>)
        ensures
            exists|directions: Seq<bool>|
                #[trigger] old(self).stretched_to(final(self), emp_id@, directions, r),
    {
        let mut drawn: Vec<bool> = Vec::new();
        let mut d: usize = 0;
        while d < 7
            invariant
                d <= 7,
                *self == *old(self),
            decreases 7 - d,
        {
            let n: usize = self.shifts[d].len();
            let mut i: usize = 0;
            while i < n
                invariant
                    d < 7,
                    i <= n == self.shifts@[d as int]@.len(),
                    *self == *old(self),
                decreases n - i,
            {
                if self.shifts[d][i].emp_id == emp_id {
                    drawn.push(random_direction());
                }
                i = i + 1;
            }
            d = d + 1;
        }
        let r = self.expand_shifts_with(emp_id.as_str(), &drawn);
        assert(old(self).stretched_to(self, emp_id@, drawn@, r));
        r
    }

    /// The ways in which the schedule falls short of the rules, in full. A
    /// shift of a rostered employee that ends before it starts, and an event
    /// whose padded window leaves its day, are faults.
    pub fn violations(&self, ros: &Roster) -> (r: Result<Vec<Violation>, SchedError>)
        ensures
            match r {
                Ok(v) => self.hours_countable(ros) && self.all_windows_fit() && violation_views(v@)
                    == self.findings(ros),
                Err(e) => !(self.hours_countable(ros) && self.all_windows_fit()) && e
                    == SchedError::TimeRangeError,
            },
    {
        let mut out: Vec<Violation> = Vec::new();
        let entries = ros.iter();
        let n: usize = entries.len();
        let ghost lists = self.shift_lists();
        let ghost ids = ros.ids();
        let ghost ranges = ros.ranges();
        let mut i: usize = 0;
        assert(violation_views(out@) =~= hours_findings(lists, ids, ranges, 0));
        while i < n
            invariant
                i <= n == entries@.len(),
                n == ros.ids().len(),
                ros.well_formed(),
                lists == self.shift_lists(),
                ids == ros.ids(),
                ranges == ros.ranges(),
                forall|k: int|
                    0 <= k < n ==> (#[trigger] entries@[k]).0@ == ros.ids()[k] && *entries@[k].1
                        == ros.members()[k],
                forall|k: int| 0 <= k < i ==> quarters_assigned(lists, #[trigger] ids[k], 7) is Ok,
                violation_views(out@) == hours_findings(lists, ids, ranges, i as nat),
            decreases n - i,
        {
            let id: &String = entries[i].0;
            let emp = entries[i].1;
            assert(id@ == ids[i as int]);
            assert(emp.hours_range() == ranges[i as int]);
            proof {
                lemma_quarters_fault_kind(lists, id@, 7);
            }
            let total: u128 = match self.hours_assigned(id.as_str()) {
                Ok(t) => t,
                Err(e) => {
                    return Err(e);
                },
            };
            let min: u128 = emp.get_hours().min() as u128 * 4;
            let max: u128 = emp.get_hours().max() as u128 * 4;
            let ghost found = violation_views(out@);
            if !(min <= total && total <= max) {
                let finding = Violation::Hours { id: id.clone(), quarters: total };
                out.push(finding);
                assert(violation_views(out@) =~= found.push(finding@));
            }
            i = i + 1;
        }
        let ghost events = self.event_list();
        let ghost rows = self.rows();
        let ghost on_hours = violation_views(out@);
        let mut d: usize = 0;
        assert(violation_views(out@) =~= on_hours + coverage_findings(lists, events, rows, 0));
        while d < 7
            invariant
                d <= 7,
                lists == self.shift_lists(),
                events == self.event_list(),
                rows == self.rows(),
                forall|day: Day| day.index() < d ==> #[trigger] windows_fit(events, day),
                violation_views(out@) == on_hours + coverage_findings(lists, events, rows, d as nat),
            decreases 7 - d,
        {
            let today = Day::from_index(d).unwrap();
            let cov = match self.coverage(today) {
                Ok(cov) => cov,
                Err(e) => {
                    return Err(e);
                },
            };
            let row = &self.raw_reqs[d];
            let ghost before = violation_views(out@);
            let ghost shifts = lists[d as int];
            let mut j: usize = 0;
            assert(violation_views(out@) =~= before + slot_findings(
                shifts,
                events,
                row@,
                today,
                0,
            ));
            while j < 96
                invariant
                    j <= 96,
                    d < 7,
                    today.index() == d,
                    lists == self.shift_lists(),
                    events == self.event_list(),
                    shifts == lists[d as int],
                    shifts == self.shifts_on(today),
                    row@ == self.row(today),
                    forall|q: int| 0 <= q < 96 ==> #[trigger] cov@[q] == self.coverage_at(today, q),
                    violation_views(out@) == before + slot_findings(
                        shifts,
                        events,
                        row@,
                        today,
                        j as nat,
                    ),
                decreases 96 - j,
            {
                assert(cov@[j as int] == self.coverage_at(today, j as int));
                let ghost found = violation_views(out@);
                if cov[j] < row[j] as i128 {
                    let finding = Violation::Coverage {
                        day: today,
                        slot: Time::from_qi(j).unwrap(),
                        free: cov[j],
                    };
                    out.push(finding);
                    assert(violation_views(out@) =~= found.push(finding@));
                }
                assert(violation_views(out@) =~= before + slot_findings(
                    shifts,
                    events,
                    row@,
                    today,
                    (j + 1) as nat,
                ));
                j = j + 1;
            }
            proof {
                assert(row@ == rows[d as int]);
                assert(Day::at(d as nat).unwrap() == today);
                assert(violation_views(out@) =~= on_hours + coverage_findings(
                    lists,
                    events,
                    rows,
                    (d + 1) as nat,
                ));
                assert forall|day: Day| day.index() < d + 1 implies #[trigger] windows_fit(
                    events,
                    day,
                ) by {
                    lemma_day_index_round_trip(day);
                }
            }
            d = d + 1;
        }
        proof {
            assert forall|day: Day| #[trigger] windows_fit(self.event_list(), day) by {
                lemma_day_index_round_trip(day);
            }
        }
        Ok(out)
    }

    /// The schedule holds exactly when there is nothing to find against it.
    pub proof fn lemma_valid_iff_no_findings(&self, ros: &Roster)
        requires
            ros.well_formed(),
        ensures
            (self.hours_in_range(ros) && self.adequately_covered()) <==> self.findings(ros).len()
                == 0,
    {
        let lists = self.shift_lists();
        let events = self.event_list();
        let rows = self.rows();
        lemma_no_hours_findings(lists, ros.ids(), ros.ranges(), ros.ids().len());
        lemma_no_coverage_findings(lists, events, rows, 7);
        let by_place = forall|d: int, q: int|
            0 <= d < 7 && 0 <= q < 96 ==> #[trigger] free_staff(
                lists[d],
                events,
                Day::at(d as nat).unwrap(),
                q,
            ) >= rows[d][q];
        if self.adequately_covered() {
            assert forall|d: int, q: int| 0 <= d < 7 && 0 <= q < 96 implies #[trigger] free_staff(
                lists[d],
                events,
                Day::at(d as nat).unwrap(),
                q,
            ) >= rows[d][q] by {
                let day = Day::at(d as nat).unwrap();
                assert(self.coverage_at(day, q) >= self.row(day)[q]);
            }
        }
        if by_place {
            assert forall|day: Day, q: int| 0 <= q < 96 implies #[trigger] self.coverage_at(
                day,
                q,
            ) >= self.row(day)[q] by {
                lemma_day_index_round_trip(day);
                let d = day.index() as int;
                assert(free_staff(lists[d], events, Day::at(d as nat).unwrap(), q) >= rows[d][q]);
            }
        }
        if self.hours_in_range(ros) {
            assert forall|i: int| 0 <= i < ros.ids().len() implies (quarters_assigned(
                lists,
                #[trigger] ros.ids()[i],
                7,
            ) matches Ok(t) ==> hours_fit(t, ros.ranges()[i])) by {}
        }
    }

    /// An employee of the roster whose week's total lies outside their range
    /// makes the schedule fail, and is found against it by name, with that
    /// total.
    pub proof fn lemma_bad_hours_are_reported(&self, ros: &Roster, i: int)
        requires
            ros.well_formed(),
            0 <= i < ros.ids().len(),
            quarters_assigned(self.shift_lists(), ros.ids()[i], 7) is Ok,
            !hours_fit(
                quarters_assigned(self.shift_lists(), ros.ids()[i], 7)->Ok_0,
                ros.members()[i].hours_range(),
            ),
        ensures
            !self.hours_in_range(ros),
            self.findings(ros).contains(
                ViolationView::Hours {
                    id: ros.ids()[i],
                    quarters: quarters_assigned(self.shift_lists(), ros.ids()[i], 7)->Ok_0,
                },
            ),
    {
        let lists = self.shift_lists();
        let on_hours = hours_findings(lists, ros.ids(), ros.ranges(), ros.ids().len());
        lemma_hours_finding_stays(lists, ros.ids(), ros.ranges(), i, ros.ids().len());
        let finding = ViolationView::Hours {
            id: ros.ids()[i],
            quarters: quarters_assigned(lists, ros.ids()[i], 7)->Ok_0,
        };
        let k = choose|k: int| 0 <= k < on_hours.len() && on_hours[k] == finding;
        assert(self.findings(ros)[k] == finding);
    }

    /// The week's shifts in words, day by day.
    pub fn to_string(&self) -> (s: String)
        ensures
            s@ == week_text(self.shift_lists(), 7),
    {
        let mut out = String::new();
        let ghost lists = self.shift_lists();
        let mut d: usize = 0;
        assert(out@ =~= week_text(lists, 0));
        while d < 7
            invariant
                d <= 7,
                lists == self.shift_lists(),
                out@ == week_text(lists, d as nat),
            decreases 7 - d,
        {
            let ghost head = out@;
            out.append("\n");
            out.append(Day::from_index(d).unwrap().to_string().as_str());
            out.append("\n=========");
            let list = &self.shifts[d];
            let ghost views = shift_views(list@);
            let ghost titled = out@;
            let n: usize = list.len();
            let mut i: usize = 0;
            assert(out@ =~= titled + shifts_text(views.take(0)));
            while i < n
                invariant
                    i <= n == list@.len(),
                    views == shift_views(list@),
                    out@ == titled + shifts_text(views.take(i as int)),
                decreases n - i,
            {
                out.append("\n");
                out.append(list[i].to_string().as_str());
                assert(views.take(i + 1).drop_last() =~= views.take(i as int));
                assert(out@ =~= titled + shifts_text(views.take(i + 1)));
                i = i + 1;
            }
            assert(views.take(n as int) =~= views);
            if d != 6 {
                out.append("\n");
            }
            d = d + 1;
            assert(out@ =~= week_text(lists, d as nat));
        }
        out
    }

    /// The week's requirements in words: day by day, the quarter-hours that
    /// ask for staff.
    pub fn reqs_text(&self) -> (s: String)
        ensures
            s@ == grid_text(self.rows(), 7),
    {
        let mut out = String::new();
        let ghost rows = self.rows();
        let mut d: usize = 0;
        assert(out@ =~= grid_text(rows, 0));
        while d < 7
            invariant
                d <= 7,
                rows == self.rows(),
                out@ == grid_text(rows, d as nat),
            decreases 7 - d,
        {
            out.append("\n");
            out.append(Day::from_index(d).unwrap().to_string().as_str());
            out.append("\n");
            let row = &self.raw_reqs[d];
            let ghost titled = out@;
            let mut j: usize = 0;
            assert(out@ =~= titled + row_text(row@, 0));
            while j < 96
                invariant
                    j <= 96,
                    out@ == titled + row_text(row@, j as nat),
                decreases 96 - j,
            {
                if row[j] > 0 {
                    out.append(Time::from_qi(j).unwrap().to_string().as_str());
                    out.append(" - ");
                    push_decimal(&mut out, row[j] as u128);
                    out.append("\n");
                }
                j = j + 1;
                assert(out@ =~= titled + row_text(row@, j as nat));
            }
            d = d + 1;
            assert(out@ =~= grid_text(rows, d as nat));
        }
        out
    }

    /// The week's events in words, one to a line.
    pub fn events_text(&self) -> (s: String)
        ensures
            s@ == events_text(self.event_list()),
    {
        let mut out = String::new();
        let ghost events = self.event_list();
        let n: usize = self.events.len();
        let mut i: usize = 0;
        assert(out@ =~= events_text(events.take(0)));
        while i < n
            invariant
                i <= n == self.events@.len(),
                events == event_views(self.events@),
                out@ == events_text(events.take(i as int)),
            decreases n - i,
        {
            out.append(self.events[i].to_string().as_str());
            out.append("\n");
            assert(events.take(i + 1).drop_last() =~= events.take(i as int));
            assert(out@ =~= events_text(events.take(i + 1)));
            i = i + 1;
        }
        assert(events.take(n as int) =~= events);
        out
    }
}

} // verus!
