//! Events: activities that take up a stretch of one day and call for staff.

use vstd::prelude::*;
use crate::day::Day;
use crate::error::SchedError;
use crate::shift::{ShiftView, Span};
use crate::text::{
    debug_text, left_aligned, push_left_aligned, push_right_aligned, quoted, right_aligned, texts,
};
use crate::time::{text_12h, Time};

verus! {

/// What an event says.
pub struct EventView {
    pub name: Seq<char>,
    pub req_emp_ids: Seq<Seq<char>>,
    pub day: Day,
    pub start: nat,
    pub end: nat,
    pub num_emps: int,
    pub kind: Seq<char>,
    pub setup: nat,
    pub breakdown: nat,
}

impl EventView {
    /// The stretch of the day that the event takes up once the time to set
    /// up before it and to break down after it is added. Padding that would
    /// reach before the first slot of the day, or past its last, is a fault.
    pub open spec fn window(self) -> Result<Span, SchedError> {
        if self.start < self.setup || self.end + self.breakdown > 96 {
            Err(SchedError::TimeRangeError)
        } else {
            Ok(Span { start: (self.start - self.setup) as nat, end: self.end + self.breakdown })
        }
    }

    /// The event in one line: the day's name set right in nine columns, the
    /// start and the end on the 12-hour clock set left in six columns each,
    /// the name, and the kind between quotes and brackets.
    pub open spec fn text(self) -> Seq<char> {
        right_aligned(self.day.name(), 9) + " "@ + left_aligned(text_12h(self.start), 6) + " - "@
            + left_aligned(text_12h(self.end), 6) + " | "@ + self.name + " ("@ + debug_text(
            self.kind,
        ) + ")"@
    }

    /// The stretch of the day that working this event takes: the event's
    /// own stretch, begun earlier by the time to set up and ended later by
    /// the time to break down. Both ends must be times of the day.
    pub open spec fn padded(self) -> Result<Span, SchedError> {
        if self.start < self.setup || self.end + self.breakdown >= 96 {
            Err(SchedError::TimeRangeError)
        } else {
            Ok(Span { start: (self.start - self.setup) as nat, end: self.end + self.breakdown })
        }
    }

    /// The shift that working this event makes for the employee `id`.
    pub open spec fn shift_for(self, id: Seq<char>) -> Result<ShiftView, SchedError> {
        match self.padded() {
            Ok(span) => Ok(ShiftView { emp_id: id, start: span.start, end: span.end }),
            Err(e) => Err(e),
        }
    }

    /// The shifts that this event makes for the employees it requires by
    /// name, one for each identifier in the order of the list.
    pub open spec fn required_shifts(self) -> Seq<ShiftView> {
        match self.padded() {
            Ok(span) => Seq::new(
                self.req_emp_ids.len(),
                |k: int| ShiftView { emp_id: self.req_emp_ids[k], start: span.start, end: span.end },
            ),
            Err(_) => Seq::empty(),
        }
    }

    /// The event with one more required employee; the headcount rises to the
    /// number of required employees where it was below it.
    pub open spec fn with_employee(self, id: Seq<char>) -> EventView {
        let ids = self.req_emp_ids.push(id);
        EventView {
            req_emp_ids: ids,
            num_emps: if self.num_emps < ids.len() {
                ids.len() as int
            } else {
                self.num_emps
            },
            ..self
        }
    }

    /// The event with more required employees; the headcount rises to the
    /// number of required employees where it was below it.
    pub open spec fn with_employees(self, more: Seq<Seq<char>>) -> EventView {
        let ids = self.req_emp_ids + more;
        EventView {
            req_emp_ids: ids,
            num_emps: if self.num_emps < ids.len() {
                ids.len() as int
            } else {
                self.num_emps
            },
            ..self
        }
    }
}

/// An event or class run by the store.
#[derive(Debug)]
pub struct Event {
    pub name: String,
    pub req_emp_ids: Vec<String>,
    pub day: Day,
    pub start: Time,
    pub end: Time,
    pub num_emps: i32,
    pub kind: String,
    pub setup: Time,
    pub breakdown: Time,
}

impl View for Event {
    type V = EventView;

    open spec fn view(&self) -> EventView {
        EventView {
            name: self.name@,
            req_emp_ids: texts(self.req_emp_ids@),
            day: self.day,
            start: self.start@,
            end: self.end@,
            num_emps: self.num_emps as int,
            kind: self.kind@,
            setup: self.setup@,
            breakdown: self.breakdown@,
        }
    }
}

impl Clone for Event {
    fn clone(&self) -> (r: Event)
        ensures
            r@ == self@,
    {
        let ids = self.req_emp_ids.clone();
        assert(texts(ids@) =~= texts(self.req_emp_ids@));
        Event {
            name: self.name.clone(),
            req_emp_ids: ids,
            day: self.day,
            start: self.start,
            end: self.end,
            num_emps: self.num_emps,
            kind: self.kind.clone(),
            setup: self.setup,
            breakdown: self.breakdown,
        }
    }
}

impl Event {
    /// A new event that requires no employee by name and one member of staff,
    /// with two quarter-hours to set up and two hours to break down.
    pub fn new(name: String, day: Day, start: Time, end: Time, kind: String) -> (ev: Event)
        requires
            start@ < end@,
        ensures
            ev@ == (EventView {
                name: name@,
                req_emp_ids: Seq::<Seq<char>>::empty(),
                day,
                start: start@,
                end: end@,
                num_emps: 1,
                kind: kind@,
                setup: 2,
                breakdown: 8,
            }),
    {
        let ev = Event {
            req_emp_ids: Vec::new(),
            name,
            day,
            start,
            end,
            kind,
            num_emps: 1,
            setup: Time::from_qi(2).unwrap(),
            breakdown: Time::from_hour(2).unwrap(),
        };
        assert(texts(ev.req_emp_ids@) =~= Seq::<Seq<char>>::empty());
        ev
    }

    /// Adds an employee who must work this event.
    pub fn add_employee(&mut self, emp_id: String)
        requires
            old(self).req_emp_ids.len() < i32::MAX,
        ensures
            final(self)@ == old(self)@.with_employee(emp_id@),
    {
        self.req_emp_ids.push(emp_id);
        let reqs: usize = self.req_emp_ids.len();
        if self.num_emps < 0 || reqs > self.num_emps as usize {
            self.num_emps = reqs as i32;
        }
        assert(texts(self.req_emp_ids@) =~= texts(old(self).req_emp_ids@).push(emp_id@));
    }

    /// Adds a group of employees who must work this event.
    pub fn add_employees(&mut self, emp_ids: Vec<String>)
        requires
            old(self).req_emp_ids.len() + emp_ids.len() <= i32::MAX,
        ensures
            final(self)@ == old(self)@.with_employees(texts(emp_ids@)),
    {
        let mut emp_ids = emp_ids;
        let ghost more = emp_ids@;
        self.req_emp_ids.append(&mut emp_ids);
        let reqs: usize = self.req_emp_ids.len();
        if self.num_emps < 0 || reqs > self.num_emps as usize {
            self.num_emps = reqs as i32;
        }
        assert(texts(self.req_emp_ids@) =~= texts(old(self).req_emp_ids@) + texts(more));
    }

    /// Sets the number of staff that the event calls for, whatever the
    /// number of employees required by name.
    pub fn staffing_req(&mut self, num_emps: i32)
        ensures
            final(self)@ == (EventView { num_emps: num_emps as int, ..old(self)@ }),
    {
        self.num_emps = num_emps;
    }

    /// Sets the time to set up before the event and to break down after it,
    /// both in quarter-hours. Neither may be as long as a day; where one is,
    /// the event is left as it was.
    pub fn setup_breakdown(&mut self, s: usize, b: usize) -> (r: Result<(), SchedError>)
        ensures
            s < 96 && b < 96 ==> r is Ok && final(self)@ == (EventView {
                setup: s as nat,
                breakdown: b as nat,
                ..old(self)@
            }),
            s >= 96 || b >= 96 ==> r == Err::<(), SchedError>(SchedError::OutOfRange) && *final(self) == *old(self),
    {
        let setup = match Time::from_qi(s) {
            Ok(t) => t,
            Err(e) => {
                return Err(e);
            },
        };
        let breakdown = match Time::from_qi(b) {
            Ok(t) => t,
            Err(e) => {
                return Err(e);
            },
        };
        self.setup = setup;
        self.breakdown = breakdown;
        Ok(())
    }

    /// The event in one line.
    pub fn to_string(&self) -> (s: String)
        ensures
            s@ == self@.text(),
    {
        let mut out = String::new();
        push_right_aligned(&mut out, self.day.to_string().as_str(), 9);
        out.append(" ");
        push_left_aligned(&mut out, self.start.to_string().as_str(), 6);
        out.append(" - ");
        push_left_aligned(&mut out, self.end.to_string().as_str(), 6);
        out.append(" | ");
        out.append(self.name.as_str());
        out.append(" (");
        out.append(quoted(self.kind.as_str()).as_str());
        out.append(")");
        assert(out@ =~= self@.text());
        out
    }

    /// The identifiers of the employees who must work this event.
    pub fn req_ids(&self) -> (ids: &Vec<String>)
        ensures
            texts(ids@) == self@.req_emp_ids,
    {
        &self.req_emp_ids
    }

    /// Whether any employee must work this event.
    pub fn has_reqs(&self) -> (b: bool)
        ensures
            b == (self@.req_emp_ids.len() > 0),
    {
        !self.req_emp_ids.is_empty()
    }
}

/// The shifts that the events in `events` make on `day` for the employees
/// they require by name: event by event, and within an event name by name.
pub open spec fn required_shifts(events: Seq<EventView>, day: Day) -> Seq<ShiftView>
    decreases events.len(),
{
    if events.len() == 0 {
        Seq::empty()
    } else {
        required_shifts(events.drop_last(), day) + if events.last().day == day {
            events.last().required_shifts()
        } else {
            Seq::empty()
        }
    }
}

/// Whether every event that requires an employee by name makes a shift that
/// stays within the day.
pub open spec fn requirements_fit(events: Seq<EventView>) -> bool {
    forall|i: int|
        0 <= i < events.len() && (#[trigger] events[i]).req_emp_ids.len() > 0
            ==> events[i].padded() is Ok
}

/// Gathering the required shifts of a day one event further.
pub proof fn lemma_required_shifts_step(events: Seq<EventView>, day: Day, i: int)
    requires
        0 <= i < events.len(),
    ensures
        required_shifts(events.take(i + 1), day) == required_shifts(events.take(i), day)
            + if events[i].day == day {
            events[i].required_shifts()
        } else {
            Seq::empty()
        },
{
    assert(events.take(i + 1).drop_last() =~= events.take(i));
}

} // verus!
