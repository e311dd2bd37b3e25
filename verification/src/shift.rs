//! Shifts, and the rule by which a shift is stretched toward a full day's work.

use vstd::prelude::*;
use crate::error::SchedError;
use crate::time::{text_24h, Time};

verus! {

/// The length, in quarter-hours, that stretching a shift aims at and never passes.
pub const FULL_SHIFT: usize = 32;

/// A stretch of the day: the slots from `start` up to, not including, `end`.
pub struct Span {
    pub start: nat,
    pub end: nat,
}

/// What a shift says: who works, from when, until when.
pub struct ShiftView {
    pub emp_id: Seq<char>,
    pub start: nat,
    pub end: nat,
}

impl ShiftView {
    /// The stretch of the day that the shift covers.
    pub open spec fn span(self) -> Span {
        Span { start: self.start, end: self.end }
    }

    /// The shift in words: who, then from when until when on the 24-hour clock.
    pub open spec fn text(self) -> Seq<char> {
        self.emp_id + " => "@ + text_24h(self.start) + " - "@ + text_24h(self.end)
    }

    /// The shift with one end moved by `by` quarter-hours: the end later, or
    /// the start earlier. An end that would leave the day is a fault.
    pub open spec fn moved(self, forward: bool, by: nat) -> Result<ShiftView, SchedError> {
        if forward {
            if self.end + by < 96 {
                Ok(ShiftView { end: self.end + by, ..self })
            } else {
                Err(SchedError::TimeRangeError)
            }
        } else {
            if self.start >= by {
                Ok(ShiftView { start: (self.start - by) as nat, ..self })
            } else {
                Err(SchedError::TimeRangeError)
            }
        }
    }

    /// The same shift over another stretch of the day.
    pub open spec fn with_span(self, span: Span) -> ShiftView {
        ShiftView { emp_id: self.emp_id, start: span.start, end: span.end }
    }
}

/// An employee's working interval on one day.
#[derive(Debug)]
pub struct Shift {
    pub emp_id: String,
    pub start: Time,
    pub end: Time,
}

impl View for Shift {
    type V = ShiftView;

    open spec fn view(&self) -> ShiftView {
        ShiftView { emp_id: self.emp_id@, start: self.start@, end: self.end@ }
    }
}

/// The length of a stretch, which is a fault where it runs backwards.
pub open spec fn span_len(span: Span) -> Result<nat, SchedError> {
    if span.end < span.start {
        Err(SchedError::TimeRangeError)
    } else {
        Ok((span.end - span.start) as nat)
    }
}

/// Whether a stretch may grow by one more quarter-hour on a day whose
/// requirements are `row`. It may while it is shorter than a full shift and
/// the slot one past its end and the slot before its start both ask for
/// staff. The three tests are made in that order, and a test that is not
/// reached cannot fault: looking past either edge of the day is a fault of
/// the grid.
pub open spec fn may_grow(row: Seq<u32>, span: Span) -> Result<bool, SchedError> {
    if span.end < span.start {
        Err(SchedError::TimeRangeError)
    } else if span.end - span.start >= 32 {
        Ok(false)
    } else if span.end + 1 >= 96 {
        Err(SchedError::GridBoundsError)
    } else if row[span.end as int + 1] == 0 {
        Ok(false)
    } else if span.start == 0 {
        Err(SchedError::GridBoundsError)
    } else {
        Ok(row[span.start - 1] != 0)
    }
}

/// A stretch moved by one quarter-hour at one end: later at its end, or
/// earlier at its start.
pub open spec fn stepped(span: Span, forward: bool) -> Span {
    if forward {
        Span { start: span.start, end: span.end + 1 }
    } else {
        Span { start: (span.start - 1) as nat, end: span.end }
    }
}

/// One phase of stretching: the stretch steps in one direction for as long as
/// it may grow.
pub open spec fn grown(row: Seq<u32>, span: Span, forward: bool) -> Result<Span, SchedError>
    decreases 32 + span.start - span.end,
{
    match may_grow(row, span) {
        Err(e) => Err(e),
        Ok(false) => Ok(span),
        Ok(true) => grown(row, stepped(span, forward), forward),
    }
}

/// Stretching in full: one phase in the direction tried first, then one in
/// the other direction.
pub open spec fn expanded(row: Seq<u32>, span: Span, forward_first: bool) -> Result<
    Span,
    SchedError,
> {
    match grown(row, span, forward_first) {
        Err(e) => Err(e),
        Ok(once) => grown(row, once, !forward_first),
    }
}

/// Whether the requirement at `end + 1` and at `start - 1` lets the stretch grow.
fn check_growth(row: &[u32; 96], start: Time, end: Time) -> (r: Result<bool, SchedError>)
    ensures
        r == may_grow(row@, Span { start: start@, end: end@ }),
{
    let s: usize = start.get_qi();
    let e: usize = end.get_qi();
    if e < s {
        Err(SchedError::TimeRangeError)
    } else if e - s >= FULL_SHIFT {
        Ok(false)
    } else if e + 1 >= 96 {
        Err(SchedError::GridBoundsError)
    } else if row[e + 1] == 0 {
        Ok(false)
    } else if s == 0 {
        Err(SchedError::GridBoundsError)
    } else {
        Ok(row[s - 1] != 0)
    }
}

/// One phase of stretching, on the two ends of a shift.
fn grow(row: &[u32; 96], start: Time, end: Time, forward: bool) -> (r: Result<
    (Time, Time),
    SchedError,
>)
    ensures
        match r {
            Ok((s, e)) => grown(row@, Span { start: start@, end: end@ }, forward) == Ok::<
                Span,
                SchedError,
            >(Span { start: s@, end: e@ }),
            Err(x) => grown(row@, Span { start: start@, end: end@ }, forward) == Err::<
                Span,
                SchedError,
            >(x),
        },
{
    let mut s: Time = start;
    let mut e: Time = end;
    loop
        invariant
            grown(row@, Span { start: start@, end: end@ }, forward) == grown(
                row@,
                Span { start: s@, end: e@ },
                forward,
            ),
        decreases 32 + s@ - e@,
    {
        match check_growth(row, s, e) {
            Err(x) => {
                return Err(x);
            },
            Ok(false) => {
                return Ok((s, e));
            },
            Ok(true) => {
                if forward {
                    e = Time::from_qi(e.get_qi() + 1).unwrap();
                } else {
                    s = Time::from_qi(s.get_qi() - 1).unwrap();
                }
            },
        }
    }
}

/// Stretches the interval from `start` to `end` toward a full shift on a day
/// whose requirements are `row`: first in one direction, then in the other.
pub fn expand_span(row: &[u32; 96], start: Time, end: Time, forward_first: bool) -> (r: Result<
    (Time, Time),
    SchedError,
>)
    ensures
        match r {
            Ok((s, e)) => expanded(row@, Span { start: start@, end: end@ }, forward_first) == Ok::<
                Span,
                SchedError,
            >(Span { start: s@, end: e@ }),
            Err(x) => expanded(row@, Span { start: start@, end: end@ }, forward_first) == Err::<
                Span,
                SchedError,
            >(x),
        },
{
    let (s1, e1) = match grow(row, start, end, forward_first) {
        Ok(pair) => pair,
        Err(x) => {
            return Err(x);
        },
    };
    grow(row, s1, e1, !forward_first)
}

/// A phase of stretching moves one end only, outward, and stays within the
/// day. It never makes a stretch longer than a full shift, and leaves alone
/// one that is that long already. Each step was allowed by the slots next to
/// the stretch: every slot from one past the old end up to the new end asks
/// for staff, and so does every slot from the new start up to the old start.
/// Where it stops, the stretch may grow no further.
pub proof fn lemma_grown_bounds(row: Seq<u32>, span: Span, forward: bool)
    requires
        span.end < 96,
        grown(row, span, forward) is Ok,
    ensures
        ({
            let out = grown(row, span, forward)->Ok_0;
            &&& out.start <= span.start <= span.end <= out.end < 96
            &&& forward ==> out.start == span.start
            &&& !forward ==> out.end == span.end
            &&& span.end - span.start >= 32 ==> out == span
            &&& span.end - span.start <= 32 ==> out.end - out.start <= 32
            &&& forall|q: int| span.end < q <= out.end ==> row[q] != 0
            &&& forall|q: int| out.start <= q < span.start ==> row[q] != 0
            &&& may_grow(row, out) == Ok::<bool, SchedError>(false)
        }),
    decreases 32 + span.start - span.end,
{
    if may_grow(row, span) == Ok::<bool, SchedError>(true) {
        lemma_grown_bounds(row, stepped(span, forward), forward);
    }
}

/// Once a phase of stretching has stopped, a further phase in either
/// direction moves nothing: stretching in full is its first phase.
pub proof fn lemma_expanded_is_first_phase(row: Seq<u32>, span: Span, forward_first: bool)
    requires
        span.end < 96,
    ensures
        expanded(row, span, forward_first) == grown(row, span, forward_first),
{
    if grown(row, span, forward_first) is Ok {
        lemma_grown_bounds(row, span, forward_first);
    }
}

/// Stretching never makes a shift longer than a full shift, unless it was
/// longer before and then it is left alone; it never moves an end inward or
/// out of the day; and it never steps past a neighbouring slot that asks for
/// no staff: every slot from one past the old end up to the new end asks for
/// staff, and so does every slot from the new start up to the old start.
pub proof fn lemma_expanded_bounds(row: Seq<u32>, span: Span, forward_first: bool)
    requires
        span.end < 96,
        expanded(row, span, forward_first) is Ok,
    ensures
        ({
            let out = expanded(row, span, forward_first)->Ok_0;
            &&& out.start <= span.start <= span.end <= out.end < 96
            &&& span.end - span.start >= 32 ==> out == span
            &&& span.end - span.start <= 32 ==> out.end - out.start <= 32
            &&& forall|q: int| span.end < q <= out.end ==> row[q] != 0
            &&& forall|q: int| out.start <= q < span.start ==> row[q] != 0
        }),
{
    lemma_expanded_is_first_phase(row, span, forward_first);
    lemma_grown_bounds(row, span, forward_first);
}

impl Shift {
    /// Moves one end of the shift by a quarter-hour: the end later, or the
    /// start earlier. A move that would leave the day is refused and changes
    /// nothing.
    pub fn extend(&mut self, forward: bool) -> (r: Result<(), SchedError>)
        ensures
            match old(self)@.moved(forward, 1) {
                Ok(moved) => r is Ok && final(self)@ == moved,
                Err(e) => r == Err::<(), SchedError>(e) && *final(self) == *old(self),
            },
    {
        if forward {
            match Time::from_qi(self.end.get_qi() + 1) {
                Ok(t) => {
                    self.end = t;
                    Ok(())
                },
                Err(_) => Err(SchedError::TimeRangeError),
            }
        } else {
            let s: usize = self.start.get_qi();
            if s == 0 {
                return Err(SchedError::TimeRangeError);
            }
            self.start = Time::from_qi(s - 1).unwrap();
            Ok(())
        }
    }

    /// Moves one end of the shift by `amnt`: the end later, or the start
    /// earlier. A move that would leave the day is refused and changes nothing.
    pub fn extend_by(&mut self, forward: bool, amnt: Time) -> (r: Result<(), SchedError>)
        ensures
            match old(self)@.moved(forward, amnt@) {
                Ok(moved) => r is Ok && final(self)@ == moved,
                Err(e) => r == Err::<(), SchedError>(e) && *final(self) == *old(self),
            },
    {
        let by: usize = amnt.get_qi();
        if forward {
            match Time::from_qi(self.end.get_qi() + by) {
                Ok(t) => {
                    self.end = t;
                    Ok(())
                },
                Err(_) => Err(SchedError::TimeRangeError),
            }
        } else {
            let s: usize = self.start.get_qi();
            if s < by {
                return Err(SchedError::TimeRangeError);
            }
            self.start = Time::from_qi(s - by).unwrap();
            Ok(())
        }
    }

    /// The shift in words.
    pub fn to_string(&self) -> (s: String)
        ensures
            s@ == self@.text(),
    {
        let mut out = self.emp_id.clone();
        out.append(" => ");
        out.append(self.start.to_string_24h().as_str());
        out.append(" - ");
        out.append(self.end.to_string_24h().as_str());
        out
    }

    /// The length of the shift in quarter-hours.
    pub fn len(&self) -> (r: Result<usize, SchedError>)
        ensures
            match r {
                Ok(n) => span_len(self@.span()) == Ok::<nat, SchedError>(n as nat) && n < 96,
                Err(e) => span_len(self@.span()) == Err::<nat, SchedError>(e),
            },
    {
        let s: usize = self.start.get_qi();
        let e: usize = self.end.get_qi();
        if e < s {
            Err(SchedError::TimeRangeError)
        } else {
            Ok(e - s)
        }
    }

    /// Stretches the shift toward a full shift on a day whose requirements
    /// are `row`: first in one direction, then in the other. On a fault the
    /// shift is left as it was.
    pub fn expand(&mut self, row: &[u32; 96], forward_first: bool) -> (r: Result<(), SchedError>)
        ensures
            match r {
                Ok(()) => expanded(row@, old(self)@.span(), forward_first) == Ok::<
                    Span,
                    SchedError,
                >(final(self)@.span()) && final(self).emp_id == old(self).emp_id,
                Err(e) => expanded(row@, old(self)@.span(), forward_first) == Err::<
                    Span,
                    SchedError,
                >(e) && *final(self) == *old(self),
            },
    {
        let (s2, e2) = match expand_span(row, self.start, self.end, forward_first) {
            Ok(pair) => pair,
            Err(x) => {
                return Err(x);
            },
        };
        self.start = s2;
        self.end = e2;
        Ok(())
    }
}

} // verus!
