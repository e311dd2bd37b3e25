//! The rules a week's schedule is held to: each employee's hours within
//! their range, and every quarter-hour covered.

use vstd::prelude::*;
use crate::coverage::free_staff;
use crate::day::Day;
use crate::emp::HoursView;
use crate::error::SchedError;
use crate::event::EventView;
use crate::shift::{span_len, ShiftView};
use crate::text::{push_signed, signed_text};
use crate::time::{push_duration, text_12h, text_24h, Time};

verus! {

/// The quarter-hours that the shifts in `shifts` give the employee `id`. A
/// shift of theirs that ends before it starts is a fault.
pub open spec fn quarters_in(shifts: Seq<ShiftView>, id: Seq<char>) -> Result<nat, SchedError>
    decreases shifts.len(),
{
    if shifts.len() == 0 {
        Ok(0)
    } else {
        match quarters_in(shifts.drop_last(), id) {
            Err(e) => Err(e),
            Ok(t) => if shifts.last().emp_id != id {
                Ok(t)
            } else {
                match span_len(shifts.last().span()) {
                    Err(e) => Err(e),
                    Ok(n) => Ok(t + n),
                }
            },
        }
    }
}

/// The quarter-hours that the first `days` days of the week give the employee `id`.
pub open spec fn quarters_assigned(lists: Seq<Seq<ShiftView>>, id: Seq<char>, days: nat) -> Result<
    nat,
    SchedError,
>
    decreases days,
{
    if days == 0 {
        Ok(0)
    } else {
        match quarters_assigned(lists, id, (days - 1) as nat) {
            Err(e) => Err(e),
            Ok(t) => match quarters_in(lists[days - 1], id) {
                Err(e) => Err(e),
                Ok(n) => Ok(t + n),
            },
        }
    }
}

/// Whether a week's total of quarter-hours lies within a range of weekly hours.
pub open spec fn hours_fit(total: nat, hours: HoursView) -> bool {
    hours.min * 4 <= total <= hours.max * 4
}

/// What a finding says.
pub enum ViolationView {
    Hours { id: Seq<char>, quarters: nat },
    Coverage { day: Day, slot: nat, free: int },
}

impl ViolationView {
    /// The finding in words. On hours: the employee and their week's total
    /// as hours and minutes, then a line that names the employee. On
    /// coverage: the time on the 12-hour clock, the day, and the staff free.
    pub open spec fn text(self) -> Seq<char> {
        match self {
            ViolationView::Hours { id, quarters } => ">>> "@ + id + " - "@ + text_24h(quarters)
                + "\n"@ + id + " has invalid # of hours"@,
            ViolationView::Coverage { day, slot, free } => "Low coverage at "@ + text_12h(slot)
                + " on "@ + day.name() + ": "@ + signed_text(free),
        }
    }
}

/// A way in which a schedule falls short of the rules.
#[derive(Debug)]
pub enum Violation {
    /// The employee `id` has been given `quarters` quarter-hours in the
    /// week, which lies outside their range.
    Hours { id: String, quarters: u128 },
    /// In the quarter-hour `slot` of `day` only `free` staff are free, fewer
    /// than the day asks for.
    Coverage { day: Day, slot: Time, free: i128 },
}

impl View for Violation {
    type V = ViolationView;

    open spec fn view(&self) -> ViolationView {
        match self {
            Violation::Hours { id, quarters } => ViolationView::Hours {
                id: id@,
                quarters: *quarters as nat,
            },
            Violation::Coverage { day, slot, free } => ViolationView::Coverage {
                day: *day,
                slot: slot@,
                free: *free as int,
            },
        }
    }
}

impl Violation {
    /// The finding in words.
    pub fn to_string(&self) -> (s: String)
        ensures
            s@ == self@.text(),
    {
        let mut out = String::new();
        match self {
            Violation::Hours { id, quarters } => {
                out.append(">>> ");
                out.append(id.as_str());
                out.append(" - ");
                push_duration(&mut out, *quarters);
                out.append("\n");
                out.append(id.as_str());
                out.append(" has invalid # of hours");
            },
            Violation::Coverage { day, slot, free } => {
                out.append("Low coverage at ");
                out.append(slot.to_string().as_str());
                out.append(" on ");
                out.append(day.to_string().as_str());
                out.append(": ");
                push_signed(&mut out, *free);
            },
        }
        assert(out@ =~= self@.text());
        out
    }
}

/// What a list of findings says.
pub open spec fn violation_views(v: Seq<Violation>) -> Seq<ViolationView> {
    Seq::new(v.len(), |i: int| v[i]@)
}

/// The findings on hours among the first `n` employees of a roster, in the
/// order of the roster: one for each whose week's total lies outside their
/// range.
pub open spec fn hours_findings(
    lists: Seq<Seq<ShiftView>>,
    ids: Seq<Seq<char>>,
    ranges: Seq<HoursView>,
    n: nat,
) -> Seq<ViolationView>
    decreases n,
{
    if n == 0 {
        Seq::empty()
    } else {
        let found = hours_findings(lists, ids, ranges, (n - 1) as nat);
        match quarters_assigned(lists, ids[n - 1], 7) {
            Ok(t) => if hours_fit(t, ranges[n - 1]) {
                found
            } else {
                found.push(ViolationView::Hours { id: ids[n - 1], quarters: t })
            },
            Err(_) => found,
        }
    }
}

/// The findings on coverage among the first `n` quarter-hours of `day`, in
/// order: one for each slot with fewer staff free than `row` asks for.
pub open spec fn slot_findings(
    shifts: Seq<ShiftView>,
    events: Seq<EventView>,
    row: Seq<u32>,
    day: Day,
    n: nat,
) -> Seq<ViolationView>
    decreases n,
{
    if n == 0 {
        Seq::empty()
    } else {
        let found = slot_findings(shifts, events, row, day, (n - 1) as nat);
        let free = free_staff(shifts, events, day, n - 1);
        if free < row[n - 1] {
            found.push(ViolationView::Coverage { day, slot: (n - 1) as nat, free })
        } else {
            found
        }
    }
}

/// The findings on coverage in the first `days` days of the week, day by day.
pub open spec fn coverage_findings(
    lists: Seq<Seq<ShiftView>>,
    events: Seq<EventView>,
    rows: Seq<Seq<u32>>,
    days: nat,
) -> Seq<ViolationView>
    decreases days,
{
    if days == 0 {
        Seq::empty()
    } else {
        coverage_findings(lists, events, rows, (days - 1) as nat) + slot_findings(
            lists[days - 1],
            events,
            rows[days - 1],
            Day::at((days - 1) as nat).unwrap(),
            96,
        )
    }
}

/// An employee whose week's total lies outside their range has a finding
/// to their name, with that total.
pub proof fn lemma_hours_finding_stays(
    lists: Seq<Seq<ShiftView>>,
    ids: Seq<Seq<char>>,
    ranges: Seq<HoursView>,
    i: int,
    n: nat,
)
    requires
        0 <= i < n,
        quarters_assigned(lists, ids[i], 7) is Ok,
        !hours_fit(quarters_assigned(lists, ids[i], 7)->Ok_0, ranges[i]),
    ensures
        hours_findings(lists, ids, ranges, n).contains(
            ViolationView::Hours { id: ids[i], quarters: quarters_assigned(lists, ids[i], 7)->Ok_0 },
        ),
    decreases n,
{
    let finding = ViolationView::Hours {
        id: ids[i],
        quarters: quarters_assigned(lists, ids[i], 7)->Ok_0,
    };
    let found = hours_findings(lists, ids, ranges, (n - 1) as nat);
    let all = hours_findings(lists, ids, ranges, n);
    if i == n - 1 {
        assert(all == found.push(finding));
        assert(all[found.len() as int] == finding);
    } else {
        lemma_hours_finding_stays(lists, ids, ranges, i, (n - 1) as nat);
        let k = choose|k: int| 0 <= k < found.len() && found[k] == finding;
        assert(all[k] == finding);
    }
}

/// There is no finding on hours among the first `n` employees exactly when
/// each of them, where their hours can be summed, has hours within range.
pub proof fn lemma_no_hours_findings(
    lists: Seq<Seq<ShiftView>>,
    ids: Seq<Seq<char>>,
    ranges: Seq<HoursView>,
    n: nat,
)
    ensures
        hours_findings(lists, ids, ranges, n).len() == 0 <==> (forall|i: int|
            0 <= i < n ==> (quarters_assigned(lists, #[trigger] ids[i], 7) matches Ok(t)
                ==> hours_fit(t, ranges[i]))),
    decreases n,
{
    if n > 0 {
        let last = n - 1;
        lemma_no_hours_findings(lists, ids, ranges, last as nat);
        if hours_findings(lists, ids, ranges, n).len() != 0 && hours_findings(
            lists,
            ids,
            ranges,
            last as nat,
        ).len() == 0 {
            assert(quarters_assigned(lists, ids[last], 7) is Ok);
        }
    }
}

/// There is no finding on coverage among the first `n` quarter-hours of a
/// day exactly when each of them has the staff free that it asks for.
pub proof fn lemma_no_slot_findings(
    shifts: Seq<ShiftView>,
    events: Seq<EventView>,
    row: Seq<u32>,
    day: Day,
    n: nat,
)
    ensures
        slot_findings(shifts, events, row, day, n).len() == 0 <==> (forall|q: int|
            0 <= q < n ==> #[trigger] free_staff(shifts, events, day, q) >= row[q]),
    decreases n,
{
    if n > 0 {
        lemma_no_slot_findings(shifts, events, row, day, (n - 1) as nat);
        if slot_findings(shifts, events, row, day, n).len() != 0 && slot_findings(
            shifts,
            events,
            row,
            day,
            (n - 1) as nat,
        ).len() == 0 {
            assert(!(free_staff(shifts, events, day, n - 1) >= row[n - 1]));
        }
    }
}

/// There is no finding on coverage in the first `days` days of the week
/// exactly when every quarter-hour of those days has the staff free that it
/// asks for.
pub proof fn lemma_no_coverage_findings(
    lists: Seq<Seq<ShiftView>>,
    events: Seq<EventView>,
    rows: Seq<Seq<u32>>,
    days: nat,
)
    requires
        days <= 7,
    ensures
        coverage_findings(lists, events, rows, days).len() == 0 <==> (forall|d: int, q: int|
            0 <= d < days && 0 <= q < 96 ==> #[trigger] free_staff(
                lists[d],
                events,
                Day::at(d as nat).unwrap(),
                q,
            ) >= rows[d][q]),
    decreases days,
{
    if days > 0 {
        let last = (days - 1) as nat;
        let day = Day::at(last).unwrap();
        lemma_no_coverage_findings(lists, events, rows, last);
        lemma_no_slot_findings(lists[last as int], events, rows[last as int], day, 96);
        if coverage_findings(lists, events, rows, days).len() != 0 {
            if coverage_findings(lists, events, rows, last).len() == 0 {
                let q = choose|q: int|
                    0 <= q < 96 && !(#[trigger] free_staff(lists[last as int], events, day, q)
                        >= rows[last as int][q]);
                assert(!(free_staff(
                    lists[last as int],
                    events,
                    Day::at(last as int as nat).unwrap(),
                    q,
                ) >= rows[last as int][q]));
            }
        }
    }
}

/// Summing an employee's quarter-hours one shift further.
pub proof fn lemma_quarters_in_step(shifts: Seq<ShiftView>, id: Seq<char>, i: int)
    requires
        0 <= i < shifts.len(),
    ensures
        quarters_in(shifts.take(i + 1), id) == match quarters_in(shifts.take(i), id) {
            Err(e) => Err(e),
            Ok(t) => if shifts[i].emp_id != id {
                Ok(t)
            } else {
                match span_len(shifts[i].span()) {
                    Err(e) => Err(e),
                    Ok(n) => Ok(t + n),
                }
            },
        },
{
    assert(shifts.take(i + 1).drop_last() =~= shifts.take(i));
}

/// Once the sum of an employee's quarter-hours over the days of the week
/// has met a fault, it stays that fault however many days follow.
pub proof fn lemma_week_fault_stays(lists: Seq<Seq<ShiftView>>, id: Seq<char>, k: nat, days: nat)
    requires
        k <= days,
        quarters_assigned(lists, id, k) is Err,
    ensures
        quarters_assigned(lists, id, days) == quarters_assigned(lists, id, k),
    decreases days - k,
{
    if k < days {
        lemma_week_fault_stays(lists, id, k, (days - 1) as nat);
    }
}

/// Once the sum of an employee's quarter-hours has met a fault, it stays that
/// fault however many shifts follow.
pub proof fn lemma_quarters_fault_stays(shifts: Seq<ShiftView>, id: Seq<char>, k: int)
    requires
        0 <= k <= shifts.len(),
        quarters_in(shifts.take(k), id) is Err,
    ensures
        quarters_in(shifts, id) == quarters_in(shifts.take(k), id),
    decreases shifts.len() - k,
{
    if k == shifts.len() {
        assert(shifts.take(k) =~= shifts);
    } else {
        lemma_quarters_in_step(shifts, id, k);
        lemma_quarters_fault_stays(shifts, id, k + 1);
    }
}

/// The only fault that summing an employee's quarter-hours can meet is a
/// shift that runs backwards.
pub proof fn lemma_quarters_fault_kind(lists: Seq<Seq<ShiftView>>, id: Seq<char>, days: nat)
    ensures
        quarters_assigned(lists, id, days) matches Err(e) ==> e == SchedError::TimeRangeError,
    decreases days,
{
    if days > 0 {
        lemma_quarters_fault_kind(lists, id, (days - 1) as nat);
        lemma_day_fault_kind(lists[days - 1], id);
    }
}

/// The only fault that summing an employee's quarter-hours over one day can
/// meet is a shift that runs backwards.
pub proof fn lemma_day_fault_kind(shifts: Seq<ShiftView>, id: Seq<char>)
    ensures
        quarters_in(shifts, id) matches Err(e) ==> e == SchedError::TimeRangeError,
    decreases shifts.len(),
{
    if shifts.len() > 0 {
        lemma_day_fault_kind(shifts.drop_last(), id);
    }
}

} // verus!
