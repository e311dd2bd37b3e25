//! Stretching all of one employee's shifts over the week, each in the
//! direction that a list of directions gives it.

use vstd::prelude::*;
use crate::error::SchedError;
use crate::shift::{expanded, lemma_expanded_bounds, ShiftView, Span};

verus! {

/// The number of shifts in `list` that belong to the employee `id`.
pub open spec fn shifts_of(list: Seq<ShiftView>, id: Seq<char>) -> nat
    decreases list.len(),
{
    if list.len() == 0 {
        0
    } else {
        shifts_of(list.drop_last(), id) + if list.last().emp_id == id {
            1nat
        } else {
            0nat
        }
    }
}

/// The number of shifts in the first `days` days that belong to the employee `id`.
pub open spec fn shifts_before(lists: Seq<Seq<ShiftView>>, id: Seq<char>, days: nat) -> nat
    decreases days,
{
    if days == 0 {
        0
    } else {
        shifts_before(lists, id, (days - 1) as nat) + shifts_of(lists[days - 1], id)
    }
}

/// The direction in which the employee's shift number `k` is stretched
/// first: forward if `directions` says so at `k`, and also where the list
/// has run out.
pub open spec fn direction(directions: Seq<bool>, k: nat) -> bool {
    if k < directions.len() {
        directions[k as int]
    } else {
        true
    }
}

/// One day's shifts after those of the employee `id` were stretched on a day
/// whose requirements are `row`. The employee's shifts take their directions
/// from `directions` in order, the first of this day being number `used`. The
/// first shift that meets a fault decides the fault of the whole.
pub open spec fn expand_list(
    row: Seq<u32>,
    list: Seq<ShiftView>,
    id: Seq<char>,
    directions: Seq<bool>,
    used: nat,
) -> Result<Seq<ShiftView>, SchedError>
    decreases list.len(),
{
    if list.len() == 0 {
        Ok(Seq::empty())
    } else {
        match expand_list(row, list.drop_last(), id, directions, used) {
            Err(e) => Err(e),
            Ok(done) => expand_next(
                row,
                done,
                list.last(),
                id,
                direction(directions, used + shifts_of(list.drop_last(), id)),
            ),
        }
    }
}

/// The shifts `done` with one more shift behind them: as it is where it
/// belongs to another employee, stretched where it belongs to `id`.
pub open spec fn expand_next(
    row: Seq<u32>,
    done: Seq<ShiftView>,
    shift: ShiftView,
    id: Seq<char>,
    forward_first: bool,
) -> Result<Seq<ShiftView>, SchedError> {
    if shift.emp_id != id {
        Ok(done.push(shift))
    } else {
        match expanded(row, shift.span(), forward_first) {
            Err(e) => Err(e),
            Ok(span) => Ok(done.push(shift.with_span(span))),
        }
    }
}

/// The shifts of the first `days` days of the week after those of the
/// employee `id` were stretched, day by day.
pub open spec fn expand_week(
    rows: Seq<Seq<u32>>,
    lists: Seq<Seq<ShiftView>>,
    id: Seq<char>,
    directions: Seq<bool>,
    days: nat,
) -> Result<Seq<Seq<ShiftView>>, SchedError>
    decreases days,
{
    if days == 0 {
        Ok(Seq::empty())
    } else {
        match expand_week(rows, lists, id, directions, (days - 1) as nat) {
            Err(e) => Err(e),
            Ok(done) => match expand_list(
                rows[days - 1],
                lists[days - 1],
                id,
                directions,
                shifts_before(lists, id, (days - 1) as nat),
            ) {
                Err(e) => Err(e),
                Ok(list) => Ok(done.push(list)),
            },
        }
    }
}

/// Counting an employee's shifts one shift further.
pub proof fn lemma_shifts_of_step(list: Seq<ShiftView>, id: Seq<char>, i: int)
    requires
        0 <= i < list.len(),
    ensures
        shifts_of(list.take(i + 1), id) == shifts_of(list.take(i), id) + if list[i].emp_id == id {
            1nat
        } else {
            0nat
        },
{
    assert(list.take(i + 1).drop_last() =~= list.take(i));
}

/// Stretching a day's shifts one shift further.
pub proof fn lemma_expand_list_step(
    row: Seq<u32>,
    list: Seq<ShiftView>,
    id: Seq<char>,
    directions: Seq<bool>,
    used: nat,
    i: int,
)
    requires
        0 <= i < list.len(),
    ensures
        expand_list(row, list.take(i + 1), id, directions, used) == match expand_list(
            row,
            list.take(i),
            id,
            directions,
            used,
        ) {
            Err(e) => Err(e),
            Ok(done) => expand_next(
                row,
                done,
                list[i],
                id,
                direction(directions, used + shifts_of(list.take(i), id)),
            ),
        },
{
    assert(list.take(i + 1).drop_last() =~= list.take(i));
}

/// Once stretching a day's shifts has met a fault, it stays that fault
/// however many shifts follow.
pub proof fn lemma_expand_list_fault_stays(
    row: Seq<u32>,
    list: Seq<ShiftView>,
    id: Seq<char>,
    directions: Seq<bool>,
    used: nat,
    k: int,
)
    requires
        0 <= k <= list.len(),
        expand_list(row, list.take(k), id, directions, used) is Err,
    ensures
        expand_list(row, list, id, directions, used) == expand_list(
            row,
            list.take(k),
            id,
            directions,
            used,
        ),
    decreases list.len() - k,
{
    if k == list.len() {
        assert(list.take(k) =~= list);
    } else {
        lemma_expand_list_step(row, list, id, directions, used, k);
        lemma_expand_list_fault_stays(row, list, id, directions, used, k + 1);
    }
}

/// Once stretching the week's shifts has met a fault, it stays that fault
/// however many days follow.
pub proof fn lemma_expand_week_fault_stays(
    rows: Seq<Seq<u32>>,
    lists: Seq<Seq<ShiftView>>,
    id: Seq<char>,
    directions: Seq<bool>,
    k: nat,
    days: nat,
)
    requires
        k <= days,
        expand_week(rows, lists, id, directions, k) is Err,
    ensures
        expand_week(rows, lists, id, directions, days) == expand_week(
            rows,
            lists,
            id,
            directions,
            k,
        ),
    decreases days - k,
{
    if k < days {
        lemma_expand_week_fault_stays(rows, lists, id, directions, k, (days - 1) as nat);
    }
}

/// Stretching keeps every shift in its place and with its employee, and
/// leaves the shifts of other employees as they were.
pub proof fn lemma_expand_list_keeps_places(
    row: Seq<u32>,
    list: Seq<ShiftView>,
    id: Seq<char>,
    directions: Seq<bool>,
    used: nat,
)
    requires
        expand_list(row, list, id, directions, used) is Ok,
    ensures
        ({
            let out = expand_list(row, list, id, directions, used)->Ok_0;
            &&& out.len() == list.len()
            &&& forall|i: int| 0 <= i < list.len() ==> (#[trigger] out[i]).emp_id == list[i].emp_id
            &&& forall|i: int|
                0 <= i < list.len() && list[i].emp_id != id ==> #[trigger] out[i] == list[i]
            &&& forall|i: int|
                0 <= i < list.len() && list[i].emp_id == id ==> expanded(
                    row,
                    list[i].span(),
                    direction(directions, used + shifts_of(list.take(i), id)),
                ) == Ok::<Span, SchedError>((#[trigger] out[i]).span())
        }),
    decreases list.len(),
{
    if list.len() > 0 {
        let rest = list.drop_last();
        lemma_expand_list_keeps_places(row, rest, id, directions, used);
        let out = expand_list(row, list, id, directions, used)->Ok_0;
        let done = expand_list(row, rest, id, directions, used)->Ok_0;
        assert forall|i: int| 0 <= i < list.len() && list[i].emp_id == id implies expanded(
            row,
            list[i].span(),
            direction(directions, used + shifts_of(list.take(i), id)),
        ) == Ok::<Span, SchedError>((#[trigger] out[i]).span()) by {
            if i < rest.len() {
                assert(rest.take(i) =~= list.take(i));
                assert(out[i] == done[i]);
            } else {
                assert(list.take(i) =~= rest);
            }
        }
    }
}

/// Whether `after` is `before` stretched within bounds on a day whose
/// requirements are `row`: the same employee's, with neither end moved
/// inward or out of the day; no longer than a full shift, or as it was where
/// it was that long already; and with staff asked for in every slot from one
/// past the old end up to the new end, and from the new start up to the old
/// start.
pub open spec fn stretched_within(row: Seq<u32>, before: ShiftView, after: ShiftView) -> bool {
    &&& after.emp_id == before.emp_id
    &&& after.start <= before.start <= before.end <= after.end < 96
    &&& before.end - before.start >= 32 ==> after == before
    &&& before.end - before.start <= 32 ==> after.end - after.start <= 32
    &&& forall|q: int| before.end < q <= after.end ==> row[q] != 0
    &&& forall|q: int| after.start <= q < before.start ==> row[q] != 0
}

/// Where stretching the employee's shifts of a day succeeds, each of them
/// is stretched within bounds, and every other shift is as it was.
pub proof fn lemma_expand_list_bounds(
    row: Seq<u32>,
    list: Seq<ShiftView>,
    id: Seq<char>,
    directions: Seq<bool>,
    used: nat,
)
    requires
        expand_list(row, list, id, directions, used) is Ok,
        forall|i: int| 0 <= i < list.len() ==> (#[trigger] list[i]).end < 96,
    ensures
        ({
            let out = expand_list(row, list, id, directions, used)->Ok_0;
            &&& out.len() == list.len()
            &&& forall|i: int|
                0 <= i < list.len() ==> if list[i].emp_id == id {
                    stretched_within(row, list[i], #[trigger] out[i])
                } else {
                    out[i] == list[i]
                }
        }),
{
    lemma_expand_list_keeps_places(row, list, id, directions, used);
    let out = expand_list(row, list, id, directions, used)->Ok_0;
    assert forall|i: int| 0 <= i < list.len() implies if list[i].emp_id == id {
        stretched_within(row, list[i], #[trigger] out[i])
    } else {
        out[i] == list[i]
    } by {
        if list[i].emp_id == id {
            let first = direction(directions, used + shifts_of(list.take(i), id));
            assert(expanded(row, list[i].span(), first) == Ok::<Span, SchedError>(out[i].span()));
            lemma_expanded_bounds(row, list[i].span(), first);
        }
    }
}

/// Where stretching the employee's shifts of the week succeeds, each of
/// them is stretched within bounds on its day, and every other shift is as
/// it was: no shift comes out longer than a full shift unless it went in so,
/// and none is stretched past a slot that asks for no staff.
pub proof fn lemma_expand_week_bounds(
    rows: Seq<Seq<u32>>,
    lists: Seq<Seq<ShiftView>>,
    id: Seq<char>,
    directions: Seq<bool>,
    days: nat,
)
    requires
        days <= lists.len(),
        expand_week(rows, lists, id, directions, days) is Ok,
        forall|d: int, i: int|
            0 <= d < lists.len() && 0 <= i < lists[d].len() ==> (#[trigger] lists[d][i]).end < 96,
    ensures
        ({
            let out = expand_week(rows, lists, id, directions, days)->Ok_0;
            &&& out.len() == days
            &&& forall|d: int| 0 <= d < days ==> (#[trigger] out[d]).len() == lists[d].len()
            &&& forall|d: int, i: int|
                0 <= d < days && 0 <= i < lists[d].len() ==> if lists[d][i].emp_id == id {
                    stretched_within(rows[d], lists[d][i], #[trigger] out[d][i])
                } else {
                    out[d][i] == lists[d][i]
                }
        }),
    decreases days,
{
    if days > 0 {
        let last = (days - 1) as nat;
        lemma_expand_week_bounds(rows, lists, id, directions, last);
        lemma_expand_list_bounds(
            rows[last as int],
            lists[last as int],
            id,
            directions,
            shifts_before(lists, id, last),
        );
    }
}

} // verus!
