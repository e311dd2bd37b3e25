//! Employees and events as they come in records: lists of text fields, as a
//! table with one row for each has them.

use vstd::prelude::*;
use crate::day::{lemma_day_name_round_trip, Day};
use crate::emp::{Employee, HoursView};
use crate::event::{Event, EventView};
use crate::text::{
    chars_of, i32_token, parse_i32, parse_u8, parse_unsigned, split_items, split_list, texts,
    u8_token, unsigned_token,
};
use crate::time::{clock_qi, Time};

verus! {

/// Why a record does not make an employee or an event.
#[derive(Clone, Copy, Debug, PartialEq, Eq, Structural)]
pub enum RecordError {
    /// The record, or the list of headers, is too short for a field that is read.
    MissingField,
    /// A field that should hold a number holds something else, or a number too large.
    BadNumber,
    /// The field for the day does not hold the name of a day.
    BadDay,
    /// A field for a time does not hold a time of the day.
    BadTime,
}

/// The event that a record describes: its name, its kind, its day, its
/// start and its end in the first five fields, its headcount in the eighth,
/// and in the ninth the employees it requires, written as a list. The fields
/// are read in that order, and the first that is missing or cannot be read
/// decides the fault.
pub open spec fn event_of_record(rec: Seq<Seq<char>>) -> Result<EventView, RecordError> {
    if rec.len() < 3 {
        Err(RecordError::MissingField)
    } else if Day::named(rec[2]) is None {
        Err(RecordError::BadDay)
    } else if rec.len() < 4 {
        Err(RecordError::MissingField)
    } else if clock_qi(rec[3]) is Err {
        Err(RecordError::BadTime)
    } else if rec.len() < 5 {
        Err(RecordError::MissingField)
    } else if clock_qi(rec[4]) is Err {
        Err(RecordError::BadTime)
    } else if rec.len() < 8 {
        Err(RecordError::MissingField)
    } else if i32_token(rec[7]) is None {
        Err(RecordError::BadNumber)
    } else if rec.len() < 9 {
        Err(RecordError::MissingField)
    } else {
        Ok(
            EventView {
                name: rec[0],
                req_emp_ids: split_list(rec[8]),
                day: Day::named(rec[2])->0,
                start: clock_qi(rec[3])->Ok_0,
                end: clock_qi(rec[4])->Ok_0,
                num_emps: i32_token(rec[7])->0,
                kind: rec[1],
                setup: 2,
                breakdown: 8,
            },
        )
    }
}

/// The first fault among the ability fields of a record, which are the
/// fields from the sixth up to, not including, field `n`. An empty field is
/// passed over; another needs a header above it and must hold a number that
/// fits a byte.
pub open spec fn abilities_fault(rec: Seq<Seq<char>>, headers: Seq<Seq<char>>, n: nat) -> Option<
    RecordError,
>
    decreases n,
{
    if n <= 5 {
        None
    } else {
        match abilities_fault(rec, headers, (n - 1) as nat) {
            Some(e) => Some(e),
            None => if rec[n - 1].len() == 0 {
                None
            } else if headers.len() <= n - 1 {
                Some(RecordError::MissingField)
            } else if u8_token(rec[n - 1]) is None {
                Some(RecordError::BadNumber)
            } else {
                None
            },
        }
    }
}

/// The level of the ability `name` that the ability fields of a record
/// before field `n` give: that of the last field under a header `name` that
/// is not empty.
pub open spec fn ability_in(
    rec: Seq<Seq<char>>,
    headers: Seq<Seq<char>>,
    name: Seq<char>,
    n: nat,
) -> Option<u8>
    decreases n,
{
    if n <= 5 {
        None
    } else if rec[n - 1].len() > 0 && headers[n - 1] == name {
        match u8_token(rec[n - 1]) {
            Some(v) => Some(v as u8),
            None => None,
        }
    } else {
        ability_in(rec, headers, name, (n - 1) as nat)
    }
}

/// The first fault of a record that should describe an employee, if it has
/// one. The fields are read in order: the identifier, the days off, the
/// fewest and the most hours, the role, then the abilities.
pub open spec fn employee_fault(rec: Seq<Seq<char>>, headers: Seq<Seq<char>>) -> Option<
    RecordError,
> {
    if rec.len() < 3 {
        Some(RecordError::MissingField)
    } else if unsigned_token(rec[2]) is None {
        Some(RecordError::BadNumber)
    } else if rec.len() < 4 {
        Some(RecordError::MissingField)
    } else if unsigned_token(rec[3]) is None {
        Some(RecordError::BadNumber)
    } else if rec.len() < 5 {
        Some(RecordError::MissingField)
    } else {
        abilities_fault(rec, headers, rec.len())
    }
}

/// Whether `e` is the employee that a record describes: known by the first
/// field, off on the days that the second field lists by name, with hours
/// from the third field to the fourth, in the role of the fifth field, and
/// with the abilities that the further fields give under their headers.
pub open spec fn is_employee_of(e: Employee, rec: Seq<Seq<char>>, headers: Seq<Seq<char>>) -> bool {
    &&& e.id_text() == rec[0]
    &&& forall|d: Day| #[trigger] e.available(d) == !split_list(rec[1]).contains(d.name())
    &&& e.hours_range() == (HoursView {
        min: unsigned_token(rec[2])->0,
        max: unsigned_token(rec[3])->0,
    })
    &&& e.role_list() == seq![rec[4]]
    &&& forall|name: Seq<char>| #[trigger]
        e.ability(name) == ability_in(rec, headers, name, rec.len())
}

/// A string names at most one day, and only by that day's full name.
pub proof fn lemma_named_is_name(s: Seq<char>, d: Day)
    ensures
        Day::named(s) == Some(d) <==> s == d.name(),
{
    lemma_day_name_round_trip(d);
}

/// The event that the record `sr` describes.
pub fn build_event(sr: &Vec<String>) -> (r: Result<Event, RecordError>)
    ensures
        match r {
            Ok(ev) => event_of_record(texts(sr@)) == Ok::<EventView, RecordError>(ev@),
            Err(e) => event_of_record(texts(sr@)) == Err::<EventView, RecordError>(e),
        },
{
    let ghost rec = texts(sr@);
    let n: usize = sr.len();
    if n < 3 {
        return Err(RecordError::MissingField);
    }
    assert(rec[0] == sr@[0]@ && rec[1] == sr@[1]@ && rec[2] == sr@[2]@);
    let name = sr[0].clone();
    let kind = sr[1].clone();
    let day = match Day::from_str(sr[2].as_str()) {
        Some(d) => d,
        None => {
            return Err(RecordError::BadDay);
        },
    };
    if n < 4 {
        return Err(RecordError::MissingField);
    }
    assert(rec[3] == sr@[3]@);
    let start = match Time::from_str(sr[3].as_str()) {
        Ok(t) => t,
        Err(_) => {
            return Err(RecordError::BadTime);
        },
    };
    if n < 5 {
        return Err(RecordError::MissingField);
    }
    assert(rec[4] == sr@[4]@);
    let end = match Time::from_str(sr[4].as_str()) {
        Ok(t) => t,
        Err(_) => {
            return Err(RecordError::BadTime);
        },
    };
    if n < 8 {
        return Err(RecordError::MissingField);
    }
    assert(rec[7] == sr@[7]@);
    let count = chars_of(sr[7].as_str());
    assert(count@.subrange(0, count@.len() as int) =~= count@);
    let num_emps: i32 = match parse_i32(&count, 0, count.len()) {
        Some(v) => v,
        None => {
            return Err(RecordError::BadNumber);
        },
    };
    if n < 9 {
        return Err(RecordError::MissingField);
    }
    assert(rec[8] == sr@[8]@);
    let req_emp_ids = split_items(sr[8].as_str());
    Ok(
        Event {
            name,
            req_emp_ids,
            day,
            start,
            end,
            num_emps,
            kind,
            setup: Time::from_qi(2).unwrap(),
            breakdown: Time::from_hour(2).unwrap(),
        },
    )
}

/// The employee that the record `sr` describes, with `headers` naming the
/// ability that each further field holds the level of.
pub fn build_empl(sr: &Vec<String>, headers: &Vec<String>) -> (r: Result<Employee, RecordError>)
    ensures
        match r {
            Ok(e) => employee_fault(texts(sr@), texts(headers@)) is None && is_employee_of(
                e,
                texts(sr@),
                texts(headers@),
            ),
            Err(x) => employee_fault(texts(sr@), texts(headers@)) == Some(x),
        },
{
    let ghost rec = texts(sr@);
    let ghost heads = texts(headers@);
    let n: usize = sr.len();
    if n < 3 {
        return Err(RecordError::MissingField);
    }
    assert(rec[0] == sr@[0]@ && rec[1] == sr@[1]@ && rec[2] == sr@[2]@);
    let mut empl = Employee::new(sr[0].clone());
    let words = split_items(sr[1].as_str());
    let ghost listed = split_list(rec[1]);
    let mut k: usize = 0;
    while k < words.len()
        invariant
            k <= words@.len(),
            rec.len() >= 3,
            texts(words@) == listed,
            empl.id_text() == rec[0],
            empl.hours_range() == (HoursView { min: 38, max: 40 }),
            empl.role_list() == Seq::<Seq<char>>::empty(),
            forall|name: Seq<char>| empl.ability(name) is None,
            forall|d: Day| #[trigger] empl.available(d) == !listed.take(k as int).contains(d.name()),
        decreases words@.len() - k,
    {
        let ghost word = listed[k as int];
        assert(word == words@[k as int]@);
        let ghost before = empl;
        match Day::from_str(words[k].as_str()) {
            Some(day) => {
                empl.set_available(day, false);
                proof {
                    assert forall|d: Day| #[trigger]
                        empl.available(d) == !listed.take(k + 1).contains(d.name()) by {
                        lemma_named_is_name(word, d);
                        lemma_named_is_name(word, day);
                        lemma_contains_step(listed, k as int, d.name());
                    }
                }
            },
            None => {
                proof {
                    assert forall|d: Day| #[trigger]
                        empl.available(d) == !listed.take(k + 1).contains(d.name()) by {
                        lemma_named_is_name(word, d);
                        lemma_contains_step(listed, k as int, d.name());
                    }
                }
            },
        }
        k = k + 1;
    }
    assert(listed.take(k as int) =~= listed);
    let low = chars_of(sr[2].as_str());
    assert(low@.subrange(0, low@.len() as int) =~= low@);
    let min: usize = match parse_unsigned(&low, 0, low.len()) {
        Some(v) => v,
        None => {
            return Err(RecordError::BadNumber);
        },
    };
    if n < 4 {
        return Err(RecordError::MissingField);
    }
    assert(rec[3] == sr@[3]@);
    let high = chars_of(sr[3].as_str());
    assert(high@.subrange(0, high@.len() as int) =~= high@);
    let max: usize = match parse_unsigned(&high, 0, high.len()) {
        Some(v) => v,
        None => {
            return Err(RecordError::BadNumber);
        },
    };
    empl.hours().set(min, max);
    if n < 5 {
        return Err(RecordError::MissingField);
    }
    assert(rec[4] == sr@[4]@);
    empl.add_role(sr[4].as_str());
    assert(empl.role_list() =~= seq![rec[4]]);
    let mut i: usize = 5;
    while i < n
        invariant
            5 <= i <= n == sr@.len(),
            rec == texts(sr@),
            heads == texts(headers@),
            unsigned_token(rec[2]) == Some(min as nat),
            unsigned_token(rec[3]) == Some(max as nat),
            abilities_fault(rec, heads, i as nat) is None,
            empl.id_text() == rec[0],
            forall|d: Day| #[trigger] empl.available(d) == !listed.contains(d.name()),
            empl.hours_range() == (HoursView { min: min as nat, max: max as nat }),
            empl.role_list() == seq![rec[4]],
            forall|name: Seq<char>| #[trigger]
                empl.ability(name) == ability_in(rec, heads, name, i as nat),
        decreases n - i,
    {
        assert(rec[i as int] == sr@[i as int]@);
        let field = chars_of(sr[i].as_str());
        if field.len() > 0 {
            if i >= headers.len() {
                proof {
                    lemma_abilities_fault_stays(rec, heads, i as nat + 1, n as nat);
                }
                return Err(RecordError::MissingField);
            }
            assert(heads[i as int] == headers@[i as int]@);
            let level: u8 = match parse_u8(&field) {
                Some(v) => v,
                None => {
                    proof {
                        lemma_abilities_fault_stays(rec, heads, i as nat + 1, n as nat);
                    }
                    return Err(RecordError::BadNumber);
                },
            };
            empl.set_abil(headers[i].as_str(), level);
        }
        i = i + 1;
    }
    Ok(empl)
}

/// Once the ability fields of a record have met a fault, it stays that
/// fault however many fields follow.
pub proof fn lemma_abilities_fault_stays(
    rec: Seq<Seq<char>>,
    headers: Seq<Seq<char>>,
    k: nat,
    n: nat,
)
    requires
        k <= n,
        abilities_fault(rec, headers, k) is Some,
    ensures
        abilities_fault(rec, headers, n) == abilities_fault(rec, headers, k),
    decreases n - k,
{
    if k < n {
        lemma_abilities_fault_stays(rec, headers, k, (n - 1) as nat);
    }
}

/// Whether a list holds `x` among its first `k + 1` items, by whether it
/// holds it among the first `k` or at place `k`.
pub proof fn lemma_contains_step(list: Seq<Seq<char>>, k: int, x: Seq<char>)
    requires
        0 <= k < list.len(),
    ensures
        list.take(k + 1).contains(x) <==> (list.take(k).contains(x) || list[k] == x),
{
    let short = list.take(k);
    let long = list.take(k + 1);
    if short.contains(x) {
        let j = choose|j: int| 0 <= j < short.len() && short[j] == x;
        assert(long[j] == x);
    }
    if list[k] == x {
        assert(long[k] == x);
    }
    if long.contains(x) {
        let j = choose|j: int| 0 <= j < long.len() && long[j] == x;
        if j < k {
            assert(short[j] == x);
        }
    }
}

} // verus!
