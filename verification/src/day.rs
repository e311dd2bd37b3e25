//! The days of the store's week, which begins on Saturday.

use vstd::prelude::*;
use crate::text::same_text;

verus! {

/// A day of the week.
#[derive(Clone, Copy, Debug, PartialEq, Eq, Structural)]
pub enum Day {
    Saturday,
    Sunday,
    Monday,
    Tuesday,
    Wednesday,
    Thursday,
    Friday,
}

impl Day {
    /// The place of this day in the week, counted from Saturday as 0.
    pub open spec fn index(self) -> nat {
        match self {
            Day::Saturday => 0,
            Day::Sunday => 1,
            Day::Monday => 2,
            Day::Tuesday => 3,
            Day::Wednesday => 4,
            Day::Thursday => 5,
            Day::Friday => 6,
        }
    }

    /// The day at place `index` of the week, if there is one.
    pub open spec fn at(index: nat) -> Option<Day> {
        if index == 0 {
            Some(Day::Saturday)
        } else if index == 1 {
            Some(Day::Sunday)
        } else if index == 2 {
            Some(Day::Monday)
        } else if index == 3 {
            Some(Day::Tuesday)
        } else if index == 4 {
            Some(Day::Wednesday)
        } else if index == 5 {
            Some(Day::Thursday)
        } else if index == 6 {
            Some(Day::Friday)
        } else {
            None
        }
    }

    /// The English name of this day.
    pub open spec fn name(self) -> Seq<char> {
        match self {
            Day::Saturday => "Saturday"@,
            Day::Sunday => "Sunday"@,
            Day::Monday => "Monday"@,
            Day::Tuesday => "Tuesday"@,
            Day::Wednesday => "Wednesday"@,
            Day::Thursday => "Thursday"@,
            Day::Friday => "Friday"@,
        }
    }

    /// The three-letter name of this day.
    pub open spec fn short_name(self) -> Seq<char> {
        match self {
            Day::Saturday => "Sat"@,
            Day::Sunday => "Sun"@,
            Day::Monday => "Mon"@,
            Day::Tuesday => "Tue"@,
            Day::Wednesday => "Wed"@,
            Day::Thursday => "Thu"@,
            Day::Friday => "Fri"@,
        }
    }

    /// The day that `s` names, if it is the name of one, letter for letter.
    pub open spec fn named(s: Seq<char>) -> Option<Day> {
        if s == "Saturday"@ {
            Some(Day::Saturday)
        } else if s == "Sunday"@ {
            Some(Day::Sunday)
        } else if s == "Monday"@ {
            Some(Day::Monday)
        } else if s == "Tuesday"@ {
            Some(Day::Tuesday)
        } else if s == "Wednesday"@ {
            Some(Day::Wednesday)
        } else if s == "Thursday"@ {
            Some(Day::Thursday)
        } else if s == "Friday"@ {
            Some(Day::Friday)
        } else {
            None
        }
    }

    /// The day at place `index` of the week.
    pub fn from_index(index: usize) -> (r: Option<Day>)
        ensures
            r == Day::at(index as nat),
    {
        match index {
            0 => Some(Day::Saturday),
            1 => Some(Day::Sunday),
            2 => Some(Day::Monday),
            3 => Some(Day::Tuesday),
            4 => Some(Day::Wednesday),
            5 => Some(Day::Thursday),
            6 => Some(Day::Friday),
            _ => None,
        }
    }

    /// The day with the name `s`.
    pub fn from_str(s: &str) -> (r: Option<Day>)
        ensures
            r == Day::named(s@),
    {
        if same_text(s, "Saturday") {
            Some(Day::Saturday)
        } else if same_text(s, "Sunday") {
            Some(Day::Sunday)
        } else if same_text(s, "Monday") {
            Some(Day::Monday)
        } else if same_text(s, "Tuesday") {
            Some(Day::Tuesday)
        } else if same_text(s, "Wednesday") {
            Some(Day::Wednesday)
        } else if same_text(s, "Thursday") {
            Some(Day::Thursday)
        } else if same_text(s, "Friday") {
            Some(Day::Friday)
        } else {
            None
        }
    }

    /// The place of this day in the week.
    pub fn to_index(&self) -> (i: usize)
        ensures
            i == self.index(),
            i < 7,
    {
        match self {
            Day::Saturday => 0,
            Day::Sunday => 1,
            Day::Monday => 2,
            Day::Tuesday => 3,
            Day::Wednesday => 4,
            Day::Thursday => 5,
            Day::Friday => 6,
        }
    }

    /// The three-letter name of this day.
    pub fn abbreviation(&self) -> (s: &'static str)
        ensures
            s@ == self.short_name(),
    {
        match self {
            Day::Saturday => "Sat",
            Day::Sunday => "Sun",
            Day::Monday => "Mon",
            Day::Tuesday => "Tue",
            Day::Wednesday => "Wed",
            Day::Thursday => "Thu",
            Day::Friday => "Fri",
        }
    }

    /// The name of this day.
    pub fn to_string(&self) -> (s: String)
        ensures
            s@ == self.name(),
    {
        let name: &str = match self {
            Day::Saturday => "Saturday",
            Day::Sunday => "Sunday",
            Day::Monday => "Monday",
            Day::Tuesday => "Tuesday",
            Day::Wednesday => "Wednesday",
            Day::Thursday => "Thursday",
            Day::Friday => "Friday",
        };
        String::from_str(name)
    }
}

/// Every day has a place in the week, and that place leads back to the day.
pub proof fn lemma_day_index_round_trip(d: Day)
    ensures
        d.index() < 7,
        Day::at(d.index()) == Some(d),
{
}

/// Every place below seven holds a day, and that day sits at that place.
pub proof fn lemma_day_at_round_trip(i: nat)
    ensures
        i < 7 <==> Day::at(i) is Some,
        Day::at(i) matches Some(d) ==> d.index() == i,
{
}

/// The name of a day names that day and no other.
pub proof fn lemma_day_name_round_trip(d: Day)
    ensures
        Day::named(d.name()) == Some(d),
{
    reveal_strlit("Saturday");
    reveal_strlit("Sunday");
    reveal_strlit("Monday");
    reveal_strlit("Tuesday");
    reveal_strlit("Wednesday");
    reveal_strlit("Thursday");
    reveal_strlit("Friday");
    assert("Saturday"@.len() == 8 && "Saturday"@[0] == 'S');
    assert("Sunday"@.len() == 6 && "Sunday"@[0] == 'S');
    assert("Monday"@.len() == 6 && "Monday"@[0] == 'M');
    assert("Tuesday"@.len() == 7 && "Tuesday"@[0] == 'T');
    assert("Wednesday"@.len() == 9 && "Wednesday"@[0] == 'W');
    assert("Thursday"@.len() == 8 && "Thursday"@[0] == 'T');
    assert("Friday"@.len() == 6 && "Friday"@[0] == 'F');
}

} // verus!
