//! Employees and the store's roster of them.

use vstd::prelude::*;
use crate::day::Day;
use crate::error::SchedError;
use crate::table::Table;
use crate::text::{decimal_text, push_decimal, texts};

verus! {

/// The fewest and the most hours that an employee works in a week.
pub struct HoursView {
    pub min: nat,
    pub max: nat,
}

/// A range of weekly hours: the least, then the most.
#[derive(Clone, Copy, Debug, PartialEq, Eq, Structural)]
pub struct Hours(usize, usize);

impl View for Hours {
    type V = HoursView;

    closed spec fn view(&self) -> HoursView {
        HoursView { min: self.0 as nat, max: self.1 as nat }
    }
}

impl Hours {
    /// Sets the fewest hours.
    pub fn set_min(&mut self, m: usize) -> (r: &mut Hours)
        ensures
            r@ == (HoursView { min: m as nat, max: old(self)@.max }),
            *final(self) == *final(r),
    {
        self.0 = m;
        self
    }

    /// Sets the most hours.
    pub fn set_max(&mut self, m: usize) -> (r: &mut Hours)
        ensures
            r@ == (HoursView { min: old(self)@.min, max: m as nat }),
            *final(self) == *final(r),
    {
        self.1 = m;
        self
    }

    /// Sets both ends of the range.
    pub fn set(&mut self, min: usize, max: usize) -> (r: &mut Hours)
        ensures
            r@ == (HoursView { min: min as nat, max: max as nat }),
            *final(self) == *final(r),
    {
        self.0 = min;
        self.1 = max;
        self
    }

    /// The fewest hours.
    pub fn min(&self) -> (m: usize)
        ensures
            m == self@.min,
    {
        self.0
    }

    /// The most hours.
    pub fn max(&self) -> (m: usize)
        ensures
            m == self@.max,
    {
        self.1
    }
}

/// An employee of the store, known by the identifier `iden`.
#[derive(Debug)]
pub struct Employee {
    pub iden: String,
    avail: [bool; 7],
    hrs: Hours,
    abils: Table<u8>,
    roles: Vec<String>,
}

impl Clone for Employee {
    fn clone(&self) -> (e: Employee)
        ensures
            e.id_text() == self.id_text(),
            forall|d: Day| e.available(d) == self.available(d),
            e.hours_range() == self.hours_range(),
            forall|name: Seq<char>| e.ability(name) == self.ability(name),
            e.role_list() == self.role_list(),
    {
        let abils = self.abils.clone();
        let roles = self.roles.clone();
        proof {
            assert(texts(roles@) =~= texts(self.roles@));
            assert forall|name: Seq<char>| abils.lookup(name) == self.abils.lookup(name) by {
                if self.abils.keys().contains(name) {
                    let i = self.abils.keys().index_of(name);
                    assert(cloned::<u8>(self.abils.values()[i], abils.values()[i]));
                }
            }
        }
        Employee { iden: self.iden.clone(), avail: self.avail, hrs: self.hrs, abils, roles }
    }
}

impl Employee {
    /// The text of the employee's identifier.
    pub closed spec fn id_text(&self) -> Seq<char> {
        self.iden@
    }

    /// Whether the employee can work on `day`.
    pub closed spec fn available(&self, day: Day) -> bool {
        self.avail@[day.index() as int]
    }

    /// The employee's range of weekly hours.
    pub closed spec fn hours_range(&self) -> HoursView {
        self.hrs@
    }

    /// The level of the ability `name`, if the employee has it.
    pub closed spec fn ability(&self, name: Seq<char>) -> Option<u8> {
        self.abils.lookup(name)
    }

    /// The roles that the employee holds, with repeats.
    pub closed spec fn role_list(&self) -> Seq<Seq<char>> {
        texts(self.roles@)
    }

    /// The three-letter names of the days, among the first `n` of the week,
    /// on which the employee can work, each with a space behind it.
    pub open spec fn days_text(&self, n: nat) -> Seq<char>
        decreases n,
    {
        if n == 0 {
            Seq::empty()
        } else {
            let day = Day::at((n - 1) as nat).unwrap();
            self.days_text((n - 1) as nat) + if self.available(day) {
                day.short_name() + " "@
            } else {
                Seq::empty()
            }
        }
    }

    /// The employee in words: a heading with the identifier, the days on
    /// which they can work, and their range of hours.
    pub open spec fn text(&self) -> Seq<char> {
        "\n=== ID: "@ + self.id_text() + " ==="@ + "\nCan work: \n"@ + self.days_text(7)
            + "\nHours range: "@ + decimal_text(self.hours_range().min) + " - "@ + decimal_text(
            self.hours_range().max,
        )
    }

    /// A new employee: free on every day, with 38 to 40 hours a week, no
    /// abilities and no roles.
    pub fn new(iden: String) -> (e: Employee)
        ensures
            e.id_text() == iden@,
            forall|d: Day| e.available(d),
            e.hours_range() == (HoursView { min: 38, max: 40 }),
            forall|name: Seq<char>| e.ability(name) is None,
            e.role_list() == Seq::<Seq<char>>::empty(),
    {
        let e = Employee {
            iden,
            avail: [true;7],
            hrs: Hours(38, 40),
            abils: Table::new(),
            roles: Vec::new(),
        };
        assert(texts(e.roles@) =~= Seq::<Seq<char>>::empty());
        e
    }

    /// The employee's identifier.
    pub fn id(&self) -> (s: String)
        ensures
            s@ == self.id_text(),
    {
        self.iden.clone()
    }

    /// Says whether the employee can work on `day`, and hands back what was
    /// said before.
    pub fn set_available(&mut self, day: Day, b: bool) -> (was: bool)
        ensures
            was == old(self).available(day),
            final(self).available(day) == b,
            forall|d: Day| d != day ==> final(self).available(d) == old(self).available(d),
            final(self).id_text() == old(self).id_text(),
            final(self).hours_range() == old(self).hours_range(),
            forall|name: Seq<char>| final(self).ability(name) == old(self).ability(name),
            final(self).role_list() == old(self).role_list(),
    {
        let d_i: usize = day.to_index();
        let out = self.avail[d_i];
        self.avail[d_i] = b;
        out
    }

    /// Whether the employee can work on `day`.
    pub fn is_available(&self, day: Day) -> (b: bool)
        ensures
            b == self.available(day),
    {
        self.avail[day.to_index()]
    }

    /// The employee's range of weekly hours.
    pub fn get_hours(&self) -> (h: &Hours)
        ensures
            h@ == self.hours_range(),
    {
        &self.hrs
    }

    /// The employee in words.
    pub fn to_string(&self) -> (s: String)
        ensures
            s@ == self.text(),
    {
        let mut out = String::new();
        out.append("\n=== ID: ");
        out.append(self.iden.as_str());
        out.append(" ===");
        out.append("\nCan work: \n");
        let ghost head = out@;
        let mut n: usize = 0;
        assert(out@ =~= head + self.days_text(0));
        while n < 7
            invariant
                n <= 7,
                out@ == head + self.days_text(n as nat),
            decreases 7 - n,
        {
            let day = Day::from_index(n).unwrap();
            if self.is_available(day) {
                out.append(day.abbreviation());
                out.append(" ");
            }
            n = n + 1;
            assert(out@ =~= head + self.days_text(n as nat));
        }
        out.append("\nHours range: ");
        push_decimal(&mut out, self.hrs.min() as u128);
        out.append(" - ");
        push_decimal(&mut out, self.hrs.max() as u128);
        assert(out@ =~= self.text());
        out
    }

    /// Whether the employee holds the role `s`.
    pub fn has_role(&self, s: &str) -> (b: bool)
        ensures
            b == self.role_list().contains(s@),
    {
        let wanted = s.to_owned();
        let n: usize = self.roles.len();
        let mut i: usize = 0;
        while i < n
            invariant
                i <= n == self.roles@.len(),
                wanted@ == s@,
                forall|j: int| 0 <= j < i ==> texts(self.roles@)[j] != s@,
            decreases n - i,
        {
            if self.roles[i] == wanted {
                assert(texts(self.roles@)[i as int] == s@);
                return true;
            }
            i = i + 1;
        }
        false
    }

    /// The employee's range of weekly hours, to be changed in place.
    pub fn hours(&mut self) -> (h: &mut Hours)
        ensures
            h@ == old(self).hours_range(),
            final(self).hours_range() == final(h)@,
            final(self).id_text() == old(self).id_text(),
            forall|d: Day| final(self).available(d) == old(self).available(d),
            forall|name: Seq<char>| final(self).ability(name) == old(self).ability(name),
            final(self).role_list() == old(self).role_list(),
    {
        &mut self.hrs
    }

    /// Records the level `v` of the ability `k`, and hands back the level
    /// that was recorded before, if there was one.
    pub fn set_abil(&mut self, k: &str, v: u8) -> (was: Option<u8>)
        ensures
            was == old(self).ability(k@),
            final(self).ability(k@) == Some(v),
            forall|name: Seq<char>|
                name != k@ ==> final(self).ability(name) == old(self).ability(name),
            final(self).id_text() == old(self).id_text(),
            forall|d: Day| final(self).available(d) == old(self).available(d),
            final(self).hours_range() == old(self).hours_range(),
            final(self).role_list() == old(self).role_list(),
    {
        self.abils.insert(k.to_owned(), v)
    }

    /// The level of the ability `k`.
    pub fn get_abil(&self, k: &str) -> (r: Option<u8>)
        ensures
            r == self.ability(k@),
    {
        let key = k.to_owned();
        match self.abils.get(&key) {
            Some(u) => Some(*u),
            None => None,
        }
    }

    /// Whether the employee has the ability `k` at any level.
    pub fn is_able(&self, k: &str) -> (b: bool)
        ensures
            b == self.ability(k@).is_some(),
    {
        let key = k.to_owned();
        self.abils.get(&key).is_some()
    }

    /// Takes note that the role `s` should go. Roles are kept for the record,
    /// so the list of roles stays as it is.
    pub fn remove_role(&mut self, s: &str)
        ensures
            *final(self) == *old(self),
    {
    }

    /// Adds the role `s` to those that the employee holds.
    pub fn add_role(&mut self, s: &str)
        ensures
            final(self).role_list() == old(self).role_list().push(s@),
            final(self).id_text() == old(self).id_text(),
            forall|d: Day| final(self).available(d) == old(self).available(d),
            final(self).hours_range() == old(self).hours_range(),
            forall|name: Seq<char>| final(self).ability(name) == old(self).ability(name),
    {
        self.roles.push(s.to_owned());
        assert(texts(self.roles@) =~= texts(old(self).roles@).push(s@));
    }
}

/// The store's working employees, each under their identifier.
#[derive(Debug)]
pub struct Roster {
    emps: Table<Employee>,
}

impl Roster {
    /// The identifiers on the roster, in the order in which they first came.
    pub closed spec fn ids(&self) -> Seq<Seq<char>> {
        self.emps.keys()
    }

    /// The employees on the roster, each at the place of their identifier.
    pub closed spec fn members(&self) -> Seq<Employee> {
        self.emps.values()
    }

    /// The range of weekly hours of each employee on the roster, in order.
    pub open spec fn ranges(&self) -> Seq<HoursView> {
        Seq::new(self.members().len(), |i: int| self.members()[i].hours_range())
    }

    /// The first `n` employees of the roster in words, each on new lines.
    pub open spec fn text_of(&self, n: nat) -> Seq<char>
        decreases n,
    {
        if n == 0 {
            Seq::empty()
        } else {
            self.text_of((n - 1) as nat) + "\n"@ + self.members()[n - 1].text()
        }
    }

    /// What holds of every roster: each identifier has its employee, and no
    /// identifier occurs twice.
    pub open spec fn well_formed(&self) -> bool {
        &&& self.ids().len() == self.members().len()
        &&& self.ids().no_duplicates()
    }

    /// The employee under the identifier `id`, if the roster has one.
    pub open spec fn member(&self, id: Seq<char>) -> Option<Employee> {
        if self.ids().contains(id) {
            Some(self.members()[self.ids().index_of(id)])
        } else {
            None
        }
    }

    /// An empty roster.
    pub fn new() -> (r: Roster)
        ensures
            r.ids() == Seq::<Seq<char>>::empty(),
            r.members() == Seq::<Employee>::empty(),
    {
        Roster { emps: Table::new() }
    }

    /// Puts an employee on the roster under their identifier, in place of
    /// whoever was there under it before.
    pub fn add(&mut self, emp: Employee)
        ensures
            final(self).member(emp.id_text()) == Some(emp),
            forall|other: Seq<char>|
                other != emp.id_text() ==> final(self).member(other) == old(self).member(other),
            old(self).ids().contains(emp.id_text()) ==> final(self).ids() == old(self).ids()
                && final(self).members() == old(self).members().update(
                old(self).ids().index_of(emp.id_text()),
                emp,
            ),
            !old(self).ids().contains(emp.id_text()) ==> final(self).ids() == old(self).ids().push(
                emp.id_text(),
            ) && final(self).members() == old(self).members().push(emp),
    {
        let key = emp.id();
        self.emps.insert(key, emp);
        assert forall|other: Seq<char>| other != emp.id_text() implies self.member(other) == old(self).member(other) by {
            assert(self.emps.lookup(other) == old(self).emps.lookup(other));
        }
    }

    /// The employee under the identifier `id`.
    pub fn get(&self, id: String) -> (r: Result<&Employee, SchedError>)
        ensures
            match r {
                Ok(e) => self.member(id@) == Some(*e),
                Err(x) => self.member(id@) is None && x == SchedError::UnknownEmployee,
            },
    {
        match self.emps.get(&id) {
            Some(e) => Ok(e),
            None => Err(SchedError::UnknownEmployee),
        }
    }

    /// The number of employees on the roster.
    pub fn len(&self) -> (n: usize)
        ensures
            n == self.ids().len(),
            self.well_formed(),
    {
        self.emps.len()
    }

    /// The roster in words: every employee in turn, each on new lines.
    pub fn to_string(&self) -> (s: String)
        ensures
            s@ == self.text_of(self.members().len()),
    {
        let mut out = String::new();
        let n: usize = self.emps.len();
        let mut i: usize = 0;
        assert(out@ =~= self.text_of(0));
        while i < n
            invariant
                i <= n == self.emps.values().len(),
                out@ == self.text_of(i as nat),
            decreases n - i,
        {
            out.append("\n");
            out.append(self.emps.value_at(i).to_string().as_str());
            i = i + 1;
        }
        out
    }

    /// The identifiers and employees of the roster, in order.
    pub fn iter(&self) -> (v: Vec<(&String, &Employee)>)
        ensures
            v@.len() == self.ids().len(),
            self.well_formed(),
            forall|i: int|
                0 <= i < v@.len() ==> (#[trigger] v@[i]).0@ == self.ids()[i] && *v@[i].1
                    == self.members()[i],
    {
        let n: usize = self.emps.len();
        let mut v: Vec<(&String, &Employee)> = Vec::new();
        let mut i: usize = 0;
        while i < n
            invariant
                i <= n,
                n == self.emps.keys().len(),
                n == self.emps.values().len(),
                v@.len() == i,
                forall|j: int|
                    0 <= j < i ==> (#[trigger] v@[j]).0@ == self.emps.keys()[j] && *v@[j].1
                        == self.emps.values()[j],
            decreases n - i,
        {
            v.push((self.emps.key_at(i), self.emps.value_at(i)));
            i = i + 1;
        }
        v
    }
}

} // verus!
