use makeshift::assign_required_shifts;
use makeshift::day::Day;
use makeshift::emp::{Employee, Roster};
use makeshift::error::SchedError;
use makeshift::event::Event;
use makeshift::schedule::Schedule;
use makeshift::time::Time;

fn qi(q: usize) -> Time {
    Time::from_qi(q).unwrap()
}

fn spans(sched: &Schedule, day: Day) -> Vec<(String, usize, usize)> {
    let mut out = Vec::new();
    for sh in sched.shifts(day).iter() {
        out.push((sh.emp_id.clone(), sh.start.get_qi(), sh.end.get_qi()));
    }
    out
}

#[test]
fn new_schedule_is_empty() {
    let sched = Schedule::new();
    assert!(sched.get_events().is_empty());
    for d in 0..7 {
        let day = Day::from_index(d).unwrap();
        assert!(sched.shifts(day).is_empty());
        assert!(sched.reqs(day).iter().all(|r| *r == 0));
    }
}

#[test]
fn set_hours_writes_the_day() {
    let mut sched = Schedule::new();
    assert_eq!(sched.set_hours(Day::Saturday, 9, 21), Ok(()));
    let row = sched.reqs(Day::Saturday);
    for q in 0..96 {
        let want = if (36..=84).contains(&q) {
            4
        } else if q == 35 || (85..=87).contains(&q) {
            3
        } else {
            0
        };
        assert_eq!(row[q], want, "slot {}", q);
    }
    for d in 1..7 {
        let day = Day::from_index(d).unwrap();
        assert!(sched.reqs(day).iter().all(|r| *r == 0));
    }
}

#[test]
fn set_hours_with_close_before_open() {
    let mut sched = Schedule::new();
    assert_eq!(sched.set_hours(Day::Monday, 10, 9), Ok(()));
    let row = sched.reqs(Day::Monday);
    for q in 0..96 {
        let want = if (37..=39).contains(&q) { 3 } else { 0 };
        assert_eq!(row[q], want, "slot {}", q);
    }
}

#[test]
fn set_hours_faults() {
    let mut sched = Schedule::new();
    assert_eq!(sched.set_hours(Day::Sunday, 24, 10), Err(SchedError::OutOfRange));
    assert_eq!(sched.set_hours(Day::Sunday, 10, 24), Err(SchedError::OutOfRange));
    assert_eq!(sched.set_hours(Day::Sunday, 0, 10), Err(SchedError::GridBoundsError));
    assert_eq!(sched.set_hours(Day::Sunday, 0, 30), Err(SchedError::OutOfRange));
    assert!(sched.reqs(Day::Sunday).iter().all(|r| *r == 0));
    assert_eq!(sched.set_hours(Day::Sunday, 1, 23), Ok(()));
    assert_eq!(sched.reqs(Day::Sunday)[3], 3);
    assert_eq!(sched.reqs(Day::Sunday)[4], 4);
    assert_eq!(sched.reqs(Day::Sunday)[92], 4);
    assert_eq!(sched.reqs(Day::Sunday)[95], 3);
}

#[test]
fn add_event_hands_back_the_event() {
    let mut sched = Schedule::new();
    {
        let ev = sched.add_event("Draft", "Magic", Day::Friday, qi(72), qi(84));
        ev.add_employee("Matt".to_string());
        ev.add_employee("Kit".to_string());
        ev.add_employee("Matt".to_string());
    }
    let evs = sched.get_events();
    assert_eq!(evs.len(), 1);
    assert_eq!(evs[0].name, "Draft");
    assert_eq!(evs[0].kind, "Magic");
    assert_eq!(evs[0].day, Day::Friday);
    assert_eq!(evs[0].num_emps, 3);
    assert_eq!(evs[0].setup.get_qi(), 2);
    assert_eq!(evs[0].breakdown.get_qi(), 8);
    assert_eq!(
        *evs[0].req_ids(),
        vec!["Matt".to_string(), "Kit".to_string(), "Matt".to_string()]
    );
}

#[test]
fn assign_shift_appends() {
    let mut sched = Schedule::new();
    sched.assign_shift("Matt".to_string(), Day::Tuesday, qi(40), qi(60));
    sched.assign_shift("Kit".to_string(), Day::Tuesday, qi(60), qi(40));
    sched.assign_shift("Matt".to_string(), Day::Friday, qi(0), qi(95));
    assert_eq!(
        spans(&sched, Day::Tuesday),
        vec![("Matt".to_string(), 40, 60), ("Kit".to_string(), 60, 40)]
    );
    assert_eq!(spans(&sched, Day::Friday), vec![("Matt".to_string(), 0, 95)]);
    assert!(spans(&sched, Day::Saturday).is_empty());
}

#[test]
fn assign_event_pads_the_shift() {
    let mut sched = Schedule::new();
    let mut ev = Event::new("Class".to_string(), Day::Monday, qi(40), qi(48), "Class".to_string());
    assert_eq!(sched.assign_event("Matt".to_string(), ev.clone()), Ok(()));
    assert_eq!(ev.setup_breakdown(4, 1), Ok(()));
    assert_eq!(sched.assign_event("Kit".to_string(), ev.clone()), Ok(()));
    assert_eq!(
        spans(&sched, Day::Monday),
        vec![("Matt".to_string(), 38, 56), ("Kit".to_string(), 36, 49)]
    );
}

#[test]
fn assign_event_faults_at_the_edges_of_the_day() {
    let mut sched = Schedule::new();
    let early = Event::new("Early".to_string(), Day::Monday, qi(1), qi(10), "Class".to_string());
    assert_eq!(
        sched.assign_event("Matt".to_string(), early),
        Err(SchedError::TimeRangeError)
    );
    let late = Event::new("Late".to_string(), Day::Monday, qi(80), qi(88), "Class".to_string());
    assert_eq!(
        sched.assign_event("Matt".to_string(), late),
        Err(SchedError::TimeRangeError)
    );
    let mut fits = Event::new("Fits".to_string(), Day::Monday, qi(2), qi(87), "Class".to_string());
    assert_eq!(sched.assign_event("Matt".to_string(), fits.clone()), Ok(()));
    assert_eq!(fits.setup_breakdown(2, 9), Ok(()));
    assert_eq!(
        sched.assign_event("Matt".to_string(), fits),
        Err(SchedError::TimeRangeError)
    );
    assert_eq!(spans(&sched, Day::Monday), vec![("Matt".to_string(), 0, 95)]);
}

#[test]
fn required_shifts_one_per_name() {
    let mut sched = Schedule::new();
    {
        let ev = sched.add_event("Draft", "Magic", Day::Friday, qi(72), qi(84));
        ev.add_employees(vec!["Matt".to_string(), "Kit".to_string()]);
    }
    sched.add_event("Open play", "Pkmn", Day::Friday, qi(40), qi(48));
    {
        let ev = sched.add_event("League", "Pkmn", Day::Sunday, qi(48), qi(60));
        ev.add_employee("Kit".to_string());
        ev.setup_breakdown(4, 4).unwrap();
    }
    let ros = Roster::new();
    assert_eq!(sched.assign_required_shifts(&ros), Ok(()));
    assert_eq!(
        spans(&sched, Day::Friday),
        vec![("Matt".to_string(), 70, 92), ("Kit".to_string(), 70, 92)]
    );
    assert_eq!(spans(&sched, Day::Sunday), vec![("Kit".to_string(), 44, 64)]);
    for d in [0, 2, 3, 4, 5] {
        assert!(spans(&sched, Day::from_index(d).unwrap()).is_empty());
    }
}

#[test]
fn required_shifts_all_or_nothing() {
    let mut sched = Schedule::new();
    {
        let ev = sched.add_event("Draft", "Magic", Day::Friday, qi(72), qi(84));
        ev.add_employee("Matt".to_string());
    }
    {
        let ev = sched.add_event("Late", "Magic", Day::Friday, qi(80), qi(90));
        ev.add_employee("Kit".to_string());
    }
    sched.add_event("Unstaffed", "Magic", Day::Friday, qi(1), qi(95));
    let ros = Roster::new();
    assert_eq!(sched.assign_required_shifts(&ros), Err(SchedError::TimeRangeError));
    assert!(spans(&sched, Day::Friday).is_empty());
}

#[test]
fn required_shifts_by_value() {
    let mut sched = Schedule::new();
    {
        let ev = sched.add_event("Draft", "Magic", Day::Friday, qi(72), qi(84));
        ev.add_employee("Matt".to_string());
    }
    let ros = Roster::new();
    let sched = assign_required_shifts(&ros, sched).unwrap();
    assert_eq!(spans(&sched, Day::Friday), vec![("Matt".to_string(), 70, 92)]);
}

#[test]
fn coverage_of_one_shift() {
    let mut sched = Schedule::new();
    sched.assign_shift("Matt".to_string(), Day::Saturday, qi(36), qi(44));
    let cov = sched.coverage(Day::Saturday).unwrap();
    for q in 0..96 {
        let want = if (36..44).contains(&q) { 1 } else { 0 };
        assert_eq!(cov[q], want, "slot {}", q);
    }
    let other = sched.coverage(Day::Sunday).unwrap();
    assert!(other.iter().all(|c| *c == 0));
}

#[test]
fn coverage_counts_shifts_and_events() {
    let mut sched = Schedule::new();
    sched.assign_shift("Matt".to_string(), Day::Saturday, qi(36), qi(60));
    sched.assign_shift("Kit".to_string(), Day::Saturday, qi(40), qi(50));
    sched.assign_shift("Ann".to_string(), Day::Saturday, qi(50), qi(40));
    {
        let ev = sched.add_event("Draft", "Magic", Day::Saturday, qi(44), qi(48));
        ev.staffing_req(2);
        ev.setup_breakdown(2, 4).unwrap();
    }
    sched.add_event("Elsewhere", "Magic", Day::Sunday, qi(44), qi(48));
    let cov = sched.coverage(Day::Saturday).unwrap();
    for q in 0..96usize {
        let mut want: i128 = 0;
        if (36..60).contains(&q) {
            want += 1;
        }
        if (40..50).contains(&q) {
            want += 1;
        }
        if (42..52).contains(&q) {
            want -= 2;
        }
        assert_eq!(cov[q], want, "slot {}", q);
    }
    let sunday = sched.coverage(Day::Sunday).unwrap();
    for q in 0..96usize {
        let want: i128 = if (42..56).contains(&q) { -1 } else { 0 };
        assert_eq!(sunday[q], want, "slot {}", q);
    }
}

#[test]
fn coverage_window_may_end_with_the_day() {
    let mut sched = Schedule::new();
    {
        let ev = sched.add_event("Late", "Magic", Day::Saturday, qi(80), qi(88));
        ev.setup_breakdown(0, 8).unwrap();
    }
    let cov = sched.coverage(Day::Saturday).unwrap();
    assert_eq!(cov[79], 0);
    assert_eq!(cov[80], -1);
    assert_eq!(cov[95], -1);
    {
        let ev = sched.add_event("Later", "Magic", Day::Saturday, qi(80), qi(89));
        ev.setup_breakdown(0, 8).unwrap();
    }
    assert_eq!(sched.coverage(Day::Saturday), Err(SchedError::TimeRangeError));
    assert!(sched.coverage(Day::Sunday).is_ok());
    assert_eq!(sched.adequate_coverage(), Err(SchedError::TimeRangeError));
}

#[test]
fn coverage_window_may_not_start_before_the_day() {
    let mut sched = Schedule::new();
    sched.add_event("Early", "Magic", Day::Tuesday, qi(1), qi(8));
    assert_eq!(sched.coverage(Day::Tuesday), Err(SchedError::TimeRangeError));
}

#[test]
fn adequate_coverage_compares_with_the_grid() {
    let mut sched = Schedule::new();
    assert_eq!(sched.adequate_coverage(), Ok(true));
    sched.set_hours(Day::Friday, 10, 11).unwrap();
    assert_eq!(sched.adequate_coverage(), Ok(false));
    for name in ["A", "B", "C", "D"] {
        sched.assign_shift(name.to_string(), Day::Friday, qi(39), qi(48));
    }
    assert_eq!(sched.adequate_coverage(), Ok(true));
    sched.add_event("Draft", "Magic", Day::Friday, qi(60), qi(64));
    assert_eq!(sched.adequate_coverage(), Ok(false));
}

fn roster_of(entries: &[(&str, usize, usize)]) -> Roster {
    let mut ros = Roster::new();
    for (id, min, max) in entries {
        let mut e = Employee::new(id.to_string());
        e.hours().set(*min, *max);
        ros.add(e);
    }
    ros
}

#[test]
fn hours_are_summed_over_the_week() {
    let mut sched = Schedule::new();
    sched.assign_shift("Matt".to_string(), Day::Saturday, qi(36), qi(68));
    sched.assign_shift("Kit".to_string(), Day::Saturday, qi(36), qi(68));
    sched.assign_shift("Matt".to_string(), Day::Friday, qi(40), qi(48));
    assert_eq!(sched.hours_assigned("Matt"), Ok(40));
    assert_eq!(sched.hours_assigned("Kit"), Ok(32));
    assert_eq!(sched.hours_assigned("Nobody"), Ok(0));
    let ros = roster_of(&[("Matt", 10, 10), ("Kit", 9, 12), ("Ann", 0, 3), ("Bob", 1, 3)]);
    assert_eq!(sched.hours_assigned_valid("Matt", &ros), Ok(true));
    assert_eq!(sched.hours_assigned_valid("Kit", &ros), Ok(false));
    assert_eq!(sched.hours_assigned_valid("Ann", &ros), Ok(true));
    assert_eq!(sched.hours_assigned_valid("Bob", &ros), Ok(false));
    assert_eq!(
        sched.hours_assigned_valid("Nobody", &ros),
        Err(SchedError::UnknownEmployee)
    );
    sched.assign_shift("Nobody".to_string(), Day::Friday, qi(48), qi(40));
    assert_eq!(sched.hours_assigned("Nobody"), Err(SchedError::TimeRangeError));
    assert_eq!(
        sched.hours_assigned_valid("Nobody", &ros),
        Err(SchedError::TimeRangeError)
    );
    assert_eq!(sched.hours_assigned("Matt"), Ok(40));
}

#[test]
fn is_valid_needs_hours_and_coverage() {
    let mut sched = Schedule::new();
    sched.assign_shift("Matt".to_string(), Day::Saturday, qi(36), qi(68));
    let ros = roster_of(&[("Matt", 8, 8)]);
    assert_eq!(sched.is_valid(&ros), Ok(true));
    let short = roster_of(&[("Matt", 8, 8), ("Kit", 1, 40)]);
    assert_eq!(sched.is_valid(&short), Ok(false));
    let long = roster_of(&[("Matt", 0, 7)]);
    assert_eq!(sched.is_valid(&long), Ok(false));
    sched.set_hours(Day::Saturday, 9, 16).unwrap();
    assert_eq!(sched.is_valid(&ros), Ok(false));
    assert!(sched.all_shifts_okay_length(&ros));
}

#[test]
fn is_valid_faults() {
    let ros = roster_of(&[("Matt", 0, 40)]);
    let mut sched = Schedule::new();
    sched.assign_shift("Kit".to_string(), Day::Saturday, qi(68), qi(36));
    assert_eq!(sched.is_valid(&ros), Ok(true));
    sched.assign_shift("Matt".to_string(), Day::Saturday, qi(68), qi(36));
    assert_eq!(sched.is_valid(&ros), Err(SchedError::TimeRangeError));
    let mut sched = Schedule::new();
    sched.add_event("Early", "Magic", Day::Tuesday, qi(1), qi(8));
    assert_eq!(sched.is_valid(&ros), Err(SchedError::TimeRangeError));
}
