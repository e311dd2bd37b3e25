use makeshift::day::Day;
use makeshift::emp::{Employee, Roster};
use makeshift::error::SchedError;
use makeshift::schedule::Schedule;
use makeshift::time::Time;
use makeshift::validity::Violation;

fn qi(q: usize) -> Time {
    Time::from_qi(q).unwrap()
}

fn roster_of(entries: &[(&str, usize, usize)]) -> Roster {
    let mut ros = Roster::new();
    for (id, min, max) in entries {
        let mut e = Employee::new(id.to_string());
        e.hours().set(*min, *max);
        ros.add(e);
    }
    ros
}

fn told(v: &[Violation]) -> Vec<String> {
    v.iter().map(|x| x.to_string()).collect()
}

#[test]
fn nothing_is_found_against_a_schedule_that_holds() {
    let mut sched = Schedule::new();
    sched.assign_shift("Matt".to_string(), Day::Saturday, qi(36), qi(68));
    let ros = roster_of(&[("Matt", 8, 8)]);
    assert_eq!(sched.is_valid(&ros), Ok(true));
    assert!(sched.violations(&ros).unwrap().is_empty());
}

#[test]
fn hours_out_of_range_are_found_by_name() {
    let mut sched = Schedule::new();
    sched.assign_shift("Matt".to_string(), Day::Saturday, qi(36), qi(68));
    sched.assign_shift("Matt".to_string(), Day::Sunday, qi(36), qi(45));
    sched.assign_shift("Kit".to_string(), Day::Sunday, qi(36), qi(40));
    let ros = roster_of(&[("Ann", 1, 2), ("Kit", 1, 1), ("Matt", 5, 10)]);
    assert_eq!(sched.is_valid(&ros), Ok(false));
    let found = sched.violations(&ros).unwrap();
    assert_eq!(found.len(), 2);
    match &found[0] {
        Violation::Hours { id, quarters } => {
            assert_eq!(id, "Ann");
            assert_eq!(*quarters, 0);
        }
        other => panic!("{:?}", other),
    }
    match &found[1] {
        Violation::Hours { id, quarters } => {
            assert_eq!(id, "Matt");
            assert_eq!(*quarters, 41);
        }
        other => panic!("{:?}", other),
    }
    assert_eq!(
        told(&found),
        vec![
            ">>> Ann - 0:00\nAnn has invalid # of hours".to_string(),
            ">>> Matt - 10:15\nMatt has invalid # of hours".to_string()
        ]
    );
}

#[test]
fn low_coverage_is_found_by_day_and_slot() {
    let mut sched = Schedule::new();
    sched.set_hours(Day::Sunday, 10, 10).unwrap();
    for name in ["A", "B", "C"] {
        sched.assign_shift(name.to_string(), Day::Sunday, qi(39), qi(44));
    }
    {
        let ev = sched.add_event("Draft", "Magic", Day::Friday, qi(50), qi(51));
        ev.setup_breakdown(0, 0).unwrap();
        ev.staffing_req(5);
    }
    let ros = Roster::new();
    assert_eq!(sched.adequate_coverage(), Ok(false));
    assert_eq!(sched.is_valid(&ros), Ok(false));
    let found = sched.violations(&ros).unwrap();
    assert_eq!(
        told(&found),
        vec![
            "Low coverage at 10:00a on Sunday: 3".to_string(),
            "Low coverage at 12:30p on Friday: -5".to_string()
        ]
    );
    match &found[1] {
        Violation::Coverage { day, slot, free } => {
            assert_eq!(*day, Day::Friday);
            assert_eq!(slot.get_qi(), 50);
            assert_eq!(*free, -5);
        }
        other => panic!("{:?}", other),
    }
}

#[test]
fn hours_come_before_coverage() {
    let mut sched = Schedule::new();
    sched.set_hours(Day::Saturday, 1, 1).unwrap();
    let ros = roster_of(&[("Matt", 1, 2)]);
    let found = told(&sched.violations(&ros).unwrap());
    assert_eq!(found.len(), 6);
    assert_eq!(found[0], ">>> Matt - 0:00\nMatt has invalid # of hours");
    assert_eq!(found[1], "Low coverage at 12:45a on Saturday: 0");
    assert_eq!(found[5], "Low coverage at 1:45a on Saturday: 0");
}

#[test]
fn findings_need_a_schedule_that_can_be_checked() {
    let ros = roster_of(&[("Matt", 0, 40)]);
    let mut sched = Schedule::new();
    sched.assign_shift("Matt".to_string(), Day::Saturday, qi(68), qi(36));
    assert_eq!(
        sched.violations(&ros).map(|v| v.len()),
        Err(SchedError::TimeRangeError)
    );
    let mut sched = Schedule::new();
    sched.add_event("Early", "Magic", Day::Tuesday, qi(1), qi(8));
    assert_eq!(
        sched.violations(&ros).map(|v| v.len()),
        Err(SchedError::TimeRangeError)
    );
}
