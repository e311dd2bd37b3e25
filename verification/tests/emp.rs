use makeshift::day::Day;
use makeshift::emp::{Employee, Roster};
use makeshift::error::SchedError;
use makeshift::table::Table;

#[test]
fn a_new_employee_has_the_defaults() {
    let e = Employee::new("Matt".to_string());
    assert_eq!(e.id(), "Matt");
    assert_eq!(e.iden, "Matt");
    for d in 0..7 {
        assert!(e.is_available(Day::from_index(d).unwrap()));
    }
    assert_eq!(e.get_hours().min(), 38);
    assert_eq!(e.get_hours().max(), 40);
    assert_eq!(e.get_abil("Magic"), None);
    assert!(!e.is_able("Magic"));
    assert!(!e.has_role("Clerk"));
}

#[test]
fn availability_is_kept_by_day() {
    let mut e = Employee::new("Matt".to_string());
    assert!(e.set_available(Day::Monday, false));
    assert!(!e.set_available(Day::Monday, false));
    assert!(!e.is_available(Day::Monday));
    assert!(e.is_available(Day::Sunday));
    assert!(e.is_available(Day::Tuesday));
    assert!(!e.set_available(Day::Monday, true));
    assert!(e.is_available(Day::Monday));
}

#[test]
fn hours_are_set_in_place() {
    let mut e = Employee::new("Matt".to_string());
    e.hours().set_min(10);
    assert_eq!((e.get_hours().min(), e.get_hours().max()), (10, 40));
    e.hours().set_max(20);
    assert_eq!((e.get_hours().min(), e.get_hours().max()), (10, 20));
    e.hours().set(1, 2);
    assert_eq!((e.get_hours().min(), e.get_hours().max()), (1, 2));
    e.hours().set_min(3).set_max(4);
    assert_eq!((e.get_hours().min(), e.get_hours().max()), (3, 4));
}

#[test]
fn abilities_are_kept_by_name() {
    let mut e = Employee::new("Matt".to_string());
    assert_eq!(e.set_abil("Magic", 3), None);
    assert_eq!(e.set_abil("Pkmn", 1), None);
    assert_eq!(e.set_abil("Magic", 5), Some(3));
    assert_eq!(e.get_abil("Magic"), Some(5));
    assert_eq!(e.get_abil("Pkmn"), Some(1));
    assert_eq!(e.get_abil("Class"), None);
    assert!(e.is_able("Pkmn"));
    assert!(!e.is_able("pkmn"));
    let copy = e.clone();
    assert_eq!(copy.get_abil("Magic"), Some(5));
    assert_eq!(copy.id(), "Matt");
}

#[test]
fn roles_are_added_and_kept() {
    let mut e = Employee::new("Matt".to_string());
    e.add_role("Clerk");
    e.add_role("Judge");
    assert!(e.has_role("Clerk"));
    assert!(e.has_role("Judge"));
    assert!(!e.has_role("Owner"));
    e.remove_role("Clerk");
    assert!(e.has_role("Clerk"));
}

#[test]
fn the_roster_holds_each_identifier_once() {
    let mut ros = Roster::new();
    assert_eq!(ros.len(), 0);
    ros.add(Employee::new("Matt".to_string()));
    ros.add(Employee::new("Kit".to_string()));
    let mut again = Employee::new("Matt".to_string());
    again.hours().set(1, 2);
    ros.add(again);
    assert_eq!(ros.len(), 2);
    let ids: Vec<String> = ros.iter().iter().map(|(id, _)| (*id).clone()).collect();
    assert_eq!(ids, vec!["Matt".to_string(), "Kit".to_string()]);
    assert_eq!(ros.get("Matt".to_string()).unwrap().get_hours().min(), 1);
    assert_eq!(ros.get("Kit".to_string()).unwrap().get_hours().min(), 38);
    assert_eq!(
        ros.get("Ann".to_string()).map(|e| e.id()),
        Err(SchedError::UnknownEmployee)
    );
}

#[test]
fn a_table_keeps_first_places() {
    let mut t: Table<u32> = Table::new();
    assert_eq!(t.insert("b".to_string(), 1), None);
    assert_eq!(t.insert("a".to_string(), 2), None);
    assert_eq!(t.insert("b".to_string(), 3), Some(1));
    assert_eq!(t.len(), 2);
    assert_eq!(t.key_at(0), "b");
    assert_eq!(*t.value_at(0), 3);
    assert_eq!(t.key_at(1), "a");
    assert_eq!(t.get(&"a".to_string()), Some(&2));
    assert_eq!(t.get(&"c".to_string()), None);
    assert_eq!(t.position(&"a".to_string()), Some(1));
    let copy = t.clone();
    assert_eq!(copy.get(&"b".to_string()), Some(&3));
}
