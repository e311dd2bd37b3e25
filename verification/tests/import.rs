use makeshift::day::Day;
use makeshift::import::{build_empl, build_event, RecordError};

fn rec(fields: &[&str]) -> Vec<String> {
    fields.iter().map(|f| f.to_string()).collect()
}

#[test]
fn an_event_from_a_record() {
    let ev = build_event(&rec(&[
        "Draft", "Magic", "Friday", "18:00", "21:30", "", "", "2", "Matt, Kit",
    ]))
    .unwrap();
    assert_eq!(ev.name, "Draft");
    assert_eq!(ev.kind, "Magic");
    assert_eq!(ev.day, Day::Friday);
    assert_eq!(ev.start.get_qi(), 72);
    assert_eq!(ev.end.get_qi(), 86);
    assert_eq!(ev.num_emps, 2);
    assert_eq!(ev.req_emp_ids, vec!["Matt".to_string(), "Kit".to_string()]);
    assert_eq!(ev.setup.get_qi(), 2);
    assert_eq!(ev.breakdown.get_qi(), 8);
}

#[test]
fn an_event_keeps_its_fields_as_they_are() {
    let ev = build_event(&rec(&[
        "Odd", "", "Sunday", "10:00", "9:00", "x", "y", "-1", "", "more",
    ]))
    .unwrap();
    assert_eq!(ev.num_emps, -1);
    assert_eq!(ev.req_emp_ids, vec!["".to_string()]);
    assert_eq!((ev.start.get_qi(), ev.end.get_qi()), (40, 36));
}

#[test]
fn event_records_fault_at_the_first_bad_field() {
    let good = ["Draft", "Magic", "Friday", "18:00", "21:30", "", "", "2", "Matt"];
    for n in [0, 1, 2, 3, 4, 5, 6, 7, 8] {
        assert_eq!(
            build_event(&rec(&good[..n])).map(|e| e.name),
            Err(RecordError::MissingField),
            "{} fields",
            n
        );
    }
    let mut r = rec(&good);
    r[2] = "Fri".to_string();
    r[3] = "late".to_string();
    assert_eq!(build_event(&r).map(|e| e.name), Err(RecordError::BadDay));
    let mut r = rec(&good);
    r[3] = "25:00".to_string();
    r[7] = "two".to_string();
    assert_eq!(build_event(&r).map(|e| e.name), Err(RecordError::BadTime));
    let mut r = rec(&good);
    r[4] = "9".to_string();
    assert_eq!(build_event(&r).map(|e| e.name), Err(RecordError::BadTime));
    let mut r = rec(&good);
    r[7] = "2.5".to_string();
    assert_eq!(build_event(&r).map(|e| e.name), Err(RecordError::BadNumber));
    assert_eq!(
        build_event(&rec(&["Draft", "Magic", "Fri"])).map(|e| e.name),
        Err(RecordError::BadDay)
    );
}

#[test]
fn an_employee_from_a_record() {
    let headers = rec(&["id", "off", "min", "max", "role", "Magic", "Pkmn", "Class"]);
    let e = build_empl(
        &rec(&["Matt", "Sunday, Monday, Someday", "20", "40", "Clerk", "3", "", "0"]),
        &headers,
    )
    .unwrap();
    assert_eq!(e.id(), "Matt");
    for (d, free) in [true, false, false, true, true, true, true].iter().enumerate() {
        assert_eq!(e.is_available(Day::from_index(d).unwrap()), *free);
    }
    assert_eq!((e.get_hours().min(), e.get_hours().max()), (20, 40));
    assert!(e.has_role("Clerk"));
    assert_eq!(e.get_abil("Magic"), Some(3));
    assert_eq!(e.get_abil("Pkmn"), None);
    assert_eq!(e.get_abil("Class"), Some(0));
}

#[test]
fn later_fields_under_one_header_win() {
    let headers = rec(&["id", "off", "min", "max", "role", "Magic", "Magic", "Magic"]);
    let e = build_empl(&rec(&["Kit", "", "1", "2", "", "3", "9", ""]), &headers).unwrap();
    assert_eq!(e.get_abil("Magic"), Some(9));
    assert!(e.has_role(""));
}

#[test]
fn employee_records_fault_at_the_first_bad_field() {
    let headers = rec(&["id", "off", "min", "max", "role", "Magic"]);
    let good = ["Matt", "", "20", "40", "Clerk", "3"];
    for n in [0, 1, 2, 3, 4] {
        assert_eq!(
            build_empl(&rec(&good[..n]), &headers).map(|e| e.id()),
            Err(RecordError::MissingField),
            "{} fields",
            n
        );
    }
    assert!(build_empl(&rec(&good[..5]), &headers).is_ok());
    let mut r = rec(&good);
    r[2] = "-1".to_string();
    assert_eq!(build_empl(&r, &headers).map(|e| e.id()), Err(RecordError::BadNumber));
    assert_eq!(
        build_empl(&rec(&["Matt", "", "x"]), &headers).map(|e| e.id()),
        Err(RecordError::BadNumber)
    );
    let mut r = rec(&good);
    r[3] = "".to_string();
    assert_eq!(build_empl(&r, &headers).map(|e| e.id()), Err(RecordError::BadNumber));
    let mut r = rec(&good);
    r[5] = "256".to_string();
    assert_eq!(build_empl(&r, &headers).map(|e| e.id()), Err(RecordError::BadNumber));
    let mut r = rec(&good);
    r.push("".to_string());
    r.push("4".to_string());
    assert_eq!(build_empl(&r, &headers).map(|e| e.id()), Err(RecordError::MissingField));
    r[5] = "x".to_string();
    assert_eq!(build_empl(&r, &headers).map(|e| e.id()), Err(RecordError::BadNumber));
}
