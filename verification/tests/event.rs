use makeshift::day::Day;
use makeshift::event::Event;
use makeshift::time::Time;

fn ev_setup() -> Event {
    let mut ev = Event::new(
        "Name".to_string(),
        Day::Saturday,
        Time::from_hour(12).unwrap(),
        Time::from_hour(17).unwrap(),
        "Magic".to_string(),
    );
    ev.add_employee("Matt".to_string());
    ev
}

#[test]
fn req_ids() {
    let ev = ev_setup();
    assert_eq!(vec!["Matt".to_string()], *ev.req_ids())
}

#[test]
fn has_reqs() {
    let ev = ev_setup();
    assert!(ev.has_reqs())
}
