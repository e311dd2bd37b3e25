use makeshift::day::Day;
use makeshift::emp::{Employee, Roster};
use makeshift::event::Event;
use makeshift::schedule::Schedule;
use makeshift::shift::Shift;
use makeshift::text::{
    chars_of, parse_digits, parse_i32, parse_u8, parse_unsigned, push_decimal,
    push_left_aligned, push_right_aligned, push_signed, push_spaces, push_two_digits,
    same_text, split_items,
};
use makeshift::time::Time;

fn qi(q: usize) -> Time {
    Time::from_qi(q).unwrap()
}

fn whole(s: &str) -> (Vec<char>, usize) {
    let v = chars_of(s);
    let n = v.len();
    (v, n)
}

#[test]
fn unsigned_tokens() {
    let cases: [(&str, Option<usize>); 12] = [
        ("0", Some(0)),
        ("007", Some(7)),
        ("+15", Some(15)),
        ("1440", Some(1440)),
        ("", None),
        ("+", None),
        ("-1", None),
        ("++1", None),
        (" 1", None),
        ("1 ", None),
        ("1_0", None),
        ("٣", None),
    ];
    for (s, want) in cases {
        let (v, n) = whole(s);
        assert_eq!(parse_unsigned(&v, 0, n), want, "{:?}", s);
    }
    let max = usize::MAX.to_string();
    let (v, n) = whole(&max);
    assert_eq!(parse_unsigned(&v, 0, n), Some(usize::MAX));
    let over = format!("{}0", max);
    let (v, n) = whole(&over);
    assert_eq!(parse_unsigned(&v, 0, n), None);
    let (v, _) = whole("ab12cd");
    assert_eq!(parse_unsigned(&v, 2, 4), Some(12));
    assert_eq!(parse_digits(&v, 2, 4), Some(12));
    let (v, n) = whole("+5");
    assert_eq!(parse_digits(&v, 0, n), None);
}

#[test]
fn signed_and_byte_tokens() {
    let cases: [(&str, Option<i32>); 9] = [
        ("0", Some(0)),
        ("-0", Some(0)),
        ("+3", Some(3)),
        ("-12", Some(-12)),
        ("2147483647", Some(i32::MAX)),
        ("2147483648", None),
        ("-2147483648", Some(i32::MIN)),
        ("-2147483649", None),
        ("-+5", None),
    ];
    for (s, want) in cases {
        let (v, n) = whole(s);
        assert_eq!(parse_i32(&v, 0, n), want, "{:?}", s);
    }
    assert_eq!(parse_u8(&chars_of("255")), Some(255));
    assert_eq!(parse_u8(&chars_of("256")), None);
    assert_eq!(parse_u8(&chars_of("+7")), Some(7));
    assert_eq!(parse_u8(&chars_of("")), None);
}

#[test]
fn numbers_are_written_in_decimal() {
    let mut out = String::from(">");
    push_decimal(&mut out, 0);
    out.push(' ');
    push_decimal(&mut out, 907);
    out.push(' ');
    push_decimal(&mut out, u128::MAX);
    out.push(' ');
    push_two_digits(&mut out, 5);
    out.push(' ');
    push_two_digits(&mut out, 45);
    out.push(' ');
    push_two_digits(&mut out, 123);
    out.push(' ');
    push_signed(&mut out, -3);
    out.push(' ');
    push_signed(&mut out, 12);
    out.push(' ');
    push_signed(&mut out, i128::MIN);
    assert_eq!(
        out,
        format!("> 0 907 {} 05 45 123 -3 12 {}", u128::MAX, i128::MIN).replacen("> ", ">", 1)
    );
}

#[test]
fn text_is_set_in_columns() {
    let mut out = String::new();
    push_right_aligned(&mut out, "Sunday", 9);
    out.push('|');
    push_left_aligned(&mut out, "9:00a", 6);
    out.push('|');
    push_right_aligned(&mut out, "Wednesday!", 9);
    out.push('|');
    push_left_aligned(&mut out, "é", 3);
    out.push('|');
    push_spaces(&mut out, 2);
    out.push('|');
    assert_eq!(out, "   Sunday|9:00a |Wednesday!|é  |  |");
    assert_eq!(out, format!("{: >9}|{: <6}|{: >9}|{: <3}|  |", "Sunday", "9:00a", "Wednesday!", "é"));
}

#[test]
fn lists_are_split_on_comma_and_space() {
    let cases: [(&str, Vec<&str>); 8] = [
        ("", vec![""]),
        ("Matt", vec!["Matt"]),
        ("Matt, Kit", vec!["Matt", "Kit"]),
        ("Matt,Kit", vec!["Matt,Kit"]),
        ("a, , b", vec!["a", "", "b"]),
        (", ", vec!["", ""]),
        ("a, ", vec!["a", ""]),
        ("a,, b, c,", vec!["a,", "b", "c,"]),
    ];
    for (s, want) in cases {
        let got = split_items(s);
        assert_eq!(got, want, "{:?}", s);
        let std: Vec<&str> = s.split(", ").collect();
        assert_eq!(got, std, "{:?}", s);
    }
}

#[test]
fn texts_are_the_same_letter_for_letter() {
    assert!(same_text("Magic", "Magic"));
    assert!(!same_text("Magic", "magic"));
    assert!(same_text("", ""));
    assert_eq!(chars_of("né"), vec!['n', 'é']);
}

#[test]
fn times_are_written_on_the_24_hour_clock() {
    assert_eq!(qi(0).to_string_24h(), "0:00");
    assert_eq!(qi(49).to_string_24h(), "12:15");
    assert_eq!(qi(95).to_string_24h(), "23:45");
    assert_eq!(Time::from_hour(14).unwrap().to_string_24h(), "14:00");
    assert_eq!(Time::from_hour(2).unwrap().to_string_24h(), "2:00");
    assert_eq!(Time::duration_string(0), "0:00");
    assert_eq!(Time::duration_string(161), "40:15");
    assert_eq!(Time::duration_string(4003), "1000:45");
}

#[test]
fn writing_a_time_and_reading_it_back() {
    for q in 0..96 {
        let t = qi(q);
        assert_eq!(Time::from_str(&t.to_string_24h()), Ok(t));
        assert_eq!(t.get_qi(), q);
    }
    for s in ["9:00", "0:15", "23:45", "12:30"] {
        let t = Time::from_str(s).unwrap();
        assert_eq!(Time::from_qi(t.get_qi()).unwrap().to_string_24h(), s);
    }
    assert_eq!(Time::from_str("09:07").unwrap().to_string_24h(), "9:00");
    assert_eq!(Time::from_str("+9:+29").unwrap().to_string_24h(), "9:15");
    assert_eq!(Time::from_str("0:1439").unwrap().to_string_24h(), "23:45");
    assert_eq!(Time::from_str("23:59").unwrap().get_qi(), 95);
}

#[test]
fn a_shift_in_words() {
    let sh = Shift {
        emp_id: "Matt".to_string(),
        start: qi(36),
        end: qi(69),
    };
    assert_eq!(sh.to_string(), "Matt => 9:00 - 17:15");
}

#[test]
fn an_event_in_words() {
    let ev = Event::new(
        "Friday Night".to_string(),
        Day::Friday,
        qi(72),
        qi(88),
        "Magic \"the\" game".to_string(),
    );
    assert_eq!(
        ev.to_string(),
        "   Friday 6:00p  - 10:00p | Friday Night (\"Magic \\\"the\\\" game\")"
    );
    let long = Event::new("Class".to_string(), Day::Wednesday, qi(40), qi(44), "Class".to_string());
    assert_eq!(long.to_string(), "Wednesday 10:00a - 11:00a | Class (\"Class\")");
}

#[test]
fn an_employee_in_words() {
    let mut e = Employee::new("Matt".to_string());
    e.set_available(Day::Sunday, false);
    e.set_available(Day::Friday, false);
    e.hours().set(8, 120);
    assert_eq!(
        e.to_string(),
        "\n=== ID: Matt ===\nCan work: \nSat Mon Tue Wed Thu \nHours range: 8 - 120"
    );
    let mut ros = Roster::new();
    assert_eq!(ros.to_string(), "");
    ros.add(e);
    ros.add(Employee::new("Kit".to_string()));
    assert_eq!(
        ros.to_string(),
        "\n\n=== ID: Matt ===\nCan work: \nSat Mon Tue Wed Thu \nHours range: 8 - 120\
         \n\n=== ID: Kit ===\nCan work: \nSat Sun Mon Tue Wed Thu Fri \nHours range: 38 - 40"
    );
}

#[test]
fn a_schedule_in_words() {
    let mut sched = Schedule::new();
    assert_eq!(
        sched.to_string(),
        "\nSaturday\n=========\n\nSunday\n=========\n\nMonday\n=========\n\nTuesday\n=========\
         \n\nWednesday\n=========\n\nThursday\n=========\n\nFriday\n========="
    );
    sched.assign_shift("Matt".to_string(), Day::Saturday, qi(36), qi(68));
    sched.assign_shift("Kit".to_string(), Day::Saturday, qi(40), qi(48));
    sched.assign_shift("Matt".to_string(), Day::Friday, qi(0), qi(95));
    assert_eq!(
        sched.to_string(),
        "\nSaturday\n=========\nMatt => 9:00 - 17:00\nKit => 10:00 - 12:00\n\nSunday\n=========\
         \n\nMonday\n=========\n\nTuesday\n=========\n\nWednesday\n=========\n\nThursday\
         \n=========\n\nFriday\n=========\nMatt => 0:00 - 23:45"
    );
}

#[test]
fn requirements_and_events_in_words() {
    let mut sched = Schedule::new();
    sched.set_hours(Day::Sunday, 1, 1).unwrap();
    assert_eq!(
        sched.reqs_text(),
        "\nSaturday\n\nSunday\n12:45a - 3\n1:00a - 4\n1:15a - 3\n1:30a - 3\n1:45a - 3\n\nMonday\n\
         \nTuesday\n\nWednesday\n\nThursday\n\nFriday\n"
    );
    assert_eq!(sched.events_text(), "");
    sched.add_event("Draft", "Magic", Day::Friday, qi(72), qi(84));
    sched.add_event("League", "Pkmn", Day::Sunday, qi(48), qi(60));
    assert_eq!(
        sched.events_text(),
        "   Friday 6:00p  - 9:00p  | Draft (\"Magic\")\n   Sunday 12:00p - 3:00p  | League (\"Pkmn\")\n"
    );
}
