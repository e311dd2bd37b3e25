use makeshift::day::Day;

const WEEK: [Day; 7] = [
    Day::Saturday,
    Day::Sunday,
    Day::Monday,
    Day::Tuesday,
    Day::Wednesday,
    Day::Thursday,
    Day::Friday,
];

#[test]
fn the_week_begins_on_saturday() {
    for (i, day) in WEEK.iter().enumerate() {
        assert_eq!(day.to_index(), i);
        assert_eq!(Day::from_index(i), Some(*day));
    }
    assert_eq!(Day::from_index(7), None);
    assert_eq!(Day::from_index(usize::MAX), None);
}

#[test]
fn days_are_named_in_full() {
    let names = [
        "Saturday",
        "Sunday",
        "Monday",
        "Tuesday",
        "Wednesday",
        "Thursday",
        "Friday",
    ];
    for (day, name) in WEEK.iter().zip(names.iter()) {
        assert_eq!(day.to_string(), *name);
        assert_eq!(Day::from_str(name), Some(*day));
        assert_eq!(Day::from_str(&day.to_string()), Some(*day));
    }
    assert_eq!(Day::from_str("saturday"), None);
    assert_eq!(Day::from_str("Sat"), None);
    assert_eq!(Day::from_str(""), None);
    assert_eq!(Day::from_str("Friday "), None);
}

#[test]
fn days_have_three_letter_names() {
    let short = ["Sat", "Sun", "Mon", "Tue", "Wed", "Thu", "Fri"];
    for (day, name) in WEEK.iter().zip(short.iter()) {
        assert_eq!(day.abbreviation(), *name);
    }
}
