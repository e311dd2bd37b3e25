use makeshift::time::Time;

#[test]
fn test_midnight() {
    let t = Time::from_str("0:15").unwrap();
    assert_eq!(t.get_qi(), 1);
}

#[test]
fn test_morning() {
    let t = Time::from_str("10:15").unwrap();
    assert_eq!(t.get_qi(), 41);
}

#[test]
fn test_afternoon() {
    let t = Time::from_str("22:30").unwrap();
    assert_eq!(t.get_qi(), 90);
}

#[test]
#[should_panic]
fn test_bad_string1() {
    Time::from_str("-270:555").unwrap();
}

#[test]
#[should_panic]
fn test_bad_string2() {
    Time::from_str("alphabet").unwrap();
}

#[test]
#[should_panic]
fn test_bad_string3() {
    Time::from_str("27:99").unwrap();
}

#[test]
#[should_panic]
fn test_bad_qi() {
    Time::from_qi(100).unwrap();
}

#[test]
fn eq1() {
    let a = Time::from_str("09:00").unwrap();
    let b = Time::from_str("9:0").unwrap();
    let c = Time::from_hour(9).unwrap();
    let d = Time::from_qi(36).unwrap();
    assert_eq!(a, b);
    assert_eq!(b, c);
    assert_eq!(c, d);
    assert_eq!(d, a);
}

#[test]
fn test_string_12h_1() {
    assert_eq!(Time::from_hour(0).unwrap().to_string(), "12:00a".to_string());
    assert_eq!(Time::from_qi(3).unwrap().to_string(), "12:45a".to_string());
    assert_eq!(Time::from_str("0:45").unwrap().get_qi(), 3);
    assert_eq!(Time::from_str("0:45").unwrap().to_string(), "12:45a".to_string());
}

#[test]
fn test_string_12h_2() {
    assert_eq!(Time::from_hour(4).unwrap().to_string(), "4:00a".to_string());
    assert_eq!(Time::from_qi(21).unwrap().to_string(), "5:15a".to_string());
    assert_eq!(Time::from_str("5:45").unwrap().to_string(), "5:45a".to_string());
}

#[test]
fn test_string_12h_3() {
    assert_eq!(Time::from_hour(12).unwrap().to_string(), "12:00p".to_string());
    assert_eq!(Time::from_qi(49).unwrap().to_string(), "12:15p".to_string());
    assert_eq!(Time::from_str("12:45").unwrap().to_string(), "12:45p".to_string());
}

#[test]
fn test_string_12h_4() {
    assert_eq!(Time::from_hour(17).unwrap().to_string(), "5:00p".to_string());
    assert_eq!(Time::from_qi(81).unwrap().to_string(), "8:15p".to_string());
    assert_eq!(Time::from_str("22:45").unwrap().to_string(), "10:45p".to_string());
}
