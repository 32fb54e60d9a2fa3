use chi_squared::parse::parse_decimal;
use chi_squared::parse::parse_int;
use chi_squared::parse::parse_int_row;
use chi_squared::parse::parse_decimal_row;
use chi_squared::rat::Rat;

#[test]
fn parse_int_accepts_whole_numbers() {
    assert_eq!(parse_int("42"), Some(42));
    assert_eq!(parse_int("-7"), Some(-7));
    assert_eq!(parse_int("0"), Some(0));
}

#[test]
fn parse_int_rejects_everything_else() {
    assert_eq!(parse_int(""), None);
    assert_eq!(parse_int("-"), None);
    assert_eq!(parse_int("1.5"), None);
    assert_eq!(parse_int("a1"), None);
    assert_eq!(parse_int("1a"), None);
    assert_eq!(parse_int("1234567890123456789"), None); // nineteen digits
    assert_eq!(parse_int("123456789012345678"), Some(123456789012345678));
}

#[test]
fn parse_decimal_exact_values() {
    let v = parse_decimal("7.5").unwrap();
    assert!(v.eq_value(&Rat::new(15, 2).unwrap()));
    let w = parse_decimal("-0.25").unwrap();
    assert!(w.eq_value(&Rat::new(-1, 4).unwrap()));
    let i = parse_decimal("12").unwrap();
    assert!(i.eq_value(&Rat::from_int(12)));
}

#[test]
fn parse_decimal_rejects_malformed_text() {
    assert_eq!(parse_decimal("").map(|_| ()), None);
    assert_eq!(parse_decimal(".").map(|_| ()), None);
    assert_eq!(parse_decimal(".5").map(|_| ()), None);
    assert_eq!(parse_decimal("5.").map(|_| ()), None);
    assert_eq!(parse_decimal("1.2.3").map(|_| ()), None);
    assert_eq!(parse_decimal("1,5").map(|_| ()), None);
    assert_eq!(parse_decimal("--1").map(|_| ()), None);
}

#[test]
fn parse_rows() {
    let cells = vec!["1".to_string(), "-2".to_string(), "3".to_string()];
    assert_eq!(parse_int_row(&cells), Some(vec![1, -2, 3]));
    let bad = vec!["1".to_string(), "x".to_string()];
    assert_eq!(parse_int_row(&bad), None);
    let dec = vec!["1.5".to_string(), "2".to_string()];
    let parsed = parse_decimal_row(&dec).unwrap();
    assert!(parsed[0].eq_value(&Rat::new(3, 2).unwrap()));
    assert!(parsed[1].eq_value(&Rat::from_int(2)));
    assert!(parse_decimal_row(&vec!["1.5".to_string(), "".to_string()]).is_none());
}
