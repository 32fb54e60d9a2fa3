use chi_squared::chi::OEError;
use chi_squared::chi::StatError;
use chi_squared::chi::evaluate;
use chi_squared::chi::observed_expected;
use chi_squared::rat::Rat;

fn texts(xs: &[&str]) -> Vec<String> {
    xs.iter().map(|x| x.to_string()).collect()
}

#[test]
fn observed_vs_expected_end_to_end() {
    // observed [10, 20, 30] against expected [15, 15, 30]:
    // (10-15)^2/15 + (20-15)^2/15 + 0 = 5/3 + 5/3 = 10/3
    let obs = texts(&["10", "20", "30"]);
    let exp = texts(&["15", "15", "30"]);
    let stat = observed_expected(&obs, &exp).unwrap();
    assert!(stat.eq_value(&Rat::new(10, 3).unwrap()));
    let approx = stat.num as f64 / stat.den as f64;
    assert!((approx - 3.333333).abs() < 1e-4);
}

#[test]
fn self_comparison_is_zero() {
    let xs = texts(&["3.5", "7", "12.25"]);
    let stat = observed_expected(&xs, &xs).unwrap();
    assert!(stat.eq_value(&Rat::from_int(0)));
}

#[test]
fn non_numeric_cells_are_rejected() {
    let obs = texts(&["10", "abc"]);
    let exp = texts(&["15", "15"]);
    assert_eq!(observed_expected(&obs, &exp).map(|_| ()), Err(OEError::NotNumeric));
    let obs2 = texts(&["10", "20"]);
    let exp2 = texts(&["15", ""]);
    assert_eq!(observed_expected(&obs2, &exp2).map(|_| ()), Err(OEError::NotNumeric));
}

#[test]
fn zero_expected_is_an_error_not_infinity() {
    let obs = texts(&["10", "20"]);
    let exp = texts(&["15", "0"]);
    assert_eq!(
        observed_expected(&obs, &exp).map(|_| ()),
        Err(OEError::NonPositiveExpected)
    );
}

#[test]
fn evaluate_reports_overflow_instead_of_wrapping() {
    let obs = vec![Rat::new(1, 999_999_999_999_999_989).unwrap()];
    let exp = vec![Rat::new(1, 999_999_999_999_999_967).unwrap()];
    assert_eq!(evaluate(&obs, &exp).map(|_| ()), Err(StatError::Overflow));
}

#[test]
fn evaluate_exact_fraction() {
    let obs = vec![Rat::from_int(10), Rat::from_int(20), Rat::from_int(30)];
    let exp = vec![Rat::from_int(15), Rat::from_int(15), Rat::from_int(30)];
    let stat = evaluate(&obs, &exp).unwrap();
    assert!(stat.eq_value(&Rat::new(10, 3).unwrap()));
}
