use chi_squared::chi::StatError;
use chi_squared::contingency::contingency_table;
use chi_squared::rat::Rat;

#[test]
fn two_by_two_end_to_end() {
    // rows [[10,10],[20,40]]: row totals [20,60], column totals [30,50],
    // grand total 80, expected cell (0,0) = 20*30/80 = 7.5, and the
    // statistic is the closed-form sum 16/9
    let cells = vec![vec![10, 10], vec![20, 40]];
    let rep = contingency_table(&cells).unwrap();
    assert_eq!(rep.row_totals, vec![20, 60]);
    assert_eq!(rep.col_totals, vec![30, 50]);
    assert_eq!(rep.grand_total, 80);
    assert!(rep.expected[0][0].eq_value(&Rat::new(15, 2).unwrap()));
    assert!(rep.expected[0][1].eq_value(&Rat::new(25, 2).unwrap()));
    assert!(rep.expected[1][0].eq_value(&Rat::new(45, 2).unwrap()));
    assert!(rep.expected[1][1].eq_value(&Rat::new(75, 2).unwrap()));
    assert!(rep.statistic.eq_value(&Rat::new(16, 9).unwrap()));
    let approx = rep.statistic.num as f64 / rep.statistic.den as f64;
    assert!((approx - 16.0 / 9.0).abs() < 1e-12);
}

#[test]
fn zero_table_is_an_error() {
    let cells = vec![vec![0, 0], vec![0, 0]];
    assert_eq!(contingency_table(&cells).map(|_| ()), Err(StatError::ZeroTotal));
}

#[test]
fn zero_row_gives_zero_expected_error() {
    let cells = vec![vec![0, 0], vec![20, 40]];
    assert_eq!(
        contingency_table(&cells).map(|_| ()),
        Err(StatError::NonPositiveExpected)
    );
}

#[test]
fn smallest_table_of_ones_succeeds() {
    // the all-ones two-by-two table: expected cells are all 1, the fit is
    // perfect, and the contract owes this result
    let cells = vec![vec![1, 1], vec![1, 1]];
    let rep = contingency_table(&cells).unwrap();
    assert_eq!(rep.grand_total, 4);
    assert!(rep.expected[0][0].eq_value(&Rat::from_int(1)));
    assert!(rep.statistic.eq_value(&Rat::from_int(0)));
}
