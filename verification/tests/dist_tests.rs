use chi_squared::dist::BinomialP;
use chi_squared::chi::StatError;
use chi_squared::dist::binomial;
use chi_squared::dist::binomial_expecteds;
use chi_squared::dist::estimate_binomial_p;
use chi_squared::dist::estimate_poisson_mean;
use chi_squared::dist::poisson_expecteds;
use chi_squared::dist::poission;
use chi_squared::rat::Rat;

#[test]
fn binomial_half_and_two_trials() {
    // p = 0.5, n = 2: ratios [0.25, 0.5, 0.25] of the total
    let p = Rat::new(1, 2).unwrap();
    let total = Rat::from_int(8);
    let v = binomial_expecteds(2, &p, &total).unwrap();
    assert_eq!(v.len(), 3);
    assert!(v[0].eq_value(&Rat::from_int(2)));
    assert!(v[1].eq_value(&Rat::from_int(4)));
    assert!(v[2].eq_value(&Rat::from_int(2)));
    // the vector sums to the total
    let mut acc = Rat::from_int(0);
    for x in &v {
        acc = acc.add(x).unwrap();
    }
    assert!(acc.eq_value(&total));
}

#[test]
fn binomial_sums_to_total_for_other_parameters() {
    let p = Rat::new(1, 3).unwrap();
    let total = Rat::from_int(81);
    let v = binomial_expecteds(4, &p, &total).unwrap();
    let mut acc = Rat::from_int(0);
    for x in &v {
        acc = acc.add(x).unwrap();
    }
    assert!(acc.eq_value(&total));
}

#[test]
fn poisson_zero_mean_concentrates_in_category_zero() {
    let mean = Rat::from_int(0);
    let one = Rat::from_int(1); // e^0
    let total = Rat::from_int(5);
    let v = poisson_expecteds(&mean, &one, &total, 4).unwrap();
    assert_eq!(v.len(), 4);
    assert!(v[0].eq_value(&total));
    assert!(v[1].eq_value(&Rat::from_int(0)));
    assert!(v[2].eq_value(&Rat::from_int(0)));
    assert!(v[3].eq_value(&Rat::from_int(0)));
}

#[test]
fn estimates_from_data() {
    // labels 0,1,2 with observations 1,2,1: p-hat = 4 / (4*2) = 1/2
    let labels = vec![0, 1, 2];
    let observed = vec![1, 2, 1];
    let p = estimate_binomial_p(&labels, &observed, 2).unwrap();
    assert!(p.eq_value(&Rat::new(1, 2).unwrap()));
    // lambda-hat = 4 / 4 = 1
    let m = estimate_poisson_mean(&labels, &observed).unwrap();
    assert!(m.eq_value(&Rat::from_int(1)));
}

#[test]
fn estimation_with_no_observations_is_an_error() {
    let labels = vec![0, 1, 2];
    let observed = vec![0, 0, 0];
    assert_eq!(
        estimate_binomial_p(&labels, &observed, 2).map(|_| ()),
        Err(StatError::ZeroTotal)
    );
    assert_eq!(
        estimate_poisson_mean(&labels, &observed).map(|_| ()),
        Err(StatError::ZeroTotal)
    );
}

#[test]
fn binomial_fit_end_to_end() {
    // 40 observations of 2 fair coin flips, exactly at expectation:
    // expected bins [10, 20, 10], observed the same, statistic 0
    let observed = vec![10, 20, 10];
    let labels = vec![0, 1, 2];
    let p = BinomialP::P(Rat::new(1, 2).unwrap());
    let fit = binomial(&observed, &labels, 2, &p).unwrap();
    assert_eq!(fit.grouped_observed.len(), fit.grouped_expected.len());
    assert!(fit.statistic.eq_value(&Rat::from_int(0)));
    assert!(fit.parameter.eq_value(&Rat::new(1, 2).unwrap()));
}

#[test]
fn binomial_fit_with_estimated_parameter() {
    let observed = vec![10, 20, 10];
    let labels = vec![0, 1, 2];
    let fit = binomial(&observed, &labels, 2, &BinomialP::Estimate).unwrap();
    // p-hat = (0*10 + 1*20 + 2*10) / (40 * 2) = 40/80 = 1/2
    assert!(fit.parameter.eq_value(&Rat::new(1, 2).unwrap()));
    assert!(fit.statistic.eq_value(&Rat::from_int(0)));
}

#[test]
fn poisson_fit_end_to_end() {
    // mean 1 with e^(-1) supplied as 3/8: expected bins of 20 observations
    // are [7.5, 7.5, 5]; observed [8, 7, 5] gives
    // 0.25/7.5 + 0.25/7.5 + 0 = 1/15
    let observed = vec![8, 7, 5];
    let mean = Rat::from_int(1);
    let x = Rat::new(3, 8).unwrap();
    let fit = poission(&observed, &mean, &x).unwrap();
    assert_eq!(fit.grouped_observed.len(), fit.grouped_expected.len());
    assert!(fit.grouped_expected[0].eq_value(&Rat::new(15, 2).unwrap()));
    assert!(fit.statistic.eq_value(&Rat::new(1, 15).unwrap()));
}

#[test]
fn poisson_zero_mean_fit_is_rejected_for_its_empty_bins() {
    // lambda = 0 concentrates everything in category 0, so the later
    // expected bins are zero and the statistic is undefined
    let observed = vec![9, 0, 0];
    let mean = Rat::from_int(0);
    let one = Rat::from_int(1); // e^0
    assert_eq!(
        poission(&observed, &mean, &one).map(|_| ()),
        Err(StatError::NonPositiveExpected)
    );
}
