use chi_squared::nums::binomial_coeff;
use chi_squared::nums::factorial;

#[test]
fn factorial_works() {
    assert_eq!(factorial(5), 120);
}

#[test]
fn factorial_small_values() {
    assert_eq!(factorial(0), 1);
    assert_eq!(factorial(1), 1);
    assert_eq!(factorial(12), 479001600);
}

#[test]
fn binomial_coeff_values() {
    assert_eq!(binomial_coeff(2, 1), 2);
    assert_eq!(binomial_coeff(5, 2), 10);
    assert_eq!(binomial_coeff(12, 6), 924);
    assert_eq!(binomial_coeff(7, 0), 1);
    assert_eq!(binomial_coeff(7, 7), 1);
}
