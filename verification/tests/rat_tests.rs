use chi_squared::rat::Rat;

#[test]
fn new_rejects_zero_denominator() {
    assert!(Rat::new(1, 0).is_none());
}

#[test]
fn new_normalizes_sign_and_reduces() {
    let a = Rat::new(2, 4).unwrap();
    let b = Rat::new(1, 2).unwrap();
    assert!(a.eq_value(&b));
    let c = Rat::new(3, -6).unwrap();
    let d = Rat::new(-1, 2).unwrap();
    assert!(c.eq_value(&d));
    assert!(c.den > 0);
}

#[test]
fn arithmetic_is_exact() {
    let third = Rat::new(1, 3).unwrap();
    let sixth = Rat::new(1, 6).unwrap();
    let sum = third.add(&sixth).unwrap();
    assert!(sum.eq_value(&Rat::new(1, 2).unwrap()));
    let diff = third.sub(&sixth).unwrap();
    assert!(diff.eq_value(&sixth));
    let prod = third.mul(&sixth).unwrap();
    assert!(prod.eq_value(&Rat::new(1, 18).unwrap()));
    let quot = third.div(&sixth).unwrap();
    assert!(quot.eq_value(&Rat::from_int(2)));
}

#[test]
fn comparisons() {
    let x = Rat::new(9, 2).unwrap();
    assert!(x.lt_int(5));
    let y = Rat::new(10, 2).unwrap();
    assert!(!y.lt_int(5));
    assert!(y.is_nonneg());
    assert!(!Rat::new(-1, 2).unwrap().is_nonneg());
    assert!(Rat::new(1, 2).unwrap().le_one());
    assert!(!Rat::new(3, 2).unwrap().le_one());
}
