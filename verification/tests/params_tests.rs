use chi_squared::dist::BinomialP;
use chi_squared::dist::PoissonMean;
use chi_squared::editor::Key;
use chi_squared::params::create_binomial_distribution;
use chi_squared::params::create_poission_distribution;
use chi_squared::params::edit_binomial_distribution;
use chi_squared::params::edit_poisson_mean;
use chi_squared::rat::Rat;

#[test]
fn two_field_editor_moves_and_edits() {
    let mut pos = 0usize;
    let mut n = String::new();
    let mut p = String::new();
    assert!(!edit_binomial_distribution(&mut pos, &mut n, &mut p, &Key::Character('2')));
    assert_eq!(n, "2");
    assert!(!edit_binomial_distribution(&mut pos, &mut n, &mut p, &Key::Right));
    assert_eq!(pos, 1);
    for c in ['0', '.', '5'] {
        edit_binomial_distribution(&mut pos, &mut n, &mut p, &Key::Character(c));
    }
    assert_eq!(p, "0.5");
    assert!(!edit_binomial_distribution(&mut pos, &mut n, &mut p, &Key::Erase));
    assert_eq!(p, "0.");
    assert!(!edit_binomial_distribution(&mut pos, &mut n, &mut p, &Key::Left));
    assert_eq!(pos, 0);
    assert!(edit_binomial_distribution(&mut pos, &mut n, &mut p, &Key::Finish));
}

#[test]
fn binomial_collection_parses_or_restarts() {
    let (n, p) = create_binomial_distribution("2", "0.5").unwrap();
    assert_eq!(n, 2);
    match p {
        BinomialP::P(v) => assert!(v.eq_value(&Rat::new(1, 2).unwrap())),
        BinomialP::Estimate => panic!("expected an explicit probability"),
    }
    let (_, p2) = create_binomial_distribution("12", "").unwrap();
    assert!(matches!(p2, BinomialP::Estimate));
    assert!(create_binomial_distribution("", "0.5").is_none());
    assert!(create_binomial_distribution("2", "1.5").is_none());
    assert!(create_binomial_distribution("2", "-0.5").is_none());
    assert!(create_binomial_distribution("2", "x").is_none());
    assert!(create_binomial_distribution("13", "0.5").is_none());
    assert!(create_binomial_distribution("-1", "0.5").is_none());
}

#[test]
fn poisson_collection_parses_or_restarts() {
    let mut text = String::new();
    assert!(!edit_poisson_mean(&mut text, &Key::Character('3')));
    assert!(!edit_poisson_mean(&mut text, &Key::Erase));
    assert!(edit_poisson_mean(&mut text, &Key::Finish));
    assert_eq!(text, "");
    assert!(matches!(create_poission_distribution(""), Some(PoissonMean::Estimate)));
    match create_poission_distribution("2.5") {
        Some(PoissonMean::Mean(m)) => assert!(m.eq_value(&Rat::new(5, 2).unwrap())),
        _ => panic!("expected a mean"),
    }
    assert!(create_poission_distribution("-1").is_none());
    assert!(create_poission_distribution("abc").is_none());
}
