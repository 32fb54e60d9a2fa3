use chi_squared::group::group_expecteds;
use chi_squared::group::group_observed;
use chi_squared::rat::Rat;

fn rats(xs: &[i64]) -> Vec<Rat> {
    xs.iter().map(|x| Rat::from_int(*x)).collect()
}

fn sum(v: &[Rat]) -> Rat {
    let mut acc = Rat::from_int(0);
    for x in v {
        acc = acc.add(x).unwrap();
    }
    acc
}

#[test]
fn small_head_and_tail_are_merged() {
    // [1, 1, 1, 6, 7, 2, 2] -> head 1+1+1+6 = 9? no: the first entry that
    // reaches 5 is index 3, so the head bin is 1+1+1+6 = 9; the last entry
    // that reaches 5 is index 4, and the tail past it sums to 4 < 5, so the
    // tail bin swallows it: 7+2+2 = 11.
    let v = rats(&[1, 1, 1, 6, 7, 2, 2]);
    let total = sum(&v);
    let (grouped, gs, ge) = group_expecteds(v).unwrap();
    assert_eq!(gs, 3);
    assert_eq!(ge, 3);
    assert_eq!(grouped.len(), 2);
    assert!(grouped[0].eq_value(&Rat::from_int(9)));
    assert!(grouped[1].eq_value(&Rat::from_int(11)));
    assert!(sum(&grouped).eq_value(&total));
}

#[test]
fn already_large_bins_stay() {
    let v = rats(&[6, 7, 8]);
    let total = sum(&v);
    let (grouped, gs, ge) = group_expecteds(v).unwrap();
    assert_eq!(gs, 0);
    assert_eq!(ge, 1);
    assert_eq!(grouped.len(), 3);
    assert!(grouped[0].eq_value(&Rat::from_int(6)));
    assert!(grouped[1].eq_value(&Rat::from_int(7)));
    assert!(grouped[2].eq_value(&Rat::from_int(8)));
    assert!(sum(&grouped).eq_value(&total));
}

#[test]
fn tiny_vector_collapses_to_one_bin() {
    let v = rats(&[1, 1, 1]);
    let total = sum(&v);
    let (grouped, gs, ge) = group_expecteds(v).unwrap();
    assert_eq!(grouped.len(), 1);
    assert_eq!(gs, 2);
    assert_eq!(ge, 2);
    assert!(grouped[0].eq_value(&total));
}

#[test]
fn observed_is_grouped_with_the_same_boundaries() {
    let observed = vec![2, 3, 1, 10, 4, 4, 4];
    let grouped = group_observed(&observed, 3, 3);
    assert_eq!(grouped, vec![2 + 3 + 1 + 10, 4 + 4 + 4]);
    let grouped2 = group_observed(&observed, 1, 5);
    assert_eq!(grouped2, vec![5, 1, 10, 4, 4, 4]);
    // the total is preserved
    let s: i32 = grouped.iter().sum();
    let t: i32 = observed.iter().sum();
    assert_eq!(s, t);
}

#[test]
fn interior_small_bins_are_left_alone() {
    // merging only happens at the two ends: interior bins below 5 stay,
    // though the total is still preserved
    let v = rats(&[6, 1, 1, 6]);
    let total = sum(&v);
    let (grouped, gs, ge) = group_expecteds(v).unwrap();
    assert_eq!(gs, 0);
    assert_eq!(ge, 2);
    assert_eq!(grouped.len(), 4);
    assert!(grouped[1].eq_value(&Rat::from_int(1)));
    assert!(grouped[2].eq_value(&Rat::from_int(1)));
    assert!(sum(&grouped).eq_value(&total));
}
