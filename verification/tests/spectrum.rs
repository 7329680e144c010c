use niep_spectra_checker::limbs::Sign;
use niep_spectra_checker::spectrum::{approx_equal, Spectrum, TOLERANCE, UNIT};

fn values(spectrum: &Spectrum) -> Vec<i64> {
    (0..spectrum.len()).map(|i| spectrum.get(i)).collect()
}

fn flags(spectrum: &Spectrum) -> Vec<bool> {
    (0..spectrum.num_conditions()).map(|i| spectrum.condition(i)).collect()
}

#[test]
fn from_vec_keeps_the_values_and_clears_the_flags() {
    let s = Spectrum::from_vec(vec![UNIT, 5_000_000, -2_500_000], 3);
    assert_eq!(s.len(), 3);
    assert_eq!(values(&s), vec![10_000_000, 5_000_000, -2_500_000]);
    assert_eq!(flags(&s), vec![false, false, false]);
}

#[test]
fn from_element_fills_with_one_value() {
    let s = Spectrum::from_element(4, 7, 2);
    assert_eq!(values(&s), vec![7, 7, 7, 7]);
    assert_eq!(flags(&s), vec![false, false]);
    let empty = Spectrum::from_element(0, 7, 0);
    assert_eq!(empty.len(), 0);
    assert_eq!(empty.num_conditions(), 0);
}

#[test]
fn set_overwrites_one_eigenvalue() {
    let mut s = Spectrum::from_vec(vec![1, 2, 3], 3);
    s.set(1, -9);
    assert_eq!(values(&s), vec![1, -9, 3]);
    s.set_condition(2, true);
    assert_eq!(flags(&s), vec![false, false, true]);
}

#[test]
fn change_up_to_one_is_applied() {
    let mut s = Spectrum::from_vec(vec![UNIT, 9_000_000], 3);
    assert!(s.change_eigenvalue(1, 1_000_000));
    assert_eq!(values(&s), vec![UNIT, UNIT]);
}

#[test]
fn change_above_one_is_refused_and_changes_nothing() {
    let mut s = Spectrum::from_vec(vec![UNIT, 9_000_000], 3);
    assert!(!s.change_eigenvalue(1, 1_000_001));
    assert_eq!(values(&s), vec![UNIT, 9_000_000]);
    assert!(!s.change_eigenvalue(0, 1));
    assert_eq!(values(&s), vec![UNIT, 9_000_000]);
}

#[test]
fn change_downwards_has_no_lower_limit() {
    let mut s = Spectrum::from_vec(vec![UNIT, 0], 3);
    assert!(s.change_eigenvalue(1, -1_000_000));
    assert_eq!(s.get(1), -1_000_000);
    assert!(s.change_eigenvalue(1, i64::MIN + 1_000_000));
    assert_eq!(s.get(1), i64::MIN);
}

#[test]
fn change_downwards_from_above_one_is_refused_while_the_result_is_above_one() {
    let mut s = Spectrum::from_vec(vec![UNIT, 50_000_000], 3);
    assert!(!s.change_eigenvalue(1, -1_000_000));
    assert_eq!(s.get(1), 50_000_000);
    assert!(s.change_eigenvalue(1, -40_000_000));
    assert_eq!(s.get(1), UNIT);
}

#[test]
fn change_keeps_the_flags() {
    let mut s = Spectrum::from_vec(vec![UNIT, 0], 3);
    s.set_condition(1, true);
    s.change_eigenvalue(1, -5);
    assert_eq!(flags(&s), vec![false, true, false]);
}

#[test]
fn approx_equal_is_strict_at_the_tolerance() {
    assert_eq!(TOLERANCE, 100);
    assert!(approx_equal(0, 0));
    assert!(approx_equal(1_000, 1_099));
    assert!(approx_equal(1_099, 1_000));
    assert!(!approx_equal(1_000, 1_100));
    assert!(!approx_equal(1_100, 1_000));
    assert!(!approx_equal(i64::MIN, i64::MAX));
    assert!(approx_equal(i64::MIN, i64::MIN + 99));
}

#[test]
fn spectra_are_equal_within_the_tolerance() {
    let a = Spectrum::from_vec(vec![UNIT, 5_000_000, -3], 3);
    let b = Spectrum::from_vec(vec![UNIT + 99, 5_000_000 - 99, 50], 3);
    let c = Spectrum::from_vec(vec![UNIT, 5_000_100, -3], 3);
    assert!(a.equals(&b));
    assert!(b.equals(&a));
    assert!(!a.equals(&c));
    assert!(a == b);
    assert!(a != c);
}

#[test]
fn spectra_of_different_lengths_are_not_equal() {
    let a = Spectrum::from_vec(vec![UNIT, 0], 3);
    let b = Spectrum::from_vec(vec![UNIT, 0, 0], 3);
    assert!(!a.equals(&b));
    assert!(!b.equals(&a));
    assert_eq!(a.order(&b), None);
    assert!(!a.less_than(&b));
    assert!(!(a < b));
    assert!(a.partial_cmp(&b).is_none());
}

#[test]
fn equality_ignores_the_flags() {
    let a = Spectrum::from_vec(vec![UNIT, 0], 3);
    let mut b = Spectrum::from_vec(vec![UNIT, 0], 1);
    b.set_condition(0, true);
    assert!(a.equals(&b));
}

#[test]
fn the_first_entries_that_are_apart_decide_the_order() {
    let a = Spectrum::from_vec(vec![UNIT, 1_000, 900], 3);
    let b = Spectrum::from_vec(vec![UNIT, 2_000, -900], 3);
    assert_eq!(a.order(&b), Some(Sign::Minus));
    assert_eq!(b.order(&a), Some(Sign::Plus));
    assert_eq!(a.order(&a), Some(Sign::Zero));
    assert!(a.less_than(&b));
    assert!(!b.less_than(&a));
    assert!(!a.less_than(&a));
    assert!(a < b);
    assert!(b > a);
    assert_eq!(a.partial_cmp(&b), Some(std::cmp::Ordering::Less));
    assert_eq!(b.partial_cmp(&a), Some(std::cmp::Ordering::Greater));
    assert_eq!(a.partial_cmp(&a), Some(std::cmp::Ordering::Equal));
    assert_eq!(a.cmp(&b), std::cmp::Ordering::Less);
    assert_eq!(b.cmp(&a), std::cmp::Ordering::Greater);
    assert_eq!(a.cmp(&a), std::cmp::Ordering::Equal);
}

#[test]
fn the_order_passes_over_entries_that_are_close() {
    let a = Spectrum::from_vec(vec![UNIT, 2, 900], 3);
    let b = Spectrum::from_vec(vec![UNIT, 1, -900], 3);
    assert_eq!(a.order(&b), Some(Sign::Plus));
    assert_eq!(b.order(&a), Some(Sign::Minus));
    let c = Spectrum::from_vec(vec![UNIT + 99, 0], 3);
    let d = Spectrum::from_vec(vec![UNIT, 100], 3);
    assert_eq!(c.order(&d), Some(Sign::Minus));
    assert_eq!(c.cmp(&d), std::cmp::Ordering::Less);
}

#[test]
fn spectra_that_are_equal_compare_as_equal() {
    let a = Spectrum::from_vec(vec![UNIT, 1], 3);
    let b = Spectrum::from_vec(vec![UNIT, 2], 3);
    assert!(a.equals(&b));
    assert_eq!(a.order(&b), Some(Sign::Zero));
    assert!(!a.less_than(&b));
    assert!(!b.less_than(&a));
    assert_eq!(a.partial_cmp(&b), Some(std::cmp::Ordering::Equal));
    assert_eq!(a.cmp(&b), std::cmp::Ordering::Equal);
    let zero = Spectrum::from_vec(vec![0], 3);
    let near = Spectrum::from_vec(vec![10], 3);
    assert!(zero == near);
    assert_eq!(zero.partial_cmp(&near), Some(std::cmp::Ordering::Equal));
    assert!(!(zero < near));
}

#[test]
fn the_order_is_strict_at_the_tolerance() {
    let zero = Spectrum::from_vec(vec![0], 3);
    let inside = Spectrum::from_vec(vec![99], 3);
    let outside = Spectrum::from_vec(vec![100], 3);
    assert_eq!(zero.order(&inside), Some(Sign::Zero));
    assert_eq!(zero.order(&outside), Some(Sign::Minus));
    assert_eq!(outside.order(&zero), Some(Sign::Plus));
    assert!(zero != outside);
    assert!(zero < outside);
}

#[test]
fn clone_copies_values_and_flags() {
    let mut a = Spectrum::from_vec(vec![UNIT, -4], 3);
    a.set_condition(1, true);
    let mut b = a.clone();
    assert_eq!(values(&b), vec![UNIT, -4]);
    assert_eq!(flags(&b), vec![false, true, false]);
    b.set(1, 5);
    assert_eq!(a.get(1), -4);
}

#[test]
fn to_string_lists_eigenvalues_and_flags() {
    let mut s = Spectrum::from_vec(vec![UNIT, 5_000_000, -2_500_000], 3);
    s.set_condition(1, true);
    assert_eq!(
        s.to_string(),
        "Eigenvalues: 1, +0.5000000, -0.2500000; Tests: false, true, false"
    );
}

#[test]
fn to_string_writes_the_first_eigenvalue_with_the_decimals_it_needs() {
    let render = |v: i64| Spectrum::from_vec(vec![v], 1).to_string();
    assert_eq!(render(0), "Eigenvalues: 0; Tests: false");
    assert_eq!(render(5_000_000), "Eigenvalues: 0.5; Tests: false");
    assert_eq!(render(-12_500_000), "Eigenvalues: -1.25; Tests: false");
    assert_eq!(render(1), "Eigenvalues: 0.0000001; Tests: false");
    assert_eq!(render(-10), "Eigenvalues: -0.000001; Tests: false");
    assert_eq!(render(1_230_000_000), "Eigenvalues: 123; Tests: false");
    assert_eq!(render(10_203_040), "Eigenvalues: 1.020304; Tests: false");
    assert_eq!(render(i64::MAX), "Eigenvalues: 922337203685.4775807; Tests: false");
    assert_eq!(render(i64::MIN), "Eigenvalues: -922337203685.4775808; Tests: false");
}

#[test]
fn to_string_writes_the_other_eigenvalues_with_sign_and_seven_decimals() {
    let s = Spectrum::from_vec(vec![0, 0, 1, -1, 123_456_789, i64::MIN], 2);
    assert_eq!(
        s.to_string(),
        "Eigenvalues: 0, +0.0000000, +0.0000001, -0.0000001, +12.3456789, -922337203685.4775808; Tests: false, false"
    );
}
