use niep_spectra_checker::integer::Integer;
use niep_spectra_checker::limbs::Sign;
use niep_spectra_checker::polynomial::{approx_equal, Polynomial};
use niep_spectra_checker::spectrum::{Spectrum, UNIT};

fn poly(coefficients: &[i64]) -> Polynomial {
    Polynomial::from_vec(coefficients.iter().map(|c| Integer::from_i64(*c)).collect())
}

fn coefficients(p: &Polynomial) -> Vec<String> {
    (0..p.len()).map(|i| p.get(i).to_string()).collect()
}

#[test]
fn characteristic_polynomial_of_small_roots() {
    let s = Spectrum::from_vec(vec![1, 2, 3], 3);
    let p = Polynomial::from_spectrum(&s);
    assert_eq!(coefficients(&p), vec!["1", "-6", "11", "-6"]);
}

#[test]
fn characteristic_polynomial_of_no_roots_is_one() {
    let p = Polynomial::from_spectrum(&Spectrum::from_vec(vec![], 3));
    assert_eq!(coefficients(&p), vec!["1"]);
}

#[test]
fn characteristic_polynomial_has_one_coefficient_more_than_roots() {
    let s = Spectrum::from_vec(vec![UNIT; 5], 3);
    let p = Polynomial::from_spectrum(&s);
    assert_eq!(p.len(), 6);
    assert_eq!(
        coefficients(&p),
        vec![
            "1",
            "-50000000",
            "1000000000000000",
            "-10000000000000000000000",
            "50000000000000000000000000000",
            "-100000000000000000000000000000000000",
        ]
    );
}

#[test]
fn characteristic_polynomial_with_mixed_signs() {
    let s = Spectrum::from_vec(vec![30_000_000, -UNIT, -UNIT, -UNIT], 3);
    let p = Polynomial::from_spectrum(&s);
    assert_eq!(
        coefficients(&p),
        vec![
            "1",
            "0",
            "-600000000000000",
            "-8000000000000000000000",
            "-30000000000000000000000000000",
        ]
    );
}

#[test]
fn times_factor_multiplies_by_a_linear_factor() {
    let p = poly(&[1, -3, 2]).times_factor(&Integer::from_i64(-4));
    assert_eq!(coefficients(&p), vec!["1", "1", "-10", "8"]);
    let q = poly(&[]).times_factor(&Integer::from_i64(5));
    assert_eq!(coefficients(&q), vec!["0"]);
}

#[test]
fn product_is_the_convolution() {
    let p = poly(&[1, 2, 3]).mul(poly(&[4, -5]));
    assert_eq!(coefficients(&p), vec!["4", "3", "2", "-15"]);
    let q = poly(&[7]).mul(poly(&[1, 0, -1]));
    assert_eq!(coefficients(&q), vec!["7", "0", "-7"]);
    let r = poly(&[]).mul(poly(&[1, 2, 3]));
    assert_eq!(coefficients(&r), vec!["0", "0"]);
}

#[test]
fn product_agrees_with_times_factor() {
    let a = poly(&[1, -6, 11, -6]);
    let by_product = a.clone().mul(poly(&[1, -9]));
    let by_factor = a.times_factor(&Integer::from_i64(9));
    assert!(by_product.equals(&by_factor));
    assert_eq!(coefficients(&by_factor), vec!["1", "-15", "65", "-105", "54"]);
}

#[test]
fn from_element_and_set() {
    let mut p = Polynomial::from_element(3, Integer::from_i64(-2));
    assert_eq!(coefficients(&p), vec!["-2", "-2", "-2"]);
    p.set(1, Integer::from_i64(9));
    assert_eq!(coefficients(&p), vec!["-2", "9", "-2"]);
    assert_eq!(Polynomial::from_element(0, Integer::zero()).len(), 0);
}

#[test]
fn derivative_scales_each_coefficient_by_its_degree() {
    let d = poly(&[5, 7, -3, 2]).derivative();
    assert_eq!(coefficients(&d), vec!["15", "14", "-3"]);
    let square = poly(&[1, 0, 0]).derivative();
    assert_eq!(coefficients(&square), vec!["2", "0"]);
    let line = poly(&[-4, 9]).derivative();
    assert_eq!(coefficients(&line), vec!["-4"]);
    assert_eq!(poly(&[5]).derivative().len(), 0);
}

#[test]
fn smallest_and_largest_absolute_coefficient() {
    let p = poly(&[4, -9, 2, -1]);
    assert_eq!(p.min_term().to_string(), "1");
    assert_eq!(p.max_term().to_string(), "9");
    let q = poly(&[-3]);
    assert_eq!(q.min_term().to_string(), "3");
    assert_eq!(q.max_term().to_string(), "3");
}

#[test]
fn nonnegative_with_and_without_threshold() {
    assert!(poly(&[1, 0, 3]).is_polynomial_nonnegative());
    assert!(!poly(&[1, -1, 3]).is_polynomial_nonnegative());
    assert!(poly(&[]).is_polynomial_nonnegative());
    assert!(poly(&[1, -1, 3]).is_polynomial_nonnegative_with_threshold(&Integer::from_i64(-1)));
    assert!(!poly(&[1, 0, 3]).is_polynomial_nonnegative_with_threshold(&Integer::from_i64(1)));
}

#[test]
fn coefficients_are_close_below_the_tolerance() {
    assert!(approx_equal(&Integer::from_i64(1_000), &Integer::from_i64(1_099)));
    assert!(approx_equal(&Integer::from_i64(1_099), &Integer::from_i64(1_000)));
    assert!(!approx_equal(&Integer::from_i64(1_000), &Integer::from_i64(1_100)));
    assert!(!approx_equal(&Integer::from_i64(-50), &Integer::from_i64(50)));
}

#[test]
fn polynomials_compare_coefficient_by_coefficient() {
    let a = poly(&[1, 2, 3]);
    let b = poly(&[1, 3, 0]);
    assert!(a.equals(&a.clone()));
    assert!(!a.equals(&b));
    assert!(a == a.clone());
    assert!(a != b);
    assert_eq!(a.order(&b), Some(Sign::Minus));
    assert_eq!(b.order(&a), Some(Sign::Plus));
    assert_eq!(a.order(&a), Some(Sign::Zero));
    assert_eq!(a.order(&poly(&[1, 2])), None);
    assert!(a < b);
    assert_eq!(a.cmp(&b), std::cmp::Ordering::Less);
    assert_eq!(b.cmp(&a), std::cmp::Ordering::Greater);
    assert_eq!(a.cmp(&a), std::cmp::Ordering::Equal);
    assert_eq!(poly(&[1, 2, 3]).cmp(&poly(&[1, 2, 4])), std::cmp::Ordering::Less);
    assert!(!(a < poly(&[1, 2])));
    assert!(!a.equals(&poly(&[1, 2])));
}

#[test]
fn polynomial_text_lists_the_terms() {
    assert_eq!(poly(&[1, -3, 0]).to_string(), "+ 1x^2 - 3x^1 + 0x^0 ");
    assert_eq!(poly(&[]).to_string(), "");
    let s = Spectrum::from_vec(vec![UNIT, -UNIT], 3);
    assert_eq!(
        Polynomial::from_spectrum(&s).to_string(),
        "+ 1x^2 + 0x^1 - 100000000000000x^0 "
    );
}
