use niep_spectra_checker::spectrum::{Spectrum, UNIT};
use niep_spectra_checker::{
    test_jll_condition, test_moment_condition, test_spectra, test_spectra_or, test_taamp_condition,
};

fn spectrum(values: &[i64]) -> Spectrum {
    Spectrum::from_vec(values.to_vec(), 3)
}

#[test]
fn moments_of_the_spectrum_of_ones() {
    let ones = spectrum(&[UNIT; 5]);
    assert_eq!(ones.moment(0).to_string(), "5");
    assert_eq!(ones.moment(1).to_string(), "50000000");
    assert_eq!(ones.moment(2).to_string(), "500000000000000");
    assert_eq!(
        ones.moment(9).to_string(),
        "5000000000000000000000000000000000000000000000000000000000000000"
    );
}

#[test]
fn moment_adds_the_powers_with_their_signs() {
    let s = spectrum(&[UNIT, 5_000_000]);
    assert_eq!(s.moment(2).to_string(), "125000000000000");
    let t = spectrum(&[UNIT, -5_000_000, 2_500_000]);
    assert_eq!(t.moment(3).to_string(), "890625000000000000000");
    let u = spectrum(&[UNIT, -20_000_000]);
    assert_eq!(u.moment(1).to_string(), "-10000000");
    assert_eq!(u.moment(3).to_string(), "-7000000000000000000000");
    assert_eq!(spectrum(&[]).moment(4).to_string(), "0");
}

#[test]
fn constant_spectrum_meets_the_moment_condition() {
    let ones = spectrum(&[UNIT; 5]);
    assert!(test_moment_condition(&ones, 0));
    assert!(test_moment_condition(&ones, 1));
    assert!(test_moment_condition(&ones, 3));
    assert!(test_moment_condition(&ones, 100));
    assert!(ones.test_moment_condition(250));
}

#[test]
fn moment_condition_fails_on_a_negative_trace() {
    let s = spectrum(&[UNIT, -20_000_000, 0, 0, 0]);
    assert!(!test_moment_condition(&s, 10));
    assert!(!test_moment_condition(&s, 2));
    assert!(test_moment_condition(&s, 1));
}

#[test]
fn moment_condition_fails_exactly_at_the_tolerance() {
    assert!(!test_moment_condition(&spectrum(&[0, -100]), 2));
    assert!(test_moment_condition(&spectrum(&[0, -99]), 2));
    assert!(test_moment_condition(&spectrum(&[0, -99]), 10));
}

#[test]
fn moment_condition_looks_at_every_order_below_the_bound() {
    let s = spectrum(&[UNIT, UNIT, -15_000_000]);
    assert!(test_moment_condition(&s, 3));
    assert!(!test_moment_condition(&s, 4));
}

#[test]
fn constant_spectrum_meets_jll_at_equality() {
    let ones = spectrum(&[UNIT; 5]);
    assert!(test_jll_condition(&ones, 3));
    assert!(test_jll_condition(&ones, 10));
    assert!(ones.test_jll_condition(3));
}

#[test]
fn jll_condition_holds_below_two_orders() {
    let s = spectrum(&[0, -1_000_000, 0, 0, 0]);
    assert!(test_jll_condition(&s, 0));
    assert!(test_jll_condition(&s, 1));
    assert!(test_jll_condition(&s, 3));
}

#[test]
fn jll_condition_fails_on_a_negative_odd_moment() {
    let s = spectrum(&[0, -1_000_000, 0, 0, 0]);
    assert!(!test_jll_condition(&s, 10));
    assert!(!test_jll_condition(&s, 4));
    assert!(!test_jll_condition(&spectrum(&[0, -99]), 10));
}

#[test]
fn jll_condition_holds_for_balanced_spectra() {
    assert!(test_jll_condition(&spectrum(&[20_000_000, -UNIT, -UNIT]), 10));
    assert!(test_jll_condition(&spectrum(&[UNIT, -UNIT]), 10));
    assert!(test_jll_condition(&spectrum(&[0; 5]), 10));
}

#[test]
fn taamp_condition_is_met_by_short_spectra() {
    assert!(test_taamp_condition(&spectrum(&[])));
    assert!(test_taamp_condition(&spectrum(&[-UNIT])));
    assert!(test_taamp_condition(&spectrum(&[-UNIT, -UNIT, -UNIT])));
    assert!(spectrum(&[-UNIT, -UNIT, -UNIT]).test_taamp_condition());
}

#[test]
fn taamp_condition_fails_on_a_negative_trace() {
    let s = spectrum(&[7_000_000, -1_000_000, -3_000_000, -5_000_000, -3_000_000]);
    assert!(!test_taamp_condition(&s));
    assert!(!test_taamp_condition(&spectrum(&[0, -1_000_000, 0, 0, 0])));
}

#[test]
fn taamp_condition_with_a_large_second_coefficient() {
    assert!(test_taamp_condition(&spectrum(&[19_000_000, 7_000_000, 3_000_000, 0])));
    assert!(!test_taamp_condition(&spectrum(&[11_000_000, 8_000_000, 8_000_000, UNIT])));
    assert!(!test_taamp_condition(&spectrum(&[UNIT; 5])));
}

#[test]
fn taamp_condition_with_a_small_second_coefficient() {
    assert!(test_taamp_condition(&spectrum(&[
        22_000_000, 2_000_000, UNIT, -9_000_000, -8_000_000
    ])));
    assert!(!test_taamp_condition(&spectrum(&[
        5_000_000, 7_000_000, 7_000_000, -6_000_000, -UNIT
    ])));
    assert!(test_taamp_condition(&spectrum(&[0; 5])));
    assert!(test_taamp_condition(&spectrum(&[30_000_000, -UNIT, -UNIT, -UNIT])));
}

#[test]
fn taamp_condition_counts_the_coefficients_of_the_polynomial() {
    assert!(test_taamp_condition(&spectrum(&[
        16_000_000, -4_000_000, 0, 6_000_000, 9_000_000
    ])));
    assert!(test_taamp_condition(&spectrum(&[30_000_000, 8_000_000, -6_000_000, UNIT])));
}

#[test]
fn the_search_asks_for_one_condition() {
    assert!(test_spectra_or(&spectrum(&[UNIT; 5])));
    assert!(test_spectra_or(&spectrum(&[0, -99])));
    assert!(test_spectra_or(&spectrum(&[0, -100])));
    assert!(!test_spectra_or(&spectrum(&[0, -1_000_000, 0, 0, 0])));
    assert!(!test_spectra_or(&spectrum(&[UNIT, -20_000_000, 0, 0, 0])));
}

#[test]
fn the_search_records_each_result() {
    let mut ones = Spectrum::from_vec(vec![UNIT; 5], 4);
    ones.set_condition(3, true);
    assert!(ones.test_spectra_or());
    let flags: Vec<bool> = (0..4).map(|i| ones.condition(i)).collect();
    assert_eq!(flags, vec![true, true, false, true]);
    assert_eq!(ones.get(4), UNIT);

    let mut short = spectrum(&[0, -100]);
    assert!(short.test_spectra_or());
    let flags: Vec<bool> = (0..3).map(|i| short.condition(i)).collect();
    assert_eq!(flags, vec![false, false, true]);

    let mut bad = spectrum(&[0, -1_000_000, 0, 0, 0]);
    bad.set_condition(0, true);
    assert!(!bad.test_spectra_or());
    let flags: Vec<bool> = (0..3).map(|i| bad.condition(i)).collect();
    assert_eq!(flags, vec![false, false, false]);
}

#[test]
fn validation_asks_for_every_condition() {
    assert!(test_spectra(&spectrum(&[0; 5])));
    assert!(test_spectra(&spectrum(&[0, 0, 0])));
    assert!(!test_spectra(&spectrum(&[0, -100])));
    assert!(!test_spectra(&spectrum(&[UNIT, -20_000_000, 0, 0, 0])));
}

#[test]
fn validation_looks_further_than_the_search() {
    let s = spectrum(&[UNIT, UNIT, UNIT, -11_000_000]);
    assert!(test_moment_condition(&s, 10));
    assert!(test_moment_condition(&s, 13));
    assert!(!test_moment_condition(&s, 14));
    assert!(!test_moment_condition(&s, 100));
    assert!(test_spectra_or(&s));
    assert!(!test_spectra(&s));
}

#[test]
fn jll_condition_on_spectra_with_and_without_a_common_divisor() {
    let cases: Vec<(&[i64], usize, bool)> = vec![
        (&[44999235, 23999592, 28999507, 18999677, -999983], 7, true),
        (&[21, 2, 0], 3, true),
        (&[63, -75, 12, 63, 78], 7, true),
        (&[77, 119, 63, 77, -140], 7, false),
        (&[28, -18], 7, true),
        (&[40999303, -9999830], 7, true),
        (&[560, 100, -120], 3, true),
        (&[357, -91], 7, true),
        (&[15, -24, -30], 5, false),
        (&[13, 5, -18, -2, 2], 7, false),
        (&[5999898, -18999677, 9999830], 5, false),
        (&[3999932, -24999575, 2999949, 17999694, 1999966], 5, false),
        (&[81, -90, -21, -33, -63], 7, false),
        (&[15, 36, -42], 7, false),
    ];
    for (values, powers, expected) in cases {
        assert_eq!(test_jll_condition(&spectrum(values), powers), expected, "{:?}", values);
    }
}

#[test]
fn jll_condition_at_the_ends_of_the_range() {
    assert!(test_jll_condition(&spectrum(&[i64::MAX, i64::MAX]), 4));
    assert!(test_jll_condition(&spectrum(&[i64::MIN, i64::MIN]), 4));
    assert!(!test_jll_condition(&spectrum(&[i64::MIN, 1]), 4));
    assert!(test_jll_condition(&spectrum(&[i64::MIN, i64::MIN]), 2));
    assert!(test_jll_condition(&spectrum(&[]), 5));
}

#[test]
fn full_validation_of_the_constant_spectrum() {
    let ones = spectrum(&[UNIT; 5]);
    assert!(test_jll_condition(&ones, 100));
    assert!(test_moment_condition(&ones, 100));
    assert!(!test_spectra(&ones));
    assert!(test_spectra(&spectrum(&[19_000_000, 7_000_000, 3_000_000, 0])));
}
