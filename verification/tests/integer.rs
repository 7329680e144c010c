use niep_spectra_checker::integer::Integer;
use niep_spectra_checker::limbs::{
    add_limbs, compare_limbs, divide_limbs, mul_limbs, sub_limbs, trim, Sign,
};

fn whole(v: i64) -> Integer {
    Integer::from_i64(v)
}

#[test]
fn integers_print_in_decimal() {
    assert_eq!(Integer::zero().to_string(), "0");
    assert_eq!(whole(7).to_string(), "7");
    assert_eq!(whole(-7).to_string(), "-7");
    assert_eq!(whole(10).to_string(), "10");
    assert_eq!(whole(4_294_967_296).to_string(), "4294967296");
    assert_eq!(whole(i64::MAX).to_string(), "9223372036854775807");
    assert_eq!(whole(i64::MIN).to_string(), "-9223372036854775808");
    assert_eq!(Integer::from_u64(u64::MAX).to_string(), "18446744073709551615");
    assert_eq!(Integer::zero().negated().to_string(), "0");
}

#[test]
fn push_magnitude_appends_the_absolute_value() {
    let mut out = String::from("x");
    whole(-305).push_magnitude(&mut out);
    assert_eq!(out, "x305");
}

#[test]
fn sums_carry_across_limbs() {
    let a = Integer::from_u64(u64::MAX);
    assert_eq!(a.plus(&whole(1)).to_string(), "18446744073709551616");
    assert_eq!(a.plus(&a).to_string(), "36893488147419103230");
    assert_eq!(whole(5).plus(&whole(-8)).to_string(), "-3");
    assert_eq!(whole(-5).plus(&whole(8)).to_string(), "3");
    assert_eq!(whole(-5).plus(&whole(-8)).to_string(), "-13");
    assert_eq!(whole(5).plus(&whole(-5)).to_string(), "0");
}

#[test]
fn differences_borrow_across_limbs() {
    let big = Integer::from_u64(u64::MAX).plus(&whole(1));
    assert_eq!(big.minus(&whole(1)).to_string(), "18446744073709551615");
    assert_eq!(whole(1).minus(&big).to_string(), "-18446744073709551615");
    assert_eq!(whole(4_294_967_296).minus(&whole(1)).to_string(), "4294967295");
    assert_eq!(whole(3).minus(&whole(-4)).to_string(), "7");
    assert_eq!(whole(i64::MIN).minus(&whole(i64::MAX)).to_string(), "-18446744073709551615");
}

#[test]
fn products_follow_the_rule_of_signs() {
    assert_eq!(whole(6).times(&whole(-7)).to_string(), "-42");
    assert_eq!(whole(-6).times(&whole(-7)).to_string(), "42");
    assert_eq!(whole(-6).times(&whole(0)).to_string(), "0");
    assert_eq!(whole(0).times(&whole(9)).sign(), Sign::Zero);
    let max = Integer::from_u64(u64::MAX);
    assert_eq!(
        max.times(&max).to_string(),
        "340282366920938463426481119284349108225"
    );
    assert_eq!(
        whole(i64::MIN).times(&whole(i64::MIN)).to_string(),
        "85070591730234615865843651857942052864"
    );
}

#[test]
fn powers_of_ten_grow_without_bound() {
    let ten = whole(10);
    let mut p = whole(1);
    for _ in 0..60 {
        p = p.times(&ten);
    }
    assert_eq!(p.to_string(), format!("1{}", "0".repeat(60)));
    assert_eq!(p.minus(&whole(1)).to_string(), "9".repeat(60));
}

#[test]
fn long_numbers_print_digit_by_digit() {
    let ten = whole(10);
    let mut p = whole(-1);
    for _ in 0..3000 {
        p = p.times(&ten);
    }
    let expected = format!("-1{}", "0".repeat(3000));
    assert_eq!(p.to_string(), expected);
    assert_eq!(p.plus(&whole(1)).to_string(), format!("-{}", "9".repeat(3000)));
}

#[test]
fn signs_and_comparisons() {
    assert_eq!(whole(0).sign(), Sign::Zero);
    assert_eq!(whole(3).sign(), Sign::Plus);
    assert_eq!(whole(-3).sign(), Sign::Minus);
    assert_eq!(whole(2).compare(&whole(5)), Sign::Minus);
    assert_eq!(whole(5).compare(&whole(2)), Sign::Plus);
    assert_eq!(whole(5).compare(&whole(5)), Sign::Zero);
    assert_eq!(whole(-5).compare(&whole(2)), Sign::Minus);
    assert!(whole(-1).less_than(&whole(0)));
    assert!(!whole(0).less_than(&whole(0)));
    assert!(whole(0).at_most(&whole(0)));
    assert!(!whole(1).at_most(&whole(0)));
    let big = Integer::from_u64(u64::MAX).times(&whole(4));
    assert!(whole(i64::MAX).less_than(&big));
    assert!(big.negated().less_than(&whole(i64::MIN)));
}

#[test]
fn magnitude_and_negation() {
    assert_eq!(whole(-9).magnitude().to_string(), "9");
    assert_eq!(whole(9).magnitude().to_string(), "9");
    assert_eq!(whole(9).negated().to_string(), "-9");
    assert_eq!(whole(-9).negated().to_string(), "9");
    let c = whole(-9).clone();
    assert_eq!(c.to_string(), "-9");
}

#[test]
fn limbs_add_and_subtract() {
    assert_eq!(add_limbs(&vec![u32::MAX], &vec![1]), vec![0, 1]);
    assert_eq!(add_limbs(&vec![u32::MAX, u32::MAX], &vec![1]), vec![0, 0, 1]);
    assert_eq!(add_limbs(&vec![], &vec![5, 6]), vec![5, 6]);
    assert_eq!(sub_limbs(&vec![0, 1], &vec![1]), vec![u32::MAX]);
    assert_eq!(sub_limbs(&vec![0, 0, 1], &vec![1]), vec![u32::MAX, u32::MAX]);
    assert_eq!(sub_limbs(&vec![7, 9], &vec![7, 9, 0]), Vec::<u32>::new());
}

#[test]
fn limbs_multiply_and_divide() {
    assert_eq!(
        mul_limbs(&vec![u32::MAX, u32::MAX], &vec![u32::MAX]),
        vec![1, u32::MAX, u32::MAX - 1]
    );
    assert_eq!(mul_limbs(&vec![u32::MAX], &vec![u32::MAX]), vec![1, u32::MAX - 1]);
    assert_eq!(mul_limbs(&vec![0, 1], &vec![0, 1]), vec![0, 0, 1]);
    assert_eq!(mul_limbs(&vec![3], &vec![]), Vec::<u32>::new());
    assert_eq!(divide_limbs(&vec![0, 1], 10), (vec![429_496_729], 6));
    assert_eq!(divide_limbs(&vec![1, u32::MAX - 1], u32::MAX), (vec![u32::MAX], 0));
    assert_eq!(divide_limbs(&vec![9], 10), (vec![], 9));
}

#[test]
fn limbs_compare_by_value() {
    assert_eq!(compare_limbs(&vec![5], &vec![5, 0, 0]), Sign::Zero);
    assert_eq!(compare_limbs(&vec![], &vec![0]), Sign::Zero);
    assert_eq!(compare_limbs(&vec![u32::MAX], &vec![0, 1]), Sign::Minus);
    assert_eq!(compare_limbs(&vec![0, 2], &vec![u32::MAX, 1]), Sign::Plus);
    let mut padded = vec![4, 0, 0];
    trim(&mut padded);
    assert_eq!(padded, vec![4]);
}
