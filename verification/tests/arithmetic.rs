use num_bigint::BigInt;
use oxiz_solver::int_case_split::{ceil_div, div_interval, div_le_ge, floor_div, tighten};
use oxiz_solver::nonlinear::{is_open_logic, is_perfect_square, CompOp};
use oxiz_solver::numbers::{BigNum, Rat};
use rustc_hash::FxHashMap;

fn big(text: &str) -> BigNum {
    let n: BigInt = text.parse().unwrap();
    let (sign, digits) = n.to_u32_digits();
    BigNum { negative: sign == num_bigint::Sign::Minus, digits }
}

fn rat(num: i64, den: i64) -> Rat {
    Rat { num, den }
}

#[test]
fn test_is_perfect_square() {
    assert!(is_perfect_square(0));
    assert!(is_perfect_square(1));
    assert!(is_perfect_square(4));
    assert!(is_perfect_square(9));
    assert!(is_perfect_square(16));
    assert!(is_perfect_square(25));
    assert!(!is_perfect_square(2));
    assert!(!is_perfect_square(3));
    assert!(!is_perfect_square(5));
    assert!(!is_perfect_square(6));
    assert!(!is_perfect_square(7));
    assert!(!is_perfect_square(8));
}

#[test]
fn large_squares_are_recognized() {
    assert!(is_perfect_square(4294967295 * 4294967295));
    assert!(!is_perfect_square(u64::MAX));
}

#[test]
fn floor_and_ceil_div_signs() {
    assert_eq!(floor_div(7, 2), Some(3));
    assert_eq!(floor_div(-7, 2), Some(-4));
    assert_eq!(floor_div(7, -2), Some(-4));
    assert_eq!(floor_div(-7, -2), Some(3));
    assert_eq!(ceil_div(7, 2), Some(4));
    assert_eq!(ceil_div(-7, 2), Some(-3));
    assert_eq!(ceil_div(7, -2), Some(-3));
    assert_eq!(ceil_div(-7, -2), Some(4));
    assert_eq!(floor_div(6, 2), Some(3));
    assert_eq!(ceil_div(6, 2), Some(3));
}

#[test]
fn division_by_zero_gives_nothing() {
    assert_eq!(floor_div(1, 0), None);
    assert_eq!(ceil_div(1, 0), None);
    assert_eq!(ceil_div(i64::MIN, 2), Some(-4611686018427387904));
    assert_eq!(floor_div(i64::MIN, 2), Some(-4611686018427387904));
    assert_eq!(floor_div(i64::MIN, i64::MIN), Some(1));
}

#[test]
fn div_interval_positive_coef() {
    assert_eq!(div_interval(2, 3, 7), (Some(2), Some(3)));
}

#[test]
fn div_interval_negative_coef() {
    assert_eq!(div_interval(-2, 3, 7), (Some(-3), Some(-2)));
}

#[test]
fn div_le_ge_positive_coef() {
    assert_eq!(div_le_ge(2, 7, true), (None, Some(3)));
    assert_eq!(div_le_ge(2, 3, false), (Some(2), None));
}

#[test]
fn div_le_ge_negative_coef() {
    assert_eq!(div_le_ge(-2, 7, true), (Some(-3), None));
    assert_eq!(div_le_ge(-2, 3, false), (None, Some(-2)));
}

#[test]
fn tighten_intersects() {
    let mut bounds: FxHashMap<usize, (Option<i64>, Option<i64>)> = FxHashMap::default();
    let mut changed = false;
    tighten(0, Some(2), None, &mut bounds, &mut changed);
    assert!(changed);
    assert_eq!(bounds.get(&0), Some(&(Some(2), None)));
    changed = false;
    tighten(0, Some(1), None, &mut bounds, &mut changed);
    assert!(!changed);
    tighten(0, Some(5), None, &mut bounds, &mut changed);
    assert!(changed);
    assert_eq!(bounds.get(&0), Some(&(Some(5), None)));
    changed = false;
    tighten(0, None, Some(4), &mut bounds, &mut changed);
    assert!(changed);
    assert_eq!(bounds.get(&0), Some(&(Some(5), Some(4))));
}

#[test]
fn comparisons_flip() {
    assert_eq!(CompOp::Gt.flip(), CompOp::Lt);
    assert_eq!(CompOp::Ge.flip(), CompOp::Le);
    assert_eq!(CompOp::Lt.flip(), CompOp::Gt);
    assert_eq!(CompOp::Le.flip(), CompOp::Ge);
}

#[test]
fn open_logics() {
    assert!(is_open_logic("ALL"));
    assert!(!is_open_logic("QF_LIA"));
}

#[test]
fn rationals_are_reduced() {
    assert_eq!(rat(1, 6).checked_add(rat(1, 3)), Some(rat(1, 2)));
    assert_eq!(rat(2, 3).checked_mul(rat(3, 4)), Some(rat(1, 2)));
    assert_eq!(rat(1, 2).checked_sub(rat(1, 3)), Some(rat(1, 6)));
    assert_eq!(rat(1, 2).checked_div(rat(-3, 4)), Some(rat(-2, 3)));
    assert_eq!(rat(-2, 3).checked_recip(), Some(rat(-3, 2)));
    assert_eq!(rat(0, 1).checked_recip(), None);
    assert_eq!(rat(1, 2).checked_div(rat(0, 1)), None);
}

#[test]
fn rational_overflow_gives_nothing() {
    assert_eq!(rat(i64::MAX, 1).checked_add(rat(1, 1)), None);
    assert_eq!(rat(i64::MAX, 1).checked_mul(rat(2, 1)), None);
    assert_eq!(rat(i64::MIN, 1).checked_neg(), None);
}

#[test]
fn rationals_compare() {
    assert!(rat(1, 3).lt(rat(1, 2)));
    assert!(!rat(1, 2).lt(rat(1, 2)));
    assert!(rat(-1, 2).lt(rat(-1, 3)));
}

#[test]
fn big_numbers_as_words() {
    assert_eq!(BigNum::from_i64(-5).to_i64(), Some(-5));
    assert_eq!(BigNum::from_i64(i64::MIN).to_i64(), Some(i64::MIN));
    assert_eq!(big("9223372036854775808").to_i64(), None);
    assert!(big("18446744073709551615").fits_u64());
    assert!(!big("18446744073709551616").fits_u64());
    assert!(!big("-1").fits_u64());
}

#[test]
fn big_numbers_as_text() {
    let n = big("-123456789012345678901234567890");
    assert_eq!(n.decimal_text(), "-123456789012345678901234567890");
    assert_eq!(big("0").decimal_text(), "0");
    assert_eq!(big("10").binary_text(), "1010");
    assert_eq!(big("-5").binary_text(), "-101");
    assert_eq!(big("0").binary_text(), "0");
}

#[test]
fn big_numbers_divide_towards_zero() {
    assert_eq!(big("-7").quotient(&big("2")).to_i64(), Some(-3));
    assert_eq!(big("7").quotient(&big("-2")).to_i64(), Some(-3));
    let q = big("100000000000000000000").quotient(&big("10000000000"));
    assert_eq!(q.to_i64(), Some(10000000000));
}

#[test]
fn low_bits_wrap_around() {
    assert_eq!(big("-1").low_bits(4).to_i64(), Some(15));
    assert_eq!(big("17").low_bits(4).to_i64(), Some(1));
    assert!(big("-1").is_negative());
    assert!(!big("0").is_negative());
}
