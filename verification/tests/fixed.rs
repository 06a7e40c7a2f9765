use pcgbg::fixed::{isqrt, rescale_wide, saturate, Fixed, SCALE};

#[test]
fn one_is_a_million_millionths() {
    assert_eq!(SCALE, 1_000_000);
    assert_eq!(Fixed::from_int(1).raw, 1_000_000);
    assert_eq!(Fixed::from_int(-7).raw, -7_000_000);
    assert_eq!(Fixed::from_usize(12).raw, 12_000_000);
}

#[test]
fn from_int_saturates() {
    assert_eq!(Fixed::from_int(i64::MAX).raw, i64::MAX);
    assert_eq!(Fixed::from_int(i64::MIN).raw, i64::MIN);
    assert_eq!(Fixed::from_int(9_223_372_036_854).raw, 9_223_372_036_854_000_000);
    assert_eq!(Fixed::from_int(9_223_372_036_855).raw, i64::MAX);
    assert_eq!(Fixed::from_usize(usize::MAX).raw, i64::MAX);
}

#[test]
fn from_ratio_rounds_toward_zero() {
    assert_eq!(Fixed::from_ratio(14, 10).raw, 1_400_000);
    assert_eq!(Fixed::from_ratio(1, 3).raw, 333_333);
    assert_eq!(Fixed::from_ratio(-1, 3).raw, -333_333);
    assert_eq!(Fixed::from_ratio(2, 3).raw, 666_666);
    assert_eq!(Fixed::from_ratio(-2, 3).raw, -666_666);
    assert_eq!(Fixed::from_ratio(0, 5).raw, 0);
    assert_eq!(Fixed::from_ratio(7, 2).raw, 3_500_000);
    assert_eq!(Fixed::from_ratio(1, 1_000_000).raw, 1);
    assert_eq!(Fixed::from_ratio(1, 1_000_001).raw, 0);
    assert_eq!(Fixed::from_ratio(-1, 1_000_001).raw, 0);
    assert_eq!(Fixed::from_ratio(i64::MAX, 1).raw, i64::MAX);
    assert_eq!(Fixed::from_ratio(i64::MIN, 1).raw, i64::MIN);
}

#[test]
fn from_ratio_takes_a_negative_divisor() {
    assert_eq!(Fixed::from_ratio(1, -3).raw, -333_333);
    assert_eq!(Fixed::from_ratio(-1, -3).raw, 333_333);
    assert_eq!(Fixed::from_ratio(-14, -10).raw, 1_400_000);
    assert_eq!(Fixed::from_ratio(i64::MIN, -1).raw, i64::MAX);
    assert_eq!(Fixed::from_ratio(i64::MIN, i64::MIN).raw, 1_000_000);
    assert_eq!(Fixed::from_ratio(i64::MAX, i64::MIN).raw, -999_999);
}

#[test]
fn plus_adds_and_saturates() {
    let a = Fixed { raw: 1_500_000 };
    let b = Fixed { raw: -2_000_001 };
    assert_eq!(a.plus(b).raw, -500_001);
    assert_eq!(Fixed { raw: i64::MAX }.plus(Fixed { raw: 1 }).raw, i64::MAX);
    assert_eq!(Fixed { raw: i64::MIN }.plus(Fixed { raw: -1 }).raw, i64::MIN);
    assert_eq!(Fixed { raw: i64::MAX }.plus(Fixed { raw: i64::MIN }).raw, -1);
}

#[test]
fn times_multiplies_and_rounds_toward_zero() {
    let half = Fixed::from_ratio(1, 2);
    assert_eq!(Fixed::from_int(3).times(half).raw, 1_500_000);
    assert_eq!(Fixed { raw: 333_333 }.times(Fixed { raw: 1_400_000 }).raw, 466_666);
    assert_eq!(Fixed { raw: -333_333 }.times(Fixed { raw: 1_400_000 }).raw, -466_666);
    assert_eq!(Fixed { raw: 1 }.times(Fixed { raw: 999_999 }).raw, 0);
    assert_eq!(Fixed { raw: -1 }.times(Fixed { raw: 999_999 }).raw, 0);
    assert_eq!(Fixed::from_int(-2).times(Fixed::from_int(-3)).raw, 6_000_000);
}

#[test]
fn times_saturates() {
    let big = Fixed { raw: i64::MAX };
    let low = Fixed { raw: i64::MIN };
    assert_eq!(big.times(big).raw, i64::MAX);
    assert_eq!(low.times(low).raw, i64::MAX);
    assert_eq!(big.times(low).raw, i64::MIN);
    assert_eq!(big.times(Fixed::from_int(1)).raw, i64::MAX);
    assert_eq!(low.times(Fixed::from_int(1)).raw, i64::MIN);
}

#[test]
fn saturate_narrows() {
    assert_eq!(saturate(0), 0);
    assert_eq!(saturate(-5), -5);
    assert_eq!(saturate(i64::MAX as i128 + 1), i64::MAX);
    assert_eq!(saturate(i64::MIN as i128 - 1), i64::MIN);
    assert_eq!(saturate(i128::MAX), i64::MAX);
    assert_eq!(saturate(i128::MIN), i64::MIN);
}

#[test]
fn rescale_wide_divides_by_one() {
    assert_eq!(rescale_wide(1_500_000), 1);
    assert_eq!(rescale_wide(-1_500_000), -1);
    assert_eq!(rescale_wide(6_000_000_000_000), 6_000_000);
    assert_eq!(rescale_wide(i128::MAX), i64::MAX);
    assert_eq!(rescale_wide(i128::MIN), i64::MIN);
}

#[test]
fn isqrt_rounds_down() {
    assert_eq!(isqrt(0), 0);
    assert_eq!(isqrt(1), 1);
    assert_eq!(isqrt(2), 1);
    assert_eq!(isqrt(3), 1);
    assert_eq!(isqrt(4), 2);
    assert_eq!(isqrt(99), 9);
    assert_eq!(isqrt(100), 10);
    assert_eq!(isqrt(2_000_000_000_000), 1_414_213);
    assert_eq!(isqrt(u128::MAX), u64::MAX);
    assert_eq!(isqrt((u64::MAX as u128) * (u64::MAX as u128)), u64::MAX);
    assert_eq!(isqrt((u64::MAX as u128) * (u64::MAX as u128) - 1), u64::MAX - 1);
}
