use particlebevy::fixed::{div_i128, isqrt, saturate_i32, FRAC_BITS, ONE};
use particlebevy::vec2::{squared_length, Vec2};

#[test]
fn one_has_sixteen_fractional_bits() {
    assert_eq!(FRAC_BITS, 16);
    assert_eq!(ONE, 1 << 16);
}

#[test]
fn saturate_keeps_values_in_range() {
    assert_eq!(saturate_i32(0), 0);
    assert_eq!(saturate_i32(-17), -17);
    assert_eq!(saturate_i32(i32::MAX as i128), i32::MAX);
    assert_eq!(saturate_i32(i32::MIN as i128), i32::MIN);
}

#[test]
fn saturate_clamps_values_out_of_range() {
    assert_eq!(saturate_i32(i32::MAX as i128 + 1), i32::MAX);
    assert_eq!(saturate_i32(i32::MIN as i128 - 1), i32::MIN);
    assert_eq!(saturate_i32(i128::MAX), i32::MAX);
    assert_eq!(saturate_i32(i128::MIN), i32::MIN);
}

#[test]
fn division_rounds_toward_zero() {
    assert_eq!(div_i128(7, 2), 3);
    assert_eq!(div_i128(-7, 2), -3);
    assert_eq!(div_i128(6, 3), 2);
    assert_eq!(div_i128(-6, 3), -2);
    assert_eq!(div_i128(0, 5), 0);
    assert_eq!(div_i128(-1, 5), 0);
}

#[test]
fn division_of_the_smallest_value() {
    assert_eq!(div_i128(i128::MIN, 1), i128::MIN);
    assert_eq!(div_i128(i128::MIN, 2), i128::MIN / 2);
    assert_eq!(div_i128(i128::MIN, 3), i128::MIN / 3);
    assert_eq!(div_i128(i128::MIN, i128::MAX), -1);
}

#[test]
fn isqrt_of_small_numbers() {
    let expected: [u64; 17] = [0, 1, 1, 1, 2, 2, 2, 2, 2, 3, 3, 3, 3, 3, 3, 3, 4];
    for n in 0..17u128 {
        assert_eq!(isqrt(n), expected[n as usize]);
    }
}

#[test]
fn isqrt_of_squares_and_their_neighbours() {
    for r in [1u128, 2, 255, 65536, 4294967295, 4294967296, 18446744073709551615] {
        assert_eq!(isqrt(r * r) as u128, r);
        assert_eq!(isqrt(r * r - 1) as u128, r - 1);
        if r < 18446744073709551615 {
            assert_eq!(isqrt(r * r + 1) as u128, r);
        }
    }
}

#[test]
fn isqrt_of_the_largest_value() {
    assert_eq!(isqrt(u128::MAX), u64::MAX);
}

#[test]
fn squared_length_is_the_sum_of_squares() {
    assert_eq!(squared_length(3, 4), 25);
    assert_eq!(squared_length(-3, 4), 25);
    assert_eq!(squared_length(0, 0), 0);
    assert_eq!(squared_length(4294967296, -4294967296), 2 * (1u128 << 64));
    assert_eq!(squared_length(i64::MIN, i64::MAX), (1u128 << 126) + ((1u128 << 63) - 1) * ((1u128 << 63) - 1));
    assert_eq!(squared_length(i64::MIN, i64::MIN), 1u128 << 127);
}

#[test]
fn vector_constructors() {
    assert_eq!(Vec2::new(3, -4), Vec2 { x: 3, y: -4 });
    assert_eq!(Vec2::splat(7), Vec2 { x: 7, y: 7 });
    assert_eq!(Vec2::zero(), Vec2 { x: 0, y: 0 });
}
