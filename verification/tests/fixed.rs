use bevy_mod_opacity::fixed::multiply;
use bevy_mod_opacity::fixed::saturate_wide;
use bevy_mod_opacity::fixed::speed_between;
use bevy_mod_opacity::UNIT;

#[test]
fn unit_is_two_to_the_thirty_second() {
    assert_eq!(UNIT, 1i64 << 32);
}

#[test]
fn multiply_halves() {
    assert_eq!(multiply(UNIT / 2, UNIT / 2), UNIT / 4);
    assert_eq!(multiply(UNIT / 2, UNIT / 4), UNIT / 8);
}

#[test]
fn multiply_by_unit_and_zero() {
    for value in [0, 1, -1, 12345, -12345, UNIT, -UNIT, i64::MAX, i64::MIN] {
        assert_eq!(multiply(value, UNIT), value);
        assert_eq!(multiply(UNIT, value), value);
        assert_eq!(multiply(value, 0), 0);
        assert_eq!(multiply(0, value), 0);
    }
}

#[test]
fn multiply_rounds_down() {
    assert_eq!(multiply(3, 1), 0);
    assert_eq!(multiply(UNIT + 1, UNIT / 2), UNIT / 2);
    assert_eq!(multiply(-1, 1), -1);
    assert_eq!(multiply(-3, UNIT / 2), -2);
    assert_eq!(multiply(3, UNIT / 2), 1);
    assert_eq!(multiply(-UNIT, UNIT / 2), -UNIT / 2);
    assert_eq!(multiply(-UNIT / 2, -UNIT / 2), UNIT / 4);
}

#[test]
fn multiply_saturates() {
    assert_eq!(multiply(i64::MAX, i64::MAX), i64::MAX);
    assert_eq!(multiply(i64::MIN, i64::MIN), i64::MAX);
    assert_eq!(multiply(i64::MIN, i64::MAX), i64::MIN);
    assert_eq!(multiply(i64::MAX, 2 * UNIT), i64::MAX);
    assert_eq!(multiply(i64::MAX / 2, 2 * UNIT), i64::MAX - 1);
}

#[test]
fn speed_between_rounds_away_from_zero() {
    assert_eq!(speed_between(0, 10, 3), 4);
    assert_eq!(speed_between(10, 0, 3), -4);
    assert_eq!(speed_between(0, 9, 3), 3);
    assert_eq!(speed_between(9, 0, 3), -3);
    assert_eq!(speed_between(0, 1, 1000), 1);
    assert_eq!(speed_between(1, 0, 1000), -1);
    assert_eq!(speed_between(5, 5, 7), 0);
}

#[test]
fn speed_between_on_the_unit_range() {
    assert_eq!(speed_between(0, UNIT, 1), UNIT);
    assert_eq!(speed_between(0, UNIT, 4), UNIT / 4);
    assert_eq!(speed_between(0, UNIT, 3), 1_431_655_766);
    assert_eq!(speed_between(UNIT, 0, 3), -1_431_655_766);
    assert_eq!(speed_between(0, UNIT, u64::MAX), 1);
    assert_eq!(speed_between(UNIT, 0, u64::MAX), -1);
}

#[test]
fn speed_between_saturates() {
    assert_eq!(speed_between(i64::MIN, i64::MAX, 1), i64::MAX);
    assert_eq!(speed_between(i64::MAX, i64::MIN, 1), i64::MIN);
    assert_eq!(speed_between(i64::MIN, i64::MAX, 2), i64::MAX);
    assert_eq!(speed_between(i64::MIN, i64::MAX, 4), 1i64 << 62);
    assert_eq!(speed_between(0, i64::MIN, 1), i64::MIN);
}

#[test]
fn saturate_wide_brings_into_range() {
    assert_eq!(saturate_wide(0), 0);
    assert_eq!(saturate_wide(-7), -7);
    assert_eq!(saturate_wide(i64::MAX as i128), i64::MAX);
    assert_eq!(saturate_wide(i64::MAX as i128 + 1), i64::MAX);
    assert_eq!(saturate_wide(i64::MIN as i128), i64::MIN);
    assert_eq!(saturate_wide(i64::MIN as i128 - 1), i64::MIN);
    assert_eq!(saturate_wide(i128::MAX), i64::MAX);
    assert_eq!(saturate_wide(i128::MIN), i64::MIN);
}
