use stellar_fraction::math::{accumulated, pending, reward_increase, SCALE};
use stellar_fraction::types::Error;

#[test]
fn accumulated_scales_down_by_1e12() {
    assert_eq!(accumulated(1000, 3 * SCALE), Ok(3000));
    assert_eq!(accumulated(1, SCALE - 1), Ok(0));
    assert_eq!(accumulated(0, 5 * SCALE), Ok(0));
}

#[test]
fn accumulated_rounds_toward_zero() {
    assert_eq!(accumulated(3, 666_666_666_666), Ok(1));
    assert_eq!(accumulated(-3, 666_666_666_666), Ok(-1));
}

#[test]
fn accumulated_overflow_is_reported() {
    assert_eq!(accumulated(i128::MAX, 2), Err(Error::ArithmeticOverflow));
}

#[test]
fn pending_subtracts_debt() {
    assert_eq!(pending(1000, 3 * SCALE, 1000), Ok(2000));
    assert_eq!(pending(1500, 5 * SCALE, 4500), Ok(3000));
    assert_eq!(pending(1, SCALE, i128::MIN), Err(Error::ArithmeticOverflow));
}

#[test]
fn reward_increase_per_share() {
    assert_eq!(reward_increase(4000, 4000), Ok(SCALE));
    assert_eq!(reward_increase(8000, 4000), Ok(2 * SCALE));
    assert_eq!(reward_increase(2, 3), Ok(666_666_666_666));
    assert_eq!(reward_increase(1, 0), Err(Error::ArithmeticOverflow));
    assert_eq!(reward_increase(i128::MAX, 1), Err(Error::ArithmeticOverflow));
}
