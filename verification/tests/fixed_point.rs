use tabular_rl::fixed_point::{
    bootstrap_target, reward_between, saturate_value, step_toward, SCALE,
};

#[test]
fn one_whole_is_a_million_units() {
    assert_eq!(SCALE, 1_000_000);
}

#[test]
fn saturate_value_clamps_to_the_value_range() {
    assert_eq!(saturate_value(0), 0);
    assert_eq!(saturate_value(-17), -17);
    assert_eq!(saturate_value(i64::MAX as i128), i64::MAX);
    assert_eq!(saturate_value(i64::MAX as i128 + 1), i64::MAX);
    assert_eq!(saturate_value(i64::MIN as i128 - 1), i64::MIN);
    assert_eq!(saturate_value(i128::MAX), i64::MAX);
    assert_eq!(saturate_value(i128::MIN), i64::MIN);
}

#[test]
fn reward_is_the_score_difference() {
    assert_eq!(reward_between(0, SCALE), SCALE);
    assert_eq!(reward_between(3, -4), -7);
    assert_eq!(reward_between(SCALE, SCALE), 0);
    assert_eq!(reward_between(i64::MIN, i64::MAX), i64::MAX);
    assert_eq!(reward_between(i64::MAX, i64::MIN), i64::MIN);
}

#[test]
fn bootstrap_target_adds_the_discounted_value() {
    assert_eq!(bootstrap_target(1_000_000, 900_000, 500_000), 1_450_000);
    assert_eq!(bootstrap_target(0, 900_000, -1_000_000), -900_000);
    assert_eq!(bootstrap_target(-250_000, 0, 777_777), -250_000);
    assert_eq!(bootstrap_target(5, 1_000_000, 7), 12);
}

#[test]
fn products_round_toward_zero() {
    assert_eq!(bootstrap_target(0, 900_000, 1), 0);
    assert_eq!(bootstrap_target(0, 900_000, -1), 0);
    assert_eq!(bootstrap_target(0, 500_000, 3), 1);
    assert_eq!(bootstrap_target(0, 500_000, -3), -1);
    assert_eq!(step_toward(0, 100_000, -5), 0);
    assert_eq!(step_toward(0, 100_000, 15), 1);
    assert_eq!(step_toward(0, 100_000, -15), -1);
}

#[test]
fn step_toward_moves_by_the_learning_rate() {
    assert_eq!(step_toward(0, 100_000, -1_000_000), -100_000);
    assert_eq!(step_toward(400_000, 100_000, 1_000_000), 460_000);
    assert_eq!(step_toward(400_000, 1_000_000, 1_000_000), 1_000_000);
    assert_eq!(step_toward(400_000, 0, 1_000_000), 400_000);
    assert_eq!(step_toward(0, 2_000_000, 10), 20);
}

#[test]
fn step_toward_stays_at_a_fixed_point() {
    for current in [0, 1, -1, 123_456, -999_999, i64::MAX, i64::MIN] {
        for alpha in [0, 1, 100_000, 1_000_000, u32::MAX] {
            assert_eq!(step_toward(current, alpha, current), current);
        }
    }
}

#[test]
fn results_stick_at_the_ends_of_the_range() {
    assert_eq!(bootstrap_target(i64::MAX, 1_000_000, i64::MAX), i64::MAX);
    assert_eq!(bootstrap_target(i64::MIN, 1_000_000, i64::MIN), i64::MIN);
    assert_eq!(bootstrap_target(i64::MAX, u32::MAX, i64::MAX), i64::MAX);
    assert_eq!(step_toward(i64::MAX, u32::MAX, i64::MIN), i64::MIN);
    assert_eq!(step_toward(i64::MIN, u32::MAX, i64::MAX), i64::MAX);
    assert_eq!(step_toward(i64::MIN, 1_000_000, i64::MAX), i64::MAX);
}
