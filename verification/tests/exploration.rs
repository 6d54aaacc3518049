use tabular_rl::exploration::{
    best_action, decay_epsilon, epsilon_greedy, explores, select_action,
};
use tabular_rl::fixed_point::SCALE;

#[test]
fn decay_is_linear_and_then_holds() {
    assert_eq!(decay_epsilon(1_000_000, 10_000, 0, 100), 1_000_000);
    assert_eq!(decay_epsilon(1_000_000, 10_000, 50, 100), 505_000);
    assert_eq!(decay_epsilon(1_000_000, 10_000, 99, 100), 19_900);
    assert_eq!(decay_epsilon(1_000_000, 10_000, 100, 100), 10_000);
    assert_eq!(decay_epsilon(1_000_000, 10_000, 5_000, 100), 10_000);
    assert_eq!(decay_epsilon(1_000_000, 10_000, 1, 3), 670_000);
}

#[test]
fn decay_can_rise_and_rounds_toward_the_start() {
    assert_eq!(decay_epsilon(0, 10, 1, 3), 3);
    assert_eq!(decay_epsilon(0, 10, 2, 3), 6);
    assert_eq!(decay_epsilon(10, 0, 1, 3), 7);
    assert_eq!(decay_epsilon(10, 0, 2, 3), 4);
    assert_eq!(decay_epsilon(0, u32::MAX, usize::MAX - 1, usize::MAX), u32::MAX - 1);
    assert_eq!(decay_epsilon(u32::MAX, 0, usize::MAX - 1, usize::MAX), 1);
}

#[test]
fn decay_without_a_horizon_is_the_end_value() {
    assert_eq!(decay_epsilon(300_000, 10_000, 0, 0), 10_000);
    assert_eq!(decay_epsilon(250_000, 250_000, 7, 20), 250_000);
}

#[test]
fn a_draw_explores_below_epsilon() {
    assert!(!explores(0, 0));
    assert!(!explores(999_999, 0));
    assert!(explores(0, 1));
    assert!(explores(99_999, 100_000));
    assert!(!explores(100_000, 100_000));
    assert!(explores(999_999, 1_000_000));
    assert!(explores(999_999, u32::MAX));
}

#[test]
fn best_action_is_the_first_best_legal_action() {
    let row = vec![5, 9, 9, 1];
    assert_eq!(best_action(&row, &vec![0, 1, 2, 3]), 1);
    assert_eq!(best_action(&row, &vec![3, 2, 1, 0]), 2);
    assert_eq!(best_action(&row, &vec![0, 3]), 0);
    assert_eq!(best_action(&row, &vec![3]), 3);
    assert_eq!(best_action(&vec![0, 0], &vec![0, 1]), 0);
    assert_eq!(best_action(&vec![0, 0], &vec![1, 0]), 1);
}

#[test]
fn epsilon_zero_is_greedy() {
    let mut rng = rand::thread_rng();
    let row = vec![-200_000, 700_000, 700_000, 100_000];
    for _ in 0..200 {
        assert_eq!(epsilon_greedy(&row, &vec![0, 1, 2, 3], 0, &mut rng), 1);
        assert_eq!(epsilon_greedy(&row, &vec![0, 3], 0, &mut rng), 3);
    }
}

#[test]
fn epsilon_one_draws_among_the_legal_actions() {
    let mut rng = rand::thread_rng();
    let row = vec![0, SCALE, 0, 0, 0];
    let legal = vec![0, 2, 4];
    let mut seen = [0usize; 5];
    for _ in 0..600 {
        let action = epsilon_greedy(&row, &legal, SCALE as u32, &mut rng);
        assert!(legal.contains(&action));
        seen[action] += 1;
    }
    assert!(seen[0] > 0 && seen[2] > 0 && seen[4] > 0);
    assert_eq!(seen[1] + seen[3], 0);
}

#[test]
fn epsilon_between_mixes_greedy_and_random() {
    let mut rng = rand::thread_rng();
    let row = vec![0, SCALE];
    let legal = vec![0, 1];
    let mut greedy = 0;
    for _ in 0..2_000 {
        if epsilon_greedy(&row, &legal, 500_000, &mut rng) == 1 {
            greedy += 1;
        }
    }
    assert!(greedy > 1_000 && greedy < 2_000);
}

#[test]
fn a_draw_below_epsilon_takes_the_drawn_action() {
    let row = vec![5, 9, 1];
    let legal = vec![0, 1, 2];
    assert_eq!(select_action(&row, &legal, 100_000, 99_999, Some(2)), 2);
    assert_eq!(select_action(&row, &legal, 100_000, 0, Some(0)), 0);
    assert_eq!(select_action(&row, &legal, 1_000_000, 999_999, Some(2)), 2);
}

#[test]
fn a_draw_at_or_above_epsilon_takes_the_greedy_action() {
    let row = vec![5, 9, 1];
    let legal = vec![0, 1, 2];
    assert_eq!(select_action(&row, &legal, 100_000, 100_000, Some(2)), 1);
    assert_eq!(select_action(&row, &legal, 100_000, 999_999, None), 1);
    assert_eq!(select_action(&row, &legal, 0, 0, Some(2)), 1);
    assert_eq!(select_action(&row, &vec![2, 0], 0, 0, None), 0);
}

#[test]
fn without_a_drawn_action_the_selection_is_greedy() {
    let row = vec![5, 9, 1];
    assert_eq!(select_action(&row, &vec![0, 1, 2], 1_000_000, 0, None), 1);
}
