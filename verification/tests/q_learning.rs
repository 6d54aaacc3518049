use tabular_rl::action_values::{derive_policy, new_table};
use tabular_rl::algorithms::q_learning::{
    q_learning, q_learning_episode, update_q_value, Transition,
};
use tabular_rl::line_world::{Corridor, RIGHT};
use tabular_rl::metrics::MetricsRecorder;

const ALPHA: u32 = 100_000;
const GAMMA: u32 = 900_000;

#[test]
fn q_learning_update_moves_toward_reward_plus_discounted_row_maximum() {
    let mut q = vec![vec![0, 0], vec![200_000, 500_000]];
    let step = Transition { state: 0, action: 1, next_state: 1, reward: 1_000_000 };
    update_q_value(&mut q, step, ALPHA, GAMMA);
    assert_eq!(q, vec![vec![0, 145_000], vec![200_000, 500_000]]);
    update_q_value(&mut q, step, ALPHA, GAMMA);
    assert_eq!(q, vec![vec![0, 275_500], vec![200_000, 500_000]]);
}

#[test]
fn q_learning_update_bootstraps_from_the_whole_next_row() {
    let mut q = vec![vec![0, 0, 0], vec![-300_000, -100_000, -200_000]];
    let step = Transition { state: 0, action: 2, next_state: 1, reward: 0 };
    update_q_value(&mut q, step, 1_000_000, 1_000_000);
    assert_eq!(q[0], vec![0, 0, -100_000]);
}

#[test]
fn q_learning_update_on_a_loop_uses_the_row_before_the_update() {
    let mut q = vec![vec![400_000, 600_000]];
    let step = Transition { state: 0, action: 0, next_state: 0, reward: 100_000 };
    update_q_value(&mut q, step, 500_000, 500_000);
    assert_eq!(q, vec![vec![400_000, 600_000]]);
    let step = Transition { state: 0, action: 1, next_state: 0, reward: 100_000 };
    update_q_value(&mut q, step, 500_000, 500_000);
    assert_eq!(q, vec![vec![400_000, 500_000]]);
}

#[test]
fn q_learning_update_at_a_fixed_point_changes_nothing() {
    let mut q = vec![vec![0, 810_000], vec![729_000, 900_000], vec![0, 0]];
    let before = q.clone();
    let step = Transition { state: 0, action: 1, next_state: 1, reward: 0 };
    for alpha in [0, 1, ALPHA, 1_000_000, u32::MAX] {
        update_q_value(&mut q, step, alpha, GAMMA);
        assert_eq!(q, before);
    }
}

#[test]
fn q_learning_converged_table_survives_greedy_episodes() {
    let converged = vec![
        vec![0, 0],
        vec![-1_000_000, 810_000],
        vec![729_000, 900_000],
        vec![810_000, 1_000_000],
        vec![0, 0],
    ];
    let mut q = converged.clone();
    let mut rng = rand::thread_rng();
    for _ in 0..20 {
        let total = q_learning_episode::<Corridor>(&mut q, ALPHA, GAMMA, 0, 100, &mut rng);
        assert_eq!(total, 1_000_000);
        assert_eq!(q, converged);
    }
}

#[test]
fn q_learning_episode_stops_at_the_step_budget() {
    let mut q = new_table(5, 2);
    let mut rng = rand::thread_rng();
    let total = q_learning_episode::<Corridor>(&mut q, ALPHA, GAMMA, 0, 0, &mut rng);
    assert_eq!(total, 0);
    assert_eq!(q, new_table(5, 2));
    let total = q_learning_episode::<Corridor>(&mut q, ALPHA, GAMMA, 0, 1, &mut rng);
    assert_eq!(total, 0);
    assert_eq!(q, new_table(5, 2));
    let total = q_learning_episode::<Corridor>(&mut q, ALPHA, GAMMA, 0, 2, &mut rng);
    assert_eq!(total, -1_000_000);
    assert_eq!(q[1], vec![-100_000, 0]);
}

#[test]
fn q_learning_trainer_returns_a_table_of_the_environments_shape() {
    let mut recorder = MetricsRecorder::new(10);
    let (q, policy) =
        q_learning::<Corridor>(35, ALPHA, GAMMA, 1_000_000, 10_000, 17, 50, &mut recorder);
    assert_eq!(q.len(), 5);
    assert!(q.iter().all(|row| row.len() == 2));
    assert_eq!(policy.len(), 5);
    assert_eq!(policy, derive_policy(&q));
    assert_eq!(q[0], vec![0, 0]);
    assert_eq!(q[4], vec![0, 0]);
    assert_eq!(recorder.episode_rewards().len(), 35);
    assert_eq!(recorder.cumulative_rewards().len(), 35);
    assert_eq!(recorder.window_averages().len(), 3);
    assert!(recorder
        .episode_rewards()
        .iter()
        .all(|reward| [-1_000_000, 0, 1_000_000].contains(reward)));
}

#[test]
fn q_learning_trainer_without_episodes_returns_the_zero_table() {
    let mut recorder = MetricsRecorder::new(10);
    let (q, policy) = q_learning::<Corridor>(0, ALPHA, GAMMA, 100_000, 10_000, 0, 50, &mut recorder);
    assert_eq!(q, new_table(5, 2));
    assert_eq!(policy, vec![0; 5]);
    assert!(recorder.episode_rewards().is_empty());
}

#[test]
fn q_learning_trainer_appends_to_an_existing_record() {
    let mut recorder = MetricsRecorder::new(4);
    recorder.record_episode(123);
    recorder.record_episode(456);
    q_learning::<Corridor>(6, ALPHA, GAMMA, 500_000, 500_000, 1, 20, &mut recorder);
    assert_eq!(recorder.episode_rewards().len(), 8);
    assert_eq!(&recorder.episode_rewards()[..2], &[123, 456]);
    assert_eq!(recorder.window_averages().len(), 2);
}

#[test]
fn q_learning_corridor_policy_walks_toward_the_winning_end() {
    let mut recorder = MetricsRecorder::new(1_000);
    let (q, policy) =
        q_learning::<Corridor>(3_000, ALPHA, GAMMA, 1_000_000, 10_000, 1_500, 200, &mut recorder);
    for state in 1..4 {
        assert_eq!(policy[state], RIGHT);
        assert!(q[state][RIGHT] > q[state][0]);
    }
    assert!(q[3][RIGHT] > 900_000);
    let last = recorder.window_averages()[2];
    assert!(last > 800_000);
}
