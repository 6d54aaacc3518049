use tabular_rl::action_values::{derive_policy, new_table};
use tabular_rl::algorithms::sarsa::{sarsa, sarsa_episode, update_sarsa_value, SarsaStep};
use tabular_rl::line_world::{Corridor, RIGHT};
use tabular_rl::metrics::MetricsRecorder;

const ALPHA: u32 = 100_000;
const GAMMA: u32 = 900_000;

#[test]
fn sarsa_update_uses_the_chosen_next_action() {
    let mut q = vec![vec![0, 0], vec![200_000, 500_000]];
    let step = SarsaStep { state: 0, action: 1, reward: 1_000_000, next: Some((1, 0)) };
    update_sarsa_value(&mut q, step, ALPHA, GAMMA);
    assert_eq!(q, vec![vec![0, 118_000], vec![200_000, 500_000]]);
    let step = SarsaStep { state: 0, action: 0, reward: 1_000_000, next: Some((1, 1)) };
    update_sarsa_value(&mut q, step, ALPHA, GAMMA);
    assert_eq!(q, vec![vec![145_000, 118_000], vec![200_000, 500_000]]);
}

#[test]
fn sarsa_terminal_update_has_no_discounted_term() {
    for gamma in [0, GAMMA, 1_000_000, u32::MAX] {
        let mut q = vec![vec![400_000, 0], vec![900_000, 900_000]];
        let step = SarsaStep { state: 0, action: 0, reward: 1_000_000, next: None };
        update_sarsa_value(&mut q, step, ALPHA, gamma);
        assert_eq!(q, vec![vec![460_000, 0], vec![900_000, 900_000]]);
    }
    let mut q = vec![vec![0, 0]];
    let step = SarsaStep { state: 0, action: 1, reward: -1_000_000, next: None };
    update_sarsa_value(&mut q, step, ALPHA, GAMMA);
    assert_eq!(q, vec![vec![0, -100_000]]);
}

#[test]
fn sarsa_update_at_a_fixed_point_changes_nothing() {
    let mut q = vec![vec![0, 810_000], vec![729_000, 900_000]];
    let before = q.clone();
    let step = SarsaStep { state: 0, action: 1, reward: 0, next: Some((1, 1)) };
    for alpha in [0, ALPHA, 1_000_000, u32::MAX] {
        update_sarsa_value(&mut q, step, alpha, GAMMA);
        assert_eq!(q, before);
    }
    let end = SarsaStep { state: 1, action: 1, reward: 900_000, next: None };
    update_sarsa_value(&mut q, end, ALPHA, GAMMA);
    assert_eq!(q, before);
}

#[test]
fn sarsa_converged_table_survives_greedy_episodes() {
    let converged = vec![
        vec![0, 0],
        vec![-1_000_000, 810_000],
        vec![729_000, 900_000],
        vec![810_000, 1_000_000],
        vec![0, 0],
    ];
    let mut q = converged.clone();
    let mut rng = rand::thread_rng();
    for _ in 0..20 {
        let total = sarsa_episode::<Corridor>(&mut q, ALPHA, GAMMA, 0, 100, &mut rng);
        assert_eq!(total, 1_000_000);
        assert_eq!(q, converged);
    }
}

#[test]
fn sarsa_first_greedy_episode_walks_left_and_learns_from_the_loss() {
    let mut q = new_table(5, 2);
    let mut rng = rand::thread_rng();
    let total = sarsa_episode::<Corridor>(&mut q, ALPHA, GAMMA, 0, 100, &mut rng);
    assert_eq!(total, -1_000_000);
    assert_eq!(
        q,
        vec![vec![0, 0], vec![-100_000, 0], vec![0, 0], vec![0, 0], vec![0, 0]]
    );
}

#[test]
fn sarsa_episode_cut_off_by_the_budget_makes_no_terminal_update() {
    let mut q = new_table(5, 2);
    let mut rng = rand::thread_rng();
    let total = sarsa_episode::<Corridor>(&mut q, ALPHA, GAMMA, 0, 1, &mut rng);
    assert_eq!(total, 0);
    assert_eq!(q, new_table(5, 2));
    assert_eq!(sarsa_episode::<Corridor>(&mut q, ALPHA, GAMMA, 0, 0, &mut rng), 0);
}

#[test]
fn sarsa_trainer_returns_a_table_of_the_environments_shape() {
    let mut recorder = MetricsRecorder::new(5);
    let (q, policy) = sarsa::<Corridor>(12, ALPHA, GAMMA, 300_000, 50, &mut recorder);
    assert_eq!(q.len(), 5);
    assert!(q.iter().all(|row| row.len() == 2));
    assert_eq!(policy, derive_policy(&q));
    assert_eq!(q[0], vec![0, 0]);
    assert_eq!(q[4], vec![0, 0]);
    assert_eq!(recorder.episode_rewards().len(), 12);
    assert_eq!(recorder.window_averages().len(), 2);
}

#[test]
fn sarsa_corridor_policy_walks_toward_the_winning_end() {
    let mut recorder = MetricsRecorder::new(1_000);
    let (q, policy) = sarsa::<Corridor>(4_000, ALPHA, GAMMA, 100_000, 200, &mut recorder);
    for state in 1..4 {
        assert_eq!(policy[state], RIGHT);
    }
    assert!(q[3][RIGHT] > 900_000);
}
