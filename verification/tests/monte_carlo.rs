use tabular_rl::action_values::new_table;
use tabular_rl::algorithms::monte_carlos_offpol::{mean_of, MonteCarloAgent};
use tabular_rl::contracts::model_free_env::ModelFreeEnv;
use tabular_rl::line_world::{Corridor, CorridorOf, RIGHT};

const GAMMA: u32 = 900_000;

fn agent(episodes: usize, epsilon: u32) -> MonteCarloAgent<Corridor> {
    MonteCarloAgent::new(Corridor::new(), episodes, GAMMA, epsilon, 200)
}

#[test]
fn monte_carlo_new_agent_has_zero_estimates_and_no_returns() {
    let agent = agent(10, 100_000);
    assert_eq!(agent.episodes, 10);
    assert_eq!(agent.gamma, GAMMA);
    assert_eq!(agent.epsilon, 100_000);
    assert_eq!(agent.max_steps, 200);
    assert_eq!(agent.q_value, new_table(5, 2));
    assert_eq!(agent.recorded_returns, vec![vec![Vec::<i64>::new(); 2]; 5]);
    assert_eq!(agent.env.state_id(), 2);
}

#[test]
fn monte_carlo_mean_rounds_toward_zero() {
    assert_eq!(mean_of(&vec![900_000, 1_000_000]), 950_000);
    assert_eq!(mean_of(&vec![1, 2]), 1);
    assert_eq!(mean_of(&vec![-1, -2]), -1);
    assert_eq!(mean_of(&vec![7]), 7);
    assert_eq!(mean_of(&vec![i64::MAX, i64::MAX, i64::MAX]), i64::MAX);
    assert_eq!(mean_of(&vec![i64::MIN, i64::MIN]), i64::MIN);
}

#[test]
fn monte_carlo_only_the_last_visit_of_a_pair_is_recorded() {
    let mut agent = agent(1, 0);
    agent.update_q_values(vec![(2, 1, 0), (3, 0, 0), (2, 1, 0), (3, 1, 1_000_000)]);
    assert_eq!(agent.recorded_returns[2][1], vec![900_000]);
    assert_eq!(agent.recorded_returns[3][0], vec![810_000]);
    assert_eq!(agent.recorded_returns[3][1], vec![1_000_000]);
    assert_eq!(agent.q_value[2], vec![0, 900_000]);
    assert_eq!(agent.q_value[3], vec![810_000, 1_000_000]);
    assert_eq!(agent.q_value[1], vec![0, 0]);
    assert!(agent.recorded_returns[2][0].is_empty());
}

#[test]
fn monte_carlo_estimates_are_means_over_all_episodes() {
    let mut agent = agent(1, 0);
    agent.update_q_values(vec![(2, 1, 0), (3, 1, 1_000_000)]);
    agent.update_q_values(vec![(2, 1, 1_000_000)]);
    agent.update_q_values(vec![(2, 1, -400_000)]);
    assert_eq!(agent.recorded_returns[2][1], vec![900_000, 1_000_000, -400_000]);
    assert_eq!(agent.q_value[2][1], 500_000);
    assert_eq!(agent.q_value[3][1], 1_000_000);
}

#[test]
fn monte_carlo_returns_are_discounted_step_by_step() {
    let mut agent = agent(1, 0);
    agent.update_q_values(vec![(0, 0, 100_000), (1, 0, 200_000), (2, 0, 300_000)]);
    assert_eq!(agent.q_value[2][0], 300_000);
    assert_eq!(agent.q_value[1][0], 470_000);
    assert_eq!(agent.q_value[0][0], 523_000);
}

#[test]
fn monte_carlo_empty_episode_changes_nothing() {
    let mut agent = agent(1, 0);
    agent.update_q_values(Vec::new());
    assert_eq!(agent.q_value, new_table(5, 2));
    assert_eq!(agent.recorded_returns, vec![vec![Vec::<i64>::new(); 2]; 5]);
}

#[test]
fn monte_carlo_tables_grow_for_unknown_states_and_actions() {
    let mut agent = agent(1, 0);
    agent.update_q_values(vec![(7, 3, 500_000)]);
    assert_eq!(agent.q_value.len(), 8);
    assert_eq!(agent.recorded_returns.len(), 8);
    assert_eq!(agent.q_value[4], vec![0, 0]);
    assert_eq!(agent.q_value[5], Vec::<i64>::new());
    assert_eq!(agent.q_value[6], Vec::<i64>::new());
    assert_eq!(agent.q_value[7], vec![0, 0, 0, 500_000]);
    assert_eq!(agent.recorded_returns[7][3], vec![500_000]);
    assert!(agent.recorded_returns[7][2].is_empty());
    agent.update_q_values(vec![(1, 2, -500_000)]);
    assert_eq!(agent.q_value[1], vec![0, 0, -500_000]);
    assert_eq!(agent.q_value.len(), 8);
}

#[test]
fn monte_carlo_resize_grows_and_cuts_one_row() {
    let mut agent = agent(1, 0);
    agent.update_q_values(vec![(1, 1, 300_000), (1, 0, 200_000)]);
    agent.resize_if_needed(1, 4);
    assert_eq!(agent.q_value[1], vec![200_000, 480_000, 0, 0]);
    assert_eq!(agent.recorded_returns[1].len(), 4);
    agent.resize_if_needed(1, 1);
    assert_eq!(agent.q_value[1], vec![200_000]);
    assert_eq!(agent.recorded_returns[1], vec![vec![200_000]]);
    agent.resize_if_needed(1, 2);
    assert_eq!(agent.q_value[1], vec![200_000, 0]);
    assert_eq!(agent.recorded_returns[1], vec![vec![200_000], vec![]]);
    assert_eq!(agent.q_value.len(), 5);
    agent.resize_if_needed(6, 3);
    assert_eq!(agent.q_value.len(), 7);
    assert_eq!(agent.q_value[5], Vec::<i64>::new());
    assert_eq!(agent.q_value[6], vec![0, 0, 0]);
    assert_eq!(agent.recorded_returns[6], vec![Vec::<i64>::new(); 3]);
    agent.resize_if_needed(0, 0);
    assert_eq!(agent.q_value[0], Vec::<i64>::new());
    assert_eq!(agent.q_value[2], vec![0, 0]);
}

#[test]
fn monte_carlo_record_return_appends_and_averages() {
    let mut agent = agent(1, 0);
    agent.record_return(3, 1, 1_000_000);
    agent.record_return(3, 1, 0);
    agent.record_return(3, 1, 0);
    assert_eq!(agent.recorded_returns[3][1], vec![1_000_000, 0, 0]);
    assert_eq!(agent.q_value[3][1], 333_333);
    agent.record_return(5, 0, -1);
    assert_eq!(agent.q_value.len(), 6);
    assert_eq!(agent.q_value[5], vec![-1]);
}

#[test]
fn monte_carlo_greedy_policy_picks_the_best_legal_action() {
    let mut agent = agent(1, 0);
    agent.update_q_values(vec![(2, 1, 1_000_000), (2, 0, -1_000_000)]);
    for _ in 0..50 {
        assert_eq!(agent.epsilon_greedy_policy(2), RIGHT);
        assert_eq!(agent.epsilon_greedy_policy(1), 0);
    }
}

#[test]
fn monte_carlo_generated_episode_runs_from_the_middle_to_an_end() {
    let mut agent = agent(1, 0);
    let episode = agent.generate_episode();
    assert_eq!(episode, vec![(2, 0, 0), (1, 0, -1_000_000)]);
    assert!(agent.env.is_game_over());
    assert_eq!(agent.q_value, new_table(5, 2));
    let mut explorer = MonteCarloAgent::new(Corridor::new(), 1, GAMMA, 1_000_000, 200);
    for _ in 0..50 {
        let episode = explorer.generate_episode();
        assert!(!episode.is_empty() && episode.len() <= 200);
        assert_eq!(episode[0].0, 2);
        assert!(episode.iter().all(|step| step.0 >= 1 && step.0 <= 3 && step.1 < 2));
        let total: i64 = episode.iter().map(|step| step.2).sum();
        assert!(total == 1_000_000 || total == -1_000_000 || episode.len() == 200);
    }
}

#[test]
fn monte_carlo_generated_episode_respects_the_step_budget() {
    let mut agent = MonteCarloAgent::new(Corridor::new(), 1, GAMMA, 0, 1);
    assert_eq!(agent.generate_episode(), vec![(2, 0, 0)]);
    let mut idle = MonteCarloAgent::new(Corridor::new(), 1, GAMMA, 0, 0);
    assert!(idle.generate_episode().is_empty());
}

#[test]
fn monte_carlo_training_keeps_the_shape_and_learns_the_corridor() {
    let mut agent = agent(3_000, 300_000);
    agent.train();
    assert_eq!(agent.q_value.len(), 5);
    assert!(agent.q_value.iter().all(|row| row.len() == 2));
    assert_eq!(agent.recorded_returns.len(), 5);
    assert_eq!(agent.q_value[0], vec![0, 0]);
    assert_eq!(agent.q_value[4], vec![0, 0]);
    assert_eq!(agent.q_value[3][RIGHT], 1_000_000);
    assert_eq!(agent.q_value[1][0], -1_000_000);
    let policy = agent.derive_policy();
    assert_eq!(policy.len(), 5);
    for state in 1..4 {
        assert_eq!(policy[state], RIGHT);
    }
    for state in 0..5 {
        for action in 0..2 {
            let cell = &agent.recorded_returns[state][action];
            if cell.is_empty() {
                assert_eq!(agent.q_value[state][action], 0);
            } else {
                assert_eq!(agent.q_value[state][action], mean_of(cell));
            }
        }
    }
}

#[test]
fn monte_carlo_training_for_no_episodes_changes_nothing() {
    let mut agent = agent(0, 300_000);
    agent.train();
    assert_eq!(agent.q_value, new_table(5, 2));
}

#[test]
fn monte_carlo_new_agent_stands_where_an_episode_starts() {
    let mut env = Corridor::new();
    env.step(RIGHT);
    assert_eq!(env.state_id(), 3);
    let agent = MonteCarloAgent::new(env, 1, GAMMA, 0, 200);
    assert_eq!(agent.env.state_id(), 2);
    assert!(!agent.env.is_game_over());
    assert_eq!(agent.epsilon_greedy_policy(2), 0);
}

#[test]
fn monte_carlo_episode_that_ends_where_it_starts_changes_nothing() {
    let mut agent = MonteCarloAgent::new(CorridorOf::<2>::new(), 1, GAMMA, 0, 200);
    agent.update_q_values(vec![(3, 4, 500_000)]);
    let estimates = agent.q_value.clone();
    let recorded = agent.recorded_returns.clone();
    assert!(agent.generate_episode().is_empty());
    assert_eq!(agent.q_value, estimates);
    assert_eq!(agent.recorded_returns, recorded);
    agent.train();
    assert_eq!(agent.q_value, estimates);
    assert_eq!(agent.recorded_returns, recorded);
}

#[test]
fn monte_carlo_episode_resizes_the_rows_of_the_states_it_meets() {
    let mut agent = agent(1, 0);
    agent.update_q_values(vec![(7, 3, 500_000)]);
    agent.update_q_values(vec![(2, 3, -500_000)]);
    agent.update_q_values(vec![(1, 0, 450_000)]);
    agent.resize_if_needed(1, 1);
    assert_eq!(agent.q_value[2], vec![0, 0, 0, -500_000]);
    assert_eq!(agent.q_value[1], vec![450_000]);
    let episode = agent.generate_episode();
    assert_eq!(episode, vec![(2, 0, 0), (1, 0, -1_000_000)]);
    assert_eq!(agent.q_value[2], vec![0, 0]);
    assert_eq!(agent.recorded_returns[2], vec![Vec::<i64>::new(); 2]);
    assert_eq!(agent.q_value[1], vec![450_000, 0]);
    assert_eq!(agent.recorded_returns[1], vec![vec![450_000], vec![]]);
    assert_eq!(agent.q_value[0], vec![0, 0]);
    assert_eq!(agent.q_value[3], vec![0, 0]);
    assert_eq!(agent.q_value.len(), 8);
    assert_eq!(agent.q_value[7], vec![0, 0, 0, 500_000]);
    assert_eq!(agent.q_value[6], Vec::<i64>::new());
}

#[test]
fn monte_carlo_learns_a_longer_corridor() {
    let mut agent = MonteCarloAgent::new(CorridorOf::<7>::new(), 3_000, GAMMA, 300_000, 500);
    agent.train();
    assert_eq!(agent.q_value.len(), 7);
    assert!(agent.q_value.iter().all(|row| row.len() == 2));
    assert_eq!(agent.q_value[5][RIGHT], 1_000_000);
    assert_eq!(agent.q_value[1][0], -1_000_000);
    let policy = agent.derive_policy();
    assert_eq!(policy.len(), 7);
    assert_eq!(policy[5], RIGHT);
    assert_eq!(policy[1], RIGHT);
}
