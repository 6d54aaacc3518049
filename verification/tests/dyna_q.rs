use tabular_rl::action_values::{derive_policy, new_table};
use tabular_rl::algorithms::dyna_q::{dyna_q, DynaQAgent, DEFAULT_SIM_UPDATES};
use tabular_rl::algorithms::q_learning::{update_q_value, Transition};
use tabular_rl::line_world::{Corridor, RIGHT};
use tabular_rl::metrics::MetricsRecorder;

const ALPHA: u32 = 100_000;
const GAMMA: u32 = 900_000;

#[test]
fn dyna_q_new_agent_has_seen_nothing() {
    let agent = DynaQAgent::new(3, 2, ALPHA, GAMMA);
    assert_eq!(agent.q_values, new_table(3, 2));
    assert_eq!(agent.model, vec![vec![None, None]; 3]);
    assert!(agent.experiences.is_empty());
    assert_eq!(DEFAULT_SIM_UPDATES, 10);
}

#[test]
fn dyna_q_observe_learns_remembers_and_logs() {
    let mut agent = DynaQAgent::new(3, 2, ALPHA, GAMMA);
    agent.observe(Transition { state: 0, action: 1, next_state: 1, reward: 1_000_000 });
    assert_eq!(agent.q_values[0], vec![0, 100_000]);
    assert_eq!(agent.model[0][1], Some((1, 1_000_000)));
    assert_eq!(agent.model[0][0], None);
    assert_eq!(agent.experiences.len(), 1);
}

#[test]
fn dyna_q_simulate_on_an_empty_log_does_nothing() {
    let mut agent = DynaQAgent::new(3, 2, ALPHA, GAMMA);
    let mut rng = rand::thread_rng();
    agent.simulate(&mut rng);
    assert_eq!(agent.q_values, new_table(3, 2));
    assert!(agent.experiences.is_empty());
}

#[test]
fn dyna_q_simulate_replays_a_logged_step() {
    let mut agent = DynaQAgent::new(3, 2, ALPHA, GAMMA);
    let mut rng = rand::thread_rng();
    agent.observe(Transition { state: 0, action: 1, next_state: 1, reward: 1_000_000 });
    agent.simulate(&mut rng);
    assert_eq!(agent.q_values[0], vec![0, 190_000]);
    agent.simulate(&mut rng);
    assert_eq!(agent.q_values[0], vec![0, 271_000]);
    assert_eq!(agent.experiences.len(), 1);
}

#[test]
fn dyna_q_plan_makes_the_given_number_of_replays() {
    let mut agent = DynaQAgent::new(3, 2, ALPHA, GAMMA);
    let mut rng = rand::thread_rng();
    agent.plan(5, &mut rng);
    assert_eq!(agent.q_values, new_table(3, 2));
    let step = Transition { state: 0, action: 1, next_state: 1, reward: 1_000_000 };
    agent.observe(step);
    agent.plan(0, &mut rng);
    assert_eq!(agent.q_values[0], vec![0, 100_000]);
    agent.plan(2, &mut rng);
    assert_eq!(agent.q_values[0], vec![0, 271_000]);
    assert_eq!(agent.experiences, vec![step]);
}

#[test]
fn dyna_q_simulate_uses_the_latest_outcome_that_the_model_holds() {
    let mut agent = DynaQAgent::new(3, 2, ALPHA, GAMMA);
    let mut rng = rand::thread_rng();
    agent.observe(Transition { state: 0, action: 1, next_state: 1, reward: 1_000_000 });
    agent.observe(Transition { state: 0, action: 1, next_state: 2, reward: 0 });
    assert_eq!(agent.q_values[0], vec![0, 90_000]);
    assert_eq!(agent.model[0][1], Some((2, 0)));
    for expected in [81_000, 72_900, 65_610] {
        agent.simulate(&mut rng);
        assert_eq!(agent.q_values[0], vec![0, expected]);
    }
    assert_eq!(agent.experiences.len(), 2);
}

#[test]
fn dyna_q_simulate_draws_from_the_whole_log() {
    let mut agent = DynaQAgent::new(3, 2, 1_000_000, 0);
    let mut rng = rand::thread_rng();
    agent.observe(Transition { state: 0, action: 0, next_state: 1, reward: 5 });
    agent.observe(Transition { state: 1, action: 1, next_state: 2, reward: 7 });
    agent.q_values = new_table(3, 2);
    let mut first = false;
    let mut second = false;
    for _ in 0..400 {
        agent.q_values = new_table(3, 2);
        agent.simulate(&mut rng);
        if agent.q_values[0][0] == 5 {
            first = true;
        } else {
            assert_eq!(agent.q_values[1][1], 7);
            second = true;
        }
    }
    assert!(first && second);
}

#[test]
fn dyna_q_without_replays_the_table_is_that_of_q_learning() {
    let steps = [
        Transition { state: 2, action: 1, next_state: 3, reward: 0 },
        Transition { state: 3, action: 1, next_state: 4, reward: 1_000_000 },
        Transition { state: 2, action: 1, next_state: 3, reward: 0 },
        Transition { state: 3, action: 0, next_state: 2, reward: 0 },
        Transition { state: 2, action: 0, next_state: 1, reward: 0 },
        Transition { state: 1, action: 0, next_state: 0, reward: -1_000_000 },
        Transition { state: 2, action: 1, next_state: 3, reward: 0 },
    ];
    let mut agent = DynaQAgent::new(5, 2, ALPHA, GAMMA);
    let mut q = new_table(5, 2);
    for step in steps {
        agent.observe(step);
        update_q_value(&mut q, step, ALPHA, GAMMA);
        assert_eq!(agent.q_values, q);
    }
    assert_eq!(q[3], vec![810, 100_000]);
    assert_eq!(q[2], vec![0, 17_100]);
}

#[test]
fn dyna_q_episode_without_replays_matches_q_learning_on_a_converged_table() {
    let mut agent = DynaQAgent::new(5, 2, ALPHA, GAMMA);
    let mut rng = rand::thread_rng();
    let total = agent.run_episode::<Corridor>(0, 0, 100, &mut rng);
    assert_eq!(total, -1_000_000);
    assert_eq!(agent.q_values[1], vec![-100_000, 0]);
    assert_eq!(agent.experiences.len(), 2);
    assert_eq!(agent.model[2][0], Some((1, 0)));
    assert_eq!(agent.model[1][0], Some((0, -1_000_000)));
}

#[test]
fn dyna_q_replays_speed_up_what_one_episode_learns() {
    let mut agent = DynaQAgent::new(5, 2, ALPHA, GAMMA);
    let mut rng = rand::thread_rng();
    let total = agent.run_episode::<Corridor>(0, 50, 100, &mut rng);
    assert_eq!(total, -1_000_000);
    assert!(agent.q_values[1][0] < -100_000);
    assert!(agent.q_values[2][0] <= 0);
    assert_eq!(agent.experiences.len(), 2);
}

#[test]
fn dyna_q_trainer_returns_a_table_of_the_environments_shape() {
    let mut recorder = MetricsRecorder::new(5);
    let (q, policy) = dyna_q::<Corridor>(12, ALPHA, GAMMA, 300_000, None, 50, &mut recorder);
    assert_eq!(q.len(), 5);
    assert!(q.iter().all(|row| row.len() == 2));
    assert_eq!(policy, derive_policy(&q));
    assert_eq!(q[0], vec![0, 0]);
    assert_eq!(q[4], vec![0, 0]);
    assert_eq!(recorder.episode_rewards().len(), 12);
    assert_eq!(recorder.window_averages().len(), 2);
}

#[test]
fn dyna_q_greedy_trainer_without_replays_repeats_greedy_q_learning() {
    let mut recorder = MetricsRecorder::new(5);
    let (planned, _) = dyna_q::<Corridor>(3, ALPHA, GAMMA, 0, Some(0), 30, &mut recorder);
    let mut other = MetricsRecorder::new(5);
    let (plain, _) = tabular_rl::algorithms::q_learning::q_learning::<Corridor>(
        3, ALPHA, GAMMA, 0, 0, 0, 30, &mut other,
    );
    assert_eq!(planned, plain);
    assert_eq!(recorder.episode_rewards(), other.episode_rewards());
}

#[test]
fn dyna_q_corridor_policy_walks_toward_the_winning_end() {
    let mut recorder = MetricsRecorder::new(100);
    let (q, policy) = dyna_q::<Corridor>(800, ALPHA, GAMMA, 100_000, Some(10), 200, &mut recorder);
    for state in 1..4 {
        assert_eq!(policy[state], RIGHT);
    }
    assert!(q[3][RIGHT] > 900_000);
}
