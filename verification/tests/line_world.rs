use tabular_rl::contracts::model_free_env::ModelFreeEnv;
use tabular_rl::fixed_point::SCALE;
use tabular_rl::line_world::{
    Corridor, CorridorOf, ModelFreeLineWorld, CORRIDOR_CELLS, LEFT, RIGHT,
};

#[test]
fn new_world_starts_in_the_middle() {
    let world = ModelFreeLineWorld::new(5);
    assert_eq!(world.state_id(), 2);
    assert!(!world.is_game_over());
    assert_eq!(world.score(), 0);
    assert_eq!(world.available_actions(), vec![LEFT, RIGHT]);
    let wide = ModelFreeLineWorld::new(10);
    assert_eq!(wide.state_id(), 5);
}

#[test]
fn walking_right_wins() {
    let mut world = ModelFreeLineWorld::new(5);
    world.step(RIGHT);
    assert_eq!(world.state_id(), 3);
    assert!(!world.is_game_over());
    assert_eq!(world.score(), 0);
    world.step(RIGHT);
    assert_eq!(world.state_id(), 4);
    assert!(world.is_game_over());
    assert_eq!(world.score(), SCALE);
}

#[test]
fn walking_left_loses() {
    let mut world = ModelFreeLineWorld::new(5);
    world.step(LEFT);
    assert_eq!(world.state_id(), 1);
    world.step(LEFT);
    assert_eq!(world.state_id(), 0);
    assert!(world.is_game_over());
    assert_eq!(world.score(), -SCALE);
}

#[test]
fn reset_returns_to_the_middle() {
    let mut world = ModelFreeLineWorld::new(7);
    world.step(RIGHT);
    world.step(RIGHT);
    assert_eq!(world.state_id(), 5);
    world.reset();
    assert_eq!(world.state_id(), 3);
    assert!(!world.is_game_over());
}

#[test]
fn smallest_worlds_end_where_they_start() {
    assert!(ModelFreeLineWorld::new(1).is_game_over());
    assert!(ModelFreeLineWorld::new(2).is_game_over());
    assert!(!ModelFreeLineWorld::new(3).is_game_over());
}

#[test]
fn random_reset_stays_inside_and_moves() {
    let mut world = ModelFreeLineWorld::new(6);
    let mut seen = [false; 6];
    for _ in 0..400 {
        world.reset_random_state();
        assert!(world.state_id() < 6);
        seen[world.state_id()] = true;
    }
    assert!(seen.iter().filter(|hit| **hit).count() >= 2);
}

#[test]
fn random_reset_between_the_ends_never_ends_the_episode() {
    let mut world = ModelFreeLineWorld::new(6);
    let mut seen = [false; 6];
    for _ in 0..400 {
        world.reset_random_state_2();
        assert!(!world.is_game_over());
        assert!(world.state_id() >= 1 && world.state_id() <= 4);
        seen[world.state_id()] = true;
    }
    assert!(!seen[0] && !seen[5]);
    assert!(seen.iter().filter(|hit| **hit).count() >= 2);
    let mut narrow = ModelFreeLineWorld::new(3);
    narrow.reset_random_state_2();
    assert_eq!(narrow.state_id(), 1);
}

#[test]
fn display_marks_the_agent() {
    let mut world = ModelFreeLineWorld::new(5);
    assert_eq!(world.display().into_iter().collect::<String>(), "__X__");
    world.step(LEFT);
    assert_eq!(world.display().into_iter().collect::<String>(), "_X___");
}

#[test]
fn corridor_meets_the_environment_contract() {
    assert_eq!(Corridor::num_states(), CORRIDOR_CELLS);
    assert_eq!(Corridor::num_states(), 5);
    assert_eq!(Corridor::num_actions(), 2);
    let mut env = Corridor::new();
    assert_eq!(env.state_id(), 2);
    assert_eq!(env.available_actions(), vec![LEFT, RIGHT]);
    assert!(!env.is_game_over());
    let before = env.score();
    env.step(RIGHT);
    env.step(RIGHT);
    assert!(env.is_game_over());
    assert_eq!(env.state_id(), 4);
    assert_eq!(env.score() - before, SCALE);
    env.reset();
    assert_eq!(env.state_id(), 2);
    assert!(!env.is_game_over());
    env.step(LEFT);
    env.step(LEFT);
    assert!(env.is_game_over());
    assert_eq!(env.score(), -SCALE);
}

#[test]
fn corridor_without_cells_has_ended_and_scores_a_loss() {
    let world = ModelFreeLineWorld::new(0);
    assert_eq!(world.state_id(), 0);
    assert!(world.is_game_over());
    assert_eq!(world.score(), -SCALE);
    assert!(world.display().is_empty());
}

#[test]
fn first_cell_is_tested_before_the_last() {
    let single = ModelFreeLineWorld::new(1);
    assert!(single.is_game_over());
    assert_eq!(single.score(), -SCALE);
    let pair = ModelFreeLineWorld::new(2);
    assert_eq!(pair.state_id(), 1);
    assert!(pair.is_game_over());
    assert_eq!(pair.score(), SCALE);
}

#[test]
fn corridors_of_other_lengths_are_environments_too() {
    assert_eq!(CorridorOf::<10>::num_states(), 10);
    assert_eq!(CorridorOf::<10>::num_actions(), 2);
    let mut env = CorridorOf::<10>::new();
    assert_eq!(env.state_id(), 5);
    for _ in 0..4 {
        assert!(!env.is_game_over());
        env.step(RIGHT);
    }
    assert!(env.is_game_over());
    assert_eq!(env.state_id(), 9);
    assert_eq!(env.score(), SCALE);
    assert_eq!(CorridorOf::<0>::num_states(), 1);
    let empty = CorridorOf::<0>::new();
    assert_eq!(empty.state_id(), 0);
    assert!(empty.is_game_over());
    assert!(CorridorOf::<1>::new().is_game_over());
    assert!(CorridorOf::<2>::new().is_game_over());
}
