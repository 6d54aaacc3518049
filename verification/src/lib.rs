//! Tabular reinforcement learning over fixed-point action values.
//!
//! Four trainers (Q-learning, SARSA, Dyna-Q and first-visit Monte Carlo) learn an
//! action-value table against any environment that implements
//! [`contracts::model_free_env::ModelFreeEnv`], and derive a greedy policy from it.
//! Estimates, rewards and rates are integers counted in millionths, so that every
//! update rule is an exact statement over the integers.

pub mod contracts;
pub mod fixed_point;
pub mod random;
pub mod line_world;
pub mod action_values;
pub mod exploration;
pub mod metrics;
pub mod algorithms;
