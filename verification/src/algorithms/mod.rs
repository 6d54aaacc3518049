//! The four trainers.

pub mod q_learning;
pub mod sarsa;
pub mod dyna_q;
pub mod monte_carlos_offpol;
