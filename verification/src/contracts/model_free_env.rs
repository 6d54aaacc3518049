//! The environment contract: the seam between trainers and environments.

use crate::fixed_point::score_delta;
use vstd::prelude::*;

verus! {

/// An episodic environment with finitely many states and actions, each named by
/// a dense index.
///
/// A trainer never looks inside an environment: it resets it, reads the state's
/// index and the legal actions, steps, and reads the score. The reward of a step
/// is the score after it less the score before it. Scores count millionths.
///
/// The `spec_` functions are the mathematical reading of a value; each method
/// promises to agree with its reading. `spec_starts` says where a reset may
/// leave the environment and `spec_steps_to` where a step may lead; an
/// implementor whose resets or steps are random lets them hold of every outcome.
/// `lemma_legal_actions` is the implementor's proof that the legal actions are
/// action indices and that a state that is not terminal has one.
pub trait ModelFreeEnv: Sized {
    /// The invariant that every method keeps.
    spec fn well_formed(&self) -> bool;

    /// The bound on state indices.
    spec fn spec_num_states() -> nat;

    /// The bound on action indices.
    spec fn spec_num_actions() -> nat;

    /// The index of the current state.
    spec fn spec_state_id(&self) -> nat;

    /// The actions that are legal in the current state, in a fixed order.
    spec fn spec_available_actions(&self) -> Seq<usize>;

    /// Whether the current state is terminal.
    spec fn spec_is_game_over(&self) -> bool;

    /// The score of the current state.
    spec fn spec_score(&self) -> int;

    /// Whether an episode may start in this configuration.
    spec fn spec_starts(&self) -> bool;

    /// Whether `action`, applied to this configuration, may lead to `next`.
    spec fn spec_steps_to(&self, action: usize, next: &Self) -> bool;

    /// What holds of the legal actions of every well-formed configuration: each
    /// is below the number of actions, and there is one unless the state is
    /// terminal.
    proof fn lemma_legal_actions(&self)
        requires
            self.well_formed(),
        ensures
            !self.spec_is_game_over() ==> self.spec_available_actions().len() > 0,
            forall|i: int|
                0 <= i < self.spec_available_actions().len() ==> (
                #[trigger] self.spec_available_actions()[i]) < Self::spec_num_actions(),
    ;

    /// An environment in its canonical initial configuration.
    fn new() -> (env: Self)
        ensures
            env.well_formed(),
    ;

    /// Returns to a configuration from which an episode starts.
    fn reset(&mut self)
        requires
            old(self).well_formed(),
        ensures
            final(self).well_formed(),
            final(self).spec_starts(),
    ;

    /// The index of the current state, below `num_states()`.
    fn state_id(&self) -> (id: usize)
        requires
            self.well_formed(),
        ensures
            id == self.spec_state_id(),
            id < Self::spec_num_states(),
    ;

    /// The legal actions of the current state, in their fixed order.
    fn available_actions(&self) -> (actions: Vec<usize>)
        requires
            self.well_formed(),
        ensures
            actions@ == self.spec_available_actions(),
    ;

    /// Applies a legal action to a state that is not terminal.
    fn step(&mut self, action: usize)
        requires
            old(self).well_formed(),
            !old(self).spec_is_game_over(),
            old(self).spec_available_actions().contains(action),
        ensures
            final(self).well_formed(),
            old(self).spec_steps_to(action, final(self)),
    ;

    /// The score of the current state.
    fn score(&self) -> (score: i64)
        requires
            self.well_formed(),
        ensures
            score == self.spec_score(),
    ;

    /// Whether the current state is terminal.
    fn is_game_over(&self) -> (over: bool)
        requires
            self.well_formed(),
        ensures
            over == self.spec_is_game_over(),
    ;

    /// The number of rows a table needs: every state index is below it.
    fn num_states() -> (n: usize)
        ensures
            n == Self::spec_num_states(),
    ;

    /// The number of cells a row needs: every action index is below it, and it
    /// is not zero.
    fn num_actions() -> (n: usize)
        ensures
            n == Self::spec_num_actions(),
            n > 0,
    ;
}

/// One step of an episode as a trainer sees it: in the configuration `before`,
/// which is not terminal and whose state is `state`, the legal action `action`
/// led to `after`, and `reward` is the score after the step less the score
/// before it.
pub open spec fn step_observed<E: ModelFreeEnv>(
    before: E,
    state: usize,
    action: usize,
    reward: i64,
    after: E,
) -> bool {
    &&& before.well_formed()
    &&& !before.spec_is_game_over()
    &&& state == before.spec_state_id()
    &&& before.spec_available_actions().contains(action)
    &&& before.spec_steps_to(action, &after)
    &&& after.well_formed()
    &&& reward == score_delta(before.spec_score(), after.spec_score())
}

/// The configurations that an episode of at most `max_steps` steps passes
/// through: it starts where a reset leaves the environment, and it ends in a
/// terminal configuration unless the steps run out first.
pub open spec fn episode_of<E: ModelFreeEnv>(envs: Seq<E>, max_steps: nat) -> bool {
    &&& 1 <= envs.len() <= max_steps + 1
    &&& envs[0].well_formed()
    &&& envs[0].spec_starts()
    &&& envs.len() == max_steps + 1 || envs.last().spec_is_game_over()
}

} // verus!
