//! Dyna-Q: Q-learning on real steps, plus replays of remembered experience.
//!
//! Every real step is learned from as in Q-learning, written into a model that
//! remembers the latest outcome of each state and action, and appended to a log.
//! After it, a number of simulated updates each draw one entry of the log and
//! apply the Q-learning update to its state and action with the outcome that the
//! model remembers for them.

use crate::action_values::{
    derive_policy, has_shape, is_greedy_policy, new_table, row_view, table_view, zero_table,
};
use crate::algorithms::q_learning::{
    lemma_rewards_grow, lemma_trace_grows, lemma_update_keeps_shape, q_learning_update, replay,
    rewards_of, trace_of, update_q_value, within, Transition,
};
use crate::contracts::model_free_env::{episode_of, ModelFreeEnv};
use crate::exploration::{epsilon_greedy, greedy_action};
use crate::fixed_point::{reward_between, saturate, saturate_value, sum_of};
use crate::metrics::MetricsRecorder;
use crate::random::choose_item;
use rand::rngs::ThreadRng;
use vstd::prelude::*;

verus! {

/// The number of simulated updates after each real step, unless told otherwise.
pub const DEFAULT_SIM_UPDATES: usize = 10;

/// The number of simulated updates that an optional count stands for.
pub open spec fn spec_sim_updates(sim_updates: Option<usize>) -> nat {
    match sim_updates {
        Some(count) => count as nat,
        None => DEFAULT_SIM_UPDATES as nat,
    }
}

/// What the model remembers of a state and action: the next state and the reward
/// of the latest entry of the log for them, or `None` if there is no entry.
pub open spec fn latest(log: Seq<Transition>, state: usize, action: usize) -> Option<(usize, i64)>
    decreases log.len(),
{
    if log.len() == 0 {
        None
    } else if log.last().state == state && log.last().action == action {
        Some((log.last().next_state, log.last().reward))
    } else {
        latest(log.drop_last(), state, action)
    }
}

/// The transition that a replay of entry `pick` applies: the entry's state and
/// action with the outcome that the model remembers for them.
pub open spec fn remembered(log: Seq<Transition>, pick: int) -> Transition {
    let entry = log[pick];
    match latest(log, entry.state, entry.action) {
        Some(outcome) => Transition {
            state: entry.state,
            action: entry.action,
            next_state: outcome.0,
            reward: outcome.1,
        },
        None => entry,
    }
}

/// The transitions that the replays `picks` apply, in order.
pub open spec fn planned(log: Seq<Transition>, picks: Seq<int>) -> Seq<Transition> {
    Seq::new(picks.len(), |k: int| remembered(log, picks[k]))
}

/// Every update of a run, in order: each real step of the log, followed by the
/// replays made after it. `replays[i]` holds the entries drawn after real step
/// `i`, when the log held the steps `0..=i`.
pub open spec fn dyna_q_updates(log: Seq<Transition>, replays: Seq<Seq<int>>) -> Seq<Transition>
    decreases log.len(),
{
    if log.len() == 0 {
        Seq::empty()
    } else {
        dyna_q_updates(log.drop_last(), replays.drop_last()) + seq![log.last()] + planned(
            log,
            replays.last(),
        )
    }
}

/// The table of a run: the zero table with every update of the run applied in
/// order.
pub open spec fn dyna_q_table(
    states: nat,
    actions: nat,
    log: Seq<Transition>,
    replays: Seq<Seq<int>>,
    alpha: int,
    gamma: int,
) -> Seq<Seq<int>> {
    replay(zero_table(states, actions), dyna_q_updates(log, replays), alpha, gamma)
}

/// Every real step from `from` up to `to` takes the greedy choice among the
/// legal actions, by the table as it stood when the step was taken: that of the
/// real steps and replays before it.
pub open spec fn dyna_q_greedy_between<E: ModelFreeEnv>(
    envs: Seq<E>,
    log: Seq<Transition>,
    replays: Seq<Seq<int>>,
    from: int,
    to: int,
    alpha: int,
    gamma: int,
) -> bool {
    forall|i: int|
        from <= i < to ==> (#[trigger] log[i]).action == greedy_action(
            dyna_q_table(
                E::spec_num_states(),
                E::spec_num_actions(),
                log.take(i),
                replays.take(i),
                alpha,
                gamma,
            )[log[i].state as int],
            envs[i - from].spec_available_actions(),
        )
}

/// What one episode of Dyna-Q adds to a run: the real steps `from..to` of the
/// log are what the environment shows on its way through `envs`, from a reset
/// to a terminal configuration or to the end of the step budget, and
/// `total_reward` is the sum of their rewards. With `epsilon` at zero every
/// action is the greedy one.
pub open spec fn is_dyna_q_episode<E: ModelFreeEnv>(
    envs: Seq<E>,
    log: Seq<Transition>,
    replays: Seq<Seq<int>>,
    from: int,
    to: int,
    alpha: int,
    gamma: int,
    epsilon: int,
    max_steps: nat,
    total_reward: int,
) -> bool {
    &&& 0 <= from <= to <= log.len()
    &&& episode_of(envs, max_steps)
    &&& trace_of(envs, log.subrange(from, to))
    &&& epsilon == 0 ==> dyna_q_greedy_between(envs, log, replays, from, to, alpha, gamma)
    &&& total_reward == saturate(sum_of(rewards_of(log.subrange(from, to))))
}

/// Some episode of Dyna-Q added the real steps `from..to` and earned
/// `total_reward`.
pub open spec fn dyna_q_episode_leads<E: ModelFreeEnv>(
    log: Seq<Transition>,
    replays: Seq<Seq<int>>,
    from: int,
    to: int,
    alpha: int,
    gamma: int,
    epsilon: int,
    max_steps: nat,
    total_reward: int,
) -> bool {
    exists|envs: Seq<E>|
        #[trigger] is_dyna_q_episode(
            envs,
            log,
            replays,
            from,
            to,
            alpha,
            gamma,
            epsilon,
            max_steps,
            total_reward,
        )
}

/// A run of episodes with a constant epsilon: episode `k` added the real steps
/// `cuts[k]..cuts[k + 1]` of the log and earned `totals[k]`, and together the
/// episodes added the whole log.
pub open spec fn is_dyna_q_run<E: ModelFreeEnv>(
    log: Seq<Transition>,
    replays: Seq<Seq<int>>,
    cuts: Seq<int>,
    totals: Seq<int>,
    alpha: int,
    gamma: int,
    epsilon: int,
    max_steps: nat,
) -> bool {
    &&& cuts.len() == totals.len() + 1
    &&& cuts[0] == 0
    &&& cuts.last() == log.len()
    &&& forall|k: int|
        0 <= k < totals.len() ==> dyna_q_episode_leads::<E>(
            log,
            replays,
            cuts[k],
            cuts[k + 1],
            alpha,
            gamma,
            epsilon,
            max_steps,
            #[trigger] totals[k],
        )
}

/// What is greedy stays greedy when the log and the replays grow behind `to`.
pub proof fn lemma_greedy_survives_growth<E: ModelFreeEnv>(
    envs: Seq<E>,
    log: Seq<Transition>,
    replays: Seq<Seq<int>>,
    more_envs: Seq<E>,
    more_log: Seq<Transition>,
    more_replays: Seq<Seq<int>>,
    from: int,
    to: int,
    alpha: int,
    gamma: int,
)
    requires
        0 <= from <= to <= log.len() <= more_log.len(),
        to <= replays.len() <= more_replays.len(),
        to - from <= envs.len() <= more_envs.len(),
        more_log.take(to) == log.take(to),
        to > 0 ==> more_replays.take(to - 1) == replays.take(to - 1),
        more_envs.take(to - from) == envs.take(to - from),
        dyna_q_greedy_between(envs, log, replays, from, to, alpha, gamma),
    ensures
        dyna_q_greedy_between(more_envs, more_log, more_replays, from, to, alpha, gamma),
{
    assert forall|i: int| from <= i < to implies (#[trigger] more_log[i]).action == greedy_action(
        dyna_q_table(
            E::spec_num_states(),
            E::spec_num_actions(),
            more_log.take(i),
            more_replays.take(i),
            alpha,
            gamma,
        )[more_log[i].state as int],
        more_envs[i - from].spec_available_actions(),
    ) by {
        assert(more_log[i] == more_log.take(to)[i]);
        assert(log[i] == log.take(to)[i]);
        assert(more_log.take(i) =~= more_log.take(to).take(i));
        assert(log.take(i) =~= log.take(to).take(i));
        assert(more_replays.take(i) =~= more_replays.take(to - 1).take(i));
        assert(replays.take(i) =~= replays.take(to - 1).take(i));
        assert(more_envs[i - from] == more_envs.take(to - from)[i - from]);
        assert(envs[i - from] == envs.take(to - from)[i - from]);
    }
}

/// What is greedy up to the end of the log stays so when a greedy step and its
/// replays are appended.
pub proof fn lemma_dyna_q_greedy_grows<E: ModelFreeEnv>(
    envs: Seq<E>,
    log: Seq<Transition>,
    replays: Seq<Seq<int>>,
    x: Transition,
    after: E,
    more_replays: Seq<Seq<int>>,
    from: int,
    alpha: int,
    gamma: int,
)
    requires
        0 <= from <= log.len(),
        replays.len() == log.len(),
        envs.len() == log.len() - from + 1,
        dyna_q_greedy_between(envs, log, replays, from, log.len() as int, alpha, gamma),
        x.action == greedy_action(
            dyna_q_table(
                E::spec_num_states(),
                E::spec_num_actions(),
                log,
                replays,
                alpha,
                gamma,
            )[x.state as int],
            envs.last().spec_available_actions(),
        ),
        more_replays.len() == log.len() + 1,
        more_replays.take(log.len() as int) == replays,
    ensures
        dyna_q_greedy_between(
            envs.push(after),
            log.push(x),
            more_replays,
            from,
            log.len() as int + 1,
            alpha,
            gamma,
        ),
{
    let n = log.len() as int;
    let grown = log.push(x);
    let passed = envs.push(after);
    assert(grown.take(n) =~= log);
    assert(log.take(n) =~= log);
    assert(replays.take(n) =~= replays);
    if n > 0 {
        assert(more_replays.take(n - 1) =~= more_replays.take(n).take(n - 1));
    }
    assert(passed.take(n - from) =~= envs.take(n - from));
    lemma_greedy_survives_growth(
        envs,
        log,
        replays,
        passed,
        grown,
        more_replays,
        from,
        n,
        alpha,
        gamma,
    );
    assert(passed[n - from] == envs.last());
}

/// An episode of a run stays what it is when later episodes make the log and
/// the replays grow.
pub proof fn lemma_episode_survives_growth<E: ModelFreeEnv>(
    envs: Seq<E>,
    log: Seq<Transition>,
    replays: Seq<Seq<int>>,
    more_log: Seq<Transition>,
    more_replays: Seq<Seq<int>>,
    from: int,
    to: int,
    alpha: int,
    gamma: int,
    epsilon: int,
    max_steps: nat,
    total_reward: int,
)
    requires
        is_dyna_q_episode(
            envs,
            log,
            replays,
            from,
            to,
            alpha,
            gamma,
            epsilon,
            max_steps,
            total_reward,
        ),
        log.len() <= more_log.len(),
        replays.len() == log.len(),
        replays.len() <= more_replays.len(),
        more_log.take(log.len() as int) == log,
        more_replays.take(log.len() as int) == replays,
    ensures
        is_dyna_q_episode(
            envs,
            more_log,
            more_replays,
            from,
            to,
            alpha,
            gamma,
            epsilon,
            max_steps,
            total_reward,
        ),
{
    let n = log.len() as int;
    assert(more_log.subrange(from, to) =~= log.subrange(from, to)) by {
        assert forall|i: int| from <= i < to implies more_log[i] == log[i] by {
            assert(more_log.take(n)[i] == more_log[i]);
        }
    }
    if epsilon == 0 {
        assert(more_log.take(to) =~= more_log.take(n).take(to));
        assert(log.take(to) =~= log.take(n).take(to));
        assert(log.take(n) =~= log);
        if to > 0 {
            assert(more_replays.take(to - 1) =~= more_replays.take(n).take(to - 1));
        }
        lemma_greedy_survives_growth(
            envs,
            log,
            replays,
            envs,
            more_log,
            more_replays,
            from,
            to,
            alpha,
            gamma,
        );
    }
}

/// A run stays a run of its first episodes when a later episode makes the log
/// and the replays grow, and it grows by that episode.
pub proof fn lemma_run_grows<E: ModelFreeEnv>(
    log: Seq<Transition>,
    replays: Seq<Seq<int>>,
    more_log: Seq<Transition>,
    more_replays: Seq<Seq<int>>,
    cuts: Seq<int>,
    totals: Seq<int>,
    alpha: int,
    gamma: int,
    epsilon: int,
    max_steps: nat,
    total_reward: int,
)
    requires
        is_dyna_q_run::<E>(log, replays, cuts, totals, alpha, gamma, epsilon, max_steps),
        log.len() <= more_log.len(),
        replays.len() == log.len(),
        replays.len() <= more_replays.len(),
        more_log.take(log.len() as int) == log,
        more_replays.take(log.len() as int) == replays,
        dyna_q_episode_leads::<E>(
            more_log,
            more_replays,
            log.len() as int,
            more_log.len() as int,
            alpha,
            gamma,
            epsilon,
            max_steps,
            total_reward,
        ),
    ensures
        is_dyna_q_run::<E>(
            more_log,
            more_replays,
            cuts.push(more_log.len() as int),
            totals.push(total_reward),
            alpha,
            gamma,
            epsilon,
            max_steps,
        ),
{
    let more_cuts = cuts.push(more_log.len() as int);
    let more_totals = totals.push(total_reward);
    assert forall|k: int| 0 <= k < more_totals.len() implies dyna_q_episode_leads::<E>(
        more_log,
        more_replays,
        more_cuts[k],
        more_cuts[k + 1],
        alpha,
        gamma,
        epsilon,
        max_steps,
        #[trigger] more_totals[k],
    ) by {
        if k < totals.len() {
            assert(more_totals[k] == totals[k]);
            assert(more_cuts[k] == cuts[k] && more_cuts[k + 1] == cuts[k + 1]);
            let envs = choose|envs: Seq<E>|
                #[trigger] is_dyna_q_episode(
                    envs,
                    log,
                    replays,
                    cuts[k],
                    cuts[k + 1],
                    alpha,
                    gamma,
                    epsilon,
                    max_steps,
                    totals[k],
                );
            lemma_episode_survives_growth(
                envs,
                log,
                replays,
                more_log,
                more_replays,
                cuts[k],
                cuts[k + 1],
                alpha,
                gamma,
                epsilon,
                max_steps,
                totals[k],
            );
        } else {
            assert(more_cuts[k] == cuts.last());
        }
    }
}

/// There is one list of replays per real step, and each replay draws an entry
/// that the log held at the time.
pub open spec fn replays_fit(log: Seq<Transition>, replays: Seq<Seq<int>>) -> bool {
    &&& replays.len() == log.len()
    &&& forall|i: int, k: int|
        0 <= i < replays.len() && 0 <= k < replays[i].len() ==> 0 <= #[trigger] replays[i][k] <= i
}

/// What the model remembers was logged: it is the outcome of an entry of the
/// log for that state and action.
pub proof fn lemma_latest_was_logged(log: Seq<Transition>, state: usize, action: usize)
    ensures
        latest(log, state, action) matches Some(outcome) ==> exists|i: int|
            {
                &&& 0 <= i < log.len()
                &&& (#[trigger] log[i]).state == state
                &&& log[i].action == action
                &&& log[i].next_state == outcome.0
                &&& log[i].reward == outcome.1
            },
    decreases log.len(),
{
    if log.len() > 0 {
        if log.last().state == state && log.last().action == action {
            assert(log[log.len() - 1] == log.last());
        } else {
            lemma_latest_was_logged(log.drop_last(), state, action);
            if latest(log, state, action) is Some {
                let i = choose|i: int|
                    {
                        &&& 0 <= i < log.drop_last().len()
                        &&& (#[trigger] log.drop_last()[i]).state == state
                        &&& log.drop_last()[i].action == action
                        &&& log.drop_last()[i].next_state == latest(log, state, action).unwrap().0
                        &&& log.drop_last()[i].reward == latest(log, state, action).unwrap().1
                    };
                assert(log[i] == log.drop_last()[i]);
            }
        }
    }
}

/// The model remembers an outcome for the state and action of every entry of
/// the log.
pub proof fn lemma_logged_is_remembered(log: Seq<Transition>, pick: int)
    requires
        0 <= pick < log.len(),
    ensures
        latest(log, log[pick].state, log[pick].action) is Some,
    decreases log.len(),
{
    if !(log.last().state == log[pick].state && log.last().action == log[pick].action) {
        assert(log.drop_last()[pick] == log[pick]);
        lemma_logged_is_remembered(log.drop_last(), pick);
    }
}

/// A replay applies a transition that lies within the table whenever the log
/// does.
pub proof fn lemma_remembered_within(log: Seq<Transition>, pick: int, states: nat, actions: nat)
    requires
        0 <= pick < log.len(),
        within(log, states, actions),
    ensures
        remembered(log, pick).state == log[pick].state,
        remembered(log, pick).action == log[pick].action,
        remembered(log, pick).state < states,
        remembered(log, pick).action < actions,
        remembered(log, pick).next_state < states,
{
    lemma_latest_was_logged(log, log[pick].state, log[pick].action);
}

/// Without replays the updates of a run are its real steps, so that the table is
/// the one that Q-learning builds from the same steps.
pub proof fn lemma_without_replays_is_q_learning(
    t: Seq<Seq<int>>,
    log: Seq<Transition>,
    replays: Seq<Seq<int>>,
    alpha: int,
    gamma: int,
)
    requires
        replays.len() == log.len(),
        forall|i: int| 0 <= i < replays.len() ==> (#[trigger] replays[i]).len() == 0,
    ensures
        dyna_q_updates(log, replays) == log,
        replay(t, dyna_q_updates(log, replays), alpha, gamma) == replay(t, log, alpha, gamma),
    decreases log.len(),
{
    if log.len() > 0 {
        lemma_without_replays_is_q_learning(t, log.drop_last(), replays.drop_last(), alpha, gamma);
        assert(replays.last().len() == 0);
        assert(planned(log, replays.last()) =~= Seq::<Transition>::empty());
        assert(log.drop_last() + seq![log.last()] + Seq::<Transition>::empty() =~= log);
    }
}

/// Appending a real step appends it to the updates.
proof fn lemma_updates_after_step(log: Seq<Transition>, replays: Seq<Seq<int>>, x: Transition)
    ensures
        dyna_q_updates(log.push(x), replays.push(Seq::empty())) == dyna_q_updates(log, replays).push(
            x,
        ),
{
    let grown = log.push(x);
    let more = replays.push(Seq::<int>::empty());
    assert(grown.drop_last() =~= log);
    assert(more.drop_last() =~= replays);
    assert(planned(grown, more.last()) =~= Seq::<Transition>::empty());
    assert(dyna_q_updates(log, replays) + seq![x] + Seq::<Transition>::empty()
        =~= dyna_q_updates(log, replays).push(x));
}

/// Appending a replay after the last real step appends the transition that it
/// applies to the updates.
proof fn lemma_updates_after_replay(log: Seq<Transition>, replays: Seq<Seq<int>>, pick: int)
    requires
        log.len() > 0,
        replays.len() == log.len(),
    ensures
        dyna_q_updates(log, replays.update(replays.len() - 1, replays.last().push(pick)))
            == dyna_q_updates(log, replays).push(remembered(log, pick)),
{
    let more = replays.update(replays.len() - 1, replays.last().push(pick));
    assert(more.drop_last() =~= replays.drop_last());
    assert(planned(log, more.last()) =~= planned(log, replays.last()).push(remembered(log, pick)));
    let front = dyna_q_updates(log.drop_last(), replays.drop_last()) + seq![log.last()];
    assert(front + planned(log, replays.last()).push(remembered(log, pick)) =~= (front + planned(
        log,
        replays.last(),
    )).push(remembered(log, pick)));
}

/// The learner's state: the table, the model, the log of real steps, and the
/// rates that its updates use.
///
/// `replays` exists only in proofs: it remembers which entries were replayed
/// after each real step, so that the table can be stated as a function of the
/// log and the replays.
pub struct DynaQAgent {
    pub num_states: usize,
    pub num_actions: usize,
    pub learning_rate: u32,
    pub gamma: u32,
    pub q_values: Vec<Vec<i64>>,
    pub model: Vec<Vec<Option<(usize, i64)>>>,
    pub experiences: Vec<Transition>,
    pub replays: Ghost<Seq<Seq<int>>>,
}

impl DynaQAgent {
    /// The table and the model have one cell per state and action; the model
    /// remembers the latest logged outcome of each; and the table is the zero
    /// table with every update of the run applied in order.
    pub open spec fn well_formed(&self) -> bool {
        &&& self.num_actions > 0
        &&& has_shape(table_view(&self.q_values), self.num_states as nat, self.num_actions as nat)
        &&& self.model.len() == self.num_states
        &&& forall|s: int| 0 <= s < self.num_states ==> (#[trigger] self.model[s]).len() == self.num_actions
        &&& forall|s: int, a: int|
            0 <= s < self.num_states && 0 <= a < self.num_actions ==> #[trigger] self.model[s][a]
                == latest(self.experiences@, s as usize, a as usize)
        &&& within(self.experiences@, self.num_states as nat, self.num_actions as nat)
        &&& replays_fit(self.experiences@, self.replays@)
        &&& table_view(&self.q_values) == dyna_q_table(
            self.num_states as nat,
            self.num_actions as nat,
            self.experiences@,
            self.replays@,
            self.learning_rate as int,
            self.gamma as int,
        )
    }

    /// A learner that has seen nothing: a zero table, an empty model and an
    /// empty log.
    pub fn new(num_states: usize, num_actions: usize, learning_rate: u32, gamma: u32) -> (agent: Self)
        requires
            num_actions > 0,
        ensures
            agent.well_formed(),
            agent.num_states == num_states,
            agent.num_actions == num_actions,
            agent.learning_rate == learning_rate,
            agent.gamma == gamma,
            agent.experiences@ == Seq::<Transition>::empty(),
            agent.replays@ == Seq::<Seq<int>>::empty(),
            table_view(&agent.q_values) == zero_table(num_states as nat, num_actions as nat),
    {
        let mut model: Vec<Vec<Option<(usize, i64)>>> = Vec::new();
        let mut s: usize = 0;
        while s < num_states
            invariant
                s <= num_states,
                model.len() == s,
                forall|i: int| 0 <= i < s ==> (#[trigger] model[i]).len() == num_actions,
                forall|i: int, a: int| 0 <= i < s && 0 <= a < num_actions ==> #[trigger] model[i][a] is None,
            decreases num_states - s,
        {
            let mut row: Vec<Option<(usize, i64)>> = Vec::new();
            let mut a: usize = 0;
            while a < num_actions
                invariant
                    a <= num_actions,
                    row.len() == a,
                    forall|j: int| 0 <= j < a ==> #[trigger] row[j] is None,
                decreases num_actions - a,
            {
                row.push(None);
                a = a + 1;
            }
            model.push(row);
            s = s + 1;
        }
        DynaQAgent {
            num_states,
            num_actions,
            learning_rate,
            gamma,
            q_values: new_table(num_states, num_actions),
            model,
            experiences: Vec::new(),
            replays: Ghost(Seq::empty()),
        }
    }

    /// Learns from a real step: applies the Q-learning update for it, writes its
    /// outcome into the model, and appends it to the log.
    pub fn observe(&mut self, x: Transition)
        requires
            old(self).well_formed(),
            x.state < old(self).num_states,
            x.action < old(self).num_actions,
            x.next_state < old(self).num_states,
        ensures
            final(self).well_formed(),
            final(self).num_states == old(self).num_states,
            final(self).num_actions == old(self).num_actions,
            final(self).learning_rate == old(self).learning_rate,
            final(self).gamma == old(self).gamma,
            final(self).experiences@ == old(self).experiences@.push(x),
            final(self).replays@ == old(self).replays@.push(Seq::empty()),
            table_view(&final(self).q_values) == q_learning_update(
                table_view(&old(self).q_values),
                x,
                old(self).learning_rate as int,
                old(self).gamma as int,
            ),
    {
        let ghost log = self.experiences@;
        let ghost table = table_view(&self.q_values);
        proof {
            assert(table[x.state as int].len() == self.num_actions);
            assert(table[x.next_state as int].len() == self.num_actions);
            lemma_update_keeps_shape(
                table,
                x,
                self.learning_rate as int,
                self.gamma as int,
                self.num_states as nat,
                self.num_actions as nat,
            );
            lemma_updates_after_step(log, self.replays@, x);
            assert(dyna_q_updates(log, self.replays@).push(x).drop_last() =~= dyna_q_updates(
                log,
                self.replays@,
            ));
        }
        update_q_value(&mut self.q_values, x, self.learning_rate, self.gamma);
        self.model[x.state][x.action] = Some((x.next_state, x.reward));
        self.experiences.push(x);
        self.replays = Ghost(self.replays@.push(Seq::empty()));
        proof {
            let grown = self.experiences@;
            assert(grown.drop_last() =~= log);
            assert forall|s: int, a: int|
                0 <= s < self.num_states && 0 <= a < self.num_actions implies #[trigger] self.model[s][a]
                == latest(grown, s as usize, a as usize) by {
                assert(old(self).model[s][a] == latest(log, s as usize, a as usize));
            }
        }
    }

    /// One simulated update: draws an entry of the log and applies the
    /// Q-learning update to its state and action with the outcome that the model
    /// remembers for them. With an empty log nothing happens.
    pub fn simulate(&mut self, rng: &mut ThreadRng)
        requires
            old(self).well_formed(),
        ensures
            final(self).well_formed(),
            final(self).num_states == old(self).num_states,
            final(self).num_actions == old(self).num_actions,
            final(self).learning_rate == old(self).learning_rate,
            final(self).gamma == old(self).gamma,
            final(self).experiences@ == old(self).experiences@,
            old(self).experiences.len() == 0 ==> final(self).q_values == old(self).q_values
                && final(self).replays@ == old(self).replays@,
            old(self).experiences.len() > 0 ==> exists|pick: int|
                {
                    &&& 0 <= pick < old(self).experiences.len()
                    &&& final(self).replays@ == old(self).replays@.update(
                        old(self).replays@.len() - 1,
                        old(self).replays@.last().push(pick),
                    )
                    &&& table_view(&final(self).q_values) == #[trigger] q_learning_update(
                        table_view(&old(self).q_values),
                        remembered(old(self).experiences@, pick),
                        old(self).learning_rate as int,
                        old(self).gamma as int,
                    )
                },
    {
        let ghost log = self.experiences@;
        let ghost table = table_view(&self.q_values);
        let drawn = match choose_item(&self.experiences, rng) {
            Some(entry) => Some(*entry),
            None => None,
        };
        if let Some(entry) = drawn {
            let ghost pick = choose|i: int| 0 <= i < log.len() && log[i] == entry;
            proof {
                lemma_logged_is_remembered(log, pick);
                lemma_remembered_within(log, pick, self.num_states as nat, self.num_actions as nat);
                assert(self.model[entry.state as int][entry.action as int] == latest(
                    log,
                    entry.state,
                    entry.action,
                ));
            }
            if let Some((next_state, reward)) = self.model[entry.state][entry.action] {
                let x = Transition { state: entry.state, action: entry.action, next_state, reward };
                proof {
                    assert(x == remembered(log, pick));
                    assert(table[x.state as int].len() == self.num_actions);
                    assert(table[x.next_state as int].len() == self.num_actions);
                    lemma_update_keeps_shape(
                        table,
                        x,
                        self.learning_rate as int,
                        self.gamma as int,
                        self.num_states as nat,
                        self.num_actions as nat,
                    );
                    lemma_updates_after_replay(log, self.replays@, pick);
                    assert(dyna_q_updates(log, self.replays@).push(x).drop_last() =~= dyna_q_updates(
                        log,
                        self.replays@,
                    ));
                }
                update_q_value(&mut self.q_values, x, self.learning_rate, self.gamma);
                self.replays = Ghost(
                    self.replays@.update(self.replays@.len() - 1, self.replays@.last().push(pick)),
                );
            }
        }
    }

    /// Makes `count` simulated updates. They are replays after the last real
    /// step; with an empty log nothing happens.
    pub fn plan(&mut self, count: usize, rng: &mut ThreadRng)
        requires
            old(self).well_formed(),
        ensures
            final(self).well_formed(),
            final(self).num_states == old(self).num_states,
            final(self).num_actions == old(self).num_actions,
            final(self).learning_rate == old(self).learning_rate,
            final(self).gamma == old(self).gamma,
            final(self).experiences@ == old(self).experiences@,
            final(self).replays@.len() == old(self).replays@.len(),
            final(self).replays@.drop_last() == old(self).replays@.drop_last(),
            old(self).experiences.len() == 0 ==> final(self).q_values == old(self).q_values,
            old(self).experiences.len() > 0 ==> final(self).replays@.last().len() == old(
                self,
            ).replays@.last().len() + count,
    {
        let mut made: usize = 0;
        while made < count
            invariant
                self.well_formed(),
                self.num_states == old(self).num_states,
                self.num_actions == old(self).num_actions,
                self.learning_rate == old(self).learning_rate,
                self.gamma == old(self).gamma,
                self.experiences@ == old(self).experiences@,
                made <= count,
                self.replays@.len() == old(self).replays@.len(),
                self.replays@.drop_last() == old(self).replays@.drop_last(),
                old(self).experiences.len() == 0 ==> self.q_values == old(self).q_values,
                old(self).experiences.len() > 0 ==> self.replays@.last().len() == old(
                    self,
                ).replays@.last().len() + made,
            decreases count - made,
        {
            let ghost earlier = self.replays@;
            self.simulate(rng);
            made = made + 1;
            assert(self.replays@.drop_last() =~= earlier.drop_last());
        }
    }

    /// Runs one episode: from a fresh environment, until the episode ends or
    /// `max_steps` steps are taken, selects an action by epsilon-greedy on the
    /// current state's row, steps, learns from the real step, and makes
    /// `sim_updates` simulated updates. Returns the sum of the rewards.
    ///
    /// The real steps are appended to the log, and each of them is followed by
    /// `sim_updates` replays; what was logged and replayed before stays.
    pub fn run_episode<E: ModelFreeEnv>(
        &mut self,
        epsilon: u32,
        sim_updates: usize,
        max_steps: usize,
        rng: &mut ThreadRng,
    ) -> (total_reward: i64)
        requires
            old(self).well_formed(),
            old(self).num_states == E::spec_num_states(),
            old(self).num_actions == E::spec_num_actions(),
            forall|i: int|
                0 <= i < old(self).replays@.len() ==> (#[trigger] old(self).replays@[i]).len()
                    == sim_updates,
        ensures
            final(self).well_formed(),
            final(self).num_states == old(self).num_states,
            final(self).num_actions == old(self).num_actions,
            final(self).learning_rate == old(self).learning_rate,
            final(self).gamma == old(self).gamma,
            forall|i: int|
                0 <= i < final(self).replays@.len() ==> (#[trigger] final(self).replays@[i]).len()
                    == sim_updates,
            final(self).experiences@.take(old(self).experiences.len() as int) == old(
                self,
            ).experiences@,
            final(self).replays@.take(old(self).experiences.len() as int) == old(self).replays@,
            dyna_q_episode_leads::<E>(
                final(self).experiences@,
                final(self).replays@,
                old(self).experiences.len() as int,
                final(self).experiences.len() as int,
                old(self).learning_rate as int,
                old(self).gamma as int,
                epsilon as int,
                max_steps as nat,
                total_reward as int,
            ),
    {
        let ghost start = self.experiences@;
        let ghost from = start.len() as int;
        let ghost alpha = self.learning_rate as int;
        let ghost discount = self.gamma as int;
        let mut env = E::new();
        env.reset();
        let ghost mut envs: Seq<E> = seq![env];
        let mut total: i128 = 0;
        let mut steps: usize = 0;
        proof {
            assert(self.experiences@.take(from) =~= start);
            assert(self.replays@.take(from) =~= self.replays@);
            assert(rewards_of(self.experiences@.subrange(from, from)) =~= Seq::<int>::empty());
        }
        while steps < max_steps && !env.is_game_over()
            invariant
                env.well_formed(),
                self.well_formed(),
                self.num_states == E::spec_num_states(),
                self.num_actions == E::spec_num_actions(),
                self.num_states == old(self).num_states,
                self.num_actions == old(self).num_actions,
                self.learning_rate == old(self).learning_rate,
                self.gamma == old(self).gamma,
                alpha == self.learning_rate as int,
                discount == self.gamma as int,
                start == old(self).experiences@,
                from == start.len(),
                forall|i: int|
                    0 <= i < self.replays@.len() ==> (#[trigger] self.replays@[i]).len() == sim_updates,
                steps <= max_steps,
                self.experiences.len() == from + steps,
                self.experiences@.take(from) == start,
                self.replays@.take(from) == old(self).replays@,
                envs.len() == steps + 1,
                envs.last() == env,
                envs[0].well_formed(),
                envs[0].spec_starts(),
                trace_of(envs, self.experiences@.subrange(from, from + steps)),
                epsilon == 0 ==> dyna_q_greedy_between(
                    envs,
                    self.experiences@,
                    self.replays@,
                    from,
                    from + steps,
                    alpha,
                    discount,
                ),
                total == sum_of(rewards_of(self.experiences@.subrange(from, from + steps))),
            decreases max_steps - steps,
        {
            let ghost logged = self.experiences@;
            let ghost replayed = self.replays@;
            let ghost n = logged.len() as int;
            let state = env.state_id();
            let legal = env.available_actions();
            proof {
                env.lemma_legal_actions();
            }
            assert(table_view(&self.q_values)[state as int] == row_view(&self.q_values[state as int]));
            let action = epsilon_greedy(&self.q_values[state], &legal, epsilon, rng);
            let score_before = env.score();
            let ghost before = env;
            env.step(action);
            let reward = reward_between(score_before, env.score());
            let next_state = env.state_id();
            let x = Transition { state, action, next_state, reward };
            self.observe(x);
            self.plan(sim_updates, rng);
            proof {
                let seen = logged.subrange(from, n);
                assert(self.experiences@.subrange(from, n + 1) =~= seen.push(x));
                assert(self.experiences@.take(from) =~= logged.take(from));
                assert(self.replays@.take(n) =~= self.replays@.drop_last());
                assert(replayed.push(Seq::<int>::empty()).drop_last() =~= replayed);
                assert(self.replays@.take(from) =~= replayed.take(from));
                lemma_trace_grows(envs, seen, x, env);
                lemma_rewards_grow(seen, x);
                if epsilon == 0 {
                    lemma_dyna_q_greedy_grows(
                        envs,
                        logged,
                        replayed,
                        x,
                        env,
                        self.replays@,
                        from,
                        alpha,
                        discount,
                    );
                }
                assert forall|i: int| 0 <= i < self.replays@.len() implies (
                #[trigger] self.replays@[i]).len() == sim_updates by {
                    if i < n {
                        assert(self.replays@[i] == self.replays@.drop_last()[i]);
                        assert(replayed[i] == replayed.push(Seq::<int>::empty()).drop_last()[i]);
                    }
                }
                envs = envs.push(env);
            }
            total = total + reward as i128;
            steps = steps + 1;
        }
        proof {
            assert(is_dyna_q_episode(
                envs,
                self.experiences@,
                self.replays@,
                from,
                self.experiences.len() as int,
                alpha,
                discount,
                epsilon as int,
                max_steps as nat,
                saturate(
                    sum_of(
                        rewards_of(self.experiences@.subrange(from, self.experiences.len() as int)),
                    ),
                ),
            ));
        }
        saturate_value(total)
    }
}

/// Trains a table by Dyna-Q over `num_episodes` episodes with a constant
/// `epsilon` and derives the greedy policy from it. Every real step is followed
/// by `sim_updates` simulated updates, `DEFAULT_SIM_UPDATES` where `None` is
/// given. No episode takes more than `max_steps` steps. The reward of every
/// episode goes to `recorder`.
///
/// The table has one row per state and one column per action; it is the zero
/// table with every update of the run applied in order, the real steps each
/// followed by its replays. The real steps are those of a chain of episodes.
/// With no simulated updates the updates are the real steps alone.
pub fn dyna_q<E: ModelFreeEnv>(
    num_episodes: usize,
    learning_rate: u32,
    gamma: u32,
    epsilon: u32,
    sim_updates: Option<usize>,
    max_steps: usize,
    recorder: &mut MetricsRecorder,
) -> (result: (Vec<Vec<i64>>, Vec<usize>))
    requires
        old(recorder).well_formed(),
    ensures
        has_shape(table_view(&result.0), E::spec_num_states(), E::spec_num_actions()),
        is_greedy_policy(result.1@, table_view(&result.0)),
        forall|s: int| 0 <= s < result.1.len() ==> #[trigger] result.1[s] < E::spec_num_actions(),
        exists|log: Seq<Transition>, replays: Seq<Seq<int>>, cuts: Seq<int>|
            {
                &&& within(log, E::spec_num_states(), E::spec_num_actions())
                &&& replays_fit(log, replays)
                &&& forall|i: int|
                    0 <= i < replays.len() ==> (#[trigger] replays[i]).len() == spec_sim_updates(
                        sim_updates,
                    )
                &&& #[trigger] is_dyna_q_run::<E>(
                    log,
                    replays,
                    cuts,
                    final(recorder).rewards().skip(old(recorder).rewards().len() as int),
                    learning_rate as int,
                    gamma as int,
                    epsilon as int,
                    max_steps as nat,
                )
                &&& table_view(&result.0) == dyna_q_table(
                    E::spec_num_states(),
                    E::spec_num_actions(),
                    log,
                    replays,
                    learning_rate as int,
                    gamma as int,
                )
                &&& spec_sim_updates(sim_updates) == 0 ==> table_view(&result.0) == replay(
                    zero_table(E::spec_num_states(), E::spec_num_actions()),
                    log,
                    learning_rate as int,
                    gamma as int,
                )
            },
        final(recorder).well_formed(),
        final(recorder).window() == old(recorder).window(),
        final(recorder).rewards().len() == old(recorder).rewards().len() + num_episodes,
        final(recorder).rewards().take(old(recorder).rewards().len() as int) == old(
            recorder,
        ).rewards(),
{
    let ghost recorded = recorder.rewards();
    let planned_updates = match sim_updates {
        Some(count) => count,
        None => DEFAULT_SIM_UPDATES,
    };
    let mut agent = DynaQAgent::new(E::num_states(), E::num_actions(), learning_rate, gamma);
    let ghost mut cuts: Seq<int> = seq![0int];
    let mut rng = rand::thread_rng();
    let mut episode: usize = 0;
    assert(recorder.rewards().take(recorded.len() as int) =~= recorded);
    assert(recorder.rewards().skip(recorded.len() as int) =~= Seq::<int>::empty());
    while episode < num_episodes
        invariant
            episode <= num_episodes,
            is_dyna_q_run::<E>(
                agent.experiences@,
                agent.replays@,
                cuts,
                recorder.rewards().skip(recorded.len() as int),
                learning_rate as int,
                gamma as int,
                epsilon as int,
                max_steps as nat,
            ),
            agent.well_formed(),
            agent.num_states == E::spec_num_states(),
            agent.num_actions == E::spec_num_actions(),
            agent.learning_rate == learning_rate,
            agent.gamma == gamma,
            forall|i: int|
                0 <= i < agent.replays@.len() ==> (#[trigger] agent.replays@[i]).len()
                    == planned_updates,
            recorder.well_formed(),
            recorder.window() == old(recorder).window(),
            recorded == old(recorder).rewards(),
            recorder.rewards().len() == recorded.len() + episode,
            recorder.rewards().take(recorded.len() as int) == recorded,
        decreases num_episodes - episode,
    {
        let ghost logged = recorder.rewards();
        let ghost log = agent.experiences@;
        let ghost replays = agent.replays@;
        let total_reward = agent.run_episode::<E>(epsilon, planned_updates, max_steps, &mut rng);
        recorder.record_episode(total_reward);
        proof {
            let totals = logged.skip(recorded.len() as int);
            assert(recorder.rewards().take(recorded.len() as int) =~= logged.take(
                recorded.len() as int,
            ));
            assert(recorder.rewards().skip(recorded.len() as int) =~= totals.push(
                total_reward as int,
            ));
            lemma_run_grows::<E>(
                log,
                replays,
                agent.experiences@,
                agent.replays@,
                cuts,
                totals,
                learning_rate as int,
                gamma as int,
                epsilon as int,
                max_steps as nat,
                total_reward as int,
            );
            cuts = cuts.push(agent.experiences@.len() as int);
        }
        episode = episode + 1;
    }
    let policy = derive_policy(&agent.q_values);
    proof {
        assert forall|s: int| 0 <= s < policy.len() implies #[trigger] policy[s]
            < E::spec_num_actions() by {
            assert(table_view(&agent.q_values)[s] == row_view(&agent.q_values[s]));
        }
        if planned_updates == 0 {
            lemma_without_replays_is_q_learning(
                zero_table(E::spec_num_states(), E::spec_num_actions()),
                agent.experiences@,
                agent.replays@,
                learning_rate as int,
                gamma as int,
            );
        }
    }
    (agent.q_values, policy)
}

} // verus!
