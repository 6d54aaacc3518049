//! Q-learning: off-policy, one step at a time.
//!
//! After every step the estimate of the action taken moves toward the reward
//! plus the discounted maximum of the next state's whole row.

use crate::action_values::{
    derive_policy, has_shape, is_greedy_policy, max_value, new_table, row_max, row_view,
    table_view, zero_table,
};
use crate::contracts::model_free_env::{episode_of, step_observed, ModelFreeEnv};
use crate::exploration::{decay_epsilon, epsilon_greedy, greedy_action, spec_decay_epsilon};
use crate::fixed_point::{
    bootstrap_target, lemma_sum_bounds, reward_between, saturate, saturate_value, step_toward,
    sum_of, td_step, td_target,
};
use crate::metrics::MetricsRecorder;
use rand::rngs::ThreadRng;
use vstd::prelude::*;

verus! {

/// One observed step: in `state` the agent took `action`, earned `reward` and
/// arrived in `next_state`.
#[derive(Clone, Copy, Debug, PartialEq, Eq)]
pub struct Transition {
    pub state: usize,
    pub action: usize,
    pub next_state: usize,
    pub reward: i64,
}

/// The transition names a cell of the table and a next state whose row is not
/// empty.
pub open spec fn fits(t: Seq<Seq<int>>, x: Transition) -> bool {
    &&& x.state < t.len()
    &&& x.action < t[x.state as int].len()
    &&& x.next_state < t.len()
    &&& t[x.next_state as int].len() > 0
}

/// The target of a transition: its reward plus the discounted maximum of the
/// next state's row.
pub open spec fn q_learning_target(t: Seq<Seq<int>>, x: Transition, gamma: int) -> int {
    td_target(x.reward as int, gamma, row_max(t[x.next_state as int]))
}

/// The table after the update for one transition:
/// `Q[s,a] += alpha * (r + gamma * max Q[s'] - Q[s,a])`, every other cell
/// unchanged.
pub open spec fn q_learning_update(t: Seq<Seq<int>>, x: Transition, alpha: int, gamma: int) -> Seq<
    Seq<int>,
> {
    let s = x.state as int;
    let a = x.action as int;
    t.update(s, t[s].update(a, td_step(t[s][a], alpha, q_learning_target(t, x, gamma))))
}

/// The table after the updates for a trace of transitions, oldest first.
pub open spec fn replay(t: Seq<Seq<int>>, trace: Seq<Transition>, alpha: int, gamma: int) -> Seq<
    Seq<int>,
>
    decreases trace.len(),
{
    if trace.len() == 0 {
        t
    } else {
        q_learning_update(replay(t, trace.drop_last(), alpha, gamma), trace.last(), alpha, gamma)
    }
}

/// Every transition of the trace lies within `states` states and `actions`
/// actions.
pub open spec fn within(trace: Seq<Transition>, states: nat, actions: nat) -> bool {
    forall|i: int|
        0 <= i < trace.len() ==> {
            &&& (#[trigger] trace[i]).state < states
            &&& trace[i].action < actions
            &&& trace[i].next_state < states
        }
}

/// The rewards of a trace, oldest first.
pub open spec fn rewards_of(trace: Seq<Transition>) -> Seq<int> {
    Seq::new(trace.len(), |i: int| trace[i].reward as int)
}

/// An update keeps the shape of the table.
pub proof fn lemma_update_keeps_shape(
    t: Seq<Seq<int>>,
    x: Transition,
    alpha: int,
    gamma: int,
    states: nat,
    actions: nat,
)
    requires
        has_shape(t, states, actions),
        fits(t, x),
    ensures
        has_shape(q_learning_update(t, x, alpha, gamma), states, actions),
{
    let u = q_learning_update(t, x, alpha, gamma);
    assert forall|s: int| 0 <= s < u.len() implies (#[trigger] u[s]).len() == actions by {
        assert(t[s].len() == actions);
    }
}

/// At a fixed point of a transition, where the target already equals the
/// estimate, the update leaves the whole table as it is, whatever the learning
/// rate.
pub proof fn lemma_update_at_fixed_point(t: Seq<Seq<int>>, x: Transition, alpha: int, gamma: int)
    requires
        fits(t, x),
        q_learning_target(t, x, gamma) == t[x.state as int][x.action as int],
    ensures
        q_learning_update(t, x, alpha, gamma) == t,
{
    let s = x.state as int;
    let a = x.action as int;
    assert(alpha * 0 == 0);
    assert(t[s].update(a, t[s][a]) =~= t[s]);
    assert(t.update(s, t[s]) =~= t);
}

/// Applies the update for one transition to the table.
pub fn update_q_value(q: &mut Vec<Vec<i64>>, x: Transition, learning_rate: u32, gamma: u32)
    requires
        fits(table_view(old(q)), x),
    ensures
        table_view(final(q)) == q_learning_update(
            table_view(old(q)),
            x,
            learning_rate as int,
            gamma as int,
        ),
{
    let ghost before = table_view(q);
    assert(before[x.next_state as int] == row_view(&q[x.next_state as int]));
    assert(before[x.state as int] == row_view(&q[x.state as int]));
    let next_best = max_value(&q[x.next_state]);
    let target = bootstrap_target(x.reward, gamma, next_best);
    let updated = step_toward(q[x.state][x.action], learning_rate, target);
    q[x.state][x.action] = updated;
    proof {
        let after = q_learning_update(before, x, learning_rate as int, gamma as int);
        assert(table_view(q).len() == after.len());
        assert forall|s: int| 0 <= s < after.len() implies #[trigger] table_view(q)[s] == after[s] by {
            assert(table_view(q)[s] == row_view(&q[s]));
            assert(before[s] == row_view(&old(q)[s]));
            if s == x.state {
                assert(row_view(&q[s]) =~= before[s].update(x.action as int, updated as int));
            }
        }
        assert(table_view(q) =~= after);
    }
}

/// Replaying one trace and then another is replaying the two joined.
pub proof fn lemma_replay_concat(
    t: Seq<Seq<int>>,
    first: Seq<Transition>,
    second: Seq<Transition>,
    alpha: int,
    gamma: int,
)
    ensures
        replay(replay(t, first, alpha, gamma), second, alpha, gamma) == replay(
            t,
            first + second,
            alpha,
            gamma,
        ),
    decreases second.len(),
{
    if second.len() == 0 {
        assert(first + second =~= first);
    } else {
        lemma_replay_concat(t, first, second.drop_last(), alpha, gamma);
        assert((first + second).drop_last() =~= first + second.drop_last());
        assert((first + second).last() == second.last());
    }
}

/// A table on which every transition of a trace is at its fixed point comes out
/// of the replay of that trace unchanged.
pub proof fn lemma_replay_at_fixed_point(
    t: Seq<Seq<int>>,
    trace: Seq<Transition>,
    alpha: int,
    gamma: int,
)
    requires
        forall|i: int|
            0 <= i < trace.len() ==> fits(t, #[trigger] trace[i]) && q_learning_target(
                t,
                trace[i],
                gamma,
            ) == t[trace[i].state as int][trace[i].action as int],
    ensures
        replay(t, trace, alpha, gamma) == t,
    decreases trace.len(),
{
    if trace.len() > 0 {
        let front = trace.drop_last();
        assert forall|i: int| 0 <= i < front.len() implies fits(t, #[trigger] front[i])
            && q_learning_target(t, front[i], gamma) == t[front[i].state as int][front[i].action as int] by {
            assert(front[i] == trace[i]);
        }
        lemma_replay_at_fixed_point(t, front, alpha, gamma);
        lemma_update_at_fixed_point(t, trace.last(), alpha, gamma);
    }
}

/// The trace is what the configurations of an episode show, step by step.
pub open spec fn trace_of<E: ModelFreeEnv>(envs: Seq<E>, trace: Seq<Transition>) -> bool {
    &&& envs.len() == trace.len() + 1
    &&& forall|i: int|
        0 <= i < trace.len() ==> {
            &&& step_observed(
                envs[i],
                (#[trigger] trace[i]).state,
                trace[i].action,
                trace[i].reward,
                envs[i + 1],
            )
            &&& trace[i].next_state == envs[i + 1].spec_state_id()
        }
}

/// Every action of the trace is the greedy choice among the legal actions, by
/// the table as it stood when the action was selected: `start` with the updates
/// for the earlier steps applied.
pub open spec fn greedy_throughout<E: ModelFreeEnv>(
    start: Seq<Seq<int>>,
    envs: Seq<E>,
    trace: Seq<Transition>,
    alpha: int,
    gamma: int,
) -> bool {
    forall|i: int|
        0 <= i < trace.len() ==> (#[trigger] trace[i]).action == greedy_action(
            replay(start, trace.take(i), alpha, gamma)[trace[i].state as int],
            envs[i].spec_available_actions(),
        )
}

/// The trace of an episode grows by the step that is observed next.
pub proof fn lemma_trace_grows<E: ModelFreeEnv>(
    envs: Seq<E>,
    trace: Seq<Transition>,
    x: Transition,
    after: E,
)
    requires
        trace_of(envs, trace),
        step_observed(envs.last(), x.state, x.action, x.reward, after),
        x.next_state == after.spec_state_id(),
    ensures
        trace_of(envs.push(after), trace.push(x)),
{
    let grown = trace.push(x);
    let passed = envs.push(after);
    assert forall|i: int| 0 <= i < grown.len() implies {
        &&& step_observed(
            passed[i],
            (#[trigger] grown[i]).state,
            grown[i].action,
            grown[i].reward,
            passed[i + 1],
        )
        &&& grown[i].next_state == passed[i + 1].spec_state_id()
    } by {
        if i < trace.len() {
            assert(grown[i] == trace[i]);
        } else {
            assert(passed[i] == envs.last());
        }
    }
}

/// The sum of the rewards of a trace grows by the reward of the step that is
/// appended, and it fits into 128 bits as long as the steps can be counted.
pub proof fn lemma_rewards_grow(trace: Seq<Transition>, x: Transition)
    requires
        trace.len() < 0xffff_ffff_ffff_ffff,
    ensures
        sum_of(rewards_of(trace.push(x))) == sum_of(rewards_of(trace)) + x.reward,
        -0x8000_0000_0000_0000_0000_0000_0000_0000 <= sum_of(rewards_of(trace.push(x)))
            <= 0x7fff_ffff_ffff_ffff_ffff_ffff_ffff_ffff,
{
    let grown = trace.push(x);
    assert(rewards_of(grown).drop_last() =~= rewards_of(trace));
    lemma_sum_bounds(rewards_of(grown));
    assert(grown.len() * i64::MIN >= -0x8000_0000_0000_0000_0000_0000_0000_0000 && grown.len()
        * i64::MAX <= 0x7fff_ffff_ffff_ffff_ffff_ffff_ffff_ffff) by (nonlinear_arith)
        requires
            grown.len() <= 0xffff_ffff_ffff_ffff,
    ;
}

/// What is greedy throughout a trace stays so when a greedy step is appended.
pub proof fn lemma_greedy_grows<E: ModelFreeEnv>(
    start: Seq<Seq<int>>,
    envs: Seq<E>,
    trace: Seq<Transition>,
    x: Transition,
    after: E,
    alpha: int,
    gamma: int,
)
    requires
        envs.len() == trace.len() + 1,
        greedy_throughout(start, envs, trace, alpha, gamma),
        x.action == greedy_action(
            replay(start, trace, alpha, gamma)[x.state as int],
            envs.last().spec_available_actions(),
        ),
    ensures
        greedy_throughout(start, envs.push(after), trace.push(x), alpha, gamma),
{
    let grown = trace.push(x);
    let passed = envs.push(after);
    assert forall|i: int| 0 <= i < grown.len() implies (#[trigger] grown[i]).action == greedy_action(
        replay(start, grown.take(i), alpha, gamma)[grown[i].state as int],
        passed[i].spec_available_actions(),
    ) by {
        if i < trace.len() {
            assert(grown[i] == trace[i]);
            assert(grown.take(i) =~= trace.take(i));
        } else {
            assert(grown.take(i) =~= trace);
        }
    }
}

/// What one episode of Q-learning does: the environment passes through `envs`,
/// from a reset to a terminal configuration or to the end of the step budget;
/// `trace` is what is observed on the way; `after` is `before` with the updates
/// for `trace` applied in order; and `total_reward` is the sum of the rewards.
/// With `epsilon` at zero every action is the greedy one.
pub open spec fn is_q_learning_episode<E: ModelFreeEnv>(
    envs: Seq<E>,
    trace: Seq<Transition>,
    before: Seq<Seq<int>>,
    after: Seq<Seq<int>>,
    alpha: int,
    gamma: int,
    epsilon: int,
    max_steps: nat,
    total_reward: int,
) -> bool {
    &&& episode_of(envs, max_steps)
    &&& trace_of(envs, trace)
    &&& within(trace, E::spec_num_states(), E::spec_num_actions())
    &&& epsilon == 0 ==> greedy_throughout(before, envs, trace, alpha, gamma)
    &&& after == replay(before, trace, alpha, gamma)
    &&& total_reward == saturate(sum_of(rewards_of(trace)))
}

/// Some episode of Q-learning leads from `before` to `after` and earns
/// `total_reward`.
pub open spec fn q_learning_episode_leads<E: ModelFreeEnv>(
    before: Seq<Seq<int>>,
    after: Seq<Seq<int>>,
    alpha: int,
    gamma: int,
    epsilon: int,
    max_steps: nat,
    total_reward: int,
) -> bool {
    exists|envs: Seq<E>, trace: Seq<Transition>|
        #[trigger] is_q_learning_episode(
            envs,
            trace,
            before,
            after,
            alpha,
            gamma,
            epsilon,
            max_steps,
            total_reward,
        )
}

/// A run of episodes: `tables[k]` is the table before episode `k` and
/// `tables[k + 1]` the table after it, `totals[k]` is the reward it earns, and
/// its epsilon is that of the decay schedule in episode `k`.
pub open spec fn is_q_learning_run<E: ModelFreeEnv>(
    tables: Seq<Seq<Seq<int>>>,
    totals: Seq<int>,
    alpha: int,
    gamma: int,
    epsilon: int,
    epsilon_end: int,
    decay_episodes: int,
    max_steps: nat,
) -> bool {
    &&& tables.len() == totals.len() + 1
    &&& forall|k: int|
        0 <= k < totals.len() ==> q_learning_episode_leads::<E>(
            tables[k],
            tables[k + 1],
            alpha,
            gamma,
            spec_decay_epsilon(epsilon, epsilon_end, k, decay_episodes),
            max_steps,
            #[trigger] totals[k],
        )
}

/// Runs one episode: from a fresh environment, until the episode ends or
/// `max_steps` steps are taken, selects an action by epsilon-greedy on the current
/// state's row, steps, and applies the update for the observed transition.
/// Returns the sum of the rewards.
pub fn q_learning_episode<E: ModelFreeEnv>(
    q: &mut Vec<Vec<i64>>,
    learning_rate: u32,
    gamma: u32,
    epsilon: u32,
    max_steps: usize,
    rng: &mut ThreadRng,
) -> (total_reward: i64)
    requires
        has_shape(table_view(old(q)), E::spec_num_states(), E::spec_num_actions()),
    ensures
        has_shape(table_view(final(q)), E::spec_num_states(), E::spec_num_actions()),
        q_learning_episode_leads::<E>(
            table_view(old(q)),
            table_view(final(q)),
            learning_rate as int,
            gamma as int,
            epsilon as int,
            max_steps as nat,
            total_reward as int,
        ),
{
    let ghost start = table_view(q);
    let ghost states = E::spec_num_states();
    let ghost actions = E::spec_num_actions();
    let ghost alpha = learning_rate as int;
    let mut env = E::new();
    env.reset();
    let ghost mut envs: Seq<E> = seq![env];
    let ghost mut trace: Seq<Transition> = Seq::empty();
    let mut total: i128 = 0;
    let mut steps: usize = 0;
    assert(rewards_of(trace) =~= Seq::<int>::empty());
    while steps < max_steps && !env.is_game_over()
        invariant
            env.well_formed(),
            states == E::spec_num_states(),
            actions == E::spec_num_actions(),
            alpha == learning_rate as int,
            steps <= max_steps,
            trace.len() == steps,
            envs.len() == steps + 1,
            envs.last() == env,
            envs[0].well_formed(),
            envs[0].spec_starts(),
            trace_of(envs, trace),
            within(trace, states, actions),
            epsilon == 0 ==> greedy_throughout(start, envs, trace, alpha, gamma as int),
            has_shape(table_view(q), states, actions),
            table_view(q) == replay(start, trace, alpha, gamma as int),
            total == sum_of(rewards_of(trace)),
        decreases max_steps - steps,
    {
        let ghost before = env;
        let state = env.state_id();
        let legal = env.available_actions();
        proof {
            env.lemma_legal_actions();
        }
        assert(table_view(q)[state as int] == row_view(&q[state as int]));
        let action = epsilon_greedy(&q[state], &legal, epsilon, rng);
        let score_before = env.score();
        env.step(action);
        let reward = reward_between(score_before, env.score());
        let next_state = env.state_id();
        let x = Transition { state, action, next_state, reward };
        proof {
            assert(table_view(q)[next_state as int].len() == actions);
            lemma_update_keeps_shape(table_view(q), x, alpha, gamma as int, states, actions);
            lemma_trace_grows(envs, trace, x, env);
            lemma_rewards_grow(trace, x);
            if epsilon == 0 {
                lemma_greedy_grows(start, envs, trace, x, env, alpha, gamma as int);
            }
            assert(trace.push(x).drop_last() =~= trace);
            trace = trace.push(x);
            envs = envs.push(env);
        }
        update_q_value(q, x, learning_rate, gamma);
        total = total + reward as i128;
        steps = steps + 1;
    }
    proof {
        assert(is_q_learning_episode(
            envs,
            trace,
            start,
            table_view(q),
            alpha,
            gamma as int,
            epsilon as int,
            max_steps as nat,
            saturate(sum_of(rewards_of(trace))),
        ));
    }
    saturate_value(total)
}

/// Trains a table by Q-learning over `num_episodes` episodes and derives the
/// greedy policy from it.
///
/// Epsilon starts at `epsilon`, moves in a straight line to `epsilon_end` over
/// the first `decay_episodes` episodes and stays there; it is evaluated once per
/// episode. No episode takes more than `max_steps` steps. The reward of every
/// episode goes to `recorder`.
///
/// The table has one row per state and one column per action. The run is a
/// chain of episodes that starts from the zero table, and the table is the zero
/// table with the updates for all observed transitions applied in order.
pub fn q_learning<E: ModelFreeEnv>(
    num_episodes: usize,
    learning_rate: u32,
    gamma: u32,
    epsilon: u32,
    epsilon_end: u32,
    decay_episodes: usize,
    max_steps: usize,
    recorder: &mut MetricsRecorder,
) -> (result: (Vec<Vec<i64>>, Vec<usize>))
    requires
        old(recorder).well_formed(),
    ensures
        has_shape(table_view(&result.0), E::spec_num_states(), E::spec_num_actions()),
        is_greedy_policy(result.1@, table_view(&result.0)),
        forall|s: int| 0 <= s < result.1.len() ==> #[trigger] result.1[s] < E::spec_num_actions(),
        exists|trace: Seq<Transition>|
            {
                &&& within(trace, E::spec_num_states(), E::spec_num_actions())
                &&& table_view(&result.0) == #[trigger] replay(
                    zero_table(E::spec_num_states(), E::spec_num_actions()),
                    trace,
                    learning_rate as int,
                    gamma as int,
                )
            },
        exists|tables: Seq<Seq<Seq<int>>>|
            {
                &&& tables[0] == zero_table(E::spec_num_states(), E::spec_num_actions())
                &&& tables.last() == table_view(&result.0)
                &&& #[trigger] is_q_learning_run::<E>(
                    tables,
                    final(recorder).rewards().skip(old(recorder).rewards().len() as int),
                    learning_rate as int,
                    gamma as int,
                    epsilon as int,
                    epsilon_end as int,
                    decay_episodes as int,
                    max_steps as nat,
                )
            },
        final(recorder).well_formed(),
        final(recorder).window() == old(recorder).window(),
        final(recorder).rewards().len() == old(recorder).rewards().len() + num_episodes,
        final(recorder).rewards().take(old(recorder).rewards().len() as int) == old(
            recorder,
        ).rewards(),
{
    let ghost states = E::spec_num_states();
    let ghost actions = E::spec_num_actions();
    let ghost start = zero_table(states, actions);
    let ghost recorded = recorder.rewards();
    let ghost mut trace: Seq<Transition> = Seq::empty();
    let mut q_values = new_table(E::num_states(), E::num_actions());
    let ghost mut tables: Seq<Seq<Seq<int>>> = seq![table_view(&q_values)];
    let mut rng = rand::thread_rng();
    let mut episode: usize = 0;
    assert(recorder.rewards().take(recorded.len() as int) =~= recorded);
    assert(recorder.rewards().skip(recorded.len() as int) =~= Seq::<int>::empty());
    while episode < num_episodes
        invariant
            episode <= num_episodes,
            tables[0] == start,
            tables.last() == table_view(&q_values),
            is_q_learning_run::<E>(
                tables,
                recorder.rewards().skip(recorded.len() as int),
                learning_rate as int,
                gamma as int,
                epsilon as int,
                epsilon_end as int,
                decay_episodes as int,
                max_steps as nat,
            ),
            states == E::spec_num_states(),
            actions == E::spec_num_actions(),
            start == zero_table(states, actions),
            has_shape(table_view(&q_values), states, actions),
            within(trace, states, actions),
            table_view(&q_values) == replay(start, trace, learning_rate as int, gamma as int),
            recorder.well_formed(),
            recorder.window() == old(recorder).window(),
            recorded == old(recorder).rewards(),
            recorder.rewards().len() == recorded.len() + episode,
            recorder.rewards().take(recorded.len() as int) == recorded,
        decreases num_episodes - episode,
    {
        let current = decay_epsilon(epsilon, epsilon_end, episode, decay_episodes);
        let ghost before = table_view(&q_values);
        let ghost logged = recorder.rewards();
        let total_reward = q_learning_episode::<E>(
            &mut q_values,
            learning_rate,
            gamma,
            current,
            max_steps,
            &mut rng,
        );
        proof {
            let (envs, seen) = choose|envs: Seq<E>, seen: Seq<Transition>|
                #[trigger] is_q_learning_episode(
                    envs,
                    seen,
                    before,
                    table_view(&q_values),
                    learning_rate as int,
                    gamma as int,
                    current as int,
                    max_steps as nat,
                    total_reward as int,
                );
            lemma_replay_concat(start, trace, seen, learning_rate as int, gamma as int);
            trace = trace + seen;
        }
        recorder.record_episode(total_reward);
        proof {
            let totals = logged.skip(recorded.len() as int);
            let more = recorder.rewards().skip(recorded.len() as int);
            let chain = tables.push(table_view(&q_values));
            assert(recorder.rewards().take(recorded.len() as int) =~= logged.take(
                recorded.len() as int,
            ));
            assert(more =~= totals.push(total_reward as int));
            assert forall|k: int| 0 <= k < more.len() implies q_learning_episode_leads::<E>(
                chain[k],
                chain[k + 1],
                learning_rate as int,
                gamma as int,
                spec_decay_epsilon(epsilon as int, epsilon_end as int, k, decay_episodes as int),
                max_steps as nat,
                #[trigger] more[k],
            ) by {
                if k < totals.len() {
                    assert(more[k] == totals[k]);
                    assert(chain[k] == tables[k] && chain[k + 1] == tables[k + 1]);
                }
            }
            tables = chain;
        }
        episode = episode + 1;
    }
    let policy = derive_policy(&q_values);
    assert forall|s: int| 0 <= s < policy.len() implies #[trigger] policy[s] < actions by {
        assert(table_view(&q_values)[s] == row_view(&q_values[s]));
    }
    (q_values, policy)
}

} // verus!
