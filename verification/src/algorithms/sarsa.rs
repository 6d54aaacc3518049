//! SARSA: on-policy, one step at a time.
//!
//! The target of a step uses the estimate of the action that the exploration
//! policy chose for the next state, and that action is the one taken next. A
//! step into a terminal state has the reward alone as its target.

use crate::action_values::{
    derive_policy, has_shape, is_greedy_policy, new_table, row_view, table_view, zero_table,
};
use crate::contracts::model_free_env::{episode_of, step_observed, ModelFreeEnv};
use crate::exploration::{epsilon_greedy, greedy_action};
use crate::fixed_point::{
    bootstrap_target, lemma_sum_bounds, reward_between, saturate, saturate_value, step_toward,
    sum_of, td_step, td_target,
};
use crate::metrics::MetricsRecorder;
use rand::rngs::ThreadRng;
use vstd::prelude::*;

verus! {

/// One observed step together with what the policy decided next: in `state` the
/// agent took `action` and earned `reward`; `next` is the state it arrived in and
/// the action chosen there, or `None` where the step ended the episode.
#[derive(Clone, Copy, Debug, PartialEq, Eq)]
pub struct SarsaStep {
    pub state: usize,
    pub action: usize,
    pub reward: i64,
    pub next: Option<(usize, usize)>,
}

/// The step names cells of the table.
pub open spec fn sarsa_fits(t: Seq<Seq<int>>, x: SarsaStep) -> bool {
    &&& x.state < t.len()
    &&& x.action < t[x.state as int].len()
    &&& x.next matches Some(next) ==> next.0 < t.len() && next.1 < t[next.0 as int].len()
}

/// The target of a step: the reward plus the discounted estimate of the next
/// state and action, or the reward alone where the step ended the episode.
pub open spec fn sarsa_target(t: Seq<Seq<int>>, x: SarsaStep, gamma: int) -> int {
    match x.next {
        Some(next) => td_target(x.reward as int, gamma, t[next.0 as int][next.1 as int]),
        None => x.reward as int,
    }
}

/// The table after the update for one step:
/// `Q[s,a] += alpha * (r + gamma * Q[s',a'] - Q[s,a])`, or
/// `Q[s,a] += alpha * (r - Q[s,a])` where the step ended the episode; every other
/// cell unchanged.
pub open spec fn sarsa_update(t: Seq<Seq<int>>, x: SarsaStep, alpha: int, gamma: int) -> Seq<
    Seq<int>,
> {
    let s = x.state as int;
    let a = x.action as int;
    t.update(s, t[s].update(a, td_step(t[s][a], alpha, sarsa_target(t, x, gamma))))
}

/// The table after the updates for a trace of steps, oldest first.
pub open spec fn sarsa_replay(t: Seq<Seq<int>>, trace: Seq<SarsaStep>, alpha: int, gamma: int) -> Seq<
    Seq<int>,
>
    decreases trace.len(),
{
    if trace.len() == 0 {
        t
    } else {
        sarsa_update(sarsa_replay(t, trace.drop_last(), alpha, gamma), trace.last(), alpha, gamma)
    }
}

/// Every step of the trace lies within `states` states and `actions` actions.
pub open spec fn sarsa_within(trace: Seq<SarsaStep>, states: nat, actions: nat) -> bool {
    forall|i: int|
        0 <= i < trace.len() ==> {
            &&& (#[trigger] trace[i]).state < states
            &&& trace[i].action < actions
            &&& trace[i].next matches Some(next) ==> next.0 < states && next.1 < actions
        }
}

/// The rewards of a trace, oldest first.
pub open spec fn sarsa_rewards_of(trace: Seq<SarsaStep>) -> Seq<int> {
    Seq::new(trace.len(), |i: int| trace[i].reward as int)
}

/// The update for a step that ended the episode has no discounted term: the new
/// estimate is `Q[s,a] + alpha * (r - Q[s,a])`, whatever `gamma` is.
pub proof fn lemma_terminal_update_ignores_gamma(
    t: Seq<Seq<int>>,
    x: SarsaStep,
    alpha: int,
    gamma: int,
)
    requires
        sarsa_fits(t, x),
        x.next is None,
    ensures
        sarsa_update(t, x, alpha, gamma)[x.state as int][x.action as int] == td_step(
            t[x.state as int][x.action as int],
            alpha,
            x.reward as int,
        ),
        sarsa_update(t, x, alpha, gamma) == sarsa_update(t, x, alpha, 0),
{
}

/// An update keeps the shape of the table.
pub proof fn lemma_sarsa_update_keeps_shape(
    t: Seq<Seq<int>>,
    x: SarsaStep,
    alpha: int,
    gamma: int,
    states: nat,
    actions: nat,
)
    requires
        has_shape(t, states, actions),
        sarsa_fits(t, x),
    ensures
        has_shape(sarsa_update(t, x, alpha, gamma), states, actions),
{
    let u = sarsa_update(t, x, alpha, gamma);
    assert forall|s: int| 0 <= s < u.len() implies (#[trigger] u[s]).len() == actions by {
        assert(t[s].len() == actions);
    }
}

/// At a fixed point of a step, where the target already equals the estimate, the
/// update leaves the whole table as it is, whatever the learning rate.
pub proof fn lemma_sarsa_update_at_fixed_point(
    t: Seq<Seq<int>>,
    x: SarsaStep,
    alpha: int,
    gamma: int,
)
    requires
        sarsa_fits(t, x),
        sarsa_target(t, x, gamma) == t[x.state as int][x.action as int],
    ensures
        sarsa_update(t, x, alpha, gamma) == t,
{
    let s = x.state as int;
    let a = x.action as int;
    assert(alpha * 0 == 0);
    assert(t[s].update(a, t[s][a]) =~= t[s]);
    assert(t.update(s, t[s]) =~= t);
}

/// A table on which every step of a trace is at its fixed point comes out of the
/// replay of that trace unchanged.
pub proof fn lemma_sarsa_replay_at_fixed_point(
    t: Seq<Seq<int>>,
    trace: Seq<SarsaStep>,
    alpha: int,
    gamma: int,
)
    requires
        forall|i: int|
            0 <= i < trace.len() ==> {
                &&& sarsa_fits(t, #[trigger] trace[i])
                &&& sarsa_target(t, trace[i], gamma) == t[trace[i].state as int][trace[i].action as int]
            },
    ensures
        sarsa_replay(t, trace, alpha, gamma) == t,
    decreases trace.len(),
{
    if trace.len() > 0 {
        let front = trace.drop_last();
        assert forall|i: int| 0 <= i < front.len() implies {
            &&& sarsa_fits(t, #[trigger] front[i])
            &&& sarsa_target(t, front[i], gamma) == t[front[i].state as int][front[i].action as int]
        } by {
            assert(front[i] == trace[i]);
        }
        lemma_sarsa_replay_at_fixed_point(t, front, alpha, gamma);
        lemma_sarsa_update_at_fixed_point(t, trace.last(), alpha, gamma);
    }
}

/// Replaying one trace and then another is replaying the two joined.
pub proof fn lemma_sarsa_replay_concat(
    t: Seq<Seq<int>>,
    first: Seq<SarsaStep>,
    second: Seq<SarsaStep>,
    alpha: int,
    gamma: int,
)
    ensures
        sarsa_replay(sarsa_replay(t, first, alpha, gamma), second, alpha, gamma) == sarsa_replay(
            t,
            first + second,
            alpha,
            gamma,
        ),
    decreases second.len(),
{
    if second.len() == 0 {
        assert(first + second =~= first);
    } else {
        lemma_sarsa_replay_concat(t, first, second.drop_last(), alpha, gamma);
        assert((first + second).drop_last() =~= first + second.drop_last());
        assert((first + second).last() == second.last());
    }
}

/// Applies the update for one step to the table.
pub fn update_sarsa_value(q: &mut Vec<Vec<i64>>, x: SarsaStep, learning_rate: u32, gamma: u32)
    requires
        sarsa_fits(table_view(old(q)), x),
    ensures
        table_view(final(q)) == sarsa_update(
            table_view(old(q)),
            x,
            learning_rate as int,
            gamma as int,
        ),
{
    let ghost before = table_view(q);
    assert(before[x.state as int] == row_view(&q[x.state as int]));
    let target = match x.next {
        Some(next) => {
            assert(before[next.0 as int] == row_view(&q[next.0 as int]));
            bootstrap_target(x.reward, gamma, q[next.0][next.1])
        },
        None => x.reward,
    };
    let updated = step_toward(q[x.state][x.action], learning_rate, target);
    q[x.state][x.action] = updated;
    proof {
        let after = sarsa_update(before, x, learning_rate as int, gamma as int);
        assert(table_view(q).len() == after.len());
        assert forall|s: int| 0 <= s < after.len() implies #[trigger] table_view(q)[s] == after[s] by {
            assert(table_view(q)[s] == row_view(&q[s]));
            assert(before[s] == row_view(&old(q)[s]));
            if s == x.state {
                assert(row_view(&q[s]) =~= before[s].update(x.action as int, updated as int));
            }
        }
        assert(table_view(q) =~= after);
    }
}

/// The trace is what the configurations of an episode show, step by step: each
/// step is observed, its `next` names the state it arrives in and a legal action
/// there, or is `None` where it arrives in a terminal configuration, and the
/// action chosen for the next state is the one that the next step takes.
pub open spec fn sarsa_trace_of<E: ModelFreeEnv>(envs: Seq<E>, trace: Seq<SarsaStep>) -> bool {
    &&& envs.len() == trace.len() + 1
    &&& forall|i: int|
        0 <= i < trace.len() ==> {
            &&& step_observed(
                envs[i],
                (#[trigger] trace[i]).state,
                trace[i].action,
                trace[i].reward,
                envs[i + 1],
            )
            &&& match trace[i].next {
                Some(next) => {
                    &&& !envs[i + 1].spec_is_game_over()
                    &&& next.0 == envs[i + 1].spec_state_id()
                    &&& envs[i + 1].spec_available_actions().contains(next.1)
                },
                None => envs[i + 1].spec_is_game_over(),
            }
        }
    &&& forall|i: int|
        0 <= i < trace.len() - 1 ==> (#[trigger] trace[i]).next == Some(
            (trace[i + 1].state, trace[i + 1].action),
        )
}

/// Every action is the greedy choice among the legal actions, by the table as it
/// stood when the action was selected: the first action by `start`, and the
/// action for the state that step `i` arrives in by `start` with the updates for
/// the steps before `i` applied.
pub open spec fn sarsa_greedy_throughout<E: ModelFreeEnv>(
    start: Seq<Seq<int>>,
    envs: Seq<E>,
    trace: Seq<SarsaStep>,
    alpha: int,
    gamma: int,
) -> bool {
    &&& trace.len() > 0 ==> trace[0].action == greedy_action(
        start[trace[0].state as int],
        envs[0].spec_available_actions(),
    )
    &&& forall|i: int|
        0 <= i < trace.len() ==> ((#[trigger] trace[i]).next matches Some(next) ==> next.1
            == greedy_action(
            sarsa_replay(start, trace.take(i), alpha, gamma)[next.0 as int],
            envs[i + 1].spec_available_actions(),
        ))
}

/// The trace of an episode grows by the step that is observed next, if the step
/// takes the action that was chosen for it.
pub proof fn lemma_sarsa_trace_grows<E: ModelFreeEnv>(
    envs: Seq<E>,
    trace: Seq<SarsaStep>,
    x: SarsaStep,
    after: E,
)
    requires
        sarsa_trace_of(envs, trace),
        step_observed(envs.last(), x.state, x.action, x.reward, after),
        match x.next {
            Some(next) => {
                &&& !after.spec_is_game_over()
                &&& next.0 == after.spec_state_id()
                &&& after.spec_available_actions().contains(next.1)
            },
            None => after.spec_is_game_over(),
        },
        trace.len() > 0 ==> trace.last().next == Some((x.state, x.action)),
    ensures
        sarsa_trace_of(envs.push(after), trace.push(x)),
{
    let grown = trace.push(x);
    let passed = envs.push(after);
    assert forall|i: int| 0 <= i < grown.len() implies {
        &&& step_observed(
            passed[i],
            (#[trigger] grown[i]).state,
            grown[i].action,
            grown[i].reward,
            passed[i + 1],
        )
        &&& match grown[i].next {
            Some(next) => {
                &&& !passed[i + 1].spec_is_game_over()
                &&& next.0 == passed[i + 1].spec_state_id()
                &&& passed[i + 1].spec_available_actions().contains(next.1)
            },
            None => passed[i + 1].spec_is_game_over(),
        }
    } by {
        if i < trace.len() {
            assert(grown[i] == trace[i]);
        } else {
            assert(passed[i] == envs.last());
        }
    }
    assert forall|i: int| 0 <= i < grown.len() - 1 implies (#[trigger] grown[i]).next == Some(
        (grown[i + 1].state, grown[i + 1].action),
    ) by {
        assert(grown[i] == trace[i]);
        if i + 1 < trace.len() {
            assert(grown[i + 1] == trace[i + 1]);
        }
    }
}

/// The sum of the rewards of a trace grows by the reward of the step that is
/// appended, and it fits into 128 bits as long as the steps can be counted.
pub proof fn lemma_sarsa_rewards_grow(trace: Seq<SarsaStep>, x: SarsaStep)
    requires
        trace.len() < 0xffff_ffff_ffff_ffff,
    ensures
        sum_of(sarsa_rewards_of(trace.push(x))) == sum_of(sarsa_rewards_of(trace)) + x.reward,
        -0x8000_0000_0000_0000_0000_0000_0000_0000 <= sum_of(sarsa_rewards_of(trace.push(x)))
            <= 0x7fff_ffff_ffff_ffff_ffff_ffff_ffff_ffff,
{
    let grown = trace.push(x);
    assert(sarsa_rewards_of(grown).drop_last() =~= sarsa_rewards_of(trace));
    lemma_sum_bounds(sarsa_rewards_of(grown));
    assert(grown.len() * i64::MIN >= -0x8000_0000_0000_0000_0000_0000_0000_0000 && grown.len()
        * i64::MAX <= 0x7fff_ffff_ffff_ffff_ffff_ffff_ffff_ffff) by (nonlinear_arith)
        requires
            grown.len() <= 0xffff_ffff_ffff_ffff,
    ;
}

/// What is greedy throughout a trace stays so when a step is appended whose own
/// action, if it is the first, and whose chosen next action are greedy.
pub proof fn lemma_sarsa_greedy_grows<E: ModelFreeEnv>(
    start: Seq<Seq<int>>,
    envs: Seq<E>,
    trace: Seq<SarsaStep>,
    x: SarsaStep,
    after: E,
    alpha: int,
    gamma: int,
)
    requires
        envs.len() == trace.len() + 1,
        sarsa_greedy_throughout(start, envs, trace, alpha, gamma),
        trace.len() == 0 ==> x.action == greedy_action(
            start[x.state as int],
            envs[0].spec_available_actions(),
        ),
        x.next matches Some(next) ==> next.1 == greedy_action(
            sarsa_replay(start, trace, alpha, gamma)[next.0 as int],
            after.spec_available_actions(),
        ),
    ensures
        sarsa_greedy_throughout(start, envs.push(after), trace.push(x), alpha, gamma),
{
    let grown = trace.push(x);
    let passed = envs.push(after);
    if trace.len() > 0 {
        assert(grown[0] == trace[0]);
    }
    assert forall|i: int| 0 <= i < grown.len() implies ((#[trigger] grown[i]).next matches Some(
        next,
    ) ==> next.1 == greedy_action(
        sarsa_replay(start, grown.take(i), alpha, gamma)[next.0 as int],
        passed[i + 1].spec_available_actions(),
    )) by {
        if i < trace.len() {
            assert(grown[i] == trace[i]);
            assert(grown.take(i) =~= trace.take(i));
        } else {
            assert(grown.take(i) =~= trace);
        }
    }
}

/// What one episode of SARSA does: the environment passes through `envs`, from
/// a reset to a terminal configuration or to the end of the step budget; `trace`
/// is what is observed and chosen on the way; `after` is `before` with the
/// updates for `trace` applied in order; and `total_reward` is the sum of the
/// rewards. With `epsilon` at zero every action is the greedy one.
pub open spec fn is_sarsa_episode<E: ModelFreeEnv>(
    envs: Seq<E>,
    trace: Seq<SarsaStep>,
    before: Seq<Seq<int>>,
    after: Seq<Seq<int>>,
    alpha: int,
    gamma: int,
    epsilon: int,
    max_steps: nat,
    total_reward: int,
) -> bool {
    &&& episode_of(envs, max_steps)
    &&& sarsa_trace_of(envs, trace)
    &&& sarsa_within(trace, E::spec_num_states(), E::spec_num_actions())
    &&& epsilon == 0 ==> sarsa_greedy_throughout(before, envs, trace, alpha, gamma)
    &&& after == sarsa_replay(before, trace, alpha, gamma)
    &&& total_reward == saturate(sum_of(sarsa_rewards_of(trace)))
}

/// Some episode of SARSA leads from `before` to `after` and earns
/// `total_reward`.
pub open spec fn sarsa_episode_leads<E: ModelFreeEnv>(
    before: Seq<Seq<int>>,
    after: Seq<Seq<int>>,
    alpha: int,
    gamma: int,
    epsilon: int,
    max_steps: nat,
    total_reward: int,
) -> bool {
    exists|envs: Seq<E>, trace: Seq<SarsaStep>|
        #[trigger] is_sarsa_episode(
            envs,
            trace,
            before,
            after,
            alpha,
            gamma,
            epsilon,
            max_steps,
            total_reward,
        )
}

/// A run of episodes with a constant epsilon: `tables[k]` is the table before
/// episode `k` and `tables[k + 1]` the table after it, and `totals[k]` is the
/// reward it earns.
pub open spec fn is_sarsa_run<E: ModelFreeEnv>(
    tables: Seq<Seq<Seq<int>>>,
    totals: Seq<int>,
    alpha: int,
    gamma: int,
    epsilon: int,
    max_steps: nat,
) -> bool {
    &&& tables.len() == totals.len() + 1
    &&& forall|k: int|
        0 <= k < totals.len() ==> sarsa_episode_leads::<E>(
            tables[k],
            tables[k + 1],
            alpha,
            gamma,
            epsilon,
            max_steps,
            #[trigger] totals[k],
        )
}

/// Runs one episode: from a fresh environment, selects the first action once,
/// then, until the episode ends or `max_steps` steps are taken, steps, selects
/// the action for the state it arrives in, applies the update with that
/// action's estimate, and carries the action over to the next step. A step that
/// ends the episode is updated toward its reward alone, and nothing is selected
/// in the terminal state. Returns the sum of the rewards.
pub fn sarsa_episode<E: ModelFreeEnv>(
    q: &mut Vec<Vec<i64>>,
    learning_rate: u32,
    gamma: u32,
    epsilon: u32,
    max_steps: usize,
    rng: &mut ThreadRng,
) -> (total_reward: i64)
    requires
        has_shape(table_view(old(q)), E::spec_num_states(), E::spec_num_actions()),
    ensures
        has_shape(table_view(final(q)), E::spec_num_states(), E::spec_num_actions()),
        sarsa_episode_leads::<E>(
            table_view(old(q)),
            table_view(final(q)),
            learning_rate as int,
            gamma as int,
            epsilon as int,
            max_steps as nat,
            total_reward as int,
        ),
{
    let ghost start = table_view(q);
    let ghost states = E::spec_num_states();
    let ghost actions = E::spec_num_actions();
    let ghost alpha = learning_rate as int;
    let mut env = E::new();
    env.reset();
    let ghost mut envs: Seq<E> = seq![env];
    let ghost mut trace: Seq<SarsaStep> = Seq::empty();
    let mut total: i128 = 0;
    assert(sarsa_rewards_of(trace) =~= Seq::<int>::empty());
    if env.is_game_over() {
        assert(is_sarsa_episode(
            envs,
            trace,
            start,
            table_view(q),
            alpha,
            gamma as int,
            epsilon as int,
            max_steps as nat,
            0,
        ));
        return 0;
    }
    let mut state = env.state_id();
    let legal = env.available_actions();
    proof {
        env.lemma_legal_actions();
    }
    assert(table_view(q)[state as int] == row_view(&q[state as int]));
    let mut action = epsilon_greedy(&q[state], &legal, epsilon, rng);
    let mut steps: usize = 0;
    while steps < max_steps
        invariant_except_break
            !env.spec_is_game_over(),
            env.spec_available_actions().contains(action),
            state == env.spec_state_id(),
            trace.len() > 0 ==> trace.last().next == Some((state, action)),
            epsilon == 0 && trace.len() == 0 ==> action == greedy_action(
                start[state as int],
                envs[0].spec_available_actions(),
            ),
        invariant
            env.well_formed(),
            states == E::spec_num_states(),
            actions == E::spec_num_actions(),
            alpha == learning_rate as int,
            steps <= max_steps,
            trace.len() == steps,
            envs.len() == steps + 1,
            envs.last() == env,
            envs[0].well_formed(),
            envs[0].spec_starts(),
            state < states,
            action < actions,
            sarsa_trace_of(envs, trace),
            sarsa_within(trace, states, actions),
            epsilon == 0 ==> sarsa_greedy_throughout(start, envs, trace, alpha, gamma as int),
            has_shape(table_view(q), states, actions),
            table_view(q) == sarsa_replay(start, trace, alpha, gamma as int),
            total == sum_of(sarsa_rewards_of(trace)),
        ensures
            steps == max_steps || env.spec_is_game_over(),
        decreases max_steps - steps,
    {
        let ghost before = env;
        let score_before = env.score();
        env.step(action);
        let reward = reward_between(score_before, env.score());
        let next_state = env.state_id();
        let over = env.is_game_over();
        let mut next_action: usize = 0;
        if !over {
            let next_legal = env.available_actions();
            proof {
                env.lemma_legal_actions();
            }
            assert(table_view(q)[next_state as int] == row_view(&q[next_state as int]));
            next_action = epsilon_greedy(&q[next_state], &next_legal, epsilon, rng);
        }
        let x = SarsaStep {
            state,
            action,
            reward,
            next: if over {
                None
            } else {
                Some((next_state, next_action))
            },
        };
        proof {
            assert(table_view(q)[state as int].len() == actions);
            assert(table_view(q)[next_state as int].len() == actions);
            lemma_sarsa_update_keeps_shape(table_view(q), x, alpha, gamma as int, states, actions);
            lemma_sarsa_trace_grows(envs, trace, x, env);
            lemma_sarsa_rewards_grow(trace, x);
            if epsilon == 0 {
                lemma_sarsa_greedy_grows(start, envs, trace, x, env, alpha, gamma as int);
            }
            assert(trace.push(x).drop_last() =~= trace);
            trace = trace.push(x);
            envs = envs.push(env);
        }
        update_sarsa_value(q, x, learning_rate, gamma);
        total = total + reward as i128;
        steps = steps + 1;
        if over {
            break;
        }
        state = next_state;
        action = next_action;
    }
    proof {
        assert(is_sarsa_episode(
            envs,
            trace,
            start,
            table_view(q),
            alpha,
            gamma as int,
            epsilon as int,
            max_steps as nat,
            saturate(sum_of(sarsa_rewards_of(trace))),
        ));
    }
    saturate_value(total)
}

/// Trains a table by SARSA over `num_episodes` episodes with a constant
/// `epsilon` and derives the greedy policy from it. No episode takes more than
/// `max_steps` steps. The reward of every episode goes to `recorder`.
///
/// The table has one row per state and one column per action. The run is a
/// chain of episodes that starts from the zero table, and the table is the zero
/// table with the updates for all observed steps applied in order.
pub fn sarsa<E: ModelFreeEnv>(
    num_episodes: usize,
    learning_rate: u32,
    gamma: u32,
    epsilon: u32,
    max_steps: usize,
    recorder: &mut MetricsRecorder,
) -> (result: (Vec<Vec<i64>>, Vec<usize>))
    requires
        old(recorder).well_formed(),
    ensures
        has_shape(table_view(&result.0), E::spec_num_states(), E::spec_num_actions()),
        is_greedy_policy(result.1@, table_view(&result.0)),
        forall|s: int| 0 <= s < result.1.len() ==> #[trigger] result.1[s] < E::spec_num_actions(),
        exists|trace: Seq<SarsaStep>|
            {
                &&& sarsa_within(trace, E::spec_num_states(), E::spec_num_actions())
                &&& table_view(&result.0) == #[trigger] sarsa_replay(
                    zero_table(E::spec_num_states(), E::spec_num_actions()),
                    trace,
                    learning_rate as int,
                    gamma as int,
                )
            },
        exists|tables: Seq<Seq<Seq<int>>>|
            {
                &&& tables[0] == zero_table(E::spec_num_states(), E::spec_num_actions())
                &&& tables.last() == table_view(&result.0)
                &&& #[trigger] is_sarsa_run::<E>(
                    tables,
                    final(recorder).rewards().skip(old(recorder).rewards().len() as int),
                    learning_rate as int,
                    gamma as int,
                    epsilon as int,
                    max_steps as nat,
                )
            },
        final(recorder).well_formed(),
        final(recorder).window() == old(recorder).window(),
        final(recorder).rewards().len() == old(recorder).rewards().len() + num_episodes,
        final(recorder).rewards().take(old(recorder).rewards().len() as int) == old(
            recorder,
        ).rewards(),
{
    let ghost states = E::spec_num_states();
    let ghost actions = E::spec_num_actions();
    let ghost start = zero_table(states, actions);
    let ghost recorded = recorder.rewards();
    let ghost mut trace: Seq<SarsaStep> = Seq::empty();
    let mut q_values = new_table(E::num_states(), E::num_actions());
    let ghost mut tables: Seq<Seq<Seq<int>>> = seq![table_view(&q_values)];
    let mut rng = rand::thread_rng();
    let mut episode: usize = 0;
    assert(recorder.rewards().take(recorded.len() as int) =~= recorded);
    assert(recorder.rewards().skip(recorded.len() as int) =~= Seq::<int>::empty());
    while episode < num_episodes
        invariant
            episode <= num_episodes,
            tables[0] == start,
            tables.last() == table_view(&q_values),
            is_sarsa_run::<E>(
                tables,
                recorder.rewards().skip(recorded.len() as int),
                learning_rate as int,
                gamma as int,
                epsilon as int,
                max_steps as nat,
            ),
            states == E::spec_num_states(),
            actions == E::spec_num_actions(),
            start == zero_table(states, actions),
            has_shape(table_view(&q_values), states, actions),
            sarsa_within(trace, states, actions),
            table_view(&q_values) == sarsa_replay(start, trace, learning_rate as int, gamma as int),
            recorder.well_formed(),
            recorder.window() == old(recorder).window(),
            recorded == old(recorder).rewards(),
            recorder.rewards().len() == recorded.len() + episode,
            recorder.rewards().take(recorded.len() as int) == recorded,
        decreases num_episodes - episode,
    {
        let ghost before = table_view(&q_values);
        let ghost logged = recorder.rewards();
        let total_reward = sarsa_episode::<E>(
            &mut q_values,
            learning_rate,
            gamma,
            epsilon,
            max_steps,
            &mut rng,
        );
        proof {
            let (envs, seen) = choose|envs: Seq<E>, seen: Seq<SarsaStep>|
                #[trigger] is_sarsa_episode(
                    envs,
                    seen,
                    before,
                    table_view(&q_values),
                    learning_rate as int,
                    gamma as int,
                    epsilon as int,
                    max_steps as nat,
                    total_reward as int,
                );
            lemma_sarsa_replay_concat(start, trace, seen, learning_rate as int, gamma as int);
            trace = trace + seen;
        }
        recorder.record_episode(total_reward);
        proof {
            let totals = logged.skip(recorded.len() as int);
            let more = recorder.rewards().skip(recorded.len() as int);
            let chain = tables.push(table_view(&q_values));
            assert(recorder.rewards().take(recorded.len() as int) =~= logged.take(
                recorded.len() as int,
            ));
            assert(more =~= totals.push(total_reward as int));
            assert forall|k: int| 0 <= k < more.len() implies sarsa_episode_leads::<E>(
                chain[k],
                chain[k + 1],
                learning_rate as int,
                gamma as int,
                epsilon as int,
                max_steps as nat,
                #[trigger] more[k],
            ) by {
                if k < totals.len() {
                    assert(more[k] == totals[k]);
                    assert(chain[k] == tables[k] && chain[k + 1] == tables[k + 1]);
                }
            }
            tables = chain;
        }
        episode = episode + 1;
    }
    let policy = derive_policy(&q_values);
    assert forall|s: int| 0 <= s < policy.len() implies #[trigger] policy[s] < actions by {
        assert(table_view(&q_values)[s] == row_view(&q_values[s]));
    }
    (q_values, policy)
}

} // verus!
