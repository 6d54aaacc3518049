//! First-visit Monte Carlo control with tables that grow on demand.
//!
//! The agent runs a whole episode under its exploration policy, then walks the
//! episode backward with a running discounted return. For each state and action
//! it records the return of the first step it meets on that walk, which is the
//! last one in time, and sets the estimate to the mean of all returns recorded
//! for the pair so far.

use crate::action_values::{
    derive_policy, has_shape, is_greedy_policy, row_view, table_view, zero_table,
};
use crate::contracts::model_free_env::{episode_of, step_observed, ModelFreeEnv};
use crate::exploration::{
    epsilon_greedy, greedy_action, is_best_among, spec_explores, spec_select_action,
};
use crate::fixed_point::{
    bootstrap_target, int_values, lemma_sum_bounds, reward_between, sum_of, td_target, trunc_div,
    SCALE,
};
use std::collections::HashSet;
use vstd::prelude::*;

verus! {

/// The returns recorded for each state and action.
pub open spec fn returns_view(recorded_returns: &Vec<Vec<Vec<i64>>>) -> Seq<Seq<Seq<int>>> {
    Seq::new(
        recorded_returns.len() as nat,
        |s: int|
            Seq::new(
                recorded_returns[s].len() as nat,
                |a: int| int_values(recorded_returns[s][a]@),
            ),
    )
}

/// The arithmetic mean of the recorded returns, rounded toward zero; zero where
/// nothing is recorded.
pub open spec fn mean(values: Seq<int>) -> int {
    if values.len() == 0 {
        0
    } else {
        trunc_div(sum_of(values), values.len() as int)
    }
}

/// The table of estimates that belongs to a table of returns: each estimate is
/// the mean of the returns of its cell.
pub open spec fn means_of(recorded_returns: Seq<Seq<Seq<int>>>) -> Seq<Seq<int>> {
    Seq::new(
        recorded_returns.len(),
        |s: int| Seq::new(recorded_returns[s].len(), |a: int| mean(recorded_returns[s][a])),
    )
}

/// A row brought to `len` cells: cut off behind them, or filled up with `blank`.
pub open spec fn resized<T>(row: Seq<T>, len: nat, blank: T) -> Seq<T> {
    Seq::new(
        len,
        |a: int|
            if a < row.len() {
                row[a]
            } else {
                blank
            },
    )
}

/// A table brought to at least `rows` rows by appending empty ones.
pub open spec fn with_rows<T>(table: Seq<Seq<T>>, rows: nat) -> Seq<Seq<T>> {
    Seq::new(
        if rows > table.len() {
            rows
        } else {
            table.len()
        },
        |s: int|
            if s < table.len() {
                table[s]
            } else {
                Seq::empty()
            },
    )
}

/// A table after the row of `state` was brought to exactly `actions` cells: rows
/// are appended up to `state`, and its row grows or is cut off.
pub open spec fn resized_for<T>(table: Seq<Seq<T>>, state: nat, actions: nat, blank: T) -> Seq<
    Seq<T>,
> {
    let grown = with_rows(table, state + 1);
    grown.update(state as int, resized(grown[state as int], actions, blank))
}

/// A table grown, and never cut, so that it has a cell for `state` and `action`.
pub open spec fn fitted<T>(table: Seq<Seq<T>>, state: nat, action: nat, blank: T) -> Seq<Seq<T>> {
    let grown = with_rows(table, state + 1);
    if action < grown[state as int].len() {
        grown
    } else {
        grown.update(state as int, resized(grown[state as int], action + 1, blank))
    }
}

/// The returns after `goal` was recorded for `state` and `action`.
pub open spec fn recorded(recorded_returns: Seq<Seq<Seq<int>>>, state: nat, action: nat, goal: int) -> Seq<
    Seq<Seq<int>>,
> {
    let grown = fitted(recorded_returns, state, action, Seq::<int>::empty());
    let s = state as int;
    let a = action as int;
    grown.update(s, grown[s].update(a, grown[s][a].push(goal)))
}

/// The returns recorded for a state and action; none where the table has no
/// cell for them.
pub open spec fn cell(recorded_returns: Seq<Seq<Seq<int>>>, state: nat, action: nat) -> Seq<int> {
    if state < recorded_returns.len() && action < recorded_returns[state as int].len() {
        recorded_returns[state as int][action as int]
    } else {
        Seq::empty()
    }
}

/// The discounted return of an episode from its first step on:
/// `G = reward + gamma * G'`, where `G'` is the return of the steps that follow.
pub open spec fn episode_return(steps: Seq<(usize, usize, i64)>, gamma: int) -> int
    decreases steps.len(),
{
    if steps.len() == 0 {
        0
    } else {
        td_target(steps[0].2 as int, gamma, episode_return(steps.skip(1), gamma))
    }
}

/// Whether some step of the episode takes `action` in `state`.
pub open spec fn visits(steps: Seq<(usize, usize, i64)>, state: usize, action: usize) -> bool {
    exists|i: int| 0 <= i < steps.len() && (#[trigger] steps[i]).0 == state && steps[i].1 == action
}

/// The returns after an episode: the later steps are recorded first, and the
/// first step is recorded, with the return of the whole episode, unless a later
/// step visits its state and action again.
pub open spec fn after_episode(
    recorded_returns: Seq<Seq<Seq<int>>>,
    steps: Seq<(usize, usize, i64)>,
    gamma: int,
) -> Seq<Seq<Seq<int>>>
    decreases steps.len(),
{
    if steps.len() == 0 {
        recorded_returns
    } else {
        let later = after_episode(recorded_returns, steps.skip(1), gamma);
        if visits(steps.skip(1), steps[0].0, steps[0].1) {
            later
        } else {
            recorded(later, steps[0].0 as nat, steps[0].1 as nat, episode_return(steps, gamma))
        }
    }
}

/// Recording a return appends it to the cell of its state and action and leaves
/// the returns of every other state and action as they are.
pub proof fn lemma_recorded_cell(
    recorded_returns: Seq<Seq<Seq<int>>>,
    state: nat,
    action: nat,
    goal: int,
    s: nat,
    a: nat,
)
    ensures
        cell(recorded(recorded_returns, state, action, goal), s, a) == if s == state && a == action {
            cell(recorded_returns, s, a).push(goal)
        } else {
            cell(recorded_returns, s, a)
        },
{
}

/// An episode leaves the returns of a state and action that it never visits as
/// they are.
pub proof fn lemma_unvisited_cell(
    recorded_returns: Seq<Seq<Seq<int>>>,
    steps: Seq<(usize, usize, i64)>,
    gamma: int,
    state: usize,
    action: usize,
)
    requires
        !visits(steps, state, action),
    ensures
        cell(after_episode(recorded_returns, steps, gamma), state as nat, action as nat) == cell(
            recorded_returns,
            state as nat,
            action as nat,
        ),
    decreases steps.len(),
{
    if steps.len() > 0 {
        let rest = steps.skip(1);
        assert(!visits(rest, state, action)) by {
            if visits(rest, state, action) {
                let i = choose|i: int|
                    0 <= i < rest.len() && (#[trigger] rest[i]).0 == state && rest[i].1 == action;
                assert(steps[i + 1] == rest[i]);
            }
        }
        lemma_unvisited_cell(recorded_returns, rest, gamma, state, action);
        let later = after_episode(recorded_returns, rest, gamma);
        assert(!(steps[0].0 == state && steps[0].1 == action));
        lemma_recorded_cell(
            later,
            steps[0].0 as nat,
            steps[0].1 as nat,
            episode_return(steps, gamma),
            state as nat,
            action as nat,
        );
    }
}

/// The first-visit rule: however often an episode visits a state and action,
/// it records one return for them, the one that starts at the last visit in
/// time.
pub proof fn lemma_only_last_visit_is_recorded(
    recorded_returns: Seq<Seq<Seq<int>>>,
    steps: Seq<(usize, usize, i64)>,
    gamma: int,
    last: int,
)
    requires
        0 <= last < steps.len(),
        forall|j: int|
            last < j < steps.len() ==> !((#[trigger] steps[j]).0 == steps[last].0 && steps[j].1
                == steps[last].1),
    ensures
        cell(after_episode(recorded_returns, steps, gamma), steps[last].0 as nat, steps[last].1 as nat)
            == cell(recorded_returns, steps[last].0 as nat, steps[last].1 as nat).push(
            episode_return(steps.skip(last), gamma),
        ),
    decreases steps.len(),
{
    let state = steps[last].0;
    let action = steps[last].1;
    let rest = steps.skip(1);
    let later = after_episode(recorded_returns, rest, gamma);
    if last == 0 {
        assert(!visits(rest, state, action)) by {
            if visits(rest, state, action) {
                let i = choose|i: int|
                    0 <= i < rest.len() && (#[trigger] rest[i]).0 == state && rest[i].1 == action;
                assert(steps[i + 1] == rest[i]);
            }
        }
        lemma_unvisited_cell(recorded_returns, rest, gamma, state, action);
        lemma_recorded_cell(
            later,
            state as nat,
            action as nat,
            episode_return(steps, gamma),
            state as nat,
            action as nat,
        );
        assert(steps.skip(0) =~= steps);
    } else {
        assert(rest[last - 1] == steps[last]);
        assert forall|j: int| last - 1 < j < rest.len() implies !((#[trigger] rest[j]).0 == rest[last
            - 1].0 && rest[j].1 == rest[last - 1].1) by {
            assert(rest[j] == steps[j + 1]);
        }
        lemma_only_last_visit_is_recorded(recorded_returns, rest, gamma, last - 1);
        assert(rest.skip(last - 1) =~= steps.skip(last));
        if !visits(rest, steps[0].0, steps[0].1) {
            assert(!(steps[0].0 == state && steps[0].1 == action)) by {
                if steps[0].0 == state && steps[0].1 == action {
                    assert(rest[last - 1].0 == steps[0].0 && rest[last - 1].1 == steps[0].1);
                }
            }
            lemma_recorded_cell(
                later,
                steps[0].0 as nat,
                steps[0].1 as nat,
                episode_return(steps, gamma),
                state as nat,
                action as nat,
            );
        }
    }
}

/// One number for a state and an action, different for different pairs.
pub open spec fn pair_key(state: usize, action: usize) -> u128 {
    (state * 0x1_0000_0000_0000_0000 + action) as u128
}

/// Different pairs of a state and an action have different keys.
pub proof fn lemma_pair_key_is_injective(s1: usize, a1: usize, s2: usize, a2: usize)
    ensures
        pair_key(s1, a1) == pair_key(s2, a2) <==> s1 == s2 && a1 == a2,
{
}

/// The key of a state and an action.
fn key_of(state: usize, action: usize) -> (key: u128)
    ensures
        key == pair_key(state, action),
{
    (state as u128) * 0x1_0000_0000_0000_0000 + (action as u128)
}

/// Appends empty rows to both tables until they have a row for `state`.
fn grow_rows(q_value: &mut Vec<Vec<i64>>, recorded_returns: &mut Vec<Vec<Vec<i64>>>, state: usize)
    requires
        old(q_value).len() == old(recorded_returns).len(),
    ensures
        final(q_value).len() == final(recorded_returns).len(),
        final(q_value).len() == if state >= old(q_value).len() {
            state + 1
        } else {
            old(q_value).len() as int
        },
        forall|s: int| 0 <= s < old(q_value).len() ==> #[trigger] final(q_value)[s] == old(q_value)[s],
        forall|s: int|
            0 <= s < old(q_value).len() ==> #[trigger] final(recorded_returns)[s] == old(recorded_returns)[s],
        forall|s: int|
            old(q_value).len() <= s < final(q_value).len() ==> (#[trigger] final(q_value)[s]).len()
                == 0,
        forall|s: int|
            old(q_value).len() <= s < final(q_value).len() ==> (#[trigger] final(
                recorded_returns
            )[s]).len() == 0,
{
    while q_value.len() <= state
        invariant
            q_value.len() == recorded_returns.len(),
            old(q_value).len() <= q_value.len(),
            q_value.len() <= state + 1 || q_value.len() == old(q_value).len(),
            forall|s: int| 0 <= s < old(q_value).len() ==> #[trigger] q_value[s] == old(q_value)[s],
            forall|s: int|
                0 <= s < old(q_value).len() ==> #[trigger] recorded_returns[s] == old(recorded_returns)[s],
            forall|s: int| old(q_value).len() <= s < q_value.len() ==> (#[trigger] q_value[s]).len() == 0,
            forall|s: int|
                old(q_value).len() <= s < q_value.len() ==> (#[trigger] recorded_returns[s]).len()
                    == 0,
        decreases state + 1 - q_value.len(),
    {
        q_value.push(Vec::new());
        recorded_returns.push(Vec::new());
    }
}

/// Appends zero estimates and empty lists of returns to one row of both tables
/// until it has a cell for `action`.
fn grow_row(row: &mut Vec<i64>, recorded_row: &mut Vec<Vec<i64>>, action: usize)
    requires
        old(row).len() == old(recorded_row).len(),
    ensures
        final(row).len() == final(recorded_row).len(),
        final(row).len() == if action >= old(row).len() {
            action + 1
        } else {
            old(row).len() as int
        },
        forall|a: int| 0 <= a < old(row).len() ==> #[trigger] final(row)[a] == old(row)[a],
        forall|a: int|
            0 <= a < old(row).len() ==> #[trigger] final(recorded_row)[a] == old(recorded_row)[a],
        forall|a: int| old(row).len() <= a < final(row).len() ==> #[trigger] final(row)[a] == 0,
        forall|a: int|
            old(row).len() <= a < final(row).len() ==> (#[trigger] final(recorded_row)[a]).len() == 0,
{
    while row.len() <= action
        invariant
            row.len() == recorded_row.len(),
            old(row).len() <= row.len(),
            row.len() <= action + 1 || row.len() == old(row).len(),
            forall|a: int| 0 <= a < old(row).len() ==> #[trigger] row[a] == old(row)[a],
            forall|a: int|
                0 <= a < old(row).len() ==> #[trigger] recorded_row[a] == old(recorded_row)[a],
            forall|a: int| old(row).len() <= a < row.len() ==> #[trigger] row[a] == 0,
            forall|a: int| old(row).len() <= a < row.len() ==> (#[trigger] recorded_row[a]).len() == 0,
        decreases action + 1 - row.len(),
    {
        row.push(0);
        recorded_row.push(Vec::new());
    }
}

/// Brings one row of both tables to exactly `len` cells: cuts it off behind them,
/// or fills it up with zero estimates and empty lists of returns.
fn resize_row(row: &mut Vec<i64>, recorded_row: &mut Vec<Vec<i64>>, len: usize)
    requires
        old(row).len() == old(recorded_row).len(),
    ensures
        final(row).len() == len,
        final(recorded_row).len() == len,
        forall|a: int| 0 <= a < len && a < old(row).len() ==> #[trigger] final(row)[a] == old(row)[a],
        forall|a: int|
            0 <= a < len && a < old(row).len() ==> #[trigger] final(recorded_row)[a] == old(recorded_row)[a],
        forall|a: int| old(row).len() <= a < len ==> #[trigger] final(row)[a] == 0,
        forall|a: int| old(row).len() <= a < len ==> (#[trigger] final(recorded_row)[a]).len() == 0,
{
    if row.len() > len {
        row.truncate(len);
        recorded_row.truncate(len);
    } else {
        while row.len() < len
            invariant
                row.len() == recorded_row.len(),
                old(row).len() <= row.len() <= len,
                forall|a: int| 0 <= a < old(row).len() ==> #[trigger] row[a] == old(row)[a],
                forall|a: int|
                    0 <= a < old(row).len() ==> #[trigger] recorded_row[a] == old(recorded_row)[a],
                forall|a: int| old(row).len() <= a < row.len() ==> #[trigger] row[a] == 0,
                forall|a: int|
                    old(row).len() <= a < row.len() ==> (#[trigger] recorded_row[a]).len() == 0,
            decreases len - row.len(),
        {
            row.push(0);
            recorded_row.push(Vec::new());
        }
    }
}

/// The mean of the returns in a cell that is not empty.
pub fn mean_of(values: &Vec<i64>) -> (average: i64)
    requires
        values.len() > 0,
    ensures
        average == mean(int_values(values@)),
{
    let ghost all = int_values(values@);
    let mut total: i128 = 0;
    let mut i: usize = 0;
    while i < values.len()
        invariant
            i <= values.len(),
            all == int_values(values@),
            total == sum_of(all.take(i as int)),
        decreases values.len() - i,
    {
        proof {
            let next = all.take(i + 1);
            assert(next.drop_last() =~= all.take(i as int));
            lemma_sum_bounds(next);
            assert(next.len() * i64::MIN >= -0x8000_0000_0000_0000_0000_0000_0000_0000 && next.len()
                * i64::MAX <= 0x7fff_ffff_ffff_ffff_ffff_ffff_ffff_ffff) by (nonlinear_arith)
                requires
                    next.len() <= 0xffff_ffff_ffff_ffff,
            ;
        }
        total = total + values[i] as i128;
        i = i + 1;
    }
    proof {
        assert(all.take(values.len() as int) =~= all);
        lemma_sum_bounds(all);
        lemma_mean_in_range(all);
    }
    (total / (values.len() as i128)) as i64
}

/// The mean of values is a value.
pub proof fn lemma_mean_in_range(values: Seq<int>)
    requires
        forall|i: int| 0 <= i < values.len() ==> i64::MIN <= #[trigger] values[i] <= i64::MAX,
    ensures
        i64::MIN <= mean(values) <= i64::MAX,
{
    if values.len() > 0 {
        lemma_sum_bounds(values);
        let n = values.len() as int;
        let total = sum_of(values);
        if total >= 0 {
            assert(0 <= total / n <= i64::MAX) by (nonlinear_arith)
                requires
                    n > 0,
                    0 <= total <= n * i64::MAX,
            ;
        } else {
            let back = -total;
            assert(0 <= back / n <= -i64::MIN) by (nonlinear_arith)
                requires
                    n > 0,
                    0 <= back <= n * (-i64::MIN),
            ;
        }
    }
}

/// Every step of the episode lies within `states` states and `actions` actions.
pub open spec fn episode_within(steps: Seq<(usize, usize, i64)>, states: nat, actions: nat) -> bool {
    forall|i: int| 0 <= i < steps.len() ==> (#[trigger] steps[i]).0 < states && steps[i].1 < actions
}

/// The steps are what the configurations of an episode show, one by one.
pub open spec fn episode_trace_of<E: ModelFreeEnv>(
    envs: Seq<E>,
    steps: Seq<(usize, usize, i64)>,
) -> bool {
    &&& envs.len() == steps.len() + 1
    &&& forall|i: int|
        0 <= i < steps.len() ==> step_observed(
            envs[i],
            (#[trigger] steps[i]).0,
            steps[i].1,
            steps[i].2,
            envs[i + 1],
        )
}

/// The returns after the resizes of an episode: for each step, in order, the
/// row of the state the step starts in and then the row of the state it arrives
/// in are brought to the number of actions. An episode without a step resizes
/// nothing.
pub open spec fn resized_through<E: ModelFreeEnv>(
    recorded_returns: Seq<Seq<Seq<int>>>,
    envs: Seq<E>,
) -> Seq<Seq<Seq<int>>>
    decreases envs.len(),
{
    if envs.len() <= 1 {
        recorded_returns
    } else {
        let front = envs.drop_last();
        resized_for(
            resized_for(
                resized_through(recorded_returns, front),
                front.last().spec_state_id(),
                E::spec_num_actions(),
                Seq::<int>::empty(),
            ),
            envs.last().spec_state_id(),
            E::spec_num_actions(),
            Seq::<int>::empty(),
        )
    }
}

/// The estimates by which step `i` of an episode selects its action: those that
/// belong to the returns after the resizes of the steps before it and the
/// resize of the row of its own state.
pub open spec fn estimates_at<E: ModelFreeEnv>(
    recorded_returns: Seq<Seq<Seq<int>>>,
    envs: Seq<E>,
    i: int,
) -> Seq<Seq<int>> {
    means_of(
        resized_for(
            resized_through(recorded_returns, envs.take(i + 1)),
            envs[i].spec_state_id(),
            E::spec_num_actions(),
            Seq::<int>::empty(),
        ),
    )
}

/// Every action of the episode is the greedy choice among the legal actions, by
/// the estimates at the time.
pub open spec fn episode_is_greedy<E: ModelFreeEnv>(
    recorded_returns: Seq<Seq<Seq<int>>>,
    envs: Seq<E>,
    steps: Seq<(usize, usize, i64)>,
) -> bool {
    forall|i: int|
        0 <= i < steps.len() ==> (#[trigger] steps[i]).1 == greedy_action(
            estimates_at(recorded_returns, envs, i)[steps[i].0 as int],
            envs[i].spec_available_actions(),
        )
}

/// What generating an episode does: the environment passes through `envs`, from
/// a reset to a terminal configuration or to the end of the step budget; `steps`
/// is what is observed on the way; every state met lies within the states; and
/// `after` is `before` with the rows of the states met resized in order. With
/// `epsilon` at zero every action is the greedy one.
pub open spec fn is_generated_episode<E: ModelFreeEnv>(
    envs: Seq<E>,
    steps: Seq<(usize, usize, i64)>,
    before: Seq<Seq<Seq<int>>>,
    after: Seq<Seq<Seq<int>>>,
    epsilon: int,
    max_steps: nat,
) -> bool {
    &&& episode_of(envs, max_steps)
    &&& episode_trace_of(envs, steps)
    &&& episode_within(steps, E::spec_num_states(), E::spec_num_actions())
    &&& steps.len() > 0 ==> forall|j: int|
        0 <= j < envs.len() ==> (#[trigger] envs[j]).spec_state_id() < E::spec_num_states()
    &&& after == resized_through(before, envs)
    &&& epsilon == 0 ==> episode_is_greedy(before, envs, steps)
}

/// Some episode under the exploration policy shows these steps and leads from
/// the returns `before` to the returns `after`.
pub open spec fn episode_generated<E: ModelFreeEnv>(
    steps: Seq<(usize, usize, i64)>,
    before: Seq<Seq<Seq<int>>>,
    after: Seq<Seq<Seq<int>>>,
    epsilon: int,
    max_steps: nat,
) -> bool {
    exists|envs: Seq<E>|
        #[trigger] is_generated_episode(envs, steps, before, after, epsilon, max_steps)
}

/// A run of episodes: `tables[k]` holds the returns before episode `k`,
/// generating the episode leads to `resized[k]`, and learning from it leads to
/// `tables[k + 1]`.
pub open spec fn is_monte_carlo_run<E: ModelFreeEnv>(
    tables: Seq<Seq<Seq<Seq<int>>>>,
    resized: Seq<Seq<Seq<Seq<int>>>>,
    episodes: Seq<Seq<(usize, usize, i64)>>,
    gamma: int,
    epsilon: int,
    max_steps: nat,
) -> bool {
    &&& tables.len() == episodes.len() + 1
    &&& resized.len() == episodes.len()
    &&& forall|k: int|
        0 <= k < episodes.len() ==> {
            &&& episode_generated::<E>(
                #[trigger] episodes[k],
                tables[k],
                resized[k],
                epsilon,
                max_steps,
            )
            &&& tables[k + 1] == after_episode(resized[k], episodes[k], gamma)
        }
}

/// The trace of an episode grows by the step that is observed next.
pub proof fn lemma_episode_trace_grows<E: ModelFreeEnv>(
    envs: Seq<E>,
    steps: Seq<(usize, usize, i64)>,
    step: (usize, usize, i64),
    after: E,
)
    requires
        episode_trace_of(envs, steps),
        step_observed(envs.last(), step.0, step.1, step.2, after),
    ensures
        episode_trace_of(envs.push(after), steps.push(step)),
{
    let grown = steps.push(step);
    let passed = envs.push(after);
    assert forall|i: int| 0 <= i < grown.len() implies step_observed(
        passed[i],
        (#[trigger] grown[i]).0,
        grown[i].1,
        grown[i].2,
        passed[i + 1],
    ) by {
        if i < steps.len() {
            assert(grown[i] == steps[i]);
        } else {
            assert(passed[i] == envs.last());
        }
    }
}

/// What is greedy stays so when a step is appended that is greedy by the
/// estimates after the resize of the row of its state.
pub proof fn lemma_episode_greedy_grows<E: ModelFreeEnv>(
    recorded_returns: Seq<Seq<Seq<int>>>,
    envs: Seq<E>,
    steps: Seq<(usize, usize, i64)>,
    step: (usize, usize, i64),
    after: E,
)
    requires
        envs.len() == steps.len() + 1,
        episode_is_greedy(recorded_returns, envs, steps),
        step.1 == greedy_action(
            means_of(
                resized_for(
                    resized_through(recorded_returns, envs),
                    envs.last().spec_state_id(),
                    E::spec_num_actions(),
                    Seq::<int>::empty(),
                ),
            )[step.0 as int],
            envs.last().spec_available_actions(),
        ),
    ensures
        episode_is_greedy(recorded_returns, envs.push(after), steps.push(step)),
{
    let grown = steps.push(step);
    let passed = envs.push(after);
    assert forall|i: int| 0 <= i < grown.len() implies (#[trigger] grown[i]).1 == greedy_action(
        estimates_at(recorded_returns, passed, i)[grown[i].0 as int],
        passed[i].spec_available_actions(),
    ) by {
        if i < steps.len() {
            assert(grown[i] == steps[i]);
            assert(passed.take(i + 1) =~= envs.take(i + 1));
        } else {
            assert(passed.take(i + 1) =~= envs);
        }
    }
}

/// The resizes of an episode grow by those of the step that is appended.
pub proof fn lemma_resized_through_grows<E: ModelFreeEnv>(
    recorded_returns: Seq<Seq<Seq<int>>>,
    envs: Seq<E>,
    after: E,
)
    requires
        envs.len() >= 1,
    ensures
        resized_through(recorded_returns, envs.push(after)) == resized_for(
            resized_for(
                resized_through(recorded_returns, envs),
                envs.last().spec_state_id(),
                E::spec_num_actions(),
                Seq::<int>::empty(),
            ),
            after.spec_state_id(),
            E::spec_num_actions(),
            Seq::<int>::empty(),
        ),
{
    assert(envs.push(after).drop_last() =~= envs);
}

/// On returns that have the environment's shape the resizes of an episode
/// change nothing.
pub proof fn lemma_resized_through_in_shape<E: ModelFreeEnv>(
    recorded_returns: Seq<Seq<Seq<int>>>,
    envs: Seq<E>,
)
    requires
        has_shape(recorded_returns, E::spec_num_states(), E::spec_num_actions()),
        envs.len() > 1 ==> forall|j: int|
            0 <= j < envs.len() ==> (#[trigger] envs[j]).spec_state_id() < E::spec_num_states(),
    ensures
        resized_through(recorded_returns, envs) == recorded_returns,
    decreases envs.len(),
{
    if envs.len() > 1 {
        let front = envs.drop_last();
        assert forall|j: int| 0 <= j < front.len() implies (#[trigger] front[j]).spec_state_id()
            < E::spec_num_states() by {
            assert(front[j] == envs[j]);
        }
        lemma_resized_through_in_shape(recorded_returns, front);
        assert(front.last() == envs[envs.len() - 2]);
        assert(envs.last() == envs[envs.len() - 1]);
        lemma_resize_in_shape(
            recorded_returns,
            front.last().spec_state_id(),
            E::spec_num_states(),
            E::spec_num_actions(),
        );
        lemma_resize_in_shape(
            recorded_returns,
            envs.last().spec_state_id(),
            E::spec_num_states(),
            E::spec_num_actions(),
        );
    }
}

/// On returns that have the environment's shape, generating an episode leaves
/// them as they are, and with `epsilon` at zero every action is the greedy
/// choice by the estimates that belong to them.
pub proof fn lemma_generated_in_shape<E: ModelFreeEnv>(
    envs: Seq<E>,
    steps: Seq<(usize, usize, i64)>,
    before: Seq<Seq<Seq<int>>>,
    after: Seq<Seq<Seq<int>>>,
    epsilon: int,
    max_steps: nat,
)
    requires
        is_generated_episode(envs, steps, before, after, epsilon, max_steps),
        has_shape(before, E::spec_num_states(), E::spec_num_actions()),
    ensures
        after == before,
        epsilon == 0 ==> forall|i: int|
            0 <= i < steps.len() ==> (#[trigger] steps[i]).1 == greedy_action(
                means_of(before)[steps[i].0 as int],
                envs[i].spec_available_actions(),
            ),
{
    lemma_resized_through_in_shape(before, envs);
    if epsilon == 0 {
        assert forall|i: int| 0 <= i < steps.len() implies (#[trigger] steps[i]).1 == greedy_action(
            means_of(before)[steps[i].0 as int],
            envs[i].spec_available_actions(),
        ) by {
            let met = envs.take(i + 1);
            assert forall|j: int| 0 <= j < met.len() implies (#[trigger] met[j]).spec_state_id()
                < E::spec_num_states() by {
                assert(met[j] == envs[j]);
            }
            lemma_resized_through_in_shape(before, met);
            lemma_resize_in_shape(
                before,
                envs[i].spec_state_id(),
                E::spec_num_states(),
                E::spec_num_actions(),
            );
            assert(estimates_at(before, envs, i) == means_of(before));
        }
    }
}

/// A run grows by an episode that is generated and learned from.
pub proof fn lemma_monte_carlo_run_grows<E: ModelFreeEnv>(
    tables: Seq<Seq<Seq<Seq<int>>>>,
    resized: Seq<Seq<Seq<Seq<int>>>>,
    episodes: Seq<Seq<(usize, usize, i64)>>,
    steps: Seq<(usize, usize, i64)>,
    middle: Seq<Seq<Seq<int>>>,
    gamma: int,
    epsilon: int,
    max_steps: nat,
)
    requires
        is_monte_carlo_run::<E>(tables, resized, episodes, gamma, epsilon, max_steps),
        episode_generated::<E>(steps, tables.last(), middle, epsilon, max_steps),
    ensures
        is_monte_carlo_run::<E>(
            tables.push(after_episode(middle, steps, gamma)),
            resized.push(middle),
            episodes.push(steps),
            gamma,
            epsilon,
            max_steps,
        ),
{
    let more_tables = tables.push(after_episode(middle, steps, gamma));
    let more_resized = resized.push(middle);
    let grown = episodes.push(steps);
    assert forall|k: int| 0 <= k < grown.len() implies {
        &&& episode_generated::<E>(
            #[trigger] grown[k],
            more_tables[k],
            more_resized[k],
            epsilon,
            max_steps,
        )
        &&& more_tables[k + 1] == after_episode(more_resized[k], grown[k], gamma)
    } by {
        if k < episodes.len() {
            assert(grown[k] == episodes[k]);
            assert(more_tables[k] == tables[k] && more_tables[k + 1] == tables[k + 1]);
            assert(more_resized[k] == resized[k]);
        } else {
            assert(more_tables[k] == tables.last());
        }
    }
}

/// The returns after a run of episodes, each recorded in turn.
pub open spec fn after_episodes(
    recorded_returns: Seq<Seq<Seq<int>>>,
    episodes: Seq<Seq<(usize, usize, i64)>>,
    gamma: int,
) -> Seq<Seq<Seq<int>>>
    decreases episodes.len(),
{
    if episodes.len() == 0 {
        recorded_returns
    } else {
        after_episode(
            after_episodes(recorded_returns, episodes.drop_last(), gamma),
            episodes.last(),
            gamma,
        )
    }
}

/// The table of means has the shape of the table of returns.
pub proof fn lemma_means_shape(recorded_returns: Seq<Seq<Seq<int>>>, states: nat, actions: nat)
    ensures
        has_shape(recorded_returns, states, actions) <==> has_shape(
            means_of(recorded_returns),
            states,
            actions,
        ),
{
    let m = means_of(recorded_returns);
    if has_shape(recorded_returns, states, actions) {
        assert forall|s: int| 0 <= s < m.len() implies (#[trigger] m[s]).len() == actions by {
            assert(recorded_returns[s].len() == actions);
        }
    }
    if has_shape(m, states, actions) {
        assert forall|s: int| 0 <= s < recorded_returns.len() implies (
        #[trigger] recorded_returns[s]).len() == actions by {
            assert(m[s].len() == actions);
        }
    }
}

/// Bringing the row of a state to the number of actions changes nothing in a
/// table that has that shape already.
pub proof fn lemma_resize_in_shape(
    recorded_returns: Seq<Seq<Seq<int>>>,
    state: nat,
    states: nat,
    actions: nat,
)
    requires
        state < states,
    ensures
        has_shape(recorded_returns, states, actions) ==> resized_for(
            recorded_returns,
            state,
            actions,
            Seq::<int>::empty(),
        ) == recorded_returns,
{
    if has_shape(recorded_returns, states, actions) {
        assert(recorded_returns[state as int].len() == actions);
        assert(resized_for(recorded_returns, state, actions, Seq::<int>::empty())
            =~~= recorded_returns);
    }
}

/// An episode that lies within the shape of the table leaves the shape as it
/// is.
pub proof fn lemma_episode_keeps_shape(
    recorded_returns: Seq<Seq<Seq<int>>>,
    steps: Seq<(usize, usize, i64)>,
    gamma: int,
    states: nat,
    actions: nat,
)
    requires
        has_shape(recorded_returns, states, actions),
        episode_within(steps, states, actions),
    ensures
        has_shape(after_episode(recorded_returns, steps, gamma), states, actions),
    decreases steps.len(),
{
    if steps.len() > 0 {
        let rest = steps.skip(1);
        assert forall|i: int| 0 <= i < rest.len() implies (#[trigger] rest[i]).0 < states && rest[i].1
            < actions by {
            assert(rest[i] == steps[i + 1]);
        }
        lemma_episode_keeps_shape(recorded_returns, rest, gamma, states, actions);
        let later = after_episode(recorded_returns, rest, gamma);
        let after = after_episode(recorded_returns, steps, gamma);
        assert(later[steps[0].0 as int].len() == actions);
        assert forall|s: int| 0 <= s < after.len() implies (#[trigger] after[s]).len() == actions by {
            assert(later[s].len() == actions);
        }
    }
}

/// Two tables of which one holds the means of the other have the same shape.
proof fn lemma_same_shape(q_value: &Vec<Vec<i64>>, recorded_returns: &Vec<Vec<Vec<i64>>>)
    requires
        table_view(q_value) == means_of(returns_view(recorded_returns)),
    ensures
        q_value.len() == recorded_returns.len(),
        forall|s: int| 0 <= s < q_value.len() ==> (#[trigger] q_value[s]).len() == recorded_returns[s].len(),
        forall|s: int, a: int|
            0 <= s < q_value.len() && 0 <= a < q_value[s].len() ==> #[trigger] q_value[s][a] == mean(
                int_values(recorded_returns[s][a]@),
            ),
{
    let t = table_view(q_value);
    let m = means_of(returns_view(recorded_returns));
    assert(t.len() == m.len());
    assert forall|s: int| 0 <= s < q_value.len() implies (#[trigger] q_value[s]).len()
        == recorded_returns[s].len() by {
        assert(t[s].len() == m[s].len());
    }
    assert forall|s: int, a: int|
        0 <= s < q_value.len() && 0 <= a < q_value[s].len() implies #[trigger] q_value[s][a] == mean(
        int_values(recorded_returns[s][a]@),
    ) by {
        assert(t[s][a] == m[s][a]);
    }
}

/// The table of returns in which every cell of `states` rows and `actions`
/// columns is empty.
pub open spec fn no_returns(states: nat, actions: nat) -> Seq<Seq<Seq<int>>> {
    Seq::new(states, |s: int| Seq::new(actions, |a: int| Seq::<int>::empty()))
}

/// A first-visit Monte Carlo learner together with the environment it trains on.
///
/// `recorded_returns` holds, for each state and action, every return recorded
/// for them; `q_value` holds the mean of each of these lists.
pub struct MonteCarloAgent<E: ModelFreeEnv> {
    pub env: E,
    pub episodes: usize,
    pub gamma: u32,
    pub epsilon: u32,
    pub max_steps: usize,
    pub q_value: Vec<Vec<i64>>,
    pub recorded_returns: Vec<Vec<Vec<i64>>>,
}

impl<E: ModelFreeEnv> MonteCarloAgent<E> {
    /// The environment is well formed, and every estimate is the mean of the
    /// returns recorded for its state and action.
    pub open spec fn well_formed(&self) -> bool {
        &&& self.env.well_formed()
        &&& table_view(&self.q_value) == means_of(returns_view(&self.recorded_returns))
    }

    /// Everything but the two tables is as in `other`.
    pub open spec fn same_setup(&self, other: &Self) -> bool {
        &&& self.env == other.env
        &&& self.episodes == other.episodes
        &&& self.gamma == other.gamma
        &&& self.epsilon == other.epsilon
        &&& self.max_steps == other.max_steps
    }

    /// An agent for `episodes` episodes of at most `max_steps` steps each, with
    /// zero estimates and no returns for every state and action that the
    /// environment announces. The environment is reset: it stands where an
    /// episode starts.
    pub fn new(env: E, episodes: usize, gamma: u32, epsilon: u32, max_steps: usize) -> (agent: Self)
        requires
            env.well_formed(),
        ensures
            agent.well_formed(),
            agent.env.spec_starts(),
            agent.episodes == episodes,
            agent.gamma == gamma,
            agent.epsilon == epsilon,
            agent.max_steps == max_steps,
            returns_view(&agent.recorded_returns) == no_returns(
                E::spec_num_states(),
                E::spec_num_actions(),
            ),
            table_view(&agent.q_value) == zero_table(E::spec_num_states(), E::spec_num_actions()),
    {
        let mut env = env;
        let num_states = E::num_states();
        let num_actions = E::num_actions();
        let mut q_value: Vec<Vec<i64>> = Vec::new();
        let mut recorded_returns: Vec<Vec<Vec<i64>>> = Vec::new();
        let mut s: usize = 0;
        while s < num_states
            invariant
                s <= num_states,
                q_value.len() == s,
                recorded_returns.len() == s,
                forall|i: int| 0 <= i < s ==> (#[trigger] q_value[i]).len() == num_actions,
                forall|i: int| 0 <= i < s ==> (#[trigger] recorded_returns[i]).len() == num_actions,
                forall|i: int, a: int| 0 <= i < s && 0 <= a < num_actions ==> #[trigger] q_value[i][a] == 0,
                forall|i: int, a: int|
                    0 <= i < s && 0 <= a < num_actions ==> (#[trigger] recorded_returns[i][a]).len()
                        == 0,
            decreases num_states - s,
        {
            let mut row: Vec<i64> = Vec::new();
            let mut recorded_row: Vec<Vec<i64>> = Vec::new();
            resize_row(&mut row, &mut recorded_row, num_actions);
            q_value.push(row);
            recorded_returns.push(recorded_row);
            s = s + 1;
        }
        env.reset();
        proof {
            let states = E::spec_num_states();
            let actions = E::spec_num_actions();
            assert(returns_view(&recorded_returns) =~~= no_returns(states, actions));
            assert(table_view(&q_value) =~~= zero_table(states, actions));
            assert(means_of(no_returns(states, actions)) =~~= zero_table(states, actions));
        }
        MonteCarloAgent { env, episodes, gamma, epsilon, max_steps, q_value, recorded_returns }
    }

    /// Brings the row of `state` in both tables to exactly `num_actions` cells.
    /// Rows are appended up to `state` where the tables are too short; then the
    /// row grows by zero estimates without returns, or loses the cells behind
    /// `num_actions`. Nothing fails when the reported number of actions shrinks.
    pub fn resize_if_needed(&mut self, state: usize, num_actions: usize)
        requires
            old(self).well_formed(),
        ensures
            final(self).well_formed(),
            final(self).same_setup(old(self)),
            returns_view(&final(self).recorded_returns) == resized_for(
                returns_view(&old(self).recorded_returns),
                state as nat,
                num_actions as nat,
                Seq::<int>::empty(),
            ),
    {
        let ghost before = returns_view(&self.recorded_returns);
        proof {
            lemma_same_shape(&self.q_value, &self.recorded_returns);
        }
        grow_rows(&mut self.q_value, &mut self.recorded_returns, state);
        let ghost grown = returns_view(&self.recorded_returns);
        assert(grown =~~= with_rows(before, (state + 1) as nat));
        resize_row(&mut self.q_value[state], &mut self.recorded_returns[state], num_actions);
        proof {
            let after = resized_for(before, state as nat, num_actions as nat, Seq::<int>::empty());
            assert(returns_view(&self.recorded_returns) =~~= after);
            assert(table_view(&self.q_value) =~~= means_of(after));
        }
    }

    /// Records a return for a state and action, growing the tables where they
    /// have no cell for them yet, and sets the estimate to the mean of all
    /// returns recorded for them.
    pub fn record_return(&mut self, state: usize, action: usize, goal: i64)
        requires
            old(self).well_formed(),
        ensures
            final(self).well_formed(),
            final(self).same_setup(old(self)),
            returns_view(&final(self).recorded_returns) == recorded(
                returns_view(&old(self).recorded_returns),
                state as nat,
                action as nat,
                goal as int,
            ),
    {
        let ghost before = returns_view(&self.recorded_returns);
        proof {
            lemma_same_shape(&self.q_value, &self.recorded_returns);
        }
        grow_rows(&mut self.q_value, &mut self.recorded_returns, state);
        grow_row(&mut self.q_value[state], &mut self.recorded_returns[state], action);
        let ghost grown = returns_view(&self.recorded_returns);
        assert(grown =~~= fitted(before, state as nat, action as nat, Seq::<int>::empty()));
        assert(table_view(&self.q_value) =~~= means_of(grown));
        let ghost earlier = self.recorded_returns[state as int][action as int]@;
        self.recorded_returns[state][action].push(goal);
        let average = mean_of(&self.recorded_returns[state][action]);
        self.q_value[state][action] = average;
        proof {
            let after = recorded(before, state as nat, action as nat, goal as int);
            assert(int_values(earlier.push(goal)) =~= int_values(earlier).push(goal as int));
            assert(returns_view(&self.recorded_returns) =~~= after);
            assert(table_view(&self.q_value) =~~= means_of(after));
        }
    }

    /// Learns from one episode, given as its steps in time order, each a state,
    /// the action taken there and the reward that followed.
    ///
    /// The episode is walked backward with the running return
    /// `G = gamma * G + reward`. A step records `G` for its state and action
    /// unless a later step of the episode visits them too.
    pub fn update_q_values(&mut self, episode: Vec<(usize, usize, i64)>)
        requires
            old(self).well_formed(),
        ensures
            final(self).well_formed(),
            final(self).same_setup(old(self)),
            returns_view(&final(self).recorded_returns) == after_episode(
                returns_view(&old(self).recorded_returns),
                episode@,
                old(self).gamma as int,
            ),
    {
        broadcast use vstd::std_specs::hash::group_hash_axioms;

        let ghost before = returns_view(&self.recorded_returns);
        let ghost steps = episode@;
        let mut goal: i64 = 0;
        let mut visited: HashSet<u128> = HashSet::new();
        let mut i: usize = episode.len();
        assert(steps.skip(i as int) =~= Seq::<(usize, usize, i64)>::empty());
        while i > 0
            invariant
                i <= episode.len(),
                steps == episode@,
                self.well_formed(),
                self.same_setup(old(self)),
                goal == episode_return(steps.skip(i as int), self.gamma as int),
                returns_view(&self.recorded_returns) == after_episode(
                    before,
                    steps.skip(i as int),
                    self.gamma as int,
                ),
                forall|state: usize, action: usize|
                    visited@.contains(#[trigger] pair_key(state, action)) <==> visits(
                        steps.skip(i as int),
                        state,
                        action,
                    ),
            decreases i,
        {
            i = i - 1;
            let (state, action, reward) = episode[i];
            let ghost rest = steps.skip(i + 1);
            let ghost here = steps.skip(i as int);
            proof {
                assert(here.skip(1) =~= rest);
                assert(here[0] == steps[i as int]);
            }
            goal = bootstrap_target(reward, self.gamma, goal);
            let key = key_of(state, action);
            if !visited.contains(&key) {
                self.record_return(state, action, goal);
                visited.insert(key);
            }
            proof {
                assert forall|s: usize, a: usize|
                    visited@.contains(#[trigger] pair_key(s, a)) <==> visits(here, s, a) by {
                    lemma_pair_key_is_injective(s, a, state, action);
                    if visits(rest, s, a) {
                        let j = choose|j: int|
                            0 <= j < rest.len() && (#[trigger] rest[j]).0 == s && rest[j].1 == a;
                        assert(here[j + 1] == rest[j]);
                    }
                    if visits(here, s, a) && !(s == state && a == action) {
                        let j = choose|j: int|
                            0 <= j < here.len() && (#[trigger] here[j]).0 == s && here[j].1 == a;
                        assert(rest[j - 1] == here[j]);
                    }
                }
            }
        }
        assert(steps.skip(0) =~= steps);
    }

    /// Selects an action for `state` by epsilon-greedy among the actions that
    /// are legal in the environment's current state. There must be a legal
    /// action, and the row of `state` must hold an estimate for each of them.
    pub fn epsilon_greedy_policy(&self, state: usize) -> (action: usize)
        requires
            self.well_formed(),
            state < self.q_value.len(),
            self.env.spec_available_actions().len() > 0,
            forall|i: int|
                0 <= i < self.env.spec_available_actions().len() ==> (
                #[trigger] self.env.spec_available_actions()[i]) < self.q_value[state as int].len(),
        ensures
            self.env.spec_available_actions().contains(action),
            action < E::spec_num_actions(),
            exists|draw: int, drawn: Option<usize>|
                {
                    &&& 0 <= draw < SCALE
                    &&& spec_explores(draw, self.epsilon as int) ==> drawn is Some
                        && self.env.spec_available_actions().contains(drawn->0)
                    &&& action == #[trigger] spec_select_action(
                        row_view(&self.q_value[state as int]),
                        self.env.spec_available_actions(),
                        self.epsilon as int,
                        draw,
                        drawn,
                    )
                },
            self.epsilon == 0 ==> action == greedy_action(
                row_view(&self.q_value[state as int]),
                self.env.spec_available_actions(),
            ),
            self.epsilon == 0 ==> is_best_among(
                row_view(&self.q_value[state as int]),
                self.env.spec_available_actions(),
                action,
            ),
    {
        let mut rng = rand::thread_rng();
        let legal = self.env.available_actions();
        let action = epsilon_greedy(&self.q_value[state], &legal, self.epsilon, &mut rng);
        proof {
            self.env.lemma_legal_actions();
            let i = choose|i: int| 0 <= i < legal.len() && legal[i] == action;
            assert(legal[i] < E::spec_num_actions());
        }
        action
    }

    /// Runs one episode under the exploration policy, from a reset until the
    /// episode ends or `max_steps` steps are taken, and returns its steps in
    /// time order: the state, the action taken there, and the reward that
    /// followed. Before an action is selected, and after the step, the row of
    /// the state the environment is in is brought to the number of actions that
    /// the environment reports.
    ///
    /// Where the tables have the environment's shape already, they stay as they
    /// are. An episode that ends where it starts changes nothing.
    pub fn generate_episode(&mut self) -> (episode: Vec<(usize, usize, i64)>)
        requires
            old(self).well_formed(),
        ensures
            final(self).well_formed(),
            final(self).episodes == old(self).episodes,
            final(self).gamma == old(self).gamma,
            final(self).epsilon == old(self).epsilon,
            final(self).max_steps == old(self).max_steps,
            exists|envs: Seq<E>|
                #[trigger] is_generated_episode(
                    envs,
                    episode@,
                    returns_view(&old(self).recorded_returns),
                    returns_view(&final(self).recorded_returns),
                    old(self).epsilon as int,
                    old(self).max_steps as nat,
                ) && envs.last() == final(self).env,
            has_shape(
                table_view(&old(self).q_value),
                E::spec_num_states(),
                E::spec_num_actions(),
            ) ==> returns_view(&final(self).recorded_returns) == returns_view(
                &old(self).recorded_returns,
            ),
    {
        let ghost before = returns_view(&self.recorded_returns);
        let ghost states = E::spec_num_states();
        let ghost actions = E::spec_num_actions();
        let mut episode: Vec<(usize, usize, i64)> = Vec::new();
        self.env.reset();
        let ghost mut envs: Seq<E> = seq![self.env];
        let mut steps: usize = 0;
        while steps < self.max_steps && !self.env.is_game_over()
            invariant
                self.well_formed(),
                self.episodes == old(self).episodes,
                self.gamma == old(self).gamma,
                self.epsilon == old(self).epsilon,
                self.max_steps == old(self).max_steps,
                states == E::spec_num_states(),
                actions == E::spec_num_actions(),
                steps <= self.max_steps,
                episode.len() == steps,
                envs.len() == steps + 1,
                envs.last() == self.env,
                envs[0].well_formed(),
                envs[0].spec_starts(),
                episode_trace_of(envs, episode@),
                episode_within(episode@, states, actions),
                steps > 0 ==> forall|j: int|
                    0 <= j < envs.len() ==> (#[trigger] envs[j]).spec_state_id() < states,
                returns_view(&self.recorded_returns) == resized_through(before, envs),
                self.epsilon == 0 ==> episode_is_greedy(before, envs, episode@),
            decreases self.max_steps - steps,
        {
            let ghost seen = episode@;
            let ghost here = self.env;
            let state = self.env.state_id();
            let num_actions = E::num_actions();
            self.resize_if_needed(state, num_actions);
            proof {
                lemma_same_shape(&self.q_value, &self.recorded_returns);
                assert(returns_view(&self.recorded_returns)[state as int].len() == num_actions);
                assert(table_view(&self.q_value)[state as int] == row_view(&self.q_value[state as int]));
                self.env.lemma_legal_actions();
            }
            let action = self.epsilon_greedy_policy(state);
            let score_before = self.env.score();
            self.env.step(action);
            let reward = reward_between(score_before, self.env.score());
            episode.push((state, action, reward));
            let ghost there = self.env;
            let next_state = self.env.state_id();
            self.resize_if_needed(next_state, num_actions);
            proof {
                let passed = envs.push(there);
                lemma_episode_trace_grows(envs, seen, (state, action, reward), there);
                lemma_resized_through_grows(before, envs, there);
                if self.epsilon == 0 {
                    lemma_episode_greedy_grows(before, envs, seen, (state, action, reward), there);
                }
                assert(episode@ =~= seen.push((state, action, reward)));
                assert forall|j: int| 0 <= j < passed.len() implies (
                #[trigger] passed[j]).spec_state_id() < states by {
                    if j < envs.len() {
                        assert(passed[j] == envs[j]);
                    }
                }
                envs = passed;
            }
            steps = steps + 1;
        }
        proof {
            assert(is_generated_episode(
                envs,
                episode@,
                before,
                returns_view(&self.recorded_returns),
                self.epsilon as int,
                self.max_steps as nat,
            ));
            lemma_means_shape(before, states, actions);
            if has_shape(before, states, actions) {
                lemma_resized_through_in_shape(before, envs);
            }
        }
        episode
    }

    /// Trains for `episodes` episodes: generates each and learns from it.
    ///
    /// The run is a chain of episodes: each is generated, which resizes the rows
    /// of the states it meets, and then its returns are recorded. Where the
    /// tables have the environment's shape, they keep it, and the returns are
    /// those of the episodes alone, recorded in order.
    pub fn train(&mut self)
        requires
            old(self).well_formed(),
        ensures
            final(self).well_formed(),
            final(self).episodes == old(self).episodes,
            final(self).gamma == old(self).gamma,
            final(self).epsilon == old(self).epsilon,
            final(self).max_steps == old(self).max_steps,
            has_shape(
                table_view(&old(self).q_value),
                E::spec_num_states(),
                E::spec_num_actions(),
            ) ==> has_shape(
                table_view(&final(self).q_value),
                E::spec_num_states(),
                E::spec_num_actions(),
            ),
            exists|
                episodes: Seq<Seq<(usize, usize, i64)>>,
                tables: Seq<Seq<Seq<Seq<int>>>>,
                resized: Seq<Seq<Seq<Seq<int>>>>,
            |
                {
                    &&& episodes.len() == old(self).episodes
                    &&& tables[0] == returns_view(&old(self).recorded_returns)
                    &&& tables.last() == returns_view(&final(self).recorded_returns)
                    &&& #[trigger] is_monte_carlo_run::<E>(
                        tables,
                        resized,
                        episodes,
                        old(self).gamma as int,
                        old(self).epsilon as int,
                        old(self).max_steps as nat,
                    )
                    &&& has_shape(
                        table_view(&old(self).q_value),
                        E::spec_num_states(),
                        E::spec_num_actions(),
                    ) ==> returns_view(&final(self).recorded_returns) == after_episodes(
                        returns_view(&old(self).recorded_returns),
                        episodes,
                        old(self).gamma as int,
                    )
                },
    {
        let ghost before = returns_view(&self.recorded_returns);
        let ghost states = E::spec_num_states();
        let ghost actions = E::spec_num_actions();
        let ghost shaped = has_shape(before, states, actions);
        let ghost mut episodes: Seq<Seq<(usize, usize, i64)>> = Seq::empty();
        let ghost mut tables: Seq<Seq<Seq<Seq<int>>>> = seq![before];
        let ghost mut resized: Seq<Seq<Seq<Seq<int>>>> = Seq::empty();
        proof {
            lemma_means_shape(before, states, actions);
        }
        let mut done: usize = 0;
        while done < self.episodes
            invariant
                self.well_formed(),
                self.episodes == old(self).episodes,
                self.gamma == old(self).gamma,
                self.epsilon == old(self).epsilon,
                self.max_steps == old(self).max_steps,
                states == E::spec_num_states(),
                actions == E::spec_num_actions(),
                done <= self.episodes,
                episodes.len() == done,
                tables[0] == before,
                tables.last() == returns_view(&self.recorded_returns),
                is_monte_carlo_run::<E>(
                    tables,
                    resized,
                    episodes,
                    self.gamma as int,
                    self.epsilon as int,
                    self.max_steps as nat,
                ),
                shaped == has_shape(before, states, actions),
                shaped ==> has_shape(returns_view(&self.recorded_returns), states, actions),
                shaped ==> returns_view(&self.recorded_returns) == after_episodes(
                    before,
                    episodes,
                    self.gamma as int,
                ),
            decreases self.episodes - done,
        {
            proof {
                lemma_means_shape(returns_view(&self.recorded_returns), states, actions);
            }
            let episode = self.generate_episode();
            let ghost middle = returns_view(&self.recorded_returns);
            proof {
                let envs = choose|envs: Seq<E>|
                    #[trigger] is_generated_episode(
                        envs,
                        episode@,
                        tables.last(),
                        middle,
                        self.epsilon as int,
                        self.max_steps as nat,
                    ) && envs.last() == self.env;
                lemma_monte_carlo_run_grows::<E>(
                    tables,
                    resized,
                    episodes,
                    episode@,
                    middle,
                    self.gamma as int,
                    self.epsilon as int,
                    self.max_steps as nat,
                );
                if shaped {
                    lemma_episode_keeps_shape(middle, episode@, self.gamma as int, states, actions);
                }
                assert(episodes.push(episode@).drop_last() =~= episodes);
                tables = tables.push(after_episode(middle, episode@, self.gamma as int));
                resized = resized.push(middle);
                episodes = episodes.push(episode@);
            }
            self.update_q_values(episode);
            done = done + 1;
        }
        proof {
            lemma_means_shape(returns_view(&self.recorded_returns), states, actions);
        }
    }

    /// The greedy policy of the estimates: for each state the first action whose
    /// estimate is the largest of the row.
    pub fn derive_policy(&self) -> (policy: Vec<usize>)
        ensures
            is_greedy_policy(policy@, table_view(&self.q_value)),
    {
        derive_policy(&self.q_value)
    }
}

} // verus!
