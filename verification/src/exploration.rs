//! Epsilon-greedy exploration and the linear decay of epsilon.
//!
//! With probability `epsilon` a selection is a uniform draw among the legal
//! actions; otherwise it is the first legal action whose estimate is the
//! largest among them.

use crate::action_values::{first_max_index, lemma_first_max_index, row_view};
use crate::fixed_point::{trunc_div, SCALE};
use crate::random::{choose_item, gen_range};
use rand::rngs::ThreadRng;
use vstd::prelude::*;

verus! {

/// The estimates of the legal actions, in the order of `actions`.
pub open spec fn values_of(row: Seq<int>, actions: Seq<usize>) -> Seq<int> {
    Seq::new(actions.len(), |i: int| row[actions[i] as int])
}

/// The greedy choice: the first of `actions` whose estimate is the largest among
/// them.
pub open spec fn greedy_action(row: Seq<int>, actions: Seq<usize>) -> usize {
    actions[first_max_index(values_of(row, actions))]
}

/// `action` is legal, and no legal action has a larger estimate.
pub open spec fn is_best_among(row: Seq<int>, actions: Seq<usize>, action: usize) -> bool {
    &&& actions.contains(action)
    &&& forall|i: int| 0 <= i < actions.len() ==> row[#[trigger] actions[i] as int] <= row[action as int]
}

/// Whether a draw from `0..SCALE` falls below `epsilon`, so that the selection
/// explores.
pub open spec fn spec_explores(draw: int, epsilon: int) -> bool {
    draw < epsilon
}

/// The selection that a draw from `0..SCALE` decides: where the draw explores,
/// the action `drawn` from the legal ones; else, and where nothing was drawn, the
/// greedy choice.
pub open spec fn spec_select_action(
    row: Seq<int>,
    actions: Seq<usize>,
    epsilon: int,
    draw: int,
    drawn: Option<usize>,
) -> usize {
    if spec_explores(draw, epsilon) && drawn is Some {
        drawn->0
    } else {
        greedy_action(row, actions)
    }
}

/// Epsilon in episode `episode` of a schedule that moves in a straight line from
/// `start` to `end` over `max_episodes` episodes and stays at `end` after them.
pub open spec fn spec_decay_epsilon(start: int, end: int, episode: int, max_episodes: int) -> int {
    if episode >= max_episodes {
        end
    } else {
        start + trunc_div((end - start) * episode, max_episodes)
    }
}

/// The greedy choice is a legal action, no legal action has a larger estimate,
/// and every legal action listed before it has a strictly smaller one.
pub proof fn lemma_greedy_action_is_best(row: Seq<int>, actions: Seq<usize>)
    requires
        actions.len() > 0,
    ensures
        actions.contains(greedy_action(row, actions)),
        forall|i: int|
            0 <= i < actions.len() ==> row[#[trigger] actions[i] as int] <= row[greedy_action(
                row,
                actions,
            ) as int],
        forall|i: int|
            0 <= i < first_max_index(values_of(row, actions)) ==> row[#[trigger] actions[i] as int]
                < row[greedy_action(row, actions) as int],
{
    let vals = values_of(row, actions);
    lemma_first_max_index(vals);
    let k = first_max_index(vals);
    assert(actions[k] == greedy_action(row, actions));
    assert forall|i: int| 0 <= i < actions.len() implies row[#[trigger] actions[i] as int]
        <= row[greedy_action(row, actions) as int] by {
        assert(vals[i] <= vals[k]);
    }
    assert forall|i: int| 0 <= i < k implies row[#[trigger] actions[i] as int] < row[greedy_action(
        row,
        actions,
    ) as int] by {
        assert(vals[i] < vals[k]);
    }
}

/// Where every action is legal, in increasing order, the greedy choice attains
/// the maximum of the whole row.
pub proof fn lemma_greedy_action_attains_row_max(row: Seq<int>, actions: Seq<usize>)
    requires
        actions.len() == row.len(),
        row.len() > 0,
        forall|i: int| 0 <= i < actions.len() ==> #[trigger] actions[i] == i,
    ensures
        greedy_action(row, actions) == first_max_index(row),
{
    assert(values_of(row, actions) =~= row);
    lemma_first_max_index(row);
}

/// With `epsilon` at zero no draw explores; with `epsilon` at one whole or more
/// every draw does.
pub proof fn lemma_exploration_extremes(draw: int, epsilon: int)
    requires
        0 <= draw < SCALE,
        0 <= epsilon,
    ensures
        epsilon == 0 ==> !spec_explores(draw, epsilon),
        epsilon >= SCALE ==> spec_explores(draw, epsilon),
{
}

/// A decayed epsilon lies between the two ends of its schedule.
pub proof fn lemma_decay_epsilon_between(start: int, end: int, episode: int, max_episodes: int)
    requires
        0 <= episode,
    ensures
        start <= end ==> start <= spec_decay_epsilon(start, end, episode, max_episodes) <= end,
        end <= start ==> end <= spec_decay_epsilon(start, end, episode, max_episodes) <= start,
{
    if episode < max_episodes {
        let span = end - start;
        if span >= 0 {
            assert(0 <= (span * episode) / max_episodes <= span && span * episode >= 0)
                by (nonlinear_arith)
                requires
                    span >= 0,
                    0 <= episode < max_episodes,
            ;
        } else {
            let back = -span;
            assert((-span) * episode == -(span * episode)) by (nonlinear_arith);
            assert(0 <= (back * episode) / max_episodes <= back && back * episode >= 0)
                by (nonlinear_arith)
                requires
                    back >= 0,
                    0 <= episode < max_episodes,
            ;
            if span * episode == 0 {
                assert(0int / max_episodes == 0) by (nonlinear_arith)
                    requires
                        max_episodes > 0,
                ;
            }
        }
    }
}

/// Epsilon for one episode: on the line from `start` to `end` while `episode` is
/// below `max_episodes`, and `end` from then on.
pub fn decay_epsilon(start: u32, end: u32, episode: usize, max_episodes: usize) -> (epsilon: u32)
    ensures
        epsilon == spec_decay_epsilon(start as int, end as int, episode as int, max_episodes as int),
{
    if episode >= max_episodes {
        end
    } else {
        let span: i128 = end as i128 - start as i128;
        proof {
            lemma_decay_epsilon_between(start as int, end as int, episode as int, max_episodes as int);
            assert(-0x1_0000_0000_0000_0000_0000_0000 <= span * episode
                <= 0x1_0000_0000_0000_0000_0000_0000) by (nonlinear_arith)
                requires
                    -0x1_0000_0000 <= span <= 0x1_0000_0000,
                    0 <= episode <= 0x1_0000_0000_0000_0000,
            ;
        }
        let moved: i128 = (span * (episode as i128)) / (max_episodes as i128);
        (start as i128 + moved) as u32
    }
}

/// Whether a draw from `0..SCALE` makes the selection explore.
pub fn explores(draw: usize, epsilon: u32) -> (explore: bool)
    ensures
        explore == spec_explores(draw as int, epsilon as int),
{
    (draw as u64) < (epsilon as u64)
}

/// The greedy choice among the legal actions of a state, by the estimates of its
/// row.
pub fn best_action(row: &Vec<i64>, actions: &Vec<usize>) -> (action: usize)
    requires
        actions.len() > 0,
        forall|i: int| 0 <= i < actions.len() ==> actions[i] < row.len(),
    ensures
        action == greedy_action(row_view(row), actions@),
        actions@.contains(action),
{
    let ghost vals = values_of(row_view(row), actions@);
    let mut best: usize = 0;
    let mut i: usize = 1;
    while i < actions.len()
        invariant
            1 <= i <= actions.len(),
            best < i,
            best == first_max_index(vals.take(i as int)),
            vals == values_of(row_view(row), actions@),
            forall|j: int| 0 <= j < actions.len() ==> actions[j] < row.len(),
        decreases actions.len() - i,
    {
        proof {
            let next = vals.take(i + 1);
            assert(next.drop_last() =~= vals.take(i as int));
            assert(next.last() == row[actions[i as int] as int]);
            assert(next[best as int] == row[actions[best as int] as int]);
        }
        if row[actions[i]] > row[actions[best]] {
            best = i;
        }
        i = i + 1;
    }
    assert(vals.take(actions.len() as int) =~= vals);
    actions[best]
}

/// Decides the selection from what was drawn: `draw` is the draw from
/// `0..SCALE`, and `drawn` the action drawn from the legal ones, which is needed
/// only where the draw explores. The result is `drawn` where the draw is below
/// `epsilon`, else the greedy choice.
pub fn select_action(
    row: &Vec<i64>,
    actions: &Vec<usize>,
    epsilon: u32,
    draw: usize,
    drawn: Option<usize>,
) -> (action: usize)
    requires
        actions.len() > 0,
        forall|i: int| 0 <= i < actions.len() ==> actions[i] < row.len(),
    ensures
        action == spec_select_action(row_view(row), actions@, epsilon as int, draw as int, drawn),
{
    if explores(draw, epsilon) {
        match drawn {
            Some(action) => action,
            None => best_action(row, actions),
        }
    } else {
        best_action(row, actions)
    }
}

/// Selects an action for a state: draws once from `0..SCALE`; if the draw is
/// below `epsilon`, draws the action uniformly from `actions`; then decides by
/// [`select_action`].
///
/// The result is always legal. With `epsilon` at zero it is the greedy choice,
/// so that no legal action has a larger estimate; with `epsilon` at one whole or
/// more it is always the uniform draw.
pub fn epsilon_greedy(
    row: &Vec<i64>,
    actions: &Vec<usize>,
    epsilon: u32,
    rng: &mut ThreadRng,
) -> (action: usize)
    requires
        actions.len() > 0,
        forall|i: int| 0 <= i < actions.len() ==> actions[i] < row.len(),
    ensures
        actions@.contains(action),
        action < row.len(),
        exists|draw: int, drawn: Option<usize>|
            {
                &&& 0 <= draw < SCALE
                &&& spec_explores(draw, epsilon as int) ==> drawn is Some && actions@.contains(
                    drawn->0,
                )
                &&& action == #[trigger] spec_select_action(
                    row_view(row),
                    actions@,
                    epsilon as int,
                    draw,
                    drawn,
                )
            },
        epsilon == 0 ==> action == greedy_action(row_view(row), actions@),
        epsilon == 0 ==> is_best_among(row_view(row), actions@, action),
{
    let draw = gen_range(rng, 0, SCALE as usize);
    let drawn = if explores(draw, epsilon) {
        match choose_item(actions, rng) {
            Some(item) => Some(*item),
            None => None,
        }
    } else {
        None
    };
    proof {
        lemma_greedy_action_is_best(row_view(row), actions@);
    }
    let action = select_action(row, actions, epsilon, draw, drawn);
    proof {
        assert(action == spec_select_action(
            row_view(row),
            actions@,
            epsilon as int,
            draw as int,
            drawn,
        ));
    }
    action
}

} // verus!
