//! The record of a training run: the reward of every episode, the running
//! total, and the average of every full window of episodes.

use crate::fixed_point::{
    int_values, lemma_constant_sum, lemma_sum_bounds, lemma_trunc_div_bounds, sum_of, trunc_div,
};
use vstd::prelude::*;

verus! {

/// The window that a recorder averages over unless told otherwise.
pub const DEFAULT_WINDOW: usize = 10_000;

/// The running total after episode `episode`: the sum of its reward and of all
/// rewards before it.
pub open spec fn cumulative_reward(rewards: Seq<int>, episode: int) -> int {
    sum_of(rewards.take(episode + 1))
}

/// The average reward of the `index`-th window of `window` episodes, rounded
/// toward zero.
pub open spec fn window_average(rewards: Seq<int>, window: int, index: int) -> int {
    trunc_div(sum_of(rewards.subrange(index * window, (index + 1) * window)), window)
}

/// Over one full window in which every episode earns the same reward, the
/// window's average is that reward, whatever the window's size.
pub proof fn lemma_constant_window_average(reward: int, window: nat)
    requires
        window > 0,
    ensures
        window_average(Seq::new(window, |i: int| reward), window as int, 0) == reward,
{
    let rewards = Seq::new(window, |i: int| reward);
    let w = window as int;
    assert(0 * w == 0 && (0 + 1) * w == w) by (nonlinear_arith);
    assert(rewards.subrange(0, w) =~= rewards);
    lemma_constant_sum(reward, window);
    if reward >= 0 {
        assert((w * reward) / w == reward && w * reward >= 0) by (nonlinear_arith)
            requires
                w > 0,
                reward >= 0,
        ;
    } else {
        let back = -reward;
        assert(-(w * reward) == w * back) by (nonlinear_arith)
            requires
                back == -reward,
        ;
        assert((w * back) / w == back && w * back > 0) by (nonlinear_arith)
            requires
                w > 0,
                back > 0,
        ;
    }
}

/// The rewards in a vector of `i64` lie in the range of an `i64`.
proof fn lemma_in_range(rewards: Seq<i64>)
    ensures
        forall|i: int|
            0 <= i < rewards.len() ==> i64::MIN <= #[trigger] int_values(rewards)[i] <= i64::MAX,
{
}

/// A window that was full before a reward was appended holds the same rewards
/// after it.
proof fn lemma_window_within(before: Seq<int>, reward: int, window: int, index: int, filled: int)
    requires
        window > 0,
        0 <= index < filled,
        filled * window <= before.len(),
    ensures
        window_average(before.push(reward), window, index) == window_average(before, window, index),
{
    assert(0 <= index * window <= (index + 1) * window <= filled * window) by (nonlinear_arith)
        requires
            window > 0,
            0 <= index < filled,
    ;
    assert(before.push(reward).subrange(index * window, (index + 1) * window) =~= before.subrange(
        index * window,
        (index + 1) * window,
    ));
}

/// Collects, episode by episode, what a training run reports.
///
/// `rewards()` is the reward of each episode in order; everything else is a
/// function of it and of the window: the running total after each episode, and
/// the average of each window of `window()` episodes that has been filled.
pub struct MetricsRecorder {
    window: usize,
    episode_rewards: Vec<i64>,
    cumulative_rewards: Vec<i128>,
    window_averages: Vec<i64>,
    batch_total: i128,
}

impl MetricsRecorder {
    /// The number of episodes in a window.
    pub closed spec fn window(&self) -> nat {
        self.window as nat
    }

    /// The reward of each recorded episode, oldest first.
    pub closed spec fn rewards(&self) -> Seq<int> {
        int_values(self.episode_rewards@)
    }

    /// The running totals and the window averages are those of `rewards()`.
    pub closed spec fn well_formed(&self) -> bool {
        let rewards = self.rewards();
        let filled = rewards.len() as int / self.window as int;
        &&& self.window > 0
        &&& self.cumulative_rewards.len() == rewards.len()
        &&& forall|i: int|
            0 <= i < rewards.len() ==> #[trigger] self.cumulative_rewards[i] == cumulative_reward(
                rewards,
                i,
            )
        &&& self.window_averages.len() == filled
        &&& forall|k: int|
            0 <= k < filled ==> #[trigger] self.window_averages[k] == window_average(
                rewards,
                self.window as int,
                k,
            )
        &&& self.batch_total == sum_of(
            rewards.subrange(filled * self.window, rewards.len() as int),
        )
    }

    /// A recorder without episodes that averages over windows of `window`
    /// episodes.
    pub fn new(window: usize) -> (recorder: Self)
        requires
            window > 0,
        ensures
            recorder.well_formed(),
            recorder.window() == window,
            recorder.rewards() == Seq::<int>::empty(),
    {
        let recorder = MetricsRecorder {
            window,
            episode_rewards: Vec::new(),
            cumulative_rewards: Vec::new(),
            window_averages: Vec::new(),
            batch_total: 0,
        };
        proof {
            assert(recorder.rewards() =~= Seq::<int>::empty());
            assert(0int / window as int == 0) by (nonlinear_arith)
                requires
                    window > 0,
            ;
            assert(0 * window == 0);
            assert(recorder.rewards().subrange(0, 0) =~= Seq::<int>::empty());
        }
        recorder
    }

    /// The number of episodes in a window.
    pub fn window_size(&self) -> (window: usize)
        ensures
            window == self.window(),
    {
        self.window
    }

    /// The reward of each recorded episode, oldest first.
    pub fn episode_rewards(&self) -> (rewards: &Vec<i64>)
        ensures
            int_values(rewards@) == self.rewards(),
    {
        &self.episode_rewards
    }

    /// The running total after each recorded episode.
    pub fn cumulative_rewards(&self) -> (totals: &Vec<i128>)
        requires
            self.well_formed(),
        ensures
            totals.len() == self.rewards().len(),
            forall|i: int|
                0 <= i < totals.len() ==> #[trigger] totals[i] == cumulative_reward(self.rewards(), i),
    {
        &self.cumulative_rewards
    }

    /// The average reward of each window that has been filled, oldest first.
    pub fn window_averages(&self) -> (averages: &Vec<i64>)
        requires
            self.well_formed(),
        ensures
            averages.len() == self.rewards().len() as int / self.window() as int,
            forall|k: int|
                0 <= k < averages.len() ==> #[trigger] averages[k] == window_average(
                    self.rewards(),
                    self.window() as int,
                    k,
                ),
    {
        &self.window_averages
    }

    /// Records the reward of the next episode. When the episode fills a window,
    /// the window's average is recorded too.
    pub fn record_episode(&mut self, reward: i64)
        requires
            old(self).well_formed(),
        ensures
            final(self).well_formed(),
            final(self).window() == old(self).window(),
            final(self).rewards() == old(self).rewards().push(reward as int),
    {
        let ghost before = self.rewards();
        let ghost after = before.push(reward as int);
        let ghost w = self.window as int;
        let ghost filled = before.len() as int / w;
        let ghost start = filled * w;
        let count = self.episode_rewards.len();
        let previous: i128 = if count == 0 {
            0
        } else {
            self.cumulative_rewards[count - 1]
        };
        self.episode_rewards.push(reward);
        proof {
            assert(self.rewards() =~= after);
            assert(before.take(before.len() as int) =~= before);
            assert(after.take(after.len() as int) =~= after);
            assert(after.drop_last() =~= before);
            assert(previous == sum_of(before)) by {
                if count > 0 {
                    assert(previous == cumulative_reward(before, count - 1));
                }
            }
            lemma_in_range(self.episode_rewards@);
            lemma_sum_bounds(after);
            assert(after.len() == self.episode_rewards.len() && self.episode_rewards.len()
                <= usize::MAX);
            assert(after.len() * i64::MIN >= -0x8000_0000_0000_0000_0000_0000_0000_0000
                && after.len() * i64::MAX <= 0x7fff_ffff_ffff_ffff_ffff_ffff_ffff_ffff)
                by (nonlinear_arith)
                requires
                    after.len() <= 0xffff_ffff_ffff_ffff,
            ;
            vstd::arithmetic::div_mod::lemma_fundamental_div_mod(before.len() as int, w);
            vstd::arithmetic::div_mod::lemma_mod_bound(before.len() as int, w);
            assert(0 <= start <= before.len()) by (nonlinear_arith)
                requires
                    start == filled * w,
                    before.len() == w * filled + (before.len() as int % w),
                    0 <= before.len() as int % w,
                    w > 0,
                    filled >= 0,
            ;
            assert(filled >= 0) by (nonlinear_arith)
                requires
                    filled == before.len() as int / w,
                    w > 0,
            ;
            assert(after.subrange(start, after.len() as int) =~= before.subrange(
                start,
                before.len() as int,
            ).push(reward as int));
            assert(after.subrange(start, after.len() as int).drop_last() =~= before.subrange(
                start,
                before.len() as int,
            ));
            lemma_in_range(self.episode_rewards@);
            lemma_sum_bounds(after.subrange(start, after.len() as int));
            assert((after.len() - start) * i64::MIN >= -0x8000_0000_0000_0000_0000_0000_0000_0000
                && (after.len() - start) * i64::MAX <= 0x7fff_ffff_ffff_ffff_ffff_ffff_ffff_ffff)
                by (nonlinear_arith)
                requires
                    0 <= after.len() - start <= 0xffff_ffff_ffff_ffff,
            ;
        }
        self.cumulative_rewards.push(previous + reward as i128);
        self.batch_total = self.batch_total + reward as i128;
        if self.episode_rewards.len() % self.window == 0 {
            proof {
                let batch = after.subrange(start, after.len() as int);
                vstd::arithmetic::div_mod::lemma_fundamental_div_mod(after.len() as int, w);
                assert(after.len() == (filled + 1) * w && after.len() as int / w == filled + 1)
                    by (nonlinear_arith)
                    requires
                        after.len() == before.len() + 1,
                        before.len() == w * filled + (before.len() as int % w),
                        0 <= before.len() as int % w < w,
                        after.len() == w * (after.len() as int / w),
                        w > 0,
                ;
                assert(batch.len() == w) by (nonlinear_arith)
                    requires
                        batch.len() == after.len() - filled * w,
                        after.len() == (filled + 1) * w,
                ;
                lemma_trunc_div_bounds(sum_of(batch), w);
                assert(w * i64::MIN <= sum_of(batch) <= w * i64::MAX);
                assert(i64::MIN <= trunc_div(sum_of(batch), w) <= i64::MAX) by (nonlinear_arith)
                    requires
                        w > 0,
                        w * i64::MIN <= sum_of(batch) <= w * i64::MAX,
                        trunc_div(sum_of(batch), w) == (if sum_of(batch) >= 0 {
                            sum_of(batch) / w
                        } else {
                            -((-sum_of(batch)) / w)
                        }),
                ;
            }
            let average: i128 = self.batch_total / (self.window as i128);
            self.window_averages.push(average as i64);
            self.batch_total = 0;
            proof {
                assert(after.subrange((filled + 1) * w, after.len() as int) =~= Seq::<int>::empty());
                assert forall|k: int| 0 <= k < filled + 1 implies #[trigger] self.window_averages[k]
                    == window_average(after, w, k) by {
                    if k < filled {
                        lemma_window_within(before, reward as int, w, k, filled);
                    }
                }
            }
        } else {
            proof {
                vstd::arithmetic::div_mod::lemma_fundamental_div_mod(after.len() as int, w);
                vstd::arithmetic::div_mod::lemma_mod_bound(after.len() as int, w);
                assert(after.len() as int / w == filled) by (nonlinear_arith)
                    requires
                        after.len() == before.len() + 1,
                        before.len() == w * filled + (before.len() as int % w),
                        0 <= before.len() as int % w < w,
                        after.len() == w * (after.len() as int / w) + (after.len() as int % w),
                        0 < after.len() as int % w < w,
                        w > 0,
                ;
                assert forall|k: int| 0 <= k < filled implies #[trigger] self.window_averages[k]
                    == window_average(after, w, k) by {
                    lemma_window_within(before, reward as int, w, k, filled);
                }
            }
        }
        proof {
            assert forall|i: int| 0 <= i < after.len() implies #[trigger] self.cumulative_rewards[i]
                == cumulative_reward(after, i) by {
                if i < before.len() {
                    assert(after.take(i + 1) =~= before.take(i + 1));
                }
            }
        }
    }
}

} // verus!
