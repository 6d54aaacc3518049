//! Fixed-point arithmetic for estimates, rewards and rates.
//!
//! A value is an `i64` that counts millionths; a rate (learning rate, discount,
//! exploration probability) is a `u32` that counts millionths too. Products are
//! rounded toward zero and results that leave the `i64` range stick at its ends.

use vstd::prelude::*;

verus! {

/// The number of units in one whole: `1.0` is written `SCALE`.
pub const SCALE: i64 = 1_000_000;

/// A sequence of values read as integers.
pub open spec fn int_values(values: Seq<i64>) -> Seq<int> {
    Seq::new(values.len(), |i: int| values[i] as int)
}

/// The quotient of `x` by a positive `d`, rounded toward zero.
pub open spec fn trunc_div(x: int, d: int) -> int {
    if x >= 0 {
        x / d
    } else {
        -((-x) / d)
    }
}

/// `x` brought into the range of a value.
pub open spec fn saturate(x: int) -> int {
    if x > i64::MAX {
        i64::MAX as int
    } else if x < i64::MIN {
        i64::MIN as int
    } else {
        x
    }
}

/// The product of a rate and a value, in value units.
pub open spec fn scaled(rate: int, x: int) -> int {
    trunc_div(rate * x, SCALE as int)
}

/// The reward of a step: the score after it less the score before it.
pub open spec fn score_delta(before: int, after: int) -> int {
    saturate(after - before)
}

/// The one-step target `reward + gamma * next_value`.
pub open spec fn td_target(reward: int, gamma: int, next_value: int) -> int {
    saturate(reward + scaled(gamma, next_value))
}

/// The estimate after one step of size `alpha` from `current` toward `target`:
/// `current + alpha * (target - current)`.
pub open spec fn td_step(current: int, alpha: int, target: int) -> int {
    saturate(current + scaled(alpha, target - current))
}

/// The sum of a sequence of values.
pub open spec fn sum_of(values: Seq<int>) -> int
    decreases values.len(),
{
    if values.len() == 0 {
        0
    } else {
        sum_of(values.drop_last()) + values.last()
    }
}

/// Rounding toward zero never leaves the span between zero and the dividend.
pub proof fn lemma_trunc_div_bounds(x: int, d: int)
    requires
        d > 0,
    ensures
        x >= 0 ==> 0 <= trunc_div(x, d) <= x,
        x <= 0 ==> x <= trunc_div(x, d) <= 0,
{
    if x >= 0 {
        assert(0 <= x / d <= x) by (nonlinear_arith)
            requires
                x >= 0,
                d > 0,
        ;
    } else {
        let y = -x;
        assert(0 <= y / d <= y) by (nonlinear_arith)
            requires
                y >= 0,
                d > 0,
        ;
    }
}

/// A product with a rate is bounded by the rate's largest value times the bound
/// on the other factor.
pub proof fn lemma_rate_product_bounds(rate: int, x: int, bound: int)
    requires
        0 <= rate <= u32::MAX,
        -bound <= x <= bound,
    ensures
        -(u32::MAX * bound) <= rate * x <= u32::MAX * bound,
{
    assert(-(u32::MAX * bound) <= rate * x <= u32::MAX * bound) by (nonlinear_arith)
        requires
            0 <= rate <= u32::MAX,
            -bound <= x <= bound,
    ;
}

/// A sum of values is bounded by their number times the ends of the range of a
/// value.
pub proof fn lemma_sum_bounds(values: Seq<int>)
    requires
        forall|i: int| 0 <= i < values.len() ==> i64::MIN <= #[trigger] values[i] <= i64::MAX,
    ensures
        values.len() * i64::MIN <= sum_of(values) <= values.len() * i64::MAX,
    decreases values.len(),
{
    if values.len() > 0 {
        let front = values.drop_last();
        lemma_sum_bounds(front);
        assert(values.len() * i64::MIN == front.len() * i64::MIN + i64::MIN) by (nonlinear_arith)
            requires
                values.len() == front.len() + 1,
        ;
        assert(values.len() * i64::MAX == front.len() * i64::MAX + i64::MAX) by (nonlinear_arith)
            requires
                values.len() == front.len() + 1,
        ;
    } else {
        assert(values.len() * i64::MIN == 0);
        assert(values.len() * i64::MAX == 0);
    }
}

/// The sum of `count` values that all equal `value` is `count * value`.
pub proof fn lemma_constant_sum(value: int, count: nat)
    ensures
        sum_of(Seq::new(count, |i: int| value)) == count * value,
    decreases count,
{
    let values = Seq::new(count, |i: int| value);
    if count > 0 {
        lemma_constant_sum(value, (count - 1) as nat);
        assert(values.drop_last() =~= Seq::new((count - 1) as nat, |i: int| value));
        assert(count * value == (count - 1) * value + value) by (nonlinear_arith);
    } else {
        assert(count * value == 0) by (nonlinear_arith)
            requires
                count == 0,
        ;
    }
}

/// Brings a wide intermediate result back into the range of a value.
pub fn saturate_value(x: i128) -> (v: i64)
    ensures
        v == saturate(x as int),
{
    if x > i64::MAX as i128 {
        i64::MAX
    } else if x < i64::MIN as i128 {
        i64::MIN
    } else {
        x as i64
    }
}

/// Multiplies a difference of two values by a rate.
fn scale(rate: u32, x: i128) -> (r: i128)
    requires
        -0x2_0000_0000_0000_0000 <= x <= 0x2_0000_0000_0000_0000,
    ensures
        r == scaled(rate as int, x as int),
        -0x2_0000_0000_0000_0000_0000_0000 <= r <= 0x2_0000_0000_0000_0000_0000_0000,
{
    proof {
        lemma_rate_product_bounds(rate as int, x as int, 0x2_0000_0000_0000_0000);
        lemma_trunc_div_bounds(rate as int * x as int, SCALE as int);
    }
    let product: i128 = (rate as i128) * x;
    product / (SCALE as i128)
}

/// The reward of a step, from the scores read before and after it.
pub fn reward_between(before: i64, after: i64) -> (reward: i64)
    ensures
        reward == score_delta(before as int, after as int),
{
    saturate_value(after as i128 - before as i128)
}

/// The one-step target for a reward and the value that follows it.
pub fn bootstrap_target(reward: i64, gamma: u32, next_value: i64) -> (target: i64)
    ensures
        target == td_target(reward as int, gamma as int, next_value as int),
{
    let later: i128 = scale(gamma, next_value as i128);
    saturate_value(reward as i128 + later)
}

/// Moves an estimate toward a target by the learning rate.
pub fn step_toward(current: i64, alpha: u32, target: i64) -> (updated: i64)
    ensures
        updated == td_step(current as int, alpha as int, target as int),
{
    let change: i128 = scale(alpha, target as i128 - current as i128);
    saturate_value(current as i128 + change)
}

/// At a fixed point, where the target equals the estimate, a step of any size
/// changes nothing.
pub proof fn lemma_step_at_fixed_point(current: int, alpha: int)
    requires
        i64::MIN <= current <= i64::MAX,
    ensures
        td_step(current, alpha, current) == current,
{
    assert(alpha * 0 == 0);
}

} // verus!
