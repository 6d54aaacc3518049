//! The action-value table: one row per state, one estimate per action.
//!
//! A table is a `Vec<Vec<i64>>`; contracts read it as a `Seq<Seq<int>>` through
//! [`table_view`]. Maxima are taken by a scan from the left that keeps the first
//! maximum it meets, so that every greedy choice is a function of the row.

use crate::fixed_point::int_values;
use vstd::prelude::*;

verus! {

/// The estimates of one row.
pub open spec fn row_view(row: &Vec<i64>) -> Seq<int> {
    int_values(row@)
}

/// The rows of a table.
pub open spec fn table_view(q: &Vec<Vec<i64>>) -> Seq<Seq<int>> {
    Seq::new(q.len() as nat, |s: int| row_view(&q[s]))
}

/// The table of `states` rows and `actions` columns that holds zero everywhere.
pub open spec fn zero_table(states: nat, actions: nat) -> Seq<Seq<int>> {
    Seq::new(states, |s: int| Seq::new(actions, |a: int| 0int))
}

/// Every one of the `states` rows has `actions` entries.
pub open spec fn has_shape<T>(t: Seq<Seq<T>>, states: nat, actions: nat) -> bool {
    &&& t.len() == states
    &&& forall|s: int| 0 <= s < t.len() ==> (#[trigger] t[s]).len() == actions
}

/// The index of the first maximum of `vals`, found by a scan from the left that
/// replaces its candidate only by a strictly larger entry; `0` where `vals` is
/// empty.
pub open spec fn first_max_index(vals: Seq<int>) -> int
    decreases vals.len(),
{
    if vals.len() <= 1 {
        0
    } else {
        let best = first_max_index(vals.drop_last());
        if vals.last() > vals[best] {
            vals.len() - 1
        } else {
            best
        }
    }
}

/// The largest entry of a row that is not empty.
pub open spec fn row_max(vals: Seq<int>) -> int {
    vals[first_max_index(vals)]
}

/// `policy` is the greedy policy of the table: it names, for each state, the
/// first action whose estimate is the largest of the row.
pub open spec fn is_greedy_policy(policy: Seq<usize>, t: Seq<Seq<int>>) -> bool {
    &&& policy.len() == t.len()
    &&& forall|s: int| 0 <= s < policy.len() ==> #[trigger] policy[s] == first_max_index(t[s])
}

/// The first maximum is a maximum, and every entry before it is strictly
/// smaller. These three facts determine the index.
pub proof fn lemma_first_max_index(vals: Seq<int>)
    requires
        vals.len() > 0,
    ensures
        0 <= first_max_index(vals) < vals.len(),
        forall|j: int| 0 <= j < vals.len() ==> #[trigger] vals[j] <= vals[first_max_index(vals)],
        forall|j: int| 0 <= j < first_max_index(vals) ==> #[trigger] vals[j] < vals[first_max_index(vals)],
    decreases vals.len(),
{
    if vals.len() > 1 {
        let front = vals.drop_last();
        lemma_first_max_index(front);
        let best = first_max_index(front);
        assert(forall|j: int| 0 <= j < front.len() ==> front[j] == vals[j]);
        assert(vals[best] == front[best]);
    }
}

/// An index that is a maximum with only strictly smaller entries before it is
/// the first maximum.
pub proof fn lemma_first_max_unique(vals: Seq<int>, k: int)
    requires
        0 <= k < vals.len(),
        forall|j: int| 0 <= j < vals.len() ==> #[trigger] vals[j] <= vals[k],
        forall|j: int| 0 <= j < k ==> #[trigger] vals[j] < vals[k],
    ensures
        k == first_max_index(vals),
{
    lemma_first_max_index(vals);
}

/// A table of `num_states` rows and `num_actions` columns, zero everywhere.
pub fn new_table(num_states: usize, num_actions: usize) -> (q: Vec<Vec<i64>>)
    ensures
        table_view(&q) == zero_table(num_states as nat, num_actions as nat),
        has_shape(table_view(&q), num_states as nat, num_actions as nat),
{
    let mut q: Vec<Vec<i64>> = Vec::new();
    let mut s: usize = 0;
    while s < num_states
        invariant
            s <= num_states,
            q.len() == s,
            forall|i: int|
                0 <= i < s ==> row_view(&#[trigger] q[i]) == Seq::new(
                    num_actions as nat,
                    |a: int| 0int,
                ),
        decreases num_states - s,
    {
        let mut row: Vec<i64> = Vec::new();
        let mut a: usize = 0;
        while a < num_actions
            invariant
                a <= num_actions,
                row.len() == a,
                forall|j: int| 0 <= j < a ==> #[trigger] row[j] == 0,
            decreases num_actions - a,
        {
            row.push(0);
            a = a + 1;
        }
        assert(row_view(&row) =~= Seq::new(num_actions as nat, |a: int| 0int));
        q.push(row);
        s = s + 1;
    }
    assert(table_view(&q) =~= zero_table(num_states as nat, num_actions as nat));
    q
}

/// The index of the first maximum of a row; `0` for an empty row.
pub fn argmax(row: &Vec<i64>) -> (best: usize)
    ensures
        best == first_max_index(row_view(row)),
        row.len() > 0 ==> best < row.len(),
{
    let mut best: usize = 0;
    let mut i: usize = 1;
    if row.len() == 0 {
        return 0;
    }
    assert(row_view(row).take(1).len() == 1);
    while i < row.len()
        invariant
            1 <= i <= row.len(),
            best < i,
            best == first_max_index(row_view(row).take(i as int)),
        decreases row.len() - i,
    {
        proof {
            let next = row_view(row).take(i + 1);
            assert(next.drop_last() =~= row_view(row).take(i as int));
            assert(next.last() == row[i as int]);
            assert(next[best as int] == row[best as int]);
        }
        if row[i] > row[best] {
            best = i;
        }
        i = i + 1;
    }
    assert(row_view(row).take(row.len() as int) =~= row_view(row));
    best
}

/// The largest estimate of a row that is not empty.
pub fn max_value(row: &Vec<i64>) -> (largest: i64)
    requires
        row.len() > 0,
    ensures
        largest == row_max(row_view(row)),
{
    let best = argmax(row);
    row[best]
}

/// The greedy policy of a table: for each state the first action with the
/// largest estimate.
pub fn derive_policy(q: &Vec<Vec<i64>>) -> (policy: Vec<usize>)
    ensures
        is_greedy_policy(policy@, table_view(q)),
        forall|s: int| 0 <= s < q.len() && q[s].len() > 0 ==> #[trigger] policy[s] < q[s].len(),
{
    let mut policy: Vec<usize> = Vec::new();
    let mut s: usize = 0;
    while s < q.len()
        invariant
            s <= q.len(),
            policy.len() == s,
            forall|i: int| 0 <= i < s ==> #[trigger] policy[i] == first_max_index(row_view(&q[i])),
            forall|i: int| 0 <= i < s && q[i].len() > 0 ==> #[trigger] policy[i] < q[i].len(),
        decreases q.len() - s,
    {
        let best = argmax(&q[s]);
        policy.push(best);
        s = s + 1;
    }
    policy
}

} // verus!
